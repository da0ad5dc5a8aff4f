use vstd::prelude::*;

verus! {

/// Something with a point in time, in seconds since the Unix epoch.
pub trait Dated {
    spec fn stamp(&self) -> int;

    fn timestamp(&self) -> (t: i64)
        ensures
            t == self.stamp(),
    ;
}

/// Some position of `p` holds `k`.
pub open spec fn covers(p: Seq<int>, k: int) -> bool {
    exists|i: int| 0 <= i < p.len() && p[i] == k
}

/// `out` holds the items of `input` as moved by `p` (`out[i] == input[p[i]]`),
/// newest first, items of the same time in their order in `input`.
pub open spec fn newest_first_by<T: Dated>(input: Seq<T>, out: Seq<T>, p: Seq<int>) -> bool {
    &&& out.len() == input.len()
    &&& p.len() == input.len()
    &&& forall|i: int| 0 <= i < p.len() ==> 0 <= #[trigger] p[i] < input.len()
    &&& forall|i: int, j: int| 0 <= i < j < p.len() ==> p[i] != p[j]
    &&& forall|k: int| 0 <= k < p.len() ==> #[trigger] covers(p, k)
    &&& forall|i: int| 0 <= i < out.len() ==> #[trigger] out[i] == input[p[i]]
    &&& forall|i: int, j: int|
        0 <= i < j < out.len() ==> (#[trigger] out[i]).stamp() > (#[trigger] out[j]).stamp() || (
        out[i].stamp() == out[j].stamp() && p[i] < p[j])
}

/// `out` is `input` sorted newest first, stably: an item comes before
/// another when it is newer, or as new and earlier in `input`.
pub open spec fn newest_first<T: Dated>(input: Seq<T>, out: Seq<T>) -> bool {
    exists|p: Seq<int>| newest_first_by(input, out, p)
}

/// Sorts `v` newest first; items of the same time keep their order.
pub fn sort_newest_first<T: Dated>(v: &mut Vec<T>)
    ensures
        newest_first(old(v)@, final(v)@),
{
    let ghost orig = v@;
    let n = v.len();
    let ghost mut p: Seq<int> = Seq::new(n as nat, |k: int| k);
    assert forall|k: int| 0 <= k < n implies #[trigger] covers(p, k) by {
        assert(p[k] == k);
    }
    if n == 0 {
        assert(newest_first_by(orig, v@, p));
        return;
    }
    let mut i: usize = 1;
    while i < n
        invariant
            1 <= i <= n,
            n == orig.len(),
            v@.len() == n,
            p.len() == n,
            forall|k: int| 0 <= k < i ==> 0 <= #[trigger] p[k] < i,
            forall|k: int| i <= k < n ==> #[trigger] p[k] == k,
            forall|a: int, b: int| 0 <= a < b < n ==> p[a] != p[b],
            forall|k: int| 0 <= k < n ==> #[trigger] covers(p, k),
            forall|k: int| 0 <= k < n ==> #[trigger] v@[k] == orig[p[k]],
            forall|a: int, b: int|
                0 <= a < b < i ==> (#[trigger] v@[a]).stamp() > (#[trigger] v@[b]).stamp() || (
                v@[a].stamp() == v@[b].stamp() && p[a] < p[b]),
        decreases n - i,
    {
        let ghost before = v@;
        let ghost pb = p;
        let x = v.remove(i);
        let key = x.timestamp();
        let mut j: usize = 0;
        while j < i
            invariant
                j <= i,
                i < n,
                before.len() == n,
                v@ == before.remove(i as int),
                forall|k: int| 0 <= k < j ==> #[trigger] v@[k].stamp() >= key,
            ensures
                j <= i,
                v@ == before.remove(i as int),
                forall|k: int| 0 <= k < j ==> #[trigger] v@[k].stamp() >= key,
                j == i || v@[j as int].stamp() < key,
            decreases i - j,
        {
            let t = v[j].timestamp();
            if t < key {
                break;
            }
            j = j + 1;
        }
        assert(j == i || v@[j as int].stamp() < key);
        let ghost xs = x;
        v.insert(j, x);
        proof {
            p = pb.take(j as int).push(i as int) + pb.subrange(j as int, i as int) + pb.skip(i + 1);
            assert(p.len() == n);
            assert forall|k: int| 0 <= k < n implies #[trigger] v@[k] == orig[p[k]] by {
                if k < j {
                    assert(v@[k] == before[k]);
                } else if k == j {
                    assert(v@[k] == xs);
                    assert(xs == before[i as int]);
                } else if k <= i {
                    assert(v@[k] == before[k - 1]);
                    assert(p[k] == pb[k - 1]);
                } else {
                    assert(v@[k] == before[k]);
                    assert(p[k] == pb[k]);
                }
            }
            assert forall|k: int| 0 <= k < i + 1 implies 0 <= #[trigger] p[k] < i + 1 by {
                if k < j {
                    assert(p[k] == pb[k]);
                } else if k == j {
                } else {
                    assert(p[k] == pb[k - 1]);
                }
            }
            assert forall|k: int| 0 <= k < n implies #[trigger] covers(p, k) by {
                if k == i {
                    assert(p[j as int] == i);
                } else {
                    assert(covers(pb, k));
                    let a = choose|a: int| 0 <= a < n && pb[a] == k;
                    if a < j {
                        assert(p[a] == k);
                    } else if a < i {
                        assert(p[a + 1] == pb[a]);
                    } else if a == i {
                        assert(pb[a] == i);
                    } else {
                        assert(p[a] == pb[a]);
                    }
                }
            }
            assert forall|k: int| i + 1 <= k < n implies #[trigger] p[k] == k by {
                assert(p[k] == pb[k]);
            }
            assert forall|a: int, b: int| 0 <= a < b < n implies p[a] != p[b] by {
                let pa = if a < j { a } else if a == j { i as int } else if a <= i { a - 1 } else { a };
                let pbb = if b < j { b } else if b == j { i as int } else if b <= i { b - 1 } else { b };
                if a == j {
                    assert(p[a] == i);
                    if b <= i {
                        assert(p[b] == pb[b - 1]);
                        assert(pb[b - 1] < i);
                    } else {
                        assert(p[b] == b);
                    }
                } else if b == j {
                    assert(p[b] == i);
                    assert(p[a] == pb[a]);
                    assert(pb[a] < i);
                } else {
                    assert(p[a] == pb[pa]);
                    assert(p[b] == pb[pbb]);
                    assert(pa < pbb);
                }
            }
            assert forall|a: int, b: int|
                0 <= a < b < i + 1 implies (#[trigger] v@[a]).stamp() > (#[trigger] v@[b]).stamp() || (
                v@[a].stamp() == v@[b].stamp() && p[a] < p[b]) by {
                let pa = if a < j { a } else if a == j { i as int } else { a - 1 };
                let pbb = if b < j { b } else if b == j { i as int } else { b - 1 };
                if a == j {
                    // the items moved up behind `x` are no newer than the one
                    // that stopped the search, which is older than `x`
                    assert(before.remove(i as int)[j as int] == before[j as int]);
                    assert(v@[b] == before[pbb]);
                    assert(pbb == j || before[j as int].stamp() >= before[pbb].stamp());
                } else if b == j {
                    assert(v@[a] == before[a]);
                    assert(before.remove(i as int)[a] == before[a]);
                    assert(v@[a].stamp() >= key);
                    assert(p[a] == pb[a]);
                    assert(pb[a] < i);
                } else {
                    assert(v@[a] == before[pa]);
                    assert(v@[b] == before[pbb]);
                    assert(p[a] == pb[pa]);
                    assert(p[b] == pb[pbb]);
                    assert(pa < pbb);
                }
            }
        }
        i = i + 1;
    }
    assert(newest_first_by(orig, v@, p));
}

} // verus!
