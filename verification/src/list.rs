use vstd::prelude::*;

use crate::mail::{Mail, MailAddress, MailDate};
use crate::order;
use crate::order::{sort_newest_first, Dated};

verus! {

broadcast use vstd::string::group_string_axioms;

impl Dated for Mail {
    open spec fn stamp(&self) -> int {
        self.date.timestamp()
    }

    fn timestamp(&self) -> (t: i64) {
        self.date.to_timestamp()
    }
}

/// The mails of an archive, grouped into threads.
pub struct MailingList {
    pub name: String,
    /// Each thread newest first.
    pub threads: Vec<Vec<Mail>>,
    /// Each message id with the index of its thread, in the order the mails
    /// were taken in.
    pub id_to_index: Vec<(String, usize)>,
}

// ---------------------------------------------------------------------
// Specifications
// ---------------------------------------------------------------------

/// The first thread at or after `k` whose first mail has the thread subject
/// `s`, or -1.
pub open spec fn find_thread(threads: Seq<Seq<Mail>>, s: Seq<char>, k: int) -> int
    decreases threads.len() - k,
{
    if k < 0 || k >= threads.len() {
        -1
    } else if threads[k].len() > 0 && threads[k][0].thread_subject@ == s {
        k
    } else {
        find_thread(threads, s, k + 1)
    }
}

/// Whether the id `id` is already taken in `ids`.
pub open spec fn id_taken(ids: Seq<(Seq<char>, int)>, id: Seq<char>) -> bool {
    exists|k: int| 0 <= k < ids.len() && (#[trigger] ids[k]).0 == id
}

/// One step of grouping: a mail whose id was seen is dropped; another joins
/// the thread of its thread subject, or starts a new one.
pub open spec fn group_step(st: (Seq<Seq<Mail>>, Seq<(Seq<char>, int)>), m: Mail) -> (
    Seq<Seq<Mail>>,
    Seq<(Seq<char>, int)>,
) {
    if id_taken(st.1, m.id@) {
        st
    } else {
        let t = find_thread(st.0, m.thread_subject@, 0);
        if t >= 0 {
            (st.0.update(t, st.0[t].push(m)), st.1.push((m.id@, t)))
        } else {
            (st.0.push(seq![m]), st.1.push((m.id@, st.0.len() as int)))
        }
    }
}

/// The threads, in order of their first mail, and the id index of `mails`,
/// before sorting.
pub open spec fn grouped(mails: Seq<Mail>) -> (Seq<Seq<Mail>>, Seq<(Seq<char>, int)>)
    decreases mails.len(),
{
    if mails.len() == 0 {
        (Seq::empty(), Seq::empty())
    } else {
        group_step(grouped(mails.drop_last()), mails.last())
    }
}

/// The model of an id index.
pub open spec fn index_view(ix: Seq<(String, usize)>) -> Seq<(Seq<char>, int)> {
    ix.map_values(|e: (String, usize)| (e.0@, e.1 as int))
}

/// Well-formed threads and id index: every thread has a mail, the mails of
/// a thread share their thread subject and no two threads do; ids are
/// unique and each points to the thread that holds its mail.
pub open spec fn well_grouped(threads: Seq<Seq<Mail>>, ids: Seq<(Seq<char>, int)>) -> bool {
    &&& forall|t: int| 0 <= t < threads.len() ==> (#[trigger] threads[t]).len() > 0
    &&& forall|t: int, i: int|
        0 <= t < threads.len() && 0 <= i < threads[t].len() ==> (#[trigger] threads[t][i]).thread_subject@
            == threads[t][0].thread_subject@
    &&& forall|t: int, u: int|
        0 <= t < u < threads.len() ==> (#[trigger] threads[t])[0].thread_subject@
            != (#[trigger] threads[u])[0].thread_subject@
    &&& forall|a: int, b: int| 0 <= a < b < ids.len() ==> (#[trigger] ids[a]).0 != (#[trigger] ids[b]).0
    &&& forall|k: int|
        0 <= k < ids.len() ==> 0 <= (#[trigger] ids[k]).1 < threads.len() && exists|i: int|
            0 <= i < threads[ids[k].1].len() && (#[trigger] threads[ids[k].1][i]).id@ == ids[k].0
}

/// What `find_thread` finds: no thread of that subject from `k` on, or
/// the first one.
proof fn lemma_find_thread(threads: Seq<Seq<Mail>>, s: Seq<char>, k: int)
    requires
        0 <= k,
    ensures
        find_thread(threads, s, k) == -1 ==> forall|j: int|
            k <= j < threads.len() ==> !((#[trigger] threads[j]).len() > 0 && threads[j][0].thread_subject@ == s),
        find_thread(threads, s, k) != -1 ==> k <= find_thread(threads, s, k) < threads.len()
            && threads[find_thread(threads, s, k)].len() > 0
            && threads[find_thread(threads, s, k)][0].thread_subject@ == s,
    decreases threads.len() - k,
{
    if k < threads.len() {
        lemma_find_thread(threads, s, k + 1);
    }
}

/// Grouping keeps threads and id index well formed, and indexes the id of
/// every mail it was given.
pub proof fn lemma_grouped_well(mails: Seq<Mail>)
    ensures
        well_grouped(grouped(mails).0, grouped(mails).1),
        forall|i: int| 0 <= i < mails.len() ==> id_taken(grouped(mails).1, (#[trigger] mails[i]).id@),
    decreases mails.len(),
{
    if mails.len() > 0 {
        let prev = mails.drop_last();
        lemma_grouped_well(prev);
        let st = grouped(prev);
        let m = mails.last();
        let nt = grouped(mails);
        assert(nt == group_step(st, m));
        if id_taken(st.1, m.id@) {
            assert forall|i: int| 0 <= i < mails.len() implies id_taken(nt.1, (#[trigger] mails[i]).id@) by {
                if i < mails.len() - 1 {
                    assert(mails[i] == prev[i]);
                }
            }
        } else {
            let t = find_thread(st.0, m.thread_subject@, 0);
            lemma_find_thread(st.0, m.thread_subject@, 0);
            let k = st.1.len() as int;
            assert(nt.1[k] == (m.id@, nt.1[k].1));
            if t >= 0 {
                let threads = nt.0;
                assert forall|u: int, i: int|
                    0 <= u < threads.len() && 0 <= i < threads[u].len() implies (#[trigger] threads[u][i]).thread_subject@
                        == threads[u][0].thread_subject@ by {
                    if u != t {
                        assert(threads[u] == st.0[u]);
                    } else if i < st.0[t].len() {
                        assert(threads[u][i] == st.0[t][i]);
                    }
                }
                assert forall|u: int, v: int|
                    0 <= u < v < threads.len() implies (#[trigger] threads[u])[0].thread_subject@
                        != (#[trigger] threads[v])[0].thread_subject@ by {
                    assert(threads[u][0] == st.0[u][0]);
                    assert(threads[v][0] == st.0[v][0]);
                    assert(st.0[u] == st.0[u]);
                }
                assert forall|q: int|
                    0 <= q < nt.1.len() implies 0 <= (#[trigger] nt.1[q]).1 < threads.len() && exists|i: int|
                        0 <= i < threads[nt.1[q].1].len() && (#[trigger] threads[nt.1[q].1][i]).id@ == nt.1[q].0 by {
                    if q < k {
                        assert(nt.1[q] == st.1[q]);
                        let u = st.1[q].1;
                        let i = choose|i: int| 0 <= i < st.0[u].len() && (#[trigger] st.0[u][i]).id@ == st.1[q].0;
                        assert(threads[u][i] == st.0[u][i]);
                    } else {
                        let i = st.0[t].len() as int;
                        assert(threads[t][i] == m);
                    }
                }
                assert forall|a: int, b: int| 0 <= a < b < nt.1.len() implies (#[trigger] nt.1[a]).0 != (#[trigger] nt.1[b]).0 by {
                    if b == k {
                        assert(nt.1[a] == st.1[a]);
                    } else {
                        assert(nt.1[a] == st.1[a]);
                        assert(nt.1[b] == st.1[b]);
                    }
                }
                assert forall|i: int| 0 <= i < mails.len() implies id_taken(nt.1, (#[trigger] mails[i]).id@) by {
                    if i < mails.len() - 1 {
                        assert(mails[i] == prev[i]);
                        let q = choose|q: int| 0 <= q < st.1.len() && (#[trigger] st.1[q]).0 == mails[i].id@;
                        assert(nt.1[q] == st.1[q]);
                    } else {
                        assert(nt.1[k].0 == m.id@);
                    }
                }
            } else {
                let threads = nt.0;
                assert forall|u: int, i: int|
                    0 <= u < threads.len() && 0 <= i < threads[u].len() implies (#[trigger] threads[u][i]).thread_subject@
                        == threads[u][0].thread_subject@ by {
                    if u < st.0.len() {
                        assert(threads[u] == st.0[u]);
                    }
                }
                assert forall|u: int, v: int|
                    0 <= u < v < threads.len() implies (#[trigger] threads[u])[0].thread_subject@
                        != (#[trigger] threads[v])[0].thread_subject@ by {
                    assert(threads[u] == st.0[u]);
                    if v < st.0.len() {
                        assert(threads[v] == st.0[v]);
                    } else {
                        assert(threads[v][0] == m);
                    }
                }
                assert forall|q: int|
                    0 <= q < nt.1.len() implies 0 <= (#[trigger] nt.1[q]).1 < threads.len() && exists|i: int|
                        0 <= i < threads[nt.1[q].1].len() && (#[trigger] threads[nt.1[q].1][i]).id@ == nt.1[q].0 by {
                    if q < k {
                        assert(nt.1[q] == st.1[q]);
                        let u = st.1[q].1;
                        let i = choose|i: int| 0 <= i < st.0[u].len() && (#[trigger] st.0[u][i]).id@ == st.1[q].0;
                        assert(threads[u] == st.0[u]);
                        assert(threads[u][i] == st.0[u][i]);
                    } else {
                        assert(threads[st.0.len() as int][0] == m);
                    }
                }
                assert forall|a: int, b: int| 0 <= a < b < nt.1.len() implies (#[trigger] nt.1[a]).0 != (#[trigger] nt.1[b]).0 by {
                    if b == k {
                        assert(nt.1[a] == st.1[a]);
                    } else {
                        assert(nt.1[a] == st.1[a]);
                        assert(nt.1[b] == st.1[b]);
                    }
                }
                assert forall|i: int| 0 <= i < mails.len() implies id_taken(nt.1, (#[trigger] mails[i]).id@) by {
                    if i < mails.len() - 1 {
                        assert(mails[i] == prev[i]);
                        let q = choose|q: int| 0 <= q < st.1.len() && (#[trigger] st.1[q]).0 == mails[i].id@;
                        assert(nt.1[q] == st.1[q]);
                    } else {
                        assert(nt.1[k].0 == m.id@);
                    }
                }
            }
        }
    }
}

/// `m` is one of the mails of `threads`.
pub open spec fn in_threads(threads: Seq<Seq<Mail>>, m: Mail) -> bool {
    exists|t: int, k: int| 0 <= t < threads.len() && 0 <= k < threads[t].len() && #[trigger] threads[t][k] == m
}

/// A mail before position `i` of `mails` has the message id of mail `i`.
pub open spec fn id_seen_before(mails: Seq<Mail>, i: int) -> bool {
    exists|j: int| 0 <= j < i && (#[trigger] mails[j]).id@ == mails[i].id@
}

/// One step of grouping keeps each mail of the threads in its place, and
/// adds the new mail, unless its id was taken.
proof fn lemma_group_step_keeps(st: (Seq<Seq<Mail>>, Seq<(Seq<char>, int)>), m: Mail)
    ensures
        forall|t: int, k: int|
            0 <= t < st.0.len() && 0 <= k < st.0[t].len() ==> t < group_step(st, m).0.len() && k
                < group_step(st, m).0[t].len() && group_step(st, m).0[t][k] == #[trigger] st.0[t][k],
        forall|t: int, k: int|
            0 <= t < group_step(st, m).0.len() && 0 <= k < group_step(st, m).0[t].len() ==> (t < st.0.len()
                && k < st.0[t].len()) || #[trigger] group_step(st, m).0[t][k] == m,
        !id_taken(st.1, m.id@) ==> in_threads(group_step(st, m).0, m),
{
    let nt = group_step(st, m);
    if !id_taken(st.1, m.id@) {
        let f = find_thread(st.0, m.thread_subject@, 0);
        lemma_find_thread(st.0, m.thread_subject@, 0);
        if f >= 0 {
            assert(nt.0 == st.0.update(f, st.0[f].push(m)));
            assert(nt.0[f][st.0[f].len() as int] == m);
        } else {
            assert(nt.0 == st.0.push(seq![m]));
            assert(nt.0[st.0.len() as int][0] == m);
        }
    }
}

/// A mail whose message id grouping finds taken has the id of a mail before it.
proof fn lemma_taken_seen(prev: Seq<Mail>, m: Mail)
    requires
        id_taken(grouped(prev).1, m.id@),
        forall|t: int, k: int|
            0 <= t < grouped(prev).0.len() && 0 <= k < grouped(prev).0[t].len() ==> exists|j: int|
                0 <= j < prev.len() && prev[j] == #[trigger] grouped(prev).0[t][k],
    ensures
        exists|j: int| 0 <= j < prev.len() && (#[trigger] prev[j]).id@ == m.id@,
{
    let st = grouped(prev);
    lemma_grouped_well(prev);
    let q = choose|q: int| 0 <= q < st.1.len() && (#[trigger] st.1[q]).0 == m.id@;
    let u = st.1[q].1;
    let x = choose|x: int| 0 <= x < st.0[u].len() && (#[trigger] st.0[u][x]).id@ == st.1[q].0;
    let j = choose|j: int| 0 <= j < prev.len() && prev[j] == #[trigger] st.0[u][x];
    assert(prev[j].id@ == m.id@);
}

/// Mails that were kept stay kept when one more mail is grouped.
proof fn lemma_kept_earlier(prev: Seq<Mail>, m: Mail)
    requires
        forall|i: int| 0 <= i < prev.len() ==> id_seen_before(prev, i) || in_threads(grouped(prev).0, #[trigger] prev[i]),
    ensures
        forall|i: int|
            0 <= i < prev.len() ==> id_seen_before(prev.push(m), i) || in_threads(
                group_step(grouped(prev), m).0,
                #[trigger] prev.push(m)[i],
            ),
{
    let ms = prev.push(m);
    let st = grouped(prev);
    let after = group_step(st, m).0;
    lemma_group_step_keeps(st, m);
    assert forall|i: int| 0 <= i < prev.len() implies id_seen_before(ms, i) || in_threads(after, #[trigger] ms[i]) by {
        assert(ms[i] == prev[i]);
        if id_seen_before(prev, i) {
            let j = choose|j: int| 0 <= j < i && (#[trigger] prev[j]).id@ == prev[i].id@;
            assert(ms[j] == prev[j]);
        } else {
            let (t, k) = choose|t: int, k: int|
                0 <= t < st.0.len() && 0 <= k < st.0[t].len() && #[trigger] st.0[t][k] == prev[i];
            assert(after[t][k] == st.0[t][k]);
        }
    }
}

/// Each mail of the threads that grouping makes is one of the mails given.
pub proof fn lemma_grouped_mails_given(mails: Seq<Mail>)
    ensures
        forall|t: int, k: int|
            0 <= t < grouped(mails).0.len() && 0 <= k < grouped(mails).0[t].len() ==> exists|j: int|
                0 <= j < mails.len() && mails[j] == #[trigger] grouped(mails).0[t][k],
    decreases mails.len(),
{
    if mails.len() > 0 {
        let prev = mails.drop_last();
        lemma_grouped_mails_given(prev);
        let st = grouped(prev);
        let m = mails.last();
        let n = prev.len() as int;
        let nt = grouped(mails);
        assert(nt == group_step(st, m));
        assert(mails[n] == m);
        lemma_group_step_keeps(st, m);
        assert forall|t: int, k: int|
            0 <= t < nt.0.len() && 0 <= k < nt.0[t].len() implies exists|j: int|
                0 <= j < mails.len() && mails[j] == #[trigger] nt.0[t][k] by {
            if t < st.0.len() && k < st.0[t].len() {
                let j = choose|j: int| 0 <= j < prev.len() && prev[j] == #[trigger] st.0[t][k];
                assert(mails[j] == prev[j]);
            } else {
                assert(mails[n] == nt.0[t][k]);
            }
        }
    }
}

/// No mail is lost in grouping: each mail given is in a thread, unless an
/// earlier one has its message id.
pub proof fn lemma_grouped_keeps_mails(mails: Seq<Mail>)
    ensures
        forall|i: int|
            0 <= i < mails.len() ==> id_seen_before(mails, i) || in_threads(grouped(mails).0, #[trigger] mails[i]),
    decreases mails.len(),
{
    if mails.len() > 0 {
        let prev = mails.drop_last();
        let m = mails.last();
        let n = prev.len() as int;
        lemma_grouped_keeps_mails(prev);
        lemma_grouped_mails_given(prev);
        let st = grouped(prev);
        assert(grouped(mails) == group_step(st, m));
        lemma_group_step_keeps(st, m);
        lemma_kept_earlier(prev, m);
        assert(mails =~= prev.push(m));
        if id_taken(st.1, m.id@) {
            lemma_taken_seen(prev, m);
            let j = choose|j: int| 0 <= j < prev.len() && (#[trigger] prev[j]).id@ == m.id@;
            assert(mails[j] == prev[j]);
            assert(id_seen_before(mails, n));
        } else {
            assert(in_threads(grouped(mails).0, mails[n]));
        }
    }
}

/// The number of mails in all threads.
pub open spec fn total_mails(threads: Seq<Seq<Mail>>) -> nat
    decreases threads.len(),
{
    if threads.len() == 0 {
        0
    } else {
        total_mails(threads.drop_last()) + threads.last().len()
    }
}

/// The id index has an entry `(id, t)`.
pub open spec fn has_entry(ids: Seq<(Seq<char>, int)>, id: Seq<char>, t: int) -> bool {
    exists|q: int| 0 <= q < ids.len() && ids[q] == (id, t)
}

/// The id index has one entry per mail of the threads: as many entries as
/// mails, an entry `(id, t)` for each mail of thread `t`, and no two mails
/// with one id.
pub open spec fn indexed_once(threads: Seq<Seq<Mail>>, ids: Seq<(Seq<char>, int)>) -> bool {
    &&& ids.len() == total_mails(threads)
    &&& forall|t: int, k: int|
        0 <= t < threads.len() && 0 <= k < threads[t].len() ==> #[trigger] has_entry(ids, threads[t][k].id@, t)
    &&& forall|t: int, k: int, u: int, x: int|
        0 <= t < threads.len() && 0 <= k < threads[t].len() && 0 <= u < threads.len() && 0 <= x
            < threads[u].len() && (t != u || k != x) ==> (#[trigger] threads[t][k]).id@
            != (#[trigger] threads[u][x]).id@
}

proof fn lemma_total_update(ts: Seq<Seq<Mail>>, f: int, x: Seq<Mail>)
    requires
        0 <= f < ts.len(),
    ensures
        total_mails(ts.update(f, x)) == total_mails(ts) - ts[f].len() + x.len(),
    decreases ts.len(),
{
    let u = ts.update(f, x);
    if f == ts.len() - 1 {
        assert(u.drop_last() =~= ts.drop_last());
    } else {
        lemma_total_update(ts.drop_last(), f, x);
        assert(u.drop_last() =~= ts.drop_last().update(f, x));
    }
}

proof fn lemma_total_same_lengths(a: Seq<Seq<Mail>>, b: Seq<Seq<Mail>>)
    requires
        a.len() == b.len(),
        forall|t: int| 0 <= t < a.len() ==> (#[trigger] a[t]).len() == b[t].len(),
    ensures
        total_mails(a) == total_mails(b),
    decreases a.len(),
{
    if a.len() > 0 {
        let (da, db) = (a.drop_last(), b.drop_last());
        assert forall|t: int| 0 <= t < da.len() implies (#[trigger] da[t]).len() == db[t].len() by {
            assert(da[t] == a[t] && db[t] == b[t]);
        }
        lemma_total_same_lengths(da, db);
    }
}

/// Grouping gives an id index with one entry per mail of the threads.
pub proof fn lemma_grouped_indexed_once(mails: Seq<Mail>)
    ensures
        indexed_once(grouped(mails).0, grouped(mails).1),
    decreases mails.len(),
{
    if mails.len() > 0 {
        let prev = mails.drop_last();
        lemma_grouped_indexed_once(prev);
        let st = grouped(prev);
        let m = mails.last();
        assert(grouped(mails) == group_step(st, m));
        if !id_taken(st.1, m.id@) {
            lemma_step_indexed_once(st, m);
        }
    }
}

proof fn lemma_step_indexed_once(st: (Seq<Seq<Mail>>, Seq<(Seq<char>, int)>), m: Mail)
    requires
        indexed_once(st.0, st.1),
        !id_taken(st.1, m.id@),
    ensures
        indexed_once(group_step(st, m).0, group_step(st, m).1),
{
    let nt = group_step(st, m);
    let f = find_thread(st.0, m.thread_subject@, 0);
    lemma_find_thread(st.0, m.thread_subject@, 0);
    lemma_group_step_keeps(st, m);
    let n = st.1.len() as int;
    // where the new mail went
    let (nt_t, nt_k) = if f >= 0 { (f, st.0[f].len() as int) } else { (st.0.len() as int, 0int) };
    if f >= 0 {
        assert(nt.0 == st.0.update(f, st.0[f].push(m)));
        lemma_total_update(st.0, f, st.0[f].push(m));
        assert(nt.1 == st.1.push((m.id@, f)));
    } else {
        assert(nt.0 == st.0.push(seq![m]));
        assert(nt.0.drop_last() =~= st.0);
        assert(nt.1 == st.1.push((m.id@, st.0.len() as int)));
    }
    assert(nt.0[nt_t][nt_k] == m);
    assert(nt.1[n] == (m.id@, nt_t));
    // a mail of the new threads is an old one at its old place, or the new one
    assert forall|t: int, k: int|
        0 <= t < nt.0.len() && 0 <= k < nt.0[t].len() implies (t < st.0.len() && k < st.0[t].len()
            && nt.0[t][k] == st.0[t][k]) || (t == nt_t && k == nt_k) by {
        if f >= 0 && t == f && k == st.0[f].len() {
        } else if f < 0 && t == st.0.len() {
            assert(nt.0[t] == seq![m]);
        } else {
            assert(nt.0[t][k] == st.0[t][k]);
        }
    }
    assert forall|t: int, k: int|
        0 <= t < nt.0.len() && 0 <= k < nt.0[t].len() implies #[trigger] has_entry(nt.1, nt.0[t][k].id@, t) by {
        if t == nt_t && k == nt_k {
            assert(nt.1[n] == (nt.0[t][k].id@, t));
        } else {
            assert(nt.0[t][k] == st.0[t][k]);
            assert(has_entry(st.1, st.0[t][k].id@, t));
            let q = choose|q: int| 0 <= q < st.1.len() && st.1[q] == (st.0[t][k].id@, t);
            assert(nt.1[q] == st.1[q]);
        }
    }
    assert forall|t: int, k: int, u: int, x: int|
        0 <= t < nt.0.len() && 0 <= k < nt.0[t].len() && 0 <= u < nt.0.len() && 0 <= x < nt.0[u].len() && (t
            != u || k != x) implies (#[trigger] nt.0[t][k]).id@ != (#[trigger] nt.0[u][x]).id@ by {
        let a_new = t == nt_t && k == nt_k;
        let b_new = u == nt_t && x == nt_k;
        if a_new && !b_new {
            assert(nt.0[u][x] == st.0[u][x]);
            assert(has_entry(st.1, st.0[u][x].id@, u));
            let q = choose|q: int| 0 <= q < st.1.len() && st.1[q] == (st.0[u][x].id@, u);
            assert(st.1[q].0 == st.0[u][x].id@);
        } else if b_new && !a_new {
            assert(nt.0[t][k] == st.0[t][k]);
            assert(has_entry(st.1, st.0[t][k].id@, t));
            let q = choose|q: int| 0 <= q < st.1.len() && st.1[q] == (st.0[t][k].id@, t);
            assert(st.1[q].0 == st.0[t][k].id@);
        } else if !a_new && !b_new {
            assert(nt.0[t][k] == st.0[t][k]);
            assert(nt.0[u][x] == st.0[u][x]);
        }
    }
}

/// Sorting each thread keeps one index entry per mail.
proof fn lemma_sorted_indexed_once(g: Seq<Seq<Mail>>, t: Seq<Seq<Mail>>, ids: Seq<(Seq<char>, int)>)
    requires
        indexed_once(g, ids),
        t.len() == g.len(),
        forall|u: int| 0 <= u < t.len() ==> order::newest_first(g[u], #[trigger] t[u]),
    ensures
        indexed_once(t, ids),
{
    assert forall|u: int| 0 <= u < t.len() implies (#[trigger] t[u]).len() == g[u].len() by {
        assert(order::newest_first(g[u], t[u]));
    }
    lemma_total_same_lengths(t, g);
    assert forall|u: int, k: int| 0 <= u < t.len() && 0 <= k < t[u].len() implies #[trigger] has_entry(
        ids,
        t[u][k].id@,
        u,
    ) by {
        assert(order::newest_first(g[u], t[u]));
        let p = choose|p: Seq<int>| order::newest_first_by(g[u], t[u], p);
        assert(t[u][k] == g[u][p[k]]);
        assert(has_entry(ids, g[u][p[k]].id@, u));
    }
    assert forall|u: int, k: int, v: int, x: int|
        0 <= u < t.len() && 0 <= k < t[u].len() && 0 <= v < t.len() && 0 <= x < t[v].len() && (u != v || k
            != x) implies (#[trigger] t[u][k]).id@ != (#[trigger] t[v][x]).id@ by {
        assert(order::newest_first(g[u], t[u]));
        assert(order::newest_first(g[v], t[v]));
        let p = choose|p: Seq<int>| order::newest_first_by(g[u], t[u], p);
        let r = choose|r: Seq<int>| order::newest_first_by(g[v], t[v], r);
        assert(t[u][k] == g[u][p[k]]);
        assert(t[v][x] == g[v][r[x]]);
        if u == v {
            assert(p == r);
            if k < x {
                assert(p[k] != p[x]);
            } else {
                assert(p[x] != p[k]);
            }
        }
        assert(g[u][p[k]].id@ != g[v][r[x]].id@);
    }
    assert(ids.len() == total_mails(t));
}

/// Sorting each thread keeps threads and id index well formed.
pub proof fn lemma_sorted_well(g: Seq<Seq<Mail>>, t: Seq<Seq<Mail>>, ids: Seq<(Seq<char>, int)>)
    requires
        well_grouped(g, ids),
        t.len() == g.len(),
        forall|u: int| 0 <= u < t.len() ==> order::newest_first(g[u], #[trigger] t[u]),
    ensures
        well_grouped(t, ids),
{
    assert forall|u: int| 0 <= u < t.len() implies (#[trigger] t[u]).len() > 0 by {
        assert(order::newest_first(g[u], t[u]));
        assert(g[u].len() > 0);
    }
    assert forall|u: int, i: int|
        0 <= u < t.len() && 0 <= i < t[u].len() implies (#[trigger] t[u][i]).thread_subject@
            == t[u][0].thread_subject@ by {
        assert(order::newest_first(g[u], t[u]));
        let p = choose|p: Seq<int>| order::newest_first_by(g[u], t[u], p);
        assert(t[u][i] == g[u][p[i]]);
        assert(t[u][0] == g[u][p[0]]);
        assert(g[u][p[i]].thread_subject@ == g[u][0].thread_subject@);
        assert(g[u][p[0]].thread_subject@ == g[u][0].thread_subject@);
    }
    assert forall|u: int| 0 <= u < t.len() implies (#[trigger] t[u])[0].thread_subject@ == g[u][0].thread_subject@ by {
        assert(order::newest_first(g[u], t[u]));
        let p = choose|p: Seq<int>| order::newest_first_by(g[u], t[u], p);
        assert(t[u][0] == g[u][p[0]]);
        assert(g[u][p[0]].thread_subject@ == g[u][0].thread_subject@);
    }
    assert forall|u: int, v: int|
        0 <= u < v < t.len() implies (#[trigger] t[u])[0].thread_subject@ != (#[trigger] t[v])[0].thread_subject@ by {
        assert(g[u][0].thread_subject@ != g[v][0].thread_subject@);
    }
    assert forall|q: int|
        0 <= q < ids.len() implies 0 <= (#[trigger] ids[q]).1 < t.len() && exists|i: int|
            0 <= i < t[ids[q].1].len() && (#[trigger] t[ids[q].1][i]).id@ == ids[q].0 by {
        let u = ids[q].1;
        let i = choose|i: int| 0 <= i < g[u].len() && (#[trigger] g[u][i]).id@ == ids[q].0;
        assert(order::newest_first(g[u], t[u]));
        let p = choose|p: Seq<int>| order::newest_first_by(g[u], t[u], p);
        assert(order::covers(p, i));
        let j = choose|j: int| 0 <= j < p.len() && p[j] == i;
        assert(t[u][j] == g[u][p[j]]);
    }
}

/// Sorting each thread keeps every mail in some thread, and adds none.
proof fn lemma_sorted_same_mails(g: Seq<Seq<Mail>>, t: Seq<Seq<Mail>>)
    requires
        t.len() == g.len(),
        forall|u: int| 0 <= u < t.len() ==> order::newest_first(g[u], #[trigger] t[u]),
    ensures
        forall|m: Mail| in_threads(g, m) ==> #[trigger] in_threads(t, m),
        forall|u: int, k: int|
            0 <= u < t.len() && 0 <= k < t[u].len() ==> in_threads(g, #[trigger] t[u][k]),
{
    assert forall|m: Mail| in_threads(g, m) implies #[trigger] in_threads(t, m) by {
        let (u, k) = choose|u: int, k: int| 0 <= u < g.len() && 0 <= k < g[u].len() && #[trigger] g[u][k] == m;
        assert(order::newest_first(g[u], t[u]));
        let p = choose|p: Seq<int>| order::newest_first_by(g[u], t[u], p);
        assert(order::covers(p, k));
        let j = choose|j: int| 0 <= j < p.len() && p[j] == k;
        assert(t[u][j] == g[u][p[j]]);
    }
    assert forall|u: int, k: int| 0 <= u < t.len() && 0 <= k < t[u].len() implies in_threads(g, #[trigger] t[u][k]) by {
        assert(order::newest_first(g[u], t[u]));
        let p = choose|p: Seq<int>| order::newest_first_by(g[u], t[u], p);
        assert(t[u][k] == g[u][p[k]]);
    }
}

/// The model of threads.
pub open spec fn threads_view(ts: Seq<Vec<Mail>>) -> Seq<Seq<Mail>> {
    ts.map_values(|t: Vec<Mail>| t@)
}

impl MailingList {
    /// Groups mails into threads: a mail whose message id was already seen
    /// is dropped, mails of the same thread subject share a thread, threads
    /// keep the order of their first mail, and each thread is sorted newest
    /// first.
    pub fn from_mails(name: String, mails: Vec<Mail>) -> (l: MailingList)
        ensures
            l.name@ == name@,
            index_view(l.id_to_index@) == grouped(mails@).1,
            l.threads.len() == grouped(mails@).0.len(),
            forall|t: int|
                0 <= t < l.threads.len() ==> order::newest_first(
                    grouped(mails@).0[t],
                    #[trigger] l.threads@[t]@,
                ),
            well_grouped(threads_view(l.threads@), index_view(l.id_to_index@)),
            forall|i: int|
                0 <= i < mails@.len() ==> id_taken(index_view(l.id_to_index@), (#[trigger] mails@[i]).id@),
            forall|i: int|
                0 <= i < mails@.len() ==> id_seen_before(mails@, i) || in_threads(
                    threads_view(l.threads@),
                    #[trigger] mails@[i],
                ),
            forall|t: int, k: int|
                0 <= t < l.threads.len() && 0 <= k < l.threads@[t].len() ==> exists|j: int|
                    0 <= j < mails@.len() && mails@[j] == #[trigger] l.threads@[t]@[k],
            indexed_once(threads_view(l.threads@), index_view(l.id_to_index@)),
    {
        let ghost ms = mails@;
        let mut threads: Vec<Vec<Mail>> = Vec::new();
        let mut ids: Vec<(String, usize)> = Vec::new();
        for m in it: mails
            invariant
                it.seq() == ms,
                threads_view(threads@) == grouped(ms.take(it.index() as int)).0,
                index_view(ids@) == grouped(ms.take(it.index() as int)).1,
        {
            let ghost k = it.index();
            let ghost st = grouped(ms.take(k as int));
            proof {
                assert(ms.take(k + 1).drop_last() =~= ms.take(k as int));
                assert(ms.take(k + 1).last() == m);
            }
            let mut seen = false;
            let mut q: usize = 0;
            while q < ids.len()
                invariant_except_break
                    !seen,
                invariant
                    q <= ids.len(),
                    index_view(ids@) == st.1,
                    forall|r: int| 0 <= r < q ==> (#[trigger] st.1[r]).0 != m.id@,
                ensures
                    seen ==> id_taken(st.1, m.id@),
                    !seen ==> q == ids.len(),
                    forall|r: int| 0 <= r < q ==> (#[trigger] st.1[r]).0 != m.id@,
                decreases ids.len() - q,
            {
                if ids[q].0 == m.id {
                    seen = true;
                    assert(st.1[q as int].0 == m.id@);
                    break;
                }
                q = q + 1;
            }
            if !seen {
                let ghost tv = threads_view(threads@);
                let mut t: usize = 0;
                let mut found = false;
                while t < threads.len()
                    invariant_except_break
                        !found,
                    invariant
                        t <= threads.len(),
                        tv == threads_view(threads@),
                        find_thread(tv, m.thread_subject@, 0) == find_thread(tv, m.thread_subject@, t as int),
                    ensures
                        found ==> t < threads.len() && find_thread(tv, m.thread_subject@, 0) == t,
                        !found ==> find_thread(tv, m.thread_subject@, 0) == -1,
                    decreases threads.len() - t,
                {
                    if threads[t].len() > 0 && threads[t][0].thread_subject == m.thread_subject {
                        found = true;
                        break;
                    }
                    t = t + 1;
                }
                let id = m.id.clone();
                if found {
                    let mut th = threads.remove(t);
                    th.push(m);
                    threads.insert(t, th);
                    ids.push((id, t));
                    proof {
                        assert(threads_view(threads@) =~= st.0.update(t as int, st.0[t as int].push(m)));
                        assert(index_view(ids@) =~= st.1.push((m.id@, t as int)));
                    }
                } else {
                    let idx = threads.len();
                    let one = vec![m];
                    assert(one@ =~= seq![m]);
                    threads.push(one);
                    ids.push((id, idx));
                    proof {
                        assert(threads_view(threads@) =~= st.0.push(seq![m]));
                        assert(index_view(ids@) =~= st.1.push((m.id@, idx as int)));
                    }
                }
            }
        }
        proof {
            assert(ms.take(ms.len() as int) =~= ms);
        }
        let ghost g = grouped(ms).0;
        let n = threads.len();
        let mut t: usize = 0;
        while t < n
            invariant
                t <= n,
                threads.len() == n,
                g.len() == n,
                forall|u: int| t <= u < n ==> (#[trigger] threads@[u])@ == g[u],
                forall|u: int| 0 <= u < t ==> order::newest_first(g[u], #[trigger] threads@[u]@),
            decreases n - t,
        {
            let mut th = threads.remove(t);
            sort_newest_first(&mut th);
            threads.insert(t, th);
            t = t + 1;
        }
        proof {
            lemma_grouped_well(ms);
            let tv = threads_view(threads@);
            assert forall|u: int| 0 <= u < tv.len() implies order::newest_first(g[u], #[trigger] tv[u]) by {
                assert(tv[u] == threads@[u]@);
            }
            lemma_sorted_well(g, tv, grouped(ms).1);
            lemma_grouped_keeps_mails(ms);
            lemma_grouped_mails_given(ms);
            lemma_sorted_same_mails(g, tv);
            lemma_grouped_indexed_once(ms);
            lemma_sorted_indexed_once(g, tv, grouped(ms).1);
            assert forall|i: int| 0 <= i < ms.len() implies id_seen_before(ms, i) || in_threads(
                tv,
                #[trigger] ms[i],
            ) by {
                if !id_seen_before(ms, i) {
                    assert(in_threads(g, ms[i]));
                }
            }
            assert forall|u: int, k: int| 0 <= u < tv.len() && 0 <= k < tv[u].len() implies exists|j: int|
                0 <= j < ms.len() && ms[j] == #[trigger] tv[u][k] by {
                assert(in_threads(g, tv[u][k]));
                let (v, x) = choose|v: int, x: int| 0 <= v < g.len() && 0 <= x < g[v].len() && #[trigger] g[v][x] == tv[u][k];
                let j = choose|j: int| 0 <= j < ms.len() && ms[j] == #[trigger] g[v][x];
            }
            assert forall|u: int, k: int| 0 <= u < threads.len() && 0 <= k < threads@[u].len() implies exists|j: int|
                0 <= j < ms.len() && ms[j] == #[trigger] threads@[u]@[k] by {
                assert(tv[u] == threads@[u]@);
                assert(tv[u][k] == threads@[u]@[k]);
            }
        }
        MailingList { name, threads, id_to_index: ids }
    }
}

/// A thread as the list index shows it.
#[derive(Debug)]
pub struct ThreadSummary {
    pub first_message_id: String,
    pub first_message_subject: String,
    pub first_message_from: MailAddress,
    pub first_message_preview: String,
    pub reply_count: usize,
    pub last_reply: MailDate,
}

impl Dated for ThreadSummary {
    open spec fn stamp(&self) -> int {
        self.last_reply.timestamp()
    }

    fn timestamp(&self) -> (t: i64) {
        self.last_reply.to_timestamp()
    }
}

/// The summary of a thread sorted newest first: its oldest mail opens it,
/// its newest gives the time of the last reply.
pub open spec fn summary_of(t: Seq<Mail>) -> ThreadSummary {
    ThreadSummary {
        first_message_id: t.last().id,
        first_message_subject: t.last().subject,
        first_message_from: t.last().from,
        first_message_preview: t.last().preview,
        reply_count: (t.len() - 1) as usize,
        last_reply: t[0].date,
    }
}

/// The summaries of the threads that have mails, in thread order.
pub open spec fn summaries_of(threads: Seq<Seq<Mail>>) -> Seq<ThreadSummary>
    decreases threads.len(),
{
    if threads.len() == 0 {
        Seq::empty()
    } else if threads.last().len() == 0 {
        summaries_of(threads.drop_last())
    } else {
        summaries_of(threads.drop_last()).push(summary_of(threads.last()))
    }
}

impl MailingList {
    /// The summaries of the threads that have mails, the thread with the
    /// latest reply first.
    pub fn build_thread_summaries(&self) -> (r: Vec<ThreadSummary>)
        ensures
            order::newest_first(summaries_of(threads_view(self.threads@)), r@),
    {
        let ghost tv = threads_view(self.threads@);
        let mut summaries: Vec<ThreadSummary> = Vec::new();
        let mut i: usize = 0;
        while i < self.threads.len()
            invariant
                i <= self.threads.len(),
                tv == threads_view(self.threads@),
                summaries@ == summaries_of(tv.take(i as int)),
            decreases self.threads.len() - i,
        {
            let thread = &self.threads[i];
            proof {
                assert(tv.take(i + 1).drop_last() =~= tv.take(i as int));
                assert(tv.take(i + 1).last() == thread@);
            }
            if thread.len() > 0 {
                let original = &thread[thread.len() - 1];
                let newest = &thread[0];
                let s = ThreadSummary {
                    first_message_id: original.id.clone(),
                    first_message_subject: original.subject.clone(),
                    first_message_from: original.from.duplicate(),
                    first_message_preview: original.preview.clone(),
                    reply_count: thread.len() - 1,
                    last_reply: newest.date,
                };
                summaries.push(s);
            }
            i = i + 1;
        }
        proof {
            assert(tv.take(i as int) =~= tv);
        }
        sort_newest_first(&mut summaries);
        summaries
    }
}

/// Each summary of `summaries_of` is that of some thread with mails.
proof fn lemma_summaries_from_threads(ts: Seq<Seq<Mail>>)
    ensures
        forall|j: int|
            0 <= j < summaries_of(ts).len() ==> exists|t: int|
                0 <= t < ts.len() && ts[t].len() > 0 && #[trigger] summaries_of(ts)[j] == summary_of(ts[t]),
    decreases ts.len(),
{
    if ts.len() > 0 {
        let dl = ts.drop_last();
        lemma_summaries_from_threads(dl);
        let prev = summaries_of(dl);
        assert forall|j: int| 0 <= j < summaries_of(ts).len() implies exists|t: int|
            0 <= t < ts.len() && ts[t].len() > 0 && #[trigger] summaries_of(ts)[j] == summary_of(ts[t]) by {
            if j < prev.len() {
                assert(summaries_of(ts)[j] == prev[j]);
                let t = choose|t: int| 0 <= t < dl.len() && dl[t].len() > 0 && prev[j] == summary_of(dl[t]);
                assert(dl[t] == ts[t]);
            } else {
                assert(ts.last() == ts[ts.len() - 1]);
            }
        }
    }
}

/// Each thread summary describes one thread with mails: its message id,
/// subject, sender and preview all come from the thread's oldest mail, the
/// one that opened it; its reply count is the number of the other mails;
/// its last reply is the date of the newest mail.
pub proof fn lemma_summaries_describe_threads(threads: Seq<Seq<Mail>>, r: Seq<ThreadSummary>)
    requires
        order::newest_first(summaries_of(threads), r),
    ensures
        forall|k: int|
            0 <= k < r.len() ==> exists|t: int|
                0 <= t < threads.len() && threads[t].len() > 0 && (#[trigger] r[k]).first_message_id
                    == threads[t][threads[t].len() - 1].id && r[k].first_message_subject
                    == threads[t][threads[t].len() - 1].subject && r[k].first_message_from
                    == threads[t][threads[t].len() - 1].from && r[k].first_message_preview
                    == threads[t][threads[t].len() - 1].preview && r[k].reply_count == (threads[t].len() - 1) as usize
                    && r[k].last_reply == threads[t][0].date,
{
    let sm = summaries_of(threads);
    lemma_summaries_from_threads(threads);
    let p = choose|p: Seq<int>| order::newest_first_by(sm, r, p);
    assert forall|k: int| 0 <= k < r.len() implies exists|t: int|
        0 <= t < threads.len() && threads[t].len() > 0 && (#[trigger] r[k]).first_message_id
            == threads[t][threads[t].len() - 1].id && r[k].first_message_subject
            == threads[t][threads[t].len() - 1].subject && r[k].first_message_from
            == threads[t][threads[t].len() - 1].from && r[k].first_message_preview
            == threads[t][threads[t].len() - 1].preview && r[k].reply_count == (threads[t].len() - 1) as usize
            && r[k].last_reply == threads[t][0].date by {
        assert(r[k] == sm[p[k]]);
        let t = choose|t: int| 0 <= t < threads.len() && threads[t].len() > 0 && #[trigger] sm[p[k]] == summary_of(threads[t]);
        assert(threads[t].last() == threads[t][threads[t].len() - 1]);
        assert(r[k].first_message_preview == threads[t][threads[t].len() - 1].preview);
        assert(r[k].reply_count == (threads[t].len() - 1) as usize);
    }
}

} // verus!
