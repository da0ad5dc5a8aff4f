use vstd::prelude::*;

verus! {

broadcast use vstd::string::group_string_axioms;

/// Appending one character to a `String` adds it at the end.
pub assume_specification[ String::push ](s: &mut String, ch: char)
    ensures
        final(s)@ == old(s)@.push(ch),
;

// ---------------------------------------------------------------------
// Specifications over character sequences
// ---------------------------------------------------------------------

/// `p` is a prefix of `s`.
pub open spec fn starts_with(s: Seq<char>, p: Seq<char>) -> bool {
    p.len() <= s.len() && s.take(p.len() as int) == p
}

/// `p` is a suffix of `s`.
pub open spec fn ends_with(s: Seq<char>, p: Seq<char>) -> bool {
    p.len() <= s.len() && s.skip(s.len() - p.len()) == p
}

/// `p` occurs in `s` starting at position `k`.
pub open spec fn occurs_at(s: Seq<char>, p: Seq<char>, k: int) -> bool {
    0 <= k && k + p.len() <= s.len() && s.subrange(k, k + p.len()) == p
}

/// `p` occurs somewhere in `s`.
pub open spec fn contains(s: Seq<char>, p: Seq<char>) -> bool {
    exists|k: int| occurs_at(s, p, k)
}

/// The pieces of `s` between the occurrences of `c`, as `str::split` with a
/// character pattern gives them: one more piece than there are occurrences.
pub open spec fn split_on(s: Seq<char>, c: char) -> Seq<Seq<char>>
    decreases s.len(),
{
    if s.len() == 0 {
        seq![Seq::<char>::empty()]
    } else {
        let prev = split_on(s.drop_last(), c);
        if s.last() == c {
            prev.push(Seq::<char>::empty())
        } else {
            prev.update(prev.len() - 1, prev.last().push(s.last()))
        }
    }
}

/// A line without the carriage return that ended it, if any.
pub open spec fn strip_cr(l: Seq<char>) -> Seq<char> {
    if l.len() > 0 && l.last() == '\r' {
        l.drop_last()
    } else {
        l
    }
}

/// The lines of `s`, as `str::lines` gives them: split at `\n`, a `\r`
/// right before a `\n` removed, and no empty last line after a final `\n`.
pub open spec fn lines(s: Seq<char>) -> Seq<Seq<char>> {
    let pieces = split_on(s, '\n');
    let n: int = if s.len() > 0 && s.last() != '\n' {
        pieces.len() as int
    } else {
        pieces.len() - 1
    };
    Seq::new(n as nat, |i: int| if i + 1 < pieces.len() { strip_cr(pieces[i]) } else { pieces[i] })
}

/// Unicode `White_Space`, the characters that `char::is_whitespace` accepts.
pub open spec fn is_whitespace(c: char) -> bool {
    ||| ('\t' <= c && c <= '\r')
    ||| c == ' '
    ||| c == '\u{85}'
    ||| c == '\u{a0}'
    ||| c == '\u{1680}'
    ||| ('\u{2000}' <= c && c <= '\u{200a}')
    ||| c == '\u{2028}'
    ||| c == '\u{2029}'
    ||| c == '\u{202f}'
    ||| c == '\u{205f}'
    ||| c == '\u{3000}'
}

/// The number of leading whitespace characters of `s`.
pub open spec fn lead_ws(s: Seq<char>) -> nat
    decreases s.len(),
{
    if s.len() > 0 && is_whitespace(s[0]) {
        1 + lead_ws(s.drop_first())
    } else {
        0
    }
}

/// `s` without its leading whitespace (`str::trim_start`).
pub open spec fn trim_start(s: Seq<char>) -> Seq<char> {
    s.skip(lead_ws(s) as int)
}

/// Every carriage return and line feed replaced by a space.
pub open spec fn unbreak(s: Seq<char>) -> Seq<char> {
    s.map_values(|c: char| if c == '\r' || c == '\n' { ' ' } else { c })
}

/// The decimal digit for `d < 10`.
pub open spec fn digit(d: nat) -> char {
    ((d + 48) as u8) as char
}

/// The decimal representation of `n`, without leading zeros.
pub open spec fn decimal(n: nat) -> Seq<char>
    decreases n,
{
    if n < 10 {
        seq![digit(n)]
    } else {
        decimal(n / 10).push(digit(n % 10))
    }
}

/// `s` padded on the left with zeros to at least `width` characters.
pub open spec fn zero_pad(s: Seq<char>, width: nat) -> Seq<char> {
    if s.len() < width {
        Seq::new((width - s.len()) as nat, |i: int| '0') + s
    } else {
        s
    }
}

/// The concatenation of all pieces, in order.
pub open spec fn concat(pieces: Seq<Seq<char>>) -> Seq<char>
    decreases pieces.len(),
{
    if pieces.len() == 0 {
        Seq::empty()
    } else {
        concat(pieces.drop_last()) + pieces.last()
    }
}

/// The pieces joined with `sep` between neighbours (`[T]::join`).
pub open spec fn join(pieces: Seq<Seq<char>>, sep: Seq<char>) -> Seq<char>
    decreases pieces.len(),
{
    if pieces.len() == 0 {
        Seq::empty()
    } else if pieces.len() == 1 {
        pieces[0]
    } else {
        join(pieces.drop_last(), sep) + sep + pieces.last()
    }
}

// ---------------------------------------------------------------------
// Lemmas
// ---------------------------------------------------------------------

/// Joining the pieces of `s` between the occurrences of `c` with `c` gives
/// back `s`.
pub proof fn lemma_join_split(s: Seq<char>, c: char)
    ensures
        join(split_on(s, c), seq![c]) == s,
    decreases s.len(),
{
    if s.len() == 0 {
        assert(join(split_on(s, c), seq![c]) =~= s);
    } else {
        let prev = split_on(s.drop_last(), c);
        lemma_join_split(s.drop_last(), c);
        lemma_split_on_nonempty(s.drop_last(), c);
        if s.last() == c {
            let ps = prev.push(Seq::<char>::empty());
            assert(ps.drop_last() =~= prev);
            assert(join(ps, seq![c]) =~= s);
        } else {
            let ps = prev.update(prev.len() - 1, prev.last().push(s.last()));
            if prev.len() == 1 {
                assert(join(ps, seq![c]) =~= s);
            } else {
                assert(ps.drop_last() =~= prev.drop_last());
                assert(ps.last() == prev.last().push(s.last()));
                let a = join(prev.drop_last(), seq![c]);
                assert(join(prev, seq![c]) == a + seq![c] + prev.last());
                assert(join(ps, seq![c]) == a + seq![c] + prev.last().push(s.last()));
                assert(a + seq![c] + prev.last().push(s.last()) =~= (a + seq![c] + prev.last()).push(s.last()));
                assert(s =~= s.drop_last().push(s.last()));
            }
        }
    }
}

/// Splitting always gives at least one piece.
pub proof fn lemma_split_on_nonempty(s: Seq<char>, c: char)
    ensures
        split_on(s, c).len() >= 1,
    decreases s.len(),
{
    if s.len() > 0 {
        lemma_split_on_nonempty(s.drop_last(), c);
    }
}

/// No piece of a split holds the separator.
pub proof fn lemma_split_on_no_sep(s: Seq<char>, c: char)
    ensures
        forall|i: int, j: int|
            0 <= i < split_on(s, c).len() && 0 <= j < split_on(s, c)[i].len() ==> #[trigger] split_on(s, c)[i][j]
                != c,
    decreases s.len(),
{
    if s.len() > 0 {
        lemma_split_on_no_sep(s.drop_last(), c);
        lemma_split_on_nonempty(s.drop_last(), c);
        let prev = split_on(s.drop_last(), c);
        let cur = split_on(s, c);
        assert forall|i: int, j: int| 0 <= i < cur.len() && 0 <= j < cur[i].len() implies #[trigger] cur[i][j] != c by {
            if s.last() == c {
                if i < prev.len() {
                    assert(cur[i] == prev[i]);
                }
            } else if i < prev.len() - 1 {
                assert(cur[i] == prev[i]);
            } else {
                assert(cur[i] == prev.last().push(s.last()));
                if j < prev.last().len() {
                    assert(prev.last() == prev[prev.len() - 1]);
                    assert(cur[i][j] == prev[prev.len() - 1][j]);
                }
            }
        }
    }
}

/// No line of a text holds a line feed.
pub proof fn lemma_lines_no_lf(s: Seq<char>)
    ensures
        forall|i: int, j: int|
            0 <= i < lines(s).len() && 0 <= j < lines(s)[i].len() ==> #[trigger] lines(s)[i][j] != '\n',
{
    lemma_split_on_no_sep(s, '\n');
    let ps = split_on(s, '\n');
    assert forall|i: int, j: int| 0 <= i < lines(s).len() && 0 <= j < lines(s)[i].len() implies #[trigger] lines(
        s,
    )[i][j] != '\n' by {
        assert(lines(s)[i][j] == ps[i][j]);
    }
}

/// Lines, each followed by a carriage return and a line feed.
pub open spec fn crlf_lines(xs: Seq<Seq<char>>) -> Seq<char>
    decreases xs.len(),
{
    if xs.len() == 0 {
        Seq::empty()
    } else {
        crlf_lines(xs.drop_last()) + xs.last() + "\r\n"@
    }
}

proof fn lemma_crlf_join(xs: Seq<Seq<char>>)
    requires
        xs.len() >= 1,
    ensures
        crlf_lines(xs) == join(xs.map_values(|x: Seq<char>| x.push('\r')), seq!['\n']) + seq!['\n'],
    decreases xs.len(),
{
    reveal_strlit("\r\n");
    let p = xs.map_values(|x: Seq<char>| x.push('\r'));
    if xs.len() == 1 {
        assert(p.len() == 1);
        assert(xs.drop_last() =~= Seq::<Seq<char>>::empty());
        assert(crlf_lines(xs.drop_last()) == Seq::<char>::empty());
        assert("\r\n"@ =~= seq!['\r', '\n']);
        assert(p[0] == xs[0].push('\r'));
        assert(xs.last() == xs[0]);
        assert(crlf_lines(xs) =~= p[0] + seq!['\n']);
    } else {
        let dl = xs.drop_last();
        lemma_crlf_join(dl);
        assert(p.drop_last() =~= dl.map_values(|x: Seq<char>| x.push('\r')));
        assert(p.last() == xs.last().push('\r'));
        assert(crlf_lines(xs) =~= join(p.drop_last(), seq!['\n']) + seq!['\n'] + p.last() + seq!['\n']);
    }
}

/// The lines of text written as lines ended by `\r\n` are those lines, when
/// none holds a line feed.
pub proof fn lemma_lines_of_crlf(xs: Seq<Seq<char>>)
    requires
        forall|i: int, j: int| 0 <= i < xs.len() && 0 <= j < xs[i].len() ==> #[trigger] xs[i][j] != '\n',
    ensures
        lines(crlf_lines(xs)) == xs,
{
    let s = crlf_lines(xs);
    if xs.len() == 0 {
        assert(lines(s) =~= xs);
    } else {
        lemma_crlf_join(xs);
        let p = xs.map_values(|x: Seq<char>| x.push('\r'));
        let ps = p.push(Seq::<char>::empty());
        assert(ps.drop_last() =~= p);
        assert(join(ps, seq!['\n']) =~= join(p, seq!['\n']) + seq!['\n']);
        assert forall|i: int, j: int| 0 <= i < ps.len() && 0 <= j < ps[i].len() implies #[trigger] ps[i][j] != '\n' by {
            if i < p.len() {
                assert(ps[i] == xs[i].push('\r'));
                if j < xs[i].len() {
                    assert(ps[i][j] == xs[i][j]);
                }
            }
        }
        lemma_split_join(ps, '\n');
        assert(s.len() > 0 && s.last() == '\n');
        assert forall|i: int| 0 <= i < xs.len() implies #[trigger] lines(s)[i] == xs[i] by {
            assert(ps[i] == xs[i].push('\r'));
            assert(xs[i].push('\r').drop_last() =~= xs[i]);
        }
        assert(lines(s) =~= xs);
    }
}

/// A text occurs in any text made of something, it, and something more.
pub proof fn lemma_contains_middle(a: Seq<char>, p: Seq<char>, b: Seq<char>)
    ensures
        contains(a + p + b, p),
{
    assert((a + p + b).subrange(a.len() as int, (a.len() + p.len()) as int) =~= p);
    assert(occurs_at(a + p + b, p, a.len() as int));
}

/// A text that occurs in `b` occurs in `a + b`.
pub proof fn lemma_contains_after(a: Seq<char>, b: Seq<char>, p: Seq<char>)
    requires
        contains(b, p),
    ensures
        contains(a + b, p),
{
    let k = choose|k: int| occurs_at(b, p, k);
    assert((a + b).subrange(a.len() + k, a.len() + k + p.len()) =~= b.subrange(k, k + p.len()));
    assert(occurs_at(a + b, p, a.len() + k));
}

/// A text that occurs in `a` occurs in `a + b`.
pub proof fn lemma_contains_before(a: Seq<char>, b: Seq<char>, p: Seq<char>)
    requires
        contains(a, p),
    ensures
        contains(a + b, p),
{
    let k = choose|k: int| occurs_at(a, p, k);
    assert((a + b).subrange(k, k + p.len()) =~= a.subrange(k, k + p.len()));
    assert(occurs_at(a + b, p, k));
}

/// A text without a line feed is one line of pieces.
pub proof fn lemma_split_one_line(l: Seq<char>)
    requires
        forall|j: int| 0 <= j < l.len() ==> l[j] != '\n',
    ensures
        split_on(l, '\n') == seq![l],
{
    lemma_split_on_plain(l, '\n');
}

/// A text without `c` is one piece.
proof fn lemma_split_on_plain(r: Seq<char>, c: char)
    requires
        forall|i: int| 0 <= i < r.len() ==> r[i] != c,
    ensures
        split_on(r, c) == seq![r],
    decreases r.len(),
{
    if r.len() == 0 {
        assert(r =~= Seq::<char>::empty());
    } else {
        lemma_split_on_plain(r.drop_last(), c);
        assert(r.last() == r[r.len() - 1]);
        assert(r.drop_last().push(r.last()) =~= r);
        assert(seq![r.drop_last()].update(0, r.drop_last().push(r.last())) =~= seq![r]);
    }
}

/// Splitting `s`, then `c`, then a text without `c`, gives the pieces of
/// `s` and that text.
proof fn lemma_split_on_after(s: Seq<char>, c: char, r: Seq<char>)
    requires
        forall|i: int| 0 <= i < r.len() ==> r[i] != c,
    ensures
        split_on(s + seq![c] + r, c) == split_on(s, c).push(r),
    decreases r.len(),
{
    let t = s + seq![c] + r;
    if r.len() == 0 {
        assert(r =~= Seq::<char>::empty());
        assert(t.drop_last() =~= s);
        assert(t.last() == c);
    } else {
        lemma_split_on_after(s, c, r.drop_last());
        assert(t.drop_last() =~= s + seq![c] + r.drop_last());
        assert(t.last() == r[r.len() - 1]);
        assert(r.drop_last().push(r.last()) =~= r);
        let prev = split_on(s, c).push(r.drop_last());
        assert(prev.update(prev.len() - 1, prev.last().push(t.last())) =~= split_on(s, c).push(r));
    }
}

/// Pieces without `c`, joined with `c`, split at `c` into the same pieces.
pub proof fn lemma_split_join(ls: Seq<Seq<char>>, c: char)
    requires
        ls.len() >= 1,
        forall|i: int, j: int| 0 <= i < ls.len() && 0 <= j < ls[i].len() ==> #[trigger] ls[i][j] != c,
    ensures
        split_on(join(ls, seq![c]), c) == ls,
    decreases ls.len(),
{
    if ls.len() == 1 {
        assert forall|j: int| 0 <= j < ls[0].len() implies ls[0][j] != c by {
            assert(ls[0][j] != c);
        }
        lemma_split_on_plain(ls[0], c);
        assert(seq![ls[0]] =~= ls);
    } else {
        let prev = ls.drop_last();
        assert forall|i: int, j: int| 0 <= i < prev.len() && 0 <= j < prev[i].len() implies #[trigger] prev[i][j]
            != c by {
            assert(prev[i] == ls[i]);
        }
        lemma_split_join(prev, c);
        let last = ls[ls.len() - 1];
        assert forall|j: int| 0 <= j < last.len() implies last[j] != c by {
            assert(ls[ls.len() - 1][j] != c);
        }
        lemma_split_on_after(join(prev, seq![c]), c, last);
        assert(prev.push(last) =~= ls);
    }
}

/// Joining two non-empty lists of pieces is joining their joins.
pub proof fn lemma_join_append(a: Seq<Seq<char>>, b: Seq<Seq<char>>, sep: Seq<char>)
    requires
        a.len() >= 1,
        b.len() >= 1,
    ensures
        join(a + b, sep) == join(a, sep) + sep + join(b, sep),
    decreases b.len(),
{
    assert((a + b).drop_last() =~= if b.len() == 1 { a } else { a + b.drop_last() });
    assert((a + b).last() == b.last());
    if b.len() == 1 {
        assert(b.last() == b[0]);
    } else {
        lemma_join_append(a, b.drop_last(), sep);
        assert(join(a, sep) + sep + join(b.drop_last(), sep) + sep + b.last() =~= join(a, sep) + sep + (join(
            b.drop_last(),
            sep,
        ) + sep + b.last()));
    }
}

proof fn lemma_lead_ws_step(s: Seq<char>, i: int)
    requires
        0 <= i <= s.len(),
    ensures
        i < s.len() && is_whitespace(s[i]) ==> lead_ws(s.skip(i)) == 1 + lead_ws(s.skip(i + 1)),
        i == s.len() || !is_whitespace(s[i]) ==> lead_ws(s.skip(i)) == 0,
{
    if i < s.len() {
        assert(s.skip(i).drop_first() =~= s.skip(i + 1));
    }
}

// ---------------------------------------------------------------------
// Executable helpers
// ---------------------------------------------------------------------

/// The characters of a string slice, in order.
pub fn chars_of(s: &str) -> (v: Vec<char>)
    ensures
        v@ == s@,
{
    let mut v: Vec<char> = Vec::new();
    for c in it: s.chars()
        invariant
            v@ == it.seq().take(it.index() as int),
    {
        v.push(c);
    }
    v
}

/// Appends `v[from..to]` to `out`.
pub fn push_range(out: &mut String, v: &Vec<char>, from: usize, to: usize)
    requires
        from <= to <= v.len(),
    ensures
        final(out)@ == old(out)@ + v@.subrange(from as int, to as int),
{
    let mut i = from;
    while i < to
        invariant
            from <= i <= to <= v.len(),
            out@ == old(out)@ + v@.subrange(from as int, i as int),
        decreases to - i,
    {
        out.push(v[i]);
        i = i + 1;
        assert(v@.subrange(from as int, i as int) =~= v@.subrange(from as int, i - 1).push(v@[i - 1]));
    }
}

/// Appends all of `v` to `out`.
pub fn push_chars(out: &mut String, v: &Vec<char>)
    ensures
        final(out)@ == old(out)@ + v@,
{
    push_range(out, v, 0, v.len());
    assert(v@.subrange(0, v.len() as int) =~= v@);
}

/// Whether `p` occurs in `v` at position `k`.
pub fn occurs_at_exec(v: &Vec<char>, p: &Vec<char>, k: usize) -> (r: bool)
    ensures
        r == occurs_at(v@, p@, k as int),
{
    if k > v.len() || p.len() > v.len() - k {
        return false;
    }
    let mut i: usize = 0;
    while i < p.len()
        invariant
            k + p.len() <= v.len(),
            i <= p.len(),
            forall|j: int| 0 <= j < i ==> v@[k + j] == p@[j],
        decreases p.len() - i,
    {
        if v[k + i] != p[i] {
            assert(v@.subrange(k as int, k + p.len())[i as int] != p@[i as int]);
            return false;
        }
        i = i + 1;
    }
    assert(v@.subrange(k as int, k + p.len()) =~= p@);
    true
}

/// Whether `v` starts with `p`.
pub fn starts_with_exec(v: &Vec<char>, p: &str) -> (r: bool)
    ensures
        r == starts_with(v@, p@),
{
    let pv = chars_of(p);
    let r = occurs_at_exec(v, &pv, 0);
    proof {
        if r {
            assert(v@.take(p@.len() as int) =~= v@.subrange(0, p@.len() as int));
        } else if p@.len() <= v@.len() {
            assert(v@.take(p@.len() as int) =~= v@.subrange(0, p@.len() as int));
        }
    }
    r
}

/// Whether `p` occurs somewhere in `v`.
pub fn contains_exec(v: &Vec<char>, p: &str) -> (r: bool)
    ensures
        r == contains(v@, p@),
{
    let pv = chars_of(p);
    if pv.len() == 0 {
        assert(v@.subrange(0, 0) =~= p@);
        assert(occurs_at(v@, p@, 0));
        return true;
    }
    if pv.len() > v.len() {
        assert forall|k: int| !occurs_at(v@, p@, k) by {}
        return false;
    }
    let mut k: usize = 0;
    while k <= v.len() - pv.len()
        invariant
            pv@ == p@,
            1 <= pv.len() <= v.len(),
            k <= v.len() - pv.len() + 1,
            forall|j: int| 0 <= j < k ==> !occurs_at(v@, p@, j),
        decreases v.len() - pv.len() + 1 - k,
    {
        if occurs_at_exec(v, &pv, k) {
            return true;
        }
        k = k + 1;
    }
    assert forall|j: int| !occurs_at(v@, p@, j) by {
        if 0 <= j < k {
        }
    }
    false
}

/// The position of the first character at or after `from` that is not
/// whitespace, or `v.len()`.
pub fn skip_whitespace(v: &Vec<char>, from: usize) -> (r: usize)
    requires
        from <= v.len(),
    ensures
        r == from + lead_ws(v@.skip(from as int)),
        r <= v.len(),
{
    let mut i = from;
    while i < v.len()
        invariant
            from <= i <= v.len(),
            from + lead_ws(v@.skip(from as int)) == i + lead_ws(v@.skip(i as int)),
        ensures
            from <= i <= v.len(),
            from + lead_ws(v@.skip(from as int)) == i + lead_ws(v@.skip(i as int)),
            i == v.len() || !is_whitespace(v@[i as int]),
        decreases v.len() - i,
    {
        proof {
            lemma_lead_ws_step(v@, i as int);
        }
        if !is_whitespace_exec(v[i]) {
            break;
        }
        i = i + 1;
    }
    proof {
        lemma_lead_ws_step(v@, i as int);
    }
    i
}

/// The pieces of `v` between the occurrences of `c` (`str::split`).
pub fn split_exec(v: &Vec<char>, c: char) -> (r: Vec<Vec<char>>)
    ensures
        r.len() == split_on(v@, c).len(),
        forall|j: int| 0 <= j < r.len() ==> #[trigger] r[j]@ == split_on(v@, c)[j],
{
    let mut done: Vec<Vec<char>> = Vec::new();
    let mut cur: Vec<char> = Vec::new();
    let mut i: usize = 0;
    proof {
        assert(v@.take(0) =~= Seq::<char>::empty());
    }
    while i < v.len()
        invariant
            i <= v.len(),
            split_on(v@.take(i as int), c).len() == done.len() + 1,
            forall|j: int| 0 <= j < done.len() ==> #[trigger] done[j]@ == split_on(v@.take(i as int), c)[j],
            cur@ == split_on(v@.take(i as int), c).last(),
        decreases v.len() - i,
    {
        let ghost prev = split_on(v@.take(i as int), c);
        proof {
            assert(v@.take(i + 1).drop_last() =~= v@.take(i as int));
            assert(v@.take(i + 1).last() == v@[i as int]);
        }
        if v[i] == c {
            done.push(cur);
            cur = Vec::new();
            proof {
                assert(split_on(v@.take(i + 1), c) == prev.push(Seq::<char>::empty()));
            }
        } else {
            cur.push(v[i]);
            proof {
                assert(split_on(v@.take(i + 1), c) == prev.update(prev.len() - 1, prev.last().push(v@[i as int])));
            }
        }
        i = i + 1;
    }
    proof {
        assert(v@.take(i as int) =~= v@);
    }
    done.push(cur);
    done
}

/// The lines of `v` (`str::lines`).
pub fn lines_exec(v: &Vec<char>) -> (r: Vec<Vec<char>>)
    ensures
        r.len() == lines(v@).len(),
        forall|j: int| 0 <= j < r.len() ==> #[trigger] r[j]@ == lines(v@)[j],
{
    let mut pieces = split_exec(v, '\n');
    let ghost sp = split_on(v@, '\n');
    let m = pieces.len();
    proof {
        lemma_split_on_nonempty(v@, '\n');
    }
    if !(v.len() > 0 && v[v.len() - 1] != '\n') {
        pieces.pop();
    }
    let n = pieces.len();
    assert(n == lines(v@).len());
    let mut rev: Vec<Vec<char>> = Vec::new();
    while pieces.len() > 0
        invariant
            n == lines(v@).len(),
            n <= m,
            m == sp.len(),
            sp == split_on(v@, '\n'),
            pieces.len() + rev.len() == n,
            forall|j: int| 0 <= j < pieces.len() ==> #[trigger] pieces[j]@ == sp[j],
            forall|j: int| 0 <= j < rev.len() ==> #[trigger] rev[j]@ == lines(v@)[n - 1 - j],
        decreases pieces.len(),
    {
        let mut p = pieces.pop().unwrap();
        let idx = pieces.len();
        if idx + 1 < m && p.len() > 0 && p[p.len() - 1] == '\r' {
            p.pop();
        }
        proof {
            assert(p@ == lines(v@)[idx as int]);
        }
        rev.push(p);
    }
    let mut out: Vec<Vec<char>> = Vec::new();
    while rev.len() > 0
        invariant
            n == lines(v@).len(),
            rev.len() + out.len() == n,
            forall|j: int| 0 <= j < rev.len() ==> #[trigger] rev[j]@ == lines(v@)[n - 1 - j],
            forall|j: int| 0 <= j < out.len() ==> #[trigger] out[j]@ == lines(v@)[j],
        decreases rev.len(),
    {
        let p = rev.pop().unwrap();
        out.push(p);
    }
    out
}

/// Every carriage return and line feed of `s` replaced by a space.
pub fn unbreak_exec(s: &str) -> (r: String)
    ensures
        r@ == unbreak(s@),
{
    let v = chars_of(s);
    let mut out = String::new();
    let mut i: usize = 0;
    while i < v.len()
        invariant
            v@ == s@,
            i <= v.len(),
            out@ == unbreak(v@.take(i as int)),
        decreases v.len() - i,
    {
        let c = v[i];
        if c == '\r' || c == '\n' {
            out.push(' ');
        } else {
            out.push(c);
        }
        proof {
            assert(unbreak(v@.take(i + 1)) =~= unbreak(v@.take(i as int)).push(
                if c == '\r' || c == '\n' { ' ' } else { c },
            ));
        }
        i = i + 1;
    }
    proof {
        assert(v@.take(i as int) =~= v@);
    }
    out
}

/// The decimal representation of `n` (`usize::to_string`).
pub fn decimal_exec(n: usize) -> (r: String)
    ensures
        r@ == decimal(n as nat),
    decreases n,
{
    if n < 10 {
        let mut out = String::new();
        out.push(digit_exec(n));
        proof {
            assert(out@ =~= seq![digit(n as nat)]);
        }
        out
    } else {
        let mut out = decimal_exec(n / 10);
        out.push(digit_exec(n % 10));
        out
    }
}

fn digit_exec(d: usize) -> (c: char)
    requires
        d < 10,
    ensures
        c == digit(d as nat),
{
    if d == 0 { '0' }
    else if d == 1 { '1' }
    else if d == 2 { '2' }
    else if d == 3 { '3' }
    else if d == 4 { '4' }
    else if d == 5 { '5' }
    else if d == 6 { '6' }
    else if d == 7 { '7' }
    else if d == 8 { '8' }
    else { '9' }
}

/// A copy of `v[from..to]`.
pub fn slice_exec(v: &Vec<char>, from: usize, to: usize) -> (r: Vec<char>)
    requires
        from <= to <= v.len(),
    ensures
        r@ == v@.subrange(from as int, to as int),
{
    let mut r: Vec<char> = Vec::new();
    let mut i = from;
    while i < to
        invariant
            from <= i <= to <= v.len(),
            r@ == v@.subrange(from as int, i as int),
        decreases to - i,
    {
        r.push(v[i]);
        i = i + 1;
        assert(v@.subrange(from as int, i as int) =~= v@.subrange(from as int, i - 1).push(v@[i - 1]));
    }
    r
}

/// `char::is_whitespace`.
pub fn is_whitespace_exec(c: char) -> (r: bool)
    ensures
        r == is_whitespace(c),
{
    ('\t' <= c && c <= '\r') || c == ' ' || c == '\u{85}' || c == '\u{a0}' || c == '\u{1680}'
        || ('\u{2000}' <= c && c <= '\u{200a}') || c == '\u{2028}' || c == '\u{2029}'
        || c == '\u{202f}' || c == '\u{205f}' || c == '\u{3000}'
}

} // verus!
