use vstd::prelude::*;

use lettre::message::header::ContentType;
use lettre::message::Mailbox;

use crate::body;
use crate::text;
use crate::text::{chars_of, is_whitespace_exec, push_chars, starts_with_exec};

verus! {

broadcast use vstd::string::group_string_axioms;

/// The width that a flowed line is wrapped at, in bytes.
pub const FLOW_WIDTH: usize = 40;

// ---------------------------------------------------------------------
// Specifications
// ---------------------------------------------------------------------

/// What `str::to_lowercase` gives for a text (Unicode lower case mapping).
pub uninterp spec fn lowercase(s: Seq<char>) -> Seq<char>;

/// Calls `str::to_lowercase`; claims the result named by `lowercase`.
#[verifier::external_body]
fn to_lowercase_of(s: &str) -> (r: String)
    ensures
        r@ == lowercase(s@),
{
    s.to_lowercase()
}

/// A display name and address for a sender: `Name <name.lowered@domain>`.
pub open spec fn email_address_text(name: Seq<char>, domain: Seq<char>) -> Seq<char> {
    let local = lowercase(name).map_values(|c: char| if c == ' ' { '.' } else { c });
    name + " <"@ + local + "@"@ + domain + ">"@
}

/// The subject of a reply: `Re: ` before the subject unless it is there.
pub open spec fn reply_subject_text(s: Seq<char>) -> Seq<char> {
    if text::starts_with(s, "Re: "@) {
        s
    } else {
        "Re: "@ + s
    }
}

/// The words of a text and the word being read, after its prefix `s`.
pub open spec fn words_fold(s: Seq<char>) -> (Seq<Seq<char>>, Seq<char>)
    decreases s.len(),
{
    if s.len() == 0 {
        (Seq::empty(), Seq::empty())
    } else {
        let st = words_fold(s.drop_last());
        let c = s.last();
        if text::is_whitespace(c) {
            if st.1.len() > 0 {
                (st.0.push(st.1), Seq::empty())
            } else {
                st
            }
        } else {
            (st.0, st.1.push(c))
        }
    }
}

/// The words of a text (`str::split_whitespace`).
pub open spec fn words(s: Seq<char>) -> Seq<Seq<char>> {
    let st = words_fold(s);
    if st.1.len() > 0 {
        st.0.push(st.1)
    } else {
        st.0
    }
}

/// The length in bytes of the UTF-8 encoding of `c`.
pub open spec fn char_byte_len(c: char) -> int {
    if (c as u32) < 0x80 {
        1
    } else if (c as u32) < 0x800 {
        2
    } else if (c as u32) < 0x10000 {
        3
    } else {
        4
    }
}

/// The length in bytes of the UTF-8 encoding of `s` (`str::len`).
pub open spec fn byte_len(s: Seq<char>) -> int
    decreases s.len(),
{
    if s.len() == 0 {
        0
    } else {
        byte_len(s.drop_last()) + char_byte_len(s.last())
    }
}

/// One step of wrapping a paragraph: the text so far and the open line,
/// after the word `w`; the open line is written out after the last word.
pub open spec fn wrap_step(st: (Seq<char>, Seq<char>), w: Seq<char>, last: bool) -> (Seq<char>, Seq<char>) {
    let broken = if st.1.len() > 0 && byte_len(st.1) + byte_len(w) > FLOW_WIDTH {
        (st.0 + st.1 + " \n"@, Seq::<char>::empty())
    } else {
        st
    };
    let line = if broken.1.len() > 0 { broken.1.push(' ') } else { broken.1 };
    let line = line + w;
    if last {
        (broken.0 + line, line)
    } else {
        (broken.0, line)
    }
}

/// Wrapping the words `ws[..k]` of a paragraph of `n` words.
pub open spec fn wrap_fold(ws: Seq<Seq<char>>, k: int) -> (Seq<char>, Seq<char>)
    decreases k,
{
    if k <= 0 {
        (Seq::empty(), Seq::empty())
    } else {
        wrap_step(wrap_fold(ws, k - 1), ws[k - 1], k == ws.len())
    }
}

/// A paragraph as format=flowed text: lines of about `FLOW_WIDTH` bytes,
/// each but the last ending in a space.
pub open spec fn flowed_paragraph(p: Seq<char>) -> Seq<char> {
    let ws = words(p);
    wrap_fold(ws, ws.len() as int).0
}

/// Paragraphs as format=flowed text, separated by blank lines.
pub open spec fn flowed_body(ps: Seq<Seq<char>>) -> Seq<char>
    decreases ps.len(),
{
    if ps.len() == 0 {
        Seq::empty()
    } else if ps.len() == 1 {
        flowed_paragraph(ps[0])
    } else {
        flowed_body(ps.drop_last()) + "\n\n"@ + flowed_paragraph(ps.last())
    }
}

/// The views of string slices.
pub open spec fn strs_view(ps: Seq<&str>) -> Seq<Seq<char>> {
    ps.map_values(|p: &str| p@)
}

// ---------------------------------------------------------------------
// Executable functions
// ---------------------------------------------------------------------

/// A sender for a sample mail: the name, then the address made of the
/// lower-cased name, spaces turned into dots, at `domain`.
pub fn email_address(name: &str, domain: &str) -> (r: String)
    ensures
        r@ == email_address_text(name@, domain@),
{
    let lower = to_lowercase_of(name);
    let lv = chars_of(lower.as_str());
    let mut local = String::new();
    let mut i: usize = 0;
    while i < lv.len()
        invariant
            lv@ == lowercase(name@),
            i <= lv.len(),
            local@ == lv@.take(i as int).map_values(|c: char| if c == ' ' { '.' } else { c }),
        decreases lv.len() - i,
    {
        let c = lv[i];
        local.push(if c == ' ' { '.' } else { c });
        proof {
            assert(lv@.take(i + 1).map_values(|c: char| if c == ' ' { '.' } else { c }) =~= lv@.take(
                i as int,
            ).map_values(|c: char| if c == ' ' { '.' } else { c }).push(if c == ' ' { '.' } else { c }));
        }
        i = i + 1;
    }
    proof {
        assert(lv@.take(i as int) =~= lv@);
    }
    let mut out = String::from_str(name);
    out.append(" <");
    out.append(local.as_str());
    out.append("@");
    out.append(domain);
    out.append(">");
    out
}

/// The subject of a reply to a mail with subject `original`.
pub fn reply_subject(original: &str) -> (r: String)
    ensures
        r@ == reply_subject_text(original@),
{
    let v = chars_of(original);
    if starts_with_exec(&v, "Re: ") {
        String::from_str(original)
    } else {
        let mut out = String::from_str("Re: ");
        out.append(original);
        out
    }
}

/// The subject and the replied-to message id of sample mail number `i`,
/// given the (subject, message id) of the mails made before it and the
/// random draws: after the first four mails, a mail whose reply draw is
/// true answers the earlier mail `pick` (its subject made a reply, its id
/// referred to); any other mail starts a thread with subject `subject_pick`.
pub fn next_sample_headers(
    i: usize,
    earlier: &Vec<(String, String)>,
    reply_draw: bool,
    pick: usize,
    subjects: &[&str],
    subject_pick: usize,
) -> (r: (String, Option<String>))
    requires
        earlier@.len() > 0 ==> pick < earlier@.len(),
        subject_pick < subjects@.len(),
    ensures
        (i > 3 && reply_draw && earlier@.len() > 0) ==> r.0@ == reply_subject_text(earlier@[pick as int].0@)
            && r.1.deep_view() == Some(earlier@[pick as int].1@),
        !(i > 3 && reply_draw && earlier@.len() > 0) ==> r.0@ == subjects@[subject_pick as int]@ && r.1 is None,
{
    if i > 3 && reply_draw && earlier.len() > 0 {
        let e = &earlier[pick];
        (reply_subject(e.0.as_str()), Some(String::from_str(e.1.as_str())))
    } else {
        (String::from_str(subjects[subject_pick]), None)
    }
}

/// The address of the sample list `list`.
pub fn list_address(list: &str) -> (r: String)
    ensures
        r@ == list@ + "@lists.example.com"@,
{
    let mut out = String::from_str(list);
    out.append("@lists.example.com");
    out
}

/// The message id of a sample mail of `list` made from the unique `unique`.
pub fn sample_message_id(unique: &str, list: &str) -> (r: String)
    ensures
        r@ == unique@ + "."@ + list@ + "@example.com"@,
{
    let mut out = String::from_str(unique);
    out.append(".");
    out.append(list);
    out.append("@example.com");
    out
}

/// Where a sample mail is stored: a seen mail in `cur` under
/// `unique:2,S`, a new one in `new` under `unique`.
pub fn maildir_place(unique: &str, seen: bool) -> (r: (String, String))
    ensures
        seen ==> r.0@ == "cur"@ && r.1@ == unique@ + ":2,S"@,
        !seen ==> r.0@ == "new"@ && r.1@ == unique@,
{
    if seen {
        let mut f = String::from_str(unique);
        f.append(":2,S");
        (String::from_str("cur"), f)
    } else {
        (String::from_str("new"), String::from_str(unique))
    }
}

/// Seconds in `days` days and `hours` hours.
pub fn seconds_ago(days: u64, hours: u64) -> (r: u64)
    requires
        days * 86400 + hours * 3600 <= u64::MAX,
    ensures
        r == days * 86400 + hours * 3600,
{
    days * 86400 + hours * 3600
}

/// Paragraphs as a plain body, separated by blank lines.
pub fn body_plain(paragraphs: &[&str]) -> (r: String)
    ensures
        r@ == text::join(strs_view(paragraphs@), "\n\n"@),
{
    let ghost pv = strs_view(paragraphs@);
    let mut out = String::new();
    let mut i: usize = 0;
    proof {
        assert(pv.take(0) =~= Seq::<Seq<char>>::empty());
    }
    while i < paragraphs.len()
        invariant
            i <= paragraphs@.len(),
            pv == strs_view(paragraphs@),
            out@ == text::join(pv.take(i as int), "\n\n"@),
        decreases paragraphs@.len() - i,
    {
        let ghost x = pv.take(i + 1);
        proof {
            assert(x.drop_last() =~= pv.take(i as int));
            assert(x.last() == paragraphs@[i as int]@);
        }
        if i > 0 {
            out.append("\n\n");
        } else {
            assert(out@ =~= Seq::<char>::empty());
        }
        out.append(paragraphs[i]);
        proof {
            if i == 0 {
                assert(out@ =~= x[0]);
            }
        }
        i = i + 1;
    }
    proof {
        assert(pv.take(i as int) =~= pv);
    }
    out
}

/// A character takes one to four bytes.
proof fn lemma_byte_len_bounds(s: Seq<char>)
    ensures
        0 <= byte_len(s) <= 4 * s.len(),
    decreases s.len(),
{
    if s.len() > 0 {
        lemma_byte_len_bounds(s.drop_last());
    }
}

/// The length in bytes of the UTF-8 encoding of `v`.
fn byte_len_exec(v: &Vec<char>) -> (r: u128)
    ensures
        r == byte_len(v@),
        r <= 4 * v.len(),
{
    let mut r: u128 = 0;
    let mut i: usize = 0;
    while i < v.len()
        invariant
            i <= v.len(),
            r == byte_len(v@.take(i as int)),
            r <= 4 * i,
        decreases v.len() - i,
    {
        let c = v[i];
        let u = c as u32;
        let k: u128 = if u < 0x80 {
            1
        } else if u < 0x800 {
            2
        } else if u < 0x10000 {
            3
        } else {
            4
        };
        proof {
            assert(v@.take(i + 1).drop_last() =~= v@.take(i as int));
        }
        r = r + k;
        i = i + 1;
    }
    proof {
        assert(v@.take(i as int) =~= v@);
    }
    r
}

/// The words of `v` (`str::split_whitespace`).
fn words_exec(v: &Vec<char>) -> (r: Vec<Vec<char>>)
    ensures
        r.deep_view() == words(v@),
{
    let mut done: Vec<Vec<char>> = Vec::new();
    let mut cur: Vec<char> = Vec::new();
    let mut i: usize = 0;
    proof {
        assert(v@.take(0) =~= Seq::<char>::empty());
    }
    while i < v.len()
        invariant
            i <= v.len(),
            done.deep_view() == words_fold(v@.take(i as int)).0,
            cur@ == words_fold(v@.take(i as int)).1,
        decreases v.len() - i,
    {
        let ghost st = words_fold(v@.take(i as int));
        proof {
            assert(v@.take(i + 1).drop_last() =~= v@.take(i as int));
            assert(v@.take(i + 1).last() == v@[i as int]);
        }
        let c = v[i];
        if is_whitespace_exec(c) {
            if cur.len() > 0 {
                let ghost prev = done.deep_view();
                let w = cur;
                cur = Vec::new();
                assert(w.deep_view() =~= w@);
                done.push(w);
                proof {
                    assert(done.deep_view() =~= prev.push(st.1));
                }
            }
        } else {
            cur.push(c);
        }
        i = i + 1;
    }
    proof {
        assert(v@.take(i as int) =~= v@);
    }
    if cur.len() > 0 {
        let ghost prev = done.deep_view();
        let ghost cv = cur@;
        assert(cur.deep_view() =~= cur@);
        done.push(cur);
        proof {
            assert(done.deep_view() =~= prev.push(cv));
        }
    }
    done
}

/// A paragraph as format=flowed text.
pub fn flowed_paragraph_exec(p: &str) -> (r: String)
    ensures
        r@ == flowed_paragraph(p@),
{
    let v = chars_of(p);
    let ws = words_exec(&v);
    let ghost wsv = ws.deep_view();
    let n = ws.len();
    let mut result = String::new();
    let mut line: Vec<char> = Vec::new();
    let mut j: usize = 0;
    while j < n
        invariant
            n == wsv.len(),
            wsv == ws.deep_view(),
            j <= n,
            (result@, line@) == wrap_fold(wsv, j as int),
        decreases n - j,
    {
        let w = &ws[j];
        let ghost st = wrap_fold(wsv, j as int);
        assert(w.deep_view() =~= w@);
        assert(w@ == wsv[j as int]);
        let line_len = byte_len_exec(&line);
        let w_len = byte_len_exec(w);
        if line.len() > 0 && line_len + w_len > 40 {
            push_chars(&mut result, &line);
            result.append(" \n");
            line = Vec::new();
        }
        let ghost broken = (result@, line@);
        assert(broken == (if st.1.len() > 0 && byte_len(st.1) + byte_len(wsv[j as int]) > FLOW_WIDTH {
            (st.0 + st.1 + " \n"@, Seq::<char>::empty())
        } else {
            st
        }));
        if line.len() > 0 {
            line.push(' ');
        }
        let ghost before_w = line@;
        let mut k: usize = 0;
        while k < w.len()
            invariant
                k <= w.len(),
                line@ == before_w + w@.take(k as int),
            decreases w.len() - k,
        {
            line.push(w[k]);
            proof {
                assert(before_w + w@.take(k + 1) =~= (before_w + w@.take(k as int)).push(w@[k as int]));
            }
            k = k + 1;
        }
        proof {
            assert(w@.take(k as int) =~= w@);
            assert(w@ == wsv[j as int]);
        }
        if j + 1 == n {
            push_chars(&mut result, &line);
        }
        j = j + 1;
    }
    proof {
        assert(wsv.len() == words(p@).len());
    }
    result
}

/// Paragraphs as a format=flowed body: each paragraph wrapped at about
/// `FLOW_WIDTH` bytes, soft breaks marked by a trailing space, paragraphs
/// separated by blank lines.
pub fn body_flowed(paragraphs: &[&str]) -> (r: String)
    ensures
        r@ == flowed_body(strs_view(paragraphs@)),
{
    let ghost pv = strs_view(paragraphs@);
    let mut out = String::new();
    let mut i: usize = 0;
    proof {
        assert(pv.take(0) =~= Seq::<Seq<char>>::empty());
    }
    while i < paragraphs.len()
        invariant
            i <= paragraphs@.len(),
            pv == strs_view(paragraphs@),
            out@ == flowed_body(pv.take(i as int)),
        decreases paragraphs@.len() - i,
    {
        let ghost x = pv.take(i + 1);
        proof {
            assert(x.drop_last() =~= pv.take(i as int));
            assert(x.last() == paragraphs@[i as int]@);
        }
        if i > 0 {
            out.append("\n\n");
        } else {
            assert(out@ =~= Seq::<char>::empty());
        }
        let para = flowed_paragraph_exec(paragraphs[i]);
        out.append(para.as_str());
        proof {
            if i == 0 {
                assert(out@ =~= flowed_paragraph(x[0]));
            }
        }
        i = i + 1;
    }
    proof {
        assert(pv.take(i as int) =~= pv);
    }
    out
}

/// Replying to a reply does not add another `Re: `.
pub proof fn lemma_reply_subject_idempotent(s: Seq<char>)
    ensures
        reply_subject_text(reply_subject_text(s)) == reply_subject_text(s),
        text::starts_with(reply_subject_text(s), "Re: "@),
{
    if !text::starts_with(s, "Re: "@) {
        let r = "Re: "@ + s;
        assert(r.take("Re: "@.len() as int) =~= "Re: "@);
    }
}

// ---------------------------------------------------------------------
// A flowed body undone
// ---------------------------------------------------------------------

/// `p` is its words joined by single spaces: no other whitespace in it, and
/// none at either end.
pub open spec fn single_spaced(p: Seq<char>) -> bool {
    p == text::join(words(p), seq![' '])
}

/// A word: not empty, and no whitespace in it.
spec fn is_word(w: Seq<char>) -> bool {
    w.len() > 0 && forall|i: int| 0 <= i < w.len() ==> !text::is_whitespace(#[trigger] w[i])
}

/// Reading words keeps each finished word a word, and the word being read
/// free of whitespace.
proof fn lemma_words_fold_words(s: Seq<char>)
    ensures
        forall|i: int| 0 <= i < words_fold(s).0.len() ==> is_word(#[trigger] words_fold(s).0[i]),
        forall|j: int|
            0 <= j < words_fold(s).1.len() ==> !text::is_whitespace(#[trigger] words_fold(s).1[j]),
    decreases s.len(),
{
    if s.len() > 0 {
        lemma_words_fold_words(s.drop_last());
        let st = words_fold(s.drop_last());
        let c = s.last();
        if text::is_whitespace(c) {
            if st.1.len() > 0 {
                let ws = st.0.push(st.1);
                assert forall|i: int| 0 <= i < ws.len() implies is_word(#[trigger] ws[i]) by {
                    if i < st.0.len() {
                        assert(ws[i] == st.0[i]);
                    }
                }
            }
        } else {
            let o = st.1.push(c);
            assert forall|j: int| 0 <= j < o.len() implies !text::is_whitespace(#[trigger] o[j]) by {
                if j < st.1.len() {
                    assert(o[j] == st.1[j]);
                }
            }
        }
    }
}

/// The words of a text are words.
proof fn lemma_words_are_words(s: Seq<char>)
    ensures
        forall|i: int| 0 <= i < words(s).len() ==> is_word(#[trigger] words(s)[i]),
{
    lemma_words_fold_words(s);
    let st = words_fold(s);
    if st.1.len() > 0 {
        let ws = st.0.push(st.1);
        assert forall|i: int| 0 <= i < ws.len() implies is_word(#[trigger] ws[i]) by {
            if i < st.0.len() {
                assert(ws[i] == st.0[i]);
            }
        }
    }
}

/// A line of a body: no line feed in it, and no space-stuffing space.
spec fn bare_line(l: Seq<char>) -> bool {
    &&& forall|j: int| 0 <= j < l.len() ==> #[trigger] l[j] != '\n'
    &&& !text::starts_with(l, seq![' '])
}

/// A line that ends in a soft break.
spec fn soft_line(l: Seq<char>) -> bool {
    bare_line(l) && text::ends_with(l, seq![' '])
}

/// A line that ends in a hard break.
spec fn hard_line(l: Seq<char>) -> bool {
    bare_line(l) && !text::ends_with(l, seq![' '])
}

/// What starting or ending with a space is, character by character.
proof fn lemma_line_ends(l: Seq<char>)
    ensures
        text::starts_with(l, seq![' ']) <==> (l.len() > 0 && l[0] == ' '),
        text::ends_with(l, seq![' ']) <==> (l.len() > 0 && l[l.len() - 1] == ' '),
{
    if l.len() > 0 {
        assert(l.take(1)[0] == l[0]);
        assert(l.skip(l.len() - 1)[0] == l[l.len() - 1]);
        if l[0] == ' ' {
            assert(l.take(1) =~= seq![' ']);
        }
        if l[l.len() - 1] == ' ' {
            assert(l.skip(l.len() - 1) =~= seq![' ']);
        }
    }
}

/// Undoing format=flowed over the lines `ls`, from the state `st`.
spec fn flowed_from(st: (Seq<char>, bool), ls: Seq<Seq<char>>) -> (Seq<char>, bool)
    decreases ls.len(),
{
    if ls.len() == 0 {
        st
    } else {
        body::flowed_step(flowed_from(st, ls.drop_last()), ls.last())
    }
}

/// What the next line is appended to, in the state `st`.
spec fn line_start(st: (Seq<char>, bool)) -> Seq<char> {
    if st.1 {
        st.0
    } else {
        st.0.push('\n')
    }
}

/// Undoing format=flowed starts from an empty text, as at a soft break.
proof fn lemma_flowed_from_start(ls: Seq<Seq<char>>)
    ensures
        body::flowed_fold(ls) == flowed_from((Seq::<char>::empty(), true), ls),
    decreases ls.len(),
{
    if ls.len() > 0 {
        lemma_flowed_from_start(ls.drop_last());
    }
}

/// Undoing format=flowed over two runs of lines is undoing it over the
/// second from where the first left off.
proof fn lemma_flowed_from_append(st: (Seq<char>, bool), a: Seq<Seq<char>>, b: Seq<Seq<char>>)
    ensures
        flowed_from(st, a + b) == flowed_from(flowed_from(st, a), b),
    decreases b.len(),
{
    if b.len() == 0 {
        assert(a + b =~= a);
    } else {
        lemma_flowed_from_append(st, a, b.drop_last());
        assert((a + b).drop_last() =~= a + b.drop_last());
        assert((a + b).last() == b.last());
    }
}

/// Soft lines are joined into one.
proof fn lemma_flowed_soft(st: (Seq<char>, bool), ls: Seq<Seq<char>>)
    requires
        ls.len() >= 1,
        forall|i: int| 0 <= i < ls.len() ==> soft_line(#[trigger] ls[i]),
    ensures
        flowed_from(st, ls) == (line_start(st) + text::concat(ls), true),
    decreases ls.len(),
{
    let dl = ls.drop_last();
    let last = ls.last();
    assert(soft_line(ls[ls.len() - 1]));
    lemma_line_ends(last);
    if ls.len() == 1 {
        assert(dl =~= Seq::<Seq<char>>::empty());
        assert(Seq::<char>::empty() + last =~= last);
        assert(flowed_from(st, dl) == st);
    } else {
        assert forall|i: int| 0 <= i < dl.len() implies soft_line(#[trigger] dl[i]) by {
            assert(dl[i] == ls[i]);
        }
        lemma_flowed_soft(st, dl);
        assert(line_start(st) + text::concat(dl) + last =~= line_start(st) + (text::concat(dl) + last));
    }
}

/// Soft lines and the hard line after them are joined into one line.
proof fn lemma_flowed_paragraph_lines(st: (Seq<char>, bool), ls: Seq<Seq<char>>)
    requires
        ls.len() >= 1,
        forall|i: int| 0 <= i < ls.len() - 1 ==> soft_line(#[trigger] ls[i]),
        hard_line(ls[ls.len() - 1]),
    ensures
        flowed_from(st, ls) == (line_start(st) + text::concat(ls), false),
{
    let dl = ls.drop_last();
    let last = ls.last();
    lemma_line_ends(last);
    if ls.len() == 1 {
        assert(dl =~= Seq::<Seq<char>>::empty());
        assert(Seq::<char>::empty() + last =~= last);
        assert(flowed_from(st, dl) == st);
    } else {
        assert forall|i: int| 0 <= i < dl.len() implies soft_line(#[trigger] dl[i]) by {
            assert(dl[i] == ls[i]);
        }
        lemma_flowed_soft(st, dl);
        assert(line_start(st) + text::concat(dl) + last =~= line_start(st) + (text::concat(dl) + last));
    }
}

/// The lines that wrapping the words `ws[..k]` has closed, each with the
/// space that marks its soft break.
spec fn wrap_lines(ws: Seq<Seq<char>>, k: int) -> Seq<Seq<char>>
    decreases k,
{
    if k <= 0 {
        Seq::empty()
    } else {
        let prev = wrap_lines(ws, k - 1);
        let open = wrap_fold(ws, k - 1).1;
        if open.len() > 0 && byte_len(open) + byte_len(ws[k - 1]) > FLOW_WIDTH {
            prev.push(open.push(' '))
        } else {
            prev
        }
    }
}

/// Lines, each followed by a line feed.
spec fn ended(ls: Seq<Seq<char>>) -> Seq<char>
    decreases ls.len(),
{
    if ls.len() == 0 {
        Seq::empty()
    } else {
        ended(ls.drop_last()) + ls.last().push('\n')
    }
}

/// Lines each followed by a line feed, then one more line, are the lines
/// joined by line feeds.
proof fn lemma_ended_join(ls: Seq<Seq<char>>, x: Seq<char>)
    ensures
        ended(ls) + x == text::join(ls.push(x), seq!['\n']),
    decreases ls.len(),
{
    if ls.len() == 0 {
        assert(ls.push(x) =~= seq![x]);
        assert(Seq::<char>::empty() + x =~= x);
    } else {
        lemma_ended_join(ls.drop_last(), ls.last());
        assert(ls.push(x).drop_last() =~= ls);
        assert(ls.drop_last().push(ls.last()) =~= ls);
        assert(ended(ls) + x =~= (ended(ls.drop_last()) + ls.last()) + seq!['\n'] + x);
    }
}

/// The open line of a wrapped paragraph: not empty, no whitespace at
/// either end, no line feed.
spec fn open_line(o: Seq<char>) -> bool {
    &&& o.len() > 0
    &&& !text::is_whitespace(o[0])
    &&& !text::is_whitespace(o[o.len() - 1])
    &&& forall|j: int| 0 <= j < o.len() ==> #[trigger] o[j] != '\n'
}

/// What wrapping the words `ws[..k]` has made: the closed lines, each
/// followed by a line feed, then the open line once the words are done;
/// all the lines together are the words joined by spaces.
spec fn wrapped(ws: Seq<Seq<char>>, k: int) -> bool {
    let st = wrap_fold(ws, k);
    let ls = wrap_lines(ws, k);
    &&& k < ws.len() ==> st.0 == ended(ls)
    &&& k == ws.len() ==> st.0 == ended(ls) + st.1
    &&& k == 0 ==> st.1.len() == 0 && ls.len() == 0
    &&& k > 0 ==> open_line(st.1) && text::concat(ls) + st.1 == text::join(ws.take(k), seq![' '])
    &&& forall|i: int| 0 <= i < ls.len() ==> soft_line(#[trigger] ls[i])
}

/// Wrapping keeps what `wrapped` states, word after word.
proof fn lemma_wrapped(ws: Seq<Seq<char>>, k: int)
    requires
        0 <= k <= ws.len(),
        forall|i: int| 0 <= i < ws.len() ==> is_word(#[trigger] ws[i]),
    ensures
        wrapped(ws, k),
    decreases k,
{
    reveal_strlit(" \n");
    if k > 0 {
        lemma_wrapped(ws, k - 1);
        let st = wrap_fold(ws, k - 1);
        let ls = wrap_lines(ws, k - 1);
        let w = ws[k - 1];
        assert(is_word(w));
        assert(text::is_whitespace(' ') && text::is_whitespace('\n'));
        let nst = wrap_fold(ws, k);
        let nls = wrap_lines(ws, k);
        let sep = seq![' '];
        if k >= 2 {
            let t = ws.take(k);
            assert(t.drop_last() =~= ws.take(k - 1));
            assert(t.last() == w);
            assert(text::join(t, sep) == text::join(ws.take(k - 1), sep) + sep + w);
        } else {
            assert(ws.take(k) =~= seq![w]);
        }
        if st.1.len() > 0 && byte_len(st.1) + byte_len(w) > FLOW_WIDTH {
            let closed = st.1.push(' ');
            assert(nls == ls.push(closed));
            assert(nst.1 == Seq::<char>::empty() + w);
            assert(Seq::<char>::empty() + w =~= w);
            lemma_line_ends(closed);
            assert(closed[0] == st.1[0]);
            assert forall|j: int| 0 <= j < closed.len() implies #[trigger] closed[j] != '\n' by {
                if j < st.1.len() {
                    assert(closed[j] == st.1[j]);
                }
            }
            assert(soft_line(closed));
            assert forall|i: int| 0 <= i < nls.len() implies soft_line(#[trigger] nls[i]) by {
                if i < ls.len() {
                    assert(nls[i] == ls[i]);
                }
            }
            assert(ls.push(closed).drop_last() =~= ls);
            assert(ended(nls) =~= st.0 + st.1 + " \n"@);
            assert(text::concat(nls) == text::concat(ls) + closed);
            assert(text::concat(nls) + w =~= text::concat(ls) + st.1 + seq![' '] + w);
        } else if st.1.len() > 0 {
            let line = st.1.push(' ') + w;
            assert(nls == ls);
            assert(nst.1 == line);
            assert(line[0] == st.1[0]);
            assert(line[line.len() - 1] == w[w.len() - 1]);
            assert forall|j: int| 0 <= j < line.len() implies #[trigger] line[j] != '\n' by {
                if j < st.1.len() {
                    assert(line[j] == st.1[j]);
                } else if j > st.1.len() {
                    assert(line[j] == w[j - st.1.len() - 1]);
                }
            }
            assert(text::concat(ls) + line =~= text::concat(ls) + st.1 + seq![' '] + w);
            if k == ws.len() {
                assert(nst.0 == st.0 + line);
            }
        } else {
            assert(nls == ls);
            assert(nst.1 == st.1 + w);
            assert(st.1 + w =~= w);
            assert(text::concat(ls) =~= Seq::<char>::empty());
            assert(Seq::<char>::empty() + w =~= w);
            assert forall|j: int| 0 <= j < w.len() implies #[trigger] w[j] != '\n' by {
                assert(!text::is_whitespace(w[j]));
            }
            if k == ws.len() {
                assert(nst.0 == st.0 + w);
            }
        }
    }
}

/// The lines of a paragraph made format=flowed.
spec fn paragraph_lines(p: Seq<char>) -> Seq<Seq<char>> {
    let ws = words(p);
    if ws.len() == 0 {
        seq![Seq::<char>::empty()]
    } else {
        wrap_lines(ws, ws.len() as int).push(wrap_fold(ws, ws.len() as int).1)
    }
}

/// A single-spaced paragraph made format=flowed is its lines joined by line
/// feeds: soft lines, then one hard line, which together are the paragraph.
proof fn lemma_paragraph_lines(p: Seq<char>)
    requires
        single_spaced(p),
    ensures
        flowed_paragraph(p) == text::join(paragraph_lines(p), seq!['\n']),
        text::concat(paragraph_lines(p)) == p,
        paragraph_lines(p).len() >= 1,
        forall|i: int| 0 <= i < paragraph_lines(p).len() - 1 ==> soft_line(#[trigger] paragraph_lines(p)[i]),
        hard_line(paragraph_lines(p)[paragraph_lines(p).len() - 1]),
        paragraph_lines(p).len() > 1 ==> forall|i: int|
            0 <= i < paragraph_lines(p).len() ==> (#[trigger] paragraph_lines(p)[i]).len() > 0,
{
    let ws = words(p);
    let pl = paragraph_lines(p);
    let e = Seq::<char>::empty();
    if ws.len() == 0 {
        lemma_line_ends(e);
        assert(text::concat(pl) == text::concat(pl.drop_last()) + e);
        assert(pl.drop_last() =~= Seq::<Seq<char>>::empty());
        assert(e + e =~= e);
    } else {
        let n = ws.len() as int;
        lemma_words_are_words(p);
        lemma_wrapped(ws, n);
        let ls = wrap_lines(ws, n);
        let o = wrap_fold(ws, n).1;
        lemma_ended_join(ls, o);
        assert(pl.drop_last() =~= ls);
        assert(ws.take(n) =~= ws);
        assert forall|i: int| 0 <= i < pl.len() - 1 implies soft_line(#[trigger] pl[i]) by {
            assert(pl[i] == ls[i]);
        }
        assert forall|i: int| 0 <= i < pl.len() implies (#[trigger] pl[i]).len() > 0 by {
            if i < pl.len() - 1 {
                assert(soft_line(pl[i]));
            }
        }
        lemma_line_ends(o);
        assert(text::is_whitespace(' '));
    }
}

/// The lines of paragraphs made format=flowed, an empty line between
/// neighbours.
spec fn body_lines(ps: Seq<Seq<char>>) -> Seq<Seq<char>>
    decreases ps.len(),
{
    if ps.len() <= 1 {
        paragraph_lines(ps[0])
    } else {
        body_lines(ps.drop_last()) + seq![Seq::<char>::empty()] + paragraph_lines(ps.last())
    }
}

/// Paragraphs made format=flowed are the lines of each joined by line
/// feeds, an empty line between paragraphs; undoing format=flowed over
/// those lines gives the paragraphs separated by blank lines.
proof fn lemma_body_lines(ps: Seq<Seq<char>>)
    requires
        ps.len() >= 1,
        forall|i: int| 0 <= i < ps.len() ==> single_spaced(#[trigger] ps[i]),
    ensures
        body_lines(ps).len() >= 1,
        flowed_body(ps) == text::join(body_lines(ps), seq!['\n']),
        forall|i: int, j: int|
            0 <= i < body_lines(ps).len() && 0 <= j < body_lines(ps)[i].len() ==> #[trigger] body_lines(ps)[i][j]
                != '\n',
        flowed_from((Seq::<char>::empty(), true), body_lines(ps)) == (text::join(ps, "\n\n"@), false),
    decreases ps.len(),
{
    reveal_strlit("\n\n");
    let e = Seq::<char>::empty();
    let st0 = (e, true);
    let nl = seq!['\n'];
    let last = ps[ps.len() - 1];
    assert(single_spaced(last));
    lemma_paragraph_lines(last);
    let pl = paragraph_lines(last);
    assert forall|i: int, j: int| 0 <= i < pl.len() && 0 <= j < pl[i].len() implies #[trigger] pl[i][j] != '\n' by {
        if i < pl.len() - 1 {
            assert(soft_line(pl[i]));
        } else {
            assert(hard_line(pl[i]));
        }
    }
    lemma_flowed_paragraph_lines(st0, pl);
    assert(e + last =~= last);
    if ps.len() == 1 {
        assert(ps.last() == last);
    } else {
        let dl = ps.drop_last();
        assert forall|i: int| 0 <= i < dl.len() implies single_spaced(#[trigger] dl[i]) by {
            assert(dl[i] == ps[i]);
        }
        lemma_body_lines(dl);
        let bl0 = body_lines(dl);
        let mid = bl0 + seq![e];
        let bl = mid + pl;
        assert(body_lines(ps) == bl);
        assert(ps.last() == last);
        text::lemma_join_append(bl0, seq![e], nl);
        text::lemma_join_append(mid, pl, nl);
        assert(text::join(seq![e], nl) == e);
        assert(text::join(bl, nl) =~= text::join(bl0, nl) + "\n\n"@ + text::join(pl, nl));
        assert forall|i: int, j: int| 0 <= i < bl.len() && 0 <= j < bl[i].len() implies #[trigger] bl[i][j] != '\n' by {
            if i < bl0.len() {
                assert(bl[i] == bl0[i]);
                assert(bl0[i][j] != '\n');
            } else if i > bl0.len() {
                assert(bl[i] == pl[i - bl0.len() - 1]);
                assert(pl[i - bl0.len() - 1][j] != '\n');
            }
        }
        let j0 = text::join(dl, "\n\n"@);
        lemma_flowed_from_append(st0, mid, pl);
        lemma_flowed_from_append(st0, bl0, seq![e]);
        assert(flowed_from(st0, bl0) == (j0, false));
        assert(seq![e].drop_last() =~= Seq::<Seq<char>>::empty());
        assert(flowed_from((j0, false), Seq::<Seq<char>>::empty()) == (j0, false));
        lemma_line_ends(e);
        assert(flowed_from((j0, false), seq![e]) == (j0.push('\n') + e, false));
        assert(j0.push('\n') + e =~= j0.push('\n'));
        lemma_flowed_paragraph_lines((j0.push('\n'), false), pl);
        assert(j0.push('\n').push('\n') + last =~= j0 + "\n\n"@ + last);
    }
}

/// The lines of paragraphs made format=flowed: none is space-stuffed, a
/// soft line is followed by more of its paragraph, and the last line is no
/// soft line.
proof fn lemma_body_line_ends(ps: Seq<Seq<char>>)
    requires
        ps.len() >= 1,
        forall|i: int| 0 <= i < ps.len() ==> single_spaced(#[trigger] ps[i]),
    ensures
        forall|i: int| 0 <= i < body_lines(ps).len() ==> bare_line(#[trigger] body_lines(ps)[i]),
        forall|i: int|
            0 <= i < body_lines(ps).len() && soft_line(#[trigger] body_lines(ps)[i]) ==> i + 1 < body_lines(
                ps,
            ).len() && body_lines(ps)[i + 1].len() > 0,
        !soft_line(body_lines(ps)[body_lines(ps).len() - 1]),
        forall|i: int|
            0 <= i && i + 1 < body_lines(ps).len() && (#[trigger] body_lines(ps)[i]).len() > 0 && body_lines(ps)[i
                + 1].len() > 0 ==> soft_line(body_lines(ps)[i]),
    decreases ps.len(),
{
    let e = Seq::<char>::empty();
    let last = ps[ps.len() - 1];
    assert(single_spaced(last));
    lemma_paragraph_lines(last);
    let pl = paragraph_lines(last);
    assert(ps.last() == last);
    assert forall|i: int| 0 <= i < pl.len() implies bare_line(#[trigger] pl[i]) by {
        if i < pl.len() - 1 {
            assert(soft_line(pl[i]));
        }
    }
    assert forall|i: int| 0 <= i < pl.len() && soft_line(#[trigger] pl[i]) implies i + 1 < pl.len() && pl[i
        + 1].len() > 0 by {
        if i == pl.len() - 1 {
            assert(hard_line(pl[i]));
        }
    }
    assert(!soft_line(pl[pl.len() - 1]));
    assert forall|i: int| 0 <= i && i + 1 < pl.len() && (#[trigger] pl[i]).len() > 0 && pl[i + 1].len() > 0 implies soft_line(
        pl[i],
    ) by {}
    if ps.len() > 1 {
        let dl = ps.drop_last();
        assert forall|i: int| 0 <= i < dl.len() implies single_spaced(#[trigger] dl[i]) by {
            assert(dl[i] == ps[i]);
        }
        lemma_body_line_ends(dl);
        lemma_line_ends(e);
        let bl0 = body_lines(dl);
        let bl = bl0 + seq![e] + pl;
        assert(body_lines(ps) == bl);
        let n0 = bl0.len() as int;
        assert forall|i: int| 0 <= i < bl.len() implies bare_line(#[trigger] bl[i]) by {
            if i < n0 {
                assert(bl[i] == bl0[i]);
            } else if i > n0 {
                assert(bl[i] == pl[i - n0 - 1]);
            } else {
                assert(bl[i] == e);
            }
        }
        assert forall|i: int| 0 <= i < bl.len() && soft_line(#[trigger] bl[i]) implies i + 1 < bl.len() && bl[i
            + 1].len() > 0 by {
            if i < n0 {
                assert(bl[i] == bl0[i]);
                if i == n0 - 1 {
                    assert(!soft_line(bl0[n0 - 1]));
                }
                assert(bl[i + 1] == bl0[i + 1]);
            } else if i > n0 {
                assert(bl[i] == pl[i - n0 - 1]);
                assert(bl[i + 1] == pl[i - n0]);
            } else {
                assert(bl[i] == e);
            }
        }
        assert(bl[bl.len() - 1] == pl[pl.len() - 1]);
        assert forall|i: int| 0 <= i && i + 1 < bl.len() && (#[trigger] bl[i]).len() > 0 && bl[i + 1].len() > 0 implies soft_line(
            bl[i],
        ) by {
            if i < n0 - 1 {
                assert(bl[i] == bl0[i]);
                assert(bl[i + 1] == bl0[i + 1]);
            } else if i == n0 - 1 {
                assert(bl[i + 1] == e);
            } else if i > n0 {
                assert(bl[i] == pl[i - n0 - 1]);
                assert(bl[i + 1] == pl[i - n0]);
            } else {
                assert(bl[i] == e);
            }
        }
    }
}

/// In a body of single-spaced paragraphs made format=flowed by
/// `body_flowed`, no line starts with a space; a line that ends with a
/// space (a soft break) is followed by more text of its paragraph, so the
/// last line of each paragraph, before a blank line or at the end, has no
/// trailing space; and every other line of a paragraph, one with text that
/// more text follows, ends with a space.
pub proof fn lemma_flowed_body_line_ends(ps: Seq<Seq<char>>)
    requires
        forall|i: int| 0 <= i < ps.len() ==> single_spaced(#[trigger] ps[i]),
    ensures
        forall|i: int|
            0 <= i < text::split_on(flowed_body(ps), '\n').len() ==> !text::starts_with(
                #[trigger] text::split_on(flowed_body(ps), '\n')[i],
                seq![' '],
            ),
        forall|i: int|
            0 <= i < text::split_on(flowed_body(ps), '\n').len() && text::ends_with(
                #[trigger] text::split_on(flowed_body(ps), '\n')[i],
                seq![' '],
            ) ==> i + 1 < text::split_on(flowed_body(ps), '\n').len() && text::split_on(flowed_body(ps), '\n')[i
                + 1].len() > 0,
        forall|i: int|
            0 <= i && i + 1 < text::split_on(flowed_body(ps), '\n').len() && (#[trigger] text::split_on(
                flowed_body(ps),
                '\n',
            )[i]).len() > 0 && text::split_on(flowed_body(ps), '\n')[i + 1].len() > 0 ==> text::ends_with(
                text::split_on(flowed_body(ps), '\n')[i],
                seq![' '],
            ),
{
    let e = Seq::<char>::empty();
    if ps.len() == 0 {
        assert(text::split_on(e, '\n') == seq![e]);
        lemma_line_ends(e);
    } else {
        lemma_body_lines(ps);
        lemma_body_line_ends(ps);
        text::lemma_split_join(body_lines(ps), '\n');
        let bl = body_lines(ps);
        assert forall|i: int| 0 <= i < bl.len() && text::ends_with(#[trigger] bl[i], seq![' ']) implies i + 1
            < bl.len() && bl[i + 1].len() > 0 by {
            assert(bare_line(bl[i]));
            assert(soft_line(bl[i]));
        }
        assert forall|i: int| 0 <= i && i + 1 < bl.len() && (#[trigger] bl[i]).len() > 0 && bl[i + 1].len() > 0 implies text::ends_with(
            bl[i],
            seq![' '],
        ) by {
            assert(soft_line(bl[i]));
        }
    }
}

/// A body of single-spaced paragraphs made format=flowed by `body_flowed`
/// comes back from `unformat_flowed` as the plain body that `body_plain`
/// makes of the same paragraphs.
pub proof fn lemma_flowed_body_undone(ps: Seq<Seq<char>>)
    requires
        forall|i: int| 0 <= i < ps.len() ==> single_spaced(#[trigger] ps[i]),
    ensures
        body::unflowed(flowed_body(ps)) == text::join(ps, "\n\n"@),
{
    let e = Seq::<char>::empty();
    if ps.len() == 0 {
        assert(text::split_on(e, '\n') == seq![e]);
        assert(seq![e].drop_last() =~= Seq::<Seq<char>>::empty());
        assert(body::flowed_fold(Seq::<Seq<char>>::empty()) == (e, true));
        lemma_line_ends(e);
        assert(e + e =~= e);
    } else {
        lemma_body_lines(ps);
        text::lemma_split_join(body_lines(ps), '\n');
        lemma_flowed_from_start(body_lines(ps));
    }
}

// ---------------------------------------------------------------------
// Composing a sample mail with lettre
// ---------------------------------------------------------------------

/// The latest second, counted from 1970, that a mail's `Date` can hold:
/// `lettre` writes dates before the year 10000 only.
pub const LAST_DATE_SECS: u64 = 253402300799;

/// Whether `lettre` parses a text as a mailbox (`Mailbox::from_str`).
pub uninterp spec fn mailbox_parses(s: Seq<char>) -> bool;

/// Whether `lettre` parses a text as a content type (`ContentType::parse`).
pub uninterp spec fn content_type_parses(s: Seq<char>) -> bool;

/// What `lettre` makes of a sample mail: its bytes as
/// `lettre::Message::formatted` writes them, or none when
/// `MessageBuilder::body` refuses the headers; the arguments are those of
/// `format_new_mail` (no replied-to id) and `format_reply_mail`.
pub uninterp spec fn sample_message(
    from: Seq<char>,
    to: Seq<char>,
    subject: Seq<char>,
    date_secs: u64,
    message_id: Seq<char>,
    content_type: Seq<char>,
    reply_to: Option<Seq<char>>,
    body: Seq<char>,
) -> Option<Seq<u8>>;

/// Calls `Mailbox::from_str`; claims that it succeeds exactly when the text
/// is one that `mailbox_parses` names.
#[verifier::external_body]
fn parses_as_mailbox(s: &str) -> (r: bool)
    ensures
        r == mailbox_parses(s@),
{
    s.parse::<Mailbox>().is_ok()
}

/// Calls `ContentType::parse`; claims that it succeeds exactly when the text
/// is one that `content_type_parses` names.
#[verifier::external_body]
fn parses_as_content_type(s: &str) -> (r: bool)
    ensures
        r == content_type_parses(s@),
{
    ContentType::parse(s).is_ok()
}

/// Builds a mail that starts a thread with `lettre::Message::builder`:
/// `from`, `to`, `subject`, the date `date_secs` seconds after 1970, the
/// message id and the content type; then `body` and `formatted`. Claims
/// the result that `sample_message` names for the same arguments and no
/// replied-to id. The texts that are parsed are ones that parse, and the
/// date is one that `lettre` can write.
#[verifier::external_body]
fn format_new_mail(
    from: &str,
    to: &str,
    subject: &str,
    date_secs: u64,
    message_id: &str,
    content_type: &str,
    body: &str,
) -> (r: Option<Vec<u8>>)
    requires
        mailbox_parses(from@),
        mailbox_parses(to@),
        content_type_parses(content_type@),
        date_secs <= LAST_DATE_SECS,
    ensures
        match r {
            Some(b) => sample_message(from@, to@, subject@, date_secs, message_id@, content_type@, None, body@)
                == Some(b@),
            None => sample_message(from@, to@, subject@, date_secs, message_id@, content_type@, None, body@)
                is None,
        },
{
    let date = std::time::UNIX_EPOCH + std::time::Duration::from_secs(date_secs);
    lettre::Message::builder().from(from.parse::<Mailbox>().ok()?).to(to.parse::<Mailbox>().ok()?)
        .subject(subject).date(date).message_id(Some(message_id.to_string()))
        .header(ContentType::parse(content_type).ok()?)
        .body(body.to_string()).ok().map(|m| m.formatted())
}

/// Builds a reply with `lettre::Message::builder`: as `format_new_mail`,
/// and `References` and `In-Reply-To` set to `reply_to`. Claims the result
/// that `sample_message` names for the same arguments.
#[verifier::external_body]
fn format_reply_mail(
    from: &str,
    to: &str,
    subject: &str,
    date_secs: u64,
    message_id: &str,
    content_type: &str,
    reply_to: &str,
    body: &str,
) -> (r: Option<Vec<u8>>)
    requires
        mailbox_parses(from@),
        mailbox_parses(to@),
        content_type_parses(content_type@),
        date_secs <= LAST_DATE_SECS,
    ensures
        match r {
            Some(b) => sample_message(from@, to@, subject@, date_secs, message_id@, content_type@, Some(
                reply_to@,
            ), body@) == Some(b@),
            None => sample_message(from@, to@, subject@, date_secs, message_id@, content_type@, Some(
                reply_to@,
            ), body@) is None,
        },
{
    let date = std::time::UNIX_EPOCH + std::time::Duration::from_secs(date_secs);
    lettre::Message::builder().from(from.parse::<Mailbox>().ok()?).to(to.parse::<Mailbox>().ok()?)
        .subject(subject).date(date).message_id(Some(message_id.to_string()))
        .header(ContentType::parse(content_type).ok()?)
        .references(reply_to.to_string()).in_reply_to(reply_to.to_string())
        .body(body.to_string()).ok().map(|m| m.formatted())
}

/// The content type of a flowed sample mail.
pub open spec fn flowed_content_type() -> Seq<char> {
    "text/plain; charset=utf-8; format=flowed"@
}

/// The headers and body of a sample mail.
#[derive(Debug)]
pub struct SampleMail {
    pub from: String,
    pub to: String,
    pub subject: String,
    pub message_id: String,
    /// The message id that a reply answers: its `References` and
    /// `In-Reply-To`.
    pub reply_to: Option<String>,
    pub flowed: bool,
    pub body: String,
}

/// Why a sample mail could not be composed.
#[derive(Debug, PartialEq, Eq)]
pub enum ComposeError {
    ContentType,
    From,
    To,
    Build,
}

/// The content type of a plain sample mail.
pub open spec fn plain_content_type() -> Seq<char> {
    "text/plain; charset=utf-8"@
}

/// The content type of a sample mail.
pub open spec fn sample_content_type(flowed: bool) -> Seq<char> {
    if flowed {
        flowed_content_type()
    } else {
        plain_content_type()
    }
}

/// The raw bytes of a sample mail: `From`, `To`, `Subject`, `Date`,
/// `Message-ID`, the content type (format=flowed when flowed), and for a
/// reply `References` and `In-Reply-To`; the date is `date_secs` seconds
/// after 1970. The first check that fails gives the error: the content
/// type, the sender, the recipient, then building the message.
pub fn compose_sample_mail(m: &SampleMail, date_secs: u64) -> (r: Result<Vec<u8>, ComposeError>)
    requires
        date_secs <= LAST_DATE_SECS,
    ensures
        ({
            let ct = sample_content_type(m.flowed);
            let built = sample_message(m.from@, m.to@, m.subject@, date_secs, m.message_id@, ct,
                m.reply_to.deep_view(), m.body@);
            &&& !content_type_parses(ct) ==> r == Err::<Vec<u8>, ComposeError>(ComposeError::ContentType)
            &&& content_type_parses(ct) && !mailbox_parses(m.from@) ==> r == Err::<Vec<u8>, ComposeError>(
                ComposeError::From,
            )
            &&& content_type_parses(ct) && mailbox_parses(m.from@) && !mailbox_parses(m.to@) ==> r == Err::<
                Vec<u8>,
                ComposeError,
            >(ComposeError::To)
            &&& content_type_parses(ct) && mailbox_parses(m.from@) && mailbox_parses(m.to@) ==> match r {
                Ok(b) => built == Some(b@),
                Err(e) => e == ComposeError::Build && built is None,
            }
        }),
{
    let ct = if m.flowed {
        "text/plain; charset=utf-8; format=flowed"
    } else {
        "text/plain; charset=utf-8"
    };
    proof {
        reveal_strlit("text/plain; charset=utf-8; format=flowed");
        reveal_strlit("text/plain; charset=utf-8");
    }
    assert(ct@ == sample_content_type(m.flowed));
    if !parses_as_content_type(ct) {
        return Err(ComposeError::ContentType);
    }
    if !parses_as_mailbox(m.from.as_str()) {
        return Err(ComposeError::From);
    }
    if !parses_as_mailbox(m.to.as_str()) {
        return Err(ComposeError::To);
    }
    let built = match &m.reply_to {
        Some(id) => format_reply_mail(
            m.from.as_str(),
            m.to.as_str(),
            m.subject.as_str(),
            date_secs,
            m.message_id.as_str(),
            ct,
            id.as_str(),
            m.body.as_str(),
        ),
        None => format_new_mail(
            m.from.as_str(),
            m.to.as_str(),
            m.subject.as_str(),
            date_secs,
            m.message_id.as_str(),
            ct,
            m.body.as_str(),
        ),
    };
    match built {
        Some(bytes) => Ok(bytes),
        None => Err(ComposeError::Build),
    }
}

} // verus!
