use vstd::prelude::*;

use linkify::{LinkFinder, LinkKind};

use crate::text;
use crate::text::{
    chars_of, contains_exec, lines_exec, occurs_at_exec, push_range, skip_whitespace, slice_exec,
    starts_with_exec, unbreak_exec,
};

verus! {

broadcast use vstd::string::group_string_axioms;

// ---------------------------------------------------------------------
// Specifications
// ---------------------------------------------------------------------

/// A line that looks like part of a unified diff.
pub open spec fn diff_line(l: Seq<char>) -> bool {
    ||| text::starts_with(l, "diff --git"@)
    ||| text::starts_with(l, "index "@)
    ||| text::starts_with(l, "--- "@)
    ||| text::starts_with(l, "+++ "@)
    ||| text::starts_with(l, "@@ "@)
    ||| text::starts_with(l, seq!['+'])
    ||| text::starts_with(l, seq!['-'])
    ||| text::starts_with(l, seq![' '])
}

/// A body that looks like it carries a patch.
pub open spec fn patch_like(body: Seq<char>) -> bool {
    text::contains(body, "diff --git"@) || text::contains(body, "--- a/"@)
}

/// A quote marker, or a space between quote markers.
pub open spec fn is_quote_mark(c: char) -> bool {
    c == '>' || c == ' '
}

/// The number of leading quote markers and spaces of `s`.
pub open spec fn lead_quote(s: Seq<char>) -> nat
    decreases s.len(),
{
    if s.len() > 0 && is_quote_mark(s[0]) {
        1 + lead_quote(s.drop_first())
    } else {
        0
    }
}

/// `s` without the quote markers of all nesting levels that open it, and
/// the spaces between them.
pub open spec fn strip_quote(s: Seq<char>) -> Seq<char> {
    s.skip(lead_quote(s) as int)
}

/// The Gemini rendering of one line of a plain (non-patch) body: a quoted
/// line, however deeply nested, becomes one Gemini quote.
pub open spec fn quote_line(line: Seq<char>) -> Seq<char> {
    quoted(line) + "\r\n"@
}

/// The text of the Gemini rendering of one line of a plain body, without
/// its line break.
pub open spec fn quoted(line: Seq<char>) -> Seq<char> {
    let t = text::trim_start(line);
    if text::starts_with(t, seq!['>']) {
        "> "@ + strip_quote(t)
    } else if text::starts_with(t, "On "@) && text::contains(t, " wrote:"@) {
        "> "@ + t
    } else {
        line
    }
}

/// The renderings of the lines `ls`, one after the other.
pub open spec fn quote_lines(ls: Seq<Seq<char>>) -> Seq<char>
    decreases ls.len(),
{
    if ls.len() == 0 {
        Seq::empty()
    } else {
        quote_lines(ls.drop_last()) + quote_line(ls.last())
    }
}

/// The Gemini rendering of a plain body.
pub open spec fn quoted_text(body: Seq<char>) -> Seq<char> {
    quote_lines(text::lines(body))
}

/// The last position at or below `k` where `p` occurs in `s`, or -1.
pub open spec fn last_occurrence(s: Seq<char>, p: Seq<char>, k: int) -> int
    decreases k + 1,
{
    if k < 0 {
        -1
    } else if text::occurs_at(s, p, k) {
        k
    } else {
        last_occurrence(s, p, k - 1)
    }
}

/// What follows the last occurrence of `p` in `s`, or all of `s` when `p`
/// does not occur: the last piece of `str::split` for a pattern that cannot
/// overlap itself.
pub open spec fn after_last(s: Seq<char>, p: Seq<char>) -> Seq<char> {
    let k = last_occurrence(s, p, s.len() - p.len());
    if k < 0 {
        s
    } else {
        s.skip(k + p.len())
    }
}

/// A line inside a diff block, coloured by its kind.
pub open spec fn diff_block_line(line: Seq<char>) -> Seq<char> {
    if text::starts_with(line, seq!['+']) && !text::starts_with(line, "+++"@) {
        "\x1b[32m"@ + line + "\x1b[0m"@ + "\r\n"@
    } else if text::starts_with(line, seq!['-']) && !text::starts_with(line, "---"@) {
        "\x1b[31m"@ + line + "\x1b[0m"@ + "\r\n"@
    } else if text::starts_with(line, "@@"@) {
        "\x1b[36m"@ + line + "\x1b[0m"@ + "\r\n"@
    } else {
        line + "\r\n"@
    }
}

/// A line that opens a file's diff without a `diff --git` line: `--- `
/// followed by a `+++ ` line.
pub open spec fn bare_diff_start(line: Seq<char>, next: Option<Seq<char>>) -> bool {
    text::starts_with(line, "--- "@) && match next {
        Some(n) => text::starts_with(n, "+++ "@),
        None => false,
    }
}

/// One step of the patch renderer: the output so far and whether a diff
/// block is open, after one more line, the line after it being `next`.
pub open spec fn patch_step(st: (Seq<char>, bool), line: Seq<char>, next: Option<Seq<char>>) -> (
    Seq<char>,
    bool,
) {
    if text::starts_with(line, "diff --git"@) {
        let closed = if st.1 { st.0 + "```\r\n\r\n"@ } else { st.0 };
        (closed + "### "@ + after_last(line, " b/"@) + "\r\n"@ + "```diff\r\n"@ + line + "\r\n"@, true)
    } else if st.1 {
        if !(diff_line(line) || line.len() == 0) && !text::starts_with(line, "--"@) {
            (st.0 + "```\r\n\r\n"@ + line + "\r\n"@, false)
        } else {
            (st.0 + diff_block_line(line), true)
        }
    } else if bare_diff_start(line, next) {
        (st.0 + "```diff\r\n"@ + line + "\r\n"@, true)
    } else {
        (st.0 + line + "\r\n"@, false)
    }
}

/// The line after line `k` of `ls`, if any.
pub open spec fn next_line(ls: Seq<Seq<char>>, k: int) -> Option<Seq<char>> {
    if k + 1 < ls.len() {
        Some(ls[k + 1])
    } else {
        None
    }
}

/// The patch renderer run over the first `k` lines of `ls`.
pub open spec fn patch_fold(ls: Seq<Seq<char>>, k: int) -> (Seq<char>, bool)
    decreases k,
{
    if k <= 0 {
        (Seq::empty(), false)
    } else {
        patch_step(patch_fold(ls, k - 1), ls[k - 1], next_line(ls, k - 1))
    }
}

/// The Gemini rendering of a body that carries a patch.
pub open spec fn patch_text(body: Seq<char>) -> Seq<char> {
    let ls = text::lines(body);
    let st = patch_fold(ls, ls.len() as int);
    if st.1 {
        st.0 + "```\r\n"@
    } else {
        st.0
    }
}

/// The Gemini rendering of a message body.
pub open spec fn gemini_body(body: Seq<char>) -> Seq<char> {
    if patch_like(body) {
        patch_text(body)
    } else {
        quoted_text(body)
    }
}

/// One step of undoing format=flowed: the text so far and whether the last
/// line was flowed, after one more line.  A flowed line keeps its trailing
/// space, which then separates it from the line it is joined to.
pub open spec fn flowed_step(st: (Seq<char>, bool), piece: Seq<char>) -> (Seq<char>, bool) {
    let line = if text::starts_with(piece, seq![' ']) { piece.drop_first() } else { piece };
    let out = if st.1 { st.0 } else { st.0.push('\n') };
    (out + line, text::ends_with(line, seq![' ']))
}

/// Undoing format=flowed over the lines `ls`.
pub open spec fn flowed_fold(ls: Seq<Seq<char>>) -> (Seq<char>, bool)
    decreases ls.len(),
{
    if ls.len() == 0 {
        (Seq::empty(), true)
    } else {
        flowed_step(flowed_fold(ls.drop_last()), ls.last())
    }
}

/// The text of a format=flowed body with its soft line breaks undone.
pub open spec fn unflowed(text: Seq<char>) -> Seq<char> {
    flowed_fold(text::split_on(text, '\n')).0
}

// ---------------------------------------------------------------------
// Executable functions
// ---------------------------------------------------------------------

/// Header text made safe for a Gemini line: carriage returns and line feeds
/// become spaces.
pub fn h(s: &str) -> (r: String)
    ensures
        r@ == text::unbreak(s@),
{
    unbreak_exec(s)
}

/// Whether a line looks like part of a unified diff.
pub fn is_diff_line(line: &str) -> (r: bool)
    ensures
        r == diff_line(line@),
{
    let v = chars_of(line);
    diff_line_exec(&v)
}

fn diff_line_exec(v: &Vec<char>) -> (r: bool)
    ensures
        r == diff_line(v@),
{
    let r = starts_with_exec(v, "diff --git") || starts_with_exec(v, "index ") || starts_with_exec(
        v,
        "--- ",
    ) || starts_with_exec(v, "+++ ") || starts_with_exec(v, "@@ ") || starts_with_exec(v, "+")
        || starts_with_exec(v, "-") || starts_with_exec(v, " ");
    proof {
        reveal_strlit("+");
        reveal_strlit("-");
        reveal_strlit(" ");
        assert("+"@ =~= seq!['+']);
        assert("-"@ =~= seq!['-']);
        assert(" "@ =~= seq![' ']);
    }
    r
}

/// Whether a body looks like it carries a patch.
pub fn looks_like_patch(body: &str) -> (r: bool)
    ensures
        r == patch_like(body@),
{
    let v = chars_of(body);
    contains_exec(&v, "diff --git") || contains_exec(&v, "--- a/")
}

proof fn lemma_lead_quote_step(s: Seq<char>, i: int)
    requires
        0 <= i <= s.len(),
    ensures
        i < s.len() && is_quote_mark(s[i]) ==> lead_quote(s.skip(i)) == 1 + lead_quote(s.skip(i + 1)),
        i == s.len() || !is_quote_mark(s[i]) ==> lead_quote(s.skip(i)) == 0,
{
    if i < s.len() {
        assert(s.skip(i).drop_first() =~= s.skip(i + 1));
    }
}

/// The number of leading quote markers and spaces of `v`.
fn skip_quote(v: &Vec<char>) -> (r: usize)
    ensures
        r == lead_quote(v@),
        r <= v.len(),
{
    let mut i: usize = 0;
    proof {
        assert(v@.skip(0) =~= v@);
    }
    while i < v.len()
        invariant
            i <= v.len(),
            lead_quote(v@) == i + lead_quote(v@.skip(i as int)),
        ensures
            i <= v.len(),
            lead_quote(v@) == i + lead_quote(v@.skip(i as int)),
            i == v.len() || !is_quote_mark(v@[i as int]),
        decreases v.len() - i,
    {
        proof {
            lemma_lead_quote_step(v@, i as int);
        }
        if v[i] != '>' && v[i] != ' ' {
            break;
        }
        i = i + 1;
    }
    proof {
        lemma_lead_quote_step(v@, i as int);
    }
    i
}

/// Appends the rendering of one plain line.
fn quote_line_into(out: &mut String, line: &Vec<char>)
    ensures
        final(out)@ == old(out)@ + quote_line(line@),
{
    let t0 = skip_whitespace(line, 0);
    let t = slice_exec(line, t0, line.len());
    proof {
        assert(line@.skip(0) =~= line@);
        assert(t@ =~= text::trim_start(line@));
    }
    if starts_with_exec(&t, ">") {
        let w = skip_quote(&t);
        proof {
            reveal_strlit(">");
            assert(">"@ =~= seq!['>']);
            assert(t@.skip(0) =~= t@);
            assert(t@.subrange(w as int, t@.len() as int) =~= strip_quote(t@));
        }
        out.append("> ");
        push_range(out, &t, w, t.len());
        out.append("\r\n");
    } else if starts_with_exec(&t, "On ") && contains_exec(&t, " wrote:") {
        proof {
            reveal_strlit(">");
            assert(">"@ =~= seq!['>']);
        }
        out.append("> ");
        text::push_chars(out, &t);
        out.append("\r\n");
    } else {
        proof {
            reveal_strlit(">");
            assert(">"@ =~= seq!['>']);
        }
        text::push_chars(out, line);
        out.append("\r\n");
    }
}

/// Formats quoted text (lines starting with `>`) with Gemini's quote
/// syntax, nested quote markers collapsed into one.
pub fn format_quoted_text(body: &str) -> (r: String)
    ensures
        r@ == quoted_text(body@),
{
    let v = chars_of(body);
    let ls = lines_exec(&v);
    let ghost gl = text::lines(body@);
    let mut out = String::new();
    let mut i: usize = 0;
    while i < ls.len()
        invariant
            ls.len() == gl.len(),
            forall|j: int| 0 <= j < ls.len() ==> #[trigger] ls[j]@ == gl[j],
            i <= ls.len(),
            out@ == quote_lines(gl.take(i as int)),
        decreases ls.len() - i,
    {
        quote_line_into(&mut out, &ls[i]);
        proof {
            assert(gl.take(i + 1).drop_last() =~= gl.take(i as int));
        }
        i = i + 1;
    }
    proof {
        assert(gl.take(i as int) =~= gl);
    }
    out
}

/// What follows the last occurrence of `p` in `v`, or all of `v`.
fn after_last_exec(v: &Vec<char>, p: &str) -> (r: Vec<char>)
    ensures
        r@ == after_last(v@, p@),
{
    let pv = chars_of(p);
    if pv.len() > v.len() {
        let r = slice_exec(v, 0, v.len());
        assert(r@ =~= v@);
        return r;
    }
    let ghost start: int = v@.len() - p@.len();
    let mut k: usize = v.len() - pv.len();
    loop
        invariant
            pv@ == p@,
            pv.len() <= v.len(),
            k <= v.len() - pv.len(),
            start == v@.len() - p@.len(),
            last_occurrence(v@, p@, start) == last_occurrence(v@, p@, k as int),
        decreases k,
    {
        if occurs_at_exec(v, &pv, k) {
            let r = slice_exec(v, k + pv.len(), v.len());
            assert(last_occurrence(v@, p@, k as int) == k);
            assert(start == v@.len() - p@.len());
            assert(last_occurrence(v@, p@, v@.len() - p@.len()) == k);
            assert(r@ =~= v@.skip(k + p@.len()));
            return r;
        }
        if k == 0 {
            assert(last_occurrence(v@, p@, -1) == -1);
            assert(last_occurrence(v@, p@, 0) == -1);
            let r = slice_exec(v, 0, v.len());
            assert(r@ =~= v@);
            return r;
        }
        k = k - 1;
    }
}

/// Appends a diff-block line, coloured by its kind.
fn diff_block_line_into(out: &mut String, line: &Vec<char>)
    ensures
        final(out)@ == old(out)@ + diff_block_line(line@),
{
    proof {
        reveal_strlit("+");
        reveal_strlit("-");
        assert("+"@ =~= seq!['+']);
        assert("-"@ =~= seq!['-']);
    }
    if starts_with_exec(line, "+") && !starts_with_exec(line, "+++") {
        out.append("\x1b[32m");
        text::push_chars(out, line);
        out.append("\x1b[0m");
        out.append("\r\n");
    } else if starts_with_exec(line, "-") && !starts_with_exec(line, "---") {
        out.append("\x1b[31m");
        text::push_chars(out, line);
        out.append("\x1b[0m");
        out.append("\r\n");
    } else if starts_with_exec(line, "@@") {
        out.append("\x1b[36m");
        text::push_chars(out, line);
        out.append("\x1b[0m");
        out.append("\r\n");
    } else {
        text::push_chars(out, line);
        out.append("\r\n");
    }
}

/// One step of the patch renderer.
fn patch_step_into(out: &mut String, in_block: bool, line: &Vec<char>, next: Option<&Vec<char>>) -> (nb: bool)
    ensures
        (final(out)@, nb) == patch_step(
            (old(out)@, in_block),
            line@,
            match next {
                Some(n) => Some(n@),
                None => None,
            },
        ),
{
    if starts_with_exec(line, "diff --git") {
        if in_block {
            out.append("```\r\n\r\n");
        }
        let fname = after_last_exec(line, " b/");
        out.append("### ");
        text::push_chars(out, &fname);
        out.append("\r\n");
        out.append("```diff\r\n");
        text::push_chars(out, line);
        out.append("\r\n");
        true
    } else if in_block {
        let dominated_by_diff = diff_line_exec(line) || line.len() == 0;
        if !dominated_by_diff && !starts_with_exec(line, "--") {
            out.append("```\r\n\r\n");
            text::push_chars(out, line);
            out.append("\r\n");
            false
        } else {
            diff_block_line_into(out, line);
            true
        }
    } else {
        let opens = starts_with_exec(line, "--- ") && match next {
            Some(n) => starts_with_exec(n, "+++ "),
            None => false,
        };
        if opens {
            out.append("```diff\r\n");
        }
        text::push_chars(out, line);
        out.append("\r\n");
        opens
    }
}

/// Formats a body that carries a patch: each file's diff in a preformatted
/// block (headed by the file name when it opens with `diff --git`),
/// additions, deletions and hunk headers coloured with ANSI escapes.
pub fn format_patch_body(body: &str) -> (r: String)
    ensures
        r@ == patch_text(body@),
{
    let v = chars_of(body);
    let ls = lines_exec(&v);
    let ghost gl = text::lines(body@);
    let mut out = String::new();
    let mut in_block = false;
    let mut i: usize = 0;
    while i < ls.len()
        invariant
            ls.len() == gl.len(),
            forall|j: int| 0 <= j < ls.len() ==> #[trigger] ls[j]@ == gl[j],
            i <= ls.len(),
            (out@, in_block) == patch_fold(gl, i as int),
        decreases ls.len() - i,
    {
        let next = if i + 1 < ls.len() { Some(&ls[i + 1]) } else { None };
        in_block = patch_step_into(&mut out, in_block, &ls[i], next);
        i = i + 1;
    }
    if in_block {
        out.append("```\r\n");
    }
    out
}

/// Formats a body for Gemini: patches get diff blocks, other bodies get
/// Gemini quote syntax.
pub fn format_body_for_gemini(body: &str) -> (r: String)
    ensures
        r@ == gemini_body(body@),
{
    if looks_like_patch(body) {
        return format_patch_body(body);
    }
    format_quoted_text(body)
}

/// Undoes format=flowed (RFC 3676): a line that ends with a space is joined
/// with the next one, other lines end in a hard break, and one leading
/// space-stuffing space is removed from each line.
pub fn unformat_flowed(text: &str) -> (r: String)
    ensures
        r@ == unflowed(text@),
{
    let v = chars_of(text);
    let pieces = text::split_exec(&v, '\n');
    let ghost gp = text::split_on(text@, '\n');
    let mut result = String::new();
    let mut skip_newline = true;
    let mut i: usize = 0;
    proof {
        reveal_strlit(" ");
        assert(" "@ =~= seq![' ']);
    }
    while i < pieces.len()
        invariant
            pieces.len() == gp.len(),
            forall|j: int| 0 <= j < pieces.len() ==> #[trigger] pieces[j]@ == gp[j],
            i <= pieces.len(),
            (result@, skip_newline) == flowed_fold(gp.take(i as int)),
            " "@ == seq![' '],
        decreases pieces.len() - i,
    {
        let piece = &pieces[i];
        let start: usize = if starts_with_exec(piece, " ") { 1 } else { 0 };
        if !skip_newline {
            result.push('\n');
        }
        push_range(&mut result, piece, start, piece.len());
        let ends = piece.len() > start && piece[piece.len() - 1] == ' ';
        proof {
            let line = piece@.subrange(start as int, piece@.len() as int);
            if start == 1 {
                assert(line =~= piece@.drop_first());
            } else {
                assert(line =~= piece@);
            }
            if line.len() > 0 {
                assert(line.skip(line.len() - 1) =~= seq![line.last()]);
                assert(line.last() == piece@[piece@.len() - 1]);
                assert(seq![line.last()][0] == line.last());
            }
            assert(ends == text::ends_with(line, seq![' ']));
            assert(gp.take(i + 1).drop_last() =~= gp.take(i as int));
        }
        skip_newline = ends;
        i = i + 1;
    }
    proof {
        assert(gp.take(i as int) =~= gp);
    }
    result
}

/// The links that `linkify::LinkFinder` (default options) finds in a text,
/// in order: whether each is a URL (not an e-mail address), and its text.
pub uninterp spec fn found_links(text: Seq<char>) -> Seq<(bool, Seq<char>)>;

/// Calls `LinkFinder::new().links(text)`; claims that the result is the
/// sequence named by `found_links`, and that each link's text is a piece of
/// the text (`Link::as_str` slices the input).
#[verifier::external_body]
fn links_in(text: &str) -> (r: Vec<(bool, String)>)
    ensures
        r@.map_values(|x: (bool, String)| (x.0, x.1@)) == found_links(text@),
        forall|i: int| 0 <= i < r.len() ==> text::contains(text@, #[trigger] r@[i].1@),
{
    LinkFinder::new().links(text).map(|l| (l.kind() == &LinkKind::Url, l.as_str().to_string())).collect()
}

/// The URLs among `links`, each once, in order of first appearance.
pub open spec fn distinct_urls(links: Seq<(bool, Seq<char>)>) -> Seq<Seq<char>>
    decreases links.len(),
{
    if links.len() == 0 {
        Seq::empty()
    } else {
        let prev = distinct_urls(links.drop_last());
        let l = links.last();
        if l.0 && !prev.contains(l.1) {
            prev.push(l.1)
        } else {
            prev
        }
    }
}

/// The model of found links: whether each is a URL, and its text.
pub open spec fn links_view(links: Seq<(bool, String)>) -> Seq<(bool, Seq<char>)> {
    links.map_values(|x: (bool, String)| (x.0, x.1@))
}

/// The URLs among `links`, each once, in order of first appearance.
pub fn distinct_url_list(links: &Vec<(bool, String)>) -> (r: Vec<String>)
    ensures
        r.deep_view() == distinct_urls(links_view(links@)),
{
    let ghost lv = links@.map_values(|x: (bool, String)| (x.0, x.1@));
    let mut urls: Vec<String> = Vec::new();
    let mut i: usize = 0;
    while i < links.len()
        invariant
            i <= links.len(),
            lv == links@.map_values(|x: (bool, String)| (x.0, x.1@)),
            urls.deep_view() == distinct_urls(lv.take(i as int)),
        decreases links.len() - i,
    {
        let ghost prev = urls.deep_view();
        proof {
            assert(lv.take(i + 1).drop_last() =~= lv.take(i as int));
            assert(lv.take(i + 1).last() == lv[i as int]);
        }
        if links[i].0 {
            let mut seen = false;
            let mut k: usize = 0;
            while k < urls.len()
                invariant_except_break
                    !seen,
                invariant
                    k <= urls.len(),
                    i < links.len(),
                    prev == urls.deep_view(),
                    forall|q: int| 0 <= q < k ==> prev[q] != links@[i as int].1@,
                ensures
                    seen ==> prev.contains(links@[i as int].1@),
                    !seen ==> k == urls.len(),
                    forall|q: int| 0 <= q < k ==> prev[q] != links@[i as int].1@,
                decreases urls.len() - k,
            {
                if urls[k] == links[i].1 {
                    seen = true;
                    assert(prev[k as int] == links@[i as int].1@);
                    break;
                }
                k = k + 1;
            }
            if !seen {
                urls.push(links[i].1.clone());
                proof {
                    assert(urls.deep_view() =~= prev.push(links@[i as int].1@));
                }
            }
        }
        i = i + 1;
    }
    proof {
        assert(lv.take(i as int) =~= lv);
    }
    urls
}


/// The URLs of a body, each once, in order of first appearance.
pub fn extract_urls(body: &str) -> (r: Vec<String>)
    ensures
        r.deep_view() == distinct_urls(found_links(body@)),
{
    let links = links_in(body);
    distinct_url_list(&links)
}

/// A header made safe by `h` is one line: it has no carriage return and no
/// line feed, it keeps its length, and text without them is kept as it is.
pub proof fn lemma_h_one_line(s: Seq<char>)
    ensures
        text::unbreak(s).len() == s.len(),
        forall|i: int| 0 <= i < s.len() ==> #[trigger] text::unbreak(s)[i] != '\r' && text::unbreak(s)[i] != '\n',
        (forall|i: int| 0 <= i < s.len() ==> #[trigger] s[i] != '\r' && s[i] != '\n') ==> text::unbreak(s) == s,
{
    if forall|i: int| 0 <= i < s.len() ==> #[trigger] s[i] != '\r' && s[i] != '\n' {
        assert(text::unbreak(s) =~= s);
    }
}

/// The URLs that `extract_urls` gives are distinct, each is a URL that the
/// finder found, and each URL that the finder found is among them.
pub proof fn lemma_distinct_urls(links: Seq<(bool, Seq<char>)>)
    ensures
        forall|a: int, b: int|
            0 <= a < b < distinct_urls(links).len() ==> #[trigger] distinct_urls(links)[a] != #[trigger] distinct_urls(
                links,
            )[b],
        forall|a: int|
            0 <= a < distinct_urls(links).len() ==> links.contains((true, #[trigger] distinct_urls(links)[a])),
        forall|k: int| 0 <= k < links.len() && (#[trigger] links[k]).0 ==> distinct_urls(links).contains(links[k].1),
    decreases links.len(),
{
    if links.len() > 0 {
        let prev = links.drop_last();
        lemma_distinct_urls(prev);
        let d = distinct_urls(prev);
        let l = links.last();
        assert forall|a: int| 0 <= a < distinct_urls(links).len() implies links.contains(
            (true, #[trigger] distinct_urls(links)[a]),
        ) by {
            if a < d.len() {
                assert(distinct_urls(links)[a] == d[a]);
                let k = choose|k: int| 0 <= k < prev.len() && prev[k] == (true, d[a]);
                assert(links[k] == prev[k]);
            } else {
                assert(links[links.len() - 1] == l);
            }
        }
        assert forall|k: int| 0 <= k < links.len() && (#[trigger] links[k]).0 implies distinct_urls(links).contains(
            links[k].1,
        ) by {
            if k < links.len() - 1 {
                assert(links[k] == prev[k]);
                let j = choose|j: int| 0 <= j < d.len() && d[j] == prev[k].1;
                assert(distinct_urls(links)[j] == d[j]);
            } else if l.0 && !d.contains(l.1) {
                assert(distinct_urls(links)[d.len() as int] == l.1);
            }
        }
    }
}

/// A quoted line however deeply nested, its quote markers with or without
/// spaces between them, is rendered as a single Gemini quote of its text.
pub proof fn lemma_nested_quotes_collapse(q: Seq<char>, t: Seq<char>)
    requires
        q.len() >= 1,
        q[0] == '>',
        forall|i: int| 0 <= i < q.len() ==> is_quote_mark(#[trigger] q[i]),
        t.len() == 0 || !is_quote_mark(t[0]),
    ensures
        quote_line(q + t) == "> "@ + t + "\r\n"@,
{
    let line = q + t;
    assert(line[0] == '>');
    assert(text::lead_ws(line) == 0);
    assert(line.skip(0) =~= line);
    assert(line.take(1) =~= seq!['>']);
    lemma_lead_quote_prefix(q, t);
    assert(line.skip(q.len() as int) =~= t);
}

/// What is left after the quote markers does not open with one.
proof fn lemma_strip_quote_first(t: Seq<char>)
    ensures
        lead_quote(t) <= t.len(),
        strip_quote(t).len() == 0 || !is_quote_mark(strip_quote(t)[0]),
        forall|j: int| 0 <= j < strip_quote(t).len() ==> #[trigger] strip_quote(t)[j] == t[j + lead_quote(t)],
    decreases t.len(),
{
    if t.len() > 0 && is_quote_mark(t[0]) {
        let d = t.drop_first();
        lemma_strip_quote_first(d);
        assert(t.skip(lead_quote(t) as int) =~= d.skip(lead_quote(d) as int));
        assert forall|j: int| 0 <= j < strip_quote(t).len() implies #[trigger] strip_quote(t)[j] == t[j
            + lead_quote(t)] by {
            assert(strip_quote(d)[j] == d[j + lead_quote(d)]);
        }
    } else {
        assert(strip_quote(t) =~= t);
    }
}

/// Leading whitespace is no longer than the text.
proof fn lemma_lead_ws_bound(s: Seq<char>)
    ensures
        text::lead_ws(s) <= s.len(),
    decreases s.len(),
{
    if s.len() > 0 {
        lemma_lead_ws_bound(s.drop_first());
    }
}

/// Rendering a rendered line again changes nothing, and a rendering holds
/// no line feed when the line holds none.
proof fn lemma_quoted_twice(l: Seq<char>)
    requires
        forall|j: int| 0 <= j < l.len() ==> #[trigger] l[j] != '\n',
    ensures
        quoted(quoted(l)) == quoted(l),
        forall|j: int| 0 <= j < quoted(l).len() ==> #[trigger] quoted(l)[j] != '\n',
{
    reveal_strlit("> ");
    let gt = "> "@;
    assert(gt =~= seq!['>', ' ']);
    let t = text::trim_start(l);
    lemma_lead_ws_bound(l);
    assert forall|j: int| 0 <= j < t.len() implies #[trigger] t[j] != '\n' by {
        assert(t[j] == l[j + text::lead_ws(l)]);
    }
    let r = quoted(l);
    if text::starts_with(t, seq!['>']) || (text::starts_with(t, "On "@) && text::contains(t, " wrote:"@)) {
        let rest = if text::starts_with(t, seq!['>']) { strip_quote(t) } else { t };
        lemma_strip_quote_first(t);
        if !text::starts_with(t, seq!['>']) {
            reveal_strlit("On ");
            assert(t.take(3) =~= "On "@);
            assert(t[0] == t.take(3)[0]);
        }
        assert(rest.len() == 0 || !is_quote_mark(rest[0]));
        assert(r == gt + rest);
        assert(r[0] == '>');
        assert(!text::is_whitespace('>'));
        assert(text::lead_ws(r) == 0);
        assert(text::trim_start(r) =~= r);
        assert(r.take(1) =~= seq!['>']);
        lemma_lead_quote_prefix(gt, rest);
        assert(strip_quote(r) =~= rest);
        assert forall|j: int| 0 <= j < r.len() implies #[trigger] r[j] != '\n' by {
            if j >= 2 {
                assert(r[j] == rest[j - 2]);
                if text::starts_with(t, seq!['>']) {
                    assert(rest[j - 2] == t[j - 2 + lead_quote(t)]);
                }
            }
        }
    }
}

/// The renderings of lines are those lines' rendered texts, each ended by
/// `\r\n`.
proof fn lemma_quote_lines_crlf(ls: Seq<Seq<char>>)
    ensures
        quote_lines(ls) == text::crlf_lines(ls.map_values(|l: Seq<char>| quoted(l))),
    decreases ls.len(),
{
    if ls.len() > 0 {
        lemma_quote_lines_crlf(ls.drop_last());
        let m = ls.map_values(|l: Seq<char>| quoted(l));
        assert(m.drop_last() =~= ls.drop_last().map_values(|l: Seq<char>| quoted(l)));
    }
}

/// Formatting quoted text a second time changes nothing.
pub proof fn lemma_quoted_text_idempotent(body: Seq<char>)
    ensures
        quoted_text(quoted_text(body)) == quoted_text(body),
{
    let ls = text::lines(body);
    text::lemma_lines_no_lf(body);
    let q = ls.map_values(|l: Seq<char>| quoted(l));
    assert forall|i: int| 0 <= i < ls.len() implies #[trigger] quoted(q[i]) == q[i] by {
        assert forall|j: int| 0 <= j < ls[i].len() implies #[trigger] ls[i][j] != '\n' by {}
        lemma_quoted_twice(ls[i]);
    }
    assert forall|i: int, j: int| 0 <= i < q.len() && 0 <= j < q[i].len() implies #[trigger] q[i][j] != '\n' by {
        assert forall|k: int| 0 <= k < ls[i].len() implies #[trigger] ls[i][k] != '\n' by {}
        lemma_quoted_twice(ls[i]);
    }
    lemma_quote_lines_crlf(ls);
    text::lemma_lines_of_crlf(q);
    lemma_quote_lines_crlf(q);
    assert(q.map_values(|l: Seq<char>| quoted(l)) =~= q);
}

/// Leading quote marks, then text that does not open with one: exactly
/// those marks lead.
proof fn lemma_lead_quote_prefix(q: Seq<char>, t: Seq<char>)
    requires
        forall|i: int| 0 <= i < q.len() ==> is_quote_mark(#[trigger] q[i]),
        t.len() == 0 || !is_quote_mark(t[0]),
    ensures
        lead_quote(q + t) == q.len(),
    decreases q.len(),
{
    if q.len() == 0 {
        assert(q + t =~= t);
    } else {
        let r = q.drop_first();
        assert forall|i: int| 0 <= i < r.len() implies is_quote_mark(#[trigger] r[i]) by {
            assert(r[i] == q[i + 1]);
        }
        lemma_lead_quote_prefix(r, t);
        assert((q + t).drop_first() =~= r + t);
        assert((q + t)[0] == q[0]);
    }
}

/// Lines that neither start nor end with a space are kept, joined by line
/// feeds.
proof fn lemma_flowed_fold_fixed(ps: Seq<Seq<char>>)
    requires
        ps.len() >= 1,
        forall|i: int|
            0 <= i < ps.len() ==> !text::starts_with(#[trigger] ps[i], seq![' ']) && !text::ends_with(
                ps[i],
                seq![' '],
            ),
    ensures
        flowed_fold(ps) == (text::join(ps, seq!['\n']), false),
    decreases ps.len(),
{
    if ps.len() == 1 {
        assert(ps.drop_last() =~= Seq::<Seq<char>>::empty());
        assert(ps.last() == ps[0]);
        assert(!text::starts_with(ps[0], seq![' ']) && !text::ends_with(ps[0], seq![' ']));
        assert(flowed_fold(ps.drop_last()) == (Seq::<char>::empty(), true));
        assert(Seq::<char>::empty() + ps[0] =~= ps[0]);
        assert(flowed_step((Seq::<char>::empty(), true), ps[0]) == (ps[0], false));
    } else {
        let prev = ps.drop_last();
        assert forall|i: int|
            0 <= i < prev.len() implies !text::starts_with(#[trigger] prev[i], seq![' ']) && !text::ends_with(
                prev[i],
                seq![' '],
            ) by {
            assert(prev[i] == ps[i]);
        }
        lemma_flowed_fold_fixed(prev);
        assert(ps.last() == ps[ps.len() - 1]);
        assert(!text::starts_with(ps[ps.len() - 1], seq![' ']) && !text::ends_with(ps[ps.len() - 1], seq![' ']));
        let j = text::join(prev, seq!['\n']);
        assert(flowed_step((j, false), ps.last()) == (j.push('\n') + ps.last(), false));
        assert(j.push('\n') + ps.last() =~= j + seq!['\n'] + ps.last());
    }
}

/// A text with no soft line breaks and no space-stuffing, that is no line
/// that starts or ends with a space, is kept as it is by `unformat_flowed`.
pub proof fn lemma_unflowed_fixed_text(text: Seq<char>)
    requires
        forall|i: int|
            0 <= i < text::split_on(text, '\n').len() ==> !text::starts_with(
                #[trigger] text::split_on(text, '\n')[i],
                seq![' '],
            ) && !text::ends_with(text::split_on(text, '\n')[i], seq![' ']),
    ensures
        unflowed(text) == text,
{
    text::lemma_split_on_nonempty(text, '\n');
    lemma_flowed_fold_fixed(text::split_on(text, '\n'));
    text::lemma_join_split(text, '\n');
}

/// Undoing format=flowed on one line removes exactly one space-stuffing
/// space, and keeps a line without one as it is.
pub proof fn lemma_unflowed_one_line(l: Seq<char>)
    requires
        forall|j: int| 0 <= j < l.len() ==> l[j] != '\n',
    ensures
        unflowed(seq![' '] + l) == l,
        l.len() == 0 || l[0] != ' ' ==> unflowed(l) == l,
{
    let e = Seq::<char>::empty();
    let st = seq![' '] + l;
    assert forall|j: int| 0 <= j < st.len() implies st[j] != '\n' by {
        if j > 0 {
            assert(st[j] == l[j - 1]);
        }
    }
    text::lemma_split_one_line(st);
    text::lemma_split_one_line(l);
    assert(seq![st].drop_last() =~= Seq::<Seq<char>>::empty());
    assert(seq![l].drop_last() =~= Seq::<Seq<char>>::empty());
    assert(flowed_fold(Seq::<Seq<char>>::empty()) == (e, true));
    assert(st.take(1) =~= seq![' ']);
    assert(st.drop_first() =~= l);
    assert(e + l =~= l);
    if l.len() > 0 {
        assert(l.take(1)[0] == l[0]);
    }
}

} // verus!
