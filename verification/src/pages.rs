use vstd::prelude::*;

use crate::body;
use crate::body::{extract_urls, format_body_for_gemini, h, looks_like_patch, unformat_flowed};
use crate::list::{MailingList, ThreadSummary};
use crate::mail;
use crate::mail::{AddressView, Mail, MailAddress};
use crate::text;
use crate::text::{chars_of, decimal_exec, push_chars, push_range, unbreak_exec};

verus! {

broadcast use vstd::string::group_string_axioms;

/// How many thread summaries a page of a list index shows.
pub const PAGE_SIZE: usize = 50;

// ---------------------------------------------------------------------
// Specifications
// ---------------------------------------------------------------------

/// The first position at or after `k` where `s` holds `c`, or -1.
pub open spec fn first_index(s: Seq<char>, c: char, k: int) -> int
    decreases s.len() - k,
{
    if k < 0 || k >= s.len() {
        -1
    } else if s[k] == c {
        k
    } else {
        first_index(s, c, k + 1)
    }
}

/// `str::split_once` with a character: the text before and after the first
/// `c`, if there is one.
pub open spec fn split_once(s: Seq<char>, c: char) -> Option<(Seq<char>, Seq<char>)> {
    let k = first_index(s, c, 0);
    if k < 0 {
        None
    } else {
        Some((s.take(k), s.skip(k + 1)))
    }
}

/// The text before the first `c`, or `d` when there is no `c`.
pub open spec fn before_or(s: Seq<char>, c: char, d: Seq<char>) -> Seq<char> {
    match split_once(s, c) {
        Some(p) => p.0,
        None => d,
    }
}

/// The horizontal rule that separates a page's content from its links.
pub open spec fn rule() -> Seq<char> {
    "───────────────────────────────────────"@
}

/// A name if there is one, else the address.
pub open spec fn name_or_address(a: AddressView) -> Seq<char> {
    match a.name {
        Some(n) => n,
        None => a.address,
    }
}

/// `reply` for one reply, `replies` for any other number.
pub open spec fn reply_word(n: nat) -> Seq<char> {
    if n == 1 {
        "reply"@
    } else {
        "replies"@
    }
}

/// The link line of one thread on a list index page.
pub open spec fn topic_link(t: ThreadSummary) -> Seq<char> {
    "=> threads/"@ + text::unbreak(mail::path_escaped(t.first_message_id@)) + "/index.gmi "@
        + text::unbreak(t.first_message_subject@) + "\r\n"@
}

/// The line under a thread's link: sender, replies, date of the last reply.
pub open spec fn topic_meta(t: ThreadSummary) -> Seq<char> {
    let date_str = t.last_reply.rfc3339();
    "  "@ + text::unbreak(name_or_address(t.first_message_from@)) + " · "@ + text::decimal(
        t.reply_count as nat,
    ) + " "@ + reply_word(t.reply_count as nat) + " · "@ + before_or(date_str, 'T', date_str)
        + "\r\n"@
}

/// The preview line of a thread, if its first mail has a preview.
pub open spec fn topic_preview(t: ThreadSummary) -> Seq<char> {
    if t.first_message_preview@.len() > 0 {
        "> "@ + text::unbreak(t.first_message_preview@) + "\r\n"@
    } else {
        Seq::empty()
    }
}

/// The entry of one thread on a list index page.
pub open spec fn topic_entry(t: ThreadSummary) -> Seq<char> {
    topic_link(t) + topic_meta(t) + topic_preview(t)
}

/// The entries of the threads `ts`, separated by blank lines.
pub open spec fn topic_entries(ts: Seq<ThreadSummary>) -> Seq<char> {
    text::join(ts.map_values(|t: ThreadSummary| topic_entry(t)), "\r\n"@)
}

/// The number of pages of a list index that shows `n` threads: one more
/// than the number of full pages.
pub open spec fn page_count(n: nat) -> nat {
    n / (PAGE_SIZE as nat) + 1
}

/// "Page n of m", when there is more than one page.
pub open spec fn nav_page_of(n: nat, pages: nat) -> Seq<char> {
    if pages > 1 {
        "Page "@ + text::decimal(n + 1) + " of "@ + text::decimal(pages) + "\r\n\r\n"@
    } else {
        Seq::empty()
    }
}

/// The link to the newer page, on every page but the first.
pub open spec fn nav_newer(n: nat) -> Seq<char> {
    if n > 0 {
        if n == 1 {
            "=> index.gmi ← Newer\r\n"@
        } else {
            "=> index-"@ + text::decimal(n) + ".gmi ← Newer\r\n"@
        }
    } else {
        Seq::empty()
    }
}

/// The link to the older page, on every page but the last.
pub open spec fn nav_older(n: nat, pages: nat) -> Seq<char> {
    if n + 1 < pages {
        "=> index-"@ + text::decimal(n + 2) + ".gmi Older →\r\n"@
    } else {
        Seq::empty()
    }
}

/// The navigation at the bottom of page `n` (counting from 0).
pub open spec fn list_navigation(n: nat, pages: nat) -> Seq<char> {
    nav_page_of(n, pages) + nav_newer(n) + nav_older(n, pages) + "=> ../index.gmi All lists\r\n"@
}

/// Page `n` (counting from 0) of the index of the list `name`.
pub open spec fn list_page(name: Seq<char>, ts: Seq<ThreadSummary>, n: nat) -> Seq<char> {
    let lo = n * (PAGE_SIZE as nat);
    let hi = if lo + PAGE_SIZE < ts.len() { lo + PAGE_SIZE } else { ts.len() as int };
    "# "@ + name + "\r\n\r\n"@ + topic_entries(ts.subrange(lo as int, hi)) + "\r\n"@ + rule()
        + "\r\n\r\n"@ + list_navigation(n, page_count(ts.len()))
}

/// The number of pages that `[T]::chunks` with `PAGE_SIZE` makes of `n`
/// threads.
pub open spec fn chunk_count(n: nat) -> nat {
    (n + PAGE_SIZE - 1) as nat / (PAGE_SIZE as nat)
}

/// The line of the main index that links to the list `name`.
pub open spec fn list_link(name: Seq<char>) -> Seq<char> {
    "=> ./"@ + text::unbreak(name) + "/index.gmi "@ + text::unbreak(name) + "\r\n"@
}

/// The links of the main index to the lists named `names`.
pub open spec fn list_links(names: Seq<Seq<char>>) -> Seq<char>
    decreases names.len(),
{
    if names.len() == 0 {
        Seq::empty()
    } else {
        list_links(names.drop_last()) + list_link(names.last())
    }
}

/// The main index of a site with the lists named `names`.
pub open spec fn lists_index(names: Seq<Seq<char>>) -> Seq<char> {
    "# Archives\r\n\r\n"@ + list_links(names)
}

/// `message` for one mail, `messages` for any other number.
pub open spec fn message_word(n: nat) -> Seq<char> {
    if n == 1 {
        "message"@
    } else {
        "messages"@
    }
}

/// The title of a thread sorted newest first: the subject of its oldest mail.
pub open spec fn thread_title(thread: Seq<Mail>) -> Seq<char> {
    text::unbreak(thread.last().subject@)
}

/// The head of a thread's index page.
pub open spec fn thread_index_head(thread: Seq<Mail>) -> Seq<char> {
    "# "@ + thread_title(thread) + "\r\n\r\n"@ + text::decimal(thread.len()) + " "@ + message_word(
        thread.len(),
    ) + "\r\n\r\n"@ + "## Messages\r\n\r\n"@
}

/// The link to message `number` (counting from 1) on a thread's index page.
pub open spec fn thread_entry_link(m: Mail, number: nat) -> Seq<char> {
    "=> "@ + text::decimal(number) + ".gmi "@ + text::unbreak(name_or_address(m.from@)) + " - "@
        + before_or(m.date.rfc3339(), 'T', Seq::empty()) + "\r\n"@
}

/// The preview line of a mail, if it has a preview.
pub open spec fn mail_preview(m: Mail) -> Seq<char> {
    if m.preview@.len() > 0 {
        "> "@ + text::unbreak(m.preview@) + "\r\n"@
    } else {
        Seq::empty()
    }
}

/// The entries of a thread's index page for the mails `ms`.
pub open spec fn thread_index_entries(ms: Seq<Mail>) -> Seq<char>
    decreases ms.len(),
{
    if ms.len() == 0 {
        Seq::empty()
    } else {
        thread_index_entries(ms.drop_last()) + thread_entry_link(ms.last(), ms.len()) + mail_preview(
            ms.last(),
        ) + "\r\n"@
    }
}

/// The index page of a thread.
pub open spec fn thread_index(thread: Seq<Mail>) -> Seq<char> {
    thread_index_head(thread) + thread_index_entries(thread) + rule() + "\r\n\r\n"@
        + "=> ../../index.gmi Back to list\r\n"@
}

/// The sender as a message page shows it: `Name <address>`, or the address.
pub open spec fn from_display(a: AddressView) -> Seq<char> {
    match a.name {
        Some(n) => n + " <"@ + a.address + ">"@,
        None => a.address,
    }
}

/// An RFC 3339 date as a message page shows it: the date, a space, and the
/// time without fractions of a second.
pub open spec fn date_display(s: Seq<char>) -> Seq<char> {
    match split_once(s, 'T') {
        Some(p) => p.0 + " "@ + before_or(p.1, '.', p.1),
        None => Seq::empty(),
    }
}

/// The head of message page `i` (counting from 0) of a thread of `count`.
pub open spec fn message_head(title: Seq<char>, i: nat, count: nat) -> Seq<char> {
    "# "@ + title + "\r\n\r\n"@ + "Message "@ + text::decimal(i + 1) + " of "@ + text::decimal(count)
        + "\r\n\r\n"@
}

/// The header block of a message page.
pub open spec fn message_headers(m: Mail) -> Seq<char> {
    "## "@ + text::unbreak(m.subject@) + "\r\n\r\n"@ + "From: "@ + text::unbreak(from_display(m.from@))
        + "\r\n"@ + "Date: "@ + date_display(m.date.rfc3339()) + "\r\n"@ + "Message-ID: "@
        + text::unbreak(m.id@) + "\r\n"@
}

/// The addresses `addrs` as shown, separated by commas.
pub open spec fn shown_addresses(addrs: Seq<AddressView>) -> Seq<char> {
    text::join(addrs.map_values(|a: AddressView| a.shown()), ", "@)
}

/// A `To:` or `Cc:` line, if there are addresses.
pub open spec fn address_line(label: Seq<char>, addrs: Seq<AddressView>) -> Seq<char> {
    if addrs.len() > 0 {
        label + text::unbreak(shown_addresses(addrs)) + "\r\n"@
    } else {
        Seq::empty()
    }
}

/// The `In-Reply-To:` line, if the mail has one.
pub open spec fn in_reply_to_line(irt: Option<Seq<char>>) -> Seq<char> {
    match irt {
        Some(x) => "In-Reply-To: "@ + text::unbreak(x) + "\r\n"@,
        None => Seq::empty(),
    }
}

/// The text of a mail's body, with format=flowed undone when it is flowed.
pub open spec fn body_text(m: Mail) -> Seq<char> {
    if m.flowed {
        body::unflowed(m.body@)
    } else {
        m.body@
    }
}

/// The numbered links to the URLs `urls`.
pub open spec fn link_lines(urls: Seq<Seq<char>>) -> Seq<char>
    decreases urls.len(),
{
    if urls.len() == 0 {
        Seq::empty()
    } else {
        link_lines(urls.drop_last()) + "=> "@ + urls.last() + " ["@ + text::decimal(urls.len()) + "]\r\n"@
    }
}

/// The list of the links of a body that is not a patch, if it has any.
pub open spec fn links_section(b: Seq<char>) -> Seq<char> {
    let urls = body::distinct_urls(body::found_links(b));
    if !body::patch_like(b) && urls.len() > 0 {
        "\r\n### Links\r\n"@ + link_lines(urls)
    } else {
        Seq::empty()
    }
}

/// The navigation at the bottom of message page `i` (counting from 0).
pub open spec fn message_footer(i: nat, count: nat) -> Seq<char> {
    "\r\n"@ + rule() + "\r\n\r\n"@ + "=> index.gmi Thread index\r\n"@ + (if i > 0 {
        "=> "@ + text::decimal(i) + ".gmi ← Newer\r\n"@
    } else {
        Seq::empty()
    }) + (if i + 1 < count {
        "=> "@ + text::decimal(i + 2) + ".gmi Older →\r\n"@
    } else {
        Seq::empty()
    }) + "=> ../../index.gmi Back to list\r\n"@
}

/// Message page `i` (counting from 0) of a thread.
pub open spec fn message_page(thread: Seq<Mail>, i: int) -> Seq<char> {
    let m = thread[i];
    message_head(thread_title(thread), i as nat, thread.len()) + message_headers(m) + address_line(
        "To: "@,
        m.to@.map_values(|a: MailAddress| a@),
    ) + address_line("Cc: "@, m.cc@.map_values(|a: MailAddress| a@)) + in_reply_to_line(
        m.in_reply_to.deep_view(),
    ) + "\r\n"@ + body::gemini_body(body_text(m)) + links_section(body_text(m)) + message_footer(
        i as nat,
        thread.len(),
    )
}

/// The pages of a thread: its index and one page per mail.
pub struct ThreadPages {
    pub index: String,
    pub messages: Vec<String>,
}

// ---------------------------------------------------------------------
// Executable functions
// ---------------------------------------------------------------------

/// The position of the first `c` in `v`, if any.
fn first_index_exec(v: &Vec<char>, c: char) -> (r: Option<usize>)
    ensures
        match r {
            Some(k) => k < v.len() && first_index(v@, c, 0) == k,
            None => first_index(v@, c, 0) == -1,
        },
{
    let mut k: usize = 0;
    while k < v.len()
        invariant
            k <= v.len(),
            first_index(v@, c, 0) == first_index(v@, c, k as int),
        decreases v.len() - k,
    {
        if v[k] == c {
            return Some(k);
        }
        k = k + 1;
    }
    None
}

/// Appends the text of `v` before its first `c`, or `d` when there is none.
fn push_before_or(out: &mut String, v: &Vec<char>, c: char, d: &Vec<char>)
    ensures
        final(out)@ == old(out)@ + before_or(v@, c, d@),
{
    match first_index_exec(v, c) {
        Some(k) => {
            push_range(out, v, 0, k);
            assert(v@.subrange(0, k as int) =~= v@.take(k as int));
        },
        None => {
            push_chars(out, d);
        },
    }
}

/// Appends `s` with line breaks made spaces.
fn push_unbroken(out: &mut String, s: &str)
    ensures
        final(out)@ == old(out)@ + text::unbreak(s@),
{
    let u = unbreak_exec(s);
    out.append(u.as_str());
}

/// Appends the decimal representation of `n`.
fn push_decimal(out: &mut String, n: usize)
    ensures
        final(out)@ == old(out)@ + text::decimal(n as nat),
{
    let d = decimal_exec(n);
    out.append(d.as_str());
}

/// The name of an address if it has one, else the address.
fn name_or_address_exec(a: &MailAddress) -> (r: &String)
    ensures
        r@ == name_or_address(a@),
{
    match &a.name {
        Some(n) => n,
        None => &a.address,
    }
}

fn topic_link_exec(t: &ThreadSummary) -> (r: String)
    ensures
        r@ == topic_link(*t),
{
    let path_id = t.first_message_id_escaped();
    let mut out = String::new();
    out.append("=> threads/");
    assert(out@ =~= "=> threads/"@);
    push_unbroken(&mut out, path_id.as_str());
    out.append("/index.gmi ");
    push_unbroken(&mut out, t.first_message_subject.as_str());
    out.append("\r\n");
    out
}

fn topic_meta_exec(t: &ThreadSummary) -> (r: String)
    ensures
        r@ == topic_meta(*t),
{
    let mut out = String::new();
    out.append("  ");
    assert(out@ =~= "  "@);
    push_unbroken(&mut out, name_or_address_exec(&t.first_message_from).as_str());
    out.append(" · ");
    push_decimal(&mut out, t.reply_count);
    out.append(" ");
    if t.reply_count == 1 {
        out.append("reply");
    } else {
        out.append("replies");
    }
    out.append(" · ");
    let date_str = t.last_reply.to_rfc3339();
    let dv = chars_of(date_str.as_str());
    push_before_or(&mut out, &dv, 'T', &dv);
    out.append("\r\n");
    out
}

fn topic_preview_exec(t: &ThreadSummary) -> (r: String)
    ensures
        r@ == topic_preview(*t),
{
    let mut out = String::new();
    if !t.first_message_preview.as_str().is_empty() {
        out.append("> ");
        assert(out@ =~= "> "@);
        push_unbroken(&mut out, t.first_message_preview.as_str());
        out.append("\r\n");
    }
    out
}

/// Appends the entry of one thread on a list index page.
fn push_topic_entry(out: &mut String, t: &ThreadSummary)
    ensures
        final(out)@ == old(out)@ + topic_entry(*t),
{
    let a = topic_link_exec(t);
    let b = topic_meta_exec(t);
    let c = topic_preview_exec(t);
    out.append(a.as_str());
    out.append(b.as_str());
    out.append(c.as_str());
    assert(old(out)@ + a@ + b@ + c@ =~= old(out)@ + (a@ + b@ + c@));
}

impl ThreadSummary {
    /// The id of the thread's first mail, path-escaped.
    pub fn first_message_id_escaped(&self) -> (r: String)
        ensures
            r@ == mail::path_escaped(self.first_message_id@),
    {
        mail::escape_path(self.first_message_id.as_str())
    }
}

fn nav_page_of_exec(n: usize, pages: usize) -> (r: String)
    requires
        n < usize::MAX,
    ensures
        r@ == nav_page_of(n as nat, pages as nat),
{
    let mut out = String::new();
    if pages > 1 {
        out.append("Page ");
        assert(out@ =~= "Page "@);
        push_decimal(&mut out, n + 1);
        out.append(" of ");
        push_decimal(&mut out, pages);
        out.append("\r\n\r\n");
    }
    out
}

fn nav_newer_exec(n: usize) -> (r: String)
    ensures
        r@ == nav_newer(n as nat),
{
    let mut out = String::new();
    if n > 0 {
        if n == 1 {
            out.append("=> index.gmi ← Newer\r\n");
            assert(out@ =~= "=> index.gmi ← Newer\r\n"@);
        } else {
            out.append("=> index-");
            assert(out@ =~= "=> index-"@);
            push_decimal(&mut out, n);
            out.append(".gmi ← Newer\r\n");
        }
    }
    out
}

fn nav_older_exec(n: usize, pages: usize) -> (r: String)
    requires
        n + 2 <= usize::MAX,
    ensures
        r@ == nav_older(n as nat, pages as nat),
{
    let mut out = String::new();
    if n + 1 < pages {
        out.append("=> index-");
        assert(out@ =~= "=> index-"@);
        push_decimal(&mut out, n + 2);
        out.append(".gmi Older →\r\n");
    }
    out
}

/// The entries of the threads `ts[lo..hi]`, separated by blank lines.
fn topic_entries_exec(ts: &[ThreadSummary], lo: usize, hi: usize) -> (r: String)
    requires
        lo <= hi <= ts@.len(),
    ensures
        r@ == topic_entries(ts@.subrange(lo as int, hi as int)),
{
    let mut out = String::new();
    let mut i = lo;
    proof {
        assert(ts@.subrange(lo as int, lo as int).map_values(|t: ThreadSummary| topic_entry(t)) =~= Seq::<Seq<char>>::empty());
    }
    while i < hi
        invariant
            lo <= i <= hi <= ts@.len(),
            out@ == text::join(
                ts@.subrange(lo as int, i as int).map_values(|t: ThreadSummary| topic_entry(t)),
                "\r\n"@,
            ),
        decreases hi - i,
    {
        let ghost x = ts@.subrange(lo as int, i + 1).map_values(|t: ThreadSummary| topic_entry(t));
        proof {
            assert(x.drop_last() =~= ts@.subrange(lo as int, i as int).map_values(|t: ThreadSummary| topic_entry(t)));
            assert(x.last() == topic_entry(ts@[i as int]));
        }
        if i > lo {
            out.append("\r\n");
        } else {
            assert(out@ =~= Seq::<char>::empty());
        }
        let ghost before = out@;
        push_topic_entry(&mut out, &ts[i]);
        proof {
            if i == lo {
                assert(out@ =~= x[0]);
            }
        }
        i = i + 1;
    }
    out
}

/// The index pages of a list, `PAGE_SIZE` threads each: the newest threads
/// on the first page, navigation links between neighbouring pages.
pub fn generate_list_index(list: &MailingList, thread_summaries: &[ThreadSummary]) -> (r: Vec<String>)
    ensures
        r.len() == chunk_count(thread_summaries@.len()),
        forall|n: int|
            0 <= n < r.len() ==> #[trigger] r@[n]@ == list_page(list.name@, thread_summaries@, n as nat),
{
    let len = thread_summaries.len();
    let pages = len / PAGE_SIZE + 1;
    let mut out: Vec<String> = Vec::new();
    let mut n: usize = 0;
    let mut lo: usize = 0;
    while lo < len
        invariant
            len == thread_summaries@.len(),
            pages == page_count(len as nat),
            lo == (if n * 50 < len { n * 50 } else { len as int }),
            n == 0 || (n - 1) * 50 < len,
            n <= len,
            lo <= len,
            out.len() == n,
            forall|k: int|
                0 <= k < n ==> #[trigger] out@[k]@ == list_page(list.name@, thread_summaries@, k as nat),
        decreases len - lo,
    {
        let hi = if len - lo > PAGE_SIZE { lo + PAGE_SIZE } else { len };
        let mut page = String::new();
        page.append("# ");
        assert(page@ =~= "# "@);
        page.append(list.name.as_str());
        page.append("\r\n\r\n");
        let entries = topic_entries_exec(thread_summaries, lo, hi);
        page.append(entries.as_str());
        page.append("\r\n");
        page.append("───────────────────────────────────────");
        page.append("\r\n\r\n");
        let a = nav_page_of_exec(n, pages);
        let b = nav_newer_exec(n);
        let c = nav_older_exec(n, pages);
        let mut nav = a;
        nav.append(b.as_str());
        nav.append(c.as_str());
        nav.append("=> ../index.gmi All lists\r\n");
        page.append(nav.as_str());
        proof {
            assert(n * (PAGE_SIZE as nat) == lo);
            assert((n + 1) * 50 == n * 50 + 50);
        }
        out.push(page);
        n = n + 1;
        lo = hi;
        if lo < len {
            assert(hi == lo);
        }
    }
    proof {
        assert(out.len() == chunk_count(len as nat)) by (nonlinear_arith)
            requires
                lo == (if n * 50 < len { n * 50 } else { len as int }),
                lo >= len,
                n == 0 || (n - 1) * 50 < len,
                out.len() == n,
        {
        }
    }
    out
}

/// The main index: a link to each list.
pub fn generate_lists_index(lists: &[MailingList]) -> (r: String)
    ensures
        r@ == lists_index(lists@.map_values(|l: MailingList| l.name@)),
{
    let ghost names = lists@.map_values(|l: MailingList| l.name@);
    let mut out = String::new();
    out.append("# Archives\r\n\r\n");
    let mut i: usize = 0;
    proof {
        assert(names.take(0) =~= Seq::<Seq<char>>::empty());
        assert(out@ =~= "# Archives\r\n\r\n"@ + list_links(names.take(0)));
    }
    while i < lists.len()
        invariant
            i <= lists@.len(),
            names == lists@.map_values(|l: MailingList| l.name@),
            out@ == "# Archives\r\n\r\n"@ + list_links(names.take(i as int)),
        decreases lists@.len() - i,
    {
        let name = lists[i].name.as_str();
        let mut line = String::new();
        line.append("=> ./");
        assert(line@ =~= "=> ./"@);
        push_unbroken(&mut line, name);
        line.append("/index.gmi ");
        push_unbroken(&mut line, name);
        line.append("\r\n");
        out.append(line.as_str());
        proof {
            assert(names.take(i + 1).drop_last() =~= names.take(i as int));
            assert(names.take(i + 1).last() == lists@[i as int].name@);
        }
        i = i + 1;
    }
    proof {
        assert(names.take(i as int) =~= names);
    }
    out
}

fn mail_preview_exec(m: &Mail) -> (r: String)
    ensures
        r@ == mail_preview(*m),
{
    let mut out = String::new();
    if !m.preview.as_str().is_empty() {
        out.append("> ");
        assert(out@ =~= "> "@);
        push_unbroken(&mut out, m.preview.as_str());
        out.append("\r\n");
    }
    out
}

fn thread_entry_link_exec(m: &Mail, number: usize) -> (r: String)
    ensures
        r@ == thread_entry_link(*m, number as nat),
{
    let mut out = String::new();
    out.append("=> ");
    assert(out@ =~= "=> "@);
    push_decimal(&mut out, number);
    out.append(".gmi ");
    push_unbroken(&mut out, name_or_address_exec(&m.from).as_str());
    out.append(" - ");
    let date_str = m.date.to_rfc3339();
    let dv = chars_of(date_str.as_str());
    let empty: Vec<char> = Vec::new();
    assert(empty@ =~= Seq::<char>::empty());
    push_before_or(&mut out, &dv, 'T', &empty);
    out.append("\r\n");
    out
}

/// The index page of a non-empty thread.
fn thread_index_exec(thread: &[Mail]) -> (r: String)
    requires
        thread@.len() > 0,
    ensures
        r@ == thread_index(thread@),
{
    let count = thread.len();
    let mut out = String::new();
    out.append("# ");
    assert(out@ =~= "# "@);
    push_unbroken(&mut out, thread[count - 1].subject.as_str());
    out.append("\r\n\r\n");
    push_decimal(&mut out, count);
    out.append(" ");
    if count == 1 {
        out.append("message");
    } else {
        out.append("messages");
    }
    out.append("\r\n\r\n");
    out.append("## Messages\r\n\r\n");
    let ghost head = out@;
    assert(head == thread_index_head(thread@));
    let mut entries = String::new();
    let mut i: usize = 0;
    proof {
        assert(thread@.take(0) =~= Seq::<Mail>::empty());
    }
    while i < count
        invariant
            count == thread@.len(),
            i <= count,
            entries@ == thread_index_entries(thread@.take(i as int)),
        decreases count - i,
    {
        let m = &thread[i];
        let a = thread_entry_link_exec(m, i + 1);
        let b = mail_preview_exec(m);
        entries.append(a.as_str());
        entries.append(b.as_str());
        entries.append("\r\n");
        proof {
            assert(thread@.take(i + 1).drop_last() =~= thread@.take(i as int));
            assert(thread@.take(i + 1).last() == thread@[i as int]);
        }
        i = i + 1;
    }
    proof {
        assert(thread@.take(i as int) =~= thread@);
    }
    out.append(entries.as_str());
    out.append("───────────────────────────────────────");
    out.append("\r\n\r\n");
    out.append("=> ../../index.gmi Back to list\r\n");
    out
}

fn from_display_exec(a: &MailAddress) -> (r: String)
    ensures
        r@ == from_display(a@),
{
    match &a.name {
        Some(n) => {
            let mut out = n.clone();
            out.append(" <");
            out.append(a.address.as_str());
            out.append(">");
            out
        },
        None => a.address.clone(),
    }
}

fn date_display_exec(s: &String) -> (r: String)
    ensures
        r@ == date_display(s@),
{
    let v = chars_of(s.as_str());
    match first_index_exec(&v, 'T') {
        Some(k) => {
            let d = text::slice_exec(&v, 0, k);
            let t = text::slice_exec(&v, k + 1, v.len());
            assert(d@ =~= v@.take(k as int));
            assert(t@ =~= v@.skip(k + 1));
            let mut out = String::new();
            push_chars(&mut out, &d);
            assert(out@ =~= d@);
            out.append(" ");
            push_before_or(&mut out, &t, '.', &t);
            out
        },
        None => String::new(),
    }
}

fn message_head_exec(thread: &[Mail], i: usize) -> (r: String)
    requires
        i < thread@.len(),
    ensures
        r@ == message_head(thread_title(thread@), i as nat, thread@.len()),
{
    let count = thread.len();
    let mut out = String::new();
    out.append("# ");
    assert(out@ =~= "# "@);
    push_unbroken(&mut out, thread[count - 1].subject.as_str());
    out.append("\r\n\r\n");
    out.append("Message ");
    push_decimal(&mut out, i + 1);
    out.append(" of ");
    push_decimal(&mut out, count);
    out.append("\r\n\r\n");
    out
}

fn message_headers_exec(m: &Mail) -> (r: String)
    ensures
        r@ == message_headers(*m),
{
    let mut out = String::new();
    out.append("## ");
    assert(out@ =~= "## "@);
    push_unbroken(&mut out, m.subject.as_str());
    out.append("\r\n\r\n");
    out.append("From: ");
    let fd = from_display_exec(&m.from);
    push_unbroken(&mut out, fd.as_str());
    out.append("\r\n");
    out.append("Date: ");
    let date_str = m.date.to_rfc3339();
    let dd = date_display_exec(&date_str);
    out.append(dd.as_str());
    out.append("\r\n");
    out.append("Message-ID: ");
    push_unbroken(&mut out, m.id.as_str());
    out.append("\r\n");
    out
}

fn shown_addresses_exec(addrs: &Vec<MailAddress>) -> (r: String)
    ensures
        r@ == shown_addresses(addrs@.map_values(|a: MailAddress| a@)),
{
    let ghost av = addrs@.map_values(|a: MailAddress| a@);
    let ghost sv = av.map_values(|a: AddressView| a.shown());
    let mut out = String::new();
    let mut i: usize = 0;
    proof {
        assert(sv.take(0) =~= Seq::<Seq<char>>::empty());
    }
    while i < addrs.len()
        invariant
            i <= addrs.len(),
            av == addrs@.map_values(|a: MailAddress| a@),
            sv == av.map_values(|a: AddressView| a.shown()),
            out@ == text::join(sv.take(i as int), ", "@),
        decreases addrs.len() - i,
    {
        let ghost x = sv.take(i + 1);
        proof {
            assert(x.drop_last() =~= sv.take(i as int));
            assert(x.last() == addrs@[i as int]@.shown());
        }
        if i > 0 {
            out.append(", ");
        } else {
            assert(out@ =~= Seq::<char>::empty());
        }
        let d = addrs[i].display();
        out.append(d.as_str());
        proof {
            if i == 0 {
                assert(out@ =~= x[0]);
            }
        }
        i = i + 1;
    }
    proof {
        assert(sv.take(i as int) =~= sv);
    }
    out
}

fn address_line_exec(label: &str, addrs: &Vec<MailAddress>) -> (r: String)
    ensures
        r@ == address_line(label@, addrs@.map_values(|a: MailAddress| a@)),
{
    let mut out = String::new();
    if addrs.len() > 0 {
        out.append(label);
        assert(out@ =~= label@);
        let joined = shown_addresses_exec(addrs);
        push_unbroken(&mut out, joined.as_str());
        out.append("\r\n");
    }
    out
}

fn in_reply_to_line_exec(irt: &Option<String>) -> (r: String)
    ensures
        r@ == in_reply_to_line(irt.deep_view()),
{
    let mut out = String::new();
    match irt {
        Some(x) => {
            out.append("In-Reply-To: ");
            assert(out@ =~= "In-Reply-To: "@);
            push_unbroken(&mut out, x.as_str());
            out.append("\r\n");
        },
        None => {},
    }
    out
}

fn link_lines_exec(urls: &Vec<String>) -> (r: String)
    ensures
        r@ == link_lines(urls.deep_view()),
{
    let ghost uv = urls.deep_view();
    let mut out = String::new();
    let mut i: usize = 0;
    proof {
        assert(uv.take(0) =~= Seq::<Seq<char>>::empty());
    }
    while i < urls.len()
        invariant
            i <= urls.len(),
            uv == urls.deep_view(),
            out@ == link_lines(uv.take(i as int)),
        decreases urls.len() - i,
    {
        proof {
            assert(uv.take(i + 1).drop_last() =~= uv.take(i as int));
            assert(uv.take(i + 1).last() == urls@[i as int]@);
        }
        out.append("=> ");
        out.append(urls[i].as_str());
        out.append(" [");
        push_decimal(&mut out, i + 1);
        out.append("]\r\n");
        i = i + 1;
    }
    proof {
        assert(uv.take(i as int) =~= uv);
    }
    out
}

fn links_section_exec(b: &str) -> (r: String)
    ensures
        r@ == links_section(b@),
{
    let mut out = String::new();
    if !looks_like_patch(b) {
        let urls = extract_urls(b);
        if urls.len() > 0 {
            out.append("\r\n### Links\r\n");
            assert(out@ =~= "\r\n### Links\r\n"@);
            let l = link_lines_exec(&urls);
            out.append(l.as_str());
        }
    }
    out
}

fn message_footer_exec(i: usize, count: usize) -> (r: String)
    requires
        i < count,
    ensures
        r@ == message_footer(i as nat, count as nat),
{
    let mut out = String::new();
    out.append("\r\n");
    assert(out@ =~= "\r\n"@);
    out.append("───────────────────────────────────────");
    out.append("\r\n\r\n");
    out.append("=> index.gmi Thread index\r\n");
    let mut newer = String::new();
    if i > 0 {
        newer.append("=> ");
        assert(newer@ =~= "=> "@);
        push_decimal(&mut newer, i);
        newer.append(".gmi ← Newer\r\n");
    }
    let mut older = String::new();
    if i + 1 < count {
        older.append("=> ");
        assert(older@ =~= "=> "@);
        push_decimal(&mut older, i + 2);
        older.append(".gmi Older →\r\n");
    }
    out.append(newer.as_str());
    out.append(older.as_str());
    out.append("=> ../../index.gmi Back to list\r\n");
    out
}

/// Message page `i` of a thread.
fn message_page_exec(thread: &[Mail], i: usize) -> (r: String)
    requires
        i < thread@.len(),
    ensures
        r@ == message_page(thread@, i as int),
{
    let m = &thread[i];
    let head = message_head_exec(thread, i);
    let headers = message_headers_exec(m);
    let to_line = address_line_exec("To: ", &m.to);
    let cc_line = address_line_exec("Cc: ", &m.cc);
    let irt_line = in_reply_to_line_exec(&m.in_reply_to);
    let text = if m.flowed {
        unformat_flowed(m.body.as_str())
    } else {
        m.body.clone()
    };
    let formatted = format_body_for_gemini(text.as_str());
    let links = links_section_exec(text.as_str());
    let footer = message_footer_exec(i, thread.len());
    let mut out = head;
    out.append(headers.as_str());
    out.append(to_line.as_str());
    out.append(cc_line.as_str());
    out.append(irt_line.as_str());
    out.append("\r\n");
    out.append(formatted.as_str());
    out.append(links.as_str());
    out.append(footer.as_str());
    out
}

/// The pages of a thread sorted newest first: an index that lists its
/// mails, and one page per mail with its headers, its formatted body, the
/// links of the body and navigation to the neighbouring mails.
pub fn generate_thread_pages(thread: &[Mail]) -> (r: ThreadPages)
    requires
        thread@.len() > 0,
    ensures
        r.index@ == thread_index(thread@),
        r.messages.len() == thread@.len(),
        forall|i: int| 0 <= i < r.messages.len() ==> #[trigger] r.messages@[i]@ == message_page(thread@, i),
{
    let index = thread_index_exec(thread);
    let mut messages: Vec<String> = Vec::new();
    let mut i: usize = 0;
    while i < thread.len()
        invariant
            i <= thread@.len(),
            messages.len() == i,
            forall|k: int| 0 <= k < i ==> #[trigger] messages@[k]@ == message_page(thread@, k),
        decreases thread@.len() - i,
    {
        let page = message_page_exec(thread, i);
        messages.push(page);
        i = i + 1;
    }
    ThreadPages { index, messages }
}

// ---------------------------------------------------------------------
// Laws
// ---------------------------------------------------------------------

/// The number of pages that the navigation of a list index counts with
/// ("Page n of m", and the last page without an older link) is the number
/// of pages written, unless the number of threads is a multiple of
/// `PAGE_SIZE`.
pub proof fn lemma_page_count_written(n: nat)
    requires
        n % (PAGE_SIZE as nat) != 0,
    ensures
        page_count(n) == chunk_count(n),
{
    assert((n + 49) as nat / 50 == n / 50 + 1) by (nonlinear_arith)
        requires
            n % 50 != 0,
    {
    }
}

} // verus!
