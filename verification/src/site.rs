use vstd::prelude::*;

use crate::body;
use crate::list::{threads_view, summaries_of, MailingList, ThreadSummary};
use crate::mail;
use crate::mail::{Mail, MailAddress};
use crate::order;
use crate::pages;
use crate::pages::{generate_list_index, generate_lists_index, generate_thread_pages};
use crate::text;
use crate::text::decimal_exec;

verus! {

broadcast use vstd::string::group_string_axioms;

/// One step of writing a site: make a directory, or write a file; paths
/// are given by their components below the output directory.
#[derive(Debug)]
pub enum SiteEntry {
    Dir(Vec<String>),
    File(Vec<String>, String),
}

/// The model of a `SiteEntry`.
pub enum SiteEntryView {
    Dir(Seq<Seq<char>>),
    File(Seq<Seq<char>>, Seq<char>),
}

impl View for SiteEntry {
    type V = SiteEntryView;

    open spec fn view(&self) -> SiteEntryView {
        match self {
            SiteEntry::Dir(p) => SiteEntryView::Dir(p.deep_view()),
            SiteEntry::File(p, c) => SiteEntryView::File(p.deep_view(), c@),
        }
    }
}

/// The model of a sequence of entries.
pub open spec fn entries_view(es: Seq<SiteEntry>) -> Seq<SiteEntryView> {
    es.map_values(|e: SiteEntry| e@)
}

/// The file name of index page `n` (counting from 0) of a list.
pub open spec fn list_index_file(n: nat) -> Seq<char> {
    if n == 0 {
        "index.gmi"@
    } else {
        "index-"@ + text::decimal(n + 1) + ".gmi"@
    }
}

/// The directory of a thread, below the output directory.
pub open spec fn thread_dir(list_name: Seq<char>, thread: Seq<Mail>) -> Seq<Seq<char>> {
    seq![list_name, "threads"@, mail::path_escaped(thread.last().id@)]
}

/// The steps that write one thread: its directory, its index, and a page
/// per mail named by its number counting from 1.
pub open spec fn thread_plan(list_name: Seq<char>, thread: Seq<Mail>) -> Seq<SiteEntryView> {
    let dir = thread_dir(list_name, thread);
    seq![SiteEntryView::Dir(dir), SiteEntryView::File(dir.push("index.gmi"@), pages::thread_index(thread))]
        + Seq::new(
        thread.len(),
        |i: int|
            SiteEntryView::File(
                dir.push(text::decimal((i + 1) as nat) + ".gmi"@),
                pages::message_page(thread, i),
            ),
    )
}

/// The steps that write the threads of a list; empty threads are skipped.
pub open spec fn threads_plan(list_name: Seq<char>, threads: Seq<Seq<Mail>>) -> Seq<SiteEntryView>
    decreases threads.len(),
{
    if threads.len() == 0 {
        Seq::empty()
    } else if threads.last().len() == 0 {
        threads_plan(list_name, threads.drop_last())
    } else {
        threads_plan(list_name, threads.drop_last()) + thread_plan(list_name, threads.last())
    }
}

/// The steps that write a list whose thread summaries, sorted, are `s`:
/// its threads directory, its index pages, then its threads.
pub open spec fn list_plan(l: MailingList, s: Seq<ThreadSummary>) -> Seq<SiteEntryView> {
    let name = l.name@;
    seq![SiteEntryView::Dir(seq![name, "threads"@])] + Seq::new(
        pages::chunk_count(s.len()),
        |n: int| SiteEntryView::File(seq![name, list_index_file(n as nat)], pages::list_page(name, s, n as nat)),
    ) + threads_plan(name, threads_view(l.threads@))
}

/// The steps that write the lists `ls`, list `k` with sorted summaries `ss[k]`.
pub open spec fn lists_plan(ls: Seq<MailingList>, ss: Seq<Seq<ThreadSummary>>) -> Seq<SiteEntryView>
    decreases ls.len(),
{
    if ls.len() == 0 || ss.len() != ls.len() {
        Seq::empty()
    } else {
        lists_plan(ls.drop_last(), ss.drop_last()) + list_plan(ls.last(), ss.last())
    }
}

/// The steps that write a site: the main index, then each list.
pub open spec fn site_plan(ls: Seq<MailingList>, ss: Seq<Seq<ThreadSummary>>) -> Seq<SiteEntryView> {
    seq![SiteEntryView::File(seq!["index.gmi"@], pages::lists_index(ls.map_values(|l: MailingList| l.name@)))]
        + lists_plan(ls, ss)
}

/// `ss` holds the sorted thread summaries of each list of `ls`.
pub open spec fn summaries_for(ls: Seq<MailingList>, ss: Seq<Seq<ThreadSummary>>) -> bool {
    &&& ss.len() == ls.len()
    &&& forall|k: int|
        0 <= k < ls.len() ==> order::newest_first(
            summaries_of(threads_view(ls[k].threads@)),
            #[trigger] ss[k],
        )
}

/// A copy of `p`.
fn path_copy(p: &Vec<String>) -> (r: Vec<String>)
    ensures
        r.deep_view() == p.deep_view(),
{
    let mut r: Vec<String> = Vec::new();
    let mut i: usize = 0;
    while i < p.len()
        invariant
            i <= p.len(),
            r@.len() == i,
            r.deep_view() == p.deep_view().take(i as int),
        decreases p.len() - i,
    {
        let ghost prev = r@;
        let x = p[i].clone();
        r.push(x);
        proof {
            assert forall|k: int| 0 <= k < i + 1 implies #[trigger] r.deep_view()[k] == p.deep_view().take(i + 1)[k] by {
                if k < i {
                    assert(r@[k] == prev[k]);
                }
            }
            assert(r.deep_view() =~= p.deep_view().take(i + 1));
        }
        i = i + 1;
    }
    proof {
        assert(p.deep_view().take(i as int) =~= p.deep_view());
    }
    r
}

/// `p` with one more component.
fn path_push(p: &Vec<String>, last: String) -> (r: Vec<String>)
    ensures
        r.deep_view() == p.deep_view().push(last@),
{
    let mut r = path_copy(p);
    r.push(last);
    proof {
        assert(r.deep_view() =~= p.deep_view().push(last@));
    }
    r
}

/// The file name of index page `n` of a list.
fn list_index_file_exec(n: usize) -> (r: String)
    requires
        n < usize::MAX,
    ensures
        r@ == list_index_file(n as nat),
{
    if n == 0 {
        String::from_str("index.gmi")
    } else {
        let mut r = String::from_str("index-");
        let d = decimal_exec(n + 1);
        r.append(d.as_str());
        r.append(".gmi");
        r
    }
}

/// Appends the steps that write one non-empty thread.
fn plan_thread(name: &String, thread: &Vec<Mail>, out: &mut Vec<SiteEntry>)
    requires
        thread@.len() > 0,
    ensures
        entries_view(final(out)@) == entries_view(old(out)@) + thread_plan(name@, thread@),
{
    let ghost start = entries_view(out@);
    let id = thread[thread.len() - 1].pathescape_msg_id();
    let empty: Vec<String> = Vec::new();
    let base0 = path_push(&empty, name.clone());
    let base = path_push(&base0, String::from_str("threads"));
    let dir = path_push(&base, id);
    let ghost dirv = thread_dir(name@, thread@);
    proof {
        assert(dir.deep_view() =~= dirv);
    }
    let pages = generate_thread_pages(thread.as_slice());
    assert(pages.messages@.skip(0) =~= pages.messages@);
    let dir_entry = path_copy(&dir);
    let index_path = path_push(&dir, String::from_str("index.gmi"));
    out.push(SiteEntry::Dir(dir_entry));
    out.push(SiteEntry::File(index_path, pages.index));
    let ghost head = entries_view(out@);
    let ghost tail = Seq::new(
        thread@.len(),
        |i: int|
            SiteEntryView::File(
                dirv.push(text::decimal((i + 1) as nat) + ".gmi"@),
                pages::message_page(thread@, i),
            ),
    );
    proof {
        assert(head =~= start + seq![
            SiteEntryView::Dir(dirv),
            SiteEntryView::File(dirv.push("index.gmi"@), pages::thread_index(thread@)),
        ]);
    }
    let mut messages = pages.messages;
    let ghost mv = messages@;
    let n = messages.len();
    let mut i: usize = 0;
    while i < n
        invariant
            n == thread@.len(),
            mv.len() == n,
            i <= n,
            messages@ == mv.skip(i as int),
            forall|k: int| 0 <= k < mv.len() ==> #[trigger] mv[k]@ == pages::message_page(thread@, k),
            dir.deep_view() == dirv,
            tail.len() == n,
            forall|k: int|
                0 <= k < n ==> #[trigger] tail[k] == SiteEntryView::File(
                    dirv.push(text::decimal((k + 1) as nat) + ".gmi"@),
                    pages::message_page(thread@, k),
                ),
            entries_view(out@) == head + tail.take(i as int),
        decreases n - i,
    {
        let page = messages.remove(0);
        assert(page == mv[i as int]);
        let mut fname = decimal_exec(i + 1);
        fname.append(".gmi");
        let p = path_push(&dir, fname);
        let ghost before = out@;
        let entry = SiteEntry::File(p, page);
        out.push(entry);
        proof {
            assert(entries_view(out@) =~= entries_view(before).push(entry@));
            assert(entry@ == tail[i as int]);
            assert(messages@ =~= mv.skip(i + 1));
            assert(tail.take(i + 1) =~= tail.take(i as int).push(tail[i as int]));
            assert(entries_view(out@) =~= head + tail.take(i + 1));
        }
        i = i + 1;
    }
    proof {
        assert(tail.take(i as int) =~= tail);
    }
}

/// Appends the steps that write the threads of a list.
fn plan_threads(name: &String, threads: &Vec<Vec<Mail>>, out: &mut Vec<SiteEntry>)
    ensures
        entries_view(final(out)@) == entries_view(old(out)@) + threads_plan(name@, threads_view(threads@)),
{
    let ghost start = entries_view(out@);
    let ghost tv = threads_view(threads@);
    let mut t: usize = 0;
    proof {
        assert(tv.take(0) =~= Seq::<Seq<Mail>>::empty());
        assert(start + threads_plan(name@, tv.take(0)) =~= start);
    }
    while t < threads.len()
        invariant
            t <= threads.len(),
            tv == threads_view(threads@),
            entries_view(out@) == start + threads_plan(name@, tv.take(t as int)),
        decreases threads.len() - t,
    {
        proof {
            assert(tv.take(t + 1).drop_last() =~= tv.take(t as int));
            assert(tv.take(t + 1).last() == threads@[t as int]@);
        }
        if threads[t].len() > 0 {
            let ghost before = entries_view(out@);
            plan_thread(name, &threads[t], out);
            proof {
                assert(before + thread_plan(name@, threads@[t as int]@) =~= start + (threads_plan(
                    name@,
                    tv.take(t as int),
                ) + thread_plan(name@, threads@[t as int]@)));
            }
        }
        t = t + 1;
    }
    proof {
        assert(tv.take(t as int) =~= tv);
    }
}

/// Appends the steps that write a list with the sorted summaries `s`.
fn plan_list_with(l: &MailingList, summaries: &Vec<ThreadSummary>, out: &mut Vec<SiteEntry>)
    ensures
        entries_view(final(out)@) == entries_view(old(out)@) + list_plan(*l, summaries@),
{
    let ghost start = entries_view(out@);
    let empty: Vec<String> = Vec::new();
    let base0 = path_push(&empty, l.name.clone());
    let base = path_push(&base0, String::from_str("threads"));
    proof {
        assert(base.deep_view() =~= seq![l.name@, "threads"@]);
    }
    let ghost before = out@;
    let e = SiteEntry::Dir(base);
    out.push(e);
    proof {
        assert(entries_view(out@) =~= start.push(e@));
    }
    let ghost head = entries_view(out@);
    let pages = generate_list_index(l, summaries.as_slice());
    let ghost pv = pages@;
    let ghost idx = Seq::new(
        pages::chunk_count(summaries@.len()),
        |n: int|
            SiteEntryView::File(
                seq![l.name@, list_index_file(n as nat)],
                pages::list_page(l.name@, summaries@, n as nat),
            ),
    );
    let mut pages = pages;
    let np = pages.len();
    let mut n: usize = 0;
    proof {
        assert(pages@.skip(0) =~= pv);
        assert(head + idx.take(0) =~= head);
    }
    while n < np
        invariant
            np == pv.len(),
            np == idx.len(),
            n <= np,
            pages@ == pv.skip(n as int),
            forall|k: int| 0 <= k < np ==> #[trigger] pv[k]@ == pages::list_page(l.name@, summaries@, k as nat),
            forall|k: int|
                0 <= k < np ==> #[trigger] idx[k] == SiteEntryView::File(
                    seq![l.name@, list_index_file(k as nat)],
                    pages::list_page(l.name@, summaries@, k as nat),
                ),
            entries_view(out@) == head + idx.take(n as int),
        decreases np - n,
    {
        let page = pages.remove(0);
        assert(page == pv[n as int]);
        let fname = list_index_file_exec(n);
        let fresh: Vec<String> = Vec::new();
        let p0 = path_push(&fresh, l.name.clone());
        let p = path_push(&p0, fname);
        let ghost prev = out@;
        let entry = SiteEntry::File(p, page);
        out.push(entry);
        proof {
            assert(pages@ =~= pv.skip(n + 1));
            assert(entries_view(out@) =~= entries_view(prev).push(entry@));
            assert(p.deep_view() =~= seq![l.name@, list_index_file(n as nat)]);
            assert(entry@ == idx[n as int]);
            assert(idx.take(n + 1) =~= idx.take(n as int).push(idx[n as int]));
        }
        n = n + 1;
    }
    proof {
        assert(idx.take(n as int) =~= idx);
    }
    let ghost mid = entries_view(out@);
    plan_threads(&l.name, &l.threads, out);
    proof {
        assert(entries_view(out@) =~= start + list_plan(*l, summaries@));
    }
}

/// The steps that write a site for the lists `lists`: the main index, then
/// for each list its threads directory, its index pages and its threads.
pub fn plan_site(lists: &[MailingList]) -> (r: Vec<SiteEntry>)
    ensures
        exists|ss: Seq<Seq<ThreadSummary>>| summaries_for(lists@, ss) && entries_view(r@) == site_plan(lists@, ss),
{
    let mut out: Vec<SiteEntry> = Vec::new();
    let main = generate_lists_index(lists);
    let empty: Vec<String> = Vec::new();
    let p = path_push(&empty, String::from_str("index.gmi"));
    proof {
        assert(p.deep_view() =~= seq!["index.gmi"@]);
    }
    let e = SiteEntry::File(p, main);
    out.push(e);
    let ghost head = entries_view(out@);
    proof {
        assert(head =~= seq![e@]);
        assert(head == seq![SiteEntryView::File(seq!["index.gmi"@], pages::lists_index(lists@.map_values(|l: MailingList| l.name@)))]);
    }
    let ghost mut ss: Seq<Seq<ThreadSummary>> = Seq::empty();
    let mut k: usize = 0;
    proof {
        assert(lists@.take(0) =~= Seq::<MailingList>::empty());
        assert(head + lists_plan(lists@.take(0), ss) =~= head);
    }
    while k < lists.len()
        invariant
            k <= lists@.len(),
            ss.len() == k,
            forall|j: int|
                0 <= j < k ==> order::newest_first(
                    summaries_of(threads_view(lists@[j].threads@)),
                    #[trigger] ss[j],
                ),
            entries_view(out@) == head + lists_plan(lists@.take(k as int), ss),
        decreases lists@.len() - k,
    {
        let l = &lists[k];
        let summaries = l.build_thread_summaries();
        let ghost before = entries_view(out@);
        plan_list_with(l, &summaries, &mut out);
        proof {
            let ss2 = ss.push(summaries@);
            assert(lists@.take(k + 1).drop_last() =~= lists@.take(k as int));
            assert(ss2.drop_last() =~= ss);
            assert(lists_plan(lists@.take(k + 1), ss2) == lists_plan(lists@.take(k as int), ss) + list_plan(
                lists@[k as int],
                summaries@,
            ));
            assert(entries_view(out@) =~= head + lists_plan(lists@.take(k + 1), ss2));
            ss = ss2;
        }
        k = k + 1;
    }
    proof {
        assert(lists@.take(k as int) =~= lists@);
        assert(summaries_for(lists@, ss));
        assert(entries_view(out@) == site_plan(lists@, ss));
    }
    out
}

// ---------------------------------------------------------------------
// Laws
// ---------------------------------------------------------------------

/// The file name of message page `k` (counting from 0) of a thread.
pub open spec fn message_file(k: int) -> Seq<char> {
    text::decimal((k + 1) as nat) + ".gmi"@
}

/// The footer of message page `i` of `n` holds an Older link to page
/// `i + 1` when there is one, and a Newer link to page `i - 1` when there is
/// one.
proof fn lemma_footer_links(i: int, n: int)
    requires
        0 <= i,
        0 <= n,
    ensures
        i + 1 < n ==> text::contains(pages::message_footer(i as nat, n as nat), "=> "@ + message_file(i + 1) + " Older →"@),
        i > 0 ==> text::contains(pages::message_footer(i as nat, n as nat), "=> "@ + message_file(i - 1) + " ← Newer"@),
{
    reveal_strlit(".gmi Older →\r\n");
    reveal_strlit(".gmi ← Newer\r\n");
    reveal_strlit(".gmi");
    reveal_strlit(" Older →");
    reveal_strlit(" ← Newer");
    reveal_strlit("\r\n");
    let f0 = "\r\n"@ + pages::rule() + "\r\n\r\n"@ + "=> index.gmi Thread index\r\n"@;
    let newer = if i > 0 {
        "=> "@ + text::decimal(i as nat) + ".gmi ← Newer\r\n"@
    } else {
        Seq::empty()
    };
    let older = if i + 1 < n {
        "=> "@ + text::decimal((i + 2) as nat) + ".gmi Older →\r\n"@
    } else {
        Seq::empty()
    };
    let back = "=> ../../index.gmi Back to list\r\n"@;
    assert(pages::message_footer(i as nat, n as nat) =~= f0 + newer + older + back);
    if i + 1 < n {
        let pat = "=> "@ + message_file(i + 1) + " Older →"@;
        assert((i + 2) as nat == ((i + 1) + 1) as nat);
        assert(older =~= pat + "\r\n"@);
        assert(f0 + newer + older + back =~= (f0 + newer) + pat + ("\r\n"@ + back));
        text::lemma_contains_middle(f0 + newer, pat, "\r\n"@ + back);
    }
    if i > 0 {
        let pat = "=> "@ + message_file(i - 1) + " ← Newer"@;
        assert(i as nat == ((i - 1) + 1) as nat);
        assert(newer =~= pat + "\r\n"@);
        assert(f0 + newer + older + back =~= f0 + pat + ("\r\n"@ + older + back));
        text::lemma_contains_middle(f0, pat, "\r\n"@ + older + back);
    }
}

/// What comes before the footer on message page `i` of a thread.
spec fn page_top(thread: Seq<Mail>, i: int) -> Seq<char> {
    let m = thread[i];
    pages::message_head(pages::thread_title(thread), i as nat, thread.len()) + pages::message_headers(m)
        + pages::address_line("To: "@, m.to@.map_values(|a: MailAddress| a@)) + pages::address_line(
        "Cc: "@,
        m.cc@.map_values(|a: MailAddress| a@),
    ) + pages::in_reply_to_line(m.in_reply_to.deep_view()) + "\r\n"@ + body::gemini_body(pages::body_text(m))
        + pages::links_section(pages::body_text(m))
}

/// The plan writes message page `k` of a thread to its file.
proof fn lemma_plan_writes_page(name: Seq<char>, thread: Seq<Mail>, k: int)
    requires
        0 <= k < thread.len(),
    ensures
        thread_plan(name, thread)[2 + k] == SiteEntryView::File(
            thread_dir(name, thread).push(message_file(k)),
            pages::message_page(thread, k),
        ),
{
}

/// A message page is what comes before its footer, then the footer.
proof fn lemma_page_split(thread: Seq<Mail>, i: int)
    requires
        0 <= i < thread.len(),
    ensures
        pages::message_page(thread, i) == page_top(thread, i) + pages::message_footer(i as nat, thread.len()),
{
}

/// Neighbouring message pages of a thread point at each other: the Older
/// link of page `i` names the file that the plan writes page `i + 1` to,
/// and the Newer link of page `i + 1` names the file of page `i`.
pub proof fn lemma_message_links_meet(name: Seq<char>, thread: Seq<Mail>, i: int)
    requires
        0 <= i,
        i + 1 < thread.len(),
    ensures
        thread_plan(name, thread)[2 + i] == SiteEntryView::File(
            thread_dir(name, thread).push(message_file(i)),
            pages::message_page(thread, i),
        ),
        thread_plan(name, thread)[2 + i + 1] == SiteEntryView::File(
            thread_dir(name, thread).push(message_file(i + 1)),
            pages::message_page(thread, i + 1),
        ),
        text::contains(pages::message_page(thread, i), "=> "@ + message_file(i + 1) + " Older →"@),
        text::contains(pages::message_page(thread, i + 1), "=> "@ + message_file(i) + " ← Newer"@),
{
    let n = thread.len() as int;
    lemma_plan_writes_page(name, thread, i);
    lemma_plan_writes_page(name, thread, i + 1);
    lemma_footer_links(i, n);
    lemma_footer_links(i + 1, n);
    lemma_page_split(thread, i);
    lemma_page_split(thread, i + 1);
    text::lemma_contains_after(
        page_top(thread, i),
        pages::message_footer(i as nat, n as nat),
        "=> "@ + message_file(i + 1) + " Older →"@,
    );
    text::lemma_contains_after(
        page_top(thread, i + 1),
        pages::message_footer((i + 1) as nat, n as nat),
        "=> "@ + message_file(i) + " ← Newer"@,
    );
}

/// The Older link of list index page `k` names the file of page `k + 1`.
proof fn lemma_older_link(k: nat)
    ensures
        pages::nav_older(k, k + 2) == "=> "@ + list_index_file(k + 1) + " Older →"@ + "\r\n"@,
{
    reveal_strlit("=> index-");
    reveal_strlit("=> ");
    reveal_strlit("index-");
    reveal_strlit(".gmi Older →\r\n");
    reveal_strlit(".gmi");
    reveal_strlit(" Older →");
    reveal_strlit("\r\n");
    assert(list_index_file(k + 1) == "index-"@ + text::decimal(k + 2) + ".gmi"@);
    assert(pages::nav_older(k, k + 2) =~= "=> "@ + list_index_file(k + 1) + " Older →"@ + "\r\n"@);
}

/// The Newer link of list index page `k > 0` names the file of page `k - 1`.
proof fn lemma_newer_link(k: nat)
    requires
        k > 0,
    ensures
        pages::nav_newer(k) == "=> "@ + list_index_file((k - 1) as nat) + " ← Newer"@ + "\r\n"@,
{
    reveal_strlit("=> index-");
    reveal_strlit("=> ");
    reveal_strlit("index-");
    reveal_strlit(".gmi ← Newer\r\n");
    reveal_strlit("=> index.gmi ← Newer\r\n");
    reveal_strlit("index.gmi");
    reveal_strlit(".gmi");
    reveal_strlit(" ← Newer");
    reveal_strlit("\r\n");
    if k == 1 {
        assert(list_index_file(0) == "index.gmi"@);
    } else {
        assert(list_index_file((k - 1) as nat) == "index-"@ + text::decimal(k) + ".gmi"@);
    }
    assert(pages::nav_newer(k) =~= "=> "@ + list_index_file((k - 1) as nat) + " ← Newer"@ + "\r\n"@);
}

/// The navigation of list index page `k` of `pages_n` holds an Older link
/// to the file of page `k + 1` when `k + 1 < pages_n`, and a Newer link to
/// the file of page `k - 1` when `k > 0`.
proof fn lemma_navigation_links(k: nat, pages_n: nat)
    ensures
        k + 1 < pages_n ==> text::contains(
            pages::list_navigation(k, pages_n),
            "=> "@ + list_index_file(k + 1) + " Older →"@,
        ),
        k > 0 ==> text::contains(
            pages::list_navigation(k, pages_n),
            "=> "@ + list_index_file((k - 1) as nat) + " ← Newer"@,
        ),
{
    let a = pages::nav_page_of(k, pages_n);
    let newer = pages::nav_newer(k);
    let older = pages::nav_older(k, pages_n);
    let back = "=> ../index.gmi All lists\r\n"@;
    assert(pages::list_navigation(k, pages_n) == a + newer + older + back);
    if k + 1 < pages_n {
        let pat = "=> "@ + list_index_file(k + 1) + " Older →"@;
        lemma_older_link(k);
        assert(older == pages::nav_older(k, k + 2));
        assert(a + newer + older + back =~= (a + newer) + pat + ("\r\n"@ + back));
        text::lemma_contains_middle(a + newer, pat, "\r\n"@ + back);
    }
    if k > 0 {
        let pat = "=> "@ + list_index_file((k - 1) as nat) + " ← Newer"@;
        lemma_newer_link(k);
        assert(a + newer + older + back =~= a + pat + ("\r\n"@ + older + back));
        text::lemma_contains_middle(a, pat, "\r\n"@ + older + back);
    }
}

/// What comes before the navigation on list index page `k`.
spec fn index_top(name: Seq<char>, ts: Seq<ThreadSummary>, k: nat) -> Seq<char> {
    let lo = k * (pages::PAGE_SIZE as nat);
    let hi = if lo + pages::PAGE_SIZE < ts.len() { lo + pages::PAGE_SIZE } else { ts.len() as int };
    "# "@ + name + "\r\n\r\n"@ + pages::topic_entries(ts.subrange(lo as int, hi)) + "\r\n"@ + pages::rule()
        + "\r\n\r\n"@
}

/// Every list index page that is written is counted by the navigation.
proof fn lemma_written_pages_counted(len: nat, k: nat)
    requires
        k < pages::chunk_count(len),
    ensures
        k < pages::page_count(len),
{
    assert(k < (len + 49) as nat / 50 ==> k < len / 50 + 1) by (nonlinear_arith);
}

/// Neighbouring index pages of a list point at each other: the Older link
/// of page `n - 1` names the file that the plan writes page `n` to, and the
/// Newer link of page `n` names the file of page `n - 1`.
pub proof fn lemma_index_links_meet(l: MailingList, s: Seq<ThreadSummary>, n: nat)
    requires
        1 <= n < pages::chunk_count(s.len()),
    ensures
        list_plan(l, s)[1 + n as int] == SiteEntryView::File(
            seq![l.name@, list_index_file(n)],
            pages::list_page(l.name@, s, n),
        ),
        text::contains(pages::list_page(l.name@, s, (n - 1) as nat), "=> "@ + list_index_file(n) + " Older →"@),
        text::contains(
            pages::list_page(l.name@, s, n),
            "=> "@ + list_index_file((n - 1) as nat) + " ← Newer"@,
        ),
{
    let name = l.name@;
    let pc = pages::page_count(s.len());
    lemma_written_pages_counted(s.len(), n);
    lemma_navigation_links((n - 1) as nat, pc);
    lemma_navigation_links(n, pc);
    assert(pages::list_page(name, s, (n - 1) as nat) == index_top(name, s, (n - 1) as nat) + pages::list_navigation(
        (n - 1) as nat,
        pc,
    ));
    assert(pages::list_page(name, s, n) == index_top(name, s, n) + pages::list_navigation(n, pc));
    text::lemma_contains_after(
        index_top(name, s, (n - 1) as nat),
        pages::list_navigation((n - 1) as nat, pc),
        "=> "@ + list_index_file(n) + " Older →"@,
    );
    text::lemma_contains_after(
        index_top(name, s, n),
        pages::list_navigation(n, pc),
        "=> "@ + list_index_file((n - 1) as nat) + " ← Newer"@,
    );
}

/// The entries of a thread's index page link each of the mails' pages.
proof fn lemma_entries_link_pages(ms: Seq<Mail>, k: int)
    requires
        0 <= k < ms.len(),
    ensures
        text::contains(pages::thread_index_entries(ms), "=> "@ + message_file(k) + " "@),
    decreases ms.len(),
{
    let pat = "=> "@ + message_file(k) + " "@;
    let dl = ms.drop_last();
    let link = pages::thread_entry_link(ms.last(), ms.len());
    let rest = pages::mail_preview(ms.last()) + "\r\n"@;
    assert(pages::thread_index_entries(ms) == pages::thread_index_entries(dl) + link + rest);
    if k == ms.len() - 1 {
        reveal_strlit(".gmi ");
        reveal_strlit(".gmi");
        reveal_strlit(" ");
        assert((k + 1) as nat == ms.len());
        let tail = text::unbreak(pages::name_or_address(ms.last().from@)) + " - "@ + pages::before_or(
            ms.last().date.rfc3339(),
            'T',
            Seq::empty(),
        ) + "\r\n"@;
        assert(link =~= pat + tail);
        assert(pages::thread_index_entries(dl) + link + rest =~= pages::thread_index_entries(dl) + pat + (tail
            + rest));
        text::lemma_contains_middle(pages::thread_index_entries(dl), pat, tail + rest);
    } else {
        lemma_entries_link_pages(dl, k);
        text::lemma_contains_before(pages::thread_index_entries(dl), link + rest, pat);
        assert(pages::thread_index_entries(dl) + link + rest =~= pages::thread_index_entries(dl) + (link + rest));
    }
}

/// A thread's index page links the page of each of its mails, by the file
/// name that the plan writes that page to.
pub proof fn lemma_thread_index_links_pages(name: Seq<char>, thread: Seq<Mail>, k: int)
    requires
        0 <= k < thread.len(),
    ensures
        thread_plan(name, thread)[2 + k] == SiteEntryView::File(
            thread_dir(name, thread).push(message_file(k)),
            pages::message_page(thread, k),
        ),
        text::contains(pages::thread_index(thread), "=> "@ + message_file(k) + " "@),
{
    lemma_plan_writes_page(name, thread, k);
    lemma_entries_link_pages(thread, k);
    let head = pages::thread_index_head(thread);
    let entries = pages::thread_index_entries(thread);
    let rest = pages::rule() + "\r\n\r\n"@ + "=> ../../index.gmi Back to list\r\n"@;
    assert(pages::thread_index(thread) =~= head + entries + rest);
    text::lemma_contains_after(head, entries, "=> "@ + message_file(k) + " "@);
    text::lemma_contains_before(head + entries, rest, "=> "@ + message_file(k) + " "@);
}

/// On a list index, the entry of a thread links the index page that the
/// plan writes for that thread: `threads/`, the thread's directory, and
/// `index.gmi`, when the message id holds no line break (the link text has
/// line breaks made spaces, the directory name keeps them).
pub proof fn lemma_topic_links_thread(name: Seq<char>, s: ThreadSummary, thread: Seq<Mail>)
    requires
        thread.len() > 0,
        s.first_message_id == thread[thread.len() - 1].id,
        forall|j: int|
            0 <= j < s.first_message_id@.len() ==> s.first_message_id@[j] != '\r' && s.first_message_id@[j] != '\n',
    ensures
        thread_plan(name, thread)[1] == SiteEntryView::File(
            thread_dir(name, thread).push("index.gmi"@),
            pages::thread_index(thread),
        ),
        text::starts_with(
            pages::topic_link(s),
            "=> "@ + "threads/"@ + thread_dir(name, thread)[2] + "/"@ + "index.gmi"@,
        ),
{
    reveal_strlit("=> threads/");
    reveal_strlit("=> ");
    reveal_strlit("threads/");
    reveal_strlit("/index.gmi ");
    reveal_strlit("/");
    reveal_strlit("index.gmi");
    let id = s.first_message_id@;
    let esc = mail::path_escaped(id);
    mail::lemma_path_escaped_no_slash(id);
    assert forall|j: int| 0 <= j < esc.len() implies #[trigger] esc[j] != '\r' && esc[j] != '\n' by {
        assert(esc[j] == (if id[j] == '/' { ';' } else { id[j] }));
    }
    body::lemma_h_one_line(esc);
    assert(thread.last() == thread[thread.len() - 1]);
    assert(thread_dir(name, thread)[2] == esc);
    let pat = "=> "@ + "threads/"@ + esc + "/"@ + "index.gmi"@;
    let tail = " "@ + text::unbreak(s.first_message_subject@) + "\r\n"@;
    reveal_strlit(" ");
    assert(pages::topic_link(s) =~= pat + tail);
    assert((pat + tail).take(pat.len() as int) =~= pat);
}

/// The links of the main index include the link to each list.
proof fn lemma_list_links_hold(names: Seq<Seq<char>>, k: int)
    requires
        0 <= k < names.len(),
    ensures
        text::contains(pages::list_links(names), pages::list_link(names[k])),
    decreases names.len(),
{
    let dl = names.drop_last();
    assert(pages::list_links(names) == pages::list_links(dl) + pages::list_link(names.last()));
    if k == names.len() - 1 {
        assert(pages::list_links(dl) + pages::list_link(names.last()) =~= pages::list_links(dl) + pages::list_link(
            names[k],
        ) + Seq::<char>::empty());
        text::lemma_contains_middle(pages::list_links(dl), pages::list_link(names[k]), Seq::<char>::empty());
    } else {
        lemma_list_links_hold(dl, k);
        assert(dl[k] == names[k]);
        text::lemma_contains_before(pages::list_links(dl), pages::list_link(names.last()), pages::list_link(names[k]));
    }
}

/// The main index links the first index page of each list, by the path
/// that the plan writes it to, when the list's name holds no line break.
pub proof fn lemma_main_index_links_lists(ls: Seq<MailingList>, ss: Seq<Seq<ThreadSummary>>, k: int)
    requires
        0 <= k < ls.len(),
        forall|j: int| 0 <= j < ls[k].name@.len() ==> ls[k].name@[j] != '\r' && ls[k].name@[j] != '\n',
    ensures
        text::contains(
            pages::lists_index(ls.map_values(|l: MailingList| l.name@)),
            "=> ./"@ + ls[k].name@ + "/"@ + list_index_file(0) + " "@,
        ),
        pages::chunk_count(ss[k].len()) > 0 ==> list_plan(ls[k], ss[k])[1] == SiteEntryView::File(
            seq![ls[k].name@, list_index_file(0)],
            pages::list_page(ls[k].name@, ss[k], 0),
        ),
{
    reveal_strlit("/index.gmi ");
    reveal_strlit("/");
    reveal_strlit("index.gmi");
    reveal_strlit(" ");
    let names = ls.map_values(|l: MailingList| l.name@);
    let name = ls[k].name@;
    assert(names[k] == name);
    lemma_list_links_hold(names, k);
    body::lemma_h_one_line(name);
    let pat = "=> ./"@ + name + "/"@ + list_index_file(0) + " "@;
    let tail = text::unbreak(name) + "\r\n"@;
    assert(pages::list_link(name) =~= pat + tail);
    let all = pages::list_links(names);
    let link = pages::list_link(name);
    let c = choose|q: int| text::occurs_at(all, link, q);
    assert(all.subrange(c, c + link.len()) == link);
    assert forall|j: int| 0 <= j < pat.len() implies all.subrange(c, c + pat.len())[j] == pat[j] by {
        assert(all.subrange(c, c + link.len())[j] == link[j]);
        assert(link[j] == pat[j]);
    }
    assert(all.subrange(c, c + pat.len()) =~= pat);
    assert(text::occurs_at(all, pat, c));
    text::lemma_contains_after("# Archives\r\n\r\n"@, pages::list_links(names), pat);
}

} // verus!
