use lawh::list::{MailingList, ThreadSummary};
use lawh::mail::{Mail, MailAddress, MailDate};
use lawh::pages::{generate_list_index, generate_lists_index, generate_thread_pages};

const RULE: &str = "───────────────────────────────────────";

fn date(day: u8, hour: u8, tz_hour: u8) -> MailDate {
    MailDate {
        year: 2024,
        month: 1,
        day,
        hour,
        minute: 0,
        second: 0,
        tz_before_gmt: false,
        tz_hour,
        tz_minute: 0,
    }
}

fn list(name: &str) -> MailingList {
    MailingList { name: name.to_string(), threads: vec![], id_to_index: vec![] }
}

fn summary(id: &str, n: usize) -> ThreadSummary {
    ThreadSummary {
        first_message_id: id.to_string(),
        first_message_subject: format!("Subject {}", n),
        first_message_from: MailAddress { name: None, address: "a@x".to_string() },
        first_message_preview: String::new(),
        reply_count: n,
        last_reply: date(1, 0, 0),
    }
}

#[test]
fn lists_index_links_each_list() {
    let lists = vec![list("patches"), list("dis\ncuss")];
    assert_eq!(
        generate_lists_index(&lists),
        "# Archives\r\n\r\n=> ./patches/index.gmi patches\r\n=> ./dis cuss/index.gmi dis cuss\r\n"
    );
}

#[test]
fn list_index_single_page() {
    let mut s = summary("a/b@x", 1);
    s.first_message_from.name = Some("Ann".to_string());
    s.first_message_preview = "Hi\nthere".to_string();
    let t = summary("c@x", 2);
    let pages = generate_list_index(&list("dev"), &[s, t]);
    assert_eq!(pages.len(), 1);
    let expected = format!(
        "# dev\r\n\r\n=> threads/a;b@x/index.gmi Subject 1\r\n  Ann · 1 reply · 2024-01-01\r\n> Hi there\r\n\r\n=> threads/c@x/index.gmi Subject 2\r\n  a@x · 2 replies · 2024-01-01\r\n\r\n{}\r\n\r\n=> ../index.gmi All lists\r\n",
        RULE
    );
    assert_eq!(pages[0], expected);
}

#[test]
fn list_index_without_threads_has_no_pages() {
    assert!(generate_list_index(&list("dev"), &[]).is_empty());
}

#[test]
fn list_index_paginates_by_fifty() {
    let ts: Vec<ThreadSummary> = (0..101).map(|i| summary(&format!("m{}", i), 0)).collect();
    let pages = generate_list_index(&list("dev"), &ts);
    assert_eq!(pages.len(), 3);
    assert!(pages[0].ends_with(&format!(
        "{}\r\n\r\nPage 1 of 3\r\n\r\n=> index-2.gmi Older →\r\n=> ../index.gmi All lists\r\n",
        RULE
    )));
    assert!(pages[1].ends_with(
        "Page 2 of 3\r\n\r\n=> index.gmi ← Newer\r\n=> index-3.gmi Older →\r\n=> ../index.gmi All lists\r\n"
    ));
    assert!(pages[2].ends_with(
        "Page 3 of 3\r\n\r\n=> index-2.gmi ← Newer\r\n=> ../index.gmi All lists\r\n"
    ));
    assert!(pages[2].contains("m100/index.gmi"));
    assert!(!pages[2].contains("m99/index.gmi"));
}

#[test]
fn list_index_of_exactly_fifty_counts_one_page_more() {
    let ts: Vec<ThreadSummary> = (0..50).map(|i| summary(&format!("m{}", i), 0)).collect();
    let pages = generate_list_index(&list("dev"), &ts);
    assert_eq!(pages.len(), 1);
    assert!(pages[0].ends_with("Page 1 of 2\r\n\r\n=> index-2.gmi Older →\r\n=> ../index.gmi All lists\r\n"));
}

fn thread() -> Vec<Mail> {
    let alice = MailAddress { name: Some("Alice".to_string()), address: "alice@x".to_string() };
    let bob = MailAddress { name: None, address: "bob@x".to_string() };
    let carol = MailAddress { name: None, address: "carol@x".to_string() };
    let newer = Mail {
        id: "reply@x".to_string(),
        subject: "Re: Hello".to_string(),
        thread_subject: "Hello".to_string(),
        preview: String::new(),
        from: MailAddress { name: None, address: "bob@x".to_string() },
        date: date(3, 0, 1),
        body: "Thanks \nfor this".to_string(),
        flowed: true,
        in_reply_to: Some("root@x".to_string()),
        to: vec![],
        cc: vec![alice.duplicate(), carol],
    };
    let older = Mail {
        id: "root@x".to_string(),
        subject: "Hello".to_string(),
        thread_subject: "Hello".to_string(),
        preview: "Hi there".to_string(),
        from: alice,
        date: MailDate { year: 2024, month: 1, day: 2, hour: 3, minute: 4, second: 5, tz_before_gmt: false, tz_hour: 0, tz_minute: 0 },
        body: "Hi there\n> quoted\nhttps://example.com/page".to_string(),
        flowed: false,
        in_reply_to: None,
        to: vec![bob],
        cc: vec![],
    };
    vec![newer, older]
}

#[test]
fn thread_pages_index() {
    let pages = generate_thread_pages(&thread());
    let expected = format!(
        "# Hello\r\n\r\n2 messages\r\n\r\n## Messages\r\n\r\n=> 1.gmi bob@x - 2024-01-03\r\n\r\n=> 2.gmi Alice - 2024-01-02\r\n> Hi there\r\n\r\n{}\r\n\r\n=> ../../index.gmi Back to list\r\n",
        RULE
    );
    assert_eq!(pages.index, expected);
    assert_eq!(pages.messages.len(), 2);
}

#[test]
fn thread_pages_messages() {
    let pages = generate_thread_pages(&thread());
    let first = format!(
        "# Hello\r\n\r\nMessage 1 of 2\r\n\r\n## Re: Hello\r\n\r\nFrom: bob@x\r\nDate: 2024-01-03 00:00:00+01:00\r\nMessage-ID: reply@x\r\nCc: \"Alice\" <alice@x>, <carol@x>\r\nIn-Reply-To: root@x\r\n\r\nThanks for this\r\n\r\n{}\r\n\r\n=> index.gmi Thread index\r\n=> 2.gmi Older →\r\n=> ../../index.gmi Back to list\r\n",
        RULE
    );
    assert_eq!(pages.messages[0], first);
    let second = format!(
        "# Hello\r\n\r\nMessage 2 of 2\r\n\r\n## Hello\r\n\r\nFrom: Alice <alice@x>\r\nDate: 2024-01-02 03:04:05Z\r\nMessage-ID: root@x\r\nTo: <bob@x>\r\n\r\nHi there\r\n> quoted\r\nhttps://example.com/page\r\n\r\n### Links\r\n=> https://example.com/page [1]\r\n\r\n{}\r\n\r\n=> index.gmi Thread index\r\n=> 1.gmi ← Newer\r\n=> ../../index.gmi Back to list\r\n",
        RULE
    );
    assert_eq!(pages.messages[1], second);
}

#[test]
fn thread_of_one_message() {
    let mut t = thread();
    t.remove(0);
    let pages = generate_thread_pages(&t);
    assert!(pages.index.contains("1 message\r\n"));
    assert_eq!(pages.messages.len(), 1);
    assert!(!pages.messages[0].contains("Newer"));
    assert!(!pages.messages[0].contains("Older"));
}
