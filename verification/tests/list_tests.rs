use lawh::list::{MailingList, ThreadSummary};
use lawh::mail::{Mail, MailAddress, MailDate};
use lawh::order::sort_newest_first;

fn at(day: u8, hour: u8) -> MailDate {
    MailDate {
        year: 2024,
        month: 1,
        day,
        hour,
        minute: 0,
        second: 0,
        tz_before_gmt: false,
        tz_hour: 0,
        tz_minute: 0,
    }
}

fn mail(id: &str, thread: &str, date: MailDate) -> Mail {
    Mail {
        id: id.to_string(),
        subject: thread.to_string(),
        thread_subject: thread.to_string(),
        preview: String::new(),
        from: MailAddress { name: None, address: format!("{}@x", id) },
        date,
        body: String::new(),
        flowed: false,
        in_reply_to: None,
        to: vec![],
        cc: vec![],
    }
}

#[test]
fn from_mails_groups_by_thread_subject_and_drops_duplicates() {
    let mails = vec![
        mail("a", "T", at(1, 0)),
        mail("b", "U", at(2, 0)),
        mail("a", "U", at(3, 0)),
        mail("c", "T", at(4, 0)),
    ];
    let l = MailingList::from_mails("list".to_string(), mails);
    assert_eq!(l.name, "list");
    assert_eq!(l.threads.len(), 2);
    let ids: Vec<Vec<&str>> =
        l.threads.iter().map(|t| t.iter().map(|m| m.id.as_str()).collect()).collect();
    assert_eq!(ids, vec![vec!["c", "a"], vec!["b"]]);
    let index: Vec<(&str, usize)> = l.id_to_index.iter().map(|(s, i)| (s.as_str(), *i)).collect();
    assert_eq!(index, vec![("a", 0), ("b", 1), ("c", 0)]);
}

#[test]
fn from_mails_of_nothing_is_empty() {
    let l = MailingList::from_mails("x".to_string(), vec![]);
    assert!(l.threads.is_empty());
    assert!(l.id_to_index.is_empty());
}

#[test]
fn sort_is_stable_for_equal_times() {
    let mut v = vec![mail("1", "T", at(1, 0)), mail("2", "T", at(2, 0)), mail("3", "T", at(1, 0)), mail("4", "T", at(2, 0))];
    sort_newest_first(&mut v);
    let ids: Vec<&str> = v.iter().map(|m| m.id.as_str()).collect();
    assert_eq!(ids, vec!["2", "4", "1", "3"]);
}

#[test]
fn summaries_newest_thread_first() {
    let l = MailingList {
        name: "l".to_string(),
        threads: vec![
            vec![mail("t1b", "A", at(5, 0)), mail("t1a", "A", at(1, 0))],
            vec![],
            vec![mail("t2a", "B", at(7, 0))],
        ],
        id_to_index: vec![],
    };
    let s: Vec<ThreadSummary> = l.build_thread_summaries();
    assert_eq!(s.len(), 2);
    assert_eq!(s[0].first_message_id, "t2a");
    assert_eq!(s[0].reply_count, 0);
    assert_eq!(s[0].last_reply, at(7, 0));
    assert_eq!(s[1].first_message_id, "t1a");
    assert_eq!(s[1].first_message_subject, "A");
    assert_eq!(s[1].first_message_from.address, "t1a@x");
    assert_eq!(s[1].reply_count, 1);
    assert_eq!(s[1].last_reply, at(5, 0));
}

#[test]
fn timestamp_orders_across_time_zones() {
    // 01:00 at UTC+02:00 is earlier than 00:00 UTC of the same day.
    let mut east = at(2, 1);
    east.tz_hour = 2;
    let mut v = vec![mail("east", "T", east), mail("utc", "T", at(2, 0))];
    sort_newest_first(&mut v);
    assert_eq!(v[0].id, "utc");
}
