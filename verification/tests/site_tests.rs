use lawh::list::MailingList;
use lawh::mail::{Mail, MailAddress, MailDate};
use lawh::site::{plan_site, SiteEntry};

fn mail(id: &str, day: u8) -> Mail {
    Mail {
        id: id.to_string(),
        subject: "S".to_string(),
        thread_subject: "S".to_string(),
        preview: String::new(),
        from: MailAddress { name: None, address: "a@x".to_string() },
        date: MailDate { year: 2024, month: 1, day, hour: 0, minute: 0, second: 0, tz_before_gmt: false, tz_hour: 0, tz_minute: 0 },
        body: "hi".to_string(),
        flowed: false,
        in_reply_to: None,
        to: vec![],
        cc: vec![],
    }
}

fn describe(e: &SiteEntry) -> String {
    match e {
        SiteEntry::Dir(p) => format!("dir {}", p.join("/")),
        SiteEntry::File(p, _) => format!("file {}", p.join("/")),
    }
}

#[test]
fn site_plan_lays_out_lists_and_threads() {
    let l = MailingList::from_mails("dev".to_string(), vec![mail("r/1@x", 1), mail("r2@x", 2)]);
    let empty = MailingList { name: "quiet".to_string(), threads: vec![vec![]], id_to_index: vec![] };
    let plan = plan_site(&[l, empty]);
    let got: Vec<String> = plan.iter().map(describe).collect();
    assert_eq!(
        got,
        vec![
            "file index.gmi",
            "dir dev/threads",
            "file dev/index.gmi",
            "dir dev/threads/r;1@x",
            "file dev/threads/r;1@x/index.gmi",
            "file dev/threads/r;1@x/1.gmi",
            "file dev/threads/r;1@x/2.gmi",
            "dir quiet/threads",
        ]
    );
    match &plan[0] {
        SiteEntry::File(_, c) => assert!(c.starts_with("# Archives\r\n\r\n=> ./dev/index.gmi dev\r\n")),
        _ => panic!("main index expected"),
    }
    match &plan[5] {
        SiteEntry::File(_, c) => assert!(c.contains("Message 1 of 2")),
        _ => panic!("message page expected"),
    }
}
