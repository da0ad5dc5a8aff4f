use lawh::mail::{
    parse_mail, AddrFields, AddressFields, Mail, MailAddress, MailDate, MessageFields,
    eq_ignore_ascii_case_exec,
};

fn date(y: u16, mo: u8, d: u8, h: u8, mi: u8, s: u8, before: bool, th: u8, tm: u8) -> MailDate {
    MailDate {
        year: y,
        month: mo,
        day: d,
        hour: h,
        minute: mi,
        second: s,
        tz_before_gmt: before,
        tz_hour: th,
        tz_minute: tm,
    }
}

fn no_fields() -> MessageFields {
    MessageFields {
        message_id: None,
        subject: None,
        preview: None,
        from: None,
        date: None,
        to: None,
        cc: None,
        in_reply_to: None,
        body_text: None,
        format: None,
    }
}

fn addr(name: Option<&str>, address: Option<&str>) -> AddrFields {
    AddrFields { name: name.map(|s| s.to_string()), address: address.map(|s| s.to_string()) }
}

#[test]
fn from_fields_fills_defaults() {
    let m = Mail::from_fields(no_fields());
    assert_eq!(m.id, "");
    assert_eq!(m.subject, "(No Subject)");
    assert_eq!(m.thread_subject, "(No Subject)");
    assert_eq!(m.preview, "");
    assert_eq!(m.from.name, None);
    assert_eq!(m.from.address, "invalid-email");
    assert_eq!(m.date, MailDate::epoch());
    assert_eq!(m.body, "[No message body]");
    assert!(!m.flowed);
    assert_eq!(m.in_reply_to, None);
    assert!(m.to.is_empty());
    assert!(m.cc.is_empty());
}

#[test]
fn from_fields_uses_base_subject_for_thread() {
    let mut f = no_fields();
    f.subject = Some("Re: Hello".to_string());
    let m = Mail::from_fields(f);
    assert_eq!(m.subject, "Re: Hello");
    assert_eq!(m.thread_subject, "Hello");
}

#[test]
fn from_fields_takes_first_sender_and_flattens_groups() {
    let mut f = no_fields();
    f.from = Some(AddressFields::Group(vec![
        vec![],
        vec![addr(Some("Ann"), Some("ann@x")), addr(None, Some("bo@x"))],
    ]));
    f.to = Some(AddressFields::Group(vec![
        vec![addr(Some("Ann"), None)],
        vec![addr(None, Some("bo@x"))],
    ]));
    f.cc = Some(AddressFields::List(vec![addr(None, Some("c@x"))]));
    f.format = Some("FlOwEd".to_string());
    let m = Mail::from_fields(f);
    assert_eq!(m.from.name.as_deref(), Some("Ann"));
    assert_eq!(m.from.address, "ann@x");
    assert_eq!(m.to.len(), 2);
    assert_eq!(m.to[0].name.as_deref(), Some("Ann"));
    assert_eq!(m.to[0].address, "");
    assert_eq!(m.to[1].address, "bo@x");
    assert_eq!(m.cc.len(), 1);
    assert!(m.flowed);
}

#[test]
fn from_fields_empty_from_header_is_invalid_email() {
    let mut f = no_fields();
    f.from = Some(AddressFields::List(vec![]));
    f.format = Some("fixed".to_string());
    let m = Mail::from_fields(f);
    assert_eq!(m.from.address, "invalid-email");
    assert!(!m.flowed);
}

#[test]
fn parse_mail_reads_headers() {
    let raw = b"From: Alice <alice@example.com>\r\nTo: bob@example.com\r\nSubject: Re: Test\r\nMessage-ID: <abc@x>\r\nIn-Reply-To: <root@x>\r\nDate: Tue, 1 Jul 2003 10:52:37 +0200\r\nContent-Type: text/plain; format=flowed\r\n\r\nHello \r\nworld\r\n";
    let m = parse_mail(raw).expect("a message");
    assert_eq!(m.id, "abc@x");
    assert_eq!(m.subject, "Re: Test");
    assert_eq!(m.thread_subject, "Test");
    assert_eq!(m.from.name.as_deref(), Some("Alice"));
    assert_eq!(m.from.address, "alice@example.com");
    assert_eq!(m.to.len(), 1);
    assert_eq!(m.to[0].address, "bob@example.com");
    assert_eq!(m.in_reply_to.as_deref(), Some("root@x"));
    assert!(m.flowed);
    assert_eq!(m.date, date(2003, 7, 1, 10, 52, 37, false, 2, 0));
    assert!(m.body.starts_with("Hello"));
}

#[test]
fn date_rfc3339_and_timestamp() {
    let d = date(2003, 7, 1, 10, 52, 37, false, 2, 0);
    assert_eq!(d.to_rfc3339(), "2003-07-01T10:52:37+02:00");
    assert_eq!(d.to_timestamp(), 1057049557);
    let w = date(2003, 7, 1, 10, 52, 37, true, 2, 30);
    assert_eq!(w.to_rfc3339(), "2003-07-01T10:52:37-02:30");
    assert_eq!(MailDate::epoch().to_rfc3339(), "1970-01-01T00:00:00Z");
    assert_eq!(MailDate::epoch().to_timestamp(), 0);
}

#[test]
fn pathescape_msg_id_replaces_slashes() {
    let mut m = Mail::from_fields(no_fields());
    m.id = "a/b/c@x".to_string();
    assert_eq!(m.pathescape_msg_id(), "a;b;c@x");
}

#[test]
fn mail_address_display() {
    let a = MailAddress { name: Some("Bob".to_string()), address: "bob@x".to_string() };
    assert_eq!(a.display(), "\"Bob\" <bob@x>");
    let b = MailAddress { name: None, address: "bob@x".to_string() };
    assert_eq!(b.display(), "<bob@x>");
    let c = a.duplicate();
    assert_eq!(c.name, a.name);
    assert_eq!(c.address, a.address);
}

#[test]
fn ascii_case_insensitive_equality() {
    assert!(eq_ignore_ascii_case_exec("Flowed", "flowED"));
    assert!(!eq_ignore_ascii_case_exec("flowed", "flowe"));
    assert!(!eq_ignore_ascii_case_exec("fl0wed", "flowed"));
}

#[test]
fn parse_mail_of_no_bytes_is_none() {
    assert!(parse_mail(b"").is_none());
}
