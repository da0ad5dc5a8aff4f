use lawh::body::unformat_flowed;
use lawh::sample::{
    body_flowed, body_plain, compose_sample_mail, email_address, list_address, maildir_place,
    next_sample_headers, reply_subject, sample_message_id, seconds_ago, ComposeError, SampleMail,
};

#[test]
fn email_address_lowercases_and_dots() {
    assert_eq!(email_address("Ab Cd", "x.io"), "Ab Cd <ab.cd@x.io>");
    assert_eq!(email_address("EEEE", "bass.com"), "EEEE <eeee@bass.com>");
}

#[test]
fn reply_subject_adds_prefix_once() {
    assert_eq!(reply_subject("hello"), "Re: hello");
    assert_eq!(reply_subject("Re: hello"), "Re: hello");
    assert_eq!(reply_subject(&reply_subject("x")), "Re: x");
}

#[test]
fn sample_names() {
    assert_eq!(list_address("patches"), "patches@lists.example.com");
    assert_eq!(sample_message_id("u-1", "discuss"), "u-1.discuss@example.com");
    assert_eq!(maildir_place("u", true), ("cur".to_string(), "u:2,S".to_string()));
    assert_eq!(maildir_place("u", false), ("new".to_string(), "u".to_string()));
    assert_eq!(seconds_ago(2, 3), 2 * 86400 + 3 * 3600);
}

#[test]
fn plain_body_joins_paragraphs() {
    assert_eq!(body_plain(&["a b", "c"]), "a b\n\nc");
    assert_eq!(body_plain(&[]), "");
}

#[test]
fn flowed_body_wraps_at_forty_bytes() {
    let p = "dont wanna be a fool for you just another player in your game for two";
    assert_eq!(
        body_flowed(&[p]),
        "dont wanna be a fool for you just another \nplayer in your game for two"
    );
    assert_eq!(body_flowed(&["one", "two  three"]), "one\n\ntwo three");
}

#[test]
fn flowed_body_is_undone_by_unformat_flowed() {
    let ps = [
        "dont wanna be a fool for you just another player in your game for two you may hate me but it aint no lie baby bye bye bye",
        "every little thing i do never seems enough for you",
    ];
    assert_eq!(unformat_flowed(&body_flowed(&ps)), body_plain(&ps));
}

#[test]
fn next_headers_reply_only_after_four_mails() {
    let earlier = vec![("hello".to_string(), "id1@x".to_string()), ("Re: b".to_string(), "id2@x".to_string())];
    let subjects = ["s0", "s1"];
    assert_eq!(next_sample_headers(4, &earlier, true, 1, &subjects, 0), ("Re: b".to_string(), Some("id2@x".to_string())));
    assert_eq!(next_sample_headers(5, &earlier, true, 0, &subjects, 1), ("Re: hello".to_string(), Some("id1@x".to_string())));
    assert_eq!(next_sample_headers(3, &earlier, true, 0, &subjects, 1), ("s1".to_string(), None));
    assert_eq!(next_sample_headers(9, &earlier, false, 0, &subjects, 0), ("s0".to_string(), None));
    assert_eq!(next_sample_headers(9, &vec![], true, 0, &subjects, 1), ("s1".to_string(), None));
}

fn sample(from: &str, flowed: bool, reply_to: Option<&str>) -> SampleMail {
    SampleMail {
        from: from.to_string(),
        to: "patches@lists.example.com".to_string(),
        subject: "Re: hello".to_string(),
        message_id: "u1.patches@example.com".to_string(),
        reply_to: reply_to.map(|s| s.to_string()),
        flowed,
        body: "a b".to_string(),
    }
}

#[test]
fn compose_writes_the_headers() {
    let bytes = compose_sample_mail(&sample("Ab <ab@x.io>", true, Some("root@example.com")), 1_000_000_000)
        .expect("a mail");
    let text = String::from_utf8(bytes).unwrap();
    assert!(text.contains("From: Ab <ab@x.io>"));
    assert!(text.contains("To: patches@lists.example.com"));
    assert!(text.contains("Subject: Re: hello"));
    assert!(text.contains("09 Sep 2001 01:46:40"));
    assert!(text.contains("u1.patches@example.com"));
    assert!(text.contains("format=flowed"));
    assert!(text.contains("In-Reply-To: "));
    assert!(text.contains("References: "));
    assert!(text.contains("root@example.com"));
    assert!(text.ends_with("a b"));
    let plain = String::from_utf8(compose_sample_mail(&sample("ab@x.io", false, None), 0).unwrap()).unwrap();
    assert!(!plain.contains("In-Reply-To"));
    assert!(!plain.contains("format=flowed"));
}

#[test]
fn compose_refuses_a_bad_sender() {
    assert_eq!(compose_sample_mail(&sample("not an address", false, None), 0), Err(ComposeError::From));
}
