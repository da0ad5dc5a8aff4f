use lawh::body::{
    distinct_url_list,
    extract_urls, format_body_for_gemini, format_patch_body, format_quoted_text, h, is_diff_line,
    looks_like_patch, unformat_flowed,
};

#[test]
fn h_replaces_line_breaks_with_spaces() {
    assert_eq!(h("a\r\nb"), "a  b");
    assert_eq!(h("no breaks"), "no breaks");
    assert_eq!(h(""), "");
}

#[test]
fn is_diff_line_recognises_diff_lines() {
    assert!(is_diff_line("diff --git a/x b/x"));
    assert!(is_diff_line("index 123..456"));
    assert!(is_diff_line("--- a/x"));
    assert!(is_diff_line("+++ b/x"));
    assert!(is_diff_line("@@ -1 +1 @@"));
    assert!(is_diff_line("+added"));
    assert!(is_diff_line("-removed"));
    assert!(is_diff_line(" context"));
    assert!(!is_diff_line("plain text"));
    assert!(!is_diff_line(""));
}

#[test]
fn looks_like_patch_detects_patches() {
    assert!(looks_like_patch("hi\ndiff --git a/f b/f\n"));
    assert!(looks_like_patch("--- a/f\n+++ b/f\n"));
    assert!(!looks_like_patch("just words"));
    assert!(!looks_like_patch("--- b/f"));
}

#[test]
fn quoted_text_collapses_nested_quotes() {
    let body = "> a\n>> b\n> >  c\nOn Mon, X wrote:\nplain\n  indented";
    assert_eq!(
        format_quoted_text(body),
        "> a\r\n> b\r\n> c\r\n> On Mon, X wrote:\r\nplain\r\n  indented\r\n"
    );
}

#[test]
fn quoted_text_handles_crlf_and_empty() {
    assert_eq!(format_quoted_text("a\r\nb\r\n"), "a\r\nb\r\n");
    assert_eq!(format_quoted_text(""), "");
    assert_eq!(format_quoted_text("a\n\nb"), "a\r\n\r\nb\r\n");
    assert_eq!(format_quoted_text("On Monday it rained"), "On Monday it rained\r\n");
}

#[test]
fn patch_body_wraps_diff_in_coloured_block() {
    let body = "Intro\ndiff --git a/src/x.rs b/src/x.rs\nindex 1..2\n--- a/src/x.rs\n+++ b/src/x.rs\n@@ -1 +1 @@\n-old\n+new\n context\n\nThanks\n";
    let expected = "Intro\r\n### src/x.rs\r\n```diff\r\ndiff --git a/src/x.rs b/src/x.rs\r\nindex 1..2\r\n--- a/src/x.rs\r\n+++ b/src/x.rs\r\n\x1b[36m@@ -1 +1 @@\x1b[0m\r\n\x1b[31m-old\x1b[0m\r\n\x1b[32m+new\x1b[0m\r\n context\r\n\r\n```\r\n\r\nThanks\r\n";
    assert_eq!(format_patch_body(body), expected);
}

#[test]
fn patch_body_closes_open_block_at_end() {
    assert_eq!(
        format_patch_body("diff --git a/a b/a\n+x"),
        "### a\r\n```diff\r\ndiff --git a/a b/a\r\n\x1b[32m+x\x1b[0m\r\n```\r\n"
    );
}

#[test]
fn patch_body_closes_previous_block_on_new_file() {
    assert_eq!(
        format_patch_body("diff --git a/a b/a\ndiff --git a/b b/c b/d\n"),
        "### a\r\n```diff\r\ndiff --git a/a b/a\r\n```\r\n\r\n### d\r\n```diff\r\ndiff --git a/b b/c b/d\r\n```\r\n"
    );
}

#[test]
fn patch_body_header_without_b_path_uses_whole_line() {
    assert_eq!(
        format_patch_body("diff --git x\n--\n"),
        "### diff --git x\r\n```diff\r\ndiff --git x\r\n\x1b[31m--\x1b[0m\r\n```\r\n"
    );
}

#[test]
fn body_for_gemini_dispatches_on_patch() {
    assert_eq!(format_body_for_gemini("> hi"), "> hi\r\n");
    assert_eq!(
        format_body_for_gemini("--- a/x\n+y"),
        "--- a/x\r\n+y\r\n"
    );
}

#[test]
fn unformat_flowed_joins_soft_breaks() {
    assert_eq!(
        unformat_flowed("This is a long \nparagraph. \nNew paragraph."),
        "This is a long paragraph. New paragraph."
    );
    assert_eq!(unformat_flowed("Fixed\nlines"), "Fixed\nlines");
    assert_eq!(unformat_flowed(" stuffed"), "stuffed");
    assert_eq!(unformat_flowed("a \n\nb"), "a \nb");
    assert_eq!(unformat_flowed(""), "");
}

#[test]
fn unformat_flowed_keeps_fixed_text() {
    let text = "one line\nanother line\n\nlast";
    assert_eq!(unformat_flowed(text), text);
}

#[test]
fn extract_urls_dedups_and_skips_emails() {
    let urls = extract_urls(
        "see https://example.com and https://example.com/x, mail me@example.org, again https://example.com",
    );
    assert_eq!(urls, vec!["https://example.com".to_string(), "https://example.com/x".to_string()]);
    assert!(extract_urls("no links here").is_empty());
}

#[test]
fn quoted_text_strips_every_nesting_level() {
    assert_eq!(format_quoted_text("> > x"), "> x\r\n");
    assert_eq!(format_quoted_text("  >> > >x"), "> x\r\n");
}

#[test]
fn quoted_text_is_idempotent_on_an_example() {
    let once = format_quoted_text("> > a\nOn Mon, X wrote:\nplain\r\n>");
    assert_eq!(format_quoted_text(&once), once);
}

#[test]
fn patch_without_git_header_gets_a_block() {
    assert_eq!(
        format_body_for_gemini("--- a/f\n+++ b/f\n-x\n+y"),
        "```diff\r\n--- a/f\r\n+++ b/f\r\n\x1b[31m-x\x1b[0m\r\n\x1b[32m+y\x1b[0m\r\n```\r\n"
    );
    assert_eq!(
        format_patch_body("Intro\n--- a/f\n+++ b/f\n@@ -1 +1 @@\n-x\nThanks"),
        "Intro\r\n```diff\r\n--- a/f\r\n+++ b/f\r\n\x1b[36m@@ -1 +1 @@\x1b[0m\r\n\x1b[31m-x\x1b[0m\r\n```\r\n\r\nThanks\r\n"
    );
}

#[test]
fn distinct_url_list_keeps_first_of_each_url() {
    let links = vec![
        (true, "https://a".to_string()),
        (false, "me@x.org".to_string()),
        (true, "https://b".to_string()),
        (true, "https://a".to_string()),
    ];
    assert_eq!(distinct_url_list(&links), vec!["https://a".to_string(), "https://b".to_string()]);
    assert!(distinct_url_list(&vec![]).is_empty());
}

#[test]
fn flowed_sample_lines_end_as_flowed_text_asks() {
    let p = "every little thing i do never seems enough for you you dont wanna lose it again";
    let body = lawh::sample::body_flowed(&[p, p]);
    let lines: Vec<&str> = body.split('\n').collect();
    for (i, l) in lines.iter().enumerate() {
        assert!(!l.starts_with(' '));
        let next_has_text = i + 1 < lines.len() && !lines[i + 1].is_empty();
        if !l.is_empty() {
            assert_eq!(l.ends_with(' '), next_has_text);
        }
    }
}
