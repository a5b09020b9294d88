use gemini_chat::parser::{
    find_media_references, is_web_url, matches_fit_text, resolve_reference, Fetched, MarkdownToParts,
    MatchedFiles,
};
use gemini_chat::request::Part;

const TEXT: &str = "see ![cat](https://x/cat.jpg) now";

const IMAGE_PATTERN: &str = r"(?s)!\[.*?].?\((.*?)\)";

fn splice(text: &str, fetched: Vec<Fetched>) -> Vec<Part> {
    let refs = find_media_references(text, IMAGE_PATTERN).unwrap();
    assert_eq!(refs.len(), fetched.len());
    let mut matches = Vec::new();
    for (r, f) in refs.into_iter().zip(fetched) {
        matches.push(resolve_reference(r, f, |_u: &str| "image/jpeg".to_string()));
    }
    assert!(matches_fit_text(text, &matches));
    MarkdownToParts::from_matches(text, matches).process()
}

#[test]
fn failed_fetch_leaves_text_unchanged() {
    let parts = splice(TEXT, vec![Fetched::Failed]);
    assert_eq!(parts.len(), 1);
    assert!(matches!(&parts[0], Part::text(t) if t == TEXT));
}

#[test]
fn fetched_image_is_spliced_after_reference() {
    let parts = splice(TEXT, vec![Fetched::Received { content_type: None, body: Some(b"hi".to_vec()) }]);
    assert_eq!(parts.len(), 3);
    assert!(matches!(&parts[0], Part::text(t) if t == "see ![cat](https://x/cat.jpg)"));
    match &parts[1] {
        Part::inline_data(d) => {
            assert_eq!(d.mime_type(), "image/jpeg");
            assert_eq!(d.data(), "aGk=");
        }
        _ => panic!("expected inline data"),
    }
    assert!(matches!(&parts[2], Part::text(t) if t == " now"));
}

#[test]
fn content_type_header_wins_over_guess() {
    let parts = splice(
        TEXT,
        vec![Fetched::Received { content_type: Some("image/webp".to_string()), body: Some(vec![0, 1, 2]) }],
    );
    match &parts[1] {
        Part::inline_data(d) => {
            assert_eq!(d.mime_type(), "image/webp");
            assert_eq!(d.data(), "AAEC");
        }
        _ => panic!("expected inline data"),
    }
}

#[test]
fn unreadable_body_is_unresolved() {
    let parts = splice(TEXT, vec![Fetched::Received { content_type: Some("image/png".to_string()), body: None }]);
    assert_eq!(parts.len(), 1);
}

#[test]
fn local_path_is_never_resolved() {
    let text = "a ![x](/tmp/x.png) b";
    let parts = splice(text, vec![Fetched::Received { content_type: None, body: Some(vec![1]) }]);
    assert_eq!(parts.len(), 1);
    assert!(matches!(&parts[0], Part::text(t) if t == text));
}

#[test]
fn text_without_references_is_one_fragment() {
    let parts = splice("plain words", vec![]);
    assert_eq!(parts.len(), 1);
    assert!(matches!(&parts[0], Part::text(t) if t == "plain words"));
    assert!(splice("", vec![]).is_empty());
}

#[test]
fn two_references_keep_text_order() {
    let text = "é ![a](http://h/a.png)![b](https://h/b.pdf) ü";
    let ok = || Fetched::Received { content_type: None, body: Some(b"abc".to_vec()) };
    let parts = splice(text, vec![ok(), ok()]);
    assert_eq!(parts.len(), 5);
    let mut visible = String::new();
    for p in &parts {
        if let Part::text(t) = p {
            visible.push_str(t);
        }
    }
    assert_eq!(visible, text);
    assert!(matches!(&parts[2], Part::text(t) if t == "![b](https://h/b.pdf)"));
    assert!(matches!(&parts[4], Part::text(t) if t == " ü"));
}

#[test]
fn reference_at_end_leaves_no_trailing_fragment() {
    let text = "![a](https://h/a.png)";
    let parts = splice(text, vec![Fetched::Received { content_type: None, body: Some(vec![]) }]);
    assert_eq!(parts.len(), 2);
    match &parts[1] {
        Part::inline_data(d) => assert_eq!(d.data(), ""),
        _ => panic!("expected inline data"),
    }
}

#[test]
fn web_schemes() {
    assert!(is_web_url("http://a"));
    assert!(is_web_url("https://a"));
    assert!(!is_web_url("ftp://a"));
    assert!(!is_web_url("http:/a"));
    assert!(!is_web_url("https:"));
    assert!(!is_web_url("file.png"));
}

#[test]
fn misplaced_matches_do_not_fit() {
    let resolved = |index: usize, length: usize| MatchedFiles {
        index,
        length,
        mime_type: Some("image/png".to_string()),
        base64: Some("AA==".to_string()),
    };
    assert!(!matches_fit_text("short", &vec![resolved(2, 10)]));
    assert!(!matches_fit_text("éa", &vec![resolved(0, 1)]));
    assert!(!matches_fit_text("abcdef", &vec![resolved(2, 3), resolved(0, 1)]));
    assert!(matches_fit_text("abcdef", &vec![resolved(0, 1), resolved(2, 3)]));
    let unresolved = MatchedFiles { index: 100, length: 5, mime_type: None, base64: None };
    assert!(matches_fit_text("abc", &vec![unresolved]));
}

#[test]
fn references_carry_span_and_url() {
    let refs = find_media_references(TEXT, IMAGE_PATTERN).unwrap();
    assert_eq!(refs.len(), 1);
    assert_eq!(refs[0].index, 4);
    assert_eq!(refs[0].length, 25);
    assert_eq!(refs[0].url.as_deref(), Some("https://x/cat.jpg"));
}

#[test]
fn pattern_that_does_not_compile_finds_nothing() {
    assert!(find_media_references(TEXT, "(unclosed").is_none());
}

#[test]
fn unresolved_between_resolved_is_inert() {
    let text = "![a](https://h/a.png) ![b](/local/b.png) ![c](https://h/c.png)";
    let ok = || Fetched::Received { content_type: Some("image/png".to_string()), body: Some(vec![7]) };
    let with_all = splice(text, vec![ok(), ok(), ok()]);
    assert_eq!(with_all.len(), 4);
    assert!(matches!(&with_all[0], Part::text(t) if t == "![a](https://h/a.png)"));
    assert!(matches!(&with_all[2], Part::text(t) if t == " ![b](/local/b.png) ![c](https://h/c.png)"));
    assert!(matches!(&with_all[3], Part::inline_data(_)));
}
