use gemini_chat::request::{concatenate_parts, FileData, InlineData, Part, SystemInstruction};

#[test]
fn text_continues_text() {
    let mut a = vec![Part::text("Hel".to_string())];
    concatenate_parts(&mut a, vec![Part::text("lo".to_string()), Part::text("ignored".to_string())]);
    assert_eq!(a.len(), 1);
    assert!(matches!(&a[0], Part::text(t) if t == "Hello"));
}

#[test]
fn inline_payload_chunks_join() {
    let mut a = vec![Part::inline_data(InlineData::new("image/png".to_string(), "AAA".to_string()))];
    concatenate_parts(&mut a, vec![Part::inline_data(InlineData::new("image/gif".to_string(), "BBB".to_string()))]);
    assert_eq!(a.len(), 1);
    match &a[0] {
        Part::inline_data(d) => {
            assert_eq!(d.data(), "AAABBB");
            assert_eq!(d.mime_type(), "image/png");
        }
        _ => panic!("expected inline data"),
    }
}

#[test]
fn different_kinds_append() {
    let mut a = vec![Part::text("x".to_string())];
    concatenate_parts(&mut a, vec![Part::fileData(FileData::new(None, "gs://f".to_string()))]);
    assert_eq!(a.len(), 2);
    concatenate_parts(&mut a, vec![Part::text("y".to_string())]);
    assert_eq!(a.len(), 3);
    assert!(matches!(&a[2], Part::text(t) if t == "y"));
}

#[test]
fn empty_incoming_changes_nothing() {
    let mut a = vec![Part::text("x".to_string())];
    concatenate_parts(&mut a, vec![]);
    assert_eq!(a.len(), 1);
    let mut b: Vec<Part> = vec![];
    concatenate_parts(&mut b, vec![Part::text("z".to_string())]);
    assert!(matches!(&b[0], Part::text(t) if t == "z"));
}

#[test]
fn system_instruction_from_text() {
    let s = SystemInstruction::from_str("be brief".to_string());
    assert_eq!(s.parts.len(), 1);
    assert!(matches!(&s.parts[0], Part::text(t) if t == "be brief"));
}
