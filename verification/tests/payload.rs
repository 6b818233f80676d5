use jjstack::payload::{body_patch, patch_from};

fn document_by_value(body: &str) -> String {
    let mut members = serde_json::Map::new();
    members.insert("body".to_string(), serde_json::Value::String(body.to_string()));
    serde_json::to_string(&serde_json::Value::Object(members)).unwrap()
}

#[test]
fn patch_sets_the_body() {
    let patch = body_patch("hello").ok().unwrap();
    assert_eq!(patch, "{\"body\":\"hello\"}");
}

#[test]
fn patch_escapes_what_json_wants_escaped() {
    let patch = body_patch("say \"hi\"\n\tnow \\ ◁").ok().unwrap();
    assert_eq!(patch, "{\"body\":\"say \\\"hi\\\"\\n\\tnow \\\\ ◁\"}");
}

#[test]
fn patch_is_the_document_of_an_object_with_one_member() {
    for body in ["", "plain", "a\nb", "\u{1}\u{7f}é◁\"\\/", "<!-- STACK NAVIGATION -->"] {
        assert_eq!(body_patch(body).ok().unwrap(), document_by_value(body));
    }
}

#[test]
fn patch_reads_back_as_the_body() {
    let body = "Intro\n\n<!-- STACK NAVIGATION -->\n1. PR #1 (branch: f1) ◁\n";
    let patch = body_patch(body).ok().unwrap();
    let value: serde_json::Value = serde_json::from_str(&patch).unwrap();
    assert_eq!(value.get("body").and_then(|b| b.as_str()), Some(body));
    assert_eq!(value.as_object().map(|o| o.len()), Some(1));
}

#[test]
fn patch_from_frames_the_literal() {
    let patch = patch_from(Ok("\"x\"".to_string())).ok().unwrap();
    assert_eq!(patch, "{\"body\":\"x\"}");
}

#[test]
fn patch_from_hands_a_failure_on() {
    let failure = serde_json::from_str::<serde_json::Value>("{").unwrap_err();
    let said = failure.to_string();
    match patch_from(Err(failure)) {
        Ok(_) => panic!("a failure gave a document"),
        Err(error) => assert_eq!(error.message, said),
    }
}

/// What the compact form writes for one character.
fn escaped(c: char) -> String {
    match c {
        '"' => "\\\"".to_string(),
        '\\' => "\\\\".to_string(),
        '\u{8}' => "\\b".to_string(),
        '\t' => "\\t".to_string(),
        '\n' => "\\n".to_string(),
        '\u{c}' => "\\f".to_string(),
        '\r' => "\\r".to_string(),
        c if (c as u32) < 0x20 => format!("\\u{:04x}", c as u32),
        c => c.to_string(),
    }
}

#[test]
fn patch_writes_every_character_as_the_escapes_say() {
    let mut code = 0u32;
    while code <= 0x10FFFF {
        if let Some(c) = char::from_u32(code) {
            let body = format!("a{}b", c);
            let expected = format!("{{\"body\":\"a{}b\"}}", escaped(c));
            assert_eq!(body_patch(&body).ok().unwrap(), expected, "U+{:04X}", code);
        }
        code = if code < 0x3000 { code + 1 } else { code + 0x101 };
    }
}

#[test]
fn patch_is_always_there() {
    let every_control: String = (0u8..0x20).map(|b| b as char).collect();
    for body in ["", "\u{0}", every_control.as_str(), "\u{7f}\u{80}\u{10ffff}"] {
        assert!(body_patch(body).is_ok());
        assert_eq!(body_patch(body).ok().unwrap(), document_by_value(body));
    }
}
