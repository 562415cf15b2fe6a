use vscode_sync::format::{detect_indent, format_value};
use vscode_sync::locate::{find_claude_env_range, find_key, find_key_range, ENV_KEY};
use vscode_sync::patch::{
    apply_insert, apply_remove, apply_replace, clear_document, find_last_brace, sync_document,
    PatchError,
};
use vscode_sync::paths::{choose_settings_path, get_vscode_settings_path, PathError};
use vscode_sync::scan::{find_bracket_end, find_value_end};

fn pair(name: &str, value: &str) -> (String, String) {
    (name.to_string(), value.to_string())
}

fn text(bytes: Vec<u8>) -> String {
    String::from_utf8(bytes).expect("utf-8 output")
}

#[test]
fn find_claude_env_range_existing_key() {
    let content = r#"{
    "editor.fontSize": 14,
    "claudeCode.environmentVariables": [
        {"name": "FOO", "value": "bar"}
    ],
    "terminal.integrated.shell": "/bin/bash"
}"#;
    let (start, end) = find_claude_env_range(content).expect("should find range");
    let extracted = &content[start..end];
    assert!(extracted.contains("claudeCode.environmentVariables"));
    assert!(extracted.contains("FOO"));
}

#[test]
fn find_claude_env_range_not_found() {
    let content = r#"{
    "editor.fontSize": 14
}"#;
    assert!(find_claude_env_range(content).is_none());
}

#[test]
fn sync_preserves_comments_in_text() {
    let content = r#"{
    // Editor settings
    "editor.fontSize": 14,
    "claudeCode.environmentVariables": [],
    /* Terminal config */
    "terminal.integrated.shell": "/bin/bash"
}"#;

    let range = find_claude_env_range(content);
    assert!(range.is_some());

    let (start, end) = range.unwrap();
    let indent = detect_indent(content.as_bytes());
    let new_arr = vec![pair("KEY", "VAL")];
    let new_value = text(format_value(&new_arr, &indent));

    let key_str = "\"claudeCode.environmentVariables\"";
    let key_pos = content[start..].find(key_str).unwrap() + start;
    let after_key = key_pos + key_str.len();
    let colon_offset = content[after_key..].find(':').unwrap();
    let after_colon = after_key + colon_offset + 1;
    let remaining = &content[after_colon..end];
    let ws_len = remaining.len() - remaining.trim_start().len();
    let value_start = after_colon + ws_len;

    let result = format!("{}{}{}", &content[..value_start], new_value, &content[end..]);

    assert!(result.contains("// Editor settings"));
    assert!(result.contains("/* Terminal config */"));
    assert!(result.contains("\"editor.fontSize\": 14"));
    assert!(result.contains("\"terminal.integrated.shell\""));
    assert!(result.contains("KEY"));
    assert!(result.contains("VAL"));
}

#[test]
fn clear_removes_key_and_preserves_rest() {
    let content = r#"{
    // Editor settings
    "editor.fontSize": 14,
    "claudeCode.environmentVariables": [
        {"name": "FOO", "value": "bar"}
    ],
    "terminal.integrated.shell": "/bin/bash"
}"#;
    let (start, end) = find_claude_env_range(content).unwrap();

    let mut remove_end = end;
    let after = &content[end..];
    for (i, ch) in after.char_indices() {
        if ch == ',' {
            remove_end = end + i + 1;
            break;
        } else if ch == '\n' || ch == '}' {
            break;
        }
    }
    if remove_end < content.len() && content.as_bytes()[remove_end] == b'\n' {
        remove_end += 1;
    }
    let mut remove_start = start;
    let before = &content[..start];
    for ch in before.chars().rev() {
        if ch == '\n' {
            break;
        }
        if ch.is_whitespace() {
            remove_start -= ch.len_utf8();
        } else {
            break;
        }
    }
    let result = format!("{}{}", &content[..remove_start], &content[remove_end..]);

    assert!(result.contains("// Editor settings"));
    assert!(result.contains("editor.fontSize"));
    assert!(result.contains("terminal.integrated.shell"));
    assert!(!result.contains("claudeCode.environmentVariables"));

    let cleared = clear_document(content, ENV_KEY).unwrap();
    assert_eq!(cleared, result);
}

#[test]
fn insert_to_existing_file_without_key() {
    let content = r#"{
    // My settings
    "editor.fontSize": 14
}"#;
    let indent = detect_indent(content.as_bytes());
    let new_arr = vec![pair("A", "B")];
    let new_value = text(format_value(&new_arr, &indent));
    let new_entry = format!(
        "{}\"claudeCode.environmentVariables\": {}",
        text(indent.clone()),
        new_value
    );

    let last_brace = content.rfind('}').unwrap();
    let before_brace = content[..last_brace].trim_end();
    let needs_comma = !before_brace.ends_with('{') && !before_brace.ends_with(',');
    let comma = if needs_comma { "," } else { "" };

    let result = format!(
        "{}{}\n{}\n{}",
        before_brace,
        comma,
        new_entry,
        &content[last_brace..]
    );

    assert!(result.contains("// My settings"));
    assert!(result.contains("editor.fontSize"));
    assert!(result.contains("claudeCode.environmentVariables"));
    assert!(result.contains("\"A\""));

    let synced = sync_document(content, ENV_KEY, &new_arr).unwrap();
    assert_eq!(synced, result);
}

#[test]
fn scenario_insert_into_compact_object() {
    let out = sync_document("{\"a\":1}", "k", &[pair("X", "Y")]).unwrap();
    assert_eq!(
        out,
        "{\"a\":1,\n    \"k\": [\n        {\"name\": \"X\", \"value\": \"Y\"}\n    ]\n}"
    );
}

#[test]
fn scenario_replace_keeps_comment_and_neighbour() {
    let doc = "{\n  // note\n  \"k\": [],\n  \"b\": 2\n}";
    let out = sync_document(doc, "k", &[pair("X", "Y")]).unwrap();
    assert_eq!(
        out,
        "{\n  // note\n  \"k\": [\n      {\"name\": \"X\", \"value\": \"Y\"}\n  ],\n  \"b\": 2\n}"
    );
}

#[test]
fn scenario_remove_first_of_two() {
    let doc = "{\n  \"k\": [1],\n  \"b\": 2\n}";
    assert_eq!(clear_document(doc, "k").unwrap(), "{\n  \"b\": 2\n}");
}

#[test]
fn scenario_empty_document() {
    let out = sync_document("", "k", &[]).unwrap();
    assert_eq!(out, "{\n    \"k\": []\n}\n");
}

#[test]
fn scenario_remove_only_key() {
    let doc = "{\"k\": [{\"name\":\"FOO\",\"value\":\"bar\"}]}";
    assert_eq!(clear_document(doc, "k").unwrap(), "{}");
}

#[test]
fn sync_twice_is_sync_once() {
    let pairs = vec![pair("A", "1"), pair("B", "two \"quoted\"")];
    for doc in ["", "{}", "{\"a\":1}", "{\n\t// c\n\t\"k\": [],\n\t\"z\": null\n}"] {
        let once = sync_document(doc, "k", &pairs).unwrap();
        let twice = sync_document(&once, "k", &pairs).unwrap();
        assert_eq!(once, twice);
    }
}

#[test]
fn clear_without_key_is_unchanged() {
    let doc = "{\n  // keep\n  \"a\": 1 /* x */\n}";
    assert_eq!(clear_document(doc, "k").unwrap(), doc);
}

#[test]
fn remove_last_key_drops_dangling_comma() {
    let doc = "{\n  \"a\": 1,\n  \"k\": 2\n}";
    assert_eq!(clear_document(doc, "k").unwrap(), "{\n  \"a\": 1}");
}

#[test]
fn remove_middle_key_keeps_one_comma() {
    let doc = "{\n  \"a\": 1,\n  \"k\": 2,\n  \"b\": 3\n}";
    assert_eq!(
        clear_document(doc, "k").unwrap(),
        "{\n  \"a\": 1,\n  \"b\": 3\n}"
    );
}

#[test]
fn key_text_inside_string_is_not_a_declaration() {
    let doc = "{\n  \"url\": \"http://x/?q=\\\"claudeCode.environmentVariables\\\": []\",\n  \"claudeCode.environmentVariables\": [],\n  \"b\": 1\n}";
    let (start, end) = find_claude_env_range(doc).unwrap();
    assert_eq!(start, doc.find("\"claudeCode.environmentVariables\": [],").unwrap());
    assert_eq!(&doc[start..end], "\"claudeCode.environmentVariables\": []");
}

#[test]
fn key_text_inside_comment_is_not_a_declaration() {
    let doc = "{\n  // \"k\": 1\n  /* \"k\": 2 */\n  \"k\": 3\n}";
    let (ks, vs) = find_key(doc.as_bytes(), b"k").unwrap();
    assert_eq!(ks, doc.find("\"k\": 3").unwrap());
    assert_eq!(&doc[vs..vs + 1], "3");
    let only_in_string = "{\"d\": \"\\\"k\\\": 1\"}";
    assert_eq!(find_key(only_in_string.as_bytes(), b"k"), None);
}

#[test]
fn value_end_of_each_kind() {
    let d = b"[1, \"]\", {\"a\": [2]}] , \"s\\\"x\\\\\" true,";
    assert_eq!(find_value_end(d, 0), Some(20));
    assert_eq!(find_bracket_end(d, 0), Some(20));
    assert_eq!(find_value_end(d, 9), Some(19));
    assert_eq!(find_value_end(d, 23), Some(31));
    assert_eq!(find_value_end(d, 32), Some(36));
    assert_eq!(find_value_end(b"12", 0), Some(2));
    assert_eq!(find_value_end(b"12", 2), None);
    assert_eq!(find_bracket_end(b"\"a\"", 0), None);
    assert_eq!(find_value_end(b"[1, [2]", 0), None);
    assert_eq!(find_value_end(b"\"abc\\\"", 0), None);
}

#[test]
fn malformed_value_is_an_error() {
    let doc = "{\n  \"k\": [1, 2\n}";
    assert_eq!(sync_document(doc, "k", &[]), Err(PatchError::MalformedValue));
    assert_eq!(clear_document(doc, "k"), Err(PatchError::MalformedValue));
    assert_eq!(find_key_range(doc.as_bytes(), b"k"), None);
}

#[test]
fn indent_detection() {
    assert_eq!(detect_indent(b"{\n\t\"a\": 1\n}"), b"\t".to_vec());
    assert_eq!(detect_indent(b"{\n  \n   \"a\": 1\n}"), b"   ".to_vec());
    assert_eq!(detect_indent(b"{\"a\": 1}"), b"    ".to_vec());
    assert_eq!(detect_indent(b""), b"    ".to_vec());
}

#[test]
fn format_escapes_strings() {
    let out = text(format_value(&[pair("N\"1", "a\\b\nc\u{1}é")], b""));
    assert_eq!(
        out,
        "[\n    {\"name\": \"N\\\"1\", \"value\": \"a\\\\b\\nc\\u0001é\"}\n]"
    );
    assert_eq!(text(format_value(&[], b"  ")), "[]");
    let two = text(format_value(&[pair("A", "1"), pair("B", "2")], b"  "));
    assert_eq!(
        two,
        "[\n      {\"name\": \"A\", \"value\": \"1\"},\n      {\"name\": \"B\", \"value\": \"2\"}\n  ]"
    );
}

#[test]
fn insert_after_trailing_comma_adds_none() {
    let doc = "{\n  \"a\": 1,\n}";
    let out = sync_document(doc, "k", &[]).unwrap();
    assert_eq!(out, "{\n  \"a\": 1,\n  \"k\": []\n}");
}

#[test]
fn settings_path_prefers_trimmed_override() {
    let default = Some("/home/u/.config/Code/User/settings.json".to_string());
    assert_eq!(
        get_vscode_settings_path(Some("  /tmp/s.json \n"), default.clone()),
        Ok("/tmp/s.json".to_string())
    );
    assert_eq!(
        get_vscode_settings_path(Some("   "), default.clone()),
        Ok("/home/u/.config/Code/User/settings.json".to_string())
    );
    assert_eq!(get_vscode_settings_path(None, default), Ok("/home/u/.config/Code/User/settings.json".to_string()));
    assert_eq!(get_vscode_settings_path(None, None), Err(PathError::NoDefaultPath));
}

#[test]
fn sync_and_clear_keep_non_ascii_text() {
    let doc = "{\n  // café ☕\n  \"title\": \"naïve\",\n  \"k\": []\n}";
    let out = sync_document(doc, "k", &[pair("NAME", "välue")]).unwrap();
    assert_eq!(
        out,
        "{\n  // café ☕\n  \"title\": \"naïve\",\n  \"k\": [\n      {\"name\": \"NAME\", \"value\": \"välue\"}\n  ]\n}"
    );
    let cleared = clear_document(&out, "k").unwrap();
    assert_eq!(cleared, "{\n  // café ☕\n  \"title\": \"naïve\"}");
}

#[test]
fn bare_value_is_replaced_up_to_delimiter() {
    let doc = "{\n  \"k\": null,\n  \"b\": true\n}";
    let out = sync_document(doc, "k", &[]).unwrap();
    assert_eq!(out, "{\n  \"k\": [],\n  \"b\": true\n}");
}

#[test]
fn patch_primitives_on_bytes() {
    let d = b"{\"a\": 1, \"k\": 2}";
    assert_eq!(apply_replace(d, 14, 15, b"[]"), b"{\"a\": 1, \"k\": []}".to_vec());
    assert_eq!(find_last_brace(d), Some(15));
    assert_eq!(find_last_brace(b"[1]"), None);
    assert_eq!(
        apply_insert(b"{}", b"k", b"[]", b"  "),
        b"{\n  \"k\": []\n}".to_vec()
    );
    assert_eq!(apply_insert(b"", b"k", b"[]", b"\t"), b"{\n\t\"k\": []\n}\n".to_vec());
    assert_eq!(apply_remove(d, 9, 15), b"{\"a\": 1}".to_vec());
}

#[test]
fn override_choice_takes_trimmed_text_as_given() {
    assert_eq!(
        choose_settings_path(Some("/x.json"), None),
        Ok("/x.json".to_string())
    );
    assert_eq!(choose_settings_path(Some(""), None), Err(PathError::NoDefaultPath));
    assert_eq!(
        choose_settings_path(Some(""), Some("/d.json".to_string())),
        Ok("/d.json".to_string())
    );
}

#[test]
fn indent_detection_takes_unicode_whitespace() {
    assert_eq!(detect_indent(b"{\n\x0cx\n}"), b"\x0c".to_vec());
    assert_eq!(detect_indent("{\n\u{a0}\u{3000}\"a\": 1\n}".as_bytes()), "\u{a0}\u{3000}".as_bytes().to_vec());
    assert_eq!(detect_indent("{\n\u{2003}\n \"a\": 1\n}".as_bytes()), b" ".to_vec());
    let out = sync_document("{\n\u{a0}\"a\": 1\n}", "k", &[pair("X", "Y")]).unwrap();
    assert_eq!(
        out,
        "{\n\u{a0}\"a\": 1,\n\u{a0}\"k\": [\n\u{a0}    {\"name\": \"X\", \"value\": \"Y\"}\n\u{a0}]\n}"
    );
}

#[test]
fn bracket_end_past_the_end_is_none() {
    assert_eq!(find_bracket_end(b"[1]", 3), None);
    assert_eq!(find_bracket_end(b"", 0), None);
}

#[test]
fn comma_ending_a_comment_is_not_cut() {
    let doc = "{\n \"a\": 1, // c,\n \"k\": 2\n}";
    assert_eq!(clear_document(doc, "k").unwrap(), "{\n \"a\": 1, // c,\n}");
}
