use fish_history::yaml::{decode_item_fish_2_0, extract_prefix_and_unescape_yaml, iterate_fish_2_0_history, unescape_yaml_fish_2_0};
use fish_history::History;

const SAMPLE: &str = "- cmd: echo this has\\\\\\nbackslashes\n  when: 1339717374\n- cmd: function foo\\necho bar\\nend\n  when: 1339717377\n  paths:\n    - /tmp/a\n    - /tmp/b\n---\n- cmd: echo alpha\n  when: 1339717379\nnot an item\n- cmd: - cmd: sleep 123\n  when: 1339717380\n- cmd: final line";

#[test]
fn unescapes_backslashes_and_newlines() {
    assert_eq!(unescape_yaml_fish_2_0(b"a\\\\b\\nc"), b"a\\b\nc".to_vec());
    assert_eq!(unescape_yaml_fish_2_0(b"plain"), b"plain".to_vec());
    assert_eq!(unescape_yaml_fish_2_0(b"stop\\xhere"), b"stop".to_vec());
}

#[test]
fn splits_key_and_value() {
    let (k, v) = extract_prefix_and_unescape_yaml(b"when:   123").unwrap();
    assert_eq!(k, b"when".to_vec());
    assert_eq!(v, b"123".to_vec());
    assert!(extract_prefix_and_unescape_yaml(b"no colon").is_none());
}

#[test]
fn decodes_one_item() {
    let data = b"- cmd: ls\n  when: 2\n  paths:\n    - /x\n";
    let it = decode_item_fish_2_0(data, 0, 5).unwrap();
    assert_eq!(it.contents, "ls");
    assert_eq!(it.id.timestamp(), 2000);
    assert_eq!(it.id.raw() & 0xffff, 5);
    assert_eq!(it.required_paths, vec!["/x".to_string()]);
    assert!(decode_item_fish_2_0(b"  when: 3\n", 0, 0).is_none());
}

#[test]
fn iterates_legacy_file() {
    let items = iterate_fish_2_0_history(SAMPLE.as_bytes());
    let texts: Vec<&str> = items.iter().map(|i| i.str()).collect();
    assert_eq!(texts, vec!["echo this has\\\nbackslashes", "function foo\necho bar\nend", "echo alpha", "sleep 123"]);
    assert_eq!(items[1].required_paths, vec!["/tmp/a".to_string(), "/tmp/b".to_string()]);
    assert_eq!(items[2].id.timestamp(), 1339717379000);
    assert_eq!(items[3].id.raw() & 0xffff, 3);
}

#[test]
fn migrates_legacy_file() {
    let mut h = History::new_at("legacy", None, 0, 0);
    let (text, n) = h.populate_from_legacy_paths(SAMPLE.as_bytes());
    assert_eq!(n, 4);
    assert_eq!(text.lines().count(), 4);
    assert!(text.contains("\"cmd\":\"echo alpha\""));
}

#[test]
fn invalid_utf8_becomes_replacement_character() {
    let it = decode_item_fish_2_0(b"- cmd: a\xffb\n", 0, 0).unwrap();
    assert_eq!(it.contents, "a\u{FFFD}b");
}
