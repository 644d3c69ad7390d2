use fish_history::history_file::HistoryFile;
use fish_history::item::HistoryItem;
use fish_history::lines::{iter_lines, read_line_at, try_parse_id_fast};
use fish_history::record::id_for_json_line;

fn cat(parts: &[&str]) -> String {
    parts.concat()
}


fn assert_item_eq(item: &HistoryItem, id: u64, cmd: &str, exit: Option<i32>, paths: Option<Vec<&str>>) {
    assert_eq!(item.id.raw(), id, "ID mismatch");
    assert_eq!(item.contents, cmd, "Command mismatch");
    assert_eq!(item.exit_code, exit, "Exit code mismatch");
    if let Some(expected_paths) = paths {
        let expected: Vec<String> = expected_paths.iter().map(|s| s.to_string()).collect();
        assert_eq!(item.required_paths, expected, "Paths mismatch");
    } else {
        assert!(item.required_paths.is_empty(), "Paths mismatch");
    }
}

fn parse(data: &str) -> HistoryFile {
    HistoryFile::from_data(data.as_bytes().to_vec(), None)
}

#[test]
fn test_try_parse_id_fast() {
    assert_eq!(try_parse_id_fast(br#"{"id":0}"#), Some(0));
    assert_eq!(try_parse_id_fast(br#"{"id":42}"#), Some(42));
    assert_eq!(try_parse_id_fast(br#"{"id":18446744073709551615}"#), Some(u64::MAX));

    assert_eq!(try_parse_id_fast(br#"{ "id" : 123 }"#), Some(123));
    assert_eq!(try_parse_id_fast(br#"{  "id"  :  456  }"#), Some(456));
    assert_eq!(try_parse_id_fast(b"{\t\"id\"\t:\t789}"), Some(789));
    assert_eq!(try_parse_id_fast(b"{\n\"id\"\n:\n999}"), Some(999));
    assert_eq!(try_parse_id_fast(br#"   {"id":111}"#), Some(111));

    assert_eq!(try_parse_id_fast(br#"{"id":123"#), Some(123));
    assert_eq!(try_parse_id_fast(br#"{"id":123,"#), Some(123));
    assert_eq!(try_parse_id_fast(br#"{"id":456,"cmd""#), Some(456));
    assert_eq!(try_parse_id_fast(br#"{"id":789 garbage}"#), Some(789));
    assert_eq!(try_parse_id_fast(br#"{"id":999,"malformed":}"#), Some(999));
    assert_eq!(try_parse_id_fast(br#"{"id":111}}}}}"#), Some(111));
    assert_eq!(try_parse_id_fast(br#"{"id":222,"cmd":"test"}extra"#), Some(222));
    assert_eq!(try_parse_id_fast(br#"{"id":12.34}"#), Some(12));

    assert_eq!(try_parse_id_fast(br#""id":123}"#), None);
    assert_eq!(try_parse_id_fast(br#"{id:123}"#), None);
    assert_eq!(try_parse_id_fast(br#"{"id" 123}"#), None);
    assert_eq!(try_parse_id_fast(br#"{"id":}"#), None);
    assert_eq!(try_parse_id_fast(br#"{"id": }"#), None);

    assert_eq!(try_parse_id_fast(br#"{"sid":7,"id":123}"#), None);
    assert_eq!(try_parse_id_fast(br#"{"cmd":"test","id":456}"#), None);

    assert_eq!(try_parse_id_fast(br#"{"ID":123}"#), None);
    assert_eq!(try_parse_id_fast(br#"{"idd":123}"#), None);

    assert_eq!(try_parse_id_fast(br#"{"id":"123"}"#), None);
    assert_eq!(try_parse_id_fast(br#"{"id":true}"#), None);
    assert_eq!(try_parse_id_fast(br#"{"id":null}"#), None);
    assert_eq!(try_parse_id_fast(br#"{"id":-123}"#), None);
    assert_eq!(try_parse_id_fast(br#"{"id":+123}"#), None);

    assert_eq!(try_parse_id_fast(br#"[{"id":123}]"#), None);

    assert_eq!(try_parse_id_fast(br#"{"id":00}"#), None);
    assert_eq!(try_parse_id_fast(br#"{"id":01}"#), None);
    assert_eq!(try_parse_id_fast(br#"{"id":0123}"#), None);

    assert_eq!(try_parse_id_fast(b""), None);
    assert_eq!(try_parse_id_fast(b"   "), None);
    assert_eq!(try_parse_id_fast(b"{"), None);

    assert_eq!(try_parse_id_fast(br#"{"id":18446744073709551616}"#), None);
    assert_eq!(try_parse_id_fast(br#"{"id":99999999999999999999999}"#), None);
}

#[test]
fn test_read_line_at() {
    let buf = b"";
    assert_eq!(read_line_at(buf, 0), (&b""[..], None));
    assert_eq!(read_line_at(buf, 10), (&b""[..], None));

    let buf = b"hello";
    assert_eq!(read_line_at(buf, 0), (&b"hello"[..], None));

    let buf = b"hello\n";
    assert_eq!(read_line_at(buf, 0), (&b"hello"[..], None));

    let buf = b"hello\nworld";
    assert_eq!(read_line_at(buf, 0), (&b"hello"[..], Some(6)));
    assert_eq!(read_line_at(buf, 6), (&b"world"[..], None));

    let buf = b"foo\nbar\nbaz\n";
    assert_eq!(read_line_at(buf, 0), (&b"foo"[..], Some(4)));
    assert_eq!(read_line_at(buf, 4), (&b"bar"[..], Some(8)));
    assert_eq!(read_line_at(buf, 8), (&b"baz"[..], None));

    let buf = b"\n\nfoo\n";
    assert_eq!(read_line_at(buf, 0), (&b""[..], Some(1)));
    assert_eq!(read_line_at(buf, 1), (&b""[..], Some(2)));
    assert_eq!(read_line_at(buf, 2), (&b"foo"[..], None));

    let buf = b"alpha\nbeta\ngamma";
    assert_eq!(read_line_at(buf, 0), (&b"alpha"[..], Some(6)));
    assert_eq!(read_line_at(buf, 6), (&b"beta"[..], Some(11)));
    assert_eq!(read_line_at(buf, 11), (&b"gamma"[..], None));

    let buf = b"test";
    assert_eq!(read_line_at(buf, 4), (&b""[..], None));

    assert_eq!(read_line_at(buf, 5), (&b""[..], None));
    assert_eq!(read_line_at(buf, 100), (&b""[..], None));

    let buf = b"text\n\n";
    assert_eq!(read_line_at(buf, 0), (&b"text"[..], Some(5)));
    assert_eq!(read_line_at(buf, 5), (&b""[..], None));
}

#[test]
fn test_iter_lines() {
    let lines: Vec<(usize, &[u8])> = iter_lines(b"foo\nbar\nbaz\n");
    assert_eq!(lines, vec![(0, &b"foo"[..]), (4, &b"bar"[..]), (8, &b"baz"[..])]);

    let lines: Vec<(usize, &[u8])> = iter_lines(b"alpha\nomega");
    assert_eq!(lines, vec![(0, &b"alpha"[..]), (6, &b"omega"[..])]);

    let lines: Vec<(usize, &[u8])> = iter_lines(b"\nfoo\n\n");
    assert_eq!(lines, vec![(0, &b""[..]), (1, &b"foo"[..]), (5, &b""[..])]);

    let empty: Vec<(usize, &[u8])> = iter_lines(b"");
    assert!(empty.is_empty());
}

#[test]
fn test_id_for_json_line() {
    assert_eq!(id_for_json_line(br#"{"id":42,"cmd":"true"}"#), Some(42));
    assert_eq!(id_for_json_line(br#"{ "sid":7, "id" :   9001 , "cmd":"make" }"#), Some(9001));
    assert_eq!(id_for_json_line(br#"{"cmd":"echo \"id\"=7","extra":"\"id\"=8"}"#), None);
    assert_eq!(id_for_json_line(br#"{"id":18446744073709551615,"cmd":"max"}"#), Some(u64::MAX));
    assert_eq!(id_for_json_line(br#"{"id":18446744073709551616,"cmd":"overflow"}"#), None);
}

#[test]
fn test_item_count() {
    let history = HistoryFile::create_empty();
    assert_eq!(history.item_count(), 0);

    let history = parse(r#"{"id":100,"cmd":"echo hello"}"#);
    assert_eq!(history.item_count(), 1);

    let data = cat(&[r#"{"id":100,"cmd":"ls"}"#, "\n", r#"{"id":200,"cmd":"pwd"}"#, "\n", r#"{"id":300,"cmd":"cd"}"#]);
    let history = parse(&data);
    assert_eq!(history.item_count(), 3);

    let data = cat(&[r#"{"id":100,"cmd":"ls"}"#, "\n", r#"{"id":100,"exit":0}"#, "\n", r#"{"id":100,"paths":["/tmp"]}"#]);
    let history = parse(&data);
    assert_eq!(history.item_count(), 1);

    let data = cat(&[
        r#"{"id":100,"cmd":"ls"}"#, "\n",
        r#"{"id":100,"exit":0}"#, "\n",
        r#"{"id":200,"cmd":"pwd"}"#, "\n",
        r#"{"id":300,"cmd":"cd"}"#, "\n",
        r#"{"id":300,"exit":1}"#, "\n",
        r#"{"id":300,"paths":["/home"]}"#
    ]);
    let history = parse(&data);
    assert_eq!(history.item_count(), 3);

    let data = cat(&[
        r#"{"id":300,"cmd":"cd"}"#, "\n",
        r#"{"id":100,"cmd":"ls"}"#, "\n",
        r#"{"id":200,"cmd":"pwd"}"#, "\n",
        r#"{"id":100,"exit":0}"#
    ]);
    let history = parse(&data);
    assert_eq!(history.item_count(), 3);
}

#[test]
fn test_item_parsing_single_items() {
    let history = parse(r#"{"id":42,"cmd":"echo hello"}"#);
    let item = history.items().into_iter().next().unwrap();
    assert_item_eq(&item, 42, "echo hello", None, None);

    let history = parse(r#"{"id":999,"cmd":"git commit","exit":1,"paths":["/repo/.git"]}"#);
    let item = history.items().into_iter().next().unwrap();
    assert_item_eq(&item, 999, "git commit", Some(1), Some(vec!["/repo/.git"]));

    let history = parse(r#"{"id":77,"exit":0}"#);
    let item = history.items().into_iter().next().unwrap();
    assert_item_eq(&item, 77, "", Some(0), None);

    let history = parse(r#"{"id":888,"cmd":"echo \u4f60\u597d"}"#);
    let item = history.items().into_iter().next().unwrap();
    assert_item_eq(&item, 888, "echo 你好", None, None);

    let history = parse(r#"{"id":555,"cmd":"killed","exit":-9}"#);
    let item = history.items().into_iter().next().unwrap();
    assert_item_eq(&item, 555, "killed", Some(-9), None);

    let history = parse(r#"{"id":666,"cmd":"test","paths":[]}"#);
    let item = history.items().into_iter().next().unwrap();
    assert_item_eq(&item, 666, "test", None, Some(vec![]));
}

#[test]
fn test_item_parsing_multiple_lines() {
    let data = cat(&[
        r#"{"id":100,"cmd":"ls /tmp"}"#, "\n",
        r#"{"id":100,"exit":0}"#, "\n",
        r#"{"id":100,"paths":["/tmp","/home"]}"#
    ]);
    let history = parse(&data);
    assert_eq!(history.item_count(), 1);
    let item = history.items().into_iter().next().unwrap();
    assert_item_eq(&item, 100, "ls /tmp", Some(0), Some(vec!["/tmp", "/home"]));

    let data = cat(&[
        r#"{"id":200,"exit":127}"#, "\n",
        r#"{"id":200,"cmd":"not_found"}"#, "\n",
        r#"{"id":200,"paths":[]}"#
    ]);
    let history = parse(&data);
    let item = history.items().into_iter().next().unwrap();
    assert_item_eq(&item, 200, "not_found", Some(127), Some(vec![]));

    let data = cat(&[
        r#"{"id":50,"cmd":"test"}"#, "\n",
        r#"{"id":50,"exit":INVALID}"#, "\n",
        r#"{"id":50,"paths":["/valid"]}"#
    ]);
    let history = parse(&data);
    let item = history.items().into_iter().next().unwrap();
    assert_item_eq(&item, 50, "test", None, Some(vec!["/valid"]));
}

#[test]
fn test_item_parsing_multiple_items() {
    let data = cat(&[
        r#"{"id":1,"cmd":"first"}"#, "\n",
        r#"{"id":2,"cmd":"second","exit":0}"#, "\n",
        r#"{"id":3,"cmd":"third"}"#, "\n",
        r#"{"id":3,"paths":["/a","/b","/c"]}"#
    ]);
    let history = parse(&data);
    let items: Vec<HistoryItem> = history.items();
    assert_eq!(items.len(), 3);
    assert_item_eq(&items[0], 1, "first", None, None);
    assert_item_eq(&items[1], 2, "second", Some(0), None);
    assert_item_eq(&items[2], 3, "third", None, Some(vec!["/a", "/b", "/c"]));

    let data = cat(&[
        r#"{"id":300,"cmd":"cd /tmp"}"#, "\n",
        r#"{"id":100,"cmd":"echo start"}"#, "\n",
        r#"{"id":200,"cmd":"ls -la"}"#, "\n",
        r#"{"id":100,"exit":0}"#, "\n",
        r#"{"id":300,"exit":0}"#, "\n",
        r#"{"id":200,"exit":0}"#, "\n",
        r#"{"id":200,"paths":["/home/user"]}"#, "\n",
        r#"{"id":400,"cmd":"pwd"}"#
    ]);
    let history = parse(&data);
    let items: Vec<HistoryItem> = history.items();
    assert_eq!(items.len(), 4);
    assert_item_eq(&items[0], 100, "echo start", Some(0), None);
    assert_item_eq(&items[1], 200, "ls -la", Some(0), Some(vec!["/home/user"]));
    assert_item_eq(&items[2], 300, "cd /tmp", Some(0), None);
    assert_item_eq(&items[3], 400, "pwd", None, None);
}

#[test]
fn test_full_history_parsing_integration() {
    let data = cat(&[
        r#"{"id":1000,"cmd":"git status"}"#, "\n",
        r#"{"id":2000,"cmd":"cargo build","exit":0}"#, "\n",
        r#"{"id":3000,"cmd":"find / -name '*.rs'"}"#, "\n",
        r#"{"id":3000,"exit":1}"#, "\n",
        r#"{"id":3000,"paths":["/usr","/home"]}"#, "\n",
        "not json at all\n",
        r#"{"id":1500,"cmd":"inserted later"}"#, "\n",
        r#"{"id":3000,"extra":"ignored_field"}"#, "\n",
        r#"{"id":18446744073709551614,"cmd":"max id"}"#
    ]);
    let history = parse(&data);
    let items: Vec<HistoryItem> = history.items();
    assert_eq!(items.len(), 5);
    assert_item_eq(&items[0], 1000, "git status", None, None);
    assert_item_eq(&items[1], 1500, "inserted later", None, None);
    assert_item_eq(&items[2], 2000, "cargo build", Some(0), None);
    assert_item_eq(&items[3], 3000, "find / -name '*.rs'", Some(1), Some(vec!["/usr", "/home"]));
    assert_item_eq(&items[4], 18446744073709551614, "max id", None, None);
}

#[test]
fn test_shrink_to_max_records() {
    let data = cat(&[
        r#"{"id":100,"cmd":"first"}"#, "\n",
        r#"{"id":200,"cmd":"second"}"#, "\n",
        r#"{"id":300,"cmd":"third"}"#
    ]);
    let mut history = parse(&data);
    assert_eq!(history.item_count(), 3);
    history.shrink_to_max_records(0);
    assert_eq!(history.item_count(), 0);
    assert!(history.is_empty());

    let mut history = parse(&data);
    history.shrink_to_max_records(5);
    assert_eq!(history.item_count(), 3);
    let items: Vec<HistoryItem> = history.items();
    assert_item_eq(&items[0], 100, "first", None, None);
    assert_item_eq(&items[1], 200, "second", None, None);
    assert_item_eq(&items[2], 300, "third", None, None);

    let mut history = parse(&data);
    history.shrink_to_max_records(3);
    assert_eq!(history.item_count(), 3);

    let mut history = parse(&data);
    history.shrink_to_max_records(1);
    assert_eq!(history.item_count(), 1);
    let items: Vec<HistoryItem> = history.items();
    assert_item_eq(&items[0], 300, "third", None, None);

    let mut history = parse(&data);
    history.shrink_to_max_records(2);
    assert_eq!(history.item_count(), 2);
    let items: Vec<HistoryItem> = history.items();
    assert_item_eq(&items[0], 200, "second", None, None);
    assert_item_eq(&items[1], 300, "third", None, None);

    let data = cat(&[
        r#"{"id":100,"cmd":"first"}"#, "\n",
        r#"{"id":100,"exit":0}"#, "\n",
        r#"{"id":200,"cmd":"second"}"#, "\n",
        r#"{"id":200,"exit":1}"#, "\n",
        r#"{"id":200,"paths":["/tmp"]}"#, "\n",
        r#"{"id":300,"cmd":"third"}"#
    ]);
    let mut history = parse(&data);
    assert_eq!(history.item_count(), 3);
    assert_eq!(history.line_count(), 6);

    history.shrink_to_max_records(2);
    assert_eq!(history.item_count(), 2);
    assert_eq!(history.line_count(), 4);

    let items: Vec<HistoryItem> = history.items();
    assert_item_eq(&items[0], 200, "second", Some(1), Some(vec!["/tmp"]));
    assert_item_eq(&items[1], 300, "third", None, None);

    assert_eq!(history.get_from_back(0).unwrap().id.raw(), 300);
    assert_eq!(history.get_from_back(1).unwrap().id.raw(), 200);
    assert!(history.get_from_back(2).is_none());
}
