use fish_history::paths::expand_path;
use fish_history::history::{cwd_for_item, history_namespace_from_var, in_private_mode, string_could_be_path, time_to_seconds};
use fish_history::id::{base64_decode_u64, base64_encode_u64};
use fish_history::search::collect_matches;
use fish_history::{History, HistoryFile, HistoryItem, HistoryItemId, HistorySearch, PersistenceMode, SearchDirection, SearchFlags, SearchType};

fn cat(parts: &[&str]) -> String {
    parts.concat()
}


fn item(id: u64, text: &str, mode: PersistenceMode) -> HistoryItem {
    let mut it = HistoryItem::with_id(HistoryItemId::from_raw(id));
    it.contents = text.to_string();
    it.persist_mode = mode;
    it
}

fn store() -> History {
    History::new_at("test", None, 1_000_000, 0)
}

fn id_text(x: u64) -> String {
    String::from_utf8(base64_encode_u64(x)).unwrap()
}

#[test]
fn fragments_reassemble_into_one_item() {
    let data = cat(&[
        r#"{"id":"AAAAAAAAA+g","cmd":"ls /tmp"}"#, "\n",
        r#"{"id":"AAAAAAAAA+g","exit":0}"#, "\n",
        r#"{"id":"AAAAAAAAA+g","paths":["/tmp","/home"]}"#, "\n"
    ]);
    let f = HistoryFile::from_data(data.as_bytes().to_vec(), None);
    let items = f.items();
    assert_eq!(items.len(), 1);
    assert_eq!(items[0].id.raw(), 1000);
    assert_eq!(items[0].contents, "ls /tmp");
    assert_eq!(items[0].exit_code, Some(0));
    assert_eq!(items[0].required_paths, vec!["/tmp".to_string(), "/home".to_string()]);
}

#[test]
fn out_of_order_lines_are_sorted_by_id() {
    let data = cat(&[
        r#"{"id":300,"cmd":"c"}"#, "\n",
        r#"{"id":100,"cmd":"a"}"#, "\n",
        r#"{"id":200,"cmd":"b"}"#, "\n",
        r#"{"id":100,"exit":3}"#, "\n"
    ]);
    let f = HistoryFile::from_data(data.as_bytes().to_vec(), None);
    let items = f.items();
    let ids: Vec<u64> = items.iter().map(|i| i.id.raw()).collect();
    assert_eq!(ids, vec![100, 200, 300]);
    assert_eq!(items[0].contents, "a");
    assert_eq!(items[0].exit_code, Some(3));
}

#[test]
fn cutoff_hides_future_lines() {
    let ids = [1000u64, 2000, 3000].map(|s| HistoryItemId::new(s * 1000, 0).raw());
    let data = format!(
        "{{\"id\":{},\"cmd\":\"one\"}}\n{{\"id\":{},\"cmd\":\"two\"}}\n{{\"id\":{},\"cmd\":\"three\"}}\n",
        ids[0], ids[1], ids[2]
    );
    let cut = HistoryFile::from_data(data.as_bytes().to_vec(), Some(2000 * 1000));
    assert_eq!(cut.item_count(), 2);
    let all = HistoryFile::from_data(data.as_bytes().to_vec(), None);
    assert_eq!(all.item_count(), 3);
}

#[test]
fn backward_search_deduplicates() {
    let mut h = store();
    h.add(item(1, "A", PersistenceMode::Memory), false);
    h.add(item(2, "B", PersistenceMode::Memory), false);
    h.add(item(3, "A", PersistenceMode::Memory), false);
    let mut s = HistorySearch::new_with(String::new(), SearchType::Contains, SearchFlags::empty(), 0);
    assert!(s.go_to_next_match(&h, SearchDirection::Backward));
    assert_eq!(s.current_string(), "A");
    assert!(s.go_to_next_match(&h, SearchDirection::Backward));
    assert_eq!(s.current_string(), "B");
    assert!(!s.go_to_next_match(&h, SearchDirection::Backward));
    let found = collect_matches(&h, String::new(), SearchType::Contains, SearchFlags::empty(), 10);
    let texts: Vec<&str> = found.iter().map(|i| i.str()).collect();
    assert_eq!(texts, vec!["A", "B"]);
}

#[test]
fn path_update_reaches_pending_item() {
    let mut h = store();
    let args = vec!["/tmp/exists".to_string(), "-v".to_string(), "/tmp/missing".to_string()];
    let (id, candidates) = h.add_pending_with_file_detection("cmd /tmp/exists /tmp/missing", &args, "/tmp/", None, PersistenceMode::Memory);
    assert_eq!(candidates, vec!["/tmp/exists".to_string(), "/tmp/missing".to_string()]);
    let mut update = HistoryItem::with_id(id);
    update.required_paths = vec!["/tmp/exists".to_string()];
    h.emit_update(update);
    h.resolve_pending();
    let it = h.item_at_index(1).unwrap();
    assert_eq!(it.required_paths, vec!["/tmp/exists".to_string()]);
    assert_eq!(it.cwd.as_deref(), Some("/tmp"));
}

#[test]
fn record_line_round_trips() {
    let mut it = item(0x1234_5678_9abc, "echo \"hi\"\n\\ there", PersistenceMode::Disk);
    it.required_paths = vec!["/a b".to_string(), "/c".to_string()];
    it.exit_code = Some(-9);
    it.duration = Some(1500);
    it.cwd = Some("~/src".to_string());
    it.session_id = Some(77);
    let line = it.to_json_line();
    assert!(line.starts_with(&format!("{{\"id\":\"{}\",\"cmd\":", id_text(0x1234_5678_9abc))));
    assert!(line.ends_with("}\n"));
    let f = HistoryFile::from_data(line.as_bytes().to_vec(), None);
    let back = &f.items()[0];
    assert_eq!(back.id, it.id);
    assert_eq!(back.contents, it.contents);
    assert_eq!(back.required_paths, it.required_paths);
    assert_eq!(back.exit_code, it.exit_code);
    assert_eq!(back.duration, it.duration);
    assert_eq!(back.cwd, it.cwd);
    assert_eq!(back.session_id, it.session_id);
    let again = HistoryFile::from_data(back.to_json_line().as_bytes().to_vec(), None);
    assert_eq!(again.items()[0].to_json_line(), line);
}

#[test]
fn record_line_exact_text() {
    let mut it = item(1000, "ls", PersistenceMode::Disk);
    it.exit_code = Some(0);
    assert_eq!(it.to_json_line(), "{\"id\":\"AAAAAAAAA-g\",\"cmd\":\"ls\",\"exit\":0}\n");
}

#[test]
fn id_timestamp_round_trip() {
    let id = HistoryItemId::new(1_700_000_000_123, 42);
    assert_eq!(id.timestamp(), 1_700_000_000_123);
    assert_eq!(id.raw(), (1_700_000_000_123u64 << 16) | 42);
    assert_eq!(HistoryItemId::from_raw(id.raw()), id);
}

#[test]
fn base64_round_trips() {
    for x in [0u64, 1, 1000, u64::MAX, 0x0123_4567_89ab_cdef] {
        let t = base64_encode_u64(x);
        assert_eq!(t.len(), 11);
        assert_eq!(base64_decode_u64(&t), Some(x));
    }
    assert_eq!(base64_encode_u64(1000), b"AAAAAAAAA-g".to_vec());
    assert_eq!(base64_decode_u64(b"AAAAAAAAA+g"), Some(1000));
    assert_eq!(base64_decode_u64(b"AAAAAAAAA-h"), None);
    assert_eq!(base64_decode_u64(b"AAAAAAAAA"), None);
    assert_eq!(base64_decode_u64(b"AAAAAAAAA!g"), None);
}

#[test]
fn index_bounds_have_no_entry() {
    let mut h = store();
    h.add(item(1, "one", PersistenceMode::Memory), false);
    h.load_file_contents(b"{\"id\":5,\"cmd\":\"old\"}\n".to_vec());
    assert_eq!(h.size(), 2);
    assert!(h.item_at_index(0).is_none());
    assert!(h.item_at_index(h.size() + 1).is_none());
    assert_eq!(h.item_at_index(1).unwrap().contents, "one");
    assert_eq!(h.item_at_index(2).unwrap().contents, "old");
}

#[test]
fn ephemeral_then_disk_leaves_one_item() {
    let mut h = store();
    h.add(item(1, "eph", PersistenceMode::Ephemeral), false);
    assert_eq!(h.size(), 1);
    h.add(item(2, "disk", PersistenceMode::Disk), false);
    assert_eq!(h.size(), 1);
    assert_eq!(h.item_at_index(1).unwrap().contents, "disk");
    let writes = h.take_pending_writes();
    assert_eq!(writes.len(), 1);
    assert!(writes[0].contains("\"cmd\":\"disk\""));
}

#[test]
fn added_item_is_first_and_size_grows() {
    let mut h = store();
    for k in 0..5u64 {
        let before = h.size();
        h.add(item(k + 10, &format!("cmd {}", k), PersistenceMode::Disk), false);
        assert_eq!(h.size(), before + 1);
        assert_eq!(h.item_at_index(1).unwrap().id.raw(), k + 10);
    }
}

#[test]
fn pending_item_is_hidden_until_resolved() {
    let mut h = store();
    h.add(item(1, "first", PersistenceMode::Memory), false);
    h.add(item(2, "second", PersistenceMode::Memory), true);
    assert_eq!(h.size(), 1);
    assert_eq!(h.item_at_index(1).unwrap().contents, "first");
    assert_eq!(h.get_history(), vec!["first".to_string()]);
    h.resolve_pending();
    assert_eq!(h.size(), 2);
    assert_eq!(h.item_at_index(1).unwrap().contents, "second");
}

#[test]
fn update_keeps_order_and_count() {
    let mut h = store();
    h.add(item(1, "a", PersistenceMode::Disk), false);
    h.add(item(2, "b", PersistenceMode::Disk), false);
    let _ = h.take_pending_writes();
    let mut u = HistoryItem::with_id(HistoryItemId::from_raw(1));
    u.exit_code = Some(2);
    h.emit_update(u);
    assert_eq!(h.size(), 2);
    assert_eq!(h.item_at_index(1).unwrap().contents, "b");
    assert_eq!(h.item_at_index(2).unwrap().exit_code, Some(2));
    let writes = h.take_pending_writes();
    assert_eq!(writes, vec![format!("{{\"id\":\"{}\",\"exit\":2}}\n", id_text(1))]);
}

#[test]
fn incorporate_is_idempotent() {
    let mut h = store();
    h.add(item(1, "a", PersistenceMode::Memory), false);
    h.incorporate_external_changes_at(5);
    assert_eq!(h.size(), 1);
    h.incorporate_external_changes_at(2_000_000);
    assert_eq!(h.size(), 0);
    assert_eq!(h.boundary_timestamp(), 2_000_000);
    h.incorporate_external_changes_at(2_000_000);
    assert_eq!(h.boundary_timestamp(), 2_000_000);
    assert_eq!(h.size(), 0);
}

#[test]
fn shrink_is_idempotent_and_monotonic() {
    let data = cat(&[r#"{"id":1,"cmd":"a"}"#, "\n", r#"{"id":2,"cmd":"b"}"#, "\n", r#"{"id":3,"cmd":"c"}"#, "\n", r#"{"id":4,"cmd":"d"}"#, "\n"]);
    let mut counts = Vec::new();
    for k in 0..6usize {
        let mut f = HistoryFile::from_data(data.as_bytes().to_vec(), None);
        f.shrink_to_max_records(k);
        let once: Vec<u64> = f.items().iter().map(|i| i.id.raw()).collect();
        f.shrink_to_max_records(k);
        let twice: Vec<u64> = f.items().iter().map(|i| i.id.raw()).collect();
        assert_eq!(once, twice);
        counts.push(f.item_count());
    }
    assert_eq!(counts, vec![0, 1, 2, 3, 4, 4]);
}

#[test]
fn remove_and_history_listing() {
    let mut h = store();
    h.add(item(1, "x", PersistenceMode::Memory), false);
    h.add(item(2, "y", PersistenceMode::Memory), false);
    h.add(item(3, "x", PersistenceMode::Memory), false);
    h.load_file_contents(b"{\"id\":1,\"cmd\":\"z\"}\n{\"id\":2,\"cmd\":\"y\"}\n".to_vec());
    assert_eq!(h.get_history(), vec!["x".to_string(), "y".to_string(), "z".to_string()]);
    h.remove("x");
    assert_eq!(h.size(), 3);
    assert!(h.save());
    let (text, n) = h.rewritten_contents(b"{\"id\":1,\"cmd\":\"x\"}\n{\"id\":2,\"cmd\":\"keep\"}\n".to_vec());
    assert_eq!(n, 1);
    assert_eq!(text, format!("{{\"id\":\"{}\",\"cmd\":\"keep\"}}\n", id_text(2)));
    let map = h.items_at_indexes(vec![1, 1, 9]);
    assert_eq!(map.get(&1).map(|s| s.as_str()), Some("y"));
    assert_eq!(map.get(&9).map(|s| s.as_str()), Some(""));
}

#[test]
fn case_insensitive_and_glob_search() {
    let mut h = store();
    h.add(item(1, "Echo HELLO", PersistenceMode::Memory), false);
    h.add(item(2, "ls -la\ncat file", PersistenceMode::Memory), false);
    let flags = SearchFlags { ignore_case: true, no_dedup: false };
    let found = collect_matches(&h, "hello".to_string(), SearchType::Contains, flags, 10);
    assert_eq!(found.len(), 1);
    let found = collect_matches(&h, "cat".to_string(), SearchType::LinePrefix, SearchFlags::empty(), 10);
    assert_eq!(found.len(), 1);
    let found = collect_matches(&h, "E*O".to_string(), SearchType::PrefixGlob, SearchFlags::empty(), 10);
    assert_eq!(found.len(), 1);
    let found = collect_matches(&h, "l? -".to_string(), SearchType::ContainsGlob, SearchFlags::empty(), 10);
    assert_eq!(found.len(), 1);
    let found = collect_matches(&h, "lcf".to_string(), SearchType::ContainsSubsequence, SearchFlags::empty(), 10);
    assert_eq!(found.len(), 1);
    let found = collect_matches(&h, "ls".to_string(), SearchType::Exact, SearchFlags::empty(), 10);
    assert_eq!(found.len(), 0);
    let (ok, items) = h.search(SearchType::Contains, &vec![String::new()], 10, true, false);
    assert!(!ok);
    assert!(items.is_empty());
    let (ok, items) = h.search(SearchType::Contains, &vec![], 1, true, true);
    assert!(ok);
    assert_eq!(items.len(), 1);
}

#[test]
fn bash_import_filters_lines() {
    let mut h = store();
    let data = b"ls -la\n# comment\necho `date`\n  git status  \n[[ -f x ]]\ncat <<EOF\n\nmake\n";
    h.populate_from_bash_at(data, 500);
    assert_eq!(h.get_history(), vec!["make".to_string(), "git status".to_string(), "ls -la".to_string()]);
    assert_eq!(h.item_at_index(3).unwrap().id.timestamp(), 500);
    assert_eq!(h.item_at_index(1).unwrap().id.timestamp(), 502);
}

#[test]
fn namespace_and_private_mode() {
    assert_eq!(history_namespace_from_var(None), "fish");
    assert_eq!(history_namespace_from_var(Some("work_1".to_string())), "work_1");
    assert_eq!(history_namespace_from_var(Some(String::new())), "");
    assert_eq!(history_namespace_from_var(Some("bad name!".to_string())), "fish");
    assert!(in_private_mode(Some("1".to_string())));
    assert!(!in_private_mode(Some(String::new())));
    assert!(!in_private_mode(None));
    assert!(string_could_be_path("/tmp"));
    assert!(!string_could_be_path("-v"));
    assert!(!string_could_be_path(""));
    assert_eq!(time_to_seconds(5_999), 5);
}

#[test]
fn cwd_is_recorded_with_tilde() {
    assert_eq!(cwd_for_item("/usr/local/bin/", Some("/home/testuser")), "/usr/local/bin");
    assert_eq!(cwd_for_item("/home/testuser/Documents/", Some("/home/testuser")), "~/Documents");
    assert_eq!(cwd_for_item("/", Some("/home/testuser")), "/");
    assert_eq!(cwd_for_item("/home/testuser/", Some("/home/testuser/")), "~");
}

#[test]
fn clear_session_and_clear() {
    let mut h = store();
    h.add(item(1, "a", PersistenceMode::Memory), false);
    h.clear_session();
    assert_eq!(h.size(), 0);
    h.add(item(2, "b", PersistenceMode::Ephemeral), false);
    h.remove_ephemeral_items();
    assert!(h.is_empty());
    h.add(item(3, "c", PersistenceMode::Memory), false);
    h.clear();
    assert!(h.is_empty());
    assert!(!h.is_default());
    assert!(History::new("fish", None).is_default());
}

#[test]
fn invalid_utf8_line_is_dropped() {
    let mut data = b"{\"id\":7,\"cmd\":\"ok\"}\n".to_vec();
    data.extend_from_slice(b"{\"id\":7,\"cmd\":\"\xff\"}\n");
    let f = HistoryFile::from_data(data, None);
    assert_eq!(f.items()[0].contents, "ok");
}

#[test]
fn cutoff_keeps_lines_of_the_cutoff_millisecond() {
    let same_ms = HistoryItemId::new(5_000, 7).raw();
    let later = HistoryItemId::new(5_001, 0).raw();
    let data = format!("{{\"id\":{},\"cmd\":\"now\"}}\n{{\"id\":{},\"cmd\":\"later\"}}\n", same_ms, later);
    let f = HistoryFile::from_data(data.as_bytes().to_vec(), Some(5_000));
    let items = f.items();
    assert_eq!(items.len(), 1);
    assert_eq!(items[0].contents, "now");
}

#[test]
fn path_expansion_uses_home_and_variables() {
    let vars = vec![("HOME".to_string(), "/home/u".to_string()), ("DIR".to_string(), "src".to_string())];
    assert_eq!(expand_path("~/x", &vars).as_deref(), Some("/home/u/x"));
    assert_eq!(expand_path("~", &vars).as_deref(), Some("/home/u"));
    assert_eq!(expand_path("$HOME/$DIR/a", &vars).as_deref(), Some("/home/u/src/a"));
    assert_eq!(expand_path("~other", &vars).as_deref(), Some("~other"));
    assert_eq!(expand_path("$NOPE/a", &vars), None);
    assert_eq!(expand_path("(cmd)", &vars), None);
    assert_eq!(expand_path("*.rs", &vars).as_deref(), Some("*.rs"));
}

#[test]
fn glob_backslash_makes_wildcards_literal() {
    let mut h = store();
    h.add(item(1, "a*b", PersistenceMode::Memory), false);
    h.add(item(2, "axb", PersistenceMode::Memory), false);
    let found = collect_matches(&h, "a\\*b".to_string(), SearchType::PrefixGlob, SearchFlags::empty(), 10);
    let texts: Vec<&str> = found.iter().map(|i| i.str()).collect();
    assert_eq!(texts, vec!["a*b"]);
    let found = collect_matches(&h, "a*b".to_string(), SearchType::PrefixGlob, SearchFlags::empty(), 10);
    assert_eq!(found.len(), 2);
}
