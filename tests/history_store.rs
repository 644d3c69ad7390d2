use fish_history::{History, HistoryItem, HistoryItemId, HistorySearch, PersistenceMode, SearchDirection, SearchFlags, SearchType};
use rand::Rng;

fn matches(h: &History, mut search: HistorySearch) -> Vec<String> {
    let mut found = vec![];
    while search.go_to_next_match(h, SearchDirection::Backward) {
        found.push(search.current_string().to_string());
    }
    found
}

fn history_contains(h: &mut History, disk: &[u8], text: &str) -> bool {
    if !h.is_loaded() {
        h.load_file_contents(disk.to_vec());
    }
    h.get_history().iter().any(|s| s == text)
}

fn sync(h: &mut History, disk: &mut Vec<u8>) {
    for line in h.take_pending_writes() {
        disk.extend_from_slice(line.as_bytes());
    }
}

fn add_at(h: &mut History, text: &str, ts: u64, nonce: u16) {
    let mut it = HistoryItem::with_id(HistoryItemId::new(ts, nonce));
    it.contents = text.to_string();
    h.add(it, false);
}

fn random_string(rng: &mut impl Rng) -> String {
    let len = rng.random_range(1..=32);
    (0..len).map(|_| char::from(rng.random_range(b'a'..=b'z'))).collect()
}

#[test]
fn test_history_allocates_monotonic_ids() {
    let mut history = History::new_at("id_gen_history", None, 0, 0);
    let mut last_item_id = HistoryItemId::new(0, 0);
    assert!(last_item_id.0 == 0);
    for i in 0..100 {
        history.add_commandline(format!("test {}", i));
        let item_id = history.item_at_index(1).unwrap().id;
        assert!(item_id > last_item_id);
        last_item_id = item_id;
    }
}

#[test]
fn test_history() {
    let items = ["Gamma", "beta", "BetA", "Beta", "alpha", "AlphA", "Alpha", "alph", "ALPH", "ZZZ"];
    let nocase = SearchFlags { ignore_case: true, no_dedup: false };
    let plain = SearchFlags::empty();

    let mut history = History::new("test_history", None);
    history.clear();
    for s in items {
        history.add_commandline(s.to_string());
    }

    let set_expected = |filt: fn(&str) -> bool| {
        let mut expected: Vec<String> = items.iter().filter(|s| filt(s)).map(|s| s.to_string()).collect();
        expected.reverse();
        expected
    };

    let searcher = HistorySearch::new_with("a".to_string(), SearchType::Contains, plain, 0);
    assert_eq!(matches(&history, searcher), set_expected(|s| s.contains('a')));

    let searcher = HistorySearch::new_with("AlPhA".to_string(), SearchType::Contains, nocase, 0);
    assert_eq!(matches(&history, searcher), set_expected(|s| s.to_lowercase().contains("alpha")));

    let searcher = HistorySearch::new_with("et".to_string(), SearchType::Contains, plain, 0);
    assert_eq!(matches(&history, searcher), set_expected(|s| s.contains("et")));

    let searcher = HistorySearch::new_with("be".to_string(), SearchType::Prefix, plain, 0);
    assert_eq!(matches(&history, searcher), set_expected(|s| s.starts_with("be")));

    let searcher = HistorySearch::new_with("be".to_string(), SearchType::Prefix, nocase, 0);
    assert_eq!(matches(&history, searcher), set_expected(|s| s.to_lowercase().starts_with("be")));

    let searcher = HistorySearch::new_with("alph".to_string(), SearchType::Exact, plain, 0);
    assert_eq!(matches(&history, searcher), set_expected(|s| s == "alph"));

    let searcher = HistorySearch::new_with("alph".to_string(), SearchType::Exact, nocase, 0);
    assert_eq!(matches(&history, searcher), set_expected(|s| s.to_lowercase() == "alph"));

    let searcher = HistorySearch::new_with("Alpha".to_string(), SearchType::Contains, plain, 0);
    assert_eq!(matches(&history, searcher), vec!["Alpha".to_string()]);
    history.remove("Alpha");
    let searcher = HistorySearch::new_with("Alpha".to_string(), SearchType::Contains, plain, 0);
    assert_eq!(matches(&history, searcher), Vec::<String>::new());

    // Escaping: items with backslashes and paths come back as they went in.
    let mut before: Vec<HistoryItem> = Vec::new();
    history.clear();
    let _ = history.take_pending_writes();
    let max = 100;
    let mut rng = rand::rng();
    for i in 1..=max {
        let mut value = format!("test item {}", i);
        if i % 3 == 0 {
            value += "(slashies \\\\\\ slashies)";
        }
        let paths: Vec<String> = (0..rng.random_range(0..6)).map(|_| random_string(&mut rng)).collect();
        let mut item = HistoryItem::with_id(HistoryItemId::new(1_000 + i as u64, 0));
        item.contents = value.clone();
        let id = history.add(item, false);
        if !paths.is_empty() {
            let mut update = HistoryItem::with_id(id);
            update.required_paths = paths.clone();
            history.emit_update(update);
        }
        let mut expected_item = HistoryItem::with_id(id);
        expected_item.contents = value;
        expected_item.set_required_paths(paths);
        before.push(expected_item);
    }
    history.save();

    let mut after: Vec<HistoryItem> = Vec::new();
    for i in (1..=100).rev() {
        after.push(history.item_at_index(i).unwrap());
    }
    assert_eq!(before.len(), after.len());
    for i in 0..before.len() {
        assert_eq!(before[i].str(), after[i].str());
        assert_eq!(before[i].timestamp(), after[i].timestamp());
        assert_eq!(before[i].get_required_paths(), after[i].get_required_paths());
    }

    // The record lines written for these items read back the same.
    let mut disk: Vec<u8> = Vec::new();
    for line in history.take_pending_writes() {
        disk.extend_from_slice(line.as_bytes());
    }
    let mut reader = History::new_at("test_history", None, u64::MAX, 0);
    reader.load_file_contents(disk);
    for i in (1..=100).rev() {
        let back = reader.item_at_index(i).unwrap();
        let orig = &before[100 - i];
        assert_eq!(orig.str(), back.str());
        assert_eq!(orig.get_required_paths(), back.get_required_paths());
    }

    history.add_commandline("test-command".to_string());
    assert!(history.get_history().iter().any(|s| s == "test-command"));
    history.clear();
}

#[test]
fn test_history_merge() {
    const COUNT: usize = 3;
    let name = "merge_test";
    let mut disk: Vec<u8> = Vec::new();
    let mut hists: Vec<History> = (0..COUNT).map(|i| History::new_at(name, None, 1_000, (i as u16) << 8)).collect();
    let texts = ["History 1", "History 2", "History 3"];
    let alt_texts = ["History Alt 1", "History Alt 2", "History Alt 3"];

    for hist in hists.iter_mut() {
        hist.clear();
    }

    // Each item is added after the histories were created.
    for i in 0..COUNT {
        add_at(&mut hists[i], texts[i], 2_000, (i as u16) << 8);
        sync(&mut hists[i], &mut disk);
    }
    for hist in hists.iter_mut() {
        hist.save();
    }

    for i in 0..COUNT {
        for j in 0..COUNT {
            let does_contain = history_contains(&mut hists[i], &disk, texts[j]);
            assert_eq!(i == j, does_contain);
        }
    }

    // A history created later sees everything.
    let mut everything = History::new_at(name, None, 3_000, 0);
    for text in texts {
        assert!(history_contains(&mut everything, &disk, text));
    }

    for hist in hists.iter_mut() {
        hist.incorporate_external_changes_at(3_000);
    }

    // Everyone has the items in the same order.
    for hist in hists.iter_mut() {
        hist.load_file_contents(disk.clone());
    }
    let hist_vals1 = hists[0].get_history();
    for hist in hists.iter() {
        assert_eq!(hist_vals1, hist.get_history());
    }

    for i in 0..COUNT {
        add_at(&mut hists[i], alt_texts[i], 4_000, ((i as u16) << 8) + 1);
        sync(&mut hists[i], &mut disk);
    }
    for i in 0..COUNT {
        for j in 0..COUNT {
            assert!(history_contains(&mut hists[i], &disk, texts[j]));
            let does_contain = history_contains(&mut hists[i], &disk, alt_texts[j]);
            assert_eq!(i == j, does_contain);
        }
    }

    // Taking in external changes does not drop items.
    let more_texts = ["Item_#3496_1", "Item_#3496_2", "Item_#3496_3", "Item_#3496_4", "Item_#3496_5", "Item_#3496_6"];
    let (writer, rest) = hists.split_at_mut(1);
    let writer = &mut writer[0];
    let reader = &mut rest[0];
    for i in 0..more_texts.len() {
        let ts = 5_000 + 1_000 * i as u64;
        add_at(writer, more_texts[i], ts, 0x10 + i as u16);
        sync(writer, &mut disk);
        writer.incorporate_external_changes_at(ts + 500);
        reader.incorporate_external_changes_at(ts + 500);
        for text in more_texts.iter().take(i) {
            assert!(history_contains(reader, &disk, text));
        }
    }
    everything.clear();
}

#[test]
fn test_history_item_cwd() {
    let mut history = History::new_at("test_cwd", None, 0, 0);
    let no_args: Vec<String> = Vec::new();
    history.add_pending_with_file_detection("echo test1", &no_args, "/usr/local/bin/", Some("/home/testuser"), PersistenceMode::Disk);
    history.add_pending_with_file_detection("echo test2", &no_args, "/home/testuser/Documents/", Some("/home/testuser"), PersistenceMode::Disk);
    history.add_pending_with_file_detection("echo test3", &no_args, "/", Some("/home/testuser"), PersistenceMode::Disk);
    history.resolve_pending();
    assert_eq!(history.item_at_index(3).unwrap().cwd.as_deref(), Some("/usr/local/bin"));
    assert_eq!(history.item_at_index(2).unwrap().cwd.as_deref(), Some("~/Documents"));
    assert_eq!(history.item_at_index(1).unwrap().cwd.as_deref(), Some("/"));
}
