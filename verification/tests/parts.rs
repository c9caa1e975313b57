use sticky_least_loaded::{
    expiration_secs_from_env, parse_expiration_secs, select_least_loaded, LoadCounts,
    DEFAULT_SESSION_EXPIRATION_SECS, SESSION_EXPIRATION_ENV, SWEEP_INTERVAL_SECS,
};

use sticky_least_loaded::session::{SessionEntry, SessionTable};

fn by_length(text: &str) -> u64 {
    text.len() as u64
}

fn candidates(list: &[(usize, &str)]) -> Vec<(usize, String)> {
    list.iter().map(|(index, url)| (*index, url.to_string())).collect()
}

#[test]
fn constants() {
    assert_eq!(DEFAULT_SESSION_EXPIRATION_SECS, 7200);
    assert_eq!(SESSION_EXPIRATION_ENV, "VLLM_ROUTER_SLL_SESSION_EXPIRATION_IN_S");
    assert_eq!(SWEEP_INTERVAL_SECS, 60);
}

#[test]
fn expiration_values() {
    assert_eq!(expiration_secs_from_env(None), 7200);
    assert_eq!(expiration_secs_from_env(Some("0")), 0);
    assert_eq!(expiration_secs_from_env(Some("300")), 300);
    assert_eq!(expiration_secs_from_env(Some("\t 300\u{a0}\n")), 300);
    assert_eq!(expiration_secs_from_env(Some("+15")), 15);
    assert_eq!(expiration_secs_from_env(Some("ten")), 7200);
    assert_eq!(expiration_secs_from_env(Some("")), 7200);
    assert_eq!(expiration_secs_from_env(Some("-1")), 7200);
}

#[test]
fn parses_as_the_standard_library_does() {
    let texts = [
        "", " ", "0", "00", "007", "+0", "+", "-", "-0", "++1", "1+", "1 2", "1_000", "12a", "a12",
        "0x10", "1.0", "18446744073709551615", "18446744073709551616", "18446744073709551620",
        "99999999999999999999", "000000000000000000000000000001", "\u{661}", " + 1",
        "\u{2003}42\u{3000}", "\u{b}\u{c}\r5\u{85}", "\u{200b}5", "\u{180e}5", "\u{feff}5",
        "123456789012345678901234567890",
    ];
    for text in texts {
        assert_eq!(parse_expiration_secs(text), text.trim().parse::<u64>().ok(), "{:?}", text);
    }
}

#[test]
fn trims_exactly_white_space() {
    for code in 0..=0x10ffffu32 {
        if let Some(c) = char::from_u32(code) {
            if c.is_whitespace() || code < 0x3100 {
                let text = format!("{}5", c);
                assert_eq!(parse_expiration_secs(&text), text.trim().parse::<u64>().ok());
            }
        }
    }
}

#[test]
fn counts_go_up_and_down() {
    let mut counts = LoadCounts::new();
    assert_eq!(counts.count("a"), 0);
    assert_eq!(counts.increment("a"), 1);
    assert_eq!(counts.increment("a"), 2);
    assert_eq!(counts.increment("b"), 1);
    counts.decrement_count("a");
    assert_eq!(counts.count("a"), 1);
    counts.decrement_count("a");
    assert_eq!(counts.count("a"), 0);
    counts.decrement_count("a");
    assert_eq!(counts.count("a"), 0);
    assert_eq!(counts.count("b"), 1);
    counts.clear();
    assert_eq!(counts.count("b"), 0);
}

#[test]
fn least_load_comes_before_weight() {
    let mut counts = LoadCounts::new();
    counts.increment("longest");
    let list = candidates(&[(4, "longest"), (6, "b"), (7, "ccc"), (9, "dd")]);
    assert_eq!(select_least_loaded(&counts, &list, "key", &by_length), 7);

    counts.increment("ccc");
    counts.increment("b");
    counts.increment("dd");
    assert_eq!(select_least_loaded(&counts, &list, "key", &by_length), 4);
}

#[test]
fn first_candidate_wins_among_equal_weights() {
    let counts = LoadCounts::new();
    let list = candidates(&[(3, "a"), (1, "bb"), (0, "cc")]);
    assert_eq!(select_least_loaded(&counts, &list, "", &by_length), 1);
    assert_eq!(select_least_loaded(&counts, &list, "", &|_: &str| 0u64), 3);
}

#[test]
fn weight_is_the_hash_of_key_colon_url() {
    let counts = LoadCounts::new();
    let list = candidates(&[(0, "a"), (1, "b")]);
    let hash = |text: &str| (text == "key:b") as u64;
    assert_eq!(select_least_loaded(&counts, &list, "key", &hash), 1);
    let hash = |text: &str| (text == "key:a") as u64;
    assert_eq!(select_least_loaded(&counts, &list, "key", &hash), 0);
}

#[test]
fn session_table_moves_the_last_entry_into_a_gap() {
    let mut table = SessionTable::new();
    for (i, id) in ["a", "b", "c"].iter().enumerate() {
        let worker_url = format!("http://{}", id);
        table.insert_new(id, SessionEntry { worker_url, last_access: i as u128 });
    }
    assert_eq!(table.len(), 3);
    table.touch("b", 9);
    table.touch("unknown", 9);
    assert_eq!(table.get("b").map(|e| e.last_access), Some(9));

    assert_eq!(table.remove("a").map(|e| e.worker_url), Some("http://a".to_string()));
    assert!(table.remove("a").is_none());
    assert!(table.get("a").is_none());
    assert_eq!(table.len(), 2);
    assert_eq!(table.entry_at(0).worker_url, "http://c");
    assert_eq!(table.get("c").map(|e| e.last_access), Some(2));

    let (id, entry) = table.remove_at(1);
    assert_eq!(id, "b");
    assert_eq!(entry.worker_url, "http://b");
    assert!(table.get("b").is_none());
    assert_eq!(table.len(), 1);
    table.clear();
    assert_eq!(table.len(), 0);
}
