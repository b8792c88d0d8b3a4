use predict::{
    dedup_sorted, dictionary_entries, github_emoji_shortcodes, load_word_freq_data,
    math_symbol_shortcodes, parse_word_freq_line, process_dictionary, str_lt, symbol_table_of,
    write_symbols_and_shortcodes, BuildError, InvalidParseError, Predictor,
};

fn pairs(list: &[(&str, &str)]) -> Vec<(String, String)> {
    list.iter().map(|(a, b)| (a.to_string(), b.to_string())).collect()
}

fn strings(list: &[&str]) -> Vec<String> {
    list.iter().map(|s| s.to_string()).collect()
}

const EMOJI: &str = "https://github.githubassets.com/images/icons/emoji/unicode/";

#[test]
fn emoji_listing_keeps_parsable_named_codes() {
    let listing = pairs(&[
        ("+1", &format!("{}1f44d.png?v8", EMOJI)),
        ("u5272", &format!("{}1f239.png?v8", EMOJI)),
        ("bowtie", "https://github.githubassets.com/images/icons/emoji/bowtie.png?v8"),
        ("flag-ac", &format!("{}1f1e6-1f1e8.png?v8", EMOJI)),
        ("u", &format!("{}2602.png?v8", EMOJI)),
    ]);
    assert_eq!(
        github_emoji_shortcodes(&listing),
        pairs(&[("+1", "👍"), ("flag-ac", "🇦🇨"), ("u", "☂")])
    );
}

#[test]
fn math_records_filtered_by_whitelist() {
    let data = "# code point;class;char;entity name;entity set;note;CHARACTER NAME\n\
                0021;N;!;excl;ISONUM;;EXCLAMATION MARK\n\
                2200;U;∀;forall;ISOTECH;;FOR ALL\n\
                2203;U;∃;exist;ISOTECH;;THERE EXISTS\n";
    let whitelist = strings(&["∀", "∃"]);
    assert_eq!(
        math_symbol_shortcodes(data.as_bytes(), &whitelist),
        pairs(&[("forall", "∀"), ("exist", "∃")])
    );
    assert!(math_symbol_shortcodes(data.as_bytes(), &Vec::new()).is_empty());
}

#[test]
fn symbol_table_numbers_distinct_symbols() {
    let (table, entries) = symbol_table_of(&pairs(&[("a", "x"), ("b", "y"), ("c", "x")]));
    assert_eq!(table, strings(&["x", "y"]));
    assert_eq!(
        entries,
        vec![("a".to_string(), 0), ("b".to_string(), 1), ("c".to_string(), 0)]
    );
}

#[test]
fn shortcode_files_round_trip_through_predictor() {
    let files = write_symbols_and_shortcodes(pairs(&[
        ("umbrella", "☂"),
        ("forall", "∀"),
        ("all", "∀"),
    ]))
    .ok()
    .unwrap();
    assert_eq!(files.shortcode_count, 3);
    assert_eq!(files.symbol_count, 2);
    let words = process_dictionary(&strings(&["Umbrella"]), &vec![("umbrella".to_string(), 9)])
        .ok()
        .unwrap();
    let predictor =
        Predictor::load(words.dictionary, files.shortcodes, &files.symbols).unwrap();
    assert_eq!(
        predictor.symbol("").unwrap(),
        pairs(&[("all", "∀"), ("forall", "∀"), ("umbrella", "☂")])
    );
    assert_eq!(predictor.word("u").unwrap(), vec!["umbrella"]);
}

#[test]
fn duplicate_shortcodes_fail_the_build() {
    let r = write_symbols_and_shortcodes(pairs(&[("x", "1"), ("x", "2")]));
    assert!(matches!(r, Err(BuildError::Fst(_))));
}

#[test]
fn word_freq_lines() {
    assert!(parse_word_freq_line("").is_none());
    let (w, n) = parse_word_freq_line("The\t23135851162").unwrap().ok().unwrap();
    assert_eq!((w.as_str(), n), ("the", 23135851162));
    let (w, n) = parse_word_freq_line("a\tb\t7").unwrap().ok().unwrap();
    assert_eq!((w.as_str(), n), ("a", 7));
    assert!(matches!(
        parse_word_freq_line("lonely"),
        Some(Err(InvalidParseError::WordFreq(ref l))) if l == "lonely"
    ));
    assert!(matches!(
        parse_word_freq_line("word\tmany"),
        Some(Err(InvalidParseError::WordFreq(_)))
    ));
}

#[test]
fn word_freq_data_stops_at_bad_line() {
    let ok = load_word_freq_data(&strings(&["the\t100", "", "Of\t50"])).ok().unwrap();
    assert_eq!(ok, vec![("the".to_string(), 100), ("of".to_string(), 50)]);
    assert!(matches!(
        load_word_freq_data(&strings(&["the\t100", "bad", "x\t1"])),
        Err(InvalidParseError::WordFreq(ref l)) if l == "bad"
    ));
}

#[test]
fn dictionary_lowercases_sorts_and_counts() {
    let lines = strings(&["Little", "lit", "little", "Literature"]);
    let freq = vec![
        ("little".to_string(), 100),
        ("lit".to_string(), 10),
        ("little".to_string(), 120),
    ];
    let (entries, found) = dictionary_entries(&lines, &freq);
    assert_eq!(
        entries,
        vec![
            ("lit".to_string(), 10),
            ("literature".to_string(), 0),
            ("little".to_string(), 120)
        ]
    );
    assert_eq!(found, 2);
    let file = process_dictionary(&lines, &freq).ok().unwrap();
    assert_eq!(file.entry_count, 3);
    assert_eq!(file.with_freq, 2);
}

#[test]
fn dedup_and_byte_order() {
    assert_eq!(dedup_sorted(&strings(&["a", "a", "b", "b", "b", "c"])), strings(&["a", "b", "c"]));
    assert!(str_lt("ab", "b"));
    assert!(str_lt("a", "ab"));
    assert!(!str_lt("ab", "ab"));
    assert!(!str_lt("b", "ab"));
    assert!(str_lt("Z", "a"));
    assert!(str_lt("z", "é"));
}
