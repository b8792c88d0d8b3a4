use predict::{build_fst, PredictionError, Predictor};

fn entries(list: &[(&str, u64)]) -> Vec<(String, u64)> {
    list.iter().map(|(k, v)| (k.to_string(), *v)).collect()
}

fn fixture() -> Predictor {
    let words = entries(&[
        ("angel", 50),
        ("anger", 80),
        ("angle", 80),
        ("angry", 30),
        ("lit", 10),
        ("literal", 40),
        ("literature", 70),
        ("little", 100),
        ("liturgy", 5),
    ]);
    let codes = entries(&[("eq", 0), ("equiv", 1), ("u", 2), ("umbrella", 3)]);
    let symbols: Vec<String> = vec!["=".into(), "≡".into(), "∪".into(), "☂".into()];
    Predictor::load(
        build_fst(&words).unwrap(),
        build_fst(&codes).unwrap(),
        &bincode::serialize(&symbols).unwrap(),
    )
    .unwrap()
}

fn symbol_test(predictor: &Predictor, head: &str) -> Vec<(String, String)> {
    let symbol_results = predictor.symbol(head).unwrap();
    println!("symbols for {head}", head = head);
    for (shortcode, symbol) in symbol_results.iter() {
        println!("{shortcode} : {symbol}", shortcode = shortcode, symbol = symbol);
    }
    symbol_results
}

fn word_test(predictor: &Predictor, head: &str) -> Vec<String> {
    let word_results = predictor.word(head).unwrap();
    println!("words for {head}:", head = head);
    for word in word_results.iter() {
        println!("{word}", word = word);
    }
    word_results
}

#[test]
fn main() {
    let predictor = fixture();
    symbol_test(&predictor, "eq");
    symbol_test(&predictor, "u");
    word_test(&predictor, "lit");
    word_test(&predictor, "ang");
    word_test(&predictor, "Lit");
    word_test(&predictor, "LiT");
}

#[test]
fn word_ranks_by_frequency() {
    let predictor = fixture();
    assert_eq!(
        word_test(&predictor, "lit"),
        vec!["little", "literature", "literal", "lit", "liturgy"]
    );
}

#[test]
fn word_equal_frequencies_keep_key_order() {
    let predictor = fixture();
    assert_eq!(word_test(&predictor, "ang"), vec!["anger", "angle", "angel", "angry"]);
}

#[test]
fn word_title_cased_query_capitalizes() {
    let predictor = fixture();
    assert_eq!(
        word_test(&predictor, "Lit"),
        vec!["Little", "Literature", "Literal", "Lit", "Liturgy"]
    );
}

#[test]
fn word_all_capitals_is_not_title_cased() {
    let predictor = fixture();
    assert_eq!(
        word_test(&predictor, "LIT"),
        vec!["little", "literature", "literal", "lit", "liturgy"]
    );
    assert_eq!(
        word_test(&predictor, "LiT"),
        vec!["little", "literature", "literal", "lit", "liturgy"]
    );
}

#[test]
fn word_without_match_is_empty() {
    let predictor = fixture();
    assert_eq!(word_test(&predictor, "zebra"), Vec::<String>::new());
    assert_eq!(word_test(&predictor, "littler"), Vec::<String>::new());
}

#[test]
fn word_returns_at_most_twenty_five() {
    let mut list = Vec::new();
    for i in 0..40u64 {
        list.push((format!("pre{:02}", i), (i * 7) % 13));
    }
    let dictionary = build_fst(&list).unwrap();
    let codes = build_fst(&Vec::new()).unwrap();
    let symbols: Vec<String> = Vec::new();
    let predictor =
        Predictor::load(dictionary, codes, &bincode::serialize(&symbols).unwrap()).unwrap();
    let words = predictor.word("pre").unwrap();
    assert_eq!(words.len(), 25);
    assert_eq!(predict::WORD_COUNT, 25);
    let freq = |w: &String| list.iter().find(|(k, _)| k == w).unwrap().1;
    for pair in words.windows(2) {
        assert!(freq(&pair[0]) >= freq(&pair[1]));
    }
    for w in words.iter() {
        assert!(w.starts_with("pre"));
    }
    let mut ranked = list.clone();
    ranked.sort_by(|a, b| b.1.cmp(&a.1));
    let expected: Vec<String> = ranked.into_iter().take(25).map(|(k, _)| k).collect();
    assert_eq!(words, expected);
    assert_eq!(words[0], "pre11");
}

#[test]
fn symbol_resolves_shortcodes_in_key_order() {
    let predictor = fixture();
    assert_eq!(
        symbol_test(&predictor, "eq"),
        vec![("eq".to_string(), "=".to_string()), ("equiv".to_string(), "≡".to_string())]
    );
    assert_eq!(
        symbol_test(&predictor, "u"),
        vec![("u".to_string(), "∪".to_string()), ("umbrella".to_string(), "☂".to_string())]
    );
}

#[test]
fn symbol_matching_is_case_sensitive() {
    let predictor = fixture();
    assert_eq!(symbol_test(&predictor, "EQ"), Vec::<(String, String)>::new());
    for (code, _) in symbol_test(&predictor, "equ") {
        assert!(code.starts_with("equ"));
    }
}

#[test]
fn symbol_reports_missing_symbol() {
    let codes = entries(&[("alpha", 0), ("beta", 7), ("gamma", 9)]);
    let symbols: Vec<String> = vec!["α".into()];
    let predictor = Predictor::load(
        build_fst(&Vec::new()).unwrap(),
        build_fst(&codes).unwrap(),
        &bincode::serialize(&symbols).unwrap(),
    )
    .unwrap();
    assert_eq!(
        predictor.symbol("a").unwrap(),
        vec![("alpha".to_string(), "α".to_string())]
    );
    match predictor.symbol("") {
        Err(PredictionError::MissingSymbol(code, id)) => {
            assert_eq!(code, "beta");
            assert_eq!(id, 7);
        }
        _ => panic!("expected a missing symbol"),
    }
}

#[test]
fn queries_are_repeatable() {
    let predictor = fixture();
    assert_eq!(predictor.word("an").unwrap(), predictor.word("an").unwrap());
    assert_eq!(predictor.symbol("e").unwrap(), predictor.symbol("e").unwrap());
}

#[test]
fn build_then_load_round_trip() {
    let predictor = fixture();
    assert_eq!(predictor.word("literat").unwrap(), vec!["literature"]);
    assert_eq!(
        predictor.symbol("umbrella").unwrap(),
        vec![("umbrella".to_string(), "☂".to_string())]
    );
}

#[test]
fn non_utf8_key_is_an_fst_error() {
    let mut b = fst::MapBuilder::memory();
    b.insert(b"ab", 1).unwrap();
    b.insert([b'a', b'c', 0xff], 2).unwrap();
    let words = b.into_inner().unwrap();
    let symbols: Vec<String> = Vec::new();
    let predictor = Predictor::load(
        words,
        build_fst(&Vec::new()).unwrap(),
        &bincode::serialize(&symbols).unwrap(),
    )
    .unwrap();
    assert!(matches!(predictor.word("a"), Err(PredictionError::FstError(_))));
    assert_eq!(predictor.word("ab").unwrap(), vec!["ab"]);
}

#[test]
fn from_entries_builds_and_loads() {
    let words = entries(&[("lit", 10), ("little", 100)]);
    let codes = entries(&[("eq", 0)]);
    let symbols: Vec<String> = vec!["=".into()];
    let predictor = Predictor::from_entries(&words, &codes, &symbols).ok().unwrap();
    assert_eq!(predictor.word("li").unwrap(), vec!["little", "lit"]);
    assert_eq!(
        predictor.symbol("e").unwrap(),
        vec![("eq".to_string(), "=".to_string())]
    );
    let unsorted = entries(&[("b", 1), ("a", 2)]);
    assert!(matches!(
        Predictor::from_entries(&unsorted, &codes, &symbols),
        Err(PredictionError::FstError(_))
    ));
}

#[test]
fn load_refuses_damaged_maps() {
    let symbols: Vec<String> = Vec::new();
    let table = bincode::serialize(&symbols).unwrap();
    let good = build_fst(&entries(&[("a", 1)])).unwrap();
    assert!(matches!(
        Predictor::load(vec![1, 2, 3], good.clone(), &table),
        Err(PredictionError::FstError(_))
    ));
    let mut damaged = good.clone();
    let n = damaged.len();
    damaged[n - 1] ^= 0xff;
    assert!(matches!(
        Predictor::load(good.clone(), damaged, &table),
        Err(PredictionError::FstError(_))
    ));
    assert!(matches!(
        Predictor::load(good.clone(), good, &[1, 2]),
        Err(PredictionError::SymbolTableError(_))
    ));
}

#[test]
fn build_fst_refuses_unsorted_keys() {
    assert!(build_fst(&entries(&[("b", 1), ("a", 2)])).is_err());
    assert!(build_fst(&entries(&[("a", 1), ("a", 2)])).is_err());
    assert!(build_fst(&entries(&[("a", 1), ("b", 2)])).is_ok());
}

#[test]
fn title_case_helpers() {
    assert!(Predictor::is_title_cased("Lit"));
    assert!(!Predictor::is_title_cased("LIT"));
    assert!(!Predictor::is_title_cased("lit"));
    assert!(!Predictor::is_title_cased(""));
    assert_eq!(Predictor::title_case("literature".to_string()), "Literature");
    assert_eq!(Predictor::title_case(String::new()), "");
    assert_eq!(predict::ascii_lowercase("LiT-Ä"), "lit-Ä");
}

#[test]
fn empty_prefix_matches_every_word() {
    let predictor = fixture();
    assert_eq!(
        predictor.word("").unwrap(),
        vec![
            "little",
            "anger",
            "angle",
            "literature",
            "angel",
            "literal",
            "angry",
            "lit",
            "liturgy"
        ]
    );
    assert_eq!(predictor.symbol("").unwrap().len(), 4);
}

#[test]
fn empty_dictionaries_give_empty_results() {
    let symbols: Vec<String> = Vec::new();
    let predictor = Predictor::load(
        build_fst(&Vec::new()).unwrap(),
        build_fst(&Vec::new()).unwrap(),
        &bincode::serialize(&symbols).unwrap(),
    )
    .unwrap();
    assert!(predictor.word("a").unwrap().is_empty());
    assert!(predictor.symbol("a").unwrap().is_empty());
}
