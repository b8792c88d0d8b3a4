use predict::{
    build_fst, free_engine_core, ibus_eei_engine_candidate_clicked, ibus_eei_engine_focus_out,
    ibus_eei_engine_page_down_button, ibus_eei_engine_page_up_button,
    ibus_eei_engine_process_key_event, new_engine_core, classify_key, Controller, EngineCore,
    Event, InputMode, Predictor, SessionError, CONTROL_MASK, KEY_BACKSPACE, KEY_DOWN, KEY_E,
    KEY_ESCAPE, KEY_LEFT, KEY_PAGE_DOWN, KEY_PAGE_UP, KEY_RETURN, KEY_SPACE, KEY_UP, KEY_W,
    SHIFT_MASK,
};

fn entries(list: &[(&str, u64)]) -> Vec<(String, u64)> {
    list.iter().map(|(k, v)| (k.to_string(), *v)).collect()
}

fn fixture() -> Predictor {
    let words = entries(&[
        ("lit", 10),
        ("literal", 40),
        ("literature", 70),
        ("little", 100),
        ("liturgy", 5),
    ]);
    let codes = entries(&[
        ("a1", 0),
        ("a2", 1),
        ("a3", 2),
        ("a4", 3),
        ("a5", 4),
        ("a6", 5),
        ("a7", 6),
        ("eq", 7),
        ("equiv", 8),
    ]);
    let symbols: Vec<String> = ["①", "②", "③", "④", "⑤", "⑥", "⑦", "=", "≡"]
        .iter()
        .map(|s| s.to_string())
        .collect();
    Predictor::load(
        build_fst(&words).unwrap(),
        build_fst(&codes).unwrap(),
        &bincode::serialize(&symbols).unwrap(),
    )
    .unwrap()
}

fn key(core: &mut EngineCore, p: &Predictor, keyval: u32) -> (bool, Vec<String>) {
    let r = core.process_key_event(p, keyval, 0);
    (r.handled, r.commits)
}

fn ctrl(core: &mut EngineCore, p: &Predictor, keyval: u32) -> (bool, Vec<String>) {
    let r = core.process_key_event(p, keyval, CONTROL_MASK);
    (r.handled, r.commits)
}

fn type_text(core: &mut EngineCore, p: &Predictor, text: &str) -> Vec<String> {
    let mut out = Vec::new();
    for c in text.chars() {
        let (handled, commits) = key(core, p, c as u32);
        assert!(handled);
        out.extend(commits);
    }
    out
}

#[test]
fn keys_map_to_events() {
    assert_eq!(classify_key(KEY_E, CONTROL_MASK), Event::EnterSymbolMode);
    assert_eq!(classify_key(KEY_W, CONTROL_MASK), Event::EnterWordMode);
    assert_eq!(classify_key(KEY_E, CONTROL_MASK | SHIFT_MASK), Event::Unhandled);
    assert_eq!(classify_key('a' as u32, 0), Event::Character('a'));
    assert_eq!(classify_key('A' as u32, SHIFT_MASK), Event::Character('A'));
    assert_eq!(classify_key('a' as u32, 8), Event::Unhandled);
    assert_eq!(classify_key(KEY_SPACE, 0), Event::Separator);
    assert_eq!(classify_key(KEY_RETURN, 0), Event::Commit);
    assert_eq!(classify_key(KEY_LEFT, 0), Event::CaretMove);
    assert_eq!(classify_key(KEY_PAGE_DOWN, 0), Event::PageDown);
    assert_eq!(classify_key(0xffff, 0), Event::Unhandled);
}

#[test]
fn enter_word_mode_with_empty_buffer_is_no_op() {
    let p = fixture();
    let mut core = EngineCore::new(5);
    assert_eq!(ctrl(&mut core, &p, KEY_W), (false, vec![]));
    assert_eq!(core.input_mode(), InputMode::Normal);
    assert!(!core.table_visible());
}

#[test]
fn typed_characters_are_echoed_and_buffered() {
    let p = fixture();
    let mut core = EngineCore::new(5);
    assert_eq!(type_text(&mut core, &p, "lit"), vec!["l", "i", "t"]);
    assert_eq!(core.word_buffer(), "lit");
    assert_eq!(type_text(&mut core, &p, "."), vec!["."]);
    assert_eq!(core.word_buffer(), "");
}

#[test]
fn word_mode_commits_remainder() {
    let p = fixture();
    let mut core = EngineCore::new(5);
    type_text(&mut core, &p, "lit");
    assert_eq!(ctrl(&mut core, &p, KEY_W), (true, vec![]));
    assert_eq!(core.input_mode(), InputMode::WordTable);
    assert_eq!(core.candidates(), &vec!["little", "literature", "literal", "lit", "liturgy"]);
    assert_eq!(core.preedit(), Some("tle".to_string()));
    assert_eq!(key(&mut core, &p, KEY_DOWN), (true, vec![]));
    assert_eq!(core.candidates()[core.cursor()], "literature");
    assert_eq!(key(&mut core, &p, KEY_RETURN), (true, vec!["erature".to_string()]));
    assert_eq!(core.input_mode(), InputMode::Normal);
    assert_eq!(core.word_buffer(), "");
    assert!(core.candidates().is_empty());
}

#[test]
fn word_mode_typing_narrows_and_exits_when_empty() {
    let p = fixture();
    let mut core = EngineCore::new(5);
    type_text(&mut core, &p, "lit");
    ctrl(&mut core, &p, KEY_W);
    assert_eq!(type_text(&mut core, &p, "e"), vec!["e"]);
    assert_eq!(core.candidates(), &vec!["literature", "literal"]);
    assert_eq!(type_text(&mut core, &p, "x"), vec!["x"]);
    assert_eq!(core.input_mode(), InputMode::Normal);
    assert!(core.candidates().is_empty());
}

#[test]
fn word_mode_backspace_to_empty_returns_to_normal() {
    let p = fixture();
    let mut core = EngineCore::new(5);
    type_text(&mut core, &p, "l");
    ctrl(&mut core, &p, KEY_W);
    assert_eq!(core.input_mode(), InputMode::WordTable);
    assert_eq!(key(&mut core, &p, KEY_BACKSPACE), (false, vec![]));
    assert_eq!(core.input_mode(), InputMode::Normal);
    assert!(core.candidates().is_empty());
    assert_eq!(core.word_buffer(), "");
}

#[test]
fn word_mode_backspace_requeries() {
    let p = fixture();
    let mut core = EngineCore::new(5);
    type_text(&mut core, &p, "lite");
    ctrl(&mut core, &p, KEY_W);
    assert_eq!(core.candidates().len(), 2);
    assert_eq!(key(&mut core, &p, KEY_BACKSPACE), (false, vec![]));
    assert_eq!(core.word_buffer(), "lit");
    assert_eq!(core.candidates().len(), 5);
}

#[test]
fn separator_in_word_mode_commits_remainder_and_space() {
    let p = fixture();
    let mut core = EngineCore::new(5);
    type_text(&mut core, &p, "lit");
    ctrl(&mut core, &p, KEY_W);
    assert_eq!(
        key(&mut core, &p, KEY_SPACE),
        (true, vec!["tle".to_string(), " ".to_string()])
    );
    assert_eq!(core.input_mode(), InputMode::Normal);
}

#[test]
fn title_cased_buffer_commits_byte_remainder() {
    let p = fixture();
    let mut core = EngineCore::new(5);
    type_text(&mut core, &p, "Lit");
    ctrl(&mut core, &p, KEY_W);
    assert_eq!(core.candidates()[0], "Little");
    assert_eq!(key(&mut core, &p, KEY_RETURN), (true, vec!["tle".to_string()]));
}

#[test]
fn symbol_mode_commits_symbol() {
    let p = fixture();
    let mut core = EngineCore::new(5);
    assert_eq!(ctrl(&mut core, &p, KEY_E), (true, vec![]));
    assert_eq!(core.input_mode(), InputMode::SymbolTable);
    assert!(core.candidates().is_empty());
    assert_eq!(core.auxiliary_text(), Some(String::new()));
    assert_eq!(core.preedit(), Some(String::new()));
    assert_eq!(type_text(&mut core, &p, "eq"), Vec::<String>::new());
    assert_eq!(core.candidates(), &vec!["eq", "equiv"]);
    assert_eq!(core.page_labels(), vec!["=", "≡"]);
    assert_eq!(core.auxiliary_text(), Some("eq".to_string()));
    assert_eq!(core.preedit(), Some("=".to_string()));
    key(&mut core, &p, KEY_DOWN);
    assert_eq!(core.preedit(), Some("≡".to_string()));
    assert_eq!(key(&mut core, &p, KEY_RETURN), (true, vec!["≡".to_string()]));
    assert_eq!(core.input_mode(), InputMode::Normal);
    assert_eq!(core.auxiliary_text(), None);
}

#[test]
fn enter_same_mode_again_is_no_op() {
    let p = fixture();
    let mut core = EngineCore::new(5);
    ctrl(&mut core, &p, KEY_E);
    type_text(&mut core, &p, "e");
    assert_eq!(ctrl(&mut core, &p, KEY_E), (false, vec![]));
    assert_eq!(core.input_mode(), InputMode::SymbolTable);
    assert_eq!(core.symbol_preedit(), "e");
}

#[test]
fn symbol_mode_backspace_to_empty_returns_to_normal() {
    let p = fixture();
    let mut core = EngineCore::new(5);
    ctrl(&mut core, &p, KEY_E);
    type_text(&mut core, &p, "eq");
    assert_eq!(key(&mut core, &p, KEY_BACKSPACE), (true, vec![]));
    assert_eq!(core.symbol_preedit(), "e");
    assert_eq!(core.candidates(), &vec!["eq", "equiv"]);
    assert_eq!(key(&mut core, &p, KEY_BACKSPACE), (true, vec![]));
    assert_eq!(core.input_mode(), InputMode::Normal);
    assert_eq!(core.symbol_preedit(), "");
}

#[test]
fn escape_discards_without_commit() {
    let p = fixture();
    let mut core = EngineCore::new(5);
    type_text(&mut core, &p, "lit");
    ctrl(&mut core, &p, KEY_W);
    assert_eq!(key(&mut core, &p, KEY_ESCAPE), (true, vec![]));
    assert_eq!(core.input_mode(), InputMode::Normal);
    assert_eq!(core.word_buffer(), "");
    assert_eq!(key(&mut core, &p, KEY_ESCAPE), (false, vec![]));
}

#[test]
fn paging_moves_by_pages_and_clamps() {
    let p = fixture();
    let mut core = EngineCore::new(3);
    ctrl(&mut core, &p, KEY_E);
    type_text(&mut core, &p, "a");
    assert_eq!(core.candidates().len(), 7);
    assert_eq!(core.page_labels(), vec!["①", "②", "③"]);
    assert_eq!(key(&mut core, &p, KEY_PAGE_UP), (false, vec![]));
    assert_eq!(key(&mut core, &p, KEY_UP), (false, vec![]));
    key(&mut core, &p, KEY_DOWN);
    assert_eq!(key(&mut core, &p, KEY_PAGE_DOWN), (true, vec![]));
    assert_eq!(core.cursor(), 4);
    assert_eq!(core.page_labels(), vec!["④", "⑤", "⑥"]);
    assert_eq!(key(&mut core, &p, KEY_PAGE_DOWN), (true, vec![]));
    assert_eq!(core.cursor(), 6);
    assert_eq!(core.page_labels(), vec!["⑦"]);
    assert_eq!(key(&mut core, &p, KEY_PAGE_DOWN), (false, vec![]));
    assert_eq!(core.cursor(), 6);
    assert_eq!(key(&mut core, &p, KEY_DOWN), (false, vec![]));
    assert_eq!(core.cursor(), 6);
    assert_eq!(key(&mut core, &p, KEY_PAGE_UP), (true, vec![]));
    assert_eq!(core.cursor(), 3);
}

#[test]
fn modifier_combination_is_not_handled() {
    let p = fixture();
    let mut core = EngineCore::new(5);
    ctrl(&mut core, &p, KEY_E);
    let r = core.process_key_event(&p, 'x' as u32, 8);
    assert!(!r.handled);
    assert!(r.commits.is_empty());
    assert_eq!(core.symbol_preedit(), "");
    let r = core.process_key_event(&p, 'q' as u32, CONTROL_MASK);
    assert!(!r.handled);
}

#[test]
fn caret_move_clears_buffer() {
    let p = fixture();
    let mut core = EngineCore::new(5);
    type_text(&mut core, &p, "li");
    assert_eq!(key(&mut core, &p, KEY_LEFT), (false, vec![]));
    assert_eq!(core.word_buffer(), "");
}

#[test]
fn controller_routes_events_by_handle() {
    let mut c = Controller::new(fixture(), 3);
    let h = new_engine_core(&mut c);
    let other = new_engine_core(&mut c);
    for ch in "lit".chars() {
        let r = ibus_eei_engine_process_key_event(&mut c, h, ch as u32, 0, 0).ok().unwrap();
        assert!(r.handled);
    }
    ibus_eei_engine_process_key_event(&mut c, h, KEY_W, 0, CONTROL_MASK).ok().unwrap();
    assert_eq!(c.session(h).unwrap().input_mode(), InputMode::WordTable);
    assert_eq!(c.session(other).unwrap().input_mode(), InputMode::Normal);
    let r = ibus_eei_engine_page_down_button(&mut c, h).ok().unwrap();
    assert!(r.handled);
    assert_eq!(c.session(h).unwrap().cursor(), 3);
    let r = ibus_eei_engine_page_up_button(&mut c, h).ok().unwrap();
    assert!(r.handled);
    assert_eq!(c.session(h).unwrap().cursor(), 0);
    ibus_eei_engine_page_down_button(&mut c, h).ok().unwrap();
    let r = ibus_eei_engine_candidate_clicked(&mut c, h, 1, 0, 0).ok().unwrap();
    assert_eq!(r.commits, vec!["urgy".to_string()]);
    assert_eq!(c.session(h).unwrap().input_mode(), InputMode::Normal);
}

#[test]
fn controller_reports_missing_session() {
    let mut c = Controller::new(fixture(), 5);
    let h = new_engine_core(&mut c);
    assert!(matches!(
        ibus_eei_engine_focus_out(&mut c, h + 1),
        Err(SessionError::SessionNotFound(n)) if n == h + 1
    ));
    assert!(free_engine_core(&mut c, h).is_ok());
    assert!(c.session(h).is_none());
    assert!(matches!(
        ibus_eei_engine_process_key_event(&mut c, h, 'a' as u32, 0, 0),
        Err(SessionError::SessionNotFound(_))
    ));
    assert!(matches!(free_engine_core(&mut c, h), Err(SessionError::SessionNotFound(_))));
}

#[test]
fn focus_out_discards_buffers() {
    let mut c = Controller::new(fixture(), 5);
    let h = new_engine_core(&mut c);
    ibus_eei_engine_process_key_event(&mut c, h, KEY_E, 0, CONTROL_MASK).ok().unwrap();
    ibus_eei_engine_process_key_event(&mut c, h, 'e' as u32, 0, 0).ok().unwrap();
    let r = ibus_eei_engine_focus_out(&mut c, h).ok().unwrap();
    assert!(r.commits.is_empty());
    let core = c.session(h).unwrap();
    assert_eq!(core.input_mode(), InputMode::Normal);
    assert_eq!(core.symbol_preedit(), "");
    assert_eq!(core.word_buffer(), "");
}

#[test]
fn separator_in_symbol_mode_closes_table_and_types_space() {
    let p = fixture();
    let mut core = EngineCore::new(5);
    ctrl(&mut core, &p, KEY_E);
    type_text(&mut core, &p, "eq");
    assert_eq!(key(&mut core, &p, KEY_SPACE), (true, vec![" ".to_string()]));
    assert_eq!(core.input_mode(), InputMode::Normal);
    assert_eq!(key(&mut core, &p, KEY_SPACE), (true, vec![" ".to_string()]));
}
