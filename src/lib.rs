//! Word and symbol prediction for a text input method: a read-only predictor
//! over two prefix-searchable dictionaries, and the modal controller that turns
//! key events into candidate lists and committed text.

pub mod builder;
pub mod engine;
pub mod index;
pub mod keys;
pub mod parse;
pub mod predict;
pub mod rank;
pub mod session;
pub mod text;

pub use builder::{
    build_fst, dedup_sorted, dictionary_entries, github_emoji_shortcodes, load_word_freq_data,
    math_symbol_shortcodes, parse_word_freq_line, process_dictionary, str_lt, symbol_table_of,
    write_symbols_and_shortcodes, BuildError, DictionaryFile, ShortcodeFiles,
};
pub use engine::{EngineCore, InputMode, Response};
pub use keys::{
    classify_key, Event, CONTROL_MASK, KEY_BACKSPACE, KEY_DOWN, KEY_E, KEY_ESCAPE, KEY_LEFT,
    KEY_PAGE_DOWN, KEY_PAGE_UP, KEY_RETURN, KEY_RIGHT, KEY_SPACE, KEY_TILDE, KEY_UP, KEY_W,
    SHIFT_MASK,
};
pub use parse::{parse_github_emoji_url, parse_unicode, split_str, InvalidParseError};
pub use predict::{PredictionError, Predictor, WORD_COUNT};
pub use rank::top_ranked;
pub use session::{
    free_engine_core, ibus_eei_engine_candidate_clicked, ibus_eei_engine_focus_out,
    ibus_eei_engine_page_down_button, ibus_eei_engine_page_up_button,
    ibus_eei_engine_process_key_event, new_engine_core, Controller, SessionError,
};
pub use text::{ascii_lowercase, to_ascii_lower, to_ascii_upper};
