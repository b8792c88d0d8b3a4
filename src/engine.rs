//! The input-mode controller of one editing session: a state machine over
//! the modes `Normal`, `SymbolTable` and `WordTable`, with an edit buffer, a
//! paged candidate list and the decisions of what text to commit.
//!
//! The host renders what the session holds (see the display methods) and
//! commits the text that each event hands back.

use crate::index::{all_keys_utf8, prefix_matches};
use crate::keys::{classify_key, key_event, Event};
use crate::predict::{
    all_ids_known, string_pair_views, string_views, symbol_outcome, symbol_pairs, word_candidates,
    word_matches, word_outcome, Predictor,
};
use crate::text::{char_string, is_alnum, is_ascii_alnum, pop_char, push_char};
use vstd::prelude::*;
use vstd::string::StringSliceAdditionalSpecFns;
use vstd::utf8::*;

verus! {

#[derive(Clone, Copy, Debug, PartialEq, Eq, Structural)]
pub enum InputMode {
    Normal,
    SymbolTable,
    WordTable,
}

/// A session as mathematical values.
pub struct SessionView {
    pub mode: InputMode,
    /// The characters typed since the last commit or reset.
    pub word_buffer: Seq<char>,
    /// The shortcode typed in symbol mode.
    pub symbol_preedit: Seq<char>,
    /// The candidates shown: words in word mode, shortcodes in symbol mode.
    pub candidates: Seq<Seq<char>>,
    /// In symbol mode, the symbol of each candidate.
    pub labels: Seq<Seq<char>>,
    pub cursor: int,
    pub page_size: int,
}

/// The invariant of a session: the cursor stands on a candidate (or at zero
/// when there is none), symbol mode has one label per candidate, and `Normal`
/// mode holds no table.
pub open spec fn session_wf(s: SessionView) -> bool {
    &&& s.page_size > 0
    &&& 0 <= s.cursor
    &&& (s.candidates.len() == 0 ==> s.cursor == 0)
    &&& (s.candidates.len() > 0 ==> s.cursor < s.candidates.len())
    &&& (s.mode == InputMode::SymbolTable ==> s.labels.len() == s.candidates.len())
    &&& (s.mode == InputMode::Normal ==> s.candidates.len() == 0 && s.labels.len() == 0
        && s.symbol_preedit.len() == 0)
}

/// The session of a text field that has just gained the focus.
pub open spec fn initial_session(page_size: int) -> SessionView {
    SessionView {
        mode: InputMode::Normal,
        word_buffer: seq![],
        symbol_preedit: seq![],
        candidates: seq![],
        labels: seq![],
        cursor: 0,
        page_size,
    }
}

/// The words offered for `prefix`, or `None` when the query fails.
pub open spec fn word_query(p: Predictor, prefix: Seq<char>) -> Option<Seq<Seq<char>>> {
    if all_keys_utf8(word_matches(p.word_entries(), prefix)) {
        Some(word_candidates(p.word_entries(), prefix))
    } else {
        None
    }
}

/// The (shortcode, symbol) pairs offered for `prefix`, or `None` when the query fails.
pub open spec fn symbol_query(p: Predictor, prefix: Seq<char>) -> Option<Seq<(Seq<char>, Seq<char>)>> {
    let found = prefix_matches(p.shortcode_entries(), encode_utf8(prefix));
    if all_keys_utf8(found) && all_ids_known(found, p.symbol_table().len()) {
        Some(symbol_pairs(found, p.symbol_table()))
    } else {
        None
    }
}

pub open spec fn codes_of(pairs: Seq<(Seq<char>, Seq<char>)>) -> Seq<Seq<char>> {
    pairs.map_values(|q: (Seq<char>, Seq<char>)| q.0)
}

pub open spec fn symbols_of(pairs: Seq<(Seq<char>, Seq<char>)>) -> Seq<Seq<char>> {
    pairs.map_values(|q: (Seq<char>, Seq<char>)| q.1)
}

/// `s` without its last element, or `s` itself when it is empty.
pub open spec fn pop_last(s: Seq<char>) -> Seq<char> {
    if s.len() > 0 {
        s.drop_last()
    } else {
        s
    }
}

/// Back to `Normal`: the table, its labels and the shortcode are dropped.
pub open spec fn close_table(s: SessionView) -> SessionView {
    SessionView {
        mode: InputMode::Normal,
        symbol_preedit: seq![],
        candidates: seq![],
        labels: seq![],
        cursor: 0,
        ..s
    }
}

/// Back to `Normal`, with the word buffer emptied too.
pub open spec fn reset(s: SessionView) -> SessionView {
    SessionView { word_buffer: seq![], ..close_table(s) }
}

/// Word mode after the buffer changed: the table is rebuilt from a word
/// query (kept as it was if the query fails), and the mode falls back to
/// `Normal` when the buffer or the table is empty.
pub open spec fn refresh_words(s: SessionView, p: Predictor) -> SessionView {
    if s.word_buffer.len() == 0 {
        close_table(s)
    } else {
        let t = match word_query(p, s.word_buffer) {
            Some(words) => SessionView { candidates: words, labels: seq![], cursor: 0, ..s },
            None => s,
        };
        if t.candidates.len() == 0 {
            close_table(t)
        } else {
            t
        }
    }
}

/// Symbol mode after the shortcode changed: with an empty shortcode nothing
/// is queried; else the table is rebuilt from a shortcode query (kept as it
/// was if the query fails).
pub open spec fn refresh_symbols(s: SessionView, p: Predictor) -> SessionView {
    if s.symbol_preedit.len() == 0 {
        s
    } else {
        match symbol_query(p, s.symbol_preedit) {
            Some(pairs) => SessionView {
                candidates: codes_of(pairs),
                labels: symbols_of(pairs),
                cursor: 0,
                ..s
            },
            None => s,
        }
    }
}

/// What is left of `candidate` after the bytes already typed as `buffer`:
/// `None` when that length does not fall on a character boundary of it.
pub open spec fn word_remainder(buffer: Seq<char>, candidate: Seq<char>) -> Option<Seq<char>> {
    let n = encode_utf8(buffer).len() as int;
    let b = encode_utf8(candidate);
    if is_char_boundary(b, n) {
        Some(decode_utf8(b.subrange(n, b.len() as int)))
    } else {
        None
    }
}

/// The text committed for the candidate at `idx`: in symbol mode its symbol
/// (once a shortcode was typed), in word mode what remains of the word after
/// the typed prefix.
pub open spec fn committed_text(s: SessionView, idx: int) -> Seq<Seq<char>> {
    if s.mode == InputMode::SymbolTable && s.symbol_preedit.len() > 0 && 0 <= idx < s.labels.len() {
        seq![s.labels[idx]]
    } else if s.mode == InputMode::WordTable && 0 <= idx < s.candidates.len() {
        match word_remainder(s.word_buffer, s.candidates[idx]) {
            Some(rest) => seq![rest],
            None => seq![],
        }
    } else {
        seq![]
    }
}

/// The index of the first candidate on the cursor's page.
pub open spec fn page_start(s: SessionView) -> int {
    (s.cursor / s.page_size) * s.page_size
}

/// One event: the next session, whether the event was consumed, and the texts
/// committed, in order.
pub open spec fn step(s: SessionView, p: Predictor, ev: Event) -> (SessionView, bool, Seq<Seq<char>>) {
    let visible = s.mode != InputMode::Normal;
    match ev {
        Event::EnterSymbolMode => if s.mode == InputMode::Normal {
            (SessionView { mode: InputMode::SymbolTable, ..close_table(s) }, true, seq![])
        } else {
            (s, false, seq![])
        },
        Event::EnterWordMode => if s.mode == InputMode::Normal && s.word_buffer.len() > 0 {
            (refresh_words(SessionView { mode: InputMode::WordTable, ..s }, p), true, seq![])
        } else {
            (s, false, seq![])
        },
        Event::Character(c) => match s.mode {
            InputMode::SymbolTable => (
                refresh_symbols(SessionView { symbol_preedit: s.symbol_preedit.push(c), ..s }, p),
                true,
                seq![],
            ),
            InputMode::WordTable => (
                refresh_words(SessionView { word_buffer: s.word_buffer.push(c), ..s }, p),
                true,
                seq![seq![c]],
            ),
            InputMode::Normal => (
                SessionView {
                    word_buffer: if is_ascii_alnum(c) {
                        s.word_buffer.push(c)
                    } else {
                        seq![]
                    },
                    ..s
                },
                true,
                seq![seq![c]],
            ),
        },
        Event::Separator => if s.mode == InputMode::SymbolTable {
            (reset(s), true, seq![seq![' ']])
        } else {
            (reset(s), true, committed_text(s, s.cursor).push(seq![' ']))
        },
        Event::Commit => (reset(s), visible, committed_text(s, s.cursor)),
        Event::Clicked(i) => (reset(s), visible, committed_text(s, page_start(s) + i)),
        Event::CaretMove => if s.mode == InputMode::WordTable {
            (reset(s), false, seq![])
        } else {
            (SessionView { word_buffer: seq![], ..s }, false, seq![])
        },
        Event::CursorUp => if visible && s.cursor > 0 {
            (SessionView { cursor: s.cursor - 1, ..s }, true, seq![])
        } else {
            (s, false, seq![])
        },
        Event::CursorDown => if visible && s.cursor + 1 < s.candidates.len() {
            (SessionView { cursor: s.cursor + 1, ..s }, true, seq![])
        } else {
            (s, false, seq![])
        },
        Event::PageUp => if visible && s.cursor >= s.page_size {
            (SessionView { cursor: s.cursor - s.page_size, ..s }, true, seq![])
        } else {
            (s, false, seq![])
        },
        Event::PageDown => if visible && page_start(s) + s.page_size < s.candidates.len() {
            let next = if s.cursor + s.page_size < s.candidates.len() {
                s.cursor + s.page_size
            } else {
                s.candidates.len() - 1
            };
            (SessionView { cursor: next, ..s }, true, seq![])
        } else {
            (s, false, seq![])
        },
        Event::Backspace => match s.mode {
            InputMode::SymbolTable => {
                let t = SessionView { symbol_preedit: pop_last(s.symbol_preedit), ..s };
                if t.symbol_preedit.len() == 0 {
                    (close_table(t), true, seq![])
                } else {
                    (refresh_symbols(t, p), true, seq![])
                }
            },
            InputMode::WordTable => (
                refresh_words(SessionView { word_buffer: pop_last(s.word_buffer), ..s }, p),
                false,
                seq![],
            ),
            InputMode::Normal => (s, false, seq![]),
        },
        Event::Cancel => if visible {
            (reset(s), true, seq![])
        } else {
            (s, false, seq![])
        },
        Event::FocusOut => (reset(s), visible, seq![]),
        Event::Unhandled => (s, false, seq![]),
    }
}

/// What an event hands back to the host.
#[derive(Debug)]
pub struct Response {
    /// Whether the event was consumed (else the host handles the key itself).
    pub handled: bool,
    /// The texts to commit into the document, in order.
    pub commits: Vec<String>,
}

/// The editing state of one text field.
pub struct EngineCore {
    input_mode: InputMode,
    word_buffer: String,
    symbol_preedit: String,
    candidates: Vec<String>,
    labels: Vec<String>,
    cursor: usize,
    page_size: usize,
}

impl View for EngineCore {
    type V = SessionView;

    closed spec fn view(&self) -> SessionView {
        SessionView {
            mode: self.input_mode,
            word_buffer: self.word_buffer@,
            symbol_preedit: self.symbol_preedit@,
            candidates: string_views(self.candidates@),
            labels: string_views(self.labels@),
            cursor: self.cursor as int,
            page_size: self.page_size as int,
        }
    }
}

} // verus!

verus! {

/// The remainder of `candidate` after the bytes of `buffer`, as a new string.
fn word_remainder_of(buffer: &String, candidate: &String) -> (r: Option<String>)
    ensures
        r is None <==> word_remainder(buffer@, candidate@) is None,
        r matches Some(rest) ==> word_remainder(buffer@, candidate@) == Some(rest@),
{
    broadcast use vstd::utf8::encode_utf8_decode_utf8;

    let n = buffer.as_str().as_bytes().len();
    let c = candidate.as_str();
    assert(c.spec_bytes() == encode_utf8(candidate@));
    assert(n == encode_utf8(buffer@).len());
    if c.is_char_boundary(n) {
        let (_, rest) = c.split_at(n);
        let out = rest.to_owned();
        assert(encode_utf8(rest@) =~= encode_utf8(candidate@).subrange(n as int, encode_utf8(candidate@).len() as int));
        Some(out)
    } else {
        None
    }
}

impl EngineCore {
    pub open spec fn wf(&self) -> bool {
        session_wf(self@)
    }

    /// A session in `Normal` mode with nothing typed, whose table pages hold
    /// `page_size` candidates.
    pub fn new(page_size: usize) -> (r: EngineCore)
        requires
            page_size > 0,
        ensures
            r.wf(),
            r@ == initial_session(page_size as int),
    {
        let r = EngineCore {
            input_mode: InputMode::Normal,
            word_buffer: String::new(),
            symbol_preedit: String::new(),
            candidates: Vec::new(),
            labels: Vec::new(),
            cursor: 0,
            page_size,
        };
        assert(r@.candidates =~= seq![]);
        assert(r@.labels =~= seq![]);
        r
    }

    fn close_table(&mut self)
        requires
            old(self).wf(),
        ensures
            final(self)@ == close_table(old(self)@),
            final(self).wf(),
    {
        self.input_mode = InputMode::Normal;
        self.symbol_preedit = String::new();
        self.candidates = Vec::new();
        self.labels = Vec::new();
        self.cursor = 0;
        assert(self@.candidates =~= seq![]);
        assert(self@.labels =~= seq![]);
        assert(self@.symbol_preedit =~= seq![]);
        assert(self@ == close_table(old(self)@));
    }

    fn reset(&mut self)
        requires
            old(self).wf(),
        ensures
            final(self)@ == reset(old(self)@),
            final(self).wf(),
    {
        self.close_table();
        self.word_buffer = String::new();
        assert(self@.word_buffer =~= seq![]);
        assert(self@ == reset(old(self)@));
    }

    fn word_table_update(&mut self, predictor: &Predictor)
        requires
            old(self).wf(),
            old(self)@.mode == InputMode::WordTable,
        ensures
            final(self)@ == refresh_words(old(self)@, *predictor),
            final(self).wf(),
    {
        if self.word_buffer.as_str().unicode_len() == 0 {
            self.close_table();
            return;
        }
        let ghost s = self@;
        match predictor.word(self.word_buffer.as_str()) {
            Ok(words) => {
                self.candidates = words;
                self.labels = Vec::new();
                self.cursor = 0;
                assert(self@.labels =~= seq![]);
                assert(self@ == SessionView {
                    candidates: word_candidates(predictor.word_entries(), s.word_buffer),
                    labels: seq![],
                    cursor: 0,
                    ..s
                });
            },
            Err(_) => {},
        }
        if self.candidates.len() == 0 {
            self.close_table();
        }
    }

    fn symbol_input_update(&mut self, predictor: &Predictor)
        requires
            old(self).wf(),
            old(self)@.mode == InputMode::SymbolTable,
        ensures
            final(self)@ == refresh_symbols(old(self)@, *predictor),
            final(self).wf(),
    {
        if self.symbol_preedit.as_str().unicode_len() == 0 {
            return;
        }
        let ghost s = self@;
        match predictor.symbol(self.symbol_preedit.as_str()) {
            Ok(pairs) => {
                let ghost pv = string_pair_views(pairs@);
                let mut codes: Vec<String> = Vec::new();
                let mut symbols: Vec<String> = Vec::new();
                let mut i: usize = 0;
                while i < pairs.len()
                    invariant
                        i <= pairs.len(),
                        pv == string_pair_views(pairs@),
                        codes@.len() == i,
                        symbols@.len() == i,
                        string_views(codes@) == codes_of(pv).take(i as int),
                        string_views(symbols@) == symbols_of(pv).take(i as int),
                    decreases pairs.len() - i,
                {
                    let ghost c0 = codes@;
                    let ghost s0 = symbols@;
                    codes.push(pairs[i].0.clone());
                    symbols.push(pairs[i].1.clone());
                    assert(pv[i as int] == (pairs@[i as int].0@, pairs@[i as int].1@));
                    assert(string_views(codes@) =~= string_views(c0).push(pairs@[i as int].0@));
                    assert(string_views(symbols@) =~= string_views(s0).push(pairs@[i as int].1@));
                    assert(string_views(codes@) =~= codes_of(pv).take(i + 1));
                    assert(string_views(symbols@) =~= symbols_of(pv).take(i + 1));
                    i += 1;
                }
                assert(codes_of(pv).take(pairs.len() as int) =~= codes_of(pv));
                assert(symbols_of(pv).take(pairs.len() as int) =~= symbols_of(pv));
                self.candidates = codes;
                self.labels = symbols;
                self.cursor = 0;
                assert(self@ == SessionView {
                    candidates: codes_of(pv),
                    labels: symbols_of(pv),
                    cursor: 0,
                    ..s
                });
            },
            Err(_) => {},
        }
    }
}

} // verus!

verus! {

fn no_commits(handled: bool) -> (r: Response)
    ensures
        r.handled == handled,
        string_views(r.commits@) == Seq::<Seq<char>>::empty(),
{
    let r = Response { handled, commits: Vec::new() };
    assert(string_views(r.commits@) =~= Seq::<Seq<char>>::empty());
    r
}

proof fn lemma_page_start(cursor: int, page_size: int)
    requires
        0 <= cursor,
        0 < page_size,
    ensures
        0 <= (cursor / page_size) * page_size <= cursor,
{
    assert(0 <= (cursor / page_size) * page_size <= cursor) by (nonlinear_arith)
        requires
            0 <= cursor,
            0 < page_size,
    ;
}

impl EngineCore {
    fn committed_text(&self, idx: usize) -> (r: Vec<String>)
        requires
            self.wf(),
        ensures
            string_views(r@) == committed_text(self@, idx as int),
    {
        let mut out: Vec<String> = Vec::new();
        if self.input_mode == InputMode::SymbolTable && self.symbol_preedit.as_str().unicode_len() > 0
            && idx < self.labels.len() {
            out.push(self.labels[idx].clone());
            assert(string_views(out@) =~= seq![self@.labels[idx as int]]);
        } else if self.input_mode == InputMode::WordTable && idx < self.candidates.len() {
            assert(self@.candidates[idx as int] == self.candidates@[idx as int]@);
            match word_remainder_of(&self.word_buffer, &self.candidates[idx]) {
                Some(rest) => {
                    out.push(rest);
                    assert(string_views(out@) =~= seq![out@[0]@]);
                },
                None => {
                    assert(string_views(out@) =~= Seq::<Seq<char>>::empty());
                },
            }
        } else {
            assert(string_views(out@) =~= Seq::<Seq<char>>::empty());
        }
        out
    }

    /// The index of the first candidate on the cursor's page.
    fn page_start(&self) -> (r: usize)
        requires
            self.wf(),
        ensures
            r as int == page_start(self@),
            r <= self.cursor,
    {
        proof {
            lemma_page_start(self.cursor as int, self.page_size as int);
        }
        self.cursor / self.page_size * self.page_size
    }

    /// Handles one event, in any mode.
    pub fn handle(&mut self, predictor: &Predictor, event: Event) -> (r: Response)
        requires
            old(self).wf(),
        ensures
            final(self).wf(),
            step(old(self)@, *predictor, event) == (final(self)@, r.handled, string_views(r.commits@)),
    {
        let ghost s = self@;
        let visible = self.input_mode != InputMode::Normal;
        match event {
            Event::EnterSymbolMode => {
                if self.input_mode == InputMode::Normal {
                    self.close_table();
                    self.input_mode = InputMode::SymbolTable;
                    no_commits(true)
                } else {
                    no_commits(false)
                }
            },
            Event::EnterWordMode => {
                if self.input_mode == InputMode::Normal && self.word_buffer.as_str().unicode_len() > 0 {
                    self.input_mode = InputMode::WordTable;
                    self.word_table_update(predictor);
                    no_commits(true)
                } else {
                    no_commits(false)
                }
            },
            Event::Character(c) => {
                match self.input_mode {
                    InputMode::SymbolTable => {
                        push_char(&mut self.symbol_preedit, c);
                        self.symbol_input_update(predictor);
                        no_commits(true)
                    },
                    InputMode::WordTable => {
                        push_char(&mut self.word_buffer, c);
                        self.word_table_update(predictor);
                        let commits = vec![char_string(c)];
                        assert(string_views(commits@) =~= seq![seq![c]]);
                        Response { handled: true, commits }
                    },
                    InputMode::Normal => {
                        if is_alnum(c) {
                            push_char(&mut self.word_buffer, c);
                        } else {
                            self.word_buffer = String::new();
                        }
                        let commits = vec![char_string(c)];
                        assert(string_views(commits@) =~= seq![seq![c]]);
                        assert(self@.word_buffer =~= step(s, *predictor, event).0.word_buffer);
                        Response { handled: true, commits }
                    },
                }
            },
            Event::Separator => {
                let mut commits = if self.input_mode == InputMode::SymbolTable {
                    let none: Vec<String> = Vec::new();
                    assert(string_views(none@) =~= Seq::<Seq<char>>::empty());
                    none
                } else {
                    self.committed_text(self.cursor)
                };
                let ghost before = string_views(commits@);
                commits.push(char_string(' '));
                assert(string_views(commits@) =~= before.push(seq![' ']));
                self.reset();
                Response { handled: true, commits }
            },
            Event::Commit => {
                let commits = self.committed_text(self.cursor);
                self.reset();
                Response { handled: visible, commits }
            },
            Event::Clicked(i) => {
                let start = self.page_start();
                let commits = if (i as usize) < self.candidates.len() - start {
                    self.committed_text(start + i as usize)
                } else {
                    let none: Vec<String> = Vec::new();
                    assert(string_views(none@) =~= committed_text(s, page_start(s) + i));
                    none
                };
                self.reset();
                Response { handled: visible, commits }
            },
            Event::CaretMove => {
                if self.input_mode == InputMode::WordTable {
                    self.reset();
                } else {
                    self.word_buffer = String::new();
                    assert(self@.word_buffer =~= seq![]);
                    assert(self@ == SessionView { word_buffer: seq![], ..s });
                }
                no_commits(false)
            },
            Event::CursorUp => {
                if visible && self.cursor > 0 {
                    self.cursor = self.cursor - 1;
                    no_commits(true)
                } else {
                    no_commits(false)
                }
            },
            Event::CursorDown => {
                if visible && self.candidates.len() > 0 && self.cursor < self.candidates.len() - 1 {
                    self.cursor = self.cursor + 1;
                    no_commits(true)
                } else {
                    no_commits(false)
                }
            },
            Event::PageUp => {
                if visible && self.cursor >= self.page_size {
                    self.cursor = self.cursor - self.page_size;
                    no_commits(true)
                } else {
                    no_commits(false)
                }
            },
            Event::PageDown => {
                let start = self.page_start();
                let len = self.candidates.len();
                if visible && len > 0 && self.page_size < len - start {
                    if self.page_size < len - self.cursor {
                        self.cursor = self.cursor + self.page_size;
                    } else {
                        self.cursor = len - 1;
                    }
                    no_commits(true)
                } else {
                    no_commits(false)
                }
            },
            Event::Backspace => {
                match self.input_mode {
                    InputMode::SymbolTable => {
                        pop_char(&mut self.symbol_preedit);
                        if self.symbol_preedit.as_str().unicode_len() == 0 {
                            self.close_table();
                        } else {
                            self.symbol_input_update(predictor);
                        }
                        no_commits(true)
                    },
                    InputMode::WordTable => {
                        pop_char(&mut self.word_buffer);
                        self.word_table_update(predictor);
                        no_commits(false)
                    },
                    InputMode::Normal => no_commits(false),
                }
            },
            Event::Cancel => {
                if visible {
                    self.reset();
                    no_commits(true)
                } else {
                    no_commits(false)
                }
            },
            Event::FocusOut => {
                self.reset();
                no_commits(visible)
            },
            Event::Unhandled => no_commits(false),
        }
    }

    /// Handles a key symbol pressed under a modifier mask.
    pub fn process_key_event(&mut self, predictor: &Predictor, keyval: u32, modifiers: u32) -> (r: Response)
        requires
            old(self).wf(),
        ensures
            final(self).wf(),
            step(old(self)@, *predictor, key_event(keyval, modifiers)) == (
                final(self)@,
                r.handled,
                string_views(r.commits@),
            ),
    {
        let event = classify_key(keyval, modifiers);
        self.handle(predictor, event)
    }
}

} // verus!

verus! {

/// In `Normal` mode with nothing typed, asking for word mode is not consumed
/// and changes nothing.
pub proof fn lemma_word_mode_needs_input(s: SessionView, p: Predictor)
    requires
        s.mode == InputMode::Normal,
        s.word_buffer.len() == 0,
    ensures
        step(s, p, Event::EnterWordMode) == (s, false, Seq::<Seq<char>>::empty()),
{
}

/// In word mode, a backspace that empties the word buffer returns to
/// `Normal` with an empty candidate list.
pub proof fn lemma_backspace_to_empty_leaves_word_mode(s: SessionView, p: Predictor)
    requires
        s.mode == InputMode::WordTable,
        s.word_buffer.len() <= 1,
    ensures
        step(s, p, Event::Backspace).0.mode == InputMode::Normal,
        step(s, p, Event::Backspace).0.candidates.len() == 0,
        step(s, p, Event::Backspace).0.word_buffer.len() == 0,
{
}

/// Page-down on the last page is not consumed and changes nothing.
pub proof fn lemma_page_down_on_last_page(s: SessionView, p: Predictor)
    requires
        page_start(s) + s.page_size >= s.candidates.len(),
    ensures
        step(s, p, Event::PageDown) == (s, false, Seq::<Seq<char>>::empty()),
{
}

/// Every event keeps the session well formed; in particular the cursor never
/// passes the last candidate.
pub proof fn lemma_step_keeps_cursor_in_list(s: SessionView, p: Predictor, ev: Event)
    requires
        session_wf(s),
    ensures
        session_wf(step(s, p, ev).0),
        step(s, p, ev).0.candidates.len() > 0 ==> step(s, p, ev).0.cursor
            <= step(s, p, ev).0.candidates.len() - 1,
{
    lemma_page_start(s.cursor, s.page_size);
    let t = step(s, p, ev).0;
    match ev {
        Event::Character(c) => {
            if s.mode == InputMode::SymbolTable {
                lemma_refresh_symbols_wf(
                    SessionView { symbol_preedit: s.symbol_preedit.push(c), ..s },
                    p,
                );
            }
        },
        Event::Backspace => {
            if s.mode == InputMode::SymbolTable {
                lemma_refresh_symbols_wf(SessionView { symbol_preedit: pop_last(s.symbol_preedit), ..s }, p);
            }
        },
        _ => {},
    }
}

proof fn lemma_refresh_symbols_wf(s: SessionView, p: Predictor)
    requires
        session_wf(s),
        s.mode == InputMode::SymbolTable,
    ensures
        session_wf(refresh_symbols(s, p)),
{
    if s.symbol_preedit.len() > 0 {
        if let Some(pairs) = symbol_query(p, s.symbol_preedit) {
            assert(codes_of(pairs).len() == symbols_of(pairs).len());
        }
    }
}

} // verus!

verus! {

/// The preedit shown at the cursor: the symbol under the cursor in symbol
/// mode, the rest of the word under the cursor in word mode, empty text when
/// a table is open without candidates, and none in `Normal` mode.
pub open spec fn preedit_text(s: SessionView) -> Option<Seq<char>> {
    if s.mode == InputMode::Normal {
        None
    } else if s.candidates.len() == 0 {
        Some(Seq::empty())
    } else if s.mode == InputMode::SymbolTable {
        Some(s.labels[s.cursor])
    } else {
        word_remainder(s.word_buffer, s.candidates[s.cursor])
    }
}

/// The auxiliary text: the shortcode typed so far (empty at first), in
/// symbol mode.
pub open spec fn auxiliary_text(s: SessionView) -> Option<Seq<char>> {
    if s.mode == InputMode::SymbolTable {
        Some(s.symbol_preedit)
    } else {
        None
    }
}

/// The labels of the cursor's page: the symbols of its candidates in symbol
/// mode, none otherwise.
pub open spec fn page_labels(s: SessionView) -> Seq<Seq<char>> {
    if s.mode == InputMode::SymbolTable {
        let start = page_start(s);
        let end = if start + s.page_size < s.labels.len() {
            start + s.page_size
        } else {
            s.labels.len() as int
        };
        s.labels.subrange(start, end)
    } else {
        Seq::empty()
    }
}

impl EngineCore {
    pub fn input_mode(&self) -> (r: InputMode)
        ensures
            r == self@.mode,
    {
        self.input_mode
    }

    /// Whether the candidate table is shown: in any mode but `Normal`.
    pub fn table_visible(&self) -> (r: bool)
        ensures
            r == (self@.mode != InputMode::Normal),
    {
        self.input_mode != InputMode::Normal
    }

    pub fn word_buffer(&self) -> (r: &str)
        ensures
            r@ == self@.word_buffer,
    {
        self.word_buffer.as_str()
    }

    pub fn symbol_preedit(&self) -> (r: &str)
        ensures
            r@ == self@.symbol_preedit,
    {
        self.symbol_preedit.as_str()
    }

    pub fn candidates(&self) -> (r: &Vec<String>)
        ensures
            string_views(r@) == self@.candidates,
    {
        &self.candidates
    }

    pub fn cursor(&self) -> (r: usize)
        ensures
            r as int == self@.cursor,
    {
        self.cursor
    }

    pub fn page_size(&self) -> (r: usize)
        ensures
            r as int == self@.page_size,
    {
        self.page_size
    }

    pub fn preedit(&self) -> (r: Option<String>)
        requires
            self.wf(),
        ensures
            r is None <==> preedit_text(self@) is None,
            r matches Some(t) ==> preedit_text(self@) == Some(t@),
    {
        if self.input_mode == InputMode::Normal {
            None
        } else if self.candidates.len() == 0 {
            Some(String::new())
        } else if self.input_mode == InputMode::SymbolTable {
            Some(self.labels[self.cursor].clone())
        } else {
            word_remainder_of(&self.word_buffer, &self.candidates[self.cursor])
        }
    }

    pub fn auxiliary_text(&self) -> (r: Option<String>)
        ensures
            r is None <==> auxiliary_text(self@) is None,
            r matches Some(t) ==> auxiliary_text(self@) == Some(t@),
    {
        if self.input_mode == InputMode::SymbolTable {
            Some(self.symbol_preedit.clone())
        } else {
            None
        }
    }

    pub fn page_labels(&self) -> (r: Vec<String>)
        requires
            self.wf(),
        ensures
            string_views(r@) == page_labels(self@),
    {
        let mut out: Vec<String> = Vec::new();
        if self.input_mode != InputMode::SymbolTable {
            assert(string_views(out@) =~= page_labels(self@));
            return out;
        }
        let start = self.page_start();
        let len = self.labels.len();
        let end = if self.page_size < len - start {
            start + self.page_size
        } else {
            len
        };
        let mut i = start;
        while i < end
            invariant
                start <= i <= end <= len,
                len == self.labels.len(),
                start as int == page_start(self@),
                end as int == (if start + self.page_size < len {
                    start + self.page_size
                } else {
                    len as int
                }),
                string_views(out@) == self@.labels.subrange(start as int, i as int),
            decreases end - i,
        {
            let ghost prev = string_views(out@);
            out.push(self.labels[i].clone());
            assert(self@.labels[i as int] == self.labels@[i as int]@);
            assert(string_views(out@) =~= prev.push(self@.labels[i as int]));
            assert(string_views(out@) =~= self@.labels.subrange(start as int, i + 1));
            i += 1;
        }
        out
    }
}

} // verus!

verus! {

/// In word mode, committing a candidate that spells the typed word followed
/// by `rest` commits exactly `rest`, not the whole word.
pub proof fn lemma_word_commit_remainder(s: SessionView, p: Predictor, rest: Seq<char>)
    requires
        s.mode == InputMode::WordTable,
        0 <= s.cursor < s.candidates.len(),
        s.candidates[s.cursor] == s.word_buffer + rest,
    ensures
        step(s, p, Event::Commit) == (reset(s), true, seq![rest]),
{
    let b = s.word_buffer;
    crate::index::lemma_encode_utf8_concat(b, rest);
    vstd::utf8::encode_utf8_valid_utf8(b + rest);
    crate::index::lemma_encoded_prefix_boundary(b, encode_utf8(rest));
    let e = encode_utf8(b + rest);
    assert(e.subrange(encode_utf8(b).len() as int, e.len() as int) =~= encode_utf8(rest));
    vstd::utf8::encode_utf8_decode_utf8(rest);
    assert(word_remainder(b, s.candidates[s.cursor]) == Some(rest));
}

} // verus!
