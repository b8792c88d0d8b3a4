//! The predictor: prefix lookups over the word dictionary (ranked by
//! frequency) and over the shortcode dictionary (resolved to symbols).

use crate::index::{
    all_keys_utf8, built_map, bytes_lt, check_map, is_map_bytes, keys_ascending, map_bytes, map_entries, open_map,
    prefix_matches, search_prefix,
};
use crate::builder::{build_fst, encode_symbol_table, entry_bytes, lemma_entry_bytes_ascending, strictly_ascending};
use crate::rank::{
    first_n, keys_increase, lemma_rank_properties, lemma_rank_ties_in_key_order, non_increasing, pair_views, rank,
    ties_in_key_order, top_ranked,
};
use crate::text::{
    ascii_lowercase, is_ascii_lower, is_ascii_upper, lower_char, lower_chars, push_char, to_ascii_upper,
    upper_char,
};
use vstd::prelude::*;
use vstd::utf8::*;

verus! {

#[verifier::external_type_specification]
#[verifier::external_body]
pub struct ExBincodeErrorKind(bincode::ErrorKind);

/// The largest number of words that one word query returns.
pub const WORD_COUNT: usize = 25;

#[derive(Debug)]
pub enum PredictionError {
    /// The dictionary could not be read, or a matching key is not UTF-8.
    FstError(fst::Error),
    /// A shortcode names a symbol that the symbol table does not hold.
    MissingSymbol(String, u64),
    /// The serialized symbol table could not be decoded.
    SymbolTableError(bincode::Error),
}

/// True when the first character is an ASCII capital and no other one is.
pub open spec fn title_cased(s: Seq<char>) -> bool {
    &&& s.len() > 0
    &&& is_ascii_upper(s[0])
    &&& forall|i: int| 1 <= i < s.len() ==> !is_ascii_upper(#[trigger] s[i])
}

/// `w` with its first character made capital.
pub open spec fn title_case(w: Seq<char>) -> Seq<char> {
    if w.len() == 0 {
        w
    } else {
        w.update(0, upper_char(w[0]))
    }
}

/// A word as shown for a query: capitalized when the query was.
pub open spec fn shown_word(w: Seq<char>, title: bool) -> Seq<char> {
    if title {
        title_case(w)
    } else {
        w
    }
}

/// The dictionary entries whose key starts with the query, compared without
/// regard to ASCII case.
pub open spec fn word_matches(entries: Seq<(Seq<u8>, u64)>, prefix: Seq<char>) -> Seq<(Seq<u8>, u64)> {
    prefix_matches(entries, encode_utf8(lower_chars(prefix)))
}

/// Byte keys decoded to characters.
pub open spec fn decoded(found: Seq<(Seq<u8>, u64)>) -> Seq<(Seq<char>, u64)> {
    found.map_values(|e: (Seq<u8>, u64)| (decode_utf8(e.0), e.1))
}

/// The words offered for `prefix`: the matches ranked by frequency, the first
/// `WORD_COUNT` of them, capitalized when the query is title-cased.
pub open spec fn word_candidates(entries: Seq<(Seq<u8>, u64)>, prefix: Seq<char>) -> Seq<Seq<char>> {
    shown_words(first_n(rank(decoded(word_matches(entries, prefix))), WORD_COUNT as nat), title_cased(prefix))
}

/// The words of ranked entries as shown, capitalized when `title` holds.
pub open spec fn shown_words(top: Seq<(Seq<char>, u64)>, title: bool) -> Seq<Seq<char>> {
    top.map_values(|e: (Seq<char>, u64)| shown_word(e.0, title))
}

pub open spec fn string_views(v: Seq<String>) -> Seq<Seq<char>> {
    v.map_values(|s: String| s@)
}

/// What a word query for `prefix` returns: the candidates when every matching
/// key is UTF-8, an `FstError` otherwise.
pub open spec fn word_outcome(
    entries: Seq<(Seq<u8>, u64)>,
    prefix: Seq<char>,
    r: Result<Vec<String>, PredictionError>,
) -> bool {
    &&& r is Ok <==> all_keys_utf8(word_matches(entries, prefix))
    &&& r matches Ok(v) ==> string_views(v@) == word_candidates(entries, prefix)
    &&& r matches Err(e) ==> e is FstError
}

/// True when every symbol identifier among `found` indexes a table of `n` symbols.
pub open spec fn all_ids_known(found: Seq<(Seq<u8>, u64)>, n: nat) -> bool {
    forall|i: int| 0 <= i < found.len() ==> #[trigger] found[i].1 < n
}

/// `(code, id)` is the first entry of `found` whose identifier is out of range.
pub open spec fn first_unknown(found: Seq<(Seq<u8>, u64)>, n: nat, code: Seq<char>, id: u64) -> bool {
    exists|i: int|
        0 <= i < found.len() && #[trigger] found[i].1 >= n && (forall|j: int|
            0 <= j < i ==> #[trigger] found[j].1 < n) && code == decode_utf8(found[i].0) && id
            == found[i].1
}

/// Each matching shortcode with the symbol that it names.
pub open spec fn symbol_pairs(found: Seq<(Seq<u8>, u64)>, symbols: Seq<Seq<char>>) -> Seq<(Seq<char>, Seq<char>)> {
    found.map_values(|e: (Seq<u8>, u64)| (decode_utf8(e.0), symbols[e.1 as int]))
}

pub open spec fn string_pair_views(v: Seq<(String, String)>) -> Seq<(Seq<char>, Seq<char>)> {
    v.map_values(|p: (String, String)| (p.0@, p.1@))
}

/// What a shortcode query for `prefix` returns: every matching shortcode, in
/// dictionary order, with its symbol; an `FstError` when a matching key is not
/// UTF-8; else `MissingSymbol` for the first shortcode whose symbol is missing.
pub open spec fn symbol_outcome(
    entries: Seq<(Seq<u8>, u64)>,
    symbols: Seq<Seq<char>>,
    prefix: Seq<char>,
    r: Result<Vec<(String, String)>, PredictionError>,
) -> bool {
    let found = prefix_matches(entries, encode_utf8(prefix));
    &&& r is Ok <==> all_keys_utf8(found) && all_ids_known(found, symbols.len())
    &&& r matches Ok(v) ==> string_pair_views(v@) == symbol_pairs(found, symbols)
    &&& r matches Err(e) ==> (e is FstError <==> !all_keys_utf8(found))
    &&& r matches Err(e) ==> (e is FstError || (e matches PredictionError::MissingSymbol(code, id)
        && first_unknown(found, symbols.len(), code@, id)))
}

/// The word dictionary, the shortcode dictionary and the symbol table that
/// shortcodes index. Nothing changes them once built.
pub struct Predictor {
    dictionary: fst::Map<Vec<u8>>,
    shortcode_dictionary: fst::Map<Vec<u8>>,
    symbols: Vec<String>,
}

impl Predictor {
    /// Word to frequency, in key order.
    pub closed spec fn word_entries(&self) -> Seq<(Seq<u8>, u64)> {
        map_entries(self.dictionary)
    }

    /// Shortcode to symbol identifier, in key order.
    pub closed spec fn shortcode_entries(&self) -> Seq<(Seq<u8>, u64)> {
        map_entries(self.shortcode_dictionary)
    }

    /// The symbols, indexed by identifier.
    pub closed spec fn symbol_table(&self) -> Seq<Seq<char>> {
        string_views(self.symbols@)
    }

    /// Both maps read bytes that a builder wrote: their keys ascend and a
    /// search on them cannot panic.
    #[verifier::type_invariant]
    spec fn maps_built(self) -> bool {
        built_map(self.dictionary) && built_map(self.shortcode_dictionary)
    }

    fn from_maps(
        dictionary: fst::Map<Vec<u8>>,
        shortcode_dictionary: fst::Map<Vec<u8>>,
        symbols: Vec<String>,
    ) -> (r: Predictor)
        requires
            built_map(dictionary),
            built_map(shortcode_dictionary),
        ensures
            r.word_entries() == map_entries(dictionary),
            r.shortcode_entries() == map_entries(shortcode_dictionary),
            r.symbol_table() == string_views(symbols@),
    {
        Predictor { dictionary, shortcode_dictionary, symbols }
    }

    /// The keys of both dictionaries strictly ascend.
    pub fn keys_ascend(&self)
        ensures
            keys_ascending(self.word_entries()),
            keys_ascending(self.shortcode_entries()),
    {
        proof {
            use_type_invariant(self);
        }
    }

    /// Builds a predictor from the two serialized maps and the serialized
    /// symbol table. The maps must be bytes that a map builder wrote (see
    /// `build_fst`): `fst` leaves it to the caller to vouch for them, and
    /// their checksum is verified. It fails only when the symbol table does
    /// not decode.
    pub fn load(dictionary: Vec<u8>, shortcode_dictionary: Vec<u8>, symbols: &[u8]) -> (r: Result<
        Predictor,
        PredictionError,
    >)
        requires
            is_map_bytes(dictionary@),
            is_map_bytes(shortcode_dictionary@),
        ensures
            (exists|t: Seq<Seq<char>>| symbols@ == #[trigger] table_bytes(t)) ==> r is Ok,
            r matches Err(e) ==> e is SymbolTableError,
            r matches Ok(p) ==> forall|e: Seq<(Seq<u8>, u64)>|
                keys_ascending(e) && dictionary@ == #[trigger] map_bytes(e) ==> p.word_entries() == e,
            r matches Ok(p) ==> forall|e: Seq<(Seq<u8>, u64)>|
                keys_ascending(e) && shortcode_dictionary@ == #[trigger] map_bytes(e) ==> p.shortcode_entries()
                    == e,
            r matches Ok(p) ==> forall|t: Seq<Seq<char>>|
                symbols@ == #[trigger] table_bytes(t) ==> p.symbol_table() == t,
    {
        let ghost e1 = choose|e: Seq<(Seq<u8>, u64)>| keys_ascending(e) && dictionary@ == map_bytes(e);
        let ghost e2 = choose|e: Seq<(Seq<u8>, u64)>| keys_ascending(e) && shortcode_dictionary@ == map_bytes(e);
        let ghost b1 = dictionary@;
        let ghost b2 = shortcode_dictionary@;
        let dictionary = match open_map(dictionary) {
            Ok(m) => m,
            Err(e) => return Err(PredictionError::FstError(e)),
        };
        if let Err(e) = check_map(&dictionary) {
            return Err(PredictionError::FstError(e));
        }
        let shortcode_dictionary = match open_map(shortcode_dictionary) {
            Ok(m) => m,
            Err(e) => return Err(PredictionError::FstError(e)),
        };
        if let Err(e) = check_map(&shortcode_dictionary) {
            return Err(PredictionError::FstError(e));
        }
        let symbols = match decode_symbol_table(symbols) {
            Ok(s) => s,
            Err(e) => return Err(PredictionError::SymbolTableError(e)),
        };
        proof {
            assert forall|e: Seq<(Seq<u8>, u64)>|
                keys_ascending(e) && b1 == #[trigger] map_bytes(e) implies map_entries(dictionary) == e by {
                assert(map_entries(dictionary) == e1);
                assert(map_entries(dictionary) == e);
            }
            assert forall|e: Seq<(Seq<u8>, u64)>|
                keys_ascending(e) && b2 == #[trigger] map_bytes(e) implies map_entries(shortcode_dictionary) == e by {
                assert(map_entries(shortcode_dictionary) == e);
            }
        }
        Ok(Predictor::from_maps(dictionary, shortcode_dictionary, symbols))
    }

    /// Builds a predictor from word counts, shortcode identifiers and the
    /// symbol table; it fails exactly when the keys of a list do not strictly
    /// ascend.
    pub fn from_entries(
        words: &Vec<(String, u64)>,
        shortcodes: &Vec<(String, u64)>,
        symbols: &Vec<String>,
    ) -> (r: Result<Predictor, PredictionError>)
        ensures
            r is Ok <==> strictly_ascending(pair_views(words@)) && strictly_ascending(pair_views(shortcodes@)),
            r matches Ok(p) ==> p.word_entries() == entry_bytes(pair_views(words@))
                && p.shortcode_entries() == entry_bytes(pair_views(shortcodes@))
                && p.symbol_table() == string_views(symbols@),
    {
        let dictionary = match build_fst(words) {
            Ok(b) => b,
            Err(e) => return Err(PredictionError::FstError(e)),
        };
        let codes = match build_fst(shortcodes) {
            Ok(b) => b,
            Err(e) => return Err(PredictionError::FstError(e)),
        };
        let table = match encode_symbol_table(symbols) {
            Ok(b) => b,
            Err(e) => return Err(PredictionError::SymbolTableError(e)),
        };
        proof {
            lemma_entry_bytes_ascending(pair_views(words@));
            lemma_entry_bytes_ascending(pair_views(shortcodes@));
            assert(is_map_bytes(dictionary@));
            assert(is_map_bytes(codes@));
        }
        let r = Predictor::load(dictionary, codes, table.as_slice());
        r
    }

    pub fn is_title_cased(context: &str) -> (r: bool)
        ensures
            r == title_cased(context@),
    {
        let n = context.unicode_len();
        if n == 0 {
            return false;
        }
        let first = context.get_char(0);
        if !('A' <= first && first <= 'Z') {
            return false;
        }
        let mut i: usize = 1;
        while i < n
            invariant
                n == context@.len(),
                1 <= i <= n,
                forall|j: int| 1 <= j < i ==> !is_ascii_upper(#[trigger] context@[j]),
            decreases n - i,
        {
            let c = context.get_char(i);
            if 'A' <= c && c <= 'Z' {
                return false;
            }
            i += 1;
        }
        true
    }

    pub fn title_case(word: String) -> (r: String)
        ensures
            r@ == title_case(word@),
    {
        let n = word.as_str().unicode_len();
        if n == 0 {
            return word;
        }
        let mut out = String::new();
        push_char(&mut out, to_ascii_upper(word.as_str().get_char(0)));
        out.append(word.as_str().substring_char(1, n));
        assert(out@ =~= title_case(word@));
        out
    }

    pub fn word(&self, context: &str) -> (r: Result<Vec<String>, PredictionError>)
        ensures
            word_outcome(self.word_entries(), context@, r),
            keys_ascending(self.word_entries()),
    {
        let title = Predictor::is_title_cased(context);
        let lowered = ascii_lowercase(context);
        proof {
            use_type_invariant(self);
        }
        let found = match search_prefix(&self.dictionary, lowered.as_str()) {
            Ok(v) => v,
            Err(e) => return Err(PredictionError::FstError(e)),
        };
        let ghost matches = word_matches(self.word_entries(), context@);
        assert(pair_views(found@) =~= decoded(matches));
        let top = top_ranked(&found, WORD_COUNT);
        let ghost expected = word_candidates(self.word_entries(), context@);
        assert forall|k: int| 0 <= k < top.len() implies expected[k] == shown_word(
            #[trigger] pair_views(top@)[k].0,
            title,
        ) by {}
        let mut out: Vec<String> = Vec::new();
        let mut i: usize = 0;
        while i < top.len()
            invariant
                i <= top.len(),
                title == title_cased(context@),
                pair_views(top@) == first_n(rank(decoded(matches)), WORD_COUNT as nat),
                expected == word_candidates(self.word_entries(), context@),
                expected.len() == top.len(),
                string_views(out@) == expected.take(i as int),
                forall|k: int| 0 <= k < top.len() ==> expected[k] == shown_word(
                    #[trigger] pair_views(top@)[k].0,
                    title,
                ),
            decreases top.len() - i,
        {
            let w = top[i].0.clone();
            assert(pair_views(top@)[i as int].0 == w@);
            let shown = if title {
                Predictor::title_case(w)
            } else {
                w
            };
            assert(expected[i as int] == shown_word(pair_views(top@)[i as int].0, title));
            assert(expected[i as int] == shown@);
            let ghost prev = out@;
            out.push(shown);
            assert(string_views(out@) =~= string_views(prev).push(shown@));
            assert(string_views(out@) =~= expected.take(i + 1));
            i += 1;
        }
        assert(expected.take(top.len() as int) =~= expected);
        Ok(out)
    }

    pub fn symbol(&self, context: &str) -> (r: Result<Vec<(String, String)>, PredictionError>)
        ensures
            symbol_outcome(self.shortcode_entries(), self.symbol_table(), context@, r),
            keys_ascending(self.shortcode_entries()),
    {
        proof {
            use_type_invariant(self);
        }
        let found = match search_prefix(&self.shortcode_dictionary, context) {
            Ok(v) => v,
            Err(e) => return Err(PredictionError::FstError(e)),
        };
        let ghost matches = prefix_matches(self.shortcode_entries(), encode_utf8(context@));
        let ghost table = self.symbol_table();
        assert(crate::index::str_entries_match(found@, matches));
        assert forall|j: int| 0 <= j < found@.len() implies {
            &&& (#[trigger] found@[j]).0@ == decode_utf8(matches[j].0)
            &&& found@[j].1 == matches[j].1
        } by {
            assert(found@[j].0@ == decode_utf8(matches[j].0));
        }
        let mut out: Vec<(String, String)> = Vec::new();
        let mut i: usize = 0;
        while i < found.len()
            invariant
                i <= found.len(),
                found@.len() == matches.len(),
                matches == prefix_matches(self.shortcode_entries(), encode_utf8(context@)),
                keys_ascending(self.shortcode_entries()),
                table == self.symbol_table(),
                table.len() == self.symbols@.len(),
                forall|j: int|
                    0 <= j < found@.len() ==> {
                        &&& (#[trigger] found@[j]).0@ == decode_utf8(matches[j].0)
                        &&& found@[j].1 == matches[j].1
                    },
                all_keys_utf8(matches),
                forall|j: int| 0 <= j < i ==> #[trigger] matches[j].1 < table.len(),
                string_pair_views(out@) == symbol_pairs(matches, table).take(i as int),
            decreases found.len() - i,
        {
            let ident = found[i].1;
            if ident >= self.symbols.len() as u64 {
                let code = found[i].0.clone();
                assert(matches[i as int].1 >= table.len());
                assert(!all_ids_known(matches, table.len()));
                assert(first_unknown(matches, table.len(), code@, ident));
                let r = Err(PredictionError::MissingSymbol(code, ident));
                return r;
            }
            let code = found[i].0.clone();
            let sym = self.symbols[ident as usize].clone();
            assert(table[ident as int] == sym@);
            assert(symbol_pairs(matches, table)[i as int] == (code@, sym@));
            let ghost prev = out@;
            out.push((code, sym));
            assert(string_pair_views(out@) =~= string_pair_views(prev).push((code@, sym@)));
            assert(string_pair_views(out@) =~= symbol_pairs(matches, table).take(i + 1));
            i += 1;
        }
        assert(symbol_pairs(matches, table).take(found.len() as int) =~= symbol_pairs(matches, table));
        Ok(out)
    }
}

/// `n` as `k` little-endian bytes.
pub open spec fn le_bytes(n: nat, k: nat) -> Seq<u8>
    decreases k,
{
    if k == 0 {
        seq![]
    } else {
        seq![(n % 256) as u8] + le_bytes(n / 256, (k - 1) as nat)
    }
}

/// Each string as its byte length in eight little-endian bytes, then its bytes.
pub open spec fn strings_bytes(t: Seq<Seq<char>>) -> Seq<u8>
    decreases t.len(),
{
    if t.len() == 0 {
        seq![]
    } else {
        strings_bytes(t.drop_last()) + le_bytes(encode_utf8(t.last()).len(), 8) + encode_utf8(t.last())
    }
}

/// The bincode layout of a sequence of strings (fixed-width integers, little
/// endian): the count in eight bytes, then each string.
pub open spec fn table_bytes(t: Seq<Seq<char>>) -> Seq<u8> {
    le_bytes(t.len(), 8) + strings_bytes(t)
}

/// Relies on `bincode::deserialize`: reads a serialized sequence of strings,
/// in the layout that `bincode::serialize` writes.
#[verifier::external_body]
fn decode_symbol_table(bytes: &[u8]) -> (r: Result<Vec<String>, bincode::Error>)
    ensures
        (exists|t: Seq<Seq<char>>| bytes@ == #[trigger] table_bytes(t)) ==> r is Ok,
        r matches Ok(v) ==> forall|t: Seq<Seq<char>>| bytes@ == #[trigger] table_bytes(t) ==> string_views(v@) == t,
{
    bincode::deserialize(bytes)
}

} // verus!

verus! {

/// `w` with the capital that title-casing gave its first letter undone.
pub open spec fn untitled(w: Seq<char>, title: bool) -> Seq<char> {
    if title && w.len() > 0 {
        w.update(0, lower_char(w[0]))
    } else {
        w
    }
}

/// Every word that a word query offers, with the capital of a title-cased
/// query undone, starts with the query in small letters.
pub proof fn lemma_word_starts_with_prefix(
    entries: Seq<(Seq<u8>, u64)>,
    prefix: Seq<char>,
    r: Result<Vec<String>, PredictionError>,
)
    requires
        word_outcome(entries, prefix, r),
    ensures
        r matches Ok(v) ==> forall|i: int|
            0 <= i < v@.len() ==> lower_chars(prefix).is_prefix_of(
                untitled((#[trigger] v@[i])@, title_cased(prefix)),
            ),
{
    if let Ok(v) = r {
        let lp = lower_chars(prefix);
        let title = title_cased(prefix);
        let found = word_matches(entries, prefix);
        let d = decoded(found);
        let ranked = rank(d);
        let top = first_n(ranked, WORD_COUNT as nat);
        lemma_rank_properties(d);
        crate::index::lemma_prefix_matches(entries, encode_utf8(lp));
        assert(string_views(v@).len() == v@.len());
        assert(shown_words(top, title).len() == top.len());
        assert forall|i: int| 0 <= i < v@.len() implies lp.is_prefix_of(
            untitled((#[trigger] v@[i])@, title),
        ) by {
            assert(string_views(v@)[i] == v@[i]@);
            assert(shown_words(top, title)[i] == shown_word(top[i].0, title));
            assert(top[i] == ranked[i]);
            assert(ranked.contains(ranked[i]));
            let j = choose|j: int| 0 <= j < d.len() && d[j] == ranked[i];
            let k = found[j].0;
            assert(encode_utf8(lp).is_prefix_of(k));
            assert(valid_utf8(k));
            crate::index::lemma_encoded_prefix_decodes(lp, k);
            let word = decode_utf8(k);
            assert(top[i].0 == word);
            if title {
                assert(lp[0] == lower_char(prefix[0]));
                assert(word[0] == lp[0]);
                assert(is_ascii_lower(word[0]));
                assert(lower_char(upper_char(word[0])) == word[0]);
                assert(untitled(v@[i]@, title) =~= word);
            }
        }
    }
}

/// A word query returns at most `WORD_COUNT` words, taken in order of
/// non-increasing frequency.
pub proof fn lemma_word_ranked(
    entries: Seq<(Seq<u8>, u64)>,
    prefix: Seq<char>,
    r: Result<Vec<String>, PredictionError>,
)
    requires
        word_outcome(entries, prefix, r),
    ensures
        r matches Ok(v) ==> {
            let top = first_n(rank(decoded(word_matches(entries, prefix))), WORD_COUNT as nat);
            &&& v@.len() <= WORD_COUNT
            &&& v@.len() == top.len()
            &&& non_increasing(top)
            &&& forall|i: int|
                0 <= i < v@.len() ==> (#[trigger] v@[i])@ == shown_word(
                    top[i].0,
                    title_cased(prefix),
                )
        },
{
    if let Ok(v) = r {
        let ranked = rank(decoded(word_matches(entries, prefix)));
        let top = first_n(ranked, WORD_COUNT as nat);
        lemma_rank_properties(decoded(word_matches(entries, prefix)));
        assert(string_views(v@).len() == v@.len());
        assert(shown_words(top, title_cased(prefix)).len() == top.len());
        assert forall|i: int, j: int| 0 <= i < j < top.len() implies top[i].1 >= top[j].1 by {
            assert(top[i] == ranked[i] && top[j] == ranked[j]);
        }
        assert forall|i: int| 0 <= i < v@.len() implies (#[trigger] v@[i])@ == shown_word(
            top[i].0,
            title_cased(prefix),
        ) by {
            assert(string_views(v@)[i] == v@[i]@);
            assert(shown_words(top, title_cased(prefix))[i] == shown_word(top[i].0, title_cased(prefix)));
        }
    }
}

/// Every shortcode that a shortcode query returns starts with the query,
/// with case kept.
pub proof fn lemma_symbol_starts_with_prefix(
    entries: Seq<(Seq<u8>, u64)>,
    symbols: Seq<Seq<char>>,
    prefix: Seq<char>,
    r: Result<Vec<(String, String)>, PredictionError>,
)
    requires
        symbol_outcome(entries, symbols, prefix, r),
    ensures
        r matches Ok(v) ==> forall|i: int|
            0 <= i < v@.len() ==> prefix.is_prefix_of((#[trigger] v@[i]).0@),
{
    if let Ok(v) = r {
        let found = prefix_matches(entries, encode_utf8(prefix));
        crate::index::lemma_prefix_matches(entries, encode_utf8(prefix));
        assert(string_pair_views(v@).len() == v@.len());
        assert(symbol_pairs(found, symbols).len() == found.len());
        assert forall|i: int| 0 <= i < v@.len() implies prefix.is_prefix_of((#[trigger] v@[i]).0@) by {
            assert(string_pair_views(v@)[i] == symbol_pairs(found, symbols)[i]);
            assert(valid_utf8(found[i].0));
            crate::index::lemma_encoded_prefix_decodes(prefix, found[i].0);
        }
    }
}

/// Over shortcode keys in ascending order (as those of every predictor are),
/// a shortcode query returns its shortcodes in strictly ascending byte order,
/// so none twice; and `MissingSymbol` names the least matching shortcode whose
/// symbol is missing.
pub proof fn lemma_symbol_results_ascend(
    entries: Seq<(Seq<u8>, u64)>,
    symbols: Seq<Seq<char>>,
    prefix: Seq<char>,
    r: Result<Vec<(String, String)>, PredictionError>,
)
    requires
        symbol_outcome(entries, symbols, prefix, r),
        keys_ascending(entries),
    ensures
        r matches Ok(v) ==> forall|i: int|
            0 < i < v@.len() ==> bytes_lt(encode_utf8(v@[i - 1].0@), encode_utf8((#[trigger] v@[i]).0@)),
        r matches Err(PredictionError::MissingSymbol(code, id)) ==> forall|j: int|
            0 <= j < prefix_matches(entries, encode_utf8(prefix)).len() && (#[trigger] prefix_matches(
                entries,
                encode_utf8(prefix),
            )[j]).1 >= symbols.len() ==> encode_utf8(code@) == prefix_matches(entries, encode_utf8(prefix))[j].0
                || bytes_lt(encode_utf8(code@), prefix_matches(entries, encode_utf8(prefix))[j].0),
{
    broadcast use vstd::utf8::decode_utf8_encode_utf8;

    let found = prefix_matches(entries, encode_utf8(prefix));
    crate::index::lemma_prefix_matches_ascending(entries, encode_utf8(prefix));
    match r {
        Ok(v) => {
            assert(string_pair_views(v@).len() == v@.len());
            assert(symbol_pairs(found, symbols).len() == found.len());
            assert forall|i: int| 0 < i < v@.len() implies bytes_lt(
                encode_utf8(v@[i - 1].0@),
                encode_utf8((#[trigger] v@[i]).0@),
            ) by {
                assert(string_pair_views(v@)[i] == symbol_pairs(found, symbols)[i]);
                assert(string_pair_views(v@)[i - 1] == symbol_pairs(found, symbols)[i - 1]);
                assert(valid_utf8(found[i].0) && valid_utf8(found[i - 1].0));
                assert(encode_utf8(decode_utf8(found[i].0)) == found[i].0);
                assert(encode_utf8(decode_utf8(found[i - 1].0)) == found[i - 1].0);
            }
        },
        Err(PredictionError::MissingSymbol(code, id)) => {
            let i = choose|i: int|
                0 <= i < found.len() && #[trigger] found[i].1 >= symbols.len() && (forall|j: int|
                    0 <= j < i ==> #[trigger] found[j].1 < symbols.len()) && code@ == decode_utf8(found[i].0)
                    && id == found[i].1;
            assert(valid_utf8(found[i].0));
            assert(encode_utf8(code@) == found[i].0);
            assert forall|j: int|
                0 <= j < found.len() && (#[trigger] found[j]).1 >= symbols.len() implies encode_utf8(code@)
                == found[j].0 || bytes_lt(encode_utf8(code@), found[j].0) by {
                if j > i {
                    crate::index::lemma_keys_apart(found, i, j);
                }
            }
        },
        _ => {},
    }
}

/// Queries that differ only in ASCII case find the same words in the same
/// order: a title-cased query (`Lit`) shows each with its first letter made
/// capital, any other query (`lit`, `LIT`) shows them as stored. Both succeed
/// when every matching key is UTF-8.
pub proof fn lemma_title_case_heuristic(
    entries: Seq<(Seq<u8>, u64)>,
    p: Seq<char>,
    q: Seq<char>,
    rp: Result<Vec<String>, PredictionError>,
    rq: Result<Vec<String>, PredictionError>,
)
    requires
        word_outcome(entries, p, rp),
        word_outcome(entries, q, rq),
        lower_chars(p) == lower_chars(q),
        all_keys_utf8(word_matches(entries, p)),
    ensures
        rp is Ok && rq is Ok,
        rp matches Ok(vp) ==> rq matches Ok(vq) ==> {
            let top = first_n(rank(decoded(word_matches(entries, p))), WORD_COUNT as nat);
            &&& string_views(vp@) == shown_words(top, title_cased(p))
            &&& string_views(vq@) == shown_words(top, title_cased(q))
        },
        rp matches Ok(vp) ==> (rq matches Ok(vq) ==> (title_cased(p) && !title_cased(q) ==> {
            &&& vp@.len() == vq@.len()
            &&& forall|i: int| 0 <= i < vp@.len() ==> (#[trigger] vp@[i])@ == title_case(vq@[i]@)
        })),
{
    assert(word_matches(entries, p) == word_matches(entries, q));
    if let Ok(vp) = rp {
        if let Ok(vq) = rq {
            let top = first_n(rank(decoded(word_matches(entries, p))), WORD_COUNT as nat);
            assert(string_views(vp@).len() == vp@.len());
            assert(string_views(vq@).len() == vq@.len());
            if title_cased(p) && !title_cased(q) {
                assert forall|i: int| 0 <= i < vp@.len() implies (#[trigger] vp@[i])@ == title_case(vq@[i]@) by {
                    assert(string_views(vp@)[i] == vp@[i]@);
                    assert(string_views(vq@)[i] == vq@[i]@);
                    assert(shown_words(top, true)[i] == title_case(top[i].0));
                    assert(shown_words(top, false)[i] == top[i].0);
                }
            }
        }
    }
}

/// Over word keys in ascending order (as those of every predictor are), the
/// words that a word query ranks stand, among equal frequencies, in ascending
/// key order.
pub proof fn lemma_word_ties_in_key_order(
    entries: Seq<(Seq<u8>, u64)>,
    prefix: Seq<char>,
    r: Result<Vec<String>, PredictionError>,
)
    requires
        word_outcome(entries, prefix, r),
        keys_ascending(entries),
    ensures
        r is Ok ==> ties_in_key_order(first_n(rank(decoded(word_matches(entries, prefix))), WORD_COUNT as nat)),
{
    broadcast use vstd::utf8::decode_utf8_encode_utf8;

    if r is Ok {
        let found = word_matches(entries, prefix);
        let d = decoded(found);
        crate::index::lemma_prefix_matches_ascending(entries, encode_utf8(lower_chars(prefix)));
        assert forall|i: int, j: int| 0 <= i < j < d.len() implies crate::rank::key_lt(d[i].0, d[j].0) by {
            crate::index::lemma_keys_apart(found, i, j);
            assert(valid_utf8(found[i].0) && valid_utf8(found[j].0));
            assert(encode_utf8(decode_utf8(found[i].0)) == found[i].0);
            assert(encode_utf8(decode_utf8(found[j].0)) == found[j].0);
        }
        lemma_rank_ties_in_key_order(d);
        lemma_rank_properties(d);
        let ranked = rank(d);
        let top = first_n(ranked, WORD_COUNT as nat);
        assert forall|i: int, j: int| 0 <= i < j < top.len() && top[i].1 == top[j].1 implies crate::rank::key_lt(
            top[i].0,
            top[j].0,
        ) by {
            assert(top[i] == ranked[i] && top[j] == ranked[j]);
        }
    }
}

/// Two word queries for the same prefix on the same predictor give the same
/// outcome, word for word and in the same order.
pub proof fn lemma_word_repeatable(
    entries: Seq<(Seq<u8>, u64)>,
    prefix: Seq<char>,
    r1: Result<Vec<String>, PredictionError>,
    r2: Result<Vec<String>, PredictionError>,
)
    requires
        word_outcome(entries, prefix, r1),
        word_outcome(entries, prefix, r2),
    ensures
        r1 is Ok <==> r2 is Ok,
        r1 matches Ok(v1) ==> r2 matches Ok(v2) && string_views(v1@) == string_views(v2@),
{
}

/// Two shortcode queries for the same prefix on the same predictor give the
/// same outcome, pair for pair and in the same order.
pub proof fn lemma_symbol_repeatable(
    entries: Seq<(Seq<u8>, u64)>,
    symbols: Seq<Seq<char>>,
    prefix: Seq<char>,
    r1: Result<Vec<(String, String)>, PredictionError>,
    r2: Result<Vec<(String, String)>, PredictionError>,
)
    requires
        symbol_outcome(entries, symbols, prefix, r1),
        symbol_outcome(entries, symbols, prefix, r2),
    ensures
        r1 is Ok <==> r2 is Ok,
        r1 matches Ok(v1) ==> r2 matches Ok(v2) && string_pair_views(v1@) == string_pair_views(
            v2@,
        ),
{
}

} // verus!
