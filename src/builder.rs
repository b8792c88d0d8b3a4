//! The offline side: turning word lists and shortcode lists into the
//! serialized maps and symbol table that the predictor loads.

use crate::engine::symbols_of;
use crate::index::{
    builder_entries, builder_finish, builder_insert, bytes_lt, keys_ascending, map_bytes,
    lemma_bytes_lt_irreflexive,
    lemma_bytes_lt_total, lemma_bytes_lt_transitive, lemma_encode_utf8_injective, new_map_builder,
};
use crate::parse::{
    decoded_code_points, emoji_code_points, parse_github_emoji_url, split_on, split_str, unicode_of,
    InvalidParseError,
};
use crate::predict::{string_pair_views, string_views, table_bytes};
use crate::rank::pair_views;
use crate::text::is_ascii_digit;
use vstd::prelude::*;
use vstd::utf8::*;

verus! {

/// Every key of `entries` comes strictly after the one before it, byte for byte.
pub open spec fn strictly_ascending(entries: Seq<(Seq<char>, u64)>) -> bool {
    forall|i: int|
        0 < i < entries.len() ==> bytes_lt(
            encode_utf8(entries[i - 1].0),
            encode_utf8(#[trigger] entries[i].0),
        )
}

/// The entries with each key as its UTF-8 bytes.
pub open spec fn entry_bytes(entries: Seq<(Seq<char>, u64)>) -> Seq<(Seq<u8>, u64)> {
    entries.map_values(|e: (Seq<char>, u64)| (encode_utf8(e.0), e.1))
}

pub proof fn lemma_entry_bytes_ascending(entries: Seq<(Seq<char>, u64)>)
    ensures
        strictly_ascending(entries) <==> keys_ascending(entry_bytes(entries)),
{
    let eb = entry_bytes(entries);
    if strictly_ascending(entries) {
        assert forall|i: int| 0 < i < eb.len() implies bytes_lt(eb[i - 1].0, #[trigger] eb[i].0) by {
            assert(bytes_lt(encode_utf8(entries[i - 1].0), encode_utf8(entries[i].0)));
        }
    }
    if keys_ascending(eb) {
        assert forall|i: int| 0 < i < entries.len() implies bytes_lt(
            encode_utf8(entries[i - 1].0),
            encode_utf8(#[trigger] entries[i].0),
        ) by {
            assert(bytes_lt(eb[i - 1].0, eb[i].0));
        }
    }
}

/// Serializes `entries` as a transducer map: it succeeds exactly when every
/// key comes strictly after the key before it, and then gives the bytes that
/// a map builder writes for them.
pub fn build_fst(entries: &Vec<(String, u64)>) -> (r: Result<Vec<u8>, fst::Error>)
    ensures
        r is Ok <==> strictly_ascending(pair_views(entries@)),
        r matches Ok(b) ==> b@ == map_bytes(entry_bytes(pair_views(entries@))),
{
    let mut b = new_map_builder();
    let mut i: usize = 0;
    while i < entries.len()
        invariant
            i <= entries.len(),
            builder_entries(b).len() == i,
            forall|j: int|
                0 <= j < i ==> #[trigger] builder_entries(b)[j] == (encode_utf8(entries@[j].0@), entries@[j].1),
            forall|j: int|
                0 < j < i ==> bytes_lt(
                    encode_utf8(entries@[j - 1].0@),
                    encode_utf8(#[trigger] entries@[j].0@),
                ),
        decreases entries.len() - i,
    {
        let ghost prev = builder_entries(b);
        match builder_insert(&mut b, entries[i].0.as_str(), entries[i].1) {
            Ok(()) => {},
            Err(e) => {
                assert(!strictly_ascending(pair_views(entries@))) by {
                    assert(i > 0);
                    assert(prev.last().0 == encode_utf8(entries@[i - 1].0@));
                    assert(pair_views(entries@)[i as int].0 == entries@[i as int].0@);
                    assert(pair_views(entries@)[i - 1].0 == entries@[i - 1].0@);
                }
                return Err(e);
            },
        }
        i += 1;
    }
    proof {
        let pv = pair_views(entries@);
        assert(builder_entries(b) =~= entry_bytes(pv)) by {
            assert forall|j: int| 0 <= j < entries@.len() implies builder_entries(b)[j] == entry_bytes(pv)[j] by {
                assert(pv[j] == (entries@[j].0@, entries@[j].1));
            }
        }
        assert(strictly_ascending(pv)) by {
            assert forall|j: int| 0 < j < pv.len() implies bytes_lt(
                encode_utf8(pv[j - 1].0),
                encode_utf8(#[trigger] pv[j].0),
            ) by {
                assert(pv[j] == (entries@[j].0@, entries@[j].1));
                assert(pv[j - 1] == (entries@[j - 1].0@, entries@[j - 1].1));
            }
        }
    }
    builder_finish(b)
}

} // verus!

verus! {

/// A key such as `u5272`: `u` followed by a digit (the Japanese-sign emoji,
/// which are left out).
pub open spec fn is_numbered_code(key: Seq<char>) -> bool {
    key.len() >= 2 && key[0] == 'u' && is_ascii_digit(key[1])
}

/// The (shortcode, emoji) pairs of a shortcode-to-image-address listing:
/// each shortcode that is not numbered and whose address names code points,
/// in order.
pub open spec fn emoji_pairs(entries: Seq<(Seq<char>, Seq<char>)>) -> Seq<(Seq<char>, Seq<char>)>
    decreases entries.len(),
{
    if entries.len() == 0 {
        seq![]
    } else {
        let rest = emoji_pairs(entries.drop_last());
        let key = entries.last().0;
        let pieces = emoji_code_points(entries.last().1);
        if !is_numbered_code(key) && (forall|i: int|
            0 <= i < pieces.len() ==> (#[trigger] unicode_of(pieces[i])) is Some) {
            rest.push((key, decoded_code_points(pieces)))
        } else {
            rest
        }
    }
}

fn is_numbered(key: &str) -> (r: bool)
    ensures
        r == is_numbered_code(key@),
{
    key.unicode_len() >= 2 && key.get_char(0) == 'u' && ('0' <= key.get_char(1) && key.get_char(1) <= '9')
}

/// The emoji of a listing of shortcodes and image addresses.
pub fn github_emoji_shortcodes(entries: &Vec<(String, String)>) -> (r: Vec<(String, String)>)
    ensures
        string_pair_views(r@) == emoji_pairs(string_pair_views(entries@)),
{
    let ghost all = string_pair_views(entries@);
    let mut out: Vec<(String, String)> = Vec::new();
    let mut i: usize = 0;
    while i < entries.len()
        invariant
            i <= entries.len(),
            all == string_pair_views(entries@),
            string_pair_views(out@) == emoji_pairs(all.take(i as int)),
        decreases entries.len() - i,
    {
        proof {
            assert(all.take(i + 1).drop_last() =~= all.take(i as int));
            assert(all.take(i + 1).last() == all[i as int]);
        }
        let ghost prev = string_pair_views(out@);
        if !is_numbered(entries[i].0.as_str()) {
            match parse_github_emoji_url(entries[i].1.as_str()) {
                Ok(text) => {
                    out.push((entries[i].0.clone(), text));
                    assert(string_pair_views(out@) =~= prev.push(string_pair_views(out@).last()));
                },
                Err(_) => {},
            }
        }
        i += 1;
    }
    assert(all.take(entries.len() as int) =~= all);
    out
}

/// The records of `data` read as semicolon-separated fields with `#`
/// comment lines and no header line: the fields of each record, or `None`
/// for a record that does not read.
pub uninterp spec fn semicolon_records(data: Seq<u8>) -> Seq<Option<Seq<Seq<char>>>>;

pub open spec fn record_views(r: Seq<Option<Vec<String>>>) -> Seq<Option<Seq<Seq<char>>>> {
    r.map_values(
        |o: Option<Vec<String>>| match o {
            Some(f) => Some(string_views(f@)),
            None => None,
        },
    )
}

/// Relies on `csv::ReaderBuilder` with `;` as delimiter, `#` as comment
/// byte and no header line, and on `Reader::into_records`: the records in
/// order, each as its fields, or `None` for a record that the reader refused.
#[verifier::external_body]
fn read_semicolon_records(data: &[u8]) -> (r: Vec<Option<Vec<String>>>)
    ensures
        record_views(r@) == semicolon_records(data@),
{
    csv::ReaderBuilder::new()
        .comment(Some(b'#'))
        .delimiter(b';')
        .has_headers(false)
        .from_reader(data)
        .into_records()
        .map(|rec| rec.ok().map(|rec| rec.iter().map(String::from).collect()))
        .collect()
}

/// The (entity name, character) pairs of the math classification records
/// whose character is in `whitelist`; a record with fewer than four fields
/// is passed over.
pub open spec fn math_pairs(records: Seq<Option<Seq<Seq<char>>>>, whitelist: Seq<Seq<char>>) -> Seq<
    (Seq<char>, Seq<char>),
>
    decreases records.len(),
{
    if records.len() == 0 {
        seq![]
    } else {
        let rest = math_pairs(records.drop_last(), whitelist);
        match records.last() {
            Some(f) => if f.len() >= 4 && whitelist.contains(f[2]) {
                rest.push((f[3], f[2]))
            } else {
                rest
            },
            None => rest,
        }
    }
}

fn contains_string(list: &Vec<String>, s: &String) -> (r: bool)
    ensures
        r == string_views(list@).contains(s@),
{
    let mut j: usize = 0;
    while j < list.len()
        invariant
            j <= list.len(),
            forall|k: int| 0 <= k < j ==> list@[k]@ != s@,
        decreases list.len() - j,
    {
        if list[j] == *s {
            assert(string_views(list@)[j as int] == s@);
            return true;
        }
        j += 1;
    }
    assert forall|k: int| 0 <= k < string_views(list@).len() implies string_views(list@)[k] != s@ by {
        assert(string_views(list@)[k] == list@[k]@);
    }
    false
}

/// The shortcodes of the math classification text `data` (records of
/// semicolon-separated fields), for the characters listed in `whitelist`.
pub fn math_symbol_shortcodes(data: &[u8], whitelist: &Vec<String>) -> (r: Vec<(String, String)>)
    ensures
        string_pair_views(r@) == math_pairs(semicolon_records(data@), string_views(whitelist@)),
{
    let records = read_semicolon_records(data);
    let ghost all = record_views(records@);
    let ghost wl = string_views(whitelist@);
    let mut out: Vec<(String, String)> = Vec::new();
    let mut i: usize = 0;
    while i < records.len()
        invariant
            i <= records.len(),
            all == record_views(records@),
            all == semicolon_records(data@),
            wl == string_views(whitelist@),
            string_pair_views(out@) == math_pairs(all.take(i as int), wl),
        decreases records.len() - i,
    {
        proof {
            assert(all.take(i + 1).drop_last() =~= all.take(i as int));
            assert(all.take(i + 1).last() == all[i as int]);
        }
        let ghost prev = string_pair_views(out@);
        match &records[i] {
            Some(fields) => {
                if fields.len() >= 4 && contains_string(whitelist, &fields[2]) {
                    out.push((fields[3].clone(), fields[2].clone()));
                    assert(string_pair_views(out@) =~= prev.push((fields@[3]@, fields@[2]@)));
                }
            },
            None => {},
        }
        i += 1;
    }
    assert(all.take(records.len() as int) =~= all);
    out
}

} // verus!

verus! {

/// The distinct elements of `s`, in order of first appearance.
pub open spec fn distinct_in_order(s: Seq<Seq<char>>) -> Seq<Seq<char>>
    decreases s.len(),
{
    if s.len() == 0 {
        seq![]
    } else {
        let t = distinct_in_order(s.drop_last());
        if t.contains(s.last()) {
            t
        } else {
            t.push(s.last())
        }
    }
}

proof fn lemma_distinct_in_order_len(s: Seq<Seq<char>>)
    ensures
        distinct_in_order(s).len() <= s.len(),
    decreases s.len(),
{
    if s.len() > 0 {
        lemma_distinct_in_order_len(s.drop_last());
    }
}

/// `entries` gives each shortcode of `pairs`, in order, the index in `table`
/// of its symbol.
pub open spec fn indexes_symbols(
    pairs: Seq<(Seq<char>, Seq<char>)>,
    table: Seq<Seq<char>>,
    entries: Seq<(Seq<char>, u64)>,
) -> bool {
    &&& entries.len() == pairs.len()
    &&& forall|i: int|
        0 <= i < entries.len() ==> {
            &&& (#[trigger] entries[i]).0 == pairs[i].0
            &&& entries[i].1 < table.len()
            &&& table[entries[i].1 as int] == pairs[i].1
        }
}

/// The symbol table of `pairs` (each symbol once, in order of first
/// appearance) and each shortcode with the identifier of its symbol.
pub fn symbol_table_of(pairs: &Vec<(String, String)>) -> (r: (Vec<String>, Vec<(String, u64)>))
    ensures
        string_views(r.0@) == distinct_in_order(symbols_of(string_pair_views(pairs@))),
        string_views(r.0@).no_duplicates(),
        indexes_symbols(string_pair_views(pairs@), string_views(r.0@), pair_views(r.1@)),
{
    let ghost pv = string_pair_views(pairs@);
    let ghost syms = symbols_of(pv);
    let mut table: Vec<String> = Vec::new();
    let mut entries: Vec<(String, u64)> = Vec::new();
    let mut i: usize = 0;
    assert(string_views(table@) =~= distinct_in_order(syms.take(0)));
    while i < pairs.len()
        invariant
            i <= pairs.len(),
            pv == string_pair_views(pairs@),
            syms == symbols_of(pv),
            table.len() <= i,
            string_views(table@) == distinct_in_order(syms.take(i as int)),
            string_views(table@).no_duplicates(),
            indexes_symbols(pv.take(i as int), string_views(table@), pair_views(entries@)),
        decreases pairs.len() - i,
    {
        let ghost tv = string_views(table@);
        let mut j: usize = 0;
        while j < table.len() && table[j] != pairs[i].1
            invariant
                i < pairs.len(),
                j <= table.len(),
                tv == string_views(table@),
                forall|k: int| 0 <= k < j ==> tv[k] != pairs@[i as int].1@,
            decreases table.len() - j,
        {
            j += 1;
        }
        proof {
            assert(syms.take(i + 1).drop_last() =~= syms.take(i as int));
            assert(syms[i as int] == pairs@[i as int].1@);
            assert(syms.take(i + 1).last() == syms[i as int]);
        }
        if j == table.len() {
            assert(!tv.contains(syms[i as int]));
            table.push(pairs[i].1.clone());
            assert(string_views(table@) =~= tv.push(syms[i as int]));
        } else {
            assert(tv[j as int] == syms[i as int]);
        }
        let ghost prev = pair_views(entries@);
        entries.push((pairs[i].0.clone(), j as u64));
        assert(pair_views(entries@) =~= prev.push((pairs@[i as int].0@, j as u64)));
        assert(pv.take(i + 1) =~= pv.take(i as int).push(pv[i as int]));
        assert(string_views(table@)[j as int] == pairs@[i as int].1@);
        assert forall|k: int| 0 <= k < i + 1 implies {
            &&& (#[trigger] pair_views(entries@)[k]).0 == pv.take(i + 1)[k].0
            &&& pair_views(entries@)[k].1 < string_views(table@).len()
            &&& string_views(table@)[pair_views(entries@)[k].1 as int] == pv.take(i + 1)[k].1
        } by {
            if k < i {
                assert(pair_views(entries@)[k] == prev[k]);
                assert(pv.take(i + 1)[k] == pv.take(i as int)[k]);
                assert(string_views(table@)[prev[k].1 as int] == tv[prev[k].1 as int]);
            }
        }
        i += 1;
    }
    assert(syms.take(pairs.len() as int) =~= syms);
    assert(pv.take(pairs.len() as int) =~= pv);
    (table, entries)
}

} // verus!

verus! {

/// `a` comes before `b` or equals it, in lexicographic byte order.
pub open spec fn bytes_le(a: Seq<u8>, b: Seq<u8>) -> bool {
    a == b || bytes_lt(a, b)
}

/// The order of `(String, String)`: by the first string, then the second,
/// each compared by its bytes.
pub open spec fn pair_le(a: (Seq<char>, Seq<char>), b: (Seq<char>, Seq<char>)) -> bool {
    bytes_lt(encode_utf8(a.0), encode_utf8(b.0)) || (a.0 == b.0 && bytes_le(
        encode_utf8(a.1),
        encode_utf8(b.1),
    ))
}

/// Relies on `slice::sort` with the `Ord` of `(String, String)`: a
/// permutation of the pairs, ordered field by field, strings by their bytes.
#[verifier::external_body]
fn sort_pairs(v: &mut Vec<(String, String)>)
    ensures
        string_pair_views(final(v)@).to_multiset() == string_pair_views(old(v)@).to_multiset(),
        forall|i: int, j: int|
            0 <= i < j < final(v)@.len() ==> pair_le(
                string_pair_views(final(v)@)[i],
                string_pair_views(final(v)@)[j],
            ),
{
    v.sort()
}

/// Relies on `bincode::serialize`: the encoding of a sequence of strings
/// (fixed-width little-endian lengths, no size limit, so it cannot fail).
#[verifier::external_body]
pub(crate) fn encode_symbol_table(symbols: &Vec<String>) -> (r: Result<Vec<u8>, bincode::Error>)
    ensures
        r is Ok,
        r matches Ok(b) ==> b@ == table_bytes(string_views(symbols@)),
{
    bincode::serialize(symbols)
}

/// Two pairs of `pairs` have the same shortcode.
pub open spec fn shares_shortcode(pairs: Seq<(Seq<char>, Seq<char>)>) -> bool {
    exists|i: int, j: int| 0 <= i < j < pairs.len() && #[trigger] pairs[i].0 == #[trigger] pairs[j].0
}

/// Along a sequence whose consecutive keys ascend strictly, any earlier key
/// comes strictly before any later one.
proof fn lemma_strictly_ascending_apart(entries: Seq<(Seq<char>, u64)>, p: int, q: int)
    requires
        strictly_ascending(entries),
        0 <= p < q < entries.len(),
    ensures
        bytes_lt(encode_utf8(entries[p].0), encode_utf8(entries[q].0)),
    decreases q - p,
{
    if q > p + 1 {
        lemma_strictly_ascending_apart(entries, p, q - 1);
        lemma_bytes_lt_transitive(
            encode_utf8(entries[p].0),
            encode_utf8(entries[q - 1].0),
            encode_utf8(entries[q].0),
        );
    }
}

/// A permutation of a sequence in which two pairs share a shortcode has two
/// such pairs as well.
proof fn lemma_shares_shortcode_permuted(a: Seq<(Seq<char>, Seq<char>)>, b: Seq<(Seq<char>, Seq<char>)>)
    requires
        a.to_multiset() == b.to_multiset(),
        shares_shortcode(a),
    ensures
        shares_shortcode(b),
{
    a.to_multiset_ensures();
    b.to_multiset_ensures();
    let (i, j) = choose|i: int, j: int| 0 <= i < j < a.len() && #[trigger] a[i].0 == #[trigger] a[j].0;
    let x = a[i];
    let y = a[j];
    assert(a.contains(x) && a.contains(y));
    assert(b.to_multiset().count(x) > 0);
    let p = choose|p: int| 0 <= p < b.len() && b[p] == x;
    let q: int = if x != y {
        assert(b.to_multiset().count(y) > 0);
        choose|q: int| 0 <= q < b.len() && b[q] == y
    } else {
        let ar = a.remove(i);
        assert(ar[j - 1] == y);
        assert(ar.contains(y));
        ar.to_multiset_ensures();
        assert(ar.to_multiset().count(x) > 0);
        assert(a.to_multiset().count(x) >= 2);
        let br = b.remove(p);
        br.to_multiset_ensures();
        assert(br.to_multiset().count(x) > 0);
        let r = choose|r: int| 0 <= r < br.len() && br[r] == x;
        if r < p {
            r
        } else {
            r + 1
        }
    };
    assert(p != q && b[p].0 == b[q].0);
    if p < q {
        assert(b[p].0 == b[q].0);
    } else {
        assert(b[q].0 == b[p].0);
    }
}

#[derive(Debug)]
pub enum BuildError {
    /// The map could not be built (two equal or unordered keys).
    Fst(fst::Error),
    /// The symbol table could not be serialized.
    Encode(bincode::Error),
}

/// The serialized shortcode map and symbol table, with their sizes.
pub struct ShortcodeFiles {
    pub shortcodes: Vec<u8>,
    pub symbols: Vec<u8>,
    pub shortcode_count: usize,
    pub symbol_count: usize,
}

/// What the shortcode files hold for `pairs`: the pairs are sorted; the
/// symbol table lists the distinct symbols in order of first appearance; the
/// map gives each shortcode the index of its symbol in that table.
pub open spec fn shortcode_files_of(pairs: Seq<(Seq<char>, Seq<char>)>, f: ShortcodeFiles) -> bool {
    exists|sorted: Seq<(Seq<char>, Seq<char>)>, entries: Seq<(Seq<char>, u64)>|
        sorted.to_multiset() == pairs.to_multiset() && (forall|i: int, j: int|
            0 <= i < j < sorted.len() ==> pair_le(sorted[i], sorted[j])) && #[trigger] indexes_symbols(
            sorted,
            distinct_in_order(symbols_of(sorted)),
            entries,
        ) && f.symbols@ == table_bytes(distinct_in_order(symbols_of(sorted))) && f.symbol_count
            == distinct_in_order(symbols_of(sorted)).len() && f.shortcode_count == pairs.len()
            && f.shortcodes@ == map_bytes(entry_bytes(entries))
}

/// Sorts the (shortcode, symbol) pairs, numbers the distinct symbols, and
/// serializes the map from shortcode to symbol number with the symbol table.
pub fn write_symbols_and_shortcodes(shortcodes_symbols: Vec<(String, String)>) -> (r: Result<
    ShortcodeFiles,
    BuildError,
>)
    ensures
        r is Ok <==> !shares_shortcode(string_pair_views(shortcodes_symbols@)),
        r matches Ok(files) ==> shortcode_files_of(string_pair_views(shortcodes_symbols@), files),
{
    let mut pairs = shortcodes_symbols;
    sort_pairs(&mut pairs);
    proof {
        assert(string_pair_views(pairs@).len() == pairs@.len());
        assert(string_pair_views(shortcodes_symbols@).len() == shortcodes_symbols@.len());
        string_pair_views(pairs@).to_multiset_ensures();
        string_pair_views(shortcodes_symbols@).to_multiset_ensures();
    }
    let (table, entries) = symbol_table_of(&pairs);
    proof {
        lemma_distinct_in_order_len(symbols_of(string_pair_views(pairs@)));
        assert(symbols_of(string_pair_views(pairs@)).len() == pairs@.len());
        assert(string_views(table@).len() == table@.len());
    }
    proof {
        if shares_shortcode(string_pair_views(shortcodes_symbols@)) {
            let sv = string_pair_views(pairs@);
            lemma_shares_shortcode_permuted(string_pair_views(shortcodes_symbols@), sv);
            let (p, q) = choose|p: int, q: int| 0 <= p < q < sv.len() && #[trigger] sv[p].0 == #[trigger] sv[q].0;
            let ev = pair_views(entries@);
            assert(ev[p].0 == sv[p].0 && ev[q].0 == sv[q].0);
            if strictly_ascending(ev) {
                lemma_strictly_ascending_apart(ev, p, q);
                lemma_bytes_lt_irreflexive(encode_utf8(ev[p].0));
            }
        } else {
            let sv = string_pair_views(pairs@);
            let ev = pair_views(entries@);
            if shares_shortcode(sv) {
                lemma_shares_shortcode_permuted(sv, string_pair_views(shortcodes_symbols@));
            }
            assert forall|i: int| 0 < i < ev.len() implies bytes_lt(
                encode_utf8(ev[i - 1].0),
                encode_utf8(#[trigger] ev[i].0),
            ) by {
                assert(ev[i].0 == sv[i].0 && ev[i - 1].0 == sv[i - 1].0);
                assert(pair_le(sv[i - 1], sv[i]));
                if sv[i - 1].0 == sv[i].0 {
                    assert(shares_shortcode(sv));
                }
            }
        }
    }
    let shortcodes = match build_fst(&entries) {
        Ok(bytes) => bytes,
        Err(e) => return Err(BuildError::Fst(e)),
    };
    let symbols = match encode_symbol_table(&table) {
        Ok(bytes) => bytes,
        Err(e) => return Err(BuildError::Encode(e)),
    };
    let files = ShortcodeFiles { shortcodes, symbols, shortcode_count: pairs.len(), symbol_count: table.len() };
    proof {
        let sv = string_pair_views(pairs@);
        assert(files.shortcodes@ == map_bytes(entry_bytes(pair_views(entries@))));
        assert(shortcode_files_of(string_pair_views(shortcodes_symbols@), files));
    }
    Ok(files)
}

} // verus!

verus! {

/// The Unicode lowercase mapping of `s`, as `str::to_lowercase` gives it.
pub uninterp spec fn lowercase_of(s: Seq<char>) -> Seq<char>;

/// Relies on `str::to_lowercase`: the lowercase mapping of the characters,
/// which depends on them alone.
#[verifier::external_body]
fn lowercase(s: &str) -> (r: String)
    ensures
        r@ == lowercase_of(s@),
{
    s.to_lowercase()
}

/// The number written by the decimal digits `s`.
pub open spec fn decimal_number(s: Seq<char>) -> nat
    decreases s.len(),
{
    if s.len() == 0 {
        0
    } else {
        decimal_number(s.drop_last()) * 10 + (s.last() as int - '0' as int) as nat
    }
}

/// `s` read as an optional `+` followed by one or more decimal digits, when
/// that number fits in `u64`.
pub open spec fn parse_decimal_u64(s: Seq<char>) -> Option<u64> {
    let d = if s.len() > 0 && s[0] == '+' {
        s.drop_first()
    } else {
        s
    };
    if d.len() > 0 && (forall|i: int| 0 <= i < d.len() ==> is_ascii_digit(#[trigger] d[i]))
        && decimal_number(d) <= u64::MAX {
        Some(decimal_number(d) as u64)
    } else {
        None
    }
}

/// Relies on `u64::from_str` (`str::parse::<u64>`): an optional `+` and then
/// decimal digits only, of a value that fits in `u64`.
#[verifier::external_body]
fn parse_u64(s: &str) -> (r: Option<u64>)
    ensures
        r == parse_decimal_u64(s@),
{
    s.parse::<u64>().ok()
}

/// A line of the word-frequency list: `None` for an empty line; else the
/// first tab-separated field in lowercase with the last field as its count,
/// or `Some(None)` when there is one field only or the count does not read.
pub open spec fn word_freq_line(line: Seq<char>) -> Option<Option<(Seq<char>, u64)>> {
    if line.len() == 0 {
        None
    } else {
        let pieces = split_on(line, '\t');
        if pieces.len() < 2 {
            Some(None)
        } else {
            match parse_decimal_u64(pieces.last()) {
                Some(n) => Some(Some((lowercase_of(pieces[0]), n))),
                None => Some(None),
            }
        }
    }
}

pub fn parse_word_freq_line(line: &str) -> (r: Option<Result<(String, u64), InvalidParseError>>)
    ensures
        r is None <==> word_freq_line(line@) is None,
        r matches Some(Ok(p)) ==> word_freq_line(line@) == Some(Some((p.0@, p.1))),
        r matches Some(Err(e)) ==> word_freq_line(line@) == Some(None::<(Seq<char>, u64)>) && (e matches InvalidParseError::WordFreq(t) && t@ == line@),
{
    if line.unicode_len() == 0 {
        return None;
    }
    let pieces = split_str(line, '\t');
    if pieces.len() < 2 {
        return Some(Err(InvalidParseError::WordFreq(line.to_owned())));
    }
    match parse_u64(pieces[pieces.len() - 1].as_str()) {
        Some(n) => {
            assert(pieces@[pieces.len() - 1]@ == split_on(line@, '\t').last());
            Some(Ok((lowercase(pieces[0].as_str()), n)))
        },
        None => {
            assert(pieces@[pieces.len() - 1]@ == split_on(line@, '\t').last());
            Some(Err(InvalidParseError::WordFreq(line.to_owned())))
        },
    }
}

/// The (word, count) pairs of the non-empty lines of a word-frequency list,
/// in order, when every such line reads.
pub open spec fn word_freq_pairs(lines: Seq<Seq<char>>) -> Option<Seq<(Seq<char>, u64)>>
    decreases lines.len(),
{
    if lines.len() == 0 {
        Some(seq![])
    } else {
        match word_freq_pairs(lines.drop_last()) {
            Some(rest) => match word_freq_line(lines.last()) {
                None => Some(rest),
                Some(Some(p)) => Some(rest.push(p)),
                Some(None) => None,
            },
            None => None,
        }
    }
}

/// Reads a word-frequency list, failing on the first line that does not read.
pub fn load_word_freq_data(lines: &Vec<String>) -> (r: Result<Vec<(String, u64)>, InvalidParseError>)
    ensures
        r is Ok <==> word_freq_pairs(string_views(lines@)) is Some,
        r matches Ok(v) ==> word_freq_pairs(string_views(lines@)) == Some(pair_views(v@)),
        r matches Err(e) ==> e is WordFreq,
{
    let ghost all = string_views(lines@);
    let mut out: Vec<(String, u64)> = Vec::new();
    let mut i: usize = 0;
    while i < lines.len()
        invariant
            i <= lines.len(),
            all == string_views(lines@),
            word_freq_pairs(all.take(i as int)) == Some(pair_views(out@)),
        decreases lines.len() - i,
    {
        proof {
            assert(all.take(i + 1).drop_last() =~= all.take(i as int));
            assert(all.take(i + 1).last() == lines@[i as int]@);
        }
        let ghost prev = pair_views(out@);
        match parse_word_freq_line(lines[i].as_str()) {
            None => {},
            Some(Ok(p)) => {
                out.push(p);
                assert(pair_views(out@) =~= prev.push(pair_views(out@).last()));
            },
            Some(Err(e)) => {
                proof {
                    lemma_word_freq_pairs_fails(all, i as int);
                }
                return Err(e);
            },
        }
        i += 1;
    }
    assert(all.take(lines.len() as int) =~= all);
    Ok(out)
}

proof fn lemma_word_freq_pairs_fails(lines: Seq<Seq<char>>, i: int)
    requires
        0 <= i < lines.len(),
        word_freq_line(lines[i]) == Some(None::<(Seq<char>, u64)>),
    ensures
        word_freq_pairs(lines) is None,
    decreases lines.len(),
{
    if i < lines.len() - 1 {
        assert(lines.drop_last()[i] == lines[i]);
        lemma_word_freq_pairs_fails(lines.drop_last(), i);
    }
}

} // verus!

verus! {

/// Relies on `slice::sort` with the `Ord` of `String`: a permutation of the
/// strings, in ascending byte order.
#[verifier::external_body]
fn sort_strings(v: &mut Vec<String>)
    ensures
        string_views(final(v)@).to_multiset() == string_views(old(v)@).to_multiset(),
        forall|i: int, j: int|
            0 <= i < j < final(v)@.len() ==> bytes_le(
                encode_utf8(final(v)@[i]@),
                encode_utf8(final(v)@[j]@),
            ),
{
    v.sort()
}

/// Relies on `slice::sort` with the `Ord` of `(String, usize)`: a permutation
/// of the pairs, ordered by the string's bytes and then by the number.
#[verifier::external_body]
fn sort_keyed(v: &mut Vec<(String, usize)>)
    ensures
        keyed_views(final(v)@).to_multiset() == keyed_views(old(v)@).to_multiset(),
        forall|i: int, j: int|
            0 <= i < j < final(v)@.len() ==> keyed_le(
                keyed_views(final(v)@)[i],
                keyed_views(final(v)@)[j],
            ),
{
    v.sort()
}

/// The order of `(String, usize)`: by the string's bytes, then by the number.
pub open spec fn keyed_le(a: (Seq<char>, usize), b: (Seq<char>, usize)) -> bool {
    bytes_lt(encode_utf8(a.0), encode_utf8(b.0)) || (a.0 == b.0 && a.1 <= b.1)
}

pub open spec fn keyed_views(v: Seq<(String, usize)>) -> Seq<(Seq<char>, usize)> {
    v.map_values(|p: (String, usize)| (p.0@, p.1))
}

/// `s` with each run of equal neighbours cut to one element.
pub open spec fn dedup_adjacent(s: Seq<Seq<char>>) -> Seq<Seq<char>>
    decreases s.len(),
{
    if s.len() == 0 {
        seq![]
    } else {
        let t = dedup_adjacent(s.drop_last());
        if t.len() > 0 && t.last() == s.last() {
            t
        } else {
            t.push(s.last())
        }
    }
}

proof fn lemma_dedup_adjacent_last(s: Seq<Seq<char>>)
    ensures
        s.len() > 0 ==> dedup_adjacent(s).len() > 0 && dedup_adjacent(s).last() == s.last(),
        dedup_adjacent(s).len() <= s.len(),
    decreases s.len(),
{
    if s.len() > 0 {
        lemma_dedup_adjacent_last(s.drop_last());
    }
}

/// `v` without repeated neighbours: on sorted input, each string once.
pub fn dedup_sorted(v: &Vec<String>) -> (r: Vec<String>)
    ensures
        string_views(r@) == dedup_adjacent(string_views(v@)),
{
    let ghost all = string_views(v@);
    let mut out: Vec<String> = Vec::new();
    let mut i: usize = 0;
    while i < v.len()
        invariant
            i <= v.len(),
            all == string_views(v@),
            string_views(out@) == dedup_adjacent(all.take(i as int)),
        decreases v.len() - i,
    {
        proof {
            assert(all.take(i + 1).drop_last() =~= all.take(i as int));
            assert(all.take(i + 1).last() == v@[i as int]@);
        }
        let ghost prev = string_views(out@);
        if out.len() == 0 || out[out.len() - 1] != v[i] {
            out.push(v[i].clone());
            assert(string_views(out@) =~= prev.push(v@[i as int]@));
        } else {
            assert(prev.last() == out@[out.len() - 1]@);
        }
        i += 1;
    }
    assert(all.take(v.len() as int) =~= all);
    out
}

/// Whether `a` comes strictly before `b` in byte order.
pub fn str_lt(a: &str, b: &str) -> (r: bool)
    ensures
        r == bytes_lt(encode_utf8(a@), encode_utf8(b@)),
{
    let x = a.as_bytes();
    let y = b.as_bytes();
    let ghost xs = encode_utf8(a@);
    let ghost ys = encode_utf8(b@);
    let mut i: usize = 0;
    assert(xs.skip(0) =~= xs);
    assert(ys.skip(0) =~= ys);
    while i < x.len() && i < y.len() && x[i] == y[i]
        invariant
            x@ == xs,
            y@ == ys,
            i <= x.len(),
            i <= y.len(),
            bytes_lt(xs, ys) == bytes_lt(xs.skip(i as int), ys.skip(i as int)),
        decreases x.len() - i,
    {
        assert(xs.skip(i as int).drop_first() =~= xs.skip(i + 1));
        assert(ys.skip(i as int).drop_first() =~= ys.skip(i + 1));
        i += 1;
    }
    if i == x.len() {
        i < y.len()
    } else if i == y.len() {
        false
    } else {
        x[i] < y[i]
    }
}

/// The count that `freq` gives `w`: that of its last listing, 0 when it has none.
pub open spec fn count_of(freq: Seq<(Seq<char>, u64)>, w: Seq<char>) -> u64
    decreases freq.len(),
{
    if freq.len() == 0 {
        0
    } else if freq.last().0 == w {
        freq.last().1
    } else {
        count_of(freq.drop_last(), w)
    }
}

/// `freq` lists `w`.
pub open spec fn is_listed(freq: Seq<(Seq<char>, u64)>, w: Seq<char>) -> bool {
    exists|t: int| 0 <= t < freq.len() && #[trigger] freq[t].0 == w
}

/// How many of `words` `freq` lists.
pub open spec fn listed_words(words: Seq<Seq<char>>, freq: Seq<(Seq<char>, u64)>) -> nat
    decreases words.len(),
{
    if words.len() == 0 {
        0
    } else {
        listed_words(words.drop_last(), freq) + if is_listed(freq, words.last()) {
            1nat
        } else {
            0nat
        }
    }
}

proof fn lemma_count_of_last(f: Seq<(Seq<char>, u64)>, w: Seq<char>, t: int)
    requires
        0 <= t < f.len(),
        f[t].0 == w,
        forall|u: int| t < u < f.len() ==> (#[trigger] f[u]).0 != w,
    ensures
        count_of(f, w) == f[t].1,
    decreases f.len(),
{
    if t < f.len() - 1 {
        let g = f.drop_last();
        assert forall|u: int| t < u < g.len() implies (#[trigger] g[u]).0 != w by {
            assert(g[u] == f[u]);
        }
        assert(f.last() == f[f.len() - 1]);
        lemma_count_of_last(g, w, t);
    }
}

proof fn lemma_count_of_none(f: Seq<(Seq<char>, u64)>, w: Seq<char>)
    requires
        forall|u: int| 0 <= u < f.len() ==> (#[trigger] f[u]).0 != w,
    ensures
        count_of(f, w) == 0,
    decreases f.len(),
{
    if f.len() > 0 {
        let g = f.drop_last();
        assert forall|u: int| 0 <= u < g.len() implies (#[trigger] g[u]).0 != w by {
            assert(g[u] == f[u]);
        }
        assert(f.last() == f[f.len() - 1]);
        lemma_count_of_none(g, w);
    }
}

/// The run `[k0, k)` of the sorted keyed listing `keys` holds the listings of
/// `w`, every key before it comes before `w`, and the key at `k` differs
/// from `w`: then the run is exactly the listings of `w`, its last one is the
/// last listing of `w` in `freq`, and no key before `k` comes after `w`.
proof fn lemma_run_of_key(
    keys: Seq<(Seq<char>, usize)>,
    freq: Seq<(Seq<char>, u64)>,
    w: Seq<char>,
    k0: int,
    k: int,
)
    requires
        0 <= k0 <= k <= keys.len(),
        freq.len() <= usize::MAX,
        forall|q: int|
            0 <= q < keys.len() ==> (#[trigger] keys[q]).1 < freq.len() && keys[q].0 == freq[keys[q].1 as int].0,
        forall|t: int| 0 <= t < freq.len() ==> keys.contains((#[trigger] freq[t].0, t as usize)),
        forall|a: int, b: int| 0 <= a < b < keys.len() ==> keyed_le(keys[a], keys[b]),
        forall|q: int| 0 <= q < k0 ==> bytes_lt(encode_utf8((#[trigger] keys[q]).0), encode_utf8(w)),
        k0 == keys.len() || !bytes_lt(encode_utf8(keys[k0].0), encode_utf8(w)),
        forall|q: int| k0 <= q < k ==> (#[trigger] keys[q]).0 == w,
        k == keys.len() || keys[k].0 != w,
    ensures
        k > k0 ==> is_listed(freq, w) && count_of(freq, w) == freq[keys[k - 1].1 as int].1,
        k == k0 ==> !is_listed(freq, w) && count_of(freq, w) == 0,
        forall|q: int|
            0 <= q < k ==> bytes_lt(encode_utf8((#[trigger] keys[q]).0), encode_utf8(w)) || keys[q].0 == w,
{
    let m = keys.len() as int;
    let ew = encode_utf8(w);
    lemma_bytes_lt_irreflexive(ew);
    if k < m {
        if k == k0 {
            if encode_utf8(keys[k].0) == ew {
                lemma_encode_utf8_injective(keys[k].0, w);
            }
            lemma_bytes_lt_total(encode_utf8(keys[k].0), ew);
        } else {
            assert(keyed_le(keys[k0], keys[k]));
        }
        assert(bytes_lt(ew, encode_utf8(keys[k].0)));
    }
    assert forall|q: int| k <= q < m implies (#[trigger] keys[q]).0 != w by {
        if q > k {
            assert(keyed_le(keys[k], keys[q]));
            if bytes_lt(encode_utf8(keys[k].0), encode_utf8(keys[q].0)) {
                lemma_bytes_lt_transitive(ew, encode_utf8(keys[k].0), encode_utf8(keys[q].0));
            }
        }
    }
    assert forall|t: int| 0 <= t < freq.len() && (#[trigger] freq[t]).0 == w implies exists|q: int|
        k0 <= q < k && keys[q] == (w, t as usize) by {
        assert(keys.contains((freq[t].0, t as usize)));
        let q = choose|q: int| 0 <= q < m && keys[q] == (freq[t].0, t as usize);
        assert(keys[q].0 == w);
        if q < k0 {
            assert(bytes_lt(encode_utf8(keys[q].0), ew));
        }
    }
    if k > k0 {
        let last = keys[k - 1].1 as int;
        assert(keys[k - 1].0 == w);
        assert(freq[last].0 == w);
        assert forall|u: int| last < u < freq.len() implies (#[trigger] freq[u]).0 != w by {
            if freq[u].0 == w {
                let q = choose|q: int| k0 <= q < k && keys[q] == (w, u as usize);
                assert(keys[q].1 as int == u);
                if q < k - 1 {
                    assert(keyed_le(keys[q], keys[k - 1]));
                    assert(keys[k - 1].0 == w);
                    assert(!bytes_lt(encode_utf8(keys[q].0), encode_utf8(keys[k - 1].0)));
                    assert(keys[q].1 <= keys[k - 1].1);
                }
                assert(false);
            }
        }
        lemma_count_of_last(freq, w, last);
        assert(freq[last].0 == w);
    } else {
        assert forall|u: int| 0 <= u < freq.len() implies (#[trigger] freq[u]).0 != w by {
            if freq[u].0 == w {
                let q = choose|q: int| k0 <= q < k && keys[q] == (w, u as usize);
            }
        }
        lemma_count_of_none(freq, w);
    }
}

/// Each of `words` (in strictly ascending byte order) with the count that
/// `freq` gives it, and how many of the words `freq` lists. `freq` is read
/// through its keys and positions sorted together, so that the last listing
/// of a word is found at the end of its run.
fn lookup_frequencies(words: &Vec<String>, freq: &Vec<(String, u64)>) -> (r: (Vec<(String, u64)>, usize))
    requires
        forall|i: int|
            0 < i < words@.len() ==> bytes_lt(
                encode_utf8(words@[i - 1]@),
                encode_utf8((#[trigger] words@[i])@),
            ),
    ensures
        r.0@.len() == words@.len(),
        r.1 <= words@.len(),
        r.1 == listed_words(string_views(words@), pair_views(freq@)),
        forall|i: int|
            0 <= i < words@.len() ==> (#[trigger] r.0@[i]).0@ == words@[i]@ && r.0@[i].1 == count_of(
                pair_views(freq@),
                words@[i]@,
            ),
{
    let ghost fv = pair_views(freq@);
    let ghost wv = string_views(words@);
    let mut keyed: Vec<(String, usize)> = Vec::new();
    let mut t: usize = 0;
    while t < freq.len()
        invariant
            t <= freq.len(),
            keyed@.len() == t,
            forall|q: int| 0 <= q < t ==> (#[trigger] keyed@[q]).1 == q && keyed@[q].0@ == freq@[q].0@,
        decreases freq.len() - t,
    {
        keyed.push((freq[t].0.clone(), t));
        t += 1;
    }
    let ghost before = keyed_views(keyed@);
    sort_keyed(&mut keyed);
    let ghost keys = keyed_views(keyed@);
    proof {
        before.to_multiset_ensures();
        keys.to_multiset_ensures();
        assert forall|q: int| 0 <= q < keys.len() implies (#[trigger] keys[q]).1 < fv.len() && keys[q].0
            == fv[keys[q].1 as int].0 by {
            assert(keys.contains(keys[q]));
            assert(keys.to_multiset().count(keys[q]) > 0);
            assert(before.to_multiset().count(keys[q]) > 0);
            let m = choose|m: int| 0 <= m < before.len() && before[m] == keys[q];
            assert(before[m] == (freq@[m].0@, m as usize));
        }
        assert forall|u: int| 0 <= u < fv.len() implies keys.contains((#[trigger] fv[u].0, u as usize)) by {
            assert(before[u] == (fv[u].0, u as usize));
            assert(before.contains(before[u]));
            assert(before.to_multiset().count(before[u]) > 0);
            assert(keys.to_multiset().count(before[u]) > 0);
        }
    }
    let n = freq.len();
    let mut out: Vec<(String, u64)> = Vec::new();
    let mut found: usize = 0;
    let mut k: usize = 0;
    let mut i: usize = 0;
    while i < words.len()
        invariant
            fv.len() == n,
            i <= words.len(),
            k <= keyed.len(),
            found <= i,
            fv == pair_views(freq@),
            wv == string_views(words@),
            keys == keyed_views(keyed@),
            out@.len() == i,
            found == listed_words(wv.take(i as int), fv),
            forall|q: int|
                0 <= q < keys.len() ==> (#[trigger] keys[q]).1 < fv.len() && keys[q].0 == fv[keys[q].1 as int].0,
            forall|u: int| 0 <= u < fv.len() ==> keys.contains((#[trigger] fv[u].0, u as usize)),
            forall|a: int, b: int| 0 <= a < b < keys.len() ==> keyed_le(keys[a], keys[b]),
            forall|j: int|
                0 < j < words@.len() ==> bytes_lt(
                    encode_utf8(words@[j - 1]@),
                    encode_utf8((#[trigger] words@[j])@),
                ),
            i < words.len() ==> forall|q: int|
                0 <= q < k ==> bytes_lt(encode_utf8((#[trigger] keys[q]).0), encode_utf8(words@[i as int]@)),
            forall|j: int|
                0 <= j < i ==> (#[trigger] out@[j]).0@ == words@[j]@ && out@[j].1 == count_of(fv, words@[j]@),
        decreases words.len() - i,
    {
        while k < keyed.len() && str_lt(keyed[k].0.as_str(), words[i].as_str())
            invariant
                k <= keyed.len(),
                i < words.len(),
                keys == keyed_views(keyed@),
                forall|q: int|
                    0 <= q < k ==> bytes_lt(encode_utf8((#[trigger] keys[q]).0), encode_utf8(words@[i as int]@)),
            decreases keyed.len() - k,
        {
            assert(keys[k as int].0 == keyed@[k as int].0@);
            k += 1;
        }
        let ghost k0 = k as int;
        proof {
            if k < keyed.len() {
                assert(keys[k as int].0 == keyed@[k as int].0@);
            }
        }
        let mut count: u64 = 0;
        let mut listed = false;
        while k < keyed.len() && keyed[k].0 == words[i]
            invariant
                k0 <= k <= keyed.len(),
                i < words.len(),
                fv == pair_views(freq@),
                keys == keyed_views(keyed@),
                forall|q: int|
                    0 <= q < keys.len() ==> (#[trigger] keys[q]).1 < fv.len() && keys[q].0 == fv[keys[q].1 as int].0,
                forall|q: int| k0 <= q < k ==> (#[trigger] keys[q]).0 == words@[i as int]@,
                listed == (k > k0),
                listed ==> count == fv[keys[k - 1].1 as int].1,
                !listed ==> count == 0,
            decreases keyed.len() - k,
        {
            assert(keys[k as int] == (keyed@[k as int].0@, keyed@[k as int].1));
            let pos = keyed[k].1;
            count = freq[pos].1;
            listed = true;
            k += 1;
        }
        proof {
            if k < keyed.len() {
                assert(keys[k as int].0 == keyed@[k as int].0@);
            }
            lemma_run_of_key(keys, fv, wv[i as int], k0, k as int);
            assert(wv[i as int] == words@[i as int]@);
            assert(count == count_of(fv, words@[i as int]@));
            assert(wv.take(i + 1).drop_last() =~= wv.take(i as int));
            assert(wv.take(i + 1).last() == wv[i as int]);
            if i + 1 < words.len() {
                let next = encode_utf8(words@[i + 1]@);
                assert(bytes_lt(encode_utf8(words@[i as int]@), next));
                assert forall|q: int| 0 <= q < k implies bytes_lt(encode_utf8((#[trigger] keys[q]).0), next) by {
                    if keys[q].0 != wv[i as int] {
                        lemma_bytes_lt_transitive(encode_utf8(keys[q].0), encode_utf8(wv[i as int]), next);
                    }
                }
            }
        }
        if listed {
            found += 1;
        }
        out.push((words[i].clone(), count));
        i += 1;
    }
    assert(wv.take(words.len() as int) =~= wv);
    (out, found)
}

} // verus!

verus! {

/// `e` is the dictionary of the word list `lines` with the counts `freq`:
/// its keys are the lines in lowercase, each once, in strictly ascending byte
/// order, each with the count that `freq` gives it.
pub open spec fn dictionary_for(lines: Seq<String>, freq: Seq<(Seq<char>, u64)>, e: Seq<(String, u64)>) -> bool {
    &&& forall|i: int| 0 <= i < e.len() ==> (#[trigger] e[i]).1 == count_of(freq, e[i].0@)
    &&& forall|i: int|
        0 < i < e.len() ==> bytes_lt(encode_utf8(e[i - 1].0@), encode_utf8((#[trigger] e[i]).0@))
    &&& forall|i: int| 0 <= i < e.len() ==> is_lowered_line((#[trigger] e[i]).0@, lines)
    &&& forall|j: int| 0 <= j < lines.len() ==> has_key(e, lowercase_of((#[trigger] lines[j])@))
}

/// The serialized word dictionary, with the number of words written and how
/// many of them had a count.
pub struct DictionaryFile {
    pub dictionary: Vec<u8>,
    pub entry_count: usize,
    pub with_freq: usize,
}

/// The dictionary entries for the word list `lines`: each line in lowercase,
/// sorted by bytes and taken once, with a count from `freq` (0 for a word
/// that `freq` does not list); and how many words `freq` lists.
pub fn dictionary_entries(lines: &Vec<String>, freq: &Vec<(String, u64)>) -> (r: (Vec<(String, u64)>, usize))
    ensures
        dictionary_for(lines@, pair_views(freq@), r.0@),
        r.0@.len() <= lines@.len(),
        r.1 <= r.0@.len(),
        r.1 == listed_words(entry_keys(r.0@), pair_views(freq@)),
{
    let mut words: Vec<String> = Vec::new();
    let mut i: usize = 0;
    while i < lines.len()
        invariant
            i <= lines.len(),
            words@.len() == i,
            forall|j: int| 0 <= j < i ==> (#[trigger] words@[j])@ == lowercase_of(lines@[j]@),
        decreases lines.len() - i,
    {
        words.push(lowercase(lines[i].as_str()));
        i += 1;
    }
    let ghost pre = string_views(words@);
    assert(pre.len() == lines@.len());
    sort_strings(&mut words);
    proof {
        pre.to_multiset_ensures();
        string_views(words@).to_multiset_ensures();
        assert(string_views(words@).len() == words@.len());
    }
    let unique = dedup_sorted(&words);
    proof {
        lemma_dedup_sorted_ascending(string_views(words@));
        lemma_dedup_adjacent_covers(string_views(words@));
        lemma_dedup_adjacent_last(string_views(words@));
        assert(string_views(unique@).len() == unique@.len());
        assert(string_views(words@).len() == lines@.len());
    }
    proof {
        let d = string_views(unique@);
        assert forall|i: int| 0 < i < unique@.len() implies bytes_lt(
            encode_utf8(unique@[i - 1]@),
            encode_utf8((#[trigger] unique@[i])@),
        ) by {
            assert(d[i - 1] == unique@[i - 1]@ && d[i] == unique@[i]@);
            if encode_utf8(d[i - 1]) == encode_utf8(d[i]) {
                lemma_encode_utf8_injective(d[i - 1], d[i]);
            }
        }
    }
    let (entries, found) = lookup_frequencies(&unique, freq);
    proof {
        assert(entry_keys(entries@) =~= string_views(unique@));
        assert forall|i: int| 0 < i < entries@.len() implies bytes_le(
            encode_utf8(entries@[i - 1].0@),
            encode_utf8((#[trigger] entries@[i]).0@),
        ) && entries@[i - 1].0@ != entries@[i].0@ by {
            assert(string_views(unique@)[i - 1] == unique@[i - 1]@);
            assert(string_views(unique@)[i] == unique@[i]@);
        }
        let sorted = string_views(words@);
        let d = string_views(unique@);
        assert forall|i: int| 0 <= i < entries@.len() implies is_lowered_line(
            (#[trigger] entries@[i]).0@,
            lines@,
        ) by {
            assert(d[i] == unique@[i]@);
            assert(sorted.contains(d[i]));
            assert(sorted.to_multiset().count(d[i]) > 0);
            assert(pre.to_multiset().count(d[i]) > 0);
            let j = choose|j: int| 0 <= j < pre.len() && pre[j] == d[i];
            assert(pre[j] == words_before(lines@)[j]);
        }
        assert forall|j: int| 0 <= j < lines@.len() implies has_key(
            entries@,
            lowercase_of((#[trigger] lines@[j])@),
        ) by {
            assert(pre[j] == lowercase_of(lines@[j]@));
            assert(pre.contains(pre[j]));
            assert(pre.to_multiset().count(pre[j]) > 0);
            assert(sorted.to_multiset().count(pre[j]) > 0);
            let k = choose|k: int| 0 <= k < sorted.len() && sorted[k] == pre[j];
            assert(d.contains(sorted[k]));
            let i = choose|i: int| 0 <= i < d.len() && d[i] == sorted[k];
            assert(d[i] == unique@[i]@);
            assert(entries@[i].0@ == lowercase_of(lines@[j]@));
        }
        assert forall|i: int| 0 < i < entries@.len() implies bytes_lt(
            encode_utf8(entries@[i - 1].0@),
            encode_utf8((#[trigger] entries@[i]).0@),
        ) by {
            assert(string_views(unique@)[i - 1] == unique@[i - 1]@);
            assert(string_views(unique@)[i] == unique@[i]@);
            assert(entries@[i - 1].0@ == unique@[i - 1]@);
        }
    }
    (entries, found)
}

/// Cutting repeated neighbours loses no element.
proof fn lemma_dedup_adjacent_covers(s: Seq<Seq<char>>)
    ensures
        forall|i: int| 0 <= i < s.len() ==> dedup_adjacent(s).contains(#[trigger] s[i]),
    decreases s.len(),
{
    if s.len() > 0 {
        let t = s.drop_last();
        lemma_dedup_adjacent_covers(t);
        lemma_dedup_adjacent_last(s);
        let d = dedup_adjacent(s);
        assert forall|i: int| 0 <= i < s.len() implies d.contains(#[trigger] s[i]) by {
            if i < s.len() - 1 {
                assert(t[i] == s[i]);
                assert(dedup_adjacent(t).contains(t[i]));
                let k = choose|k: int| 0 <= k < dedup_adjacent(t).len() && dedup_adjacent(t)[k] == t[i];
                assert(d[k] == s[i]);
            } else {
                assert(d[d.len() - 1] == s[i]);
            }
        }
    }
}

/// Consecutive elements of a sorted sequence cut of repeated neighbours are
/// distinct and in order.
proof fn lemma_dedup_sorted_ascending(s: Seq<Seq<char>>)
    requires
        forall|i: int, j: int| 0 <= i < j < s.len() ==> bytes_le(encode_utf8(s[i]), encode_utf8(s[j])),
    ensures
        forall|i: int|
            0 < i < dedup_adjacent(s).len() ==> bytes_le(
                encode_utf8(dedup_adjacent(s)[i - 1]),
                encode_utf8(#[trigger] dedup_adjacent(s)[i]),
            ) && dedup_adjacent(s)[i - 1] != dedup_adjacent(s)[i],
        forall|i: int| 0 <= i < dedup_adjacent(s).len() ==> s.contains(#[trigger] dedup_adjacent(s)[i]),
    decreases s.len(),
{
    if s.len() > 0 {
        let t = s.drop_last();
        assert forall|i: int, j: int| 0 <= i < j < t.len() implies bytes_le(encode_utf8(t[i]), encode_utf8(t[j])) by {
            assert(t[i] == s[i] && t[j] == s[j]);
        }
        lemma_dedup_sorted_ascending(t);
        lemma_dedup_adjacent_last(t);
        let d = dedup_adjacent(t);
        assert forall|i: int| 0 <= i < d.len() implies s.contains(#[trigger] d[i]) by {
            let m = choose|m: int| 0 <= m < t.len() && t[m] == d[i];
            assert(s[m] == d[i]);
        }
        if !(d.len() > 0 && d.last() == s.last()) {
            let r = d.push(s.last());
            assert(r.len() == d.len() + 1);
            assert forall|i: int| 0 < i < r.len() implies bytes_le(
                encode_utf8(r[i - 1]),
                encode_utf8(#[trigger] r[i]),
            ) && r[i - 1] != r[i] by {
                if i == r.len() - 1 {
                    assert(r[i - 1] == d.last());
                    assert(s.contains(d.last()));
                    let m = choose|m: int| 0 <= m < s.len() && s[m] == d.last();
                    if m == s.len() - 1 {
                    } else {
                        assert(bytes_le(encode_utf8(s[m]), encode_utf8(s[s.len() - 1])));
                    }
                } else {
                    assert(r[i - 1] == d[i - 1] && r[i] == d[i]);
                }
            }
            assert forall|i: int| 0 <= i < r.len() implies s.contains(#[trigger] r[i]) by {
                if i < d.len() {
                    assert(r[i] == d[i]);
                } else {
                    assert(s[s.len() - 1] == r[i]);
                }
            }
        }
    }
}

spec fn words_before(lines: Seq<String>) -> Seq<Seq<char>> {
    lines.map_values(|l: String| lowercase_of(l@))
}

/// The keys of `entries`.
pub open spec fn entry_keys(entries: Seq<(String, u64)>) -> Seq<Seq<char>> {
    entries.map_values(|e: (String, u64)| e.0@)
}

/// `k` is one of `lines` in lowercase.
pub open spec fn is_lowered_line(k: Seq<char>, lines: Seq<String>) -> bool {
    exists|j: int| 0 <= j < lines.len() && k == lowercase_of(lines[j]@)
}

/// Some entry has the key `k`.
pub open spec fn has_key(entries: Seq<(String, u64)>, k: Seq<char>) -> bool {
    exists|i: int| 0 <= i < entries.len() && entries[i].0@ == k
}

/// Builds the word dictionary from the word list `lines` and the counts
/// `freq`: see `dictionary_entries`.
pub fn process_dictionary(lines: &Vec<String>, freq: &Vec<(String, u64)>) -> (r: Result<DictionaryFile, fst::Error>)
    ensures
        r is Ok,
        r matches Ok(d) ==> exists|e: Seq<(String, u64)>|
            dictionary_for(lines@, pair_views(freq@), e) && d.dictionary@ == #[trigger] map_bytes(
                entry_bytes(pair_views(e)),
            ) && d.entry_count == e.len() && d.with_freq == listed_words(entry_keys(e), pair_views(freq@)),
{
    let (entries, found) = dictionary_entries(lines, freq);
    proof {
        let pv = pair_views(entries@);
        assert forall|i: int| 0 < i < pv.len() implies bytes_lt(
            encode_utf8(pv[i - 1].0),
            encode_utf8(#[trigger] pv[i].0),
        ) by {
            assert(pv[i] == (entries@[i].0@, entries@[i].1));
            assert(pv[i - 1] == (entries@[i - 1].0@, entries@[i - 1].1));
        }
    }
    let dictionary = match build_fst(&entries) {
        Ok(b) => b,
        Err(e) => return Err(e),
    };
    Ok(DictionaryFile { dictionary, entry_count: entries.len(), with_freq: found })
}

} // verus!
