//! The dictionaries are finite state transducers of the `fst` crate: ordered
//! maps from byte strings to `u64`. This module declares those types to the
//! verifier and wraps the few calls that the library makes into the crate.

use fst::automaton::Automaton;
use fst::IntoStreamer;
use vstd::prelude::*;
use vstd::utf8::*;

verus! {

#[verifier::external_type_specification]
#[verifier::external_body]
#[verifier::reject_recursive_types(D)]
pub struct ExFstMap<D>(fst::Map<D>);

#[verifier::external_type_specification]
#[verifier::external_body]
pub struct ExFstError(fst::Error);

/// The key/value pairs of a transducer map, in the order in which its streams
/// yield them (ascending byte order of the keys).
pub uninterp spec fn map_entries(m: fst::Map<Vec<u8>>) -> Seq<(Seq<u8>, u64)>;

/// The entries of `entries` whose key starts with the bytes `p`, in order.
pub open spec fn prefix_matches(entries: Seq<(Seq<u8>, u64)>, p: Seq<u8>) -> Seq<(Seq<u8>, u64)> {
    entries.filter(|e: (Seq<u8>, u64)| p.is_prefix_of(e.0))
}

/// Every entry that a prefix search keeps has a key that starts with the prefix.
pub proof fn lemma_prefix_matches(entries: Seq<(Seq<u8>, u64)>, p: Seq<u8>)
    ensures
        forall|i: int|
            0 <= i < prefix_matches(entries, p).len() ==> p.is_prefix_of(
                #[trigger] prefix_matches(entries, p)[i].0,
            ),
{
    broadcast use vstd::seq_lib::group_filter_ensures;

}

/// True when every key among `entries` is well-formed UTF-8.
pub open spec fn all_keys_utf8(entries: Seq<(Seq<u8>, u64)>) -> bool {
    forall|i: int| 0 <= i < entries.len() ==> valid_utf8(#[trigger] entries[i].0)
}

/// The decoded entries `v` are exactly the byte entries `found`, one for one.
pub open spec fn str_entries_match(v: Seq<(String, u64)>, found: Seq<(Seq<u8>, u64)>) -> bool {
    &&& v.len() == found.len()
    &&& forall|i: int|
        0 <= i < v.len() ==> {
            &&& #[trigger] v[i].0@ == decode_utf8(found[i].0)
            &&& v[i].1 == found[i].1
        }
}

/// Relies on `fst::Map::search` with the automaton `Str::new(prefix).starts_with()`,
/// streamed through `Stream::into_str_vec`: the stream yields, in map order, the
/// entries whose key starts with the bytes of `prefix`, and the collection stops
/// with an error at the first key that is not UTF-8.
/// The map must have been read from bytes that a map builder wrote: the
/// format check of `Map::new` does not rule out maps on which the search
/// panics.
#[verifier::external_body]
pub(crate) fn search_prefix(m: &fst::Map<Vec<u8>>, prefix: &str) -> (r: Result<Vec<(String, u64)>, fst::Error>)
    requires
        built_map(*m),
    ensures
        r is Ok <==> all_keys_utf8(prefix_matches(map_entries(*m), encode_utf8(prefix@))),
        r matches Ok(v) ==> str_entries_match(v@, prefix_matches(map_entries(*m), encode_utf8(prefix@))),
{
    m.search(fst::automaton::Str::new(prefix).starts_with()).into_stream().into_str_vec()
}

} // verus!

verus! {

/// The bytes that a map builder writes for `entries`, inserted in order.
pub uninterp spec fn map_bytes(entries: Seq<(Seq<u8>, u64)>) -> Seq<u8>;

/// The bytes that a map reads its entries from.
pub uninterp spec fn map_data(m: fst::Map<Vec<u8>>) -> Seq<u8>;

/// Every key of `entries` comes strictly after the one before it.
pub open spec fn keys_ascending(entries: Seq<(Seq<u8>, u64)>) -> bool {
    forall|i: int| 0 < i < entries.len() ==> bytes_lt(entries[i - 1].0, #[trigger] entries[i].0)
}

/// `m` reads the bytes that a builder wrote for its entries, whose keys ascend.
pub open spec fn built_map(m: fst::Map<Vec<u8>>) -> bool {
    keys_ascending(map_entries(m)) && map_data(m) == map_bytes(map_entries(m))
}

/// `b` are the bytes that a builder wrote for some entries with ascending keys.
pub open spec fn is_map_bytes(b: Seq<u8>) -> bool {
    exists|e: Seq<(Seq<u8>, u64)>| keys_ascending(e) && b == #[trigger] map_bytes(e)
}

/// Relies on `fst::Map::new`: reads the header of a serialized map and fails
/// on bytes that are too short (fewer than 36) or of an unknown format
/// version; the map keeps the bytes, and a map that a builder wrote reads back
/// the entries inserted into it.
#[verifier::external_body]
pub(crate) fn open_map(bytes: Vec<u8>) -> (r: Result<fst::Map<Vec<u8>>, fst::Error>)
    ensures
        bytes@.len() < 36 ==> r is Err,
        r matches Ok(m) ==> map_data(m) == bytes@,
        is_map_bytes(bytes@) ==> r is Ok,
        r matches Ok(m) ==> forall|e: Seq<(Seq<u8>, u64)>|
            keys_ascending(e) && bytes@ == #[trigger] map_bytes(e) ==> map_entries(m) == e,
{
    fst::Map::new(bytes)
}

/// Relies on `fst::raw::Fst::verify`: checks the map's bytes against the
/// checksum stored in them, so that a damaged map is refused before use; the
/// checksum that a builder wrote matches.
#[verifier::external_body]
pub(crate) fn check_map(m: &fst::Map<Vec<u8>>) -> (r: Result<(), fst::Error>)
    ensures
        built_map(*m) ==> r is Ok,
{
    m.as_fst().verify()
}

} // verus!

verus! {

#[verifier::external_type_specification]
#[verifier::external_body]
#[verifier::reject_recursive_types(W)]
pub struct ExFstMapBuilder<W>(fst::MapBuilder<W>);

/// The key/value pairs inserted so far into an in-memory map builder, in order.
pub uninterp spec fn builder_entries(b: fst::MapBuilder<Vec<u8>>) -> Seq<(Seq<u8>, u64)>;

/// `a` comes strictly before `b` in lexicographic byte order.
pub open spec fn bytes_lt(a: Seq<u8>, b: Seq<u8>) -> bool
    decreases a.len(),
{
    if a.len() == 0 {
        b.len() > 0
    } else if b.len() == 0 {
        false
    } else if a[0] != b[0] {
        a[0] < b[0]
    } else {
        bytes_lt(a.drop_first(), b.drop_first())
    }
}

/// Relies on `fst::MapBuilder::memory`: a builder with nothing inserted.
#[verifier::external_body]
pub(crate) fn new_map_builder() -> (r: fst::MapBuilder<Vec<u8>>)
    ensures
        builder_entries(r) == Seq::<(Seq<u8>, u64)>::empty(),
{
    fst::MapBuilder::memory()
}

/// Relies on `fst::MapBuilder::insert` over an in-memory writer, which cannot
/// fail to write: the pair is added when its key comes strictly after every
/// key inserted before, and refused (the builder unchanged) otherwise.
#[verifier::external_body]
pub(crate) fn builder_insert(b: &mut fst::MapBuilder<Vec<u8>>, key: &str, val: u64) -> (r: Result<(), fst::Error>)
    ensures
        r is Ok <==> (builder_entries(*old(b)).len() == 0 || bytes_lt(
            builder_entries(*old(b)).last().0,
            encode_utf8(key@),
        )),
        r is Ok ==> builder_entries(*final(b)) == builder_entries(*old(b)).push((encode_utf8(key@), val)),
        r is Err ==> builder_entries(*final(b)) == builder_entries(*old(b)),
{
    b.insert(key, val)
}

/// Relies on `fst::MapBuilder::into_inner`: finishes the map and hands back
/// its serialized bytes; writing to memory cannot fail.
#[verifier::external_body]
pub(crate) fn builder_finish(b: fst::MapBuilder<Vec<u8>>) -> (r: Result<Vec<u8>, fst::Error>)
    ensures
        r is Ok,
        r matches Ok(bytes) ==> bytes@ == map_bytes(builder_entries(b)),
{
    b.into_inner()
}

} // verus!

verus! {

pub proof fn lemma_bytes_lt_irreflexive(a: Seq<u8>)
    ensures
        !bytes_lt(a, a),
    decreases a.len(),
{
    if a.len() > 0 {
        lemma_bytes_lt_irreflexive(a.drop_first());
    }
}

pub proof fn lemma_bytes_lt_transitive(a: Seq<u8>, b: Seq<u8>, c: Seq<u8>)
    requires
        bytes_lt(a, b),
        bytes_lt(b, c),
    ensures
        bytes_lt(a, c),
    decreases a.len(),
{
    if a.len() > 0 && b.len() > 0 && c.len() > 0 && a[0] == b[0] && b[0] == c[0] {
        lemma_bytes_lt_transitive(a.drop_first(), b.drop_first(), c.drop_first());
    }
}

pub proof fn lemma_bytes_lt_total(a: Seq<u8>, b: Seq<u8>)
    requires
        a != b,
    ensures
        bytes_lt(a, b) || bytes_lt(b, a),
    decreases a.len(),
{
    if a.len() > 0 && b.len() > 0 && a[0] == b[0] {
        assert(a.drop_first() != b.drop_first()) by {
            if a.drop_first() == b.drop_first() {
                assert(a =~= seq![a[0]] + a.drop_first());
                assert(b =~= seq![b[0]] + b.drop_first());
            }
        }
        lemma_bytes_lt_total(a.drop_first(), b.drop_first());
    } else if a.len() == 0 && b.len() == 0 {
        assert(a =~= b);
    }
}

/// Distinct character sequences have distinct encodings.
pub proof fn lemma_encode_utf8_injective(a: Seq<char>, b: Seq<char>)
    requires
        encode_utf8(a) == encode_utf8(b),
    ensures
        a == b,
{
    vstd::utf8::encode_utf8_decode_utf8(a);
    vstd::utf8::encode_utf8_decode_utf8(b);
}

} // verus!

verus! {

/// Decoding bytes that begin with the encoding of `a` gives `a` first.
pub proof fn lemma_decode_after_encoded(a: Seq<char>, rest: Seq<u8>)
    requires
        valid_utf8(encode_utf8(a) + rest),
    ensures
        valid_utf8(rest),
        decode_utf8(encode_utf8(a) + rest) == a + decode_utf8(rest),
    decreases a.len(),
{
    let x = encode_utf8(a);
    let b = x + rest;
    if a.len() == 0 {
        assert(b =~= rest);
        assert(a + decode_utf8(rest) =~= decode_utf8(rest));
    } else {
        vstd::utf8::encode_utf8_first_scalar(a);
        let n = length_of_first_scalar(x);
        assert(x =~= encode_scalar(a[0] as u32) + encode_utf8(a.drop_first()));
        assert(n <= x.len());
        assert forall|j: int| 0 <= j < x.len() implies b[j] == x[j] by {}
        assert(b[0] == x[0]);
        if n >= 2 {
            assert(b[1] == x[1]);
        }
        if n >= 3 {
            assert(b[2] == x[2]);
        }
        if n >= 4 {
            assert(b[3] == x[3]);
        }
        assert(decode_first_scalar(b) == decode_first_scalar(x));
        assert(length_of_first_scalar(b) == n);
        assert(pop_first_scalar(x) =~= encode_utf8(a.drop_first()));
        assert(pop_first_scalar(b) =~= encode_utf8(a.drop_first()) + rest);
        lemma_decode_after_encoded(a.drop_first(), rest);
        vstd::utf8::char_u32_cast(a[0], decode_first_scalar(b));
        assert(decode_utf8(b) =~= seq![a[0]] + (a.drop_first() + decode_utf8(rest)));
        assert(a =~= seq![a[0]] + a.drop_first());
        assert(decode_utf8(b) =~= a + decode_utf8(rest));
    }
}

/// When the bytes of `a` begin the well-formed bytes `k`, the characters of
/// `a` begin the decoding of `k`.
pub proof fn lemma_encoded_prefix_decodes(a: Seq<char>, k: Seq<u8>)
    requires
        valid_utf8(k),
        encode_utf8(a).is_prefix_of(k),
    ensures
        a.is_prefix_of(decode_utf8(k)),
{
    let n = encode_utf8(a).len() as int;
    let rest = k.subrange(n, k.len() as int);
    assert(k =~= encode_utf8(a) + rest);
    lemma_decode_after_encoded(a, rest);
    assert((a + decode_utf8(rest)).subrange(0, a.len() as int) =~= a);
}

} // verus!

verus! {

/// The encoding of a concatenation is the concatenation of the encodings.
pub proof fn lemma_encode_utf8_concat(a: Seq<char>, b: Seq<char>)
    ensures
        encode_utf8(a + b) == encode_utf8(a) + encode_utf8(b),
    decreases a.len(),
{
    if a.len() == 0 {
        assert(a + b =~= b);
        assert(encode_utf8(a) + encode_utf8(b) =~= encode_utf8(b));
    } else {
        assert((a + b).drop_first() =~= a.drop_first() + b);
        assert((a + b)[0] == a[0]);
        lemma_encode_utf8_concat(a.drop_first(), b);
        assert(encode_utf8(a + b) =~= encode_utf8(a) + encode_utf8(b));
    }
}

/// The end of an encoded prefix is a character boundary.
pub proof fn lemma_encoded_prefix_boundary(a: Seq<char>, x: Seq<u8>)
    requires
        valid_utf8(encode_utf8(a) + x),
    ensures
        is_char_boundary(encode_utf8(a) + x, encode_utf8(a).len() as int),
    decreases a.len(),
{
    if a.len() > 0 {
        let e = encode_utf8(a);
        let b = e + x;
        vstd::utf8::encode_utf8_first_scalar(a);
        assert(e =~= encode_scalar(a[0] as u32) + encode_utf8(a.drop_first()));
        let n = length_of_first_scalar(e);
        assert(b[0] == e[0]);
        assert(length_of_first_scalar(b) == n);
        assert(pop_first_scalar(e) =~= encode_utf8(a.drop_first()));
        assert(pop_first_scalar(b) =~= encode_utf8(a.drop_first()) + x);
        lemma_encoded_prefix_boundary(a.drop_first(), x);
    }
}

} // verus!

verus! {

/// Along entries whose keys ascend, any earlier key comes strictly before
/// any later one.
pub proof fn lemma_keys_apart(e: Seq<(Seq<u8>, u64)>, p: int, q: int)
    requires
        keys_ascending(e),
        0 <= p < q < e.len(),
    ensures
        bytes_lt(e[p].0, e[q].0),
    decreases q - p,
{
    if q > p + 1 {
        lemma_keys_apart(e, p, q - 1);
        lemma_bytes_lt_transitive(e[p].0, e[q - 1].0, e[q].0);
    }
}

/// A prefix search over entries with ascending keys yields ascending keys.
pub proof fn lemma_prefix_matches_ascending(e: Seq<(Seq<u8>, u64)>, p: Seq<u8>)
    requires
        keys_ascending(e),
    ensures
        keys_ascending(prefix_matches(e, p)),
        forall|x: (Seq<u8>, u64)| #[trigger] prefix_matches(e, p).contains(x) ==> e.contains(x),
    decreases e.len(),
{
    reveal(Seq::filter);
    let pred = |x: (Seq<u8>, u64)| p.is_prefix_of(x.0);
    let f = e.filter(pred);
    assert(f == prefix_matches(e, p));
    if e.len() > 0 {
        let d = e.drop_last();
        assert forall|i: int| 0 < i < d.len() implies bytes_lt(d[i - 1].0, #[trigger] d[i].0) by {
            assert(d[i - 1] == e[i - 1] && d[i] == e[i]);
        }
        lemma_prefix_matches_ascending(d, p);
        let g = d.filter(pred);
        assert(g == prefix_matches(d, p));
        assert forall|x: (Seq<u8>, u64)| #[trigger] f.contains(x) implies e.contains(x) by {
            if g.contains(x) {
                let k = choose|k: int| 0 <= k < d.len() && d[k] == x;
                assert(e[k] == x);
            } else {
                assert(x == e.last());
                assert(e[e.len() - 1] == x);
            }
        }
        if pred(e.last()) {
            assert(f == g.push(e.last()));
            assert forall|i: int| 0 < i < f.len() implies bytes_lt(f[i - 1].0, #[trigger] f[i].0) by {
                if i < f.len() - 1 {
                    assert(f[i - 1] == g[i - 1] && f[i] == g[i]);
                } else {
                    assert(g.contains(g[i - 1]));
                    let k = choose|k: int| 0 <= k < d.len() && d[k] == g[i - 1];
                    assert(e[k] == g[i - 1]);
                    lemma_keys_apart(e, k, e.len() - 1);
                }
            }
        } else {
            assert(f == g);
        }
    }
}

} // verus!
