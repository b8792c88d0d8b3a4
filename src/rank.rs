//! Ranking of dictionary matches: a stable sort by descending frequency,
//! of which only the first few entries are kept.

use vstd::prelude::*;

verus! {

/// `e` placed into `s` after every leading entry whose frequency is at least
/// its own: one step of a stable insertion sort by descending frequency.
pub open spec fn insert_ranked<K>(s: Seq<(K, u64)>, e: (K, u64)) -> Seq<(K, u64)>
    decreases s.len(),
{
    if s.len() == 0 {
        seq![e]
    } else if s[0].1 >= e.1 {
        seq![s[0]] + insert_ranked(s.drop_first(), e)
    } else {
        seq![e] + s
    }
}

/// `s` sorted by descending frequency; entries of equal frequency keep their order.
pub open spec fn rank<K>(s: Seq<(K, u64)>) -> Seq<(K, u64)>
    decreases s.len(),
{
    if s.len() == 0 {
        s
    } else {
        insert_ranked(rank(s.drop_last()), s.last())
    }
}

/// The first `n` elements of `s`, or all of them when there are fewer.
pub open spec fn first_n<A>(s: Seq<A>, n: nat) -> Seq<A> {
    if s.len() <= n {
        s
    } else {
        s.take(n as int)
    }
}

/// Frequencies never increase along `s`.
pub open spec fn non_increasing<K>(s: Seq<(K, u64)>) -> bool {
    forall|i: int, j: int| 0 <= i < j < s.len() ==> s[i].1 >= s[j].1
}

proof fn lemma_insert_ranked_at<K>(s: Seq<(K, u64)>, e: (K, u64), pos: int)
    requires
        0 <= pos <= s.len(),
        forall|j: int| 0 <= j < pos ==> s[j].1 >= e.1,
        pos == s.len() || s[pos].1 < e.1,
    ensures
        insert_ranked(s, e) == s.insert(pos, e),
    decreases s.len(),
{
    if s.len() == 0 {
        assert(s.insert(pos, e) =~= seq![e]);
    } else if pos == 0 {
        assert(s.insert(pos, e) =~= seq![e] + s);
    } else {
        let t = s.drop_first();
        assert forall|j: int| 0 <= j < pos - 1 implies t[j].1 >= e.1 by {
            assert(t[j] == s[j + 1]);
        }
        lemma_insert_ranked_at(t, e, pos - 1);
        assert(s.insert(pos, e) =~= seq![s[0]] + t.insert(pos - 1, e));
    }
}

proof fn lemma_insert_ranked_len<K>(s: Seq<(K, u64)>, e: (K, u64))
    ensures
        insert_ranked(s, e).len() == s.len() + 1,
    decreases s.len(),
{
    if s.len() > 0 && s[0].1 >= e.1 {
        lemma_insert_ranked_len(s.drop_first(), e);
    }
}

proof fn lemma_insert_ranked_first_n<K>(s: Seq<(K, u64)>, e: (K, u64), n: nat)
    ensures
        first_n(insert_ranked(s, e), n) == first_n(insert_ranked(first_n(s, n), e), n),
    decreases s.len(),
{
    lemma_insert_ranked_len(s, e);
    lemma_insert_ranked_len(first_n(s, n), e);
    if s.len() <= n {
    } else if n == 0 {
        assert(first_n(insert_ranked(s, e), n) =~= Seq::empty());
        assert(first_n(insert_ranked(first_n(s, n), e), n) =~= Seq::empty());
    } else if s[0].1 >= e.1 {
        let t = s.drop_first();
        let m = (n - 1) as nat;
        lemma_insert_ranked_first_n(t, e, m);
        lemma_insert_ranked_len(t, e);
        lemma_insert_ranked_len(first_n(t, m), e);
        assert(first_n(s, n) =~= seq![s[0]] + first_n(t, m));
        assert(first_n(s, n).drop_first() =~= first_n(t, m));
        assert(first_n(insert_ranked(s, e), n) =~= seq![s[0]] + first_n(insert_ranked(t, e), m));
        assert(first_n(insert_ranked(first_n(s, n), e), n) =~= seq![s[0]] + first_n(
            insert_ranked(first_n(t, m), e),
            m,
        ));
    } else {
        assert(first_n(s, n)[0] == s[0]);
        assert(first_n(insert_ranked(s, e), n) =~= first_n(insert_ranked(first_n(s, n), e), n));
    }
}

proof fn lemma_insert_ranked_sorted<K>(s: Seq<(K, u64)>, e: (K, u64))
    requires
        non_increasing(s),
    ensures
        non_increasing(insert_ranked(s, e)),
        forall|x: (K, u64)| #[trigger] insert_ranked(s, e).contains(x) ==> s.contains(x) || x == e,
    decreases s.len(),
{
    lemma_insert_ranked_len(s, e);
    let r = insert_ranked(s, e);
    if s.len() == 0 {
        assert forall|x: (K, u64)| #[trigger] r.contains(x) implies s.contains(x) || x == e by {
            assert(r[0] == e);
        }
    } else if s[0].1 >= e.1 {
        let t = s.drop_first();
        lemma_insert_ranked_sorted(t, e);
        let rt = insert_ranked(t, e);
        assert(r == seq![s[0]] + rt);
        assert forall|j: int| 0 <= j < rt.len() implies s[0].1 >= #[trigger] rt[j].1 by {
            assert(rt.contains(rt[j]));
            if rt[j] != e {
                let k = choose|k: int| 0 <= k < t.len() && t[k] == rt[j];
                assert(t[k] == s[k + 1]);
            }
        }
        assert forall|i: int, j: int| 0 <= i < j < r.len() implies r[i].1 >= r[j].1 by {
            if i == 0 {
                assert(r[j] == rt[j - 1]);
            } else {
                assert(r[i] == rt[i - 1] && r[j] == rt[j - 1]);
            }
        }
        assert forall|x: (K, u64)| #[trigger] r.contains(x) implies s.contains(x) || x == e by {
            let k = choose|k: int| 0 <= k < r.len() && r[k] == x;
            if k > 0 {
                assert(rt[k - 1] == x);
                assert(rt.contains(x));
                if x != e {
                    let m = choose|m: int| 0 <= m < t.len() && t[m] == x;
                    assert(s[m + 1] == x);
                }
            } else {
                assert(s[0] == x);
            }
        }
    } else {
        assert(r == seq![e] + s);
        assert forall|i: int, j: int| 0 <= i < j < r.len() implies r[i].1 >= r[j].1 by {
            if i == 0 {
                assert(r[j] == s[j - 1]);
            } else {
                assert(r[i] == s[i - 1] && r[j] == s[j - 1]);
            }
        }
        assert forall|x: (K, u64)| #[trigger] r.contains(x) implies s.contains(x) || x == e by {
            let k = choose|k: int| 0 <= k < r.len() && r[k] == x;
            if k > 0 {
                assert(s[k - 1] == x);
            }
        }
    }
}

/// Ranking keeps the number of entries, orders them by descending frequency,
/// and brings in no entry that was not there.
pub proof fn lemma_rank_properties<K>(s: Seq<(K, u64)>)
    ensures
        rank(s).len() == s.len(),
        non_increasing(rank(s)),
        forall|x: (K, u64)| #[trigger] rank(s).contains(x) ==> s.contains(x),
    decreases s.len(),
{
    if s.len() > 0 {
        let t = s.drop_last();
        lemma_rank_properties(t);
        lemma_insert_ranked_len(rank(t), s.last());
        lemma_insert_ranked_sorted(rank(t), s.last());
        assert forall|x: (K, u64)| #[trigger] rank(s).contains(x) implies s.contains(x) by {
            if rank(t).contains(x) {
                let k = choose|k: int| 0 <= k < t.len() && t[k] == x;
                assert(s[k] == x);
            } else {
                assert(s[s.len() - 1] == x);
            }
        }
    }
}

/// The `n` highest-frequency entries of `items` (stable among equal frequencies).
pub fn top_ranked(items: &Vec<(String, u64)>, n: usize) -> (r: Vec<(String, u64)>)
    ensures
        pair_views(r@) == first_n(rank(pair_views(items@)), n as nat),
{
    let mut top: Vec<(String, u64)> = Vec::new();
    let mut i: usize = 0;
    while i < items.len()
        invariant
            i <= items.len(),
            pair_views(top@) == first_n(rank(pair_views(items@).take(i as int)), n as nat),
            top.len() <= n,
        decreases items.len() - i,
    {
        let f = items[i].1;
        let ghost e = (items@[i as int].0@, f);
        let ghost before = pair_views(top@);
        let mut pos: usize = 0;
        while pos < top.len() && top[pos].1 >= f
            invariant
                pos <= top.len(),
                pair_views(top@) == before,
                top.len() <= n,
                forall|j: int| 0 <= j < pos ==> top@[j].1 >= f,
            decreases top.len() - pos,
        {
            pos += 1;
        }
        proof {
            let all = pair_views(items@);
            assert(all.take(i + 1).drop_last() =~= all.take(i as int));
            assert(all.take(i + 1).last() == e);
            lemma_insert_ranked_first_n(rank(all.take(i as int)), e, n as nat);
            lemma_insert_ranked_at(before, e, pos as int);
        }
        if pos < n {
            let w = items[i].0.clone();
            top.insert(pos, (w, f));
            assert(pair_views(top@) =~= before.insert(pos as int, e));
            if top.len() > n {
                top.pop();
                assert(pair_views(top@) =~= first_n(before.insert(pos as int, e), n as nat));
            } else {
                assert(pair_views(top@) =~= first_n(before.insert(pos as int, e), n as nat));
            }
        } else {
            assert(first_n(before.insert(pos as int, e), n as nat) =~= before);
        }
        i += 1;
    }
    assert(pair_views(items@).take(items.len() as int) =~= pair_views(items@));
    top
}

/// The entries with each string replaced by its characters.
pub open spec fn pair_views(s: Seq<(String, u64)>) -> Seq<(Seq<char>, u64)> {
    s.map_values(|p: (String, u64)| (p.0@, p.1))
}

} // verus!

verus! {

/// `a` comes strictly before `b` in the byte order of their UTF-8 encodings.
pub open spec fn key_lt(a: Seq<char>, b: Seq<char>) -> bool {
    crate::index::bytes_lt(vstd::utf8::encode_utf8(a), vstd::utf8::encode_utf8(b))
}

/// Entries of equal frequency stand in ascending key order.
pub open spec fn ties_in_key_order(s: Seq<(Seq<char>, u64)>) -> bool {
    forall|i: int, j: int| 0 <= i < j < s.len() && s[i].1 == s[j].1 ==> key_lt(s[i].0, s[j].0)
}

/// Every key of `s` comes strictly before every later key.
pub open spec fn keys_increase(s: Seq<(Seq<char>, u64)>) -> bool {
    forall|i: int, j: int| 0 <= i < j < s.len() ==> key_lt(s[i].0, s[j].0)
}

proof fn lemma_insert_ranked_ties(s: Seq<(Seq<char>, u64)>, e: (Seq<char>, u64))
    requires
        non_increasing(s),
        ties_in_key_order(s),
        forall|x: (Seq<char>, u64)| #[trigger] s.contains(x) ==> key_lt(x.0, e.0),
    ensures
        ties_in_key_order(insert_ranked(s, e)),
    decreases s.len(),
{
    lemma_insert_ranked_len(s, e);
    let r = insert_ranked(s, e);
    if s.len() == 0 {
    } else if s[0].1 >= e.1 {
        let t = s.drop_first();
        assert forall|i: int, j: int| 0 <= i < j < t.len() implies t[i].1 >= t[j].1 by {
            assert(t[i] == s[i + 1] && t[j] == s[j + 1]);
        }
        assert forall|i: int, j: int| 0 <= i < j < t.len() && t[i].1 == t[j].1 implies key_lt(t[i].0, t[j].0) by {
            assert(t[i] == s[i + 1] && t[j] == s[j + 1]);
        }
        assert forall|x: (Seq<char>, u64)| #[trigger] t.contains(x) implies key_lt(x.0, e.0) by {
            let k = choose|k: int| 0 <= k < t.len() && t[k] == x;
            assert(s[k + 1] == x);
            assert(s.contains(x));
        }
        lemma_insert_ranked_ties(t, e);
        lemma_insert_ranked_sorted(t, e);
        lemma_insert_ranked_len(t, e);
        let rt = insert_ranked(t, e);
        assert(r == seq![s[0]] + rt);
        assert forall|i: int, j: int| 0 <= i < j < r.len() && r[i].1 == r[j].1 implies key_lt(r[i].0, r[j].0) by {
            if i == 0 {
                assert(r[j] == rt[j - 1]);
                assert(rt.contains(rt[j - 1]));
                if rt[j - 1] == e {
                    assert(s.contains(s[0]));
                } else {
                    let k = choose|k: int| 0 <= k < t.len() && t[k] == rt[j - 1];
                    assert(s[k + 1] == rt[j - 1]);
                }
            } else {
                assert(r[i] == rt[i - 1] && r[j] == rt[j - 1]);
            }
        }
    } else {
        assert(r == seq![e] + s);
        assert forall|i: int, j: int| 0 <= i < j < r.len() && r[i].1 == r[j].1 implies key_lt(r[i].0, r[j].0) by {
            if i == 0 {
                assert(r[j] == s[j - 1]);
                if j - 1 > 0 {
                    assert(s[0].1 >= s[j - 1].1);
                }
            } else {
                assert(r[i] == s[i - 1] && r[j] == s[j - 1]);
            }
        }
    }
}

/// Ranking entries whose keys increase keeps entries of equal frequency in
/// key order: the ranking is stable.
pub proof fn lemma_rank_ties_in_key_order(s: Seq<(Seq<char>, u64)>)
    requires
        keys_increase(s),
    ensures
        ties_in_key_order(rank(s)),
    decreases s.len(),
{
    if s.len() > 0 {
        let t = s.drop_last();
        assert forall|i: int, j: int| 0 <= i < j < t.len() implies key_lt(t[i].0, t[j].0) by {
            assert(t[i] == s[i] && t[j] == s[j]);
        }
        lemma_rank_ties_in_key_order(t);
        lemma_rank_properties(t);
        assert forall|x: (Seq<char>, u64)| #[trigger] rank(t).contains(x) implies key_lt(x.0, s.last().0) by {
            assert(t.contains(x));
            let k = choose|k: int| 0 <= k < t.len() && t[k] == x;
            assert(s[k] == x);
        }
        lemma_insert_ranked_ties(rank(t), s.last());
    }
}

} // verus!
