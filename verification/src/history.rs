//! Pairing history: how many times every two participants have already
//! been paired.
//!
//! The history is built once per run from the collection of past pairing
//! records and is read-only afterwards. Its abstract value is a map from
//! canonical pair keys to counts; a pair that was never recorded is
//! absent from the map and scores zero.

use vstd::prelude::*;
use crate::keys::{canon_key, lemma_canon_key_sorted, lemma_canon_key_symmetric, lex_leq,
    normalize_pair};

verus! {

/// One aggregated history entry: a canonical pair key and its count.
struct HistEntry {
    first: String,
    second: String,
    count: u64,
}

/// The key of an aggregated entry.
spec fn entry_key(e: HistEntry) -> (Seq<char>, Seq<char>) {
    (e.first@, e.second@)
}

/// The count of the first entry whose key is `k`, or zero when no entry
/// has that key.
spec fn lookup(s: Seq<HistEntry>, k: (Seq<char>, Seq<char>)) -> u64
    decreases s.len(),
{
    if s.len() == 0 {
        0
    } else if entry_key(s[0]) == k {
        s[0].count
    } else {
        lookup(s.drop_first(), k)
    }
}

/// Whether some entry has the key `k`.
spec fn has_key(s: Seq<HistEntry>, k: (Seq<char>, Seq<char>)) -> bool {
    exists|i: int| 0 <= i < s.len() && entry_key(s[i]) == k
}

/// Counts of prior co-occurrences, indexed by canonical pair key.
pub struct PairHistory {
    entries: Vec<HistEntry>,
}

impl View for PairHistory {
    type V = Map<(Seq<char>, Seq<char>), u64>;

    closed spec fn view(&self) -> Map<(Seq<char>, Seq<char>), u64> {
        Map::new(
            |k: (Seq<char>, Seq<char>)| has_key(self.entries@, k),
            |k: (Seq<char>, Seq<char>)| lookup(self.entries@, k),
        )
    }
}

/// The score of the unordered pair `{a, b}` under the history map `m`:
/// the stored count for the canonical key, or zero when absent.
pub open spec fn spec_score(
    m: Map<(Seq<char>, Seq<char>), u64>,
    a: Seq<char>,
    b: Seq<char>,
) -> int {
    let k = canon_key(a, b);
    if m.dom().contains(k) {
        m[k] as int
    } else {
        0
    }
}

/// How many of the records `rs` name the same unordered pair as the
/// canonical key `k`.
pub open spec fn key_count(
    rs: Seq<(Seq<char>, Seq<char>)>,
    k: (Seq<char>, Seq<char>),
) -> int
    decreases rs.len(),
{
    if rs.len() == 0 {
        0
    } else {
        key_count(rs.drop_last(), k) + if canon_key(rs.last().0, rs.last().1) == k {
            1int
        } else {
            0int
        }
    }
}

/// How many of the records `rs` name the unordered pair `{a, b}`.
pub open spec fn rec_count(rs: Seq<(Seq<char>, Seq<char>)>, a: Seq<char>, b: Seq<char>) -> int {
    key_count(rs, canon_key(a, b))
}

proof fn lemma_lookup_absent(s: Seq<HistEntry>, k: (Seq<char>, Seq<char>))
    requires
        !has_key(s, k),
    ensures
        lookup(s, k) == 0,
    decreases s.len(),
{
    if s.len() > 0 {
        assert(entry_key(s[0]) != k);
        assert(!has_key(s.drop_first(), k)) by {
            assert(forall|i: int|
                0 <= i < s.drop_first().len() ==> #[trigger] s.drop_first()[i] == s[i + 1]);
        }
        lemma_lookup_absent(s.drop_first(), k);
    }
}

proof fn lemma_lookup_positive(s: Seq<HistEntry>, k: (Seq<char>, Seq<char>))
    requires
        has_key(s, k),
        forall|j: int| 0 <= j < s.len() ==> (#[trigger] s[j]).count >= 1,
    ensures
        lookup(s, k) >= 1,
    decreases s.len(),
{
    if entry_key(s[0]) == k {
    } else {
        assert(has_key(s.drop_first(), k)) by {
            let i = choose|i: int| 0 <= i < s.len() && entry_key(s[i]) == k;
            assert(s.drop_first()[i - 1] == s[i]);
        }
        lemma_lookup_positive(s.drop_first(), k);
    }
}

proof fn lemma_lookup_first(s: Seq<HistEntry>, k: (Seq<char>, Seq<char>), i: int)
    requires
        0 <= i < s.len(),
        entry_key(s[i]) == k,
        forall|l: int| 0 <= l < i ==> entry_key(s[l]) != k,
    ensures
        lookup(s, k) == s[i].count,
        has_key(s, k),
    decreases i,
{
    if i > 0 {
        assert(s.drop_first()[i - 1] == s[i]);
        assert(forall|l: int|
            0 <= l < i - 1 ==> entry_key(#[trigger] s.drop_first()[l]) != k);
        lemma_lookup_first(s.drop_first(), k, i - 1);
    }
}

proof fn lemma_lookup_update(
    s: Seq<HistEntry>,
    j: int,
    e: HistEntry,
    k: (Seq<char>, Seq<char>),
)
    requires
        0 <= j < s.len(),
        entry_key(e) == entry_key(s[j]),
        forall|l: int| 0 <= l < j ==> entry_key(s[l]) != entry_key(s[j]),
    ensures
        lookup(s.update(j, e), k) == if k == entry_key(s[j]) {
            e.count
        } else {
            lookup(s, k)
        },
    decreases j,
{
    let s2 = s.update(j, e);
    if j == 0 {
        assert(s2[0] == e);
        assert(s2.drop_first() =~= s.drop_first());
    } else {
        assert(s2[0] == s[0]);
        assert(s2.drop_first() =~= s.drop_first().update(j - 1, e));
        assert(s.drop_first()[j - 1] == s[j]);
        assert(forall|l: int|
            0 <= l < j - 1 ==> entry_key(#[trigger] s.drop_first()[l]) != entry_key(s[j]));
        lemma_lookup_update(s.drop_first(), j - 1, e, k);
    }
}

proof fn lemma_lookup_push(s: Seq<HistEntry>, e: HistEntry, k: (Seq<char>, Seq<char>))
    requires
        !has_key(s, entry_key(e)),
    ensures
        lookup(s.push(e), k) == if k == entry_key(e) {
            e.count
        } else {
            lookup(s, k)
        },
    decreases s.len(),
{
    let s2 = s.push(e);
    assert(s2.len() == s.len() + 1);
    if s.len() == 0 {
        assert(s2[0] == e);
        assert(s2.drop_first() =~= Seq::<HistEntry>::empty());
        assert(lookup(s2.drop_first(), k) == 0);
        if k == entry_key(e) {
            assert(lookup(s2, k) == e.count);
        } else {
            assert(lookup(s2, k) == 0);
            assert(lookup(s, k) == 0);
        }
    } else {
        assert(entry_key(s[0]) != entry_key(e)) by {
            // Index 0 witnesses has_key for the head's own key.
            assert(0 <= 0 < s.len() && entry_key(s[0]) == entry_key(s[0]));
        }
        assert(s2[0] == s[0]);
        assert(s2.drop_first() =~= s.drop_first().push(e));
        assert(!has_key(s.drop_first(), entry_key(e))) by {
            assert(forall|i: int|
                0 <= i < s.drop_first().len() ==> #[trigger] s.drop_first()[i] == s[i + 1]);
        }
        lemma_lookup_push(s.drop_first(), e, k);
        if k == entry_key(s2[0]) {
            assert(lookup(s2, k) == s[0].count);
            assert(lookup(s, k) == s[0].count);
        } else {
            assert(lookup(s2, k) == lookup(s2.drop_first(), k));
            assert(lookup(s, k) == lookup(s.drop_first(), k));
        }
    }
}

/// The abstract score of a history is exactly the first-match lookup in
/// its entry list.
proof fn lemma_score_is_lookup(h: &PairHistory, a: Seq<char>, b: Seq<char>)
    ensures
        spec_score(h@, a, b) == lookup(h.entries@, canon_key(a, b)) as int,
{
    let k = canon_key(a, b);
    if !h@.dom().contains(k) {
        lemma_lookup_absent(h.entries@, k);
    }
}

/// Finds the first aggregated entry whose key is `(na, nb)`.
fn find_entry(entries: &Vec<HistEntry>, na: &String, nb: &String) -> (r: Option<usize>)
    ensures
        match r {
            Some(j) => {
                &&& j < entries@.len()
                &&& entry_key(entries@[j as int]) == (na@, nb@)
                &&& forall|l: int| 0 <= l < j ==> entry_key(entries@[l]) != (na@, nb@)
            },
            None => !has_key(entries@, (na@, nb@)),
        },
{
    let n = entries.len();
    let mut j: usize = 0;
    while j < n
        invariant
            j <= n,
            n == entries@.len(),
            forall|l: int| 0 <= l < j ==> entry_key(entries@[l]) != (na@, nb@),
        decreases n - j,
    {
        if entries[j].first == *na && entries[j].second == *nb {
            return Some(j);
        }
        j = j + 1;
    }
    None
}

/// Returns how many times the unordered pair `{a, b}` has already been
/// recorded: the stored count for the canonical key, or zero if absent.
pub fn pair_score(history: &PairHistory, a: &str, b: &str) -> (s: u64)
    ensures
        s as int == spec_score(history@, a@, b@),
{
    let (na, nb) = normalize_pair(a, b);
    proof {
        lemma_score_is_lookup(history, a@, b@);
    }
    match find_entry(&history.entries, &na, &nb) {
        Some(j) => {
            proof {
                lemma_lookup_first(history.entries@, (na@, nb@), j as int);
            }
            history.entries[j].count
        },
        None => {
            proof {
                lemma_lookup_absent(history.entries@, (na@, nb@));
            }
            0
        },
    }
}

/// Aggregates past pairing records into a history: records are grouped
/// by canonical pair key and counted, so the score of any unordered pair
/// is exactly the number of records naming it (in either order).
///
/// The map holds nothing else: every key is canonical (smaller name
/// first) and carries the number of records naming it, at least one,
/// and every pair that some record names has its key present. A pair
/// never recorded is therefore absent, not stored with a zero, and the
/// stored counts sum to the number of records.
pub fn build_pair_counts(records: &Vec<(String, String)>) -> (h: PairHistory)
    ensures
        forall|a: Seq<char>, b: Seq<char>|
            spec_score(h@, a, b) == #[trigger] rec_count(records.deep_view(), a, b),
        forall|k: (Seq<char>, Seq<char>)|
            #[trigger] h@.dom().contains(k)
                ==> lex_leq(k.0, k.1)
                && h@[k] as int == key_count(records.deep_view(), k)
                && h@[k] >= 1,
        forall|k: (Seq<char>, Seq<char>)|
            #[trigger] key_count(records.deep_view(), k) > 0 ==> h@.dom().contains(k),
{
    let ghost all: Seq<(Seq<char>, Seq<char>)> = records.deep_view();
    let mut h = PairHistory { entries: Vec::new() };
    let n = records.len();
    let mut i: usize = 0;
    while i < n
        invariant
            i <= n,
            n == records@.len(),
            all == records.deep_view(),
            all.len() == n,
            forall|j1: int, j2: int|
                0 <= j1 < j2 < h.entries@.len()
                    ==> entry_key(#[trigger] h.entries@[j1]) != entry_key(#[trigger] h.entries@[j2]),
            forall|j: int|
                0 <= j < h.entries@.len() ==> (#[trigger] h.entries@[j]).count as int <= i,
            forall|j: int| 0 <= j < h.entries@.len() ==> (#[trigger] h.entries@[j]).count >= 1,
            forall|j: int|
                0 <= j < h.entries@.len()
                    ==> lex_leq((#[trigger] h.entries@[j]).first@, h.entries@[j].second@),
            forall|k: (Seq<char>, Seq<char>)|
                lookup(h.entries@, k) as int == key_count(all.take(i as int), k),
        decreases n - i,
    {
        let ghost pre = h.entries@;
        let ghost prefix = all.take(i as int);
        let (na, nb) = normalize_pair(records[i].0.as_str(), records[i].1.as_str());
        let ghost rk: (Seq<char>, Seq<char>) = (na@, nb@);
        proof {
            assert(all[i as int] == (records@[i as int].0@, records@[i as int].1@));
            assert(rk == canon_key(all[i as int].0, all[i as int].1));
            lemma_canon_key_sorted(all[i as int].0, all[i as int].1);
            assert(lex_leq(rk.0, rk.1));
            assert(all.take(i + 1).drop_last() =~= prefix);
            assert(all.take(i + 1).last() == all[i as int]);
            assert(forall|k: (Seq<char>, Seq<char>)|
                #[trigger] key_count(all.take(i + 1), k)
                    == key_count(prefix, k) + if rk == k { 1int } else { 0int });
        }
        match find_entry(&h.entries, &na, &nb) {
            Some(j) => {
                let e = h.entries.remove(j);
                let count = e.count;
                h.entries.insert(j, HistEntry { first: e.first, second: e.second, count: count + 1 });
                proof {
                    assert(h.entries@ =~= pre.update(j as int, h.entries@[j as int]));
                    assert(entry_key(h.entries@[j as int]) == rk);
                    assert forall|k: (Seq<char>, Seq<char>)|
                        lookup(h.entries@, k) as int == key_count(all.take(i + 1), k) by {
                        lemma_lookup_update(pre, j as int, h.entries@[j as int], k);
                        if k == rk {
                            lemma_lookup_first(pre, k, j as int);
                        }
                    }
                }
            },
            None => {
                h.entries.push(HistEntry { first: na, second: nb, count: 1 });
                proof {
                    assert(h.entries@ =~= pre.push(h.entries@.last()));
                    assert(entry_key(h.entries@.last()) == rk);
                    assert forall|k: (Seq<char>, Seq<char>)|
                        lookup(h.entries@, k) as int == key_count(all.take(i + 1), k) by {
                        lemma_lookup_push(pre, h.entries@.last(), k);
                        if k == rk {
                            lemma_lookup_absent(pre, k);
                        }
                    }
                }
            },
        }
        i = i + 1;
    }
    proof {
        assert(all.take(n as int) =~= all);
        assert forall|a: Seq<char>, b: Seq<char>|
            spec_score(h@, a, b) == #[trigger] rec_count(records.deep_view(), a, b) by {
            lemma_score_is_lookup(&h, a, b);
        }
        assert forall|k: (Seq<char>, Seq<char>)|
            #[trigger] h@.dom().contains(k) implies lex_leq(k.0, k.1)
            && h@[k] as int == key_count(all, k) && h@[k] >= 1 by {
            assert(has_key(h.entries@, k));
            let j = choose|j: int|
                0 <= j < h.entries@.len() && entry_key(h.entries@[j]) == k;
            assert(lex_leq(h.entries@[j].first@, h.entries@[j].second@));
            assert(h@[k] == lookup(h.entries@, k));
            lemma_lookup_positive(h.entries@, k);
        }
        assert forall|k: (Seq<char>, Seq<char>)|
            #[trigger] key_count(all, k) > 0 implies h@.dom().contains(k) by {
            if !h@.dom().contains(k) {
                lemma_lookup_absent(h.entries@, k);
            }
        }
    }
    h
}

/// History round-trip: a history whose scores agree with a collection of
/// records gives the unordered pair `{x, y}` exactly the number of
/// records naming it, whichever way round the pair is asked about.
pub proof fn lemma_history_round_trip(
    m: Map<(Seq<char>, Seq<char>), u64>,
    rs: Seq<(Seq<char>, Seq<char>)>,
    x: Seq<char>,
    y: Seq<char>,
    k: int,
)
    requires
        forall|a: Seq<char>, b: Seq<char>| spec_score(m, a, b) == #[trigger] rec_count(rs, a, b),
        rec_count(rs, x, y) == k,
    ensures
        spec_score(m, x, y) == k,
        spec_score(m, y, x) == k,
{
    lemma_canon_key_symmetric(x, y);
}

} // verus!
