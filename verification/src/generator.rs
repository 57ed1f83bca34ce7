//! The pairing generator: a randomized greedy search for a partition of
//! the roster into pairs (plus one solo participant when the roster size
//! is odd) with a low total repeat score.
//!
//! Each attempt shuffles the roster and scans the permutation left to
//! right: every not-yet-matched participant is paired with the remaining
//! participant of lowest historical score, the first such participant in
//! scan order winning ties. The best of a fixed number of attempts is
//! returned. The deterministic part of one attempt is specified exactly
//! by [`greedy`]; randomness only chooses which permutations are tried.

use vstd::prelude::*;
use vstd::multiset::Multiset;
use vstd::seq_lib::group_to_multiset_ensures;
use rand::seq::SliceRandom;
use crate::history::{PairHistory, spec_score, pair_score};

verus! {

/// The index in `rest` of the entry of minimal score with `p`, the
/// earliest such entry winning ties.
pub open spec fn first_min_idx(
    m: Map<(Seq<char>, Seq<char>), u64>,
    p: Seq<char>,
    rest: Seq<Seq<char>>,
) -> int
    decreases rest.len(),
{
    if rest.len() <= 1 {
        0
    } else {
        let j = 1 + first_min_idx(m, p, rest.drop_first());
        if spec_score(m, p, rest[0]) <= spec_score(m, p, rest[j]) {
            0
        } else {
            j
        }
    }
}

/// One greedy pass over the permutation `names`: the pairs it forms in
/// order, the leftover solo participant when `names` has odd length, and
/// the total score of the pairs.
pub open spec fn greedy(
    m: Map<(Seq<char>, Seq<char>), u64>,
    names: Seq<Seq<char>>,
) -> (Seq<(Seq<char>, Seq<char>)>, Option<Seq<char>>, int)
    decreases names.len(),
{
    if names.len() == 0 {
        (Seq::empty(), None, 0)
    } else if names.len() == 1 {
        (Seq::empty(), Some(names[0]), 0)
    } else {
        let rest = names.drop_first();
        let j0 = first_min_idx(m, names[0], rest);
        // first_min_idx always lies in range (lemma_first_min_idx_props);
        // the guard only keeps the recursion visibly well founded.
        let j = if 0 <= j0 < rest.len() {
            j0
        } else {
            0
        };
        let q = rest[j];
        let sub = greedy(m, rest.remove(j));
        (seq![(names[0], q)] + sub.0, sub.1, spec_score(m, names[0], q) + sub.2)
    }
}

/// The total historical score of a sequence of pairs.
pub open spec fn pairs_total(
    m: Map<(Seq<char>, Seq<char>), u64>,
    ps: Seq<(Seq<char>, Seq<char>)>,
) -> int
    decreases ps.len(),
{
    if ps.len() == 0 {
        0
    } else {
        spec_score(m, ps[0].0, ps[0].1) + pairs_total(m, ps.drop_first())
    }
}

/// All participants named by a sequence of pairs, as a multiset.
pub open spec fn pairs_names(ps: Seq<(Seq<char>, Seq<char>)>) -> Multiset<Seq<char>>
    decreases ps.len(),
{
    if ps.len() == 0 {
        Multiset::empty()
    } else {
        pairs_names(ps.drop_first()).insert(ps[0].0).insert(ps[0].1)
    }
}

/// Every permutation in `perms` rearranges exactly the names in `names`,
/// and no greedy pass over any of them has a total below `total`: a run
/// that tried the permutations in `perms` and kept the best could not
/// have reported a lower total than `total`.
pub open spec fn attempts_no_better(
    m: Map<(Seq<char>, Seq<char>), u64>,
    perms: Seq<Seq<Seq<char>>>,
    names: Seq<Seq<char>>,
    total: int,
) -> bool {
    forall|i: int|
        0 <= i < perms.len()
            ==> (#[trigger] perms[i]).to_multiset() == names.to_multiset()
            && greedy(m, perms[i]).2 >= total
}

/// The participant named by a solo marker, as a multiset.
pub open spec fn solo_names(solo: Option<Seq<char>>) -> Multiset<Seq<char>> {
    match solo {
        Some(x) => Multiset::empty().insert(x),
        None => Multiset::empty(),
    }
}

/// `first_min_idx` names an entry of minimal score, and every earlier
/// entry scores strictly worse.
pub proof fn lemma_first_min_idx_props(
    m: Map<(Seq<char>, Seq<char>), u64>,
    p: Seq<char>,
    rest: Seq<Seq<char>>,
)
    requires
        rest.len() >= 1,
    ensures
        0 <= first_min_idx(m, p, rest) < rest.len(),
        forall|l: int|
            0 <= l < rest.len()
                ==> spec_score(m, p, rest[first_min_idx(m, p, rest)])
                <= spec_score(m, p, #[trigger] rest[l]),
        forall|l: int|
            0 <= l < first_min_idx(m, p, rest)
                ==> spec_score(m, p, #[trigger] rest[l])
                > spec_score(m, p, rest[first_min_idx(m, p, rest)]),
    decreases rest.len(),
{
    if rest.len() > 1 {
        let tail = rest.drop_first();
        lemma_first_min_idx_props(m, p, tail);
        assert(forall|l: int| 0 <= l < tail.len() ==> #[trigger] tail[l] == rest[l + 1]);
        let ft = first_min_idx(m, p, tail);
        let j = 1 + ft;
        let f = first_min_idx(m, p, rest);
        assert(rest[j] == tail[ft]);
        if spec_score(m, p, rest[0]) <= spec_score(m, p, rest[j]) {
            assert(f == 0);
            assert forall|l: int|
                0 <= l < rest.len() implies spec_score(m, p, rest[f])
                <= spec_score(m, p, #[trigger] rest[l]) by {
                if l >= 1 {
                    assert(rest[l] == tail[l - 1]);
                    assert(spec_score(m, p, tail[ft]) <= spec_score(m, p, tail[l - 1]));
                }
            }
        } else {
            assert(f == j);
            assert forall|l: int|
                0 <= l < rest.len() implies spec_score(m, p, rest[f])
                <= spec_score(m, p, #[trigger] rest[l]) by {
                if l >= 1 {
                    assert(rest[l] == tail[l - 1]);
                    assert(spec_score(m, p, tail[ft]) <= spec_score(m, p, tail[l - 1]));
                }
            }
            assert forall|l: int|
                0 <= l < f implies spec_score(m, p, #[trigger] rest[l])
                > spec_score(m, p, rest[f]) by {
                if l >= 1 {
                    assert(rest[l] == tail[l - 1]);
                    assert(spec_score(m, p, tail[l - 1]) > spec_score(m, p, tail[ft]));
                }
            }
        }
    }
}

/// Any index of minimal score whose earlier entries all score strictly
/// worse is `first_min_idx`.
pub proof fn lemma_first_min_idx_unique(
    m: Map<(Seq<char>, Seq<char>), u64>,
    p: Seq<char>,
    rest: Seq<Seq<char>>,
    j: int,
)
    requires
        0 <= j < rest.len(),
        forall|l: int|
            0 <= l < rest.len() ==> spec_score(m, p, rest[j]) <= spec_score(m, p, #[trigger] rest[l]),
        forall|l: int|
            0 <= l < j ==> spec_score(m, p, #[trigger] rest[l]) > spec_score(m, p, rest[j]),
    ensures
        j == first_min_idx(m, p, rest),
{
    let f = first_min_idx(m, p, rest);
    lemma_first_min_idx_props(m, p, rest);
    if j < f {
        assert(spec_score(m, p, rest[j]) > spec_score(m, p, rest[f]));
        assert(spec_score(m, p, rest[j]) <= spec_score(m, p, rest[f]));
    } else if f < j {
        assert(spec_score(m, p, rest[f]) > spec_score(m, p, rest[j]));
        assert(spec_score(m, p, rest[f]) <= spec_score(m, p, rest[j]));
    }
}

/// The shape of a greedy pass: half as many pairs as names, a solo
/// participant exactly when the number of names is odd, full coverage of
/// the names, a total equal to the sum of the pair scores, and a total
/// bounded by the number of pairs times the largest single count.
pub proof fn lemma_greedy_props(m: Map<(Seq<char>, Seq<char>), u64>, names: Seq<Seq<char>>)
    ensures
        greedy(m, names).0.len() == names.len() / 2,
        (greedy(m, names).1 is Some) <==> (names.len() % 2 == 1),
        pairs_names(greedy(m, names).0).add(solo_names(greedy(m, names).1))
            == names.to_multiset(),
        greedy(m, names).2 == pairs_total(m, greedy(m, names).0),
        0 <= greedy(m, names).2,
        greedy(m, names).2 <= (names.len() / 2) * (u64::MAX as int),
    decreases names.len(),
{
    broadcast use group_to_multiset_ensures;
    broadcast use vstd::multiset::group_multiset_axioms;

    let g = greedy(m, names);
    if names.len() == 0 {
        assert(names.to_multiset() =~= Multiset::<Seq<char>>::empty());
        assert(pairs_names(g.0).add(solo_names(g.1)) =~= names.to_multiset());
    } else if names.len() == 1 {
        assert(names =~= Seq::empty().push(names[0]));
        assert(names.to_multiset() =~= Multiset::<Seq<char>>::empty().insert(names[0]));
        assert(pairs_names(g.0).add(solo_names(g.1)) =~= names.to_multiset());
    } else {
        let rest = names.drop_first();
        let j0 = first_min_idx(m, names[0], rest);
        lemma_first_min_idx_props(m, names[0], rest);
        let j = j0;
        let q = rest[j];
        let remaining = rest.remove(j);
        let sub = greedy(m, remaining);
        lemma_greedy_props(m, remaining);

        // Coverage: removing p and q from the names and putting them back
        // through the new pair restores the multiset.
        assert(names =~= seq![names[0]] + rest);
        assert(rest.to_multiset() =~= names.to_multiset().remove(names[0])) by {
            assert(names.remove(0) =~= rest);
        }
        assert(rest.contains(q));
        assert(rest.to_multiset().count(q) > 0);
        assert(remaining.to_multiset() =~= rest.to_multiset().remove(q));
        assert(g.0.drop_first() =~= sub.0);
        assert(g.0[0] == (names[0], q));
        assert(pairs_names(g.0) =~= pairs_names(sub.0).insert(names[0]).insert(q));
        assert(names.to_multiset().count(names[0]) > 0) by {
            assert(names.contains(names[0]));
        }
        assert(pairs_names(g.0).add(solo_names(g.1))
            =~= (pairs_names(sub.0).add(solo_names(sub.1))).insert(names[0]).insert(q));
        assert(remaining.to_multiset().insert(names[0]).insert(q)
            =~= rest.to_multiset().insert(names[0]));
        assert(rest.to_multiset().insert(names[0]) =~= names.to_multiset());
        assert(pairs_names(g.0).add(solo_names(g.1)) =~= names.to_multiset());

        // Totals.
        assert(pairs_total(m, g.0) == spec_score(m, names[0], q) + pairs_total(m, sub.0));
        assert(names.len() / 2 == 1 + remaining.len() / 2);
        assert((1 + remaining.len() / 2) * (u64::MAX as int)
            == (u64::MAX as int) + (remaining.len() / 2) * (u64::MAX as int));
    }
}

/// The outcome of one generation run: the pairs that were formed, the
/// solo participant left over when the roster size is odd, and the total
/// historical score of the pairs.
pub struct PairingResult {
    pub pairs: Vec<(String, String)>,
    pub solo: Option<String>,
    pub total: u128,
}

#[verifier::external_type_specification]
#[verifier::external_body]
pub struct ExThreadRng(rand::rngs::ThreadRng);

/// Relies on rand::rng: a handle to the thread-local random generator.
#[verifier::external_body]
fn fresh_rng() -> rand::rngs::ThreadRng {
    rand::rng()
}

/// Relies on rand::seq::SliceRandom::shuffle: a Fisher-Yates shuffle
/// that reorders the elements of the slice in place, neither adding nor
/// removing any.
#[verifier::external_body]
fn shuffle_names(v: &mut Vec<String>, rng: &mut rand::rngs::ThreadRng)
    ensures
        final(v).deep_view().to_multiset() == old(v).deep_view().to_multiset(),
        final(v)@.len() == old(v)@.len(),
{
    v.as_mut_slice().shuffle(rng);
}

/// Copies a list of names.
fn clone_names(v: &Vec<String>) -> (r: Vec<String>)
    ensures
        r.deep_view() == v.deep_view(),
{
    let n = v.len();
    let mut r: Vec<String> = Vec::new();
    let mut i: usize = 0;
    while i < n
        invariant
            i <= n,
            n == v@.len(),
            r@.len() == i,
            forall|l: int| 0 <= l < i ==> (#[trigger] r@[l])@ == v@[l]@,
        decreases n - i,
    {
        r.push(v[i].clone());
        i = i + 1;
    }
    proof {
        assert forall|l: int| 0 <= l < n implies r.deep_view()[l] == v.deep_view()[l] by {
            assert(r@[l]@ == v@[l]@);
        }
        assert(r.deep_view() =~= v.deep_view());
    }
    r
}

/// One deterministic greedy pass over `pool`, taken as a permutation of
/// the roster: scans it left to right and pairs each not-yet-matched
/// participant with the remaining participant of lowest score, the first
/// in scan order winning ties. The result is exactly what [`greedy`]
/// specifies for this permutation.
pub fn greedy_pairing(pool: &Vec<String>, history: &PairHistory) -> (r: PairingResult)
    ensures
        r.pairs.deep_view() == greedy(history@, pool.deep_view()).0,
        r.solo.deep_view() == greedy(history@, pool.deep_view()).1,
        r.total as int == greedy(history@, pool.deep_view()).2,
{
    let ghost m = history@;
    let ghost orig: Seq<Seq<char>> = pool.deep_view();
    let pool_len = pool.len();
    proof {
        assert(orig.len() == pool_len as int);
    }
    let mut rest = clone_names(pool);
    let mut pairs: Vec<(String, String)> = Vec::new();
    let mut total: u128 = 0;
    proof {
        assert(pairs.deep_view() =~= Seq::<(Seq<char>, Seq<char>)>::empty());
        lemma_greedy_props(m, orig);
    }
    while rest.len() >= 2
        invariant
            history@ == m,
            orig == pool.deep_view(),
            orig.len() <= usize::MAX as int,
            greedy(m, orig).0 == pairs.deep_view() + greedy(m, rest.deep_view()).0,
            greedy(m, orig).1 == greedy(m, rest.deep_view()).1,
            greedy(m, orig).2 == total + greedy(m, rest.deep_view()).2,
            greedy(m, orig).2 <= (orig.len() / 2) * (u64::MAX as int),
            0 <= total,
        decreases rest@.len(),
    {
        let ghost names = rest.deep_view();
        proof {
            lemma_greedy_props(m, names);
        }
        let p = rest.remove(0);
        let ghost rdv = rest.deep_view();
        proof {
            assert(rdv =~= names.drop_first());
            assert(p@ == names[0]);
        }
        let n2 = rest.len();
        let mut bj: usize = 0;
        let mut bs: u64 = pair_score(history, p.as_str(), rest[0].as_str());
        let mut j2: usize = 1;
        while j2 < n2
            invariant
                history@ == m,
                rest.deep_view() == rdv,
                n2 == rest@.len(),
                1 <= j2 <= n2,
                bj < j2,
                bs as int == spec_score(m, p@, rdv[bj as int]),
                forall|l: int| 0 <= l < j2 ==> spec_score(m, p@, #[trigger] rdv[l]) >= bs as int,
                forall|l: int| 0 <= l < bj ==> spec_score(m, p@, #[trigger] rdv[l]) > bs as int,
            decreases n2 - j2,
        {
            let s = pair_score(history, p.as_str(), rest[j2].as_str());
            if s < bs {
                bs = s;
                bj = j2;
            }
            j2 = j2 + 1;
        }
        proof {
            lemma_first_min_idx_unique(m, p@, rdv, bj as int);
            lemma_first_min_idx_props(m, p@, rdv);
        }
        let q = rest.remove(bj);
        proof {
            assert(rest.deep_view() =~= rdv.remove(bj as int));
            assert(q@ == rdv[bj as int]);
            lemma_greedy_props(m, rest.deep_view());
            // No overflow: the running total plus this pair's score never
            // exceeds the bound on the whole pass.
            assert(greedy(m, names).2 == spec_score(m, p@, q@) + greedy(m, rest.deep_view()).2);
            assert(total + bs <= greedy(m, orig).2);
        }
        total = total + bs as u128;
        let ghost old_pairs = pairs.deep_view();
        pairs.push((p, q));
        proof {
            assert(pairs.deep_view() =~= old_pairs.push((names[0], rdv[bj as int])));
            assert(greedy(m, names).0 =~= seq![(names[0], rdv[bj as int])] + greedy(m, rest.deep_view()).0);
            assert(old_pairs + greedy(m, names).0
                =~= pairs.deep_view() + greedy(m, rest.deep_view()).0);
        }
    }
    let solo: Option<String> = if rest.len() == 1 {
        rest.pop()
    } else {
        None
    };
    proof {
        if rest@.len() == 1 {
            assert(solo.deep_view() == greedy(m, orig).1);
        } else {
            assert(greedy(m, rest.deep_view()).1 is None);
        }
        assert(pairs.deep_view() + greedy(m, rest.deep_view()).0 =~= pairs.deep_view());
    }
    PairingResult { pairs, solo, total }
}

/// Generates a pairing for the roster: runs `iterations` independent
/// greedy passes, each over a fresh random permutation of the roster,
/// and keeps the candidate of strictly lowest total score. The result
/// always covers the roster exactly, and its reported total is the sum
/// of its pairs' historical scores; which permutations are tried is up
/// to the random generator.
///
/// An empty roster and a zero iteration budget are rejected as
/// precondition violations: callers check before calling.
pub fn generate_groups(roster: &Vec<String>, history: &PairHistory, iterations: u64) -> (r: PairingResult)
    requires
        roster@.len() >= 1,
        iterations >= 1,
    ensures
        r.pairs@.len() == roster@.len() / 2,
        (r.solo is Some) <==> (roster@.len() % 2 == 1),
        pairs_names(r.pairs.deep_view()).add(solo_names(r.solo.deep_view()))
            == roster.deep_view().to_multiset(),
        r.total as int == pairs_total(history@, r.pairs.deep_view()),
        exists|perm: Seq<Seq<char>>|
            {
                &&& #[trigger] perm.to_multiset() == roster.deep_view().to_multiset()
                &&& greedy(history@, perm).0 == r.pairs.deep_view()
                &&& greedy(history@, perm).1 == r.solo.deep_view()
                &&& greedy(history@, perm).2 == r.total as int
            },
        exists|perms: Seq<Seq<Seq<char>>>|
            perms.len() == iterations
                && #[trigger] attempts_no_better(history@, perms, roster.deep_view(), r.total as int),
{
    let ghost m = history@;
    let ghost rdv = roster.deep_view();
    let mut rng = fresh_rng();
    let mut pool = clone_names(roster);
    shuffle_names(&mut pool, &mut rng);
    let ghost mut wit: Seq<Seq<char>> = pool.deep_view();
    let ghost mut tried: Seq<Seq<Seq<char>>> = seq![pool.deep_view()];
    let mut best = greedy_pairing(&pool, history);
    let mut it: u64 = 1;
    while it < iterations
        invariant
            1 <= it <= iterations,
            history@ == m,
            rdv == roster.deep_view(),
            wit.to_multiset() == rdv.to_multiset(),
            greedy(m, wit).0 == best.pairs.deep_view(),
            greedy(m, wit).1 == best.solo.deep_view(),
            greedy(m, wit).2 == best.total as int,
            tried.len() == it as int,
            attempts_no_better(m, tried, rdv, best.total as int),
        decreases iterations - it,
    {
        let mut pool2 = clone_names(roster);
        shuffle_names(&mut pool2, &mut rng);
        let cand = greedy_pairing(&pool2, history);
        proof {
            tried = tried.push(pool2.deep_view());
        }
        if cand.total < best.total {
            best = cand;
            proof {
                wit = pool2.deep_view();
            }
        }
        it = it + 1;
    }
    proof {
        broadcast use group_to_multiset_ensures;
        lemma_greedy_props(m, wit);
        assert(wit.to_multiset().len() == rdv.to_multiset().len());
        assert(wit.len() == rdv.len());
        assert(rdv.len() == roster@.len());
        if best.solo is Some {
            assert(best.solo.deep_view() is Some);
        } else {
            assert(best.solo.deep_view() is None);
        }
        assert(tried.len() == iterations as int);
        assert(attempts_no_better(m, tried, rdv, best.total as int));
    }
    best
}

/// Against a history in which every pair scores zero, every sequence of
/// pairs has total score zero.
pub proof fn lemma_zero_history_total(
    m: Map<(Seq<char>, Seq<char>), u64>,
    ps: Seq<(Seq<char>, Seq<char>)>,
)
    requires
        forall|a: Seq<char>, b: Seq<char>| #[trigger] spec_score(m, a, b) == 0,
    ensures
        pairs_total(m, ps) == 0,
    decreases ps.len(),
{
    if ps.len() > 0 {
        lemma_zero_history_total(m, ps.drop_first());
    }
}

} // verus!
