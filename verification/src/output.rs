//! Plain-value views of a pairing result for its two consumers: the
//! store of past pairings, which receives each real pair under its
//! canonical key, and the display, which shows the solo participant
//! merged into the last pair as a trio and renders the full pairwise
//! encounter matrix.

use vstd::prelude::*;
use crate::keys::{canon_key, normalize_pair};
use crate::history::{PairHistory, spec_score, pair_score};

verus! {

/// The groups a pairing result displays as: each pair is a group of two,
/// and a solo participant joins the last pair to form a trio. With no
/// pairs at all, nothing is displayed.
pub open spec fn display_of(
    pairs: Seq<(Seq<char>, Seq<char>)>,
    solo: Option<Seq<char>>,
) -> Seq<Seq<Seq<char>>> {
    let base = Seq::new(pairs.len(), |i: int| seq![pairs[i].0, pairs[i].1]);
    match solo {
        Some(s) => if pairs.len() > 0 {
            base.update(pairs.len() - 1, base.last().push(s))
        } else {
            base
        },
        None => base,
    }
}

/// The pairs of a result in the canonical form under which they are
/// persisted: smaller name first. The solo participant is not a pair and
/// is not persisted.
pub fn normalized_pairs(pairs: &Vec<(String, String)>) -> (r: Vec<(String, String)>)
    ensures
        r.deep_view().len() == pairs.deep_view().len(),
        forall|i: int|
            0 <= i < pairs.deep_view().len()
                ==> #[trigger] r.deep_view()[i]
                == canon_key(pairs.deep_view()[i].0, pairs.deep_view()[i].1),
{
    let n = pairs.len();
    let mut r: Vec<(String, String)> = Vec::new();
    let mut i: usize = 0;
    while i < n
        invariant
            i <= n,
            n == pairs@.len(),
            r@.len() == i,
            forall|l: int|
                0 <= l < i
                    ==> #[trigger] r.deep_view()[l]
                    == canon_key(pairs.deep_view()[l].0, pairs.deep_view()[l].1),
        decreases n - i,
    {
        let p = normalize_pair(pairs[i].0.as_str(), pairs[i].1.as_str());
        let ghost r0: Seq<(String, String)> = r@;
        let ghost r0dv: Seq<(Seq<char>, Seq<char>)> = r.deep_view();
        r.push(p);
        proof {
            assert forall|l: int| 0 <= l < i implies #[trigger] r.deep_view()[l] == r0dv[l] by {
                assert(r@[l] == r0[l]);
            }
            assert(r.deep_view()[i as int] == r@[i as int].deep_view());
            assert(r@[i as int].deep_view() == (p.0@, p.1@));
            assert(pairs.deep_view()[i as int] == (pairs@[i as int].0@, pairs@[i as int].1@));
        }
        i = i + 1;
    }
    r
}

/// The groups to display for a result: one group of two per pair, with
/// the solo participant, if any, appended to the last group as a trio.
pub fn display_groups(pairs: &Vec<(String, String)>, solo: &Option<String>) -> (g: Vec<
    Vec<String>,
>)
    ensures
        g.deep_view() == display_of(pairs.deep_view(), solo.deep_view()),
{
    let n = pairs.len();
    let mut g: Vec<Vec<String>> = Vec::new();
    let mut i: usize = 0;
    while i < n
        invariant
            i <= n,
            n == pairs@.len(),
            g@.len() == i,
            forall|l: int|
                0 <= l < i
                    ==> #[trigger] g.deep_view()[l]
                    == seq![pairs.deep_view()[l].0, pairs.deep_view()[l].1],
        decreases n - i,
    {
        let mut grp: Vec<String> = Vec::new();
        grp.push(pairs[i].0.clone());
        grp.push(pairs[i].1.clone());
        proof {
            assert(grp@[0]@ == pairs.deep_view()[i as int].0);
            assert(grp@[1]@ == pairs.deep_view()[i as int].1);
            assert(grp.deep_view() =~= seq![pairs.deep_view()[i as int].0, pairs.deep_view()[i as int].1]);
        }
        let ghost g0: Seq<Vec<String>> = g@;
        let ghost g0dv: Seq<Seq<Seq<char>>> = g.deep_view();
        g.push(grp);
        proof {
            assert forall|l: int| 0 <= l < i implies #[trigger] g.deep_view()[l] == g0dv[l] by {
                assert(g@[l] == g0[l]);
            }
            assert(g.deep_view()[i as int] == g@[i as int].deep_view());
        }
        i = i + 1;
    }
    let ghost base: Seq<Seq<Seq<char>>> = Seq::new(
        pairs.deep_view().len(),
        |l: int| seq![pairs.deep_view()[l].0, pairs.deep_view()[l].1],
    );
    proof {
        assert(g.deep_view() =~= base);
    }
    if n > 0 {
        if let Some(s) = solo {
            let ghost gf: Seq<Vec<String>> = g@;
            let last = g.pop();
            match last {
                Some(mut grp) => {
                    proof {
                        assert(grp == gf[n - 1]);
                        assert(grp.deep_view() == base[n - 1]);
                    }
                    grp.push(s.clone());
                    proof {
                        assert(grp.deep_view() =~= base[n - 1].push(s@));
                    }
                    let ghost g1: Seq<Vec<String>> = g@;
                    g.push(grp);
                    proof {
                        assert forall|l: int| 0 <= l < n - 1 implies #[trigger] g.deep_view()[l]
                            == base[l] by {
                            assert(g@[l] == g1[l]);
                            assert(g1[l] == gf[l]);
                            assert(base[l] == gf[l].deep_view());
                        }
                        assert(g.deep_view()[n - 1] == g@[n - 1].deep_view());
                        assert(g.deep_view() =~= base.update(n - 1, base.last().push(s@)));
                    }
                },
                None => {
                },
            }
        }
    }
    proof {
        assert(g.deep_view() =~= display_of(pairs.deep_view(), solo.deep_view()));
    }
    g
}

/// The full pairwise encounter matrix for a roster: cell `(i, j)` is the
/// historical score of roster members `i` and `j`. The diagonal holds
/// each member's score with itself; the display leaves it blank.
pub fn score_matrix(roster: &Vec<String>, history: &PairHistory) -> (mx: Vec<Vec<u64>>)
    ensures
        mx.deep_view().len() == roster@.len(),
        forall|i: int|
            0 <= i < roster@.len() ==> (#[trigger] mx.deep_view()[i]).len() == roster@.len(),
        forall|i: int, j: int|
            0 <= i < roster@.len() && 0 <= j < roster@.len()
                ==> #[trigger] mx.deep_view()[i][j] as int
                == spec_score(history@, roster.deep_view()[i], roster.deep_view()[j]),
{
    let n = roster.len();
    let mut mx: Vec<Vec<u64>> = Vec::new();
    let mut i: usize = 0;
    while i < n
        invariant
            i <= n,
            n == roster@.len(),
            mx@.len() == i,
            forall|l: int| 0 <= l < i ==> (#[trigger] mx.deep_view()[l]).len() == n as int,
            forall|l: int, j: int|
                0 <= l < i && 0 <= j < n
                    ==> #[trigger] mx.deep_view()[l][j] as int
                    == spec_score(history@, roster.deep_view()[l], roster.deep_view()[j]),
        decreases n - i,
    {
        let mut row: Vec<u64> = Vec::new();
        let mut j: usize = 0;
        while j < n
            invariant
                j <= n,
                i < n,
                n == roster@.len(),
                row@.len() == j,
                forall|l: int|
                    0 <= l < j
                        ==> #[trigger] row@[l] as int
                        == spec_score(history@, roster.deep_view()[i as int], roster.deep_view()[l]),
            decreases n - j,
        {
            row.push(pair_score(history, roster[i].as_str(), roster[j].as_str()));
            j = j + 1;
        }
        let ghost m0: Seq<Vec<u64>> = mx@;
        let ghost m0dv: Seq<Seq<u64>> = mx.deep_view();
        mx.push(row);
        proof {
            assert forall|l: int| 0 <= l < i implies #[trigger] mx.deep_view()[l] == m0dv[l] by {
                assert(mx@[l] == m0[l]);
            }
            assert(mx.deep_view()[i as int] == mx@[i as int].deep_view());
            assert(mx.deep_view()[i as int] =~= row@);
        }
        i = i + 1;
    }
    mx
}

} // verus!
