//! Canonical keys for unordered pairs of participant names.
//!
//! A pair of names is canonicalized by placing the lexicographically
//! smaller name first, so that `(a, b)` and `(b, a)` map to one key.

use vstd::prelude::*;
use vstd::string::*;

verus! {

/// Lexicographic order on character sequences: `a` comes before `b`
/// (or equals it) under ordinary string comparison. Code points are
/// compared, which orders strings the same way as comparing their
/// UTF-8 encoded bytes.
pub open spec fn lex_leq(a: Seq<char>, b: Seq<char>) -> bool
    decreases a.len(),
{
    if a.len() == 0 {
        true
    } else if b.len() == 0 {
        false
    } else if a[0] == b[0] {
        lex_leq(a.drop_first(), b.drop_first())
    } else {
        (a[0] as int) < (b[0] as int)
    }
}

/// The canonical form of the unordered pair `{a, b}`: the
/// lexicographically smaller name first.
pub open spec fn canon_key(a: Seq<char>, b: Seq<char>) -> (Seq<char>, Seq<char>) {
    if lex_leq(a, b) {
        (a, b)
    } else {
        (b, a)
    }
}

/// Lexicographic order is total: of any two names, one comes first.
pub proof fn lemma_lex_leq_total(a: Seq<char>, b: Seq<char>)
    ensures
        lex_leq(a, b) || lex_leq(b, a),
    decreases a.len(),
{
    if a.len() == 0 || b.len() == 0 {
    } else if a[0] == b[0] {
        lemma_lex_leq_total(a.drop_first(), b.drop_first());
    }
}

/// Lexicographic order is antisymmetric: names ordered both ways are equal.
pub proof fn lemma_lex_leq_antisym(a: Seq<char>, b: Seq<char>)
    requires
        lex_leq(a, b),
        lex_leq(b, a),
    ensures
        a == b,
    decreases a.len(),
{
    if a.len() == 0 {
        assert(b.len() == 0);
        assert(a =~= b);
    } else {
        assert(b.len() > 0);
        assert(a[0] == b[0]);
        lemma_lex_leq_antisym(a.drop_first(), b.drop_first());
        assert forall|i: int| 0 <= i < a.len() implies a[i] == b[i] by {
            if i > 0 {
                assert(a[i] == a.drop_first()[i - 1]);
                assert(b[i] == b.drop_first()[i - 1]);
            }
        }
        assert(a =~= b);
    }
}

/// Canonicalization is symmetric: the key does not depend on the order
/// in which the two names are given.
pub proof fn lemma_canon_key_symmetric(a: Seq<char>, b: Seq<char>)
    ensures
        canon_key(a, b) == canon_key(b, a),
{
    lemma_lex_leq_total(a, b);
    if lex_leq(a, b) && lex_leq(b, a) {
        lemma_lex_leq_antisym(a, b);
    }
}

/// A canonical key is in order: its smaller name stands first.
pub proof fn lemma_canon_key_sorted(a: Seq<char>, b: Seq<char>)
    ensures
        lex_leq(canon_key(a, b).0, canon_key(a, b).1),
{
    lemma_lex_leq_total(a, b);
}

/// Decides `lex_leq` on two strings, one character at a time.
pub fn str_lex_leq(a: &str, b: &str) -> (r: bool)
    ensures
        r == lex_leq(a@, b@),
{
    let a_len = a.unicode_len();
    let b_len = b.unicode_len();
    let mut i: usize = 0;
    proof {
        assert(a@.skip(0) =~= a@);
        assert(b@.skip(0) =~= b@);
    }
    loop
        invariant
            i <= a_len,
            i <= b_len,
            a_len == a@.len(),
            b_len == b@.len(),
            forall|j: int| 0 <= j < i ==> a@[j] == b@[j],
            lex_leq(a@, b@) == lex_leq(a@.skip(i as int), b@.skip(i as int)),
        decreases a_len - i,
    {
        if i == a_len {
            return true;
        }
        if i == b_len {
            return false;
        }
        let ca = a.get_char(i);
        let cb = b.get_char(i);
        if ca != cb {
            proof {
                assert(a@.skip(i as int)[0] == ca);
                assert(b@.skip(i as int)[0] == cb);
            }
            return (ca as u32) < (cb as u32);
        }
        proof {
            lemma_lex_leq_skip_one(a@.skip(i as int), b@.skip(i as int));
            assert(a@.skip(i as int).drop_first() =~= a@.skip(i + 1));
            assert(b@.skip(i as int).drop_first() =~= b@.skip(i + 1));
        }
        i = i + 1;
    }
}

/// Unfolds one step of `lex_leq` on two sequences with equal heads.
proof fn lemma_lex_leq_skip_one(a: Seq<char>, b: Seq<char>)
    requires
        a.len() > 0,
        b.len() > 0,
        a[0] == b[0],
    ensures
        lex_leq(a, b) == lex_leq(a.drop_first(), b.drop_first()),
{
}

/// Returns the canonical form of the unordered pair `{a, b}`: the
/// lexicographically smaller name first, so that both orders of the
/// arguments yield the same key.
pub fn normalize_pair(a: &str, b: &str) -> (r: (String, String))
    ensures
        (r.0@, r.1@) == canon_key(a@, b@),
{
    if str_lex_leq(a, b) {
        (String::from_str(a), String::from_str(b))
    } else {
        (String::from_str(b), String::from_str(a))
    }
}

} // verus!
