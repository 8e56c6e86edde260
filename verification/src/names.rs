//! Exact comparisons of asset names, as sequences of characters.
//!
//! Names are ordered lexicographically by code point, which is the order the UTF-8
//! byte order of Rust strings induces.

use vstd::prelude::*;

verus! {

/// `a` sorts strictly before `b`, comparing from position `k` on.
pub open spec fn lex_lt_from(a: Seq<char>, b: Seq<char>, k: int) -> bool
    decreases a.len() - k,
{
    if k < 0 || k >= a.len() {
        0 <= k < b.len()
    } else if k >= b.len() {
        false
    } else if a[k] != b[k] {
        (a[k] as int) < (b[k] as int)
    } else {
        lex_lt_from(a, b, k + 1)
    }
}

/// `a` sorts strictly before `b`.
pub open spec fn lex_lt(a: Seq<char>, b: Seq<char>) -> bool {
    lex_lt_from(a, b, 0)
}

proof fn lemma_lex_from_irreflexive(a: Seq<char>, k: int)
    requires
        0 <= k,
    ensures
        !lex_lt_from(a, a, k),
    decreases a.len() - k,
{
    if k < a.len() {
        lemma_lex_from_irreflexive(a, k + 1);
    }
}

proof fn lemma_lex_from_total(a: Seq<char>, b: Seq<char>, k: int)
    requires
        0 <= k,
        a.subrange(k, a.len() as int) != b.subrange(k, b.len() as int),
        k <= a.len(),
        k <= b.len(),
    ensures
        lex_lt_from(a, b, k) || lex_lt_from(b, a, k),
    decreases a.len() - k,
{
    if k < a.len() && k < b.len() && a[k] == b[k] {
        if a.subrange(k + 1, a.len() as int) == b.subrange(k + 1, b.len() as int) {
            assert(a.subrange(k, a.len() as int) =~= seq![a[k]] + a.subrange(k + 1, a.len() as int));
            assert(b.subrange(k, b.len() as int) =~= seq![b[k]] + b.subrange(k + 1, b.len() as int));
        }
        lemma_lex_from_total(a, b, k + 1);
    } else if k < a.len() && k < b.len() {
        assert((a[k] as int) != (b[k] as int));
    } else if k >= a.len() && k >= b.len() {
        assert(a.subrange(k, a.len() as int) =~= Seq::<char>::empty());
        assert(b.subrange(k, b.len() as int) =~= Seq::<char>::empty());
    }
}

proof fn lemma_lex_from_transitive(a: Seq<char>, b: Seq<char>, c: Seq<char>, k: int)
    requires
        0 <= k,
        lex_lt_from(a, b, k),
        lex_lt_from(b, c, k),
    ensures
        lex_lt_from(a, c, k),
    decreases a.len() - k,
{
    if k < a.len() && k < b.len() && k < c.len() && a[k] == b[k] && b[k] == c[k] {
        lemma_lex_from_transitive(a, b, c, k + 1);
    }
}

/// Lexicographic order is a strict total order on names: irreflexive, transitive, and
/// any two different names are ordered one way or the other.
pub proof fn lemma_lex_strict_total(a: Seq<char>, b: Seq<char>, c: Seq<char>)
    ensures
        !lex_lt(a, a),
        lex_lt(a, b) && lex_lt(b, c) ==> lex_lt(a, c),
        a != b ==> lex_lt(a, b) || lex_lt(b, a),
        lex_lt(a, b) ==> !lex_lt(b, a),
        lex_lt(a, b) ==> a != b,
{
    lemma_lex_from_irreflexive(a, 0);
    if lex_lt(a, b) && lex_lt(b, c) {
        lemma_lex_from_transitive(a, b, c, 0);
    }
    if a != b {
        assert(a.subrange(0, a.len() as int) =~= a);
        assert(b.subrange(0, b.len() as int) =~= b);
        lemma_lex_from_total(a, b, 0);
    }
    if lex_lt(a, b) && lex_lt(b, a) {
        lemma_lex_from_transitive(a, b, a, 0);
    }
}

/// Are two names the same?
pub fn same_name(a: &str, b: &str) -> (r: bool)
    ensures
        r == (a@ == b@),
{
    a.to_owned() == b.to_owned()
}

/// Where `a` sorts relative to `b`: negative before, zero equal, positive after.
pub fn name_order(a: &str, b: &str) -> (r: i8)
    ensures
        r < 0 <==> lex_lt(a@, b@),
        r == 0 <==> a@ == b@,
        r > 0 <==> lex_lt(b@, a@),
{
    proof {
        lemma_lex_strict_total(a@, b@, b@);
    }
    let la = a.unicode_len();
    let lb = b.unicode_len();
    let mut k: usize = 0;
    while k < la && k < lb
        invariant
            la == a@.len(),
            lb == b@.len(),
            k <= la,
            k <= lb,
            a@.subrange(0, k as int) == b@.subrange(0, k as int),
            lex_lt(a@, b@) == lex_lt_from(a@, b@, k as int),
            lex_lt(b@, a@) == lex_lt_from(b@, a@, k as int),
        decreases la - k,
    {
        let ca = a.get_char(k);
        let cb = b.get_char(k);
        if (ca as u32) < (cb as u32) {
            return -1;
        }
        if (cb as u32) < (ca as u32) {
            return 1;
        }
        assert(ca == cb);
        assert(a@.subrange(0, k + 1) =~= a@.subrange(0, k as int).push(ca));
        assert(b@.subrange(0, k + 1) =~= b@.subrange(0, k as int).push(cb));
        k += 1;
    }
    if k < lb {
        return -1;
    }
    if k < la {
        return 1;
    }
    assert(a@ =~= a@.subrange(0, k as int));
    assert(b@ =~= b@.subrange(0, k as int));
    0
}

} // verus!
