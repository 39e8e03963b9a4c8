use vstd::prelude::*;

verus! {

/// Strict lexicographic (byte-wise) order on staker keys. This is the order
/// in which staker records are persisted and listed.
pub open spec fn lex_lt(a: Seq<u8>, b: Seq<u8>) -> bool
    decreases a.len(),
{
    if b.len() == 0 {
        false
    } else if a.len() == 0 {
        true
    } else if a[0] != b[0] {
        a[0] < b[0]
    } else {
        lex_lt(a.skip(1), b.skip(1))
    }
}

/// Outcome of comparing two byte keys.
#[derive(Clone, Copy, Debug, PartialEq, Eq, Structural)]
pub enum KeyOrd {
    Less,
    Equal,
    Greater,
}

/// The lexicographic order is total and strict: two keys compare in exactly
/// one of the three ways.
pub proof fn lemma_lex_total(a: Seq<u8>, b: Seq<u8>)
    ensures
        lex_lt(a, b) || lex_lt(b, a) || a == b,
        lex_lt(a, b) ==> !lex_lt(b, a) && a != b,
    decreases a.len(),
{
    if b.len() == 0 {
        if a.len() == 0 {
            assert(a =~= b);
        }
    } else if a.len() == 0 {
    } else if a[0] != b[0] {
    } else {
        lemma_lex_total(a.skip(1), b.skip(1));
        if a.skip(1) == b.skip(1) {
            assert forall|j: int| 0 <= j < a.len() implies a[j] == b[j] by {
                if j > 0 {
                    assert(a.skip(1)[j - 1] == b.skip(1)[j - 1]);
                }
            }
            assert(a =~= b);
        }
        if a == b {
            assert(a.skip(1) =~= b.skip(1));
        }
    }
}

/// The lexicographic order is transitive.
pub proof fn lemma_lex_trans(a: Seq<u8>, b: Seq<u8>, c: Seq<u8>)
    requires
        lex_lt(a, b),
        lex_lt(b, c),
    ensures
        lex_lt(a, c),
    decreases a.len(),
{
    if c.len() == 0 {
    } else if b.len() == 0 {
    } else if a.len() == 0 {
    } else if a[0] == b[0] && b[0] == c[0] {
        lemma_lex_trans(a.skip(1), b.skip(1), c.skip(1));
    }
}

/// Compares the suffixes of two keys starting at position `i`.
fn key_cmp_from(a: &Vec<u8>, b: &Vec<u8>, i: usize) -> (o: KeyOrd)
    requires
        i <= a@.len(),
        i <= b@.len(),
    ensures
        (o == KeyOrd::Less) == lex_lt(a@.skip(i as int), b@.skip(i as int)),
        (o == KeyOrd::Equal) == (a@.skip(i as int) == b@.skip(i as int)),
        (o == KeyOrd::Greater) == lex_lt(b@.skip(i as int), a@.skip(i as int)),
    decreases a@.len() - i,
{
    proof {
        lemma_lex_total(a@.skip(i as int), b@.skip(i as int));
    }
    if i == a.len() && i == b.len() {
        assert(a@.skip(i as int) =~= b@.skip(i as int));
        KeyOrd::Equal
    } else if i == a.len() {
        KeyOrd::Less
    } else if i == b.len() {
        KeyOrd::Greater
    } else if a[i] < b[i] {
        KeyOrd::Less
    } else if a[i] > b[i] {
        KeyOrd::Greater
    } else {
        let o = key_cmp_from(a, b, i + 1);
        proof {
            assert(a@.skip(i as int).skip(1) =~= a@.skip(i + 1 as int));
            assert(b@.skip(i as int).skip(1) =~= b@.skip(i + 1 as int));
            if a@.skip(i + 1 as int) == b@.skip(i + 1 as int) {
                assert(a@.skip(i as int) =~= b@.skip(i as int));
            }
            if a@.skip(i as int) == b@.skip(i as int) {
                assert(a@.skip(i + 1 as int) =~= b@.skip(i + 1 as int));
            }
        }
        o
    }
}

/// Compares two byte keys in the lexicographic order.
pub fn key_cmp(a: &Vec<u8>, b: &Vec<u8>) -> (o: KeyOrd)
    ensures
        (o == KeyOrd::Less) == lex_lt(a@, b@),
        (o == KeyOrd::Equal) == (a@ == b@),
        (o == KeyOrd::Greater) == lex_lt(b@, a@),
{
    let o = key_cmp_from(a, b, 0);
    proof {
        assert(a@.skip(0) =~= a@);
        assert(b@.skip(0) =~= b@);
    }
    o
}

} // verus!
