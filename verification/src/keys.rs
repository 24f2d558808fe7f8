//! Lexicographic order on byte-string keys.
//!
//! Keys are arbitrary byte sequences compared lexicographically; an empty key
//! inside an iterator is the "invalid" sentinel, so entries always carry
//! non-empty keys.

use vstd::prelude::*;

verus! {

/// Strict lexicographic order on byte sequences: `a` comes before `b`.
pub open spec fn lex_lt(a: Seq<u8>, b: Seq<u8>) -> bool
    decreases a.len(),
{
    if b.len() == 0 {
        false
    } else if a.len() == 0 {
        true
    } else if a[0] < b[0] {
        true
    } else if a[0] > b[0] {
        false
    } else {
        lex_lt(a.skip(1), b.skip(1))
    }
}

/// Non-strict lexicographic order.
pub open spec fn lex_le(a: Seq<u8>, b: Seq<u8>) -> bool {
    lex_lt(a, b) || a == b
}

/// Exactly one of `lex_lt(a, b)`, `a == b`, `lex_lt(b, a)` holds.
pub proof fn lemma_lex_total(a: Seq<u8>, b: Seq<u8>)
    ensures
        lex_lt(a, b) || a == b || lex_lt(b, a),
        lex_lt(a, b) ==> a != b && !lex_lt(b, a),
        a == b ==> !lex_lt(a, b) && !lex_lt(b, a),
    decreases a.len(),
{
    if a.len() == 0 || b.len() == 0 {
        if a.len() == 0 && b.len() == 0 {
            assert(a =~= b);
        }
    } else if a[0] == b[0] {
        lemma_lex_total(a.skip(1), b.skip(1));
        if a.skip(1) == b.skip(1) {
            assert forall|j: int| 0 <= j < a.len() implies a[j] == b[j] by {
                if j > 0 {
                    assert(a[j] == a.skip(1)[j - 1]);
                    assert(b[j] == b.skip(1)[j - 1]);
                }
            }
            assert(a =~= b);
        }
        if a == b {
            assert(a.skip(1) =~= b.skip(1));
        }
    } else {
        assert(a != b) by {
            if a == b {
                assert(a[0] == b[0]);
            }
        }
    }
}

/// Strict lexicographic order is transitive.
pub proof fn lemma_lex_lt_trans(a: Seq<u8>, b: Seq<u8>, c: Seq<u8>)
    requires
        lex_lt(a, b),
        lex_lt(b, c),
    ensures
        lex_lt(a, c),
    decreases a.len(),
{
    if a.len() == 0 {
        assert(c.len() > 0);
    } else {
        // lex_lt(a, b) with a nonempty forces b nonempty.
        if a[0] == b[0] && b[0] == c[0] {
            lemma_lex_lt_trans(a.skip(1), b.skip(1), c.skip(1));
        }
    }
}

/// Mixed transitivity: `a <= b < c` gives `a < c`.
pub proof fn lemma_lex_le_lt_trans(a: Seq<u8>, b: Seq<u8>, c: Seq<u8>)
    requires
        lex_le(a, b),
        lex_lt(b, c),
    ensures
        lex_lt(a, c),
{
    if lex_lt(a, b) {
        lemma_lex_lt_trans(a, b, c);
    }
}

/// Mixed transitivity: `a < b <= c` gives `a < c`.
pub proof fn lemma_lex_lt_le_trans(a: Seq<u8>, b: Seq<u8>, c: Seq<u8>)
    requires
        lex_lt(a, b),
        lex_le(b, c),
    ensures
        lex_lt(a, c),
{
    if lex_lt(b, c) {
        lemma_lex_lt_trans(a, b, c);
    }
}

/// Three-way comparison result for byte keys.
#[derive(Clone, Copy, PartialEq, Eq, Structural, Debug)]
pub enum KeyOrdering {
    Less,
    Equal,
    Greater,
}

/// Compares two byte strings in lexicographic order.
pub fn compare_keys(a: &[u8], b: &[u8]) -> (r: KeyOrdering)
    ensures
        r == KeyOrdering::Less <==> lex_lt(a@, b@),
        r == KeyOrdering::Equal <==> a@ == b@,
        r == KeyOrdering::Greater <==> lex_lt(b@, a@),
{
    proof {
        lemma_lex_total(a@, b@);
    }
    let a_len: usize = a.len();
    let b_len: usize = b.len();
    let common: usize = if a_len < b_len {
        a_len
    } else {
        b_len
    };
    let mut i: usize = 0;
    proof {
        assert(a@.skip(0) =~= a@);
        assert(b@.skip(0) =~= b@);
    }
    while i < common
        invariant
            0 <= i <= common,
            common == if a_len < b_len { a_len as int } else { b_len as int },
            a_len == a@.len(),
            b_len == b@.len(),
            forall|j: int| 0 <= j < i ==> a@[j] == b@[j],
            lex_lt(a@, b@) == lex_lt(a@.skip(i as int), b@.skip(i as int)),
            lex_lt(b@, a@) == lex_lt(b@.skip(i as int), a@.skip(i as int)),
            (a@ == b@) == (a@.skip(i as int) == b@.skip(i as int)),
        decreases common - i,
    {
        let x = a[i];
        let y = b[i];
        proof {
            assert(a@.skip(i as int)[0] == a@[i as int]);
            assert(b@.skip(i as int)[0] == b@[i as int]);
            assert(a@.skip(i as int).skip(1) =~= a@.skip(i as int + 1));
            assert(b@.skip(i as int).skip(1) =~= b@.skip(i as int + 1));
            if x == y {
                assert((a@.skip(i as int) == b@.skip(i as int)) == (a@.skip(i as int + 1)
                    == b@.skip(i as int + 1))) by {
                    if a@.skip(i as int) == b@.skip(i as int) {
                        assert(a@.skip(i as int + 1) =~= b@.skip(i as int + 1));
                    }
                    if a@.skip(i as int + 1) == b@.skip(i as int + 1) {
                        assert forall|j: int| 0 <= j < a@.skip(i as int).len() implies a@.skip(
                            i as int,
                        )[j] == b@.skip(i as int)[j] by {
                            if j > 0 {
                                assert(a@.skip(i as int)[j] == a@.skip(i as int + 1)[j - 1]);
                                assert(b@.skip(i as int)[j] == b@.skip(i as int + 1)[j - 1]);
                            }
                        }
                        assert(a@.skip(i as int) =~= b@.skip(i as int));
                    }
                }
            }
        }
        if x < y {
            return KeyOrdering::Less;
        }
        if x > y {
            return KeyOrdering::Greater;
        }
        i = i + 1;
    }
    proof {
        assert(a@.skip(common as int).len() == a@.len() - common);
        assert(b@.skip(common as int).len() == b@.len() - common);
        if a_len == b_len {
            assert(a@.skip(common as int) =~= b@.skip(common as int));
        } else {
            assert(a@.skip(common as int) != b@.skip(common as int)) by {
                assert(a@.skip(common as int).len() != b@.skip(common as int).len());
            }
        }
    }
    if a_len < b_len {
        KeyOrdering::Less
    } else if a_len > b_len {
        KeyOrdering::Greater
    } else {
        KeyOrdering::Equal
    }
}

} // verus!
