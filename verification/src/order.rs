//! Byte-lexicographic ordering of byte strings, used to keep path and xattr
//! tables sorted so that iteration over them is deterministic.

use vstd::prelude::*;

verus! {

/// Strict byte-lexicographic order: `a` comes before `b`.
pub open spec fn lex_lt(a: Seq<u8>, b: Seq<u8>) -> bool
    decreases a.len(),
{
    if b.len() == 0 {
        false
    } else if a.len() == 0 {
        true
    } else if a[0] < b[0] {
        true
    } else if a[0] > b[0] {
        false
    } else {
        lex_lt(a.drop_first(), b.drop_first())
    }
}

/// Exactly one of `a` before `b`, `b` before `a`, or `a == b` holds.
pub proof fn lemma_lex_trichotomy(a: Seq<u8>, b: Seq<u8>)
    ensures
        lex_lt(a, b) || lex_lt(b, a) || a == b,
        lex_lt(a, b) ==> !lex_lt(b, a) && a != b,
        lex_lt(b, a) ==> !lex_lt(a, b) && a != b,
    decreases a.len(),
{
    if b.len() == 0 || a.len() == 0 {
        if a.len() == b.len() {
            assert(a =~= b);
        }
    } else if a[0] == b[0] {
        lemma_lex_trichotomy(a.drop_first(), b.drop_first());
        if a.drop_first() == b.drop_first() {
            assert forall|j: int| 0 <= j < a.len() implies a[j] == b[j] by {
                if j > 0 {
                    assert(a.drop_first()[j - 1] == a[j]);
                    assert(b.drop_first()[j - 1] == b[j]);
                }
            }
            assert(a =~= b);
        }
    }
}

/// Strict lexicographic order is transitive.
pub proof fn lemma_lex_transitive(a: Seq<u8>, b: Seq<u8>, c: Seq<u8>)
    requires
        lex_lt(a, b),
        lex_lt(b, c),
    ensures
        lex_lt(a, c),
    decreases a.len(),
{
    if a.len() == 0 {
    } else if b.len() == 0 {
    } else if c.len() == 0 {
    } else {
        if a[0] == b[0] && b[0] == c[0] {
            lemma_lex_transitive(a.drop_first(), b.drop_first(), c.drop_first());
        }
    }
}

/// How two byte strings compare.
#[derive(PartialEq, Eq, Structural, Clone, Copy, Debug)]
pub enum Rel {
    Before,
    Same,
    After,
}

/// Compare two byte strings in byte-lexicographic order.
pub fn bytes_cmp(a: &[u8], b: &[u8]) -> (r: Rel)
    ensures
        r == Rel::Before <==> lex_lt(a@, b@),
        r == Rel::After <==> lex_lt(b@, a@),
        r == Rel::Same <==> a@ == b@,
{
    proof {
        lemma_lex_trichotomy(a@, b@);
        assert(a@.skip(0) =~= a@);
        assert(b@.skip(0) =~= b@);
        assert(a@.subrange(0, 0) =~= b@.subrange(0, 0));
    }
    let mut i: usize = 0;
    loop
        invariant
            i <= a@.len(),
            i <= b@.len(),
            a@.subrange(0, i as int) == b@.subrange(0, i as int),
            lex_lt(a@, b@) == lex_lt(a@.skip(i as int), b@.skip(i as int)),
            lex_lt(b@, a@) == lex_lt(b@.skip(i as int), a@.skip(i as int)),
            (a@ == b@) == (a@.skip(i as int) == b@.skip(i as int)),
        decreases a@.len() - i,
    {
        proof {
            lemma_lex_trichotomy(a@.skip(i as int), b@.skip(i as int));
        }
        if i == a.len() {
            if i == b.len() {
                assert(a@.skip(i as int) =~= b@.skip(i as int));
                return Rel::Same;
            }
            return Rel::Before;
        }
        if i == b.len() {
            return Rel::After;
        }
        let x = a[i];
        let y = b[i];
        if x < y {
            return Rel::Before;
        }
        if x > y {
            return Rel::After;
        }
        proof {
            assert(a@.skip(i as int).drop_first() =~= a@.skip(i + 1));
            assert(b@.skip(i as int).drop_first() =~= b@.skip(i + 1));
            assert(a@.subrange(0, i + 1) =~= a@.subrange(0, i as int).push(a@[i as int]));
            assert(b@.subrange(0, i + 1) =~= b@.subrange(0, i as int).push(b@[i as int]));
            if a@.skip(i + 1) == b@.skip(i + 1) {
                assert(a@ =~= b@) by {
                    assert(forall|j: int| 0 <= j < a@.len() ==> a@[j] == #[trigger] b@[j]) by {
                        assert(forall|j: int| 0 <= j <= i ==> a@[j] == #[trigger] b@[j]) by {
                            assert(forall|j: int|
                                0 <= j <= i ==> a@.subrange(0, i + 1)[j] == a@[j]
                                    && b@.subrange(0, i + 1)[j] == #[trigger] b@[j]);
                        }
                        assert(forall|j: int| i < j < a@.len() ==> a@[j] == #[trigger] b@[j]) by {
                            assert(forall|j: int|
                                i < j < a@.len() ==> a@.skip(i + 1)[j - i - 1] == a@[j]
                                    && b@.skip(i + 1)[j - i - 1] == #[trigger] b@[j]);
                        }
                    }
                }
            }
        }
        i = i + 1;
    }
}

/// `prefix` is a strict prefix of `s`.
pub open spec fn is_strict_prefix(prefix: Seq<u8>, s: Seq<u8>) -> bool {
    prefix.len() < s.len() && s.subrange(0, prefix.len() as int) == prefix
}

/// Whether `s` starts with `prefix`.
pub fn starts_with(s: &[u8], prefix: &[u8]) -> (r: bool)
    ensures
        r == (prefix@.len() <= s@.len() && s@.subrange(0, prefix@.len() as int) == prefix@),
{
    if prefix.len() > s.len() {
        return false;
    }
    let mut i: usize = 0;
    while i < prefix.len()
        invariant
            i <= prefix@.len() <= s@.len(),
            s@.subrange(0, i as int) == prefix@.subrange(0, i as int),
        decreases prefix@.len() - i,
    {
        if s[i] != prefix[i] {
            proof {
                assert(s@.subrange(0, prefix@.len() as int)[i as int] == s@[i as int]);
            }
            return false;
        }
        proof {
            assert(s@.subrange(0, i + 1) =~= s@.subrange(0, i as int).push(s@[i as int]));
            assert(prefix@.subrange(0, i + 1) =~= prefix@.subrange(0, i as int).push(
                prefix@[i as int],
            ));
        }
        i = i + 1;
    }
    proof {
        assert(prefix@.subrange(0, i as int) =~= prefix@);
    }
    true
}

} // verus!
