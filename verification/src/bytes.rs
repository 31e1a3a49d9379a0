//! Byte-level helpers: scanning for a byte, lexicographic comparison, and
//! copying a range of a slice into an owned vector.

use vstd::prelude::*;

verus! {

pub const NL: u8 = 10;

pub const COMMA: u8 = 44;

pub const COLON: u8 = 58;

pub const SLASH: u8 = 47;

pub const BACKSLASH: u8 = 92;

pub const QUOTE: u8 = 34;

pub const SPACE: u8 = 32;

pub const LBRACE: u8 = 123;

pub const RBRACE: u8 = 125;

/// Index of the first occurrence of `b` in `s`, or `s.len()` if `b` is absent.
pub open spec fn find_byte(s: Seq<u8>, b: u8) -> int
    decreases s.len(),
{
    if s.len() == 0 {
        0
    } else if s[0] == b {
        0
    } else {
        1 + find_byte(s.skip(1), b)
    }
}

pub proof fn lemma_find_byte_bounds(s: Seq<u8>, b: u8)
    ensures
        0 <= find_byte(s, b) <= s.len(),
        find_byte(s, b) < s.len() ==> s[find_byte(s, b)] == b,
        forall|i: int| 0 <= i < find_byte(s, b) ==> s[i] != b,
    decreases s.len(),
{
    if s.len() == 0 {
    } else if s[0] == b {
    } else {
        lemma_find_byte_bounds(s.skip(1), b);
        assert forall|i: int| 0 <= i < find_byte(s, b) implies s[i] != b by {
            if i > 0 {
                assert(s.skip(1)[i - 1] == s[i]);
            }
        }
    }
}

/// `find_byte` is pinned down by its characteristic properties.
pub proof fn lemma_find_byte_is(s: Seq<u8>, b: u8, k: int)
    requires
        0 <= k <= s.len(),
        forall|i: int| 0 <= i < k ==> s[i] != b,
        k < s.len() ==> s[k] == b,
    ensures
        find_byte(s, b) == k,
    decreases s.len(),
{
    if s.len() == 0 {
    } else if s[0] == b {
        assert(k == 0);
    } else {
        assert(k >= 1);
        assert forall|i: int| 0 <= i < k - 1 implies s.skip(1)[i] != b by {
            assert(s.skip(1)[i] == s[i + 1]);
        }
        assert(k - 1 < s.skip(1).len() ==> s.skip(1)[k - 1] == b);
        lemma_find_byte_is(s.skip(1), b, k - 1);
    }
}

/// First position of `b` in `s` at or after `from`, or `s.len()` if absent.
pub fn find_byte_from(s: &[u8], from: usize, b: u8) -> (r: usize)
    requires
        from <= s@.len(),
    ensures
        from <= r <= s@.len(),
        r - from == find_byte(s@.skip(from as int), b),
        r < s@.len() ==> s@[r as int] == b,
        forall|i: int| from <= i < r ==> s@[i] != b,
{
    let mut i = from;
    while i < s.len()
        invariant
            from <= i <= s@.len(),
            forall|j: int| from <= j < i ==> s@[j] != b,
        decreases s@.len() - i,
    {
        if s[i] == b {
            proof {
                assert forall|j: int| 0 <= j < i - from implies s@.skip(from as int)[j] != b by {
                    assert(s@.skip(from as int)[j] == s@[from + j]);
                }
                assert(s@.skip(from as int)[i - from] == b);
                lemma_find_byte_is(s@.skip(from as int), b, i - from);
            }
            return i;
        }
        i += 1;
    }
    proof {
        assert forall|j: int| 0 <= j < i - from implies s@.skip(from as int)[j] != b by {
            assert(s@.skip(from as int)[j] == s@[from + j]);
        }
        lemma_find_byte_is(s@.skip(from as int), b, i - from);
    }
    i
}

/// Index of the last occurrence of `b` in `s`, or `-1` if `b` is absent.
pub open spec fn rfind_byte_spec(s: Seq<u8>, b: u8) -> int
    decreases s.len(),
{
    if s.len() == 0 {
        -1
    } else if s[s.len() - 1] == b {
        s.len() - 1
    } else {
        rfind_byte_spec(s.take(s.len() - 1), b)
    }
}

/// `rfind_byte_spec` is pinned down by its characteristic properties.
pub proof fn lemma_rfind_byte_is(s: Seq<u8>, b: u8, k: int)
    requires
        -1 <= k < s.len(),
        k >= 0 ==> s[k] == b,
        forall|j: int| k < j < s.len() ==> s[j] != b,
    ensures
        rfind_byte_spec(s, b) == k,
    decreases s.len(),
{
    if s.len() == 0 {
    } else if s[s.len() - 1] == b {
        assert(k == s.len() - 1);
    } else {
        assert(k < s.len() - 1);
        assert forall|j: int| k < j < s.len() - 1 implies #[trigger] s.take(s.len() - 1)[j] != b by {
            assert(s.take(s.len() - 1)[j] == s[j]);
        }
        lemma_rfind_byte_is(s.take(s.len() - 1), b, k);
    }
}

/// Position of the last occurrence of `b` in `s`, if any.
pub fn rfind_byte(s: &[u8], b: u8) -> (r: Option<usize>)
    ensures
        match r {
            Some(i) => i < s@.len() && i as int == rfind_byte_spec(s@, b),
            None => rfind_byte_spec(s@, b) == -1,
        },
{
    let mut i = s.len();
    while i > 0
        invariant
            i <= s@.len(),
            forall|j: int| i <= j < s@.len() ==> s@[j] != b,
        decreases i,
    {
        i -= 1;
        if s[i] == b {
            proof {
                lemma_rfind_byte_is(s@, b, i as int);
            }
            return Some(i);
        }
    }
    proof {
        lemma_rfind_byte_is(s@, b, -1);
    }
    None
}

/// Strict lexicographic order on byte sequences: a proper prefix is smaller,
/// otherwise the first differing byte decides.
pub open spec fn lex_lt(a: Seq<u8>, b: Seq<u8>) -> bool
    decreases a.len(),
{
    if b.len() == 0 {
        false
    } else if a.len() == 0 {
        true
    } else if a[0] < b[0] {
        true
    } else if a[0] > b[0] {
        false
    } else {
        lex_lt(a.skip(1), b.skip(1))
    }
}

/// `lex_lt` is asymmetric, and in particular irreflexive.
pub proof fn lemma_lex_lt_asym(a: Seq<u8>, b: Seq<u8>)
    requires
        lex_lt(a, b),
    ensures
        !lex_lt(b, a),
        a != b,
    decreases a.len(),
{
    if b.len() == 0 {
    } else if a.len() == 0 {
    } else if a[0] < b[0] {
    } else if a[0] > b[0] {
    } else {
        lemma_lex_lt_asym(a.skip(1), b.skip(1));
        assert(a != b) by {
            if a == b {
                assert(a.skip(1) == b.skip(1));
            }
        }
    }
}

/// Two byte sequences are always ordered or equal.
pub proof fn lemma_lex_lt_total(a: Seq<u8>, b: Seq<u8>)
    ensures
        lex_lt(a, b) || lex_lt(b, a) || a == b,
    decreases a.len(),
{
    if b.len() == 0 {
        if a.len() == 0 {
            assert(a =~= b);
        }
    } else if a.len() == 0 {
    } else if a[0] < b[0] {
    } else if a[0] > b[0] {
    } else {
        lemma_lex_lt_total(a.skip(1), b.skip(1));
        if !lex_lt(a, b) && !lex_lt(b, a) {
            assert(a.skip(1) == b.skip(1));
            assert(a =~= b) by {
                assert(forall|i: int|
                    1 <= i < a.len() ==> a[i] == a.skip(1)[i - 1] && b[i] == b.skip(1)[i - 1]);
            }
        }
    }
}

pub proof fn lemma_lex_lt_trans(a: Seq<u8>, b: Seq<u8>, c: Seq<u8>)
    requires
        lex_lt(a, b),
        lex_lt(b, c),
    ensures
        lex_lt(a, c),
    decreases a.len() + b.len() + c.len(),
{
    if c.len() == 0 {
    } else if b.len() == 0 {
    } else if a.len() == 0 {
    } else {
        if a[0] == b[0] && b[0] == c[0] {
            lemma_lex_lt_trans(a.skip(1), b.skip(1), c.skip(1));
        }
    }
}

/// Three-way lexicographic comparison: 0 for less, 1 for equal, 2 for greater.
pub fn lex_cmp(a: &[u8], b: &[u8]) -> (r: u8)
    ensures
        (r == 0) <==> lex_lt(a@, b@),
        (r == 1) <==> (a@ == b@),
        (r == 2) <==> lex_lt(b@, a@),
        r == 0 || r == 1 || r == 2,
{
    let mut i: usize = 0;
    loop
        invariant
            i <= a@.len(),
            i <= b@.len(),
            forall|j: int| 0 <= j < i ==> a@[j] == b@[j],
        decreases a@.len() - i,
    {
        if i < a.len() && i < b.len() {
            if a[i] < b[i] {
                proof {
                    lemma_lex_from_diff(a@, b@, i as int);
                    lemma_lex_lt_asym(a@, b@);
                }
                return 0;
            }
            if a[i] > b[i] {
                proof {
                    lemma_lex_from_diff(b@, a@, i as int);
                    lemma_lex_lt_asym(b@, a@);
                }
                return 2;
            }
            i += 1;
        } else {
            if a.len() == b.len() {
                proof {
                    assert(a@ =~= b@);
                    if lex_lt(a@, b@) {
                        lemma_lex_lt_asym(a@, b@);
                    }
                    if lex_lt(b@, a@) {
                        lemma_lex_lt_asym(b@, a@);
                    }
                }
                return 1;
            } else if a.len() < b.len() {
                proof {
                    lemma_lex_from_prefix(a@, b@);
                    lemma_lex_lt_asym(a@, b@);
                }
                return 0;
            } else {
                proof {
                    lemma_lex_from_prefix(b@, a@);
                    lemma_lex_lt_asym(b@, a@);
                }
                return 2;
            }
        }
    }
}

/// If `a` and `b` agree before `i` and differ at `i`, the byte at `i` decides.
pub proof fn lemma_lex_from_diff(a: Seq<u8>, b: Seq<u8>, i: int)
    requires
        0 <= i < a.len(),
        i < b.len(),
        forall|j: int| 0 <= j < i ==> a[j] == b[j],
        a[i] < b[i],
    ensures
        lex_lt(a, b),
    decreases i,
{
    if i > 0 {
        assert(a[0] == b[0]);
        assert forall|j: int| 0 <= j < i - 1 implies a.skip(1)[j] == b.skip(1)[j] by {
            assert(a.skip(1)[j] == a[j + 1] && b.skip(1)[j] == b[j + 1]);
        }
        assert(a.skip(1)[i - 1] == a[i] && b.skip(1)[i - 1] == b[i]);
        lemma_lex_from_diff(a.skip(1), b.skip(1), i - 1);
    }
}

/// A proper prefix is lexicographically smaller.
pub proof fn lemma_lex_from_prefix(a: Seq<u8>, b: Seq<u8>)
    requires
        a.len() < b.len(),
        forall|j: int| 0 <= j < a.len() ==> a[j] == b[j],
    ensures
        lex_lt(a, b),
    decreases a.len(),
{
    if a.len() > 0 {
        assert forall|j: int| 0 <= j < a.len() - 1 implies a.skip(1)[j] == b.skip(1)[j] by {
            assert(a.skip(1)[j] == a[j + 1] && b.skip(1)[j] == b[j + 1]);
        }
        lemma_lex_from_prefix(a.skip(1), b.skip(1));
    }
}

/// Owned copy of `s[from..to]`.
pub fn copy_range(s: &[u8], from: usize, to: usize) -> (r: Vec<u8>)
    requires
        from <= to <= s@.len(),
    ensures
        r@ == s@.subrange(from as int, to as int),
{
    let mut v: Vec<u8> = Vec::new();
    let mut i = from;
    while i < to
        invariant
            from <= i <= to <= s@.len(),
            v@ == s@.subrange(from as int, i as int),
        decreases to - i,
    {
        v.push(s[i]);
        proof {
            assert(s@.subrange(from as int, i + 1) =~= s@.subrange(from as int, i as int)
                + seq![s@[i as int]]);
        }
        i += 1;
    }
    v
}

} // verus!
