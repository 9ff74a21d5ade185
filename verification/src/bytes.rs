//! Byte-level searching: a specification of the first and last occurrence of a
//! byte in a sequence, and fast exec searches over slices.

use vstd::prelude::*;
use vstd::slice::slice_index_get;

verus! {

/// Record separator between the key and the value token.
pub const SEMI: u8 = 59;

/// Record terminator.
pub const NL: u8 = 10;

/// Index of the first occurrence of `b` in `s`, if any.
pub open spec fn find_byte(s: Seq<u8>, b: u8) -> Option<int>
    decreases s.len(),
{
    if s.len() == 0 {
        None
    } else if s[0] == b {
        Some(0)
    } else {
        match find_byte(s.subrange(1, s.len() as int), b) {
            Some(i) => Some(i + 1),
            None => None,
        }
    }
}

/// `find_byte` returns the first occurrence: the byte is there, and no
/// earlier index holds it.
pub proof fn lemma_find_byte(s: Seq<u8>, b: u8)
    ensures
        match find_byte(s, b) {
            Some(i) => 0 <= i < s.len() && s[i] == b && (forall|j: int| 0 <= j < i ==> s[j] != b),
            None => forall|j: int| 0 <= j < s.len() ==> s[j] != b,
        },
    decreases s.len(),
{
    if s.len() == 0 {
    } else if s[0] == b {
    } else {
        let t = s.subrange(1, s.len() as int);
        lemma_find_byte(t, b);
        match find_byte(t, b) {
            Some(i) => {
                assert(s[i + 1] == t[i]);
                assert forall|j: int| 0 <= j < i + 1 implies s[j] != b by {
                    if j > 0 {
                        assert(s[j] == t[j - 1]);
                    }
                }
            },
            None => {
                assert forall|j: int| 0 <= j < s.len() implies s[j] != b by {
                    if j > 0 {
                        assert(s[j] == t[j - 1]);
                    }
                }
            },
        }
    }
}

/// The converse direction: the first-occurrence properties pin `find_byte` down.
pub proof fn lemma_find_byte_is(s: Seq<u8>, b: u8, i: int)
    requires
        0 <= i < s.len(),
        s[i] == b,
        forall|j: int| 0 <= j < i ==> s[j] != b,
    ensures
        find_byte(s, b) == Some(i),
{
    lemma_find_byte(s, b);
    match find_byte(s, b) {
        Some(k) => {
            if k < i {
                assert(s[k] != b);
            } else if k > i {
                assert(s[i] != b);
            }
        },
        None => {
            assert(s[i] != b);
        },
    }
}

/// No occurrence at all pins `find_byte` to `None`.
pub proof fn lemma_find_byte_none(s: Seq<u8>, b: u8)
    requires
        forall|j: int| 0 <= j < s.len() ==> s[j] != b,
    ensures
        find_byte(s, b) == None::<int>,
{
    lemma_find_byte(s, b);
    match find_byte(s, b) {
        Some(k) => {
            assert(s[k] != b);
        },
        None => {},
    }
}

/// Relies on `memchr::memchr`: the index of the first occurrence of `b` in
/// `s`, or `None` when `b` does not occur.
#[verifier::external_body]
pub fn find_first(s: &[u8], b: u8) -> (r: Option<usize>)
    ensures
        match r {
            Some(i) => i < s@.len() && s@[i as int] == b && (forall|j: int|
                0 <= j < i ==> s@[j] != b),
            None => forall|j: int| 0 <= j < s@.len() ==> s@[j] != b,
        },
{
    memchr::memchr(b, s)
}

/// Relies on `memchr::memrchr`: the index of the last occurrence of `b` in
/// `s`, or `None` when `b` does not occur.
#[verifier::external_body]
pub fn find_last(s: &[u8], b: u8) -> (r: Option<usize>)
    ensures
        match r {
            Some(i) => i < s@.len() && s@[i as int] == b && (forall|j: int|
                i < j < s@.len() ==> s@[j] != b),
            None => forall|j: int| 0 <= j < s@.len() ==> s@[j] != b,
        },
{
    memchr::memrchr(b, s)
}

/// Strict byte-lexicographic order: a proper prefix comes first, otherwise
/// the first differing byte decides.
pub open spec fn lex_lt(a: Seq<u8>, b: Seq<u8>) -> bool
    decreases a.len(),
{
    if b.len() == 0 {
        false
    } else if a.len() == 0 {
        true
    } else if a[0] < b[0] {
        true
    } else if a[0] > b[0] {
        false
    } else {
        lex_lt(a.subrange(1, a.len() as int), b.subrange(1, b.len() as int))
    }
}

pub proof fn lemma_lex_irrefl(a: Seq<u8>)
    ensures
        !lex_lt(a, a),
    decreases a.len(),
{
    if a.len() > 0 {
        lemma_lex_irrefl(a.subrange(1, a.len() as int));
    }
}

pub proof fn lemma_lex_total(a: Seq<u8>, b: Seq<u8>)
    ensures
        lex_lt(a, b) || lex_lt(b, a) || a == b,
    decreases a.len(),
{
    if a.len() == 0 || b.len() == 0 {
        if a.len() == 0 && b.len() == 0 {
            assert(a =~= b);
        }
    } else if a[0] == b[0] {
        let ta = a.subrange(1, a.len() as int);
        let tb = b.subrange(1, b.len() as int);
        lemma_lex_total(ta, tb);
        if !lex_lt(ta, tb) && !lex_lt(tb, ta) {
            assert(ta == tb);
            assert(a =~= b) by {
                assert(forall|i: int| 1 <= i < a.len() ==> a[i] == ta[i - 1]);
                assert(forall|i: int| 1 <= i < b.len() ==> b[i] == tb[i - 1]);
            }
        }
    }
}

pub proof fn lemma_lex_trans(a: Seq<u8>, b: Seq<u8>, c: Seq<u8>)
    requires
        lex_lt(a, b),
        lex_lt(b, c),
    ensures
        lex_lt(a, c),
    decreases a.len(),
{
    if a.len() == 0 {
    } else {
        if a[0] == b[0] && b[0] == c[0] {
            lemma_lex_trans(
                a.subrange(1, a.len() as int),
                b.subrange(1, b.len() as int),
                c.subrange(1, c.len() as int),
            );
        }
    }
}

/// Decides strict byte-lexicographic order on two slices.
pub fn lex_less(a: &[u8], b: &[u8]) -> (r: bool)
    ensures
        r == lex_lt(a@, b@),
{
    let na = a.len();
    let nb = b.len();
    let mut i: usize = 0;
    proof {
        assert(a@.subrange(0, na as int) =~= a@);
        assert(b@.subrange(0, nb as int) =~= b@);
    }
    while i < na && i < nb
        invariant
            na == a@.len(),
            nb == b@.len(),
            i <= na,
            i <= nb,
            lex_lt(a@, b@) == lex_lt(a@.subrange(i as int, na as int), b@.subrange(i as int, nb as int)),
        decreases na - i,
    {
        let x = *slice_index_get(a, i);
        let y = *slice_index_get(b, i);
        let ghost sa = a@.subrange(i as int, na as int);
        let ghost sb = b@.subrange(i as int, nb as int);
        proof {
            assert(sa[0] == x && sb[0] == y);
        }
        if x < y {
            return true;
        }
        if x > y {
            return false;
        }
        proof {
            assert(sa.subrange(1, sa.len() as int) =~= a@.subrange(i + 1, na as int));
            assert(sb.subrange(1, sb.len() as int) =~= b@.subrange(i + 1, nb as int));
        }
        i = i + 1;
    }
    proof {
        let sa = a@.subrange(i as int, na as int);
        let sb = b@.subrange(i as int, nb as int);
        assert(sa.len() == 0 || sb.len() == 0);
    }
    na < nb
}

} // verus!
