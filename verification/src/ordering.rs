//! Three-way comparisons over character sequences, together with the order
//! properties (totality, transitivity, antisymmetry) that the deterministic
//! sorting of the analysis output relies on.

use vstd::prelude::*;
use core::cmp::Ordering;

verus! {

/// Lexicographic three-way comparison of two character sequences, by code
/// point. This agrees with the byte-wise order of the UTF-8 encodings,
/// because UTF-8 preserves the order of code points.
pub open spec fn chars_cmp(a: Seq<char>, b: Seq<char>) -> Ordering
    decreases a.len(),
{
    if a.len() == 0 && b.len() == 0 {
        Ordering::Equal
    } else if a.len() == 0 {
        Ordering::Less
    } else if b.len() == 0 {
        Ordering::Greater
    } else if (a[0] as u32) < (b[0] as u32) {
        Ordering::Less
    } else if (b[0] as u32) < (a[0] as u32) {
        Ordering::Greater
    } else {
        chars_cmp(a.drop_first(), b.drop_first())
    }
}

/// Chain two comparisons lexicographically: the second decides only when the
/// first is a tie.
pub open spec fn ord_then(first: Ordering, second: Ordering) -> Ordering {
    if first == Ordering::Equal {
        second
    } else {
        first
    }
}

/// Three-way comparison of two integers.
pub open spec fn int_cmp(a: int, b: int) -> Ordering {
    if a < b {
        Ordering::Less
    } else if b < a {
        Ordering::Greater
    } else {
        Ordering::Equal
    }
}

/// The comparison with the arguments swapped.
pub open spec fn ord_flip(o: Ordering) -> Ordering {
    match o {
        Ordering::Less => Ordering::Greater,
        Ordering::Equal => Ordering::Equal,
        Ordering::Greater => Ordering::Less,
    }
}

/// Two characters with the same code point are the same character.
pub proof fn lemma_char_eq(c1: char, c2: char)
    requires
        c1 as u32 == c2 as u32,
    ensures
        c1 == c2,
{
}

/// Character sequences that compare as ties are equal.
pub proof fn lemma_chars_cmp_eq(a: Seq<char>, b: Seq<char>)
    requires
        chars_cmp(a, b) == Ordering::Equal,
    ensures
        a =~= b,
    decreases a.len(),
{
    if a.len() == 0 && b.len() == 0 {
    } else if a.len() == 0 {
    } else if b.len() == 0 {
    } else if (a[0] as u32) < (b[0] as u32) {
    } else if (b[0] as u32) < (a[0] as u32) {
    } else {
        lemma_chars_cmp_eq(a.drop_first(), b.drop_first());
        lemma_char_eq(a[0], b[0]);
        assert(a =~= seq![a[0]] + a.drop_first());
        assert(b =~= seq![b[0]] + b.drop_first());
    }
}

/// A sequence ties with itself.
pub proof fn lemma_chars_cmp_self(a: Seq<char>)
    ensures
        chars_cmp(a, a) == Ordering::Equal,
    decreases a.len(),
{
    if a.len() != 0 {
        lemma_chars_cmp_self(a.drop_first());
    }
}

/// Swapping the arguments flips the comparison.
pub proof fn lemma_chars_cmp_flip(a: Seq<char>, b: Seq<char>)
    ensures
        chars_cmp(b, a) == ord_flip(chars_cmp(a, b)),
    decreases a.len(),
{
    if a.len() == 0 && b.len() == 0 {
    } else if a.len() == 0 {
    } else if b.len() == 0 {
    } else if (a[0] as u32) < (b[0] as u32) {
    } else if (b[0] as u32) < (a[0] as u32) {
    } else {
        lemma_chars_cmp_flip(a.drop_first(), b.drop_first());
    }
}

/// The order is transitive, stated over the non-strict form.
pub proof fn lemma_chars_cmp_trans(a: Seq<char>, b: Seq<char>, c: Seq<char>)
    requires
        chars_cmp(a, b) != Ordering::Greater,
        chars_cmp(b, c) != Ordering::Greater,
    ensures
        chars_cmp(a, c) != Ordering::Greater,
        chars_cmp(a, b) == Ordering::Less || chars_cmp(b, c) == Ordering::Less
            ==> chars_cmp(a, c) == Ordering::Less,
    decreases a.len() + b.len() + c.len(),
{
    if a.len() == 0 {
        if c.len() == 0 {
            if b.len() != 0 {
            }
        }
    } else {
        if b.len() == 0 {
            assert(chars_cmp(a, b) == Ordering::Greater);
        } else if c.len() == 0 {
            assert(chars_cmp(b, c) == Ordering::Greater);
        } else {
            let x = a[0] as u32;
            let y = b[0] as u32;
            let z = c[0] as u32;
            if x < y {
                if y < z {
                } else if z < y {
                    assert(chars_cmp(b, c) == Ordering::Greater);
                } else {
                }
            } else if y < x {
                assert(chars_cmp(a, b) == Ordering::Greater);
            } else {
                if y < z {
                } else if z < y {
                    assert(chars_cmp(b, c) == Ordering::Greater);
                } else {
                    lemma_chars_cmp_trans(a.drop_first(), b.drop_first(), c.drop_first());
                }
            }
        }
    }
}

/// Executable lexicographic comparison of two string slices, agreeing with
/// [`chars_cmp`] on their views.
pub fn cmp_str(a: &str, b: &str) -> (r: Ordering)
    ensures
        r == chars_cmp(a@, b@),
{
    let alen = a.unicode_len();
    let blen = b.unicode_len();
    let mut i: usize = 0;
    proof {
        assert(a@.skip(0) =~= a@);
        assert(b@.skip(0) =~= b@);
    }
    loop
        invariant
            i <= alen,
            i <= blen,
            alen == a@.len(),
            blen == b@.len(),
            chars_cmp(a@, b@) == chars_cmp(a@.skip(i as int), b@.skip(i as int)),
        decreases alen - i,
    {
        if i == alen && i == blen {
            return Ordering::Equal;
        }
        if i == alen {
            return Ordering::Less;
        }
        if i == blen {
            return Ordering::Greater;
        }
        let ca = a.get_char(i) as u32;
        let cb = b.get_char(i) as u32;
        if ca < cb {
            return Ordering::Less;
        }
        if cb < ca {
            return Ordering::Greater;
        }
        proof {
            lemma_char_eq(a@[i as int], b@[i as int]);
            assert(a@.skip(i as int)[0] == a@[i as int]);
            assert(b@.skip(i as int)[0] == b@[i as int]);
            assert(a@.skip(i as int).drop_first() =~= a@.skip(i as int + 1));
            assert(b@.skip(i as int).drop_first() =~= b@.skip(i as int + 1));
        }
        i = i + 1;
    }
}

/// Executable three-way comparison of two machine integers.
pub fn cmp_usize(a: usize, b: usize) -> (r: Ordering)
    ensures
        r == int_cmp(a as int, b as int),
{
    if a < b {
        Ordering::Less
    } else if b < a {
        Ordering::Greater
    } else {
        Ordering::Equal
    }
}

} // verus!
