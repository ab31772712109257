//! Character-sequence utilities: collecting the characters of a string,
//! sorting them by code point, binary-search membership, and rebuilding a
//! string from characters.

use vstd::prelude::*;
use vstd::seq_lib::to_multiset_insert;
use vstd::std_specs::iter::IteratorSpec;

verus! {

broadcast use vstd::seq_lib::group_to_multiset_ensures;

/// Code-point order on characters.
pub open spec fn char_le(a: char, b: char) -> bool {
    (a as u32) <= (b as u32)
}

/// The sequence is sorted ascending by code point (duplicates allowed).
pub open spec fn is_sorted(s: Seq<char>) -> bool {
    forall|i: int, j: int| 0 <= i <= j < s.len() ==> char_le(s[i], s[j])
}

/// Relies on String::push: appends the character to the end of the string.
pub assume_specification[ String::push ](s: &mut String, c: char)
    ensures
        final(s)@ == old(s)@.push(c),
;

/// Collects the characters of a string, in order.
pub fn collect_chars(text: &str) -> (r: Vec<char>)
    ensures
        r@ == text@,
{
    let mut it = text.chars();
    let mut r: Vec<char> = Vec::new();
    proof {
        assert(r@ + it.remaining() =~= text@);
    }
    loop
        invariant_except_break
            it.decrease() is Some,
            r@ + it.remaining() =~= text@,
        ensures
            r@ == text@,
        decreases it.decrease()->0,
    {
        match it.next() {
            Some(c) => {
                r.push(c);
                proof {
                    assert(r@ + it.remaining() =~= text@);
                }
            },
            None => {
                proof {
                    assert(r@ =~= text@);
                }
                break ;
            },
        }
    }
    r
}

/// Rebuilds a string from a sequence of characters, in order.
pub fn build_string(chars: &Vec<char>) -> (r: String)
    ensures
        r@ == chars@,
{
    let mut r = String::new();
    let mut i: usize = 0;
    while i < chars.len()
        invariant
            i <= chars@.len(),
            r@ == chars@.subrange(0, i as int),
        decreases chars@.len() - i,
    {
        r.push(chars[i]);
        i = i + 1;
        proof {
            assert(r@ =~= chars@.subrange(0, i as int));
        }
    }
    proof {
        assert(r@ =~= chars@);
    }
    r
}

/// Inserts a character into a sorted vector, keeping it sorted.
fn sorted_insert(r: &mut Vec<char>, c: char)
    requires
        is_sorted(old(r)@),
    ensures
        is_sorted(final(r)@),
        final(r)@.to_multiset() == old(r)@.to_multiset().insert(c),
{
    let mut j: usize = 0;
    while j < r.len() && (r[j] as u32) <= (c as u32)
        invariant
            j <= r@.len(),
            is_sorted(r@),
            r@ == old(r)@,
            forall|k: int| 0 <= k < j ==> char_le(r@[k], c),
        decreases r@.len() - j,
    {
        j = j + 1;
    }
    proof {
        to_multiset_insert(r@, j as int, c);
    }
    r.insert(j, c);
    proof {
        let s = old(r)@;
        assert forall|i1: int, i2: int| 0 <= i1 <= i2 < r@.len() implies char_le(
            r@[i1],
            r@[i2],
        ) by {
            if i1 < j && i2 == j {
                assert(char_le(s[i1], c));
            } else if i1 == j && i2 > j {
                assert(char_le(s[j as int], s[i2 - 1]));
            }
        }
    }
}

/// Sorts the characters ascending by code point; the result is a permutation
/// of the input with duplicates preserved.
pub fn sort_chars(v: Vec<char>) -> (r: Vec<char>)
    ensures
        is_sorted(r@),
        r@.to_multiset() == v@.to_multiset(),
{
    let mut r: Vec<char> = Vec::new();
    let mut i: usize = 0;
    proof {
        assert(v@.subrange(0, 0) =~= r@);
    }
    while i < v.len()
        invariant
            i <= v@.len(),
            is_sorted(r@),
            r@.to_multiset() == v@.subrange(0, i as int).to_multiset(),
        decreases v@.len() - i,
    {
        sorted_insert(&mut r, v[i]);
        proof {
            assert(v@.subrange(0, i + 1 as int) =~= v@.subrange(0, i as int).push(v@[i as int]));
        }
        i = i + 1;
    }
    proof {
        assert(v@.subrange(0, i as int) =~= v@);
    }
    r
}

/// Two sorted sequences that are permutations of each other are equal: a
/// sortedness-plus-multiset contract pins the sequence completely.
pub proof fn lemma_sorted_permutation_unique(x: Seq<char>, y: Seq<char>)
    requires
        is_sorted(x),
        is_sorted(y),
        x.to_multiset() == y.to_multiset(),
    ensures
        x == y,
{
    let leq = (|a: char, b: char| char_le(a, b));
    assert forall|a: char, b: char| #[trigger] leq(a, b) && leq(b, a) implies a == b by {
        vstd::utf8::char_u32_cast(a, a as u32);
        vstd::utf8::char_u32_cast(b, b as u32);
    }
    assert(vstd::relations::total_ordering(leq));
    assert(vstd::relations::sorted_by(x, leq));
    assert(vstd::relations::sorted_by(y, leq));
    vstd::seq_lib::lemma_sorted_unique(x, y, leq);
    assert(x =~= y);
}

/// Binary-search membership test against a sorted vector; correct with
/// duplicate entries.
pub fn sorted_contains(v: &Vec<char>, c: char) -> (r: bool)
    requires
        is_sorted(v@),
    ensures
        r == v@.contains(c),
{
    let mut lo: usize = 0;
    let mut hi: usize = v.len();
    while lo < hi
        invariant
            lo <= hi <= v@.len(),
            is_sorted(v@),
            v@.contains(c) ==> exists|k: int| lo <= k < hi && v@[k] == c,
        decreases hi - lo,
    {
        let mid = lo + (hi - lo) / 2;
        let m = v[mid];
        if (m as u32) < (c as u32) {
            proof {
                assert forall|k: int| lo <= k < hi && v@[k] == c implies mid < k by {
                    if k <= mid {
                        assert(char_le(v@[k], v@[mid as int]));
                    }
                }
            }
            lo = mid + 1;
        } else if (c as u32) < (m as u32) {
            proof {
                assert forall|k: int| lo <= k < hi && v@[k] == c implies k < mid by {
                    if k >= mid {
                        assert(char_le(v@[mid as int], v@[k]));
                    }
                }
            }
            hi = mid;
        } else {
            proof {
                vstd::utf8::char_u32_cast(m, m as u32);
                vstd::utf8::char_u32_cast(c, c as u32);
                assert(v@[mid as int] == c);
            }
            return true;
        }
    }
    false
}

} // verus!
