//! The order in which paths and digests are listed: byte strings compared
//! position by position, a proper prefix before its extensions, and text
//! compared through its UTF-8 encoding.

use vstd::prelude::*;
use vstd::relations::*;
use vstd::utf8::*;

verus! {

/// Whether `a` comes strictly before `b`, given that the two agree on every
/// position below `i`.
pub open spec fn bytes_lt_from(a: Seq<u8>, b: Seq<u8>, i: int) -> bool
    decreases a.len() - i,
{
    if i < 0 || i >= b.len() {
        false
    } else if i >= a.len() {
        true
    } else if a[i] != b[i] {
        a[i] < b[i]
    } else {
        bytes_lt_from(a, b, i + 1)
    }
}

/// Strict lexicographic order on byte strings.
pub open spec fn bytes_lt(a: Seq<u8>, b: Seq<u8>) -> bool {
    bytes_lt_from(a, b, 0)
}

/// Strict order on text: the lexicographic order of the UTF-8 encodings.
pub open spec fn text_lt(a: Seq<char>, b: Seq<char>) -> bool {
    bytes_lt(encode_utf8(a), encode_utf8(b))
}

/// The order on text with equality admitted.
pub open spec fn text_le(a: Seq<char>, b: Seq<char>) -> bool {
    a == b || text_lt(a, b)
}

/// Two byte strings that agree below `i` and on which neither side comes first
/// from `i` on are the same string.
proof fn lemma_bytes_trichotomy_from(a: Seq<u8>, b: Seq<u8>, i: int)
    requires
        0 <= i <= a.len(),
        i <= b.len(),
        forall|j: int| 0 <= j < i ==> a[j] == b[j],
    ensures
        bytes_lt_from(a, b, i) || bytes_lt_from(b, a, i) || a == b,
        !(bytes_lt_from(a, b, i) && bytes_lt_from(b, a, i)),
        a == b ==> !bytes_lt_from(a, b, i),
    decreases a.len() - i,
{
    if i >= a.len() || i >= b.len() {
        if i >= a.len() && i >= b.len() {
            assert(a =~= b);
        }
    } else if a[i] == b[i] {
        lemma_bytes_trichotomy_from(a, b, i + 1);
    }
}

proof fn lemma_bytes_transitive_from(a: Seq<u8>, b: Seq<u8>, c: Seq<u8>, i: int)
    requires
        0 <= i,
        bytes_lt_from(a, b, i),
        bytes_lt_from(b, c, i),
    ensures
        bytes_lt_from(a, c, i),
    decreases a.len() - i,
{
    if i < a.len() && a[i] == b[i] && b[i] == c[i] {
        lemma_bytes_transitive_from(a, b, c, i + 1);
    }
}

/// Of two different byte strings exactly one comes before the other, and no
/// string comes before itself.
pub proof fn lemma_bytes_trichotomy(a: Seq<u8>, b: Seq<u8>)
    ensures
        bytes_lt(a, b) || bytes_lt(b, a) || a == b,
        !(bytes_lt(a, b) && bytes_lt(b, a)),
        a == b ==> !bytes_lt(a, b),
{
    lemma_bytes_trichotomy_from(a, b, 0);
}

/// The byte order is transitive.
pub proof fn lemma_bytes_transitive(a: Seq<u8>, b: Seq<u8>, c: Seq<u8>)
    requires
        bytes_lt(a, b),
        bytes_lt(b, c),
    ensures
        bytes_lt(a, c),
{
    lemma_bytes_transitive_from(a, b, c, 0);
}

/// Texts with the same encoding are the same text.
pub proof fn lemma_encoding_injective(a: Seq<char>, b: Seq<char>)
    requires
        encode_utf8(a) == encode_utf8(b),
    ensures
        a == b,
{
    encode_utf8_decode_utf8(a);
    encode_utf8_decode_utf8(b);
}

/// Of two different texts exactly one comes before the other, and no text
/// comes before itself.
pub proof fn lemma_text_trichotomy(a: Seq<char>, b: Seq<char>)
    ensures
        text_lt(a, b) || text_lt(b, a) || a == b,
        !(text_lt(a, b) && text_lt(b, a)),
        a == b ==> !text_lt(a, b),
{
    lemma_bytes_trichotomy(encode_utf8(a), encode_utf8(b));
    if encode_utf8(a) == encode_utf8(b) {
        lemma_encoding_injective(a, b);
    }
}

/// The text order is transitive.
pub proof fn lemma_text_transitive(a: Seq<char>, b: Seq<char>, c: Seq<char>)
    requires
        text_lt(a, b),
        text_lt(b, c),
    ensures
        text_lt(a, c),
{
    lemma_bytes_transitive(encode_utf8(a), encode_utf8(b), encode_utf8(c));
}

/// `text_le` is a total order: reflexive, antisymmetric, transitive, and any
/// two texts are comparable.
pub proof fn lemma_text_le_total_order()
    ensures
        total_ordering(|a: Seq<char>, b: Seq<char>| text_le(a, b)),
{
    let leq = |a: Seq<char>, b: Seq<char>| text_le(a, b);
    assert forall|x: Seq<char>, y: Seq<char>| #[trigger] leq(x, y) && #[trigger] leq(y, x) implies x
        == y by {
        lemma_text_trichotomy(x, y);
    }
    assert forall|x: Seq<char>, y: Seq<char>, z: Seq<char>| #[trigger]
        leq(x, y) && #[trigger] leq(y, z) implies leq(x, z) by {
        if x != y && y != z {
            lemma_text_transitive(x, y, z);
        }
    }
    assert forall|x: Seq<char>, y: Seq<char>| #[trigger] leq(x, y) || #[trigger] leq(y, x) by {
        lemma_text_trichotomy(x, y);
    }
}

/// Decides whether `a` comes strictly before `b`.
pub fn str_lt(a: &str, b: &str) -> (r: bool)
    ensures
        r == text_lt(a@, b@),
{
    let x = a.as_bytes();
    let y = b.as_bytes();
    let mut i: usize = 0;
    while i < x.len() && i < y.len()
        invariant
            i <= x.len(),
            i <= y.len(),
            x@ == encode_utf8(a@),
            y@ == encode_utf8(b@),
            bytes_lt(x@, y@) == bytes_lt_from(x@, y@, i as int),
        decreases x.len() - i,
    {
        if x[i] != y[i] {
            return x[i] < y[i];
        }
        i += 1;
    }
    i < y.len()
}

/// Values with a place in a total preorder, by which they are listed.
pub trait Ranked: Sized {
    /// `a` is listed no later than `b`.
    spec fn precedes(a: &Self, b: &Self) -> bool;

    /// Any two values are comparable.
    proof fn lemma_precedes_total(a: &Self, b: &Self)
        ensures
            Self::precedes(a, b) || Self::precedes(b, a),
    ;

    /// The order is transitive.
    proof fn lemma_precedes_transitive(a: &Self, b: &Self, c: &Self)
        requires
            Self::precedes(a, b),
            Self::precedes(b, c),
        ensures
            Self::precedes(a, c),
    ;

    /// Decides whether `self` is listed no later than `other`.
    fn comes_first(&self, other: &Self) -> (r: bool)
        ensures
            r == Self::precedes(self, other),
    ;
}

impl Ranked for String {
    open spec fn precedes(a: &Self, b: &Self) -> bool {
        text_le(a@, b@)
    }

    proof fn lemma_precedes_total(a: &Self, b: &Self) {
        lemma_text_trichotomy(a@, b@);
    }

    proof fn lemma_precedes_transitive(a: &Self, b: &Self, c: &Self) {
        if a@ != b@ && b@ != c@ {
            lemma_text_transitive(a@, b@, c@);
        }
    }

    fn comes_first(&self, other: &Self) -> (r: bool) {
        proof {
            lemma_text_trichotomy(self@, other@);
        }
        !str_lt(other.as_str(), self.as_str())
    }
}

/// Each element is listed no later than every element after it.
pub open spec fn ascending<T: Ranked>(items: Seq<T>) -> bool {
    forall|i: int, j: int| 0 <= i < j < items.len() ==> T::precedes(&items[i], &items[j])
}

/// Each element is listed no earlier than every element after it.
spec fn descending<T: Ranked>(items: Seq<T>) -> bool {
    forall|i: int, j: int| 0 <= i < j < items.len() ==> T::precedes(&items[j], &items[i])
}

/// No element of `low` is listed later than any element of `high`.
spec fn all_precede<T: Ranked>(low: Seq<T>, high: Seq<T>) -> bool {
    forall|i: int, j: int|
        0 <= i < low.len() && 0 <= j < high.len() ==> T::precedes(&low[i], &high[j])
}

/// Merges two ascending vectors into one that holds the elements of both.
fn merge<T: Ranked>(left: Vec<T>, right: Vec<T>) -> (merged: Vec<T>)
    requires
        ascending(left@),
        ascending(right@),
    ensures
        ascending(merged@),
        merged@.to_multiset() == left@.to_multiset().add(right@.to_multiset()),
{
    broadcast use {vstd::seq_lib::group_to_multiset_ensures, vstd::multiset::group_multiset_axioms};

    let ghost total = left@.to_multiset().add(right@.to_multiset());
    let mut left = left;
    let mut right = right;
    let mut back: Vec<T> = Vec::new();
    // The largest elements go to `back` first, so `back` runs downwards.
    while left.len() > 0 && right.len() > 0
        invariant
            ascending(left@),
            ascending(right@),
            descending(back@),
            all_precede(left@, back@),
            all_precede(right@, back@),
            left@.to_multiset().add(right@.to_multiset()).add(back@.to_multiset()) =~= total,
        decreases left@.len() + right@.len(),
    {
        let ghost l = left@;
        let ghost r = right@;
        let ghost b = back@;
        let take_right = left[left.len() - 1].comes_first(&right[right.len() - 1]);
        proof {
            T::lemma_precedes_total(&l.last(), &r.last());
        }
        if take_right {
            let top = right.pop().unwrap();
            back.push(top);
            proof {
                assert(r =~= right@.push(top));
                vstd::seq_lib::to_multiset_build(right@, top);
                vstd::seq_lib::to_multiset_build(b, top);
                assert forall|i: int, j: int| 0 <= i < j < back@.len() implies T::precedes(
                    &back@[j],
                    &back@[i],
                ) by {
                    if j == b.len() {
                        assert(T::precedes(&r[r.len() - 1], &b[i]));
                    }
                }
                assert forall|i: int, j: int|
                    0 <= i < left@.len() && 0 <= j < back@.len() implies T::precedes(
                    &left@[i],
                    &back@[j],
                ) by {
                    if j == b.len() {
                        if i < l.len() - 1 {
                            assert(T::precedes(&l[i], &l[l.len() - 1]));
                            T::lemma_precedes_transitive(&l[i], &l.last(), &top);
                        }
                    }
                }
                assert forall|i: int, j: int|
                    0 <= i < right@.len() && 0 <= j < back@.len() implies T::precedes(
                    &right@[i],
                    &back@[j],
                ) by {
                    if j == b.len() {
                        assert(T::precedes(&r[i], &r[r.len() - 1]));
                    } else {
                        assert(T::precedes(&r[i], &b[j]));
                    }
                }
            }
        } else {
            let top = left.pop().unwrap();
            back.push(top);
            proof {
                assert(l =~= left@.push(top));
                vstd::seq_lib::to_multiset_build(left@, top);
                vstd::seq_lib::to_multiset_build(b, top);
                assert forall|i: int, j: int| 0 <= i < j < back@.len() implies T::precedes(
                    &back@[j],
                    &back@[i],
                ) by {
                    if j == b.len() {
                        assert(T::precedes(&l[l.len() - 1], &b[i]));
                    }
                }
                assert forall|i: int, j: int|
                    0 <= i < right@.len() && 0 <= j < back@.len() implies T::precedes(
                    &right@[i],
                    &back@[j],
                ) by {
                    if j == b.len() {
                        if i < r.len() - 1 {
                            assert(T::precedes(&r[i], &r[r.len() - 1]));
                            T::lemma_precedes_transitive(&r[i], &r.last(), &top);
                        }
                    }
                }
                assert forall|i: int, j: int|
                    0 <= i < left@.len() && 0 <= j < back@.len() implies T::precedes(
                    &left@[i],
                    &back@[j],
                ) by {
                    if j == b.len() {
                        assert(T::precedes(&l[i], &l[l.len() - 1]));
                    } else {
                        assert(T::precedes(&l[i], &b[j]));
                    }
                }
            }
        }
    }
    let mut merged = if left.len() > 0 {
        left
    } else {
        right
    };
    while back.len() > 0
        invariant
            ascending(merged@),
            descending(back@),
            all_precede(merged@, back@),
            merged@.to_multiset().add(back@.to_multiset()) =~= total,
        decreases back@.len(),
    {
        let ghost m = merged@;
        let ghost b = back@;
        let top = back.pop().unwrap();
        merged.push(top);
        proof {
            assert(b =~= back@.push(top));
            vstd::seq_lib::to_multiset_build(back@, top);
            vstd::seq_lib::to_multiset_build(m, top);
            assert forall|i: int, j: int| 0 <= i < j < merged@.len() implies T::precedes(
                &merged@[i],
                &merged@[j],
            ) by {
                if j == m.len() {
                    assert(T::precedes(&m[i], &b[b.len() - 1]));
                }
            }
            assert forall|i: int, j: int|
                0 <= i < merged@.len() && 0 <= j < back@.len() implies T::precedes(
                &merged@[i],
                &back@[j],
            ) by {
                if i == m.len() {
                    assert(T::precedes(&b[b.len() - 1], &b[j]));
                } else {
                    assert(T::precedes(&m[i], &b[j]));
                }
            }
        }
    }
    merged
}

/// Sorts a vector into ascending order by merging sorted halves. The result
/// holds exactly the elements that were handed in.
pub fn sort<T: Ranked>(items: Vec<T>) -> (sorted: Vec<T>)
    ensures
        ascending(sorted@),
        sorted@.to_multiset() == items@.to_multiset(),
    decreases items@.len(),
{
    broadcast use vstd::seq_lib::group_to_multiset_ensures;

    if items.len() <= 1 {
        return items;
    }
    let ghost whole = items@;
    let mut left = items;
    let half: usize = left.len() / 2;
    let right = left.split_off(half);
    proof {
        assert(whole =~= left@ + right@);
        vstd::seq_lib::lemma_multiset_commutative(left@, right@);
    }
    let left = sort(left);
    let right = sort(right);
    merge(left, right)
}

} // verus!
