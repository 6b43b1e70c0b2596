//! Text helpers shared by the library: the order in which names are sorted,
//! and access to the characters of a string.
use vstd::prelude::*;
use vstd::string::*;

verus! {

/// `a` orders before `b` when the two agree on positions `0 .. i` and, from
/// position `i` on, `a` is smaller: either it ends first, or its first
/// differing character has the lower code point.
pub open spec fn lt_from(a: Seq<char>, b: Seq<char>, i: int) -> bool
    decreases a.len() - i,
{
    if i >= a.len() {
        i < b.len()
    } else if i >= b.len() {
        false
    } else if a[i] == b[i] {
        lt_from(a, b, i + 1)
    } else {
        (a[i] as int) < (b[i] as int)
    }
}

/// Lexicographic order of strings by code point: the order in which `str`
/// compares two strings.
pub open spec fn str_lt(a: Seq<char>, b: Seq<char>) -> bool {
    lt_from(a, b, 0)
}

/// No string orders before itself.
pub proof fn lemma_lt_irreflexive(a: Seq<char>, i: int)
    requires
        0 <= i,
    ensures
        !lt_from(a, a, i),
    decreases a.len() - i,
{
    if i < a.len() {
        lemma_lt_irreflexive(a, i + 1);
    }
}

/// Two strings never order before each other.
pub proof fn lemma_lt_asymmetric(a: Seq<char>, b: Seq<char>, i: int)
    requires
        0 <= i,
        lt_from(a, b, i),
    ensures
        !lt_from(b, a, i),
    decreases a.len() - i,
{
    if i < a.len() && i < b.len() && a[i] == b[i] {
        lemma_lt_asymmetric(a, b, i + 1);
    }
}

/// The order is transitive.
pub proof fn lemma_lt_transitive(a: Seq<char>, b: Seq<char>, c: Seq<char>, i: int)
    requires
        0 <= i,
        lt_from(a, b, i),
        lt_from(b, c, i),
    ensures
        lt_from(a, c, i),
    decreases a.len() - i,
{
    if i < a.len() && i < b.len() && i < c.len() && a[i] == b[i] && b[i] == c[i] {
        lemma_lt_transitive(a, b, c, i + 1);
    }
}

/// Two strings that agree before `i` either are equal or one orders before
/// the other.
pub proof fn lemma_lt_total(a: Seq<char>, b: Seq<char>, i: int)
    requires
        0 <= i <= a.len(),
        i <= b.len(),
        a.subrange(0, i) == b.subrange(0, i),
    ensures
        a == b || lt_from(a, b, i) || lt_from(b, a, i),
    decreases a.len() - i,
{
    if i < a.len() && i < b.len() && a[i] == b[i] {
        assert(a.subrange(0, i + 1) =~= a.subrange(0, i).push(a[i]));
        assert(b.subrange(0, i + 1) =~= b.subrange(0, i).push(b[i]));
        lemma_lt_total(a, b, i + 1);
    } else if i < a.len() && i < b.len() {
        assert((a[i] as int) != (b[i] as int));
    } else if i == a.len() && i == b.len() {
        assert(a =~= a.subrange(0, i));
        assert(b =~= b.subrange(0, i));
    }
}

/// The order on strings is a strict total order.
pub proof fn lemma_str_lt_strict_total_order()
    ensures
        forall|a: Seq<char>| !#[trigger] str_lt(a, a),
        forall|a: Seq<char>, b: Seq<char>| #[trigger] str_lt(a, b) ==> !str_lt(b, a),
        forall|a: Seq<char>, b: Seq<char>, c: Seq<char>|
            #[trigger] str_lt(a, b) && #[trigger] str_lt(b, c) ==> str_lt(a, c),
        forall|a: Seq<char>, b: Seq<char>|
            a != b ==> #[trigger] str_lt(a, b) || #[trigger] str_lt(b, a),
{
    assert forall|a: Seq<char>| !#[trigger] str_lt(a, a) by {
        lemma_lt_irreflexive(a, 0);
    }
    assert forall|a: Seq<char>, b: Seq<char>| #[trigger] str_lt(a, b) implies !str_lt(b, a) by {
        lemma_lt_asymmetric(a, b, 0);
    }
    assert forall|a: Seq<char>, b: Seq<char>, c: Seq<char>|
        #[trigger] str_lt(a, b) && #[trigger] str_lt(b, c) implies str_lt(a, c) by {
        lemma_lt_transitive(a, b, c, 0);
    }
    assert forall|a: Seq<char>, b: Seq<char>|
        a != b implies #[trigger] str_lt(a, b) || #[trigger] str_lt(b, a) by {
        assert(a.subrange(0, 0) =~= b.subrange(0, 0));
        lemma_lt_total(a, b, 0);
    }
}

/// Whether `a` orders before `b` by code point, as `a < b` does on `str`.
pub fn str_less(a: &str, b: &str) -> (r: bool)
    ensures
        r == str_lt(a@, b@),
{
    let la = a.unicode_len();
    let lb = b.unicode_len();
    let mut i: usize = 0;
    while i < la && i < lb
        invariant
            la == a@.len(),
            lb == b@.len(),
            i <= la,
            i <= lb,
            str_lt(a@, b@) == lt_from(a@, b@, i as int),
        decreases la - i,
    {
        let ca = a.get_char(i);
        let cb = b.get_char(i);
        if ca != cb {
            return (ca as u32) < (cb as u32);
        }
        i = i + 1;
    }
    i < lb
}

proof fn lemma_lt_from_skips_common_prefix(a: Seq<char>, b: Seq<char>, j: int, i: int)
    requires
        0 <= j <= i,
        i <= a.len(),
        i <= b.len(),
        a.subrange(0, i) == b.subrange(0, i),
    ensures
        lt_from(a, b, j) == lt_from(a, b, i),
    decreases i - j,
{
    if j < i {
        assert(a[j] == a.subrange(0, i)[j]);
        assert(b[j] == b.subrange(0, i)[j]);
        lemma_lt_from_skips_common_prefix(a, b, j + 1, i);
    }
}

/// Names are ordered as `str` orders them: where two names first differ at
/// some position, the one with the smaller code point there comes first.
pub proof fn lemma_str_lt_at_first_difference(a: Seq<char>, b: Seq<char>, i: int)
    requires
        0 <= i < a.len(),
        i < b.len(),
        a.subrange(0, i) == b.subrange(0, i),
        a[i] != b[i],
    ensures
        str_lt(a, b) <==> (a[i] as int) < (b[i] as int),
{
    lemma_lt_from_skips_common_prefix(a, b, 0, i);
}

/// A name orders before every longer name that it begins, and never after
/// a name that it is longer than and that it begins with.
pub proof fn lemma_str_lt_prefix(a: Seq<char>, b: Seq<char>)
    requires
        a.len() < b.len(),
        b.subrange(0, a.len() as int) == a,
    ensures
        str_lt(a, b),
        !str_lt(b, a),
{
    assert(a.subrange(0, a.len() as int) =~= a);
    lemma_lt_from_skips_common_prefix(a, b, 0, a.len() as int);
    assert(b.subrange(0, a.len() as int) == a.subrange(0, a.len() as int));
    lemma_lt_from_skips_common_prefix(b, a, 0, a.len() as int);
}

} // verus!
