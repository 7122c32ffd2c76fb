//! Lexicographic order on byte strings and on sequences of byte strings.
use vstd::prelude::*;

verus! {

/// The outcome of comparing two values.
#[derive(Clone, Copy, PartialEq, Eq, Debug)]
pub enum Comparison {
    Less,
    Equal,
    Greater,
}

/// `a` and `b` agree before position `i`, and at `i` either `a` has ended or its element is the
/// smaller one.
pub open spec fn splits_at<T>(less: spec_fn(T, T) -> bool, a: Seq<T>, b: Seq<T>, i: int) -> bool {
    &&& 0 <= i <= a.len()
    &&& i < b.len()
    &&& forall|j: int| 0 <= j < i ==> a[j] == b[j]
    &&& i < a.len() ==> less(a[i], b[i])
}

/// `a` comes strictly before `b` in the lexicographic order over the element order `less`.
pub open spec fn lex_less<T>(less: spec_fn(T, T) -> bool, a: Seq<T>, b: Seq<T>) -> bool {
    exists|i: int| splits_at(less, a, b, i)
}

/// `less` is irreflexive, transitive and total.
pub open spec fn strict_total_order<T>(less: spec_fn(T, T) -> bool) -> bool {
    &&& forall|x: T| !(#[trigger] less(x, x))
    &&& forall|x: T, y: T, z: T| #[trigger] less(x, y) && #[trigger] less(y, z) ==> less(x, z)
    &&& forall|x: T, y: T| x == y || #[trigger] less(x, y) || #[trigger] less(y, x)
}

/// The order of bytes by value.
pub open spec fn byte_order() -> spec_fn(u8, u8) -> bool {
    |x: u8, y: u8| x < y
}

/// The order of byte strings: lexicographic by byte value.
pub open spec fn bytes_less(a: Seq<u8>, b: Seq<u8>) -> bool {
    lex_less(byte_order(), a, b)
}

/// [`bytes_less`] as a function value.
pub open spec fn bytes_order() -> spec_fn(Seq<u8>, Seq<u8>) -> bool {
    |a: Seq<u8>, b: Seq<u8>| bytes_less(a, b)
}

/// Over a strict total order of elements, the lexicographic order is a strict total order.
pub proof fn lemma_lex_order<T>(less: spec_fn(T, T) -> bool)
    requires
        strict_total_order(less),
    ensures
        strict_total_order(|a: Seq<T>, b: Seq<T>| lex_less(less, a, b)),
{
    let lex = |a: Seq<T>, b: Seq<T>| lex_less(less, a, b);
    assert forall|a: Seq<T>| !(#[trigger] lex(a, a)) by {
        if lex_less(less, a, a) {
            let i = choose|i: int| splits_at(less, a, a, i);
            assert(!less(a[i], a[i]));
        }
    }
    assert forall|a: Seq<T>, b: Seq<T>, c: Seq<T>| #[trigger] lex(a, b) && #[trigger] lex(b, c) implies lex(
        a,
        c,
    ) by {
        let i = choose|i: int| splits_at(less, a, b, i);
        let j = choose|j: int| splits_at(less, b, c, j);
        let k = if i <= j { i } else { j };
        assert(splits_at(less, a, c, k));
    }
    assert forall|a: Seq<T>, b: Seq<T>| a == b || #[trigger] lex(a, b) || #[trigger] lex(b, a) by {
        lemma_lex_total(less, a, b, 0);
    }
}

/// Sequences that agree before position `i` are equal or ordered one way.
proof fn lemma_lex_total<T>(less: spec_fn(T, T) -> bool, a: Seq<T>, b: Seq<T>, i: int)
    requires
        strict_total_order(less),
        0 <= i <= a.len(),
        i <= b.len(),
        forall|j: int| 0 <= j < i ==> a[j] == b[j],
    ensures
        a == b || lex_less(less, a, b) || lex_less(less, b, a),
    decreases a.len() - i,
{
    if i < a.len() && i < b.len() {
        if a[i] == b[i] {
            lemma_lex_total(less, a, b, i + 1);
        } else if less(a[i], b[i]) {
            assert(splits_at(less, a, b, i));
        } else {
            assert(splits_at(less, b, a, i));
        }
    } else if i < a.len() {
        assert(splits_at(less, b, a, i));
    } else if i < b.len() {
        assert(splits_at(less, a, b, i));
    } else {
        assert(a =~= b);
    }
}

/// Byte strings are strictly and totally ordered.
pub proof fn lemma_bytes_order()
    ensures
        strict_total_order(bytes_order()),
{
    assert(strict_total_order(byte_order()));
    lemma_lex_order(byte_order());
    assert(bytes_order() =~= (|a: Seq<u8>, b: Seq<u8>| lex_less(byte_order(), a, b)));
}

/// Compares two byte strings.
pub fn compare_bytes(a: &[u8], b: &[u8]) -> (result: Comparison)
    ensures
        result == (if a@ == b@ {
            Comparison::Equal
        } else if bytes_less(a@, b@) {
            Comparison::Less
        } else {
            Comparison::Greater
        }),
        result is Greater <==> bytes_less(b@, a@),
{
    proof {
        lemma_bytes_order();
        assert(bytes_less(a@, b@) == bytes_order()(a@, b@));
        assert(bytes_less(b@, a@) == bytes_order()(b@, a@));
        assert(!bytes_order()(a@, a@));
        assert(bytes_order()(a@, b@) && bytes_order()(b@, a@) ==> bytes_order()(a@, a@));
    }
    let mut i: usize = 0;
    while i < a.len() && i < b.len()
        invariant
            i <= a.len(),
            i <= b.len(),
            forall|j: int| 0 <= j < i ==> a[j] == b[j],
            a@ == b@ || bytes_less(a@, b@) || bytes_less(b@, a@),
            !(bytes_less(a@, b@) && bytes_less(b@, a@)),
            a@ == b@ ==> !bytes_less(a@, b@),
        decreases a.len() - i,
    {
        if a[i] < b[i] {
            assert(splits_at(byte_order(), a@, b@, i as int));
            return Comparison::Less;
        }
        if b[i] < a[i] {
            assert(splits_at(byte_order(), b@, a@, i as int));
            return Comparison::Greater;
        }
        i = i + 1;
    }
    if i < b.len() {
        assert(splits_at(byte_order(), a@, b@, i as int));
        Comparison::Less
    } else if i < a.len() {
        assert(splits_at(byte_order(), b@, a@, i as int));
        Comparison::Greater
    } else {
        assert(a@ =~= b@);
        Comparison::Equal
    }
}

} // verus!
