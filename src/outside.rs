//! The calls this library makes into code that Verus does not read, each
//! with the contract it is believed to meet.
use vstd::prelude::*;
use bit_vec::BitVec;
use rand::Rng;
use union_find::{QuickUnionUf, UnionBySize, UnionFind};

verus! {

/// The characters of a sequence of ASCII bytes.
pub open spec fn ascii_chars(b: Seq<u8>) -> Seq<char> {
    Seq::new(b.len(), |i: int| b[i] as char)
}

/// Every byte is below 128.
pub open spec fn all_ascii(b: Seq<u8>) -> bool {
    forall|i: int| 0 <= i < b.len() ==> #[trigger] b[i] < 128
}

/// Relies on `String::from_utf8`: ASCII bytes are valid UTF-8, and each
/// becomes the character of the same code.
#[verifier::external_body]
pub(crate) fn string_from_ascii(b: Vec<u8>) -> (r: String)
    requires
        all_ascii(b@),
    ensures
        r@ == ascii_chars(b@),
{
    String::from_utf8(b).unwrap()
}

/// union_find's quick-union disjoint-set forest, opaque to proofs; what
/// `find` answers is named by `uf_roots`.
#[verifier::external_type_specification]
#[verifier::external_body]
#[verifier::reject_recursive_types(V)]
pub struct ExQuickUnionUf<V>(QuickUnionUf<V>);

/// union_find's set-size weight, carried by each forest root.
#[verifier::external_type_specification]
#[verifier::external_body]
pub struct ExUnionBySize(UnionBySize);

/// bit_vec's packed vector of bits, opaque to proofs; its bits are named
/// by `bits_of`.
#[verifier::external_type_specification]
#[verifier::external_body]
#[verifier::reject_recursive_types(B)]
pub struct ExBitVec<B>(BitVec<B>);

/// What `find` answers for each element of a disjoint-set forest: the root
/// of its set.
pub uninterp spec fn uf_roots(u: QuickUnionUf<UnionBySize>) -> Seq<int>;

/// The bits held by a bit vector, in index order.
pub uninterp spec fn bits_of(v: BitVec) -> Seq<bool>;

/// Relies on `UnionFind::new` of `QuickUnionUf`: `n` elements, each the
/// root of its own set.
#[verifier::external_body]
pub(crate) fn uf_new(n: usize) -> (r: QuickUnionUf<UnionBySize>)
    ensures
        uf_roots(r).len() == n,
        forall|i: int| 0 <= i < n ==> #[trigger] uf_roots(r)[i] == i,
{
    <QuickUnionUf<UnionBySize> as UnionFind<UnionBySize>>::new(n)
}

/// Relies on `UnionFind::find` of `QuickUnionUf`: it returns the root of
/// the element's set, and its path halving moves no element to another
/// root. It indexes out of bounds past the last element.
#[verifier::external_body]
pub(crate) fn uf_find(u: &mut QuickUnionUf<UnionBySize>, k: usize) -> (r: usize)
    requires
        k < uf_roots(*old(u)).len(),
    ensures
        r == uf_roots(*old(u))[k as int],
        uf_roots(*final(u)) == uf_roots(*old(u)),
{
    u.find(k)
}

/// Relies on `UnionFind::union` of `QuickUnionUf`: when the two elements
/// have different roots, one root is linked under the other, so every member
/// of the two sets gets the same one of the two roots and no other element
/// changes root; it returns whether the roots differed.
#[verifier::external_body]
pub(crate) fn uf_union(u: &mut QuickUnionUf<UnionBySize>, a: usize, b: usize) -> (r: bool)
    requires
        a < uf_roots(*old(u)).len(),
        b < uf_roots(*old(u)).len(),
    ensures
        r == (uf_roots(*old(u))[a as int] != uf_roots(*old(u))[b as int]),
        uf_roots(*final(u)).len() == uf_roots(*old(u)).len(),
        uf_roots(*final(u))[a as int] == uf_roots(*old(u))[a as int]
            || uf_roots(*final(u))[a as int] == uf_roots(*old(u))[b as int],
        forall|i: int|
            0 <= i < uf_roots(*old(u)).len() ==> #[trigger] uf_roots(*final(u))[i] == if uf_roots(
                *old(u),
            )[i] == uf_roots(*old(u))[a as int] || uf_roots(*old(u))[i] == uf_roots(
                *old(u),
            )[b as int] {
                uf_roots(*final(u))[a as int]
            } else {
                uf_roots(*old(u))[i]
            },
{
    u.union(a, b)
}

/// Relies on `Clone` of `QuickUnionUf`: the copy has the same links.
#[verifier::external_body]
pub(crate) fn uf_clone(u: &QuickUnionUf<UnionBySize>) -> (r: QuickUnionUf<UnionBySize>)
    ensures
        uf_roots(r) == uf_roots(*u),
{
    u.clone()
}

/// Relies on `BitVec::from_elem`: `n` bits, each equal to `bit`.
#[verifier::external_body]
pub(crate) fn bits_new(n: usize, bit: bool) -> (r: BitVec)
    ensures
        bits_of(r) == Seq::new(n as nat, |i: int| bit),
{
    BitVec::from_elem(n, bit)
}

/// Relies on `BitVec::get`: the bit at an index below the length.
#[verifier::external_body]
pub(crate) fn bits_get(v: &BitVec, i: usize) -> (r: bool)
    requires
        i < bits_of(*v).len(),
    ensures
        r == bits_of(*v)[i as int],
{
    v.get(i).unwrap()
}

/// Relies on `BitVec::set`: writes one bit; it panics past the length.
#[verifier::external_body]
pub(crate) fn bits_set(v: &mut BitVec, i: usize, x: bool)
    requires
        i < bits_of(*old(v)).len(),
    ensures
        bits_of(*final(v)) == bits_of(*old(v)).update(i as int, x),
{
    v.set(i, x)
}

/// Relies on `Clone` of `BitVec`: the copy holds the same bits.
#[verifier::external_body]
pub(crate) fn bits_clone(v: &BitVec) -> (r: BitVec)
    ensures
        bits_of(r) == bits_of(*v),
{
    v.clone()
}

/// Relies on `Rng::gen_range` of rand's thread-local generator: a value in
/// `[0, n)`; it panics on an empty range.
#[verifier::external_body]
pub(crate) fn random_below(n: usize) -> (r: usize)
    requires
        n > 0,
    ensures
        r < n,
{
    rand::thread_rng().gen_range(0, n)
}

} // verus!
