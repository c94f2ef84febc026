//! Proofs about row-major indexing: positivity of sizes, bounds on
//! ranks and offsets, the rank/unrank round trip that makes the range
//! iterator a bijection onto the flat buffer, and the lexicographic
//! ordering of the enumeration.

use vstd::prelude::*;
use vstd::arithmetic::div_mod::{
    lemma_div_denominator,
    lemma_fundamental_div_mod,
    lemma_mod_division_less_than_divisor,
    lemma_multiply_divide_lt,
};
use vstd::arithmetic::mul::lemma_mul_is_commutative;
use crate::indexing::{
    bounds_wf,
    coord_at,
    coord_in_bounds,
    coord_matches,
    index_in_shape,
    lex_less,
    lex_less_from,
    local_shape,
    offset_from,
    rank_from,
    rank_of,
    spec_flat_offset,
    spec_flat_size,
    strides_match,
    suffix_size,
    unrank_digit,
    StaticRangeIterator,
};

verus! {

/// A suffix product is positive exactly when every dimension in the
/// suffix is positive. In particular a volume holds elements exactly
/// when no dimension is zero.
pub proof fn lemma_suffix_size_positive(shape: Seq<usize>, i: int)
    requires
        0 <= i <= shape.len(),
    ensures
        suffix_size(shape, i) > 0 <==> (forall|j: int| i <= j < shape.len() ==> shape[j] > 0),
    decreases shape.len() - i,
{
    if i < shape.len() {
        lemma_suffix_size_positive(shape, i + 1);
        assert(suffix_size(shape, i) == shape[i] as nat * suffix_size(shape, i + 1));
        let a = shape[i] as nat;
        let b = suffix_size(shape, i + 1);
        assert(a * b > 0 <==> a > 0 && b > 0) by (nonlinear_arith);
    }
}

/// Dropping the last dimension divides every suffix product by that
/// dimension's extent: for `i` within the shortened shape,
/// `suffix_size(shape, i) == suffix_size(shape.take(n-1), i) * shape[n-1]`.
pub proof fn lemma_suffix_size_take(shape: Seq<usize>, i: int)
    requires
        shape.len() > 0,
        0 <= i <= shape.len() - 1,
    ensures
        suffix_size(shape, i) == suffix_size(shape.take(shape.len() - 1), i) * shape[shape.len()
            - 1] as nat,
    decreases shape.len() - i,
{
    let n = shape.len() as int;
    let front = shape.take(n - 1);
    if i == n - 1 {
        let v = shape[n - 1] as nat;
        assert(suffix_size(shape, n - 1) == v * suffix_size(shape, n));
        assert(suffix_size(shape, n) == 1);
        assert(v * 1 == v) by (nonlinear_arith);
        assert(suffix_size(shape, n - 1) == v);
        assert(i == n - 1);
        assert(suffix_size(shape, i) == v);
        assert(front.len() == n - 1);
        assert(suffix_size(front, n - 1) == 1);
        assert(suffix_size(front, i) * v == 1 as nat * v);
        assert(1 as nat * v == v) by (nonlinear_arith);
        assert(suffix_size(front, i) * v == v);
    } else {
        lemma_suffix_size_take(shape, i + 1);
        assert(front[i] == shape[i]);
        let a = shape[i] as nat;
        let b = suffix_size(front, i + 1);
        let s = shape[n - 1] as nat;
        assert(suffix_size(shape, i) == a * (b * s));
        assert(suffix_size(front, i) == a * b);
        assert(a * (b * s) == (a * b) * s) by (nonlinear_arith);
    }
}

/// Dropping the last dimension of both shape and coordinate splits a
/// rank tail: the old tail is the new tail scaled by the last extent,
/// plus the last component.
pub proof fn lemma_rank_from_take(shape: Seq<usize>, coord: Seq<int>, i: int)
    requires
        coord.len() == shape.len(),
        shape.len() > 0,
        0 <= i <= shape.len() - 1,
    ensures
        rank_from(shape, coord, i) == shape[shape.len() - 1] as int * rank_from(
            shape.take(shape.len() - 1),
            coord.take(shape.len() - 1),
            i,
        ) + coord[shape.len() - 1],
    decreases shape.len() - i,
{
    let n = shape.len() as int;
    let fshape = shape.take(n - 1);
    let fcoord = coord.take(n - 1);
    let s = shape[n - 1] as int;
    if i == n - 1 {
        assert(rank_from(shape, coord, n - 1) == coord[n - 1] * suffix_size(shape, n) + rank_from(
            shape,
            coord,
            n,
        ));
        assert(suffix_size(shape, n) == 1);
        assert(coord[n - 1] * 1 == coord[n - 1]) by (nonlinear_arith);
        assert(rank_from(fshape, fcoord, n - 1) == 0);
        assert(s * 0 == 0) by (nonlinear_arith);
    } else {
        lemma_rank_from_take(shape, coord, i + 1);
        lemma_suffix_size_take(shape, i + 1);
        let a = coord[i];
        let b = suffix_size(fshape, i + 1) as int;
        let r = rank_from(fshape, fcoord, i + 1);
        assert(fcoord[i] == coord[i]);
        assert(rank_from(shape, coord, i) == a * (b * s) + (s * r + coord[n - 1]));
        assert(rank_from(fshape, fcoord, i) == a * b + r);
        assert(a * (b * s) + (s * r + coord[n - 1]) == s * (a * b + r) + coord[n - 1])
            by (nonlinear_arith);
    }
}

/// Every coordinate that a cursor inside the volume unranks to lies
/// within the shape's bounds.
pub proof fn lemma_coord_at_in_bounds(shape: Seq<usize>, c: int)
    requires
        0 <= c < spec_flat_size(shape),
    ensures
        coord_in_bounds(shape, coord_at(shape, c)),
{
    lemma_suffix_size_positive(shape, 0);
    assert forall|i: int| 0 <= i < shape.len() implies 0 <= #[trigger] coord_at(shape, c)[i]
        < shape[i] by {
        lemma_mod_division_less_than_divisor(
            c / suffix_size(shape, i + 1) as int,
            shape[i] as int,
        );
    }
}

/// Round trip of the per-step formula: taking the coordinate that a
/// cursor position unranks to, its row-major rank is that cursor again.
/// Hence distinct cursor positions yield distinct coordinates and the
/// enumeration covers the volume without repetition.
pub proof fn lemma_rank_unrank(shape: Seq<usize>, c: int)
    requires
        0 <= c < spec_flat_size(shape),
    ensures
        rank_of(shape, coord_at(shape, c)) == c,
    decreases shape.len(),
{
    let n = shape.len() as int;
    if n == 0 {
        assert(spec_flat_size(shape) == 1);
        assert(rank_from(shape, coord_at(shape, c), 0) == 0);
    } else {
        let s = shape[n - 1] as int;
        let front = shape.take(n - 1);
        lemma_suffix_size_positive(shape, 0);
        assert(s > 0);
        lemma_suffix_size_take(shape, 0);
        let cq = c / s;
        let cr = c % s;
        // The cursor for the shortened shape stays inside its volume.
        assert(c < suffix_size(front, 0) as int * s) by {
            lemma_mul_is_commutative(suffix_size(front, 0) as int, s);
        }
        assert(cq < suffix_size(front, 0)) by {
            lemma_multiply_divide_lt(c, s, suffix_size(front, 0) as int);
        }
        assert(cq >= 0) by {
            lemma_mod_division_less_than_divisor(c, s);
            lemma_fundamental_div_mod(c, s);
            assert(c == s * cq + cr);
            assert(cq >= 0) by (nonlinear_arith)
                requires
                    s > 0,
                    c >= 0,
                    cr < s,
                    c == s * cq + cr,
            ;
        }
        lemma_rank_unrank(front, cq);

        let coord = coord_at(shape, c);
        // The leading digits of `c` in `shape` agree with the digits of
        // `c / s` in the shortened shape.
        assert forall|i: int| 0 <= i < n - 1 implies coord[i] == coord_at(front, cq)[i] by {
            lemma_suffix_size_take(shape, i + 1);
            let b = suffix_size(front, i + 1) as int;
            assert(b > 0) by {
                lemma_suffix_size_positive(shape, 0);
                lemma_suffix_size_positive(front, i + 1);
            }
            assert((c / s) / b == c / (s * b)) by {
                lemma_div_denominator(c, s, b);
            }
            assert(s * b == b * s) by {
                lemma_mul_is_commutative(s, b);
            }
            assert(unrank_digit(shape, c, i) == (c / (b * s)) % shape[i] as int);
        }
        assert(coord.take(n - 1) =~= coord_at(front, cq));

        // The last digit of `c` is its remainder by the last extent.
        assert(suffix_size(shape, n) == 1);
        assert(coord[n - 1] == (c / 1) % s);
        assert(c / 1 == c);

        lemma_rank_from_take(shape, coord, 0);
        assert(rank_of(shape, coord) == s * cq + cr);
        lemma_fundamental_div_mod(c, s);
    }
}

/// The tail of a rank is bounded by the matching suffix product: an
/// in-bounds coordinate's rank from position `i` lies in
/// `[0, suffix_size(shape, i))`.
pub proof fn lemma_rank_from_bound(shape: Seq<usize>, coord: Seq<int>, i: int)
    requires
        coord_in_bounds(shape, coord),
        0 <= i <= shape.len(),
    ensures
        0 <= rank_from(shape, coord, i) <= suffix_size(shape, i) - 1,
    decreases shape.len() - i,
{
    if i == shape.len() {
        assert(rank_from(shape, coord, i) == 0);
        assert(suffix_size(shape, i) == 1);
    } else {
        lemma_rank_from_bound(shape, coord, i + 1);
        let a = coord[i];
        let d = shape[i] as int;
        let b = suffix_size(shape, i + 1) as int;
        let r = rank_from(shape, coord, i + 1);
        assert(suffix_size(shape, i) == shape[i] as nat * suffix_size(shape, i + 1));
        assert(0 <= a * b + r <= d * b - 1) by (nonlinear_arith)
            requires
                0 <= a <= d - 1,
                0 <= r <= b - 1,
                1 <= b,
        ;
    }
}

/// Under matching row-major strides, the flat offset of a coordinate
/// is its row-major rank: the dot product with the strides equals the
/// sum of digit-times-suffix-product terms.
pub proof fn lemma_offset_eq_rank(shape: Seq<usize>, strides: Seq<usize>, index: Seq<usize>, i: int)
    requires
        strides_match(shape, strides),
        index.len() == shape.len(),
        0 <= i <= shape.len(),
    ensures
        offset_from(index, strides, i) == rank_from(
            shape,
            index.map_values(|x: usize| x as int),
            i,
        ),
    decreases shape.len() - i,
{
    let coord = index.map_values(|x: usize| x as int);
    if i < shape.len() {
        lemma_offset_eq_rank(shape, strides, index, i + 1);
        assert(strides[i] == suffix_size(shape, i + 1));
        assert(coord[i] == index[i] as int);
    }
}

/// An in-bounds coordinate's flat offset under matching row-major
/// strides falls inside the flat buffer: it is less than the volume's
/// total element count.
pub proof fn lemma_offset_in_range(shape: Seq<usize>, strides: Seq<usize>, index: Seq<usize>)
    requires
        strides_match(shape, strides),
        index_in_shape(shape, index),
    ensures
        spec_flat_offset(index, strides) < spec_flat_size(shape),
    decreases shape.len(),
{
    let coord = index.map_values(|x: usize| x as int);
    assert(coord_in_bounds(shape, coord));
    lemma_offset_eq_rank(shape, strides, index, 0);
    lemma_rank_from_bound(shape, coord, 0);
}

/// A coordinate lexicographically below another (both within bounds)
/// has the strictly smaller rank tail from the first position still
/// being compared.
pub proof fn lemma_lex_rank_from(shape: Seq<usize>, a: Seq<int>, b: Seq<int>, i: int)
    requires
        coord_in_bounds(shape, a),
        coord_in_bounds(shape, b),
        lex_less_from(a, b, i),
        0 <= i,
    ensures
        rank_from(shape, a, i) < rank_from(shape, b, i),
    decreases shape.len() - i,
{
    let s1 = suffix_size(shape, i + 1) as int;
    assert forall|j: int| i + 1 <= j < shape.len() implies shape[j] > 0 by {
        assert(0 <= a[j] < shape[j]);
    }
    assert(s1 >= 1) by {
        lemma_suffix_size_positive(shape, i + 1);
    }
    if a[i] < b[i] {
        lemma_rank_from_bound(shape, a, i + 1);
        lemma_rank_from_bound(shape, b, i + 1);
        let ra = rank_from(shape, a, i + 1);
        let rb = rank_from(shape, b, i + 1);
        assert(a[i] * s1 + ra < b[i] * s1 + rb) by (nonlinear_arith)
            requires
                a[i] < b[i],
                0 <= ra <= s1 - 1,
                0 <= rb,
                1 <= s1,
        ;
    } else {
        lemma_lex_rank_from(shape, a, b, i + 1);
        assert(a[i] * s1 == b[i] * s1);
    }
}

/// Two same-length coordinates are lexicographically comparable from
/// any position: either they agree on the whole tail, or one of them
/// is lexicographically below the other.
pub proof fn lemma_lex_total_from(a: Seq<int>, b: Seq<int>, i: int)
    requires
        a.len() == b.len(),
        0 <= i <= a.len(),
    ensures
        (forall|j: int| i <= j < a.len() ==> a[j] == b[j]) || lex_less_from(a, b, i)
            || lex_less_from(b, a, i),
    decreases a.len() - i,
{
    if i < a.len() {
        if a[i] == b[i] {
            lemma_lex_total_from(a, b, i + 1);
        }
    }
}

/// The enumeration order law: of two cursor positions inside a
/// volume, the earlier one unranks to the lexicographically smaller
/// coordinate. Row-major iteration therefore emits coordinates in
/// strictly increasing lexicographic order, the last dimension varying
/// fastest.
pub proof fn lemma_enumeration_ordered(shape: Seq<usize>, c1: int, c2: int)
    requires
        0 <= c1 < c2 < spec_flat_size(shape),
    ensures
        lex_less(coord_at(shape, c1), coord_at(shape, c2)),
{
    let a = coord_at(shape, c1);
    let b = coord_at(shape, c2);
    lemma_coord_at_in_bounds(shape, c1);
    lemma_coord_at_in_bounds(shape, c2);
    lemma_rank_unrank(shape, c1);
    lemma_rank_unrank(shape, c2);
    lemma_lex_total_from(a, b, 0);
    if forall|j: int| 0 <= j < a.len() ==> a[j] == b[j] {
        assert(a =~= b);
        assert(false);
    } else if lex_less_from(b, a, 0) {
        lemma_lex_rank_from(shape, b, a, 0);
        assert(false);
    }
}

/// Shifting two lexicographically ordered coordinates by the same
/// per-component offsets keeps their order.
pub proof fn lemma_lex_shift(a: Seq<int>, b: Seq<int>, s: Seq<usize>, i: int)
    requires
        a.len() == b.len(),
        a.len() == s.len(),
        lex_less_from(a, b, i),
    ensures
        lex_less_from(
            Seq::new(a.len(), |j: int| a[j] + s[j]),
            Seq::new(b.len(), |j: int| b[j] + s[j]),
            i,
        ),
    decreases a.len() - i,
{
    if a[i] == b[i] {
        lemma_lex_shift(a, b, s, i + 1);
    }
}

/// The enumeration order law at the iterator: of two cursor positions
/// inside a range's volume, the earlier one is emitted as the
/// lexicographically smaller absolute coordinate. Row-major iteration
/// therefore produces coordinates in strictly increasing lexicographic
/// order, the last dimension varying fastest.
pub proof fn lemma_iterator_emits_in_order(it: StaticRangeIterator, c1: int, c2: int)
    requires
        it.wf(),
        0 <= c1 < c2 < it.flat_size,
    ensures
        lex_less(it.coord_at_cursor(c1), it.coord_at_cursor(c2)),
{
    let shape = it.shape@;
    let starts = it.range.starts@;
    lemma_enumeration_ordered(shape, c1, c2);
    lemma_lex_shift(coord_at(shape, c1), coord_at(shape, c2), starts, 0);
    assert(it.coord_at_cursor(c1) =~= Seq::new(
        shape.len(),
        |j: int| coord_at(shape, c1)[j] + starts[j],
    ));
    assert(it.coord_at_cursor(c2) =~= Seq::new(
        shape.len(),
        |j: int| coord_at(shape, c2)[j] + starts[j],
    ));
}

/// Every coordinate an iterator emits lies inside its range: each
/// component is at least the dimension's start and below its stop.
pub proof fn lemma_emitted_coord_in_range(it: StaticRangeIterator, c: int)
    requires
        it.wf(),
        0 <= c < it.flat_size,
    ensures
        forall|i: int| 0 <= i < it.rank() ==> it.range.starts@[i] <= #[trigger] it.coord_at_cursor(
            c,
        )[i] < it.range.stops@[i],
{
    let shape = it.shape@;
    lemma_coord_at_in_bounds(shape, c);
    assert forall|i: int| 0 <= i < it.rank() implies it.range.starts@[i]
        <= #[trigger] it.coord_at_cursor(c)[i] < it.range.stops@[i] by {
        assert(0 <= coord_at(shape, c)[i] < shape[i]);
    }
}

/// The round-trip law: the coordinate emitted at cursor `c` of a
/// row-major enumeration of `shape`, dotted with the row-major strides
/// of that shape, gives back exactly `c`. Across a whole iteration the
/// emitted coordinates therefore cover every flat offset in
/// `[0, flat_size)` exactly once: a bijection onto the buffer.
pub proof fn lemma_offset_round_trip(
    shape: Seq<usize>,
    strides: Seq<usize>,
    index: Seq<usize>,
    c: int,
)
    requires
        strides_match(shape, strides),
        0 <= c < spec_flat_size(shape),
        coord_matches(index, shape, c),
    ensures
        spec_flat_offset(index, strides) == c,
{
    lemma_coord_at_in_bounds(shape, c);
    assert(index.map_values(|x: usize| x as int) =~= coord_at(shape, c));
    lemma_offset_eq_rank(shape, strides, index, 0);
    lemma_rank_unrank(shape, c);
}

/// The empty-range law: if any dimension's stop equals its start, the
/// range spans a zero-sized volume and an enumeration of it yields no
/// coordinates at all.
pub proof fn lemma_empty_range(starts: Seq<usize>, stops: Seq<usize>, i: int)
    requires
        bounds_wf(starts, stops),
        0 <= i < starts.len(),
        starts[i] == stops[i],
    ensures
        spec_flat_size(local_shape(starts, stops)) == 0,
{
    let shape = local_shape(starts, stops);
    assert(shape[i] == 0);
    lemma_suffix_size_positive(shape, 0);
}

} // verus!
