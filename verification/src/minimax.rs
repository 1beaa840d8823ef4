//! The value the search is after: the minimax value of the tree of legal moves, the
//! maximizer and the minimizer moving in turn, with material at the leaves; and the law
//! that a search that was neither stopped nor answered from the table finds it.
use vstd::prelude::*;
use crate::game::{Position, make_spec};
use crate::types::PieceMove;
use crate::legal::legal_moves;
use crate::magic::MoveLookupTable;
use crate::zobrist::ZobristHashing;
use crate::transposition_table::{SearchResult, CollisionStrategy};
use crate::search_engine::{SearchPath, ChildSearch, search_outcome, child_values, table_before, ab_fold, ab_step,
    start_value, material};

verus! {

/// The better of two values for the side: the larger for the maximizer, the smaller for
/// the minimizer.
pub open spec fn better(is_max: bool, a: int, b: int) -> int {
    if is_max {
        if b > a { b } else { a }
    } else {
        if b < a { b } else { a }
    }
}

/// The best of the values for the side, starting from the worst value.
pub open spec fn pick_fold(is_max: bool, v: Seq<int>) -> int
    decreases v.len(),
{
    if v.len() == 0 {
        start_value(is_max)
    } else {
        better(is_max, pick_fold(is_max, v.drop_last()), v.last())
    }
}

/// The minimax value of a position `r` plies deep with `is_max` to move: the material at
/// depth 0 or without legal moves; otherwise the best, for the side to move, of the values
/// of the positions after its legal moves, each valued with the other side to move.
pub open spec fn minimax(p: Position, r: nat, is_max: bool, t: &MoveLookupTable, z: &ZobristHashing) -> int
    decreases r, 0nat,
{
    if r == 0 || legal_moves(p, t, z).len() == 0 {
        material(p.bitboard)
    } else {
        best_of(p, legal_moves(p, t, z), (r - 1) as nat, is_max, t, z)
    }
}

/// The best, for the side, of the minimax values (other side to move, `r` plies deep) of
/// the positions after the moves of `l`.
pub open spec fn best_of(p: Position, l: Seq<PieceMove>, r: nat, is_max: bool, t: &MoveLookupTable, z: &ZobristHashing) -> int
    decreases r, l.len(),
{
    if l.len() == 0 {
        start_value(is_max)
    } else {
        better(is_max, best_of(p, l.drop_last(), r, is_max, t, z), minimax(make_spec(p, l.last(), z), r, !is_max, t, z))
    }
}

/// A search result `e` in the window (`a`, `b`) against the true value `v`: exact inside
/// the window, an upper bound at or below it, a lower bound at or above it.
pub open spec fn fail_soft(e: int, v: int, a: int, b: int) -> bool {
    &&& (a < e < b ==> v == e)
    &&& (e <= a ==> v <= e)
    &&& (e >= b ==> v >= e)
}

/// No search along the path was stopped or answered from the table.
pub open spec fn plain(path: SearchPath) -> bool
    decreases path,
{
    match path {
        SearchPath::Stopped => false,
        SearchPath::Cached => false,
        SearchPath::Leaf => true,
        SearchPath::Inner(c) => forall|k: int| 0 <= k < c.len() ==> plain(#[trigger] c[k].path),
    }
}


/// The alpha-beta state after some children: its best value is the best of their values;
/// the maximizer's alpha is the larger of the first alpha and that best, its beta the first
/// beta; the minimizer's beta is the smaller of the first beta and that best, its alpha the
/// first alpha.
pub proof fn lemma_fold_window(is_max: bool, alpha: int, beta: int, e: Seq<int>)
    requires
        i32::MIN <= alpha,
        beta <= i32::MAX,
    ensures
        ({
            let st = ab_fold(is_max, (start_value(is_max), alpha, beta), e);
            &&& st.0 == pick_fold(is_max, e)
            &&& is_max ==> st.2 == beta && st.1 == (if st.0 > alpha { st.0 } else { alpha })
            &&& !is_max ==> st.1 == alpha && st.2 == (if st.0 < beta { st.0 } else { beta })
        }),
    decreases e.len(),
{
    if e.len() > 0 {
        lemma_fold_window(is_max, alpha, beta, e.drop_last());
    }
}

/// Each search among the children of a node returned a fail-soft result for its window;
/// then the best of the first `k` results and the best of the first `k` true values are
/// related as fail-soft alpha-beta promises.
proof fn lemma_fold_fail_soft(is_max: bool, alpha: int, beta: int, e: Seq<int>, v: Seq<int>, k: int)
    requires
        i32::MIN <= alpha < beta <= i32::MAX,
        e.len() == v.len(),
        0 <= k <= e.len(),
        forall|j: int| 1 <= j < e.len() ==> #[trigger] ab_fold(is_max, (start_value(is_max), alpha, beta), e.take(j)).2
            > ab_fold(is_max, (start_value(is_max), alpha, beta), e.take(j)).1,
        forall|j: int| 0 <= j < e.len() ==> fail_soft(#[trigger] e[j], v[j],
            ab_fold(is_max, (start_value(is_max), alpha, beta), e.take(j)).1,
            ab_fold(is_max, (start_value(is_max), alpha, beta), e.take(j)).2),
    ensures
        ({
            let b = pick_fold(is_max, e.take(k));
            let w = pick_fold(is_max, v.take(k));
            &&& is_max ==> (b < beta ==> w <= b) && (alpha < b < beta ==> w >= b) && (b >= beta ==> w >= b)
            &&& !is_max ==> (b > alpha ==> w >= b) && (alpha < b < beta ==> w <= b) && (b <= alpha ==> w <= b)
        }),
    decreases k,
{
    let start = (start_value(is_max), alpha, beta);
    if k == 0 {
        assert(e.take(0) =~= Seq::<int>::empty());
        assert(v.take(0) =~= Seq::<int>::empty());
    } else {
        let j = k - 1;
        lemma_fold_fail_soft(is_max, alpha, beta, e, v, j);
        assert(e.take(k).drop_last() =~= e.take(j));
        assert(v.take(k).drop_last() =~= v.take(j));
        assert(e.take(k).last() == e[j]);
        assert(v.take(k).last() == v[j]);
        lemma_fold_window(is_max, alpha, beta, e.take(j));
        let st = ab_fold(is_max, start, e.take(j));
        if j == 0 {
            assert(e.take(0) =~= Seq::<int>::empty());
        } else {
            assert(st.2 > st.1);
        }
        assert(st.2 > st.1);
        assert(fail_soft(e[j], v[j], st.1, st.2));
    }
}


/// The minimax values of the positions after the moves of `l` (other side to move, `r`
/// plies deep), in order.
pub open spec fn child_minimax(p: Position, l: Seq<PieceMove>, r: nat, is_max: bool, t: &MoveLookupTable, z: &ZobristHashing) -> Seq<int> {
    Seq::new(l.len(), |j: int| minimax(make_spec(p, l[j], z), r, !is_max, t, z))
}

/// The best over the first `k` moves is the best of their minimax values.
proof fn lemma_best_of_prefix(p: Position, l: Seq<PieceMove>, r: nat, is_max: bool, t: &MoveLookupTable, z: &ZobristHashing, k: int)
    requires
        0 <= k <= l.len(),
    ensures
        best_of(p, l.take(k), r, is_max, t, z) == pick_fold(is_max, child_minimax(p, l, r, is_max, t, z).take(k)),
    decreases k,
{
    let vs = child_minimax(p, l, r, is_max, t, z);
    if k == 0 {
        assert(l.take(0) =~= Seq::<PieceMove>::empty());
        assert(vs.take(0) =~= Seq::<int>::empty());
    } else {
        lemma_best_of_prefix(p, l, r, is_max, t, z, k - 1);
        assert(l.take(k).drop_last() =~= l.take(k - 1));
        assert(vs.take(k).drop_last() =~= vs.take(k - 1));
        assert(l.take(k).last() == l[k - 1]);
        assert(vs.take(k).last() == vs[k - 1]);
    }
}

/// The best over a whole list is at least as good for the side as the best over a prefix.
proof fn lemma_pick_prefix(is_max: bool, v: Seq<int>, k: int)
    requires
        0 <= k <= v.len(),
    ensures
        is_max ==> pick_fold(is_max, v) >= pick_fold(is_max, v.take(k)),
        !is_max ==> pick_fold(is_max, v) <= pick_fold(is_max, v.take(k)),
    decreases v.len(),
{
    if k == v.len() {
        assert(v.take(k) =~= v);
    } else {
        lemma_pick_prefix(is_max, v.drop_last(), k);
        assert(v.drop_last().take(k) =~= v.take(k));
    }
}

/// Alpha-beta finds the minimax value. A search of a node, neither stopped nor answered
/// from the table anywhere below, in the window (`alpha`, `beta`), returns a result that is
/// the node's minimax value (the sides moving in turn, to the depth limit, material at the
/// leaves) when it falls strictly inside the window, an upper bound of that value when it
/// is at most alpha, and a lower bound when it is at least beta.
pub proof fn lemma_search_fail_soft(
    path: SearchPath,
    r: int,
    table: Seq<SearchResult>,
    table_after: Seq<SearchResult>,
    p: Position,
    alpha: int,
    beta: int,
    depth: u8,
    max_depth: u8,
    is_max: bool,
    strategy: CollisionStrategy,
    t: &MoveLookupTable,
    z: &ZobristHashing,
)
    requires
        search_outcome(path, r, table, table_after, p, alpha, beta, depth, max_depth, is_max, strategy, t, z),
        plain(path),
        depth <= max_depth,
        i32::MIN <= alpha < beta <= i32::MAX,
    ensures
        fail_soft(r, minimax(p, (max_depth - depth) as nat, is_max, t, z), alpha, beta),
    decreases path,
{
    match path {
        SearchPath::Inner(c) => {
            let legal = legal_moves(p, t, z);
            let e = child_values(c);
            let n = c.len() as int;
            let rem = (max_depth - depth) as nat;
            let start = (start_value(is_max), alpha, beta);
            let vs = child_minimax(p, legal, (rem - 1) as nat, is_max, t, z);
            let v = vs.take(n);
            assert(e.len() == n);
            assert forall|j: int| 0 <= j < e.len() implies fail_soft(#[trigger] e[j], v[j],
                ab_fold(is_max, start, e.take(j)).1, ab_fold(is_max, start, e.take(j)).2) by {
                lemma_fold_window(is_max, alpha, beta, e.take(j));
                let st = ab_fold(is_max, start, e.take(j));
                if j == 0 {
                    assert(e.take(0) =~= Seq::<int>::empty());
                }
                assert(st.2 > st.1);
                assert(c[j].value == e[j]);
                assert(plain(c[j].path));
                lemma_search_fail_soft(c[j].path, c[j].value, table_before(table, c, j), c[j].table_after,
                    make_spec(p, legal[j], z), st.1, st.2, (depth + 1) as u8, max_depth, !is_max, strategy, t, z);
                assert(v[j] == minimax(make_spec(p, legal[j], z), (rem - 1) as nat, !is_max, t, z));
            }
            lemma_fold_fail_soft(is_max, alpha, beta, e, v, n);
            assert(e.take(n) =~= e);
            assert(v.take(n) =~= v);
            lemma_fold_window(is_max, alpha, beta, e);
            lemma_best_of_prefix(p, legal, (rem - 1) as nat, is_max, t, z, legal.len() as int);
            assert(legal.take(legal.len() as int) =~= legal);
            assert(vs.take(legal.len() as int) =~= vs);
            lemma_pick_prefix(is_max, vs, n);
            if n == legal.len() {
                assert(v =~= vs);
            }
        },
        _ => {},
    }
}


/// A material score lies strictly between the extremes of an `i32`.
proof fn lemma_material_bound(bb: Seq<u64>)
    ensures
        i32::MIN < material(bb) < i32::MAX,
{
    crate::bits::lemma_nbits(bb[0]);
    crate::bits::lemma_nbits(bb[1]);
    crate::bits::lemma_nbits(bb[2]);
    crate::bits::lemma_nbits(bb[3]);
    crate::bits::lemma_nbits(bb[4]);
    crate::bits::lemma_nbits(bb[6]);
    crate::bits::lemma_nbits(bb[7]);
    crate::bits::lemma_nbits(bb[8]);
    crate::bits::lemma_nbits(bb[9]);
    crate::bits::lemma_nbits(bb[10]);
}

/// A minimax value lies strictly between the extremes of an `i32`.
proof fn lemma_minimax_bound(p: Position, r: nat, is_max: bool, t: &MoveLookupTable, z: &ZobristHashing)
    ensures
        i32::MIN < minimax(p, r, is_max, t, z) < i32::MAX,
    decreases r, 0nat,
{
    if r == 0 || legal_moves(p, t, z).len() == 0 {
        lemma_material_bound(p.bitboard);
    } else {
        lemma_best_of_bound(p, legal_moves(p, t, z), (r - 1) as nat, is_max, t, z);
    }
}

/// The best over a nonempty list of moves lies strictly between the extremes of an `i32`.
proof fn lemma_best_of_bound(p: Position, l: Seq<PieceMove>, r: nat, is_max: bool, t: &MoveLookupTable, z: &ZobristHashing)
    requires
        l.len() > 0,
    ensures
        i32::MIN < best_of(p, l, r, is_max, t, z) < i32::MAX,
    decreases r, l.len(),
{
    lemma_minimax_bound(make_spec(p, l.last(), z), r, !is_max, t, z);
    if l.len() > 1 {
        lemma_best_of_bound(p, l.drop_last(), r, is_max, t, z);
    } else {
        assert(best_of(p, l.drop_last(), r, is_max, t, z) == start_value(is_max));
    }
}

/// With the window fully open, a search of a node that was neither stopped nor answered
/// from the table anywhere below returns exactly the node's minimax value: the sides
/// moving in turn, to the depth limit, with material at the leaves.
pub proof fn lemma_search_full_window(
    path: SearchPath,
    r: int,
    table: Seq<SearchResult>,
    table_after: Seq<SearchResult>,
    p: Position,
    depth: u8,
    max_depth: u8,
    is_max: bool,
    strategy: CollisionStrategy,
    t: &MoveLookupTable,
    z: &ZobristHashing,
)
    requires
        search_outcome(path, r, table, table_after, p, i32::MIN as int, i32::MAX as int, depth, max_depth, is_max,
            strategy, t, z),
        plain(path),
        depth <= max_depth,
    ensures
        r == minimax(p, (max_depth - depth) as nat, is_max, t, z),
{
    lemma_search_fail_soft(path, r, table, table_after, p, i32::MIN as int, i32::MAX as int, depth, max_depth,
        is_max, strategy, t, z);
    lemma_minimax_bound(p, (max_depth - depth) as nat, is_max, t, z);
}

} // verus!
