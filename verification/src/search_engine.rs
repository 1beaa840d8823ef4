//! Minimax search with alpha-beta pruning over the legal moves, a material evaluation,
//! and a transposition table of searched nodes.
use vstd::prelude::*;
use std::sync::Arc;
use std::sync::atomic::AtomicBool;
use crate::bits::nbits;
use crate::types::{Color, PieceMove, uci_text};
use vstd::string::*;
use rayon::iter::ParallelIterator;
use rayon::slice::ParallelSlice;
use crate::game::{GameState, Position, make_spec, lemma_unmake_undoes_make, lemma_make_clocks};
use crate::legal::{legal_moves, sound, fits, lemma_fits_facts, lemma_sound_consistent, lemma_make_keeps_sound, lemma_turn_moves_fit};
use crate::magic::MoveLookupTable;
use crate::zobrist::ZobristHashing;
use crate::transposition_table::{TranspositionTable, NodeType, lookup_spec, BUCKET_SIZE, SearchResult, CollisionStrategy,
    stored_table, fresh_table};

verus! {

/// The value of a piece kind by bitboard position within a colour: pawn, bishop, knight,
/// rook, queen, king.
pub open spec fn piece_value(k: int) -> int {
    if k == 0 { 100 } else if k == 1 { 320 } else if k == 2 { 330 } else if k == 3 { 500 } else if k == 4 { 900 } else { 0 }
}

/// White's material minus Black's.
pub open spec fn material(bb: Seq<u64>) -> int {
    (nbits(bb[0]) * 100 + nbits(bb[1]) * 320 + nbits(bb[2]) * 330 + nbits(bb[3]) * 500 + nbits(bb[4]) * 900)
        - (nbits(bb[6]) * 100 + nbits(bb[7]) * 320 + nbits(bb[8]) * 330 + nbits(bb[9]) * 500 + nbits(bb[10]) * 900)
}

/// The number of nodes of the game tree below a position, `r` plies deep.
pub open spec fn tree_size(p: Position, r: nat, t: &MoveLookupTable, z: &ZobristHashing) -> nat
    decreases r, 0nat,
{
    if r == 0 {
        1
    } else {
        1 + tree_sum(p, legal_moves(p, t, z), (r - 1) as nat, t, z)
    }
}

/// The sizes of the trees below the moves of `l`, added up.
pub open spec fn tree_sum(p: Position, l: Seq<PieceMove>, r: nat, t: &MoveLookupTable, z: &ZobristHashing) -> nat
    decreases r, l.len(),
{
    if l.len() == 0 {
        0
    } else {
        tree_size(make_spec(p, l[0], z), r, t, z) + tree_sum(p, l.drop_first(), r, t, z)
    }
}

/// One more child: its value is appended to the values.
proof fn lemma_child_values_push(c: Seq<ChildSearch>, x: ChildSearch)
    ensures
        child_values(c.push(x)) == child_values(c).push(x.value),
        child_values(c.push(x)).len() == c.len() + 1,
        child_values(c).len() == c.len(),
{
    assert(child_values(c.push(x)) =~= child_values(c).push(x.value));
}

/// The sum over the moves from position `i` on is the size after move `i` plus the sum
/// over the rest; it is zero past the end.
proof fn lemma_tree_sum_step(p: Position, l: Seq<PieceMove>, i: int, r: nat, t: &MoveLookupTable, z: &ZobristHashing)
    requires
        0 <= i <= l.len(),
    ensures
        i < l.len() ==> tree_sum(p, l.skip(i), r, t, z) == tree_size(make_spec(p, l[i], z), r, t, z) + tree_sum(p, l.skip(i + 1), r, t, z),
        i == l.len() ==> tree_sum(p, l.skip(i), r, t, z) == 0,
{
    if i < l.len() {
        assert(l.skip(i).drop_first() =~= l.skip(i + 1));
        assert(l.skip(i)[0] == l[i]);
    } else {
        assert(l.skip(i) =~= Seq::<PieceMove>::empty());
    }
}

/// One step of alpha-beta at a node: the best value so far and the window after seeing a
/// child's value (the maximizer raises alpha, the minimizer lowers beta).
pub open spec fn ab_step(is_max: bool, st: (int, int, int), e: int) -> (int, int, int) {
    if is_max {
        let best = if e > st.0 { e } else { st.0 };
        (best, if best > st.1 { best } else { st.1 }, st.2)
    } else {
        let best = if e < st.0 { e } else { st.0 };
        (best, st.1, if best < st.2 { best } else { st.2 })
    }
}

/// Alpha-beta over the values of the children seen, in order.
pub open spec fn ab_fold(is_max: bool, st: (int, int, int), evals: Seq<int>) -> (int, int, int)
    decreases evals.len(),
{
    if evals.len() == 0 {
        st
    } else {
        ab_step(is_max, ab_fold(is_max, st, evals.drop_last()), evals.last())
    }
}

/// How a search of a node ended.
pub ghost enum SearchPath {
    /// The stop signal was read as set.
    Stopped,
    /// The table held a usable score.
    Cached,
    /// The depth limit was reached or there was no legal move: the material score.
    Leaf,
    /// The children were searched, in order, until the window closed.
    Inner(Seq<ChildSearch>),
}

/// The search of one child of a node: the value it returned, how it ended, and the table
/// it left behind.
pub ghost struct ChildSearch {
    pub value: int,
    pub path: SearchPath,
    pub table_after: Seq<SearchResult>,
}

/// The values of the children searched.
pub open spec fn child_values(c: Seq<ChildSearch>) -> Seq<int> {
    c.map_values(|x: ChildSearch| x.value)
}

/// The table the search of child `k` started from: the node's own for the first child,
/// the one the previous child left otherwise.
pub open spec fn table_before(table: Seq<SearchResult>, c: Seq<ChildSearch>, k: int) -> Seq<SearchResult> {
    if k == 0 { table } else { c[k - 1].table_after }
}

/// How a searched node's score is stored: at most alpha is an upper bound, at least
/// beta a lower bound, exact in between.
pub open spec fn node_kind(best: int, alpha: int, beta: int) -> NodeType {
    if best <= alpha {
        NodeType::UpperBound
    } else if best >= beta {
        NodeType::LowerBound
    } else {
        NodeType::Exact
    }
}

/// No search along the path read the stop signal as set.
pub open spec fn never_stopped(path: SearchPath) -> bool
    decreases path,
{
    match path {
        SearchPath::Stopped => false,
        SearchPath::Inner(c) => forall|k: int| 0 <= k < c.len() ==> never_stopped(#[trigger] c[k].path),
        _ => true,
    }
}

/// Whether the stop signal is set.
fn stop_requested(flag: &AtomicBool) -> bool {
    flag.load(std::sync::atomic::Ordering::SeqCst)
}

/// A minimax searcher with a maximum depth, a transposition table and a thread count.
#[derive(Debug, Clone)]
pub struct SearchEngine {
    pub max_depth: u8,
    pub transposition_table: TranspositionTable,
    pub num_threads: u8,
}

impl SearchEngine {
    /// A searcher of depth 6 on 4 threads with an empty table.
    pub fn new() -> (s: SearchEngine)
        ensures
            s.max_depth == 6,
            s.num_threads == 4,
            s.transposition_table.wf(),
            s.transposition_table.collision_detected == 0,
            s.transposition_table.lookup_table@ == fresh_table(),
            s.transposition_table.collision_strategy == CollisionStrategy::ReplaceWithShallowDepth,
    {
        SearchEngine { num_threads: 4, max_depth: 6, transposition_table: TranspositionTable::new() }
    }

    /// Searches the node with alpha-beta minimax to the maximum depth: reads the stop
    /// signal, when there is one, and searches the node with what was read (see
    /// `search_node`). Without a stop signal no search on the way is stopped.
    fn min_max(
        &mut self,
        alpha: i32,
        beta: i32,
        depth: u8,
        is_max: bool,
        node: &mut GameState,
        buffer: &mut Vec<PieceMove>,
        stop_signal: Option<&Arc<AtomicBool>>,
    ) -> (r: (i32, Ghost<SearchPath>))
        requires
            old(node).tables_ok(),
            sound(old(node).pos()),
            old(self).transposition_table.wf(),
            depth <= old(self).max_depth,
            old(node).halfmove_clock.0 + (old(self).max_depth - depth) < 255,
            old(node).fullmove_number.0 + (old(self).max_depth - depth) < 255,
            old(self).transposition_table.collision_detected + BUCKET_SIZE * tree_size(old(node).pos(),
                (old(self).max_depth - depth) as nat, &*old(node).move_lookup_table, &*old(node).zobrist_hashing) <= usize::MAX,
        ensures
            final(node).pos() == old(node).pos(),
            final(node).move_lookup_table == old(node).move_lookup_table,
            final(node).zobrist_hashing == old(node).zobrist_hashing,
            final(self).max_depth == old(self).max_depth,
            final(self).transposition_table.wf(),
            final(self).transposition_table.collision_strategy == old(self).transposition_table.collision_strategy,
            final(self).transposition_table.collision_detected <= old(self).transposition_table.collision_detected
                + BUCKET_SIZE * tree_size(old(node).pos(), (old(self).max_depth - depth) as nat,
                    &*old(node).move_lookup_table, &*old(node).zobrist_hashing),
            search_outcome(r.1@, r.0 as int, old(self).transposition_table.lookup_table@,
                final(self).transposition_table.lookup_table@, old(node).pos(), alpha as int, beta as int, depth,
                old(self).max_depth, is_max, old(self).transposition_table.collision_strategy,
                &*old(node).move_lookup_table, &*old(node).zobrist_hashing),
            stop_signal is None ==> never_stopped(r.1@),
        decreases old(self).max_depth - depth, 1nat,
    {
        let stopped = match stop_signal {
            Some(flag) => stop_requested(flag),
            None => false,
        };
        self.search_node(stopped, alpha, beta, depth, is_max, node, buffer, stop_signal)
    }

    /// Searches the node, given whether the stop signal was read as set: stops with 0 when
    /// it was, answers from the table when it can, scores leaves by material, and
    /// otherwise searches each legal move in turn, the maximizer raising alpha and the
    /// minimizer lowering beta, until the window closes. Leaves and searched nodes are
    /// stored in the table. The position is left as it was.
    fn search_node(
        &mut self,
        stopped: bool,
        alpha: i32,
        beta: i32,
        depth: u8,
        is_max: bool,
        node: &mut GameState,
        buffer: &mut Vec<PieceMove>,
        stop_signal: Option<&Arc<AtomicBool>>,
    ) -> (r: (i32, Ghost<SearchPath>))
        requires
            old(node).tables_ok(),
            sound(old(node).pos()),
            old(self).transposition_table.wf(),
            depth <= old(self).max_depth,
            old(node).halfmove_clock.0 + (old(self).max_depth - depth) < 255,
            old(node).fullmove_number.0 + (old(self).max_depth - depth) < 255,
            old(self).transposition_table.collision_detected + BUCKET_SIZE * tree_size(old(node).pos(),
                (old(self).max_depth - depth) as nat, &*old(node).move_lookup_table, &*old(node).zobrist_hashing) <= usize::MAX,
        ensures
            final(node).pos() == old(node).pos(),
            final(node).move_lookup_table == old(node).move_lookup_table,
            final(node).zobrist_hashing == old(node).zobrist_hashing,
            final(self).max_depth == old(self).max_depth,
            final(self).transposition_table.wf(),
            final(self).transposition_table.collision_strategy == old(self).transposition_table.collision_strategy,
            final(self).transposition_table.collision_detected <= old(self).transposition_table.collision_detected
                + BUCKET_SIZE * tree_size(old(node).pos(), (old(self).max_depth - depth) as nat,
                    &*old(node).move_lookup_table, &*old(node).zobrist_hashing),
            search_outcome(r.1@, r.0 as int, old(self).transposition_table.lookup_table@,
                final(self).transposition_table.lookup_table@, old(node).pos(), alpha as int, beta as int, depth,
                old(self).max_depth, is_max, old(self).transposition_table.collision_strategy,
                &*old(node).move_lookup_table, &*old(node).zobrist_hashing),
            stopped <==> r.1@ is Stopped,
            stop_signal is None && !stopped ==> never_stopped(r.1@),
        decreases old(self).max_depth - depth, 0nat,
    {
        if stopped {
            return (0, Ghost(SearchPath::Stopped));
        }
        let ghost p = node.pos();
        let ghost t = &*node.move_lookup_table;
        let ghost z = &*node.zobrist_hashing;
        let ghost rem = (self.max_depth - depth) as nat;
        let ghost cd0 = self.transposition_table.collision_detected;
        let ghost table0 = self.transposition_table.lookup_table@;
        let ghost strategy = self.transposition_table.collision_strategy;
        let entry_alpha = alpha;
        let entry_beta = beta;
        match self.transposition_table.try_get_from_cache(node.hash, depth, alpha, beta, is_max) {
            Some(score) => {
                return (score, Ghost(SearchPath::Cached));
            },
            None => {},
        }
        let mut alpha = alpha;
        let mut beta = beta;
        let count = node.collect_legal_moves(buffer);
        let ghost legal = buffer@;
        proof {
            if rem > 0 {
                assert(tree_size(p, rem, t, z) == 1 + tree_sum(p, legal, (rem - 1) as nat, t, z));
            }
            assert(tree_size(p, rem, t, z) >= 1);
        }
        if depth == self.max_depth || count == 0 {
            let score = self.score_heuristic(node);
            let stored = self.transposition_table.store_in_cache(node.hash, depth, score, is_max, NodeType::Exact);
            return (score, Ghost(SearchPath::Leaf));
        }
        let ghost total = tree_sum(p, legal, (rem - 1) as nat, t, z);
        let ghost start = (start_value(is_max), alpha as int, beta as int);
        let ghost mut children: Seq<ChildSearch> = Seq::empty();
        let mut best_value: i32 = if is_max { i32::MIN } else { i32::MAX };
        let mut i: usize = 0;
        proof {
            assert(legal.skip(0) =~= legal);
            assert(child_values(children) =~= Seq::<int>::empty());
        }
        while i < count
            invariant_except_break
                i > 0 ==> beta > alpha,
            invariant
                count == legal.len(),
                buffer@ == legal,
                0 < count,
                i <= count,
                children.len() == i,
                depth < self.max_depth,
                rem == (self.max_depth - depth) as nat,
                rem > 0,
                node.pos() == p,
                t == &*node.move_lookup_table,
                z == &*node.zobrist_hashing,
                node.tables_ok(),
                sound(p),
                p.half + rem < 255,
                p.full + rem < 255,
                self.transposition_table.wf(),
                self.transposition_table.collision_strategy == strategy,
                strategy == old(self).transposition_table.collision_strategy,
                self.max_depth == old(self).max_depth,
                forall|j: int| 0 <= j < legal.len() ==> fits(p, #[trigger] legal[j]),
                total == tree_sum(p, legal, (rem - 1) as nat, t, z),
                cd0 + BUCKET_SIZE * (1 + total) <= usize::MAX,
                self.transposition_table.collision_detected + BUCKET_SIZE * tree_sum(p, legal.skip(i as int), (rem - 1) as nat, t, z)
                    <= cd0 + BUCKET_SIZE * total,
                start == (start_value(is_max), entry_alpha as int, entry_beta as int),
                ab_fold(is_max, start, child_values(children)) == (best_value as int, alpha as int, beta as int),
                forall|k: int| 1 <= k < children.len() ==> #[trigger] ab_fold(is_max, start, child_values(children).take(k)).2
                    > ab_fold(is_max, start, child_values(children).take(k)).1,
                self.transposition_table.lookup_table@ == table_before(table0, children, i as int),
                forall|k: int| 0 <= k < children.len() ==> search_outcome(#[trigger] children[k].path, children[k].value,
                    table_before(table0, children, k), children[k].table_after, make_spec(p, legal[k], z),
                    ab_fold(is_max, start, child_values(children).take(k)).1,
                    ab_fold(is_max, start, child_values(children).take(k)).2, (depth + 1) as u8, self.max_depth, !is_max,
                    strategy, t, z),
                stop_signal is None ==> forall|k: int| 0 <= k < children.len() ==> never_stopped(#[trigger] children[k].path),
            ensures
                0 < children.len() <= count,
                ab_fold(is_max, start, child_values(children)) == (best_value as int, alpha as int, beta as int),
                children.len() < count ==> beta <= alpha,
                forall|k: int| 1 <= k < children.len() ==> #[trigger] ab_fold(is_max, start, child_values(children).take(k)).2
                    > ab_fold(is_max, start, child_values(children).take(k)).1,
                self.transposition_table.collision_detected + BUCKET_SIZE <= cd0 + BUCKET_SIZE * (1 + total),
                node.pos() == p,
                node.tables_ok(),
                self.transposition_table.wf(),
                self.transposition_table.collision_strategy == strategy,
                self.max_depth == old(self).max_depth,
                self.transposition_table.lookup_table@ == children.last().table_after,
                forall|k: int| 0 <= k < children.len() ==> search_outcome(#[trigger] children[k].path, children[k].value,
                    table_before(table0, children, k), children[k].table_after, make_spec(p, legal[k], z),
                    ab_fold(is_max, start, child_values(children).take(k)).1,
                    ab_fold(is_max, start, child_values(children).take(k)).2, (depth + 1) as u8, self.max_depth, !is_max,
                    strategy, t, z),
                stop_signal is None ==> forall|k: int| 0 <= k < children.len() ==> never_stopped(#[trigger] children[k].path),
            decreases count - i,
        {
            let piece_move = buffer[i];
            proof {
                assert(fits(p, legal[i as int]));
                lemma_sound_consistent(p);
                lemma_fits_facts(p, piece_move);
                lemma_make_clocks(p, piece_move, z);
                lemma_tree_sum_step(p, legal, i as int, (rem - 1) as nat, t, z);
                lemma_make_keeps_sound(p, piece_move, z);
                lemma_unmake_undoes_make(p, piece_move, z);
            }
            let ghost table_now = self.transposition_table.lookup_table@;
            let ghost window = (alpha as int, beta as int);
            node.make_move(&piece_move);
            let mut new_buffer: Vec<PieceMove> = Vec::new();
            let (eval, child_path) = self.min_max(alpha, beta, depth + 1, !is_max, node, &mut new_buffer, stop_signal);
            let taken_back = node.unmake_move();
            let ghost before = children;
            proof {
                let child = ChildSearch { value: eval as int, path: child_path@, table_after: self.transposition_table.lookup_table@ };
                children = children.push(child);
                lemma_child_values_push(before, child);
                assert(child_values(children).drop_last() =~= child_values(before));
                assert(child_values(children).take(i as int) =~= child_values(before));
                assert forall|k: int| 1 <= k < children.len() implies #[trigger] ab_fold(is_max, start, child_values(children).take(k)).2
                    > ab_fold(is_max, start, child_values(children).take(k)).1 by {
                    if k < before.len() {
                        assert(child_values(children).take(k) =~= child_values(before).take(k));
                    }
                }
                assert forall|k: int| 0 <= k < children.len() implies search_outcome(#[trigger] children[k].path, children[k].value,
                    table_before(table0, children, k), children[k].table_after, make_spec(p, legal[k], z),
                    ab_fold(is_max, start, child_values(children).take(k)).1,
                    ab_fold(is_max, start, child_values(children).take(k)).2, (depth + 1) as u8, self.max_depth, !is_max,
                    strategy, t, z) by {
                    if k < before.len() {
                        assert(child_values(children).take(k) =~= child_values(before).take(k));
                        assert(children[k] == before[k]);
                        assert(table_before(table0, children, k) == table_before(table0, before, k));
                    } else {
                        assert(table_before(table0, children, k) == table_now);
                    }
                }
                assert(stop_signal is None ==> forall|k: int| 0 <= k < children.len() ==> never_stopped(#[trigger] children[k].path)) by {
                    if stop_signal is None {
                        assert forall|k: int| 0 <= k < children.len() implies never_stopped(#[trigger] children[k].path) by {
                            if k < before.len() {
                                assert(children[k] == before[k]);
                            }
                        }
                    }
                }
            }
            if is_max {
                if eval > best_value {
                    best_value = eval;
                }
                if best_value > alpha {
                    alpha = best_value;
                }
            } else {
                if eval < best_value {
                    best_value = eval;
                }
                if best_value < beta {
                    beta = best_value;
                }
            }
            i = i + 1;
            if beta <= alpha {
                break;
            }
        }
        let node_type = if best_value <= entry_alpha {
            NodeType::UpperBound
        } else if best_value >= entry_beta {
            NodeType::LowerBound
        } else {
            NodeType::Exact
        };
        let stored = self.transposition_table.store_in_cache(node.hash, depth, best_value, is_max, node_type);
        proof {
            assert(node_type == node_kind(best_value as int, entry_alpha as int, entry_beta as int));
            assert(never_stopped(SearchPath::Inner(children)) <==> forall|k: int| 0 <= k < children.len()
                ==> never_stopped(#[trigger] children[k].path));
        }
        (best_value, Ghost(SearchPath::Inner(children)))
    }

    /// Scores each legal move of the game by a search of the position after it (the
    /// minimizer to move, from depth 0), and lists the moves' UCI texts with their scores
    /// from the highest score down, equal scores in generation order. The best move's text
    /// is returned first; "none" when there is no legal move.
    pub fn search(&mut self, game_state: &GameState) -> (r: (String, Vec<(String, i32)>))
        requires
            game_state.tables_ok(),
            sound(game_state.pos()),
            old(self).transposition_table.wf(),
            game_state.halfmove_clock.0 + old(self).max_depth + 1 < 255,
            game_state.fullmove_number.0 + old(self).max_depth + 1 < 255,
            old(self).transposition_table.collision_detected + BUCKET_SIZE * tree_size(game_state.pos(),
                (old(self).max_depth + 1) as nat, &*game_state.move_lookup_table, &*game_state.zobrist_hashing) <= usize::MAX,
        ensures
            ({
                let legal = legal_moves(game_state.pos(), &*game_state.move_lookup_table, &*game_state.zobrist_hashing);
                &&& r.1@.len() == legal.len()
                &&& exists|scores: Seq<i32>, order: Seq<usize>, runs: Seq<ChildSearch>| {
                    &&& scores.len() == legal.len()
                    &&& is_perm(order, legal.len() as int)
                    &&& sorted_desc(order, scores)
                    &&& forall|k: int| 0 <= k < legal.len() ==> (#[trigger] r.1@[k]).0@ == uci_text(legal[order[k] as int])
                        && r.1@[k].1 == scores[order[k] as int]
                    &&& scored_in_turn(runs, old(self).transposition_table.lookup_table@, game_state.pos(), legal,
                        old(self).max_depth, false, old(self).transposition_table.collision_strategy,
                        &*game_state.move_lookup_table, &*game_state.zobrist_hashing)
                    &&& forall|k: int| 0 <= k < legal.len() ==> scores[k] == #[trigger] runs[k].value
                        && never_stopped(runs[k].path)
                    &&& final(self).transposition_table.lookup_table@
                        == table_before(old(self).transposition_table.lookup_table@, runs, runs.len() as int)
                }
                &&& legal.len() == 0 ==> r.0@ == "none"@
                &&& legal.len() > 0 ==> r.0@ == r.1@[0].0@
            }),
            final(self).transposition_table.wf(),
            final(self).max_depth == old(self).max_depth,
            final(self).transposition_table.collision_strategy == old(self).transposition_table.collision_strategy,
    {
        let ghost p = game_state.pos();
        let ghost t = &*game_state.move_lookup_table;
        let ghost z = &*game_state.zobrist_hashing;
        let mut game = game_state.clone();
        let mut valid_moves: Vec<PieceMove> = Vec::new();
        let count = game.collect_legal_moves(&mut valid_moves);
        let ghost legal = valid_moves@;
        let ghost rem = (self.max_depth + 1) as nat;
        let ghost total = tree_sum(p, legal, (rem - 1) as nat, t, z);
        let ghost cd0 = self.transposition_table.collision_detected;
        proof {
            assert(tree_size(p, rem, t, z) == 1 + total);
            assert(legal.skip(0) =~= legal);
        }
        let mut names: Vec<String> = Vec::new();
        let mut scores: Vec<i32> = Vec::new();
        let ghost table0 = self.transposition_table.lookup_table@;
        let ghost strategy = self.transposition_table.collision_strategy;
        let ghost mut runs: Seq<ChildSearch> = Seq::empty();
        let mut i: usize = 0;
        while i < count
            invariant
                count == legal.len(),
                valid_moves@ == legal,
                i <= count,
                names@.len() == i,
                scores@.len() == i,
                runs.len() == i,
                self.transposition_table.lookup_table@ == table_before(table0, runs, i as int),
                self.transposition_table.collision_strategy == strategy,
                forall|k: int| 0 <= k < i ==> search_outcome(#[trigger] runs[k].path, runs[k].value,
                    table_before(table0, runs, k), runs[k].table_after, make_spec(p, legal[k], z), i32::MIN as int,
                    i32::MAX as int, 0, self.max_depth, false, strategy, t, z)
                    && never_stopped(runs[k].path) && scores@[k] == runs[k].value,
                forall|k: int| 0 <= k < i ==> (#[trigger] names@[k])@ == uci_text(legal[k]),
                game.pos() == p,
                t == &*game.move_lookup_table,
                z == &*game.zobrist_hashing,
                game.tables_ok(),
                sound(p),
                rem == (self.max_depth + 1) as nat,
                p.half + rem < 255,
                p.full + rem < 255,
                self.transposition_table.wf(),
                self.max_depth == old(self).max_depth,
                forall|j: int| 0 <= j < legal.len() ==> fits(p, #[trigger] legal[j]),
                total == tree_sum(p, legal, (rem - 1) as nat, t, z),
                cd0 + BUCKET_SIZE * (1 + total) <= usize::MAX,
                self.transposition_table.collision_detected + BUCKET_SIZE * tree_sum(p, legal.skip(i as int), (rem - 1) as nat, t, z)
                    <= cd0 + BUCKET_SIZE * total,
            decreases count - i,
        {
            let valid_move = valid_moves[i];
            proof {
                assert(fits(p, legal[i as int]));
                lemma_sound_consistent(p);
                lemma_fits_facts(p, valid_move);
                lemma_make_clocks(p, valid_move, z);
                lemma_tree_sum_step(p, legal, i as int, (rem - 1) as nat, t, z);
                lemma_make_keeps_sound(p, valid_move, z);
                lemma_unmake_undoes_make(p, valid_move, z);
            }
            game.make_move(&valid_move);
            let mut buffer: Vec<PieceMove> = Vec::new();
            let (score, path) = self.min_max(i32::MIN, i32::MAX, 0, false, &mut game, &mut buffer, None);
            let taken_back = game.unmake_move();
            names.push(valid_move.uci());
            scores.push(score);
            let ghost before = runs;
            proof {
                runs = runs.push(ChildSearch { value: score as int, path: path@, table_after: self.transposition_table.lookup_table@ });
                assert forall|k: int| 0 <= k < i + 1 implies search_outcome(#[trigger] runs[k].path, runs[k].value,
                    table_before(table0, runs, k), runs[k].table_after, make_spec(p, legal[k], z), i32::MIN as int,
                    i32::MAX as int, 0, self.max_depth, false, strategy, t, z)
                    && never_stopped(runs[k].path) && scores@[k] == runs[k].value by {
                    if k < i {
                        assert(runs[k] == before[k]);
                        assert(table_before(table0, runs, k) == table_before(table0, before, k));
                    }
                }
            }
            i = i + 1;
        }
        if count == 0 {
            let none = "none".to_owned();
            proof {
                reveal_strlit("none");
            }
            let empty: Vec<(String, i32)> = Vec::new();
            proof {
                let sc = Seq::<i32>::empty();
                let od = Seq::<usize>::empty();
                assert(is_perm(od, 0) && sorted_desc(od, sc));
                assert(scored_in_turn(runs, table0, p, legal, self.max_depth, false, strategy, t, z));
            }
            return (none, empty);
        }
        let order = stable_order_desc(&scores);
        let mut result: Vec<(String, i32)> = Vec::new();
        let mut k: usize = 0;
        while k < count
            invariant
                k <= count,
                count == legal.len(),
                count == names@.len(),
                count == scores@.len(),
                is_perm(order@, count as int),
                result@.len() == k,
                forall|q: int| 0 <= q < count ==> (#[trigger] names@[q])@ == uci_text(legal[q]),
                forall|q: int| 0 <= q < k ==> (#[trigger] result@[q]).0@ == uci_text(legal[order@[q] as int])
                    && result@[q].1 == scores@[order@[q] as int],
            decreases count - k,
        {
            let j = order[k];
            let name = names[j].clone();
            result.push((name, scores[j]));
            k = k + 1;
        }
        let best = result[0].0.clone();
        proof {
            assert(scores@.len() == legal.len() && is_perm(order@, legal.len() as int) && sorted_desc(order@, scores@)
                && forall|q: int| 0 <= q < legal.len() ==> (#[trigger] result@[q]).0@ == uci_text(legal[order@[q] as int])
                    && result@[q].1 == scores@[order@[q] as int]);
            assert(scored_in_turn(runs, table0, p, legal, self.max_depth, false, strategy, t, z));
            assert(forall|k: int| 0 <= k < legal.len() ==> scores@[k] == #[trigger] runs[k].value && never_stopped(runs[k].path));
        }
        (best, result)
    }

    /// Iterative deepening over one chunk of moves: for each depth from 1 to `max_depth`,
    /// unless the stop signal is set before it starts, a fresh searcher of that depth scores
    /// every move of the chunk (the position after the move, searched from depth 0 with
    /// `is_max` to move). A depth the stop signal interrupts is dropped and the work ends.
    /// Returns the results of the completed depths in order, each as the move's UCI text,
    /// its score and the depth, and the last completed depth (0 when none completed).
    pub fn deepen_chunk(game: &GameState, chunk: &[PieceMove], is_max: bool, max_depth: u8, stop_signal: &Arc<AtomicBool>)
        -> (r: (Vec<(String, i32, u8)>, u8))
        requires
            game.tables_ok(),
            sound(game.pos()),
            game.halfmove_clock.0 + max_depth + 1 < 255,
            game.fullmove_number.0 + max_depth + 1 < 255,
            forall|k: int| 0 <= k < chunk@.len() ==>
                legal_moves(game.pos(), &*game.move_lookup_table, &*game.zobrist_hashing).contains(#[trigger] chunk@[k]),
            forall|d: int| 1 <= d <= max_depth ==> BUCKET_SIZE * #[trigger] tree_sum(game.pos(), chunk@, d as nat,
                &*game.move_lookup_table, &*game.zobrist_hashing) <= usize::MAX,
        ensures
            r.1 <= max_depth,
            r.0@.len() == r.1 * chunk@.len(),
            forall|j: int| 0 <= j < r.0@.len() ==> (#[trigger] r.0@[j]).0@ == uci_text(chunk@[j % chunk@.len() as int])
                && r.0@[j].2 == j / chunk@.len() as int + 1,
            exists|runs: Seq<ChildSearch>| {
                &&& runs.len() == r.0@.len()
                &&& deepened_in_turn(runs, game.pos(), chunk@, is_max, &*game.move_lookup_table, &*game.zobrist_hashing)
                &&& forall|j: int| 0 <= j < runs.len() ==> (#[trigger] r.0@[j]).1 == runs[j].value
            },
    {
        let ghost p = game.pos();
        let ghost t = &*game.move_lookup_table;
        let ghost z = &*game.zobrist_hashing;
        let ghost l = chunk@;
        let n = chunk.len();
        proof {
            lemma_turn_moves_fit(p, t);
            crate::legal::lemma_safe_moves_fit(p, crate::legal::turn_moves(p, t), t, z);
            assert forall|k: int| 0 <= k < n implies fits(p, #[trigger] l[k]) by {
                assert(legal_moves(p, t, z).contains(l[k]));
                let j = choose|j: int| 0 <= j < legal_moves(p, t, z).len() && legal_moves(p, t, z)[j] == l[k];
                assert(fits(p, legal_moves(p, t, z)[j]));
            }
            assert(l.skip(0) =~= l);
        }
        let mut thread_results: Vec<(String, i32, u8)> = Vec::new();
        let ghost mut runs: Seq<ChildSearch> = Seq::empty();
        let mut last_completed: u8 = 0;
        let mut depth: u8 = 1;
        while depth <= max_depth
            invariant
                1 <= depth <= max_depth + 1,
                last_completed == depth - 1,
                max_depth < 254,
                n == l.len(),
                l == chunk@,
                game.pos() == p,
                t == &*game.move_lookup_table,
                z == &*game.zobrist_hashing,
                game.tables_ok(),
                sound(p),
                p.half + max_depth + 1 < 255,
                p.full + max_depth + 1 < 255,
                forall|k: int| 0 <= k < n ==> fits(p, #[trigger] l[k]),
                forall|d: int| 1 <= d <= max_depth ==> BUCKET_SIZE * #[trigger] tree_sum(p, l, d as nat, t, z) <= usize::MAX,
                thread_results@.len() == last_completed * n,
                forall|j: int| 0 <= j < thread_results@.len() ==> (#[trigger] thread_results@[j]).0@ == uci_text(l[j % n as int])
                    && thread_results@[j].2 == j / n as int + 1,
                runs.len() == thread_results@.len(),
                deepened_in_turn(runs, p, l, is_max, t, z),
                forall|j: int| 0 <= j < runs.len() ==> (#[trigger] thread_results@[j]).1 == runs[j].value,
            decreases max_depth + 1 - depth,
        {
            if stop_requested(stop_signal) {
                break;
            }
            let mut engine = SearchEngine::new();
            engine.max_depth = depth;
            let mut current = game.clone();
            let mut depth_results: Vec<(String, i32, u8)> = Vec::new();
            let ghost mut row: Seq<ChildSearch> = Seq::empty();
            let ghost total = tree_sum(p, l, depth as nat, t, z);
            proof {
                let di = depth as int;
                assert(1 <= di <= max_depth);
                assert(BUCKET_SIZE * tree_sum(p, l, di as nat, t, z) <= usize::MAX);
                assert(l.skip(0) =~= l);
            }
            let mut i: usize = 0;
            while i < n
                invariant
                    i <= n,
                    n == l.len(),
                    l == chunk@,
                    1 <= depth <= max_depth,
                    max_depth < 254,
                    current.pos() == p,
                    t == &*current.move_lookup_table,
                    z == &*current.zobrist_hashing,
                    current.tables_ok(),
                    sound(p),
                    p.half + max_depth + 1 < 255,
                    p.full + max_depth + 1 < 255,
                    engine.transposition_table.wf(),
                    engine.max_depth == depth,
                    forall|k: int| 0 <= k < n ==> fits(p, #[trigger] l[k]),
                    total == tree_sum(p, l, depth as nat, t, z),
                    BUCKET_SIZE * total <= usize::MAX,
                    engine.transposition_table.collision_detected + BUCKET_SIZE * tree_sum(p, l.skip(i as int), depth as nat, t, z)
                        <= BUCKET_SIZE * total,
                    depth_results@.len() == i,
                    forall|k: int| 0 <= k < i ==> (#[trigger] depth_results@[k]).0@ == uci_text(l[k]) && depth_results@[k].2 == depth,
                    last_completed == depth - 1,
                    thread_results@.len() == last_completed * n,
                    forall|j: int| 0 <= j < thread_results@.len() ==> (#[trigger] thread_results@[j]).0@ == uci_text(l[j % n as int])
                        && thread_results@[j].2 == j / n as int + 1,
                    runs.len() == thread_results@.len(),
                    deepened_in_turn(runs, p, l, is_max, t, z),
                    forall|j: int| 0 <= j < runs.len() ==> (#[trigger] thread_results@[j]).1 == runs[j].value,
                    row.len() == i,
                    game.pos() == p,
                    t == &*game.move_lookup_table,
                    z == &*game.zobrist_hashing,
                    engine.transposition_table.collision_strategy == CollisionStrategy::ReplaceWithShallowDepth,
                    engine.transposition_table.lookup_table@ == (if i == 0 { fresh_table() } else { row[i - 1].table_after }),
                    forall|k: int| 0 <= k < i ==> search_outcome(#[trigger] row[k].path, row[k].value,
                        if k == 0 { fresh_table() } else { row[k - 1].table_after }, row[k].table_after,
                        make_spec(p, l[k], z), i32::MIN as int, i32::MAX as int, 0, depth, is_max,
                        CollisionStrategy::ReplaceWithShallowDepth, t, z)
                        && depth_results@[k].1 == row[k].value,
                    forall|k: int| 0 <= k < i ==> depth_results@[k].1 == #[trigger] row[k].value,
                decreases n - i,
            {
                let mv = chunk[i];
                proof {
                    assert(fits(p, l[i as int]));
                    lemma_sound_consistent(p);
                    lemma_fits_facts(p, mv);
                    lemma_make_clocks(p, mv, z);
                    lemma_tree_sum_step(p, l, i as int, depth as nat, t, z);
                    lemma_make_keeps_sound(p, mv, z);
                    lemma_unmake_undoes_make(p, mv, z);
                }
                current.make_move(&mv);
                let mut buffer: Vec<PieceMove> = Vec::new();
                let ghost table_now = engine.transposition_table.lookup_table@;
                let (score, path) = engine.min_max(i32::MIN, i32::MAX, 0, is_max, &mut current, &mut buffer, Some(stop_signal));
                let taken_back = current.unmake_move();
                if stop_requested(stop_signal) {
                    proof {
                        assert(runs.len() == thread_results@.len() && deepened_in_turn(runs, p, l, is_max, t, z)
                            && forall|j: int| 0 <= j < runs.len() ==> (#[trigger] thread_results@[j]).1 == runs[j].value);
                    }
                    return (thread_results, last_completed);
                }
                depth_results.push((mv.uci(), score, depth));
                let ghost row_before = row;
                proof {
                    row = row.push(ChildSearch { value: score as int, path: path@, table_after: engine.transposition_table.lookup_table@ });
                    assert forall|k: int| 0 <= k < i + 1 implies search_outcome(#[trigger] row[k].path, row[k].value,
                        if k == 0 { fresh_table() } else { row[k - 1].table_after }, row[k].table_after,
                        make_spec(p, l[k], z), i32::MIN as int, i32::MAX as int, 0, depth, is_max,
                        CollisionStrategy::ReplaceWithShallowDepth, t, z)
                        && depth_results@[k].1 == row[k].value by {
                        if k < i {
                            assert(row[k] == row_before[k]);
                            if k > 0 {
                                assert(row[k - 1] == row_before[k - 1]);
                            }
                        }
                    }
                    assert forall|k: int| 0 <= k < i + 1 implies depth_results@[k].1 == #[trigger] row[k].value by {
                        if k < i {
                            assert(row[k] == row_before[k]);
                        }
                    }
                }
                i = i + 1;
            }
            let ghost before = thread_results@;
            let ghost row_entries = depth_results@;
            let ghost runs_before = runs;
            thread_results.append(&mut depth_results);
            proof {
                runs = runs + row;
                assert forall|j: int| 0 <= j < thread_results@.len() implies (#[trigger] thread_results@[j]).0@ == uci_text(l[j % n as int])
                    && thread_results@[j].2 == j / n as int + 1 by {
                    if j >= before.len() {
                        let q = j - before.len();
                        assert(thread_results@[j] == row_entries[q]);
                        lemma_row_index(last_completed as int, n as int, q);
                    }
                }
                assert forall|j: int| 0 <= j < runs.len() implies (#[trigger] thread_results@[j]).1 == runs[j].value by {
                    if j >= before.len() {
                        let q = j - before.len();
                        assert(thread_results@[j] == row_entries[q]);
                        assert(runs[j] == row[q]);
                    } else {
                        assert(runs[j] == runs_before[j]);
                        assert(thread_results@[j] == before[j]);
                    }
                }
                let nn = n as int;
                assert forall|j: int| 0 <= j < runs.len() implies search_outcome(#[trigger] runs[j].path, runs[j].value,
                    if j % nn == 0 { fresh_table() } else { runs[j - 1].table_after }, runs[j].table_after,
                    make_spec(p, l[j % nn], z), i32::MIN as int, i32::MAX as int, 0, (j / nn + 1) as u8, is_max,
                    CollisionStrategy::ReplaceWithShallowDepth, t, z) by {
                    if j >= before.len() {
                        let q = j - before.len();
                        lemma_row_index(last_completed as int, nn, q);
                        assert(runs[j] == row[q]);
                        if q > 0 {
                            lemma_row_index(last_completed as int, nn, q - 1);
                            assert(runs[j - 1] == row[q - 1]);
                        }
                    } else {
                        assert(runs[j] == runs_before[j]);
                        if j > 0 {
                            assert(runs[j - 1] == runs_before[j - 1]);
                        }
                    }
                }
                assert(thread_results@.len() == depth * n) by (nonlinear_arith)
                    requires thread_results@.len() == before.len() + n, before.len() == (depth - 1) * n;
            }
            last_completed = depth;
            depth = depth + 1;
        }
        proof {
            assert(runs.len() == thread_results@.len() && deepened_in_turn(runs, p, l, is_max, t, z)
                && forall|j: int| 0 <= j < runs.len() ==> (#[trigger] thread_results@[j]).1 == runs[j].value);
        }
        (thread_results, last_completed)
    }

    /// White's material minus Black's: pawn 100, bishop 320, knight 330, rook 500, queen 900.
    pub fn score_heuristic(&self, game: &GameState) -> (score: i32)
        ensures
            score == material(game.bitboard@),
    {
        let values: [u32; 6] = [100, 320, 330, 500, 900, 0];
        let mut white_sum: i32 = 0;
        let mut black_sum: i32 = 0;
        let mut i: usize = 0;
        while i < 12
            invariant
                i <= 12,
                values@ == seq![100u32, 320u32, 330u32, 500u32, 900u32, 0u32],
                white_sum == partial_material(game.bitboard@, 0, if i < 6 { i as int } else { 6 }),
                black_sum == (if i <= 6 { 0 } else { partial_material(game.bitboard@, 6, i as int) }),
                0 <= white_sum <= 57600 * i,
                0 <= black_sum <= 57600 * i,
            decreases 12 - i,
        {
            let num_bits = crate::bits::bit_count(game.bitboard[i]) as u32;
            let k = i % 6;
            let v = values[k];
            proof {
                assert(v as int == piece_value(k as int));
                assert(num_bits * v <= 57600) by (nonlinear_arith)
                    requires
                        num_bits <= 64,
                        v <= 900;
            }
            let score = num_bits * v;
            proof {
                assert(partial_material(game.bitboard@, 6, 6) == 0);
                assert(partial_material(game.bitboard@, 0, 0) == 0);
            }
            if i < 6 {
                white_sum = white_sum + score as i32;
            } else {
                black_sum = black_sum + score as i32;
            }
            i = i + 1;
        }
        proof {
            reveal_with_fuel(partial_material, 7);
        }
        white_sum - black_sum
    }
}

/// The score a window starts from: the worst value for the side.
pub open spec fn start_value(is_max: bool) -> int {
    if is_max { i32::MIN as int } else { i32::MAX as int }
}

/// What a search of a node returned and the table it left, by how it ended: 0 and the
/// table unchanged when stopped; the stored score when the table held a usable one; the
/// material score at the depth limit or without legal moves, stored as exact; otherwise
/// alpha-beta over the children's values, which ends at the last child or as soon as
/// the window closes, each child searched (the other side to move, one ply deeper) in the
/// window of that moment from the table the previous child left, and the node's score
/// stored with its bound kind.
pub open spec fn search_outcome(
    path: SearchPath,
    r: int,
    table: Seq<SearchResult>,
    table_after: Seq<SearchResult>,
    p: Position,
    alpha: int,
    beta: int,
    depth: u8,
    max_depth: u8,
    is_max: bool,
    strategy: CollisionStrategy,
    t: &MoveLookupTable,
    z: &ZobristHashing,
) -> bool
    decreases path,
{
    let cached = lookup_spec(table, p.hash, depth, alpha as i32, beta as i32, is_max);
    match path {
        SearchPath::Stopped => r == 0 && table_after == table,
        SearchPath::Cached => cached == Some(r as i32) && table_after == table,
        SearchPath::Leaf => {
            &&& cached is None
            &&& (depth == max_depth || legal_moves(p, t, z).len() == 0)
            &&& r == material(p.bitboard)
            &&& table_after == stored_table(table, p.hash, depth, r as i32, is_max, NodeType::Exact, strategy)
        },
        SearchPath::Inner(c) => {
            let evals = child_values(c);
            let legal = legal_moves(p, t, z);
            let start = (start_value(is_max), alpha, beta);
            let st = ab_fold(is_max, start, evals);
            &&& cached is None
            &&& depth < max_depth
            &&& 0 < evals.len() <= legal.len()
            &&& r == st.0
            &&& (evals.len() < legal.len() ==> st.2 <= st.1)
            &&& forall|k: int| 1 <= k < evals.len() ==> #[trigger] ab_fold(is_max, start, evals.take(k)).2
                > ab_fold(is_max, start, evals.take(k)).1
            &&& forall|k: int| 0 <= k < c.len() ==> search_outcome(#[trigger] c[k].path, c[k].value, table_before(table, c, k),
                c[k].table_after, make_spec(p, legal[k], z), ab_fold(is_max, start, evals.take(k)).1,
                ab_fold(is_max, start, evals.take(k)).2, (depth + 1) as u8, max_depth, !is_max, strategy, t, z)
            &&& table_after == stored_table(c.last().table_after, p.hash, depth, r as i32, is_max,
                node_kind(r, alpha, beta), strategy)
        },
    }
}

/// Each move of `legal` in turn was searched from the position after it (from depth 0
/// with the full window, `is_max` to move, to depth `max_depth`), each search starting
/// from the table the previous one left.
pub open spec fn scored_in_turn(runs: Seq<ChildSearch>, table: Seq<SearchResult>, p: Position, legal: Seq<PieceMove>,
    max_depth: u8, is_max: bool, strategy: CollisionStrategy, t: &MoveLookupTable, z: &ZobristHashing) -> bool {
    &&& runs.len() == legal.len()
    &&& forall|k: int| 0 <= k < runs.len() ==> search_outcome(#[trigger] runs[k].path, runs[k].value,
        table_before(table, runs, k), runs[k].table_after, make_spec(p, legal[k], z), i32::MIN as int, i32::MAX as int,
        0, max_depth, is_max, strategy, t, z)
}

/// The order lists positions of `scores` from the highest score down, equal scores in
/// their given order.
pub open spec fn sorted_desc(order: Seq<usize>, scores: Seq<i32>) -> bool {
    forall|a: int, b: int| 0 <= a < b < order.len() ==>
        scores[#[trigger] order[a] as int] > scores[#[trigger] order[b] as int]
        || (scores[order[a] as int] == scores[order[b] as int] && order[a] < order[b])
}

/// Entry `j` of deepening a chunk of `n` moves was searched at depth `j / n + 1` from the
/// position after move `j % n` (from depth 0 with the full window, `is_max` to move), by
/// a fresh searcher for the first move of each depth and from the table the previous
/// search of that depth left otherwise.
pub open spec fn deepened_in_turn(runs: Seq<ChildSearch>, p: Position, chunk: Seq<PieceMove>, is_max: bool,
    t: &MoveLookupTable, z: &ZobristHashing) -> bool {
    let n = chunk.len() as int;
    forall|j: int| 0 <= j < runs.len() ==> search_outcome(#[trigger] runs[j].path, runs[j].value,
        if j % n == 0 { fresh_table() } else { runs[j - 1].table_after }, runs[j].table_after,
        make_spec(p, chunk[j % n], z), i32::MIN as int, i32::MAX as int, 0, (j / n + 1) as u8, is_max,
        CollisionStrategy::ReplaceWithShallowDepth, t, z)
}

/// Chunk `i` of a list cut into pieces of `size` moves (the last piece may be shorter).
pub open spec fn chunk_of(l: Seq<PieceMove>, size: int, i: int) -> Seq<PieceMove> {
    l.subrange(i * size, if (i + 1) * size < l.len() { (i + 1) * size } else { l.len() as int })
}

/// The number of chunks of `size` moves a list of `n` moves is cut into.
pub open spec fn chunk_count(n: int, size: int) -> int {
    (n + size - 1) / size
}

/// What deepening one chunk asks of the game and the chunk (see `deepen_chunk`).
pub open spec fn chunk_ready(game: &GameState, chunk: Seq<PieceMove>, max_depth: u8) -> bool {
    &&& game.tables_ok()
    &&& sound(game.pos())
    &&& game.halfmove_clock.0 + max_depth + 1 < 255
    &&& game.fullmove_number.0 + max_depth + 1 < 255
    &&& forall|k: int| 0 <= k < chunk.len() ==>
        legal_moves(game.pos(), &*game.move_lookup_table, &*game.zobrist_hashing).contains(#[trigger] chunk[k])
    &&& forall|d: int| 1 <= d <= max_depth ==> BUCKET_SIZE * #[trigger] tree_sum(game.pos(), chunk, d as nat,
        &*game.move_lookup_table, &*game.zobrist_hashing) <= usize::MAX
}

/// What deepening one chunk gives, whatever the stop signal did (see `deepen_chunk`).
pub open spec fn chunk_outcome(r: (Vec<(String, i32, u8)>, u8), chunk: Seq<PieceMove>, max_depth: u8, p: Position,
    is_max: bool, t: &MoveLookupTable, z: &ZobristHashing) -> bool {
    &&& r.1 <= max_depth
    &&& r.0@.len() == r.1 * chunk.len()
    &&& forall|j: int| 0 <= j < r.0@.len() ==> (#[trigger] r.0@[j]).0@ == uci_text(chunk[j % chunk.len() as int])
        && r.0@[j].2 == j / chunk.len() as int + 1
    &&& exists|runs: Seq<ChildSearch>| {
        &&& runs.len() == r.0@.len()
        &&& deepened_in_turn(runs, p, chunk, is_max, t, z)
        &&& forall|j: int| 0 <= j < runs.len() ==> (#[trigger] r.0@[j]).1 == runs[j].value
    }
}

/// rayon's `par_chunks(size).map(..).collect()` over the moves: each chunk, in order, is
/// deepened by `deepen_chunk` on a task of its own.
#[verifier::external_body]
fn par_deepen(game: &GameState, moves: &Vec<PieceMove>, size: usize, is_max: bool, max_depth: u8,
    stop_signal: &Arc<AtomicBool>) -> (r: Vec<(Vec<(String, i32, u8)>, u8)>)
    requires
        size > 0,
        forall|i: int| 0 <= i < chunk_count(moves@.len() as int, size as int) ==>
            chunk_ready(game, #[trigger] chunk_of(moves@, size as int, i), max_depth),
    ensures
        r@.len() == chunk_count(moves@.len() as int, size as int),
        forall|i: int| 0 <= i < r@.len() ==> chunk_outcome(#[trigger] r@[i], chunk_of(moves@, size as int, i), max_depth,
            game.pos(), is_max, &*game.move_lookup_table, &*game.zobrist_hashing),
{
    moves.par_chunks(size).map(|chunk| SearchEngine::deepen_chunk(game, chunk, is_max, max_depth, stop_signal)).collect()
}

/// The trees below a piece of a list are part of the trees below the whole list.
proof fn lemma_tree_sum_piece(p: Position, l: Seq<PieceMove>, a: int, b: int, r: nat, t: &MoveLookupTable, z: &ZobristHashing)
    requires
        0 <= a <= b <= l.len(),
    ensures
        tree_sum(p, l.subrange(a, b), r, t, z) <= tree_sum(p, l, r, t, z),
    decreases l.len(),
{
    if l.len() > 0 {
        if a == 0 {
            if b > 0 {
                assert(l.subrange(0, b).drop_first() =~= l.drop_first().subrange(0, b - 1));
                lemma_tree_sum_piece(p, l.drop_first(), 0, b - 1, r, t, z);
            }
        } else {
            assert(l.subrange(a, b) =~= l.drop_first().subrange(a - 1, b - 1));
            lemma_tree_sum_piece(p, l.drop_first(), a - 1, b - 1, r, t, z);
        }
    }
}

/// Chunk `i` of the moves lies within the list, and its moves are the list's moves from
/// position `i * size` on.
proof fn lemma_chunk_bounds(n: int, size: int, i: int)
    requires
        size > 0,
        0 <= i < chunk_count(n, size),
        n >= 0,
    ensures
        0 <= i * size < n,
{
    assert(i * size < n) by (nonlinear_arith)
        requires size > 0, 0 <= i, i < (n + size - 1) / size, n >= 0;
    assert(0 <= i * size) by (nonlinear_arith)
        requires size > 0, 0 <= i;
}

/// Every entry of the chunks' results at a depth is an entry of one chunk's results.
proof fn lemma_entry_origin(res: Seq<(Vec<(String, i32, u8)>, u8)>, d: int, j: int)
    requires
        0 <= j < entries_at(res, d).len(),
    ensures
        exists|i: int, q: int| 0 <= i < res.len() && 0 <= q < res[i].0@.len() && #[trigger] res[i].0@[q] == entries_at(res, d)[j],
    decreases res.len(),
{
    let front = entries_at(res.drop_last(), d);
    let last = res.last().0@;
    if j < front.len() {
        lemma_entry_origin(res.drop_last(), d, j);
        let (i, q) = choose|i: int, q: int| 0 <= i < res.drop_last().len() && 0 <= q < res.drop_last()[i].0@.len()
            && #[trigger] res.drop_last()[i].0@[q] == front[j];
        assert(res[i] == res.drop_last()[i]);
        assert(res[i].0@[q] == entries_at(res, d)[j]);
    } else {
        lemma_kept_origin(last, d, j - front.len());
        let q = choose|q: int| 0 <= q < last.len() && #[trigger] last[q] == keep_depth(last, d)[j - front.len()];
        assert(res[res.len() - 1].0@[q] == entries_at(res, d)[j]);
    }
}

/// Every entry kept at a depth is an entry of the list.
proof fn lemma_kept_origin(s: Seq<(String, i32, u8)>, d: int, j: int)
    requires
        0 <= j < keep_depth(s, d).len(),
    ensures
        exists|q: int| 0 <= q < s.len() && #[trigger] s[q] == keep_depth(s, d)[j],
    decreases s.len(),
{
    let front = keep_depth(s.drop_last(), d);
    if j < front.len() {
        lemma_kept_origin(s.drop_last(), d, j);
        let q = choose|q: int| 0 <= q < s.drop_last().len() && #[trigger] s.drop_last()[q] == front[j];
        assert(s[q] == s.drop_last()[q]);
    } else {
        assert(s[s.len() - 1] == keep_depth(s, d)[j]);
    }
}

impl SearchEngine {
    /// Searches with all cores: the legal moves are cut into at most four chunks, each
    /// chunk is deepened on its own task (see `deepen_chunk`), and the move is picked from
    /// the results of the least depth that every chunk completed (see `pick_best`), for
    /// Black the highest score and for White the lowest. The answer is the UCI text of a
    /// legal move, or "no_moves" when no depth was completed.
    pub fn rayon_search(&mut self, game_state: &GameState, stop_signal: Arc<AtomicBool>) -> (best: String)
        requires
            game_state.tables_ok(),
            sound(game_state.pos()),
            game_state.halfmove_clock.0 + old(self).max_depth + 1 < 255,
            game_state.fullmove_number.0 + old(self).max_depth + 1 < 255,
            forall|d: int| 1 <= d <= old(self).max_depth ==> BUCKET_SIZE * #[trigger] tree_sum(game_state.pos(),
                legal_moves(game_state.pos(), &*game_state.move_lookup_table, &*game_state.zobrist_hashing), d as nat,
                &*game_state.move_lookup_table, &*game_state.zobrist_hashing) <= usize::MAX,
        ensures
            *final(self) == *old(self),
            best@ == "no_moves"@ || exists|k: int|
                0 <= k < legal_moves(game_state.pos(), &*game_state.move_lookup_table, &*game_state.zobrist_hashing).len()
                && best@ == uci_text(#[trigger] legal_moves(game_state.pos(), &*game_state.move_lookup_table,
                    &*game_state.zobrist_hashing)[k]),
            ({
                let legal = legal_moves(game_state.pos(), &*game_state.move_lookup_table, &*game_state.zobrist_hashing);
                let size = search_chunk_size(legal.len() as int);
                &&& legal.len() == 0 ==> best@ == "no_moves"@
                &&& legal.len() > 0 ==> exists|results: Seq<(Vec<(String, i32, u8)>, u8)>| {
                    &&& results.len() == chunk_count(legal.len() as int, size)
                    &&& (forall|i: int| 0 <= i < results.len() ==> chunk_outcome(#[trigger] results[i], chunk_of(legal, size, i),
                        old(self).max_depth, game_state.pos(), game_state.move_turn == Color::Black,
                        &*game_state.move_lookup_table, &*game_state.zobrist_hashing))
                    &&& picked(results, best@, game_state.move_turn == Color::Black)
                }
            }),
    {
        let ghost p = game_state.pos();
        let ghost t = &*game_state.move_lookup_table;
        let ghost z = &*game_state.zobrist_hashing;
        let mut game = game_state.clone();
        let mut valid_moves: Vec<PieceMove> = Vec::new();
        let count = game.collect_legal_moves(&mut valid_moves);
        let ghost legal = valid_moves@;
        let is_max = game.move_turn == Color::Black;
        let max_depth = self.max_depth;
        if count == 0 {
            let none = "no_moves".to_owned();
            proof {
                reveal_strlit("no_moves");
            }
            return none;
        }
        let num_chunks: usize = if count < 4 { count } else { 4 };
        let chunk_size = count / num_chunks + if count % num_chunks != 0 { 1 } else { 0 };
        proof {
            assert(count / num_chunks >= 1) by (nonlinear_arith)
                requires count >= 1, 1 <= num_chunks <= count;
            assert forall|i: int| 0 <= i < chunk_count(legal.len() as int, chunk_size as int) implies
                chunk_ready(&game, #[trigger] chunk_of(legal, chunk_size as int, i), max_depth) by {
                lemma_chunk_bounds(legal.len() as int, chunk_size as int, i);
                let a = i * chunk_size;
                let b = if (i + 1) * chunk_size < legal.len() { (i + 1) * chunk_size } else { legal.len() as int };
                assert((i + 1) * chunk_size == a + chunk_size) by (nonlinear_arith)
                    requires a == i * chunk_size;
                let c = chunk_of(legal, chunk_size as int, i);
                assert forall|k: int| 0 <= k < c.len() implies legal_moves(p, t, z).contains(#[trigger] c[k]) by {
                    assert(c[k] == legal[a + k]);
                }
                assert forall|d: int| 1 <= d <= max_depth implies BUCKET_SIZE * #[trigger] tree_sum(p, c, d as nat, t, z) <= usize::MAX by {
                    lemma_tree_sum_piece(p, legal, a, b, d as nat, t, z);
                    assert(BUCKET_SIZE * tree_sum(p, legal, d as nat, t, z) <= usize::MAX);
                }
            }
        }
        let results = par_deepen(&game, &valid_moves, chunk_size, is_max, max_depth, &stop_signal);
        let best = pick_best(&results, is_max);
        proof {
            assert(chunk_size == search_chunk_size(legal.len() as int));
            assert(results@.len() == chunk_count(legal.len() as int, chunk_size as int)
                && (forall|i: int| 0 <= i < results@.len() ==> chunk_outcome(#[trigger] results@[i],
                    chunk_of(legal, chunk_size as int, i), max_depth, p, is_max, t, z))
                && picked(results@, best@, is_max));
            let f = entries_at(results@, least_depth(results@));
            if f.len() > 0 {
                let j = choose|j: int| is_first_best(f.map_values(|e: (String, i32, u8)| e.1), j, is_max) && best@ == f[j].0@;
                lemma_entry_origin(results@, least_depth(results@), j);
                let (i, q) = choose|i: int, q: int| 0 <= i < results@.len() && 0 <= q < results@[i].0@.len()
                    && #[trigger] results@[i].0@[q] == f[j];
                let c = chunk_of(legal, chunk_size as int, i);
                assert(chunk_outcome(results@[i], c, max_depth, game.pos(), is_max, t, z));
                let n = c.len() as int;
                assert(n > 0) by {
                    if n == 0 {
                        assert(results@[i].0@.len() == results@[i].1 * 0);
                    }
                }
                let x = q % n;
                assert(0 <= x < n);
                lemma_chunk_bounds(legal.len() as int, chunk_size as int, i);
                let a = i * chunk_size;
                assert((i + 1) * chunk_size == a + chunk_size) by (nonlinear_arith)
                    requires a == i * chunk_size;
                assert(c[x] == legal[a + x]);
                assert(best@ == uci_text(legal[a + x]));
            }
        }
        best
    }
}

/// The move text picked from the chunks' results: the first best score among the entries
/// of the least completed depth, or "no_moves" when there are none.
pub open spec fn picked(results: Seq<(Vec<(String, i32, u8)>, u8)>, best: Seq<char>, is_max: bool) -> bool {
    let f = entries_at(results, least_depth(results));
    &&& f.len() == 0 ==> best == "no_moves"@
    &&& f.len() > 0 ==> exists|j: int| is_first_best(f.map_values(|e: (String, i32, u8)| e.1), j, is_max)
        && best == f[j].0@
}

/// The size of the chunks the moves are cut into: at most four chunks of equal size,
/// the last perhaps shorter.
pub open spec fn search_chunk_size(n: int) -> int {
    let k = if n < 4 { n } else { 4 };
    n / k + if n % k != 0 { 1int } else { 0int }
}

/// The least completed depth over the chunks' results (0 when there are none).
pub open spec fn least_depth(res: Seq<(Vec<(String, i32, u8)>, u8)>) -> int
    decreases res.len(),
{
    if res.len() == 0 {
        0
    } else if res.len() == 1 {
        res[0].1 as int
    } else {
        let rest = least_depth(res.drop_last());
        if res.last().1 < rest { res.last().1 as int } else { rest }
    }
}

/// The entries of `s` at depth `d`, in order.
pub open spec fn keep_depth(s: Seq<(String, i32, u8)>, d: int) -> Seq<(String, i32, u8)>
    decreases s.len(),
{
    if s.len() == 0 {
        Seq::empty()
    } else if s.last().2 == d {
        keep_depth(s.drop_last(), d).push(s.last())
    } else {
        keep_depth(s.drop_last(), d)
    }
}

/// The entries at depth `d` of all chunks, one chunk after the other.
pub open spec fn entries_at(res: Seq<(Vec<(String, i32, u8)>, u8)>, d: int) -> Seq<(String, i32, u8)>
    decreases res.len(),
{
    if res.len() == 0 {
        Seq::empty()
    } else {
        entries_at(res.drop_last(), d) + keep_depth(res.last().0@, d)
    }
}

/// Position `j` holds the best score (the highest for the maximizer, the lowest
/// otherwise), and no earlier position holds it.
pub open spec fn is_first_best(scores: Seq<i32>, j: int, is_max: bool) -> bool {
    &&& 0 <= j < scores.len()
    &&& forall|i: int| 0 <= i < scores.len() ==> (if is_max { scores[i] <= scores[j] } else { scores[i] >= scores[j] })
    &&& forall|i: int| 0 <= i < j ==> scores[i] != scores[j]
}

/// Chooses the move of a parallel search: among the entries of the least depth that every
/// chunk completed, the first with the best score for the side (`is_max`: highest);
/// "no_moves" when there is none.
#[verifier::spinoff_prover]
pub fn pick_best(results: &Vec<(Vec<(String, i32, u8)>, u8)>, is_max: bool) -> (best: String)
    ensures
        picked(results@, best@, is_max),
{
    let m = results.len();
    let mut least: u8 = 0;
    if m > 0 {
        least = results[0].1;
        let mut c: usize = 1;
        proof {
            assert(results@.take(1).drop_last().len() == 0);
        }
        while c < m
            invariant
                1 <= c <= m,
                m == results@.len(),
                least as int == least_depth(results@.take(c as int)),
            decreases m - c,
        {
            proof {
                assert(results@.take(c + 1).drop_last() =~= results@.take(c as int));
            }
            if results[c].1 < least {
                least = results[c].1;
            }
            c = c + 1;
        }
        proof {
            assert(results@.take(m as int) =~= results@);
        }
    }
    let ghost d = least as int;
    proof {
        if m == 0 {
            assert(least_depth(results@) == 0);
        }
        assert(results@.take(0) =~= Seq::<(Vec<(String, i32, u8)>, u8)>::empty());
    }
    let mut names: Vec<String> = Vec::new();
    let mut scores: Vec<i32> = Vec::new();
    let mut c: usize = 0;
    while c < m
        invariant
            c <= m,
            m == results@.len(),
            d == least_depth(results@),
            d == least as int,
            names@.len() == entries_at(results@.take(c as int), d).len(),
            scores@.len() == names@.len(),
            forall|i: int| 0 <= i < names@.len() ==> (#[trigger] names@[i])@ == entries_at(results@.take(c as int), d)[i].0@
                && scores@[i] == entries_at(results@.take(c as int), d)[i].1,
        decreases m - c,
    {
        let entries = &results[c].0;
        let k_len = entries.len();
        let ghost prefix = entries_at(results@.take(c as int), d);
        proof {
            assert(entries@.take(0) =~= Seq::<(String, i32, u8)>::empty());
        }
        let mut e: usize = 0;
        while e < k_len
            invariant
                e <= k_len,
                k_len == entries@.len(),
                d == least as int,
                names@.len() == prefix.len() + keep_depth(entries@.take(e as int), d).len(),
                scores@.len() == names@.len(),
                forall|i: int| 0 <= i < names@.len() ==> (#[trigger] names@[i])@ == (prefix + keep_depth(entries@.take(e as int), d))[i].0@
                    && scores@[i] == (prefix + keep_depth(entries@.take(e as int), d))[i].1,
            decreases k_len - e,
        {
            proof {
                assert(entries@.take(e + 1).drop_last() =~= entries@.take(e as int));
                assert(entries@.take(e + 1).last() == entries@[e as int]);
            }
            if entries[e].2 == least {
                let name = entries[e].0.clone();
                names.push(name);
                scores.push(entries[e].1);
                proof {
                    let ext = prefix + keep_depth(entries@.take(e + 1), d);
                    assert(ext =~= (prefix + keep_depth(entries@.take(e as int), d)).push(entries@[e as int]));
                }
            } else {
                proof {
                    assert(keep_depth(entries@.take(e + 1), d) == keep_depth(entries@.take(e as int), d));
                }
            }
            e = e + 1;
        }
        proof {
            assert(entries@.take(k_len as int) =~= entries@);
            assert(results@.take(c + 1).drop_last() =~= results@.take(c as int));
            assert(results@.take(c + 1).last() == results@[c as int]);
            assert(entries_at(results@.take(c + 1), d) == prefix + keep_depth(entries@, d));
        }
        c = c + 1;
    }
    proof {
        assert(results@.take(m as int) =~= results@);
    }
    let ghost f = entries_at(results@, d);
    let ghost sc = f.map_values(|e: (String, i32, u8)| e.1);
    proof {
        assert(scores@.len() == sc.len());
        assert forall|i: int| 0 <= i < sc.len() implies scores@[i] == sc[i] by {
            assert((names@[i])@ == entries_at(results@.take(m as int), d)[i].0@);
            assert(scores@[i] == entries_at(results@.take(m as int), d)[i].1);
        }
        assert(scores@ =~= sc);
    }
    let n = scores.len();
    if n == 0 {
        let none = "no_moves".to_owned();
        proof {
            reveal_strlit("no_moves");
        }
        return none;
    }
    let mut best: usize = 0;
    let mut i: usize = 1;
    while i < n
        invariant
            1 <= i <= n,
            n == scores@.len(),
            best < i,
            forall|k: int| 0 <= k < i ==> (if is_max { scores@[k] <= scores@[best as int] } else { scores@[k] >= scores@[best as int] }),
            forall|k: int| 0 <= k < best ==> scores@[k] != scores@[best as int],
        decreases n - i,
    {
        if (is_max && scores[i] > scores[best]) || (!is_max && scores[i] < scores[best]) {
            best = i;
        }
        i = i + 1;
    }
    proof {
        assert(is_first_best(sc, best as int, is_max));
    }
    names[best].clone()
}

/// Position `row * n + q` of a table of rows of length `n` lies in row `row`, column `q`.
proof fn lemma_row_index(row: int, n: int, q: int)
    requires
        0 <= row,
        0 <= q < n,
    ensures
        (row * n + q) % n == q,
        (row * n + q) / n == row,
{
    vstd::arithmetic::div_mod::lemma_fundamental_div_mod_converse(row * n + q, n, row, q);
}

/// The order holds each position below `n` exactly once.
pub open spec fn is_perm(order: Seq<usize>, n: int) -> bool {
    &&& order.len() == n
    &&& forall|a: int| 0 <= a < n ==> #[trigger] order[a] < n
    &&& forall|a: int, b: int| 0 <= a < b < n ==> #[trigger] order[a] != #[trigger] order[b]
}

/// Positions of `scores` from the highest score down, equal scores in their given order.
fn stable_order_desc(scores: &Vec<i32>) -> (order: Vec<usize>)
    ensures
        is_perm(order@, scores@.len() as int),
        sorted_desc(order@, scores@),
{
    let mut order: Vec<usize> = Vec::new();
    let n = scores.len();
    let mut i: usize = 0;
    while i < n
        invariant
            i <= n,
            n == scores@.len(),
            is_perm(order@, i as int),
            sorted_desc(order@, scores@),
        decreases n - i,
    {
        let si = scores[i];
        let mut pos: usize = 0;
        while pos < order.len() && scores[order[pos]] >= si
            invariant
                pos <= order@.len(),
                order@.len() == i,
                i < n,
                n == scores@.len(),
                si == scores@[i as int],
                is_perm(order@, i as int),
                forall|a: int| 0 <= a < pos ==> scores@[#[trigger] order@[a] as int] >= si,
            decreases order@.len() - pos,
        {
            pos = pos + 1;
        }
        let ghost old_order = order@;
        order.insert(pos, i);
        proof {
            assert(order@ == old_order.insert(pos as int, i));
            assert forall|a: int| 0 <= a < i + 1 implies #[trigger] order@[a] < i + 1 by {
                if a < pos { assert(order@[a] == old_order[a]); }
                else if a > pos { assert(order@[a] == old_order[a - 1]); }
            }
            assert forall|a: int, b: int| 0 <= a < b < i + 1 implies #[trigger] order@[a] != #[trigger] order@[b] by {
                if a < pos && b < pos { assert(order@[a] == old_order[a] && order@[b] == old_order[b]); }
                else if a < pos && b == pos { assert(order@[a] == old_order[a]); }
                else if a < pos && b > pos { assert(order@[a] == old_order[a] && order@[b] == old_order[b - 1]); }
                else if a == pos { assert(order@[b] == old_order[b - 1]); }
                else { assert(order@[a] == old_order[a - 1] && order@[b] == old_order[b - 1]); }
            }
            assert forall|a: int, b: int| 0 <= a < b < order@.len() implies
                scores@[#[trigger] order@[a] as int] > scores@[#[trigger] order@[b] as int]
                || (scores@[order@[a] as int] == scores@[order@[b] as int] && order@[a] < order@[b]) by {
                if a < pos && b < pos { assert(order@[a] == old_order[a] && order@[b] == old_order[b]); }
                else if a < pos && b == pos { assert(order@[a] == old_order[a]); }
                else if a < pos && b > pos { assert(order@[a] == old_order[a] && order@[b] == old_order[b - 1]); }
                else if a == pos {
                    assert(order@[b] == old_order[b - 1]);
                    assert(scores@[old_order[pos as int] as int] < si);
                    if b - 1 > pos {
                        assert(scores@[old_order[pos as int] as int] > scores@[old_order[b - 1] as int]
                            || (scores@[old_order[pos as int] as int] == scores@[old_order[b - 1] as int]));
                    }
                }
                else { assert(order@[a] == old_order[a - 1] && order@[b] == old_order[b - 1]); }
            }
        }
        i = i + 1;
    }
    order
}

/// The material of bitboards `from` up to `to` within one colour's six.
pub open spec fn partial_material(bb: Seq<u64>, from: int, to: int) -> int
    decreases to - from,
{
    if to <= from {
        0
    } else {
        partial_material(bb, from, to - 1) + nbits(bb[to - 1]) * piece_value((to - 1) % 6)
    }
}

} // verus!
