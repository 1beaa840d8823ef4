//! A hash-indexed table of search results, in buckets of sixteen entries.
use vstd::prelude::*;

verus! {

/// Number of buckets.
pub const LOOKUP_SIZE: usize = 524288;
/// Entries per bucket.
pub const BUCKET_SIZE: usize = 16;

/// How the score of a searched node relates to the true value.
#[derive(Debug, Clone, Copy, PartialEq, Eq, Structural)]
pub enum NodeType {
    Exact,
    LowerBound,
    UpperBound,
}

/// A stored search result.
#[derive(Debug, Clone, Copy)]
pub struct SearchResult {
    pub depth: u8,
    pub hash: u64,
    pub score: i32,
    pub is_max: bool,
    pub node_type: NodeType,
}

/// The value of an unused entry: hash and depth at their maximum.
pub open spec fn empty_result_spec() -> SearchResult {
    SearchResult { depth: 255, hash: 0xffff_ffff_ffff_ffff, score: i32::MIN, is_max: false, node_type: NodeType::Exact }
}

/// An unused entry.
pub fn empty_search_result() -> (r: SearchResult)
    ensures
        r == empty_result_spec(),
{
    SearchResult { depth: 255, hash: 0xffff_ffff_ffff_ffff, score: i32::MIN, is_max: false, node_type: NodeType::Exact }
}

/// The entries of a table just made: all unused.
pub open spec fn fresh_table() -> Seq<SearchResult> {
    Seq::new((LOOKUP_SIZE * BUCKET_SIZE) as nat, |i: int| empty_result_spec())
}

/// What to do when a bucket is full.
#[derive(Debug, Clone, Copy, PartialEq, Eq, Structural)]
pub enum CollisionStrategy {
    ReplaceWithRandHash,
    ReplaceWithShallowDepth,
}

/// The table: `LOOKUP_SIZE` buckets of `BUCKET_SIZE` entries, a count of entries passed
/// over while storing, and the strategy for full buckets.
#[derive(Debug, Clone)]
pub struct TranspositionTable {
    pub lookup_table: Vec<SearchResult>,
    pub collision_detected: usize,
    pub collision_strategy: CollisionStrategy,
}

/// The first position, from `i` on, of the bucket at `index` whose entry satisfies `pred`.
pub open spec fn first_in_bucket(t: Seq<SearchResult>, index: int, pred: spec_fn(SearchResult) -> bool, i: int) -> Option<int>
    decreases BUCKET_SIZE - i,
{
    if i >= BUCKET_SIZE || i < 0 {
        None
    } else if pred(t[index + i]) {
        Some(i)
    } else {
        first_in_bucket(t, index, pred, i + 1)
    }
}

/// The position of the first bucket entry a store may take: one with the same hash and a
/// shallower depth, or an unused one.
pub open spec fn store_slot(t: Seq<SearchResult>, index: int, hash: u64, depth: u8) -> Option<int> {
    first_in_bucket(t, index, |e: SearchResult| (e.hash == hash && e.depth < depth) || e.hash == 0xffff_ffff_ffff_ffffu64, 0)
}

/// The first bucket entry with the given hash.
pub open spec fn found_slot(t: Seq<SearchResult>, index: int, hash: u64) -> Option<int> {
    first_in_bucket(t, index, |e: SearchResult| e.hash == hash, 0)
}

/// The score a stored entry gives for a lookup, when it is usable: deep enough, for the
/// same side, and exact or a bound that already decides the window.
pub open spec fn usable_score(e: SearchResult, current_depth: u8, alpha: i32, beta: i32, is_max: bool) -> Option<i32> {
    if e.depth >= current_depth && e.is_max == is_max {
        match e.node_type {
            NodeType::Exact => Some(e.score),
            NodeType::LowerBound => if e.score >= beta { Some(e.score) } else { None },
            NodeType::UpperBound => if e.score <= alpha { Some(e.score) } else { None },
        }
    } else {
        None
    }
}

/// What a lookup returns: the usable score of the first entry with the hash, if any.
pub open spec fn lookup_spec(t: Seq<SearchResult>, hash: u64, current_depth: u8, alpha: i32, beta: i32, is_max: bool) -> Option<i32> {
    match found_slot(t, bucket_of(hash), hash) {
        Some(i) => usable_score(t[bucket_of(hash) + i], current_depth, alpha, beta, is_max),
        None => None,
    }
}

/// The first entry of the bucket of `hash`.
pub open spec fn bucket_of(hash: u64) -> int {
    (hash % (LOOKUP_SIZE as u64)) as int * BUCKET_SIZE
}

impl TranspositionTable {
    /// The table has all its entries.
    pub open spec fn wf(&self) -> bool {
        self.lookup_table@.len() == LOOKUP_SIZE * BUCKET_SIZE
    }

    /// An empty table that replaces the shallowest entry of a full bucket.
    pub fn new() -> (t: TranspositionTable)
        ensures
            t.wf(),
            forall|i: int| 0 <= i < t.lookup_table@.len() ==> #[trigger] t.lookup_table@[i] == empty_result_spec(),
            t.lookup_table@ == fresh_table(),
            t.collision_detected == 0,
            t.collision_strategy == CollisionStrategy::ReplaceWithShallowDepth,
    {
        let t = TranspositionTable {
            lookup_table: vec![empty_search_result(); LOOKUP_SIZE * BUCKET_SIZE],
            collision_detected: 0,
            collision_strategy: CollisionStrategy::ReplaceWithShallowDepth,
        };
        proof {
            assert(t.lookup_table@ =~= fresh_table());
        }
        t
    }

    /// Empties every entry.
    pub fn clear_lookup_table(&mut self)
        ensures
            final(self).wf(),
            forall|i: int| 0 <= i < final(self).lookup_table@.len() ==> #[trigger] final(self).lookup_table@[i] == empty_result_spec(),
            final(self).collision_detected == old(self).collision_detected,
            final(self).collision_strategy == old(self).collision_strategy,
    {
        self.lookup_table = vec![empty_search_result(); LOOKUP_SIZE * BUCKET_SIZE];
    }

    /// The first entry of the bucket of `hash`.
    pub fn get_index(&self, hash: u64) -> (r: usize)
        ensures
            r == bucket_of(hash),
            r + BUCKET_SIZE <= LOOKUP_SIZE * BUCKET_SIZE,
    {
        let bucket = (hash % (LOOKUP_SIZE as u64)) as usize;
        bucket * BUCKET_SIZE
    }

    /// Stores a result in the bucket of its hash: in the first entry that holds the same
    /// hash at a shallower depth or is unused, returning its position. Every entry passed
    /// over counts as a collision. When the bucket has no such entry, the strategy decides
    /// (an entry chosen by the hash, or the first shallower entry, if any) and an error
    /// is returned.
    pub fn store_in_cache(&mut self, hash: u64, depth: u8, score: i32, is_max: bool, node_type: NodeType)
        -> (r: Result<usize, &'static str>)
        requires
            old(self).wf(),
            old(self).collision_detected + BUCKET_SIZE <= usize::MAX,
        ensures
            final(self).wf(),
            final(self).collision_strategy == old(self).collision_strategy,
            final(self).collision_detected <= old(self).collision_detected + BUCKET_SIZE,
            ({
                let sr = SearchResult { depth, hash, score, is_max, node_type };
                let index = bucket_of(hash);
                let t0 = old(self).lookup_table@;
                match store_slot(t0, index, hash, depth) {
                    Some(i) => {
                        &&& r == Ok::<usize, &'static str>((index + i) as usize)
                        &&& final(self).lookup_table@ == t0.update(index + i, sr)
                        &&& final(self).collision_detected == old(self).collision_detected + i
                    },
                    None => {
                        &&& r is Err
                        &&& final(self).collision_detected == old(self).collision_detected + BUCKET_SIZE
                        &&& final(self).lookup_table@ == replaced(t0, index, sr, old(self).collision_strategy)
                    },
                }
            }),
    {
        let search_result = SearchResult { depth, hash, score, is_max, node_type };
        let index = self.get_index(hash);
        let ghost pred = |e: SearchResult| (e.hash == hash && e.depth < depth) || e.hash == 0xffff_ffff_ffff_ffffu64;
        proof {
            lemma_first_bounds(old(self).lookup_table@, index as int, pred, 0);
        }
        let mut i: usize = 0;
        while i < BUCKET_SIZE
            invariant
                i <= BUCKET_SIZE,
                self.wf(),
                index == bucket_of(hash),
                index + BUCKET_SIZE <= LOOKUP_SIZE * BUCKET_SIZE,
                self.lookup_table@ == old(self).lookup_table@,
                self.collision_strategy == old(self).collision_strategy,
                self.collision_detected == old(self).collision_detected + i,
                old(self).collision_detected + BUCKET_SIZE <= usize::MAX,
                pred == (|e: SearchResult| (e.hash == hash && e.depth < depth) || e.hash == 0xffff_ffff_ffff_ffffu64),
                search_result == (SearchResult { depth, hash, score, is_max, node_type }),
                store_slot(old(self).lookup_table@, index as int, hash, depth) == first_in_bucket(old(self).lookup_table@, index as int, pred, i as int),
            decreases BUCKET_SIZE - i,
        {
            let idx = index + i;
            let entity = self.lookup_table[idx];
            if entity.hash == hash {
                if entity.depth < search_result.depth {
                    proof {
                        assert(pred(old(self).lookup_table@[index + i]));
                    }
                    self.lookup_table.set(idx, search_result);
                    return Ok(idx);
                }
            }
            if entity.hash == 0xffff_ffff_ffff_ffff {
                proof {
                    assert(pred(old(self).lookup_table@[index + i]));
                }
                self.lookup_table.set(idx, search_result);
                return Ok(idx);
            }
            proof {
                assert(!pred(old(self).lookup_table@[index + i]));
            }
            self.collision_detected = self.collision_detected + 1;
            i = i + 1;
        }
        match self.collision_strategy {
            CollisionStrategy::ReplaceWithRandHash => self.replace_wth_random_index(search_result, index),
            CollisionStrategy::ReplaceWithShallowDepth => self.replace_with_shallow_depth(search_result, index),
        }
        Err("Error: bucket size reached, no empty place for record")
    }

    /// Puts the result in the bucket entry chosen by its hash.
    fn replace_wth_random_index(&mut self, search_result: SearchResult, index: usize)
        requires
            old(self).wf(),
            index + BUCKET_SIZE <= LOOKUP_SIZE * BUCKET_SIZE,
        ensures
            final(self).wf(),
            final(self).lookup_table@ == old(self).lookup_table@.update(index + (search_result.hash % (BUCKET_SIZE as u64)) as int, search_result),
            final(self).collision_detected == old(self).collision_detected,
            final(self).collision_strategy == old(self).collision_strategy,
    {
        let r_idx = (search_result.hash % (BUCKET_SIZE as u64)) as usize;
        self.lookup_table.set(index + r_idx, search_result);
    }

    /// Puts the result in the first bucket entry of smaller depth, if any.
    fn replace_with_shallow_depth(&mut self, search_result: SearchResult, index: usize)
        requires
            old(self).wf(),
            index + BUCKET_SIZE <= LOOKUP_SIZE * BUCKET_SIZE,
        ensures
            final(self).wf(),
            final(self).lookup_table@ == match first_in_bucket(old(self).lookup_table@, index as int,
                |e: SearchResult| e.depth < search_result.depth, 0) {
                Some(j) => old(self).lookup_table@.update(index + j, search_result),
                None => old(self).lookup_table@,
            },
            final(self).collision_detected == old(self).collision_detected,
            final(self).collision_strategy == old(self).collision_strategy,
    {
        let ghost pred = |e: SearchResult| e.depth < search_result.depth;
        let mut i: usize = 0;
        while i < BUCKET_SIZE
            invariant
                i <= BUCKET_SIZE,
                self.wf(),
                index + BUCKET_SIZE <= LOOKUP_SIZE * BUCKET_SIZE,
                self.lookup_table@ == old(self).lookup_table@,
                self.collision_detected == old(self).collision_detected,
                self.collision_strategy == old(self).collision_strategy,
                pred == (|e: SearchResult| e.depth < search_result.depth),
                first_in_bucket(old(self).lookup_table@, index as int, pred, 0)
                    == first_in_bucket(old(self).lookup_table@, index as int, pred, i as int),
            decreases BUCKET_SIZE - i,
        {
            let idx = index + i;
            let entity = self.lookup_table[idx];
            if entity.depth < search_result.depth {
                self.lookup_table.set(idx, search_result);
                return;
            }
            i = i + 1;
        }
    }

    /// The score stored for `hash`, if the first entry with that hash in its bucket is
    /// deep enough, for the same side, and exact or a bound outside the window.
    pub fn try_get_from_cache(&self, hash: u64, current_depth: u8, alpha: i32, beta: i32, is_max: bool) -> (r: Option<i32>)
        requires
            self.wf(),
        ensures
            r == lookup_spec(self.lookup_table@, hash, current_depth, alpha, beta, is_max),
    {
        let index = self.get_index(hash);
        let ghost pred = |e: SearchResult| e.hash == hash;
        let mut entity: Option<SearchResult> = None;
        let mut i: usize = 0;
        while i < BUCKET_SIZE
            invariant_except_break
                entity is None,
                found_slot(self.lookup_table@, index as int, hash) == first_in_bucket(self.lookup_table@, index as int, pred, i as int),
            invariant
                i <= BUCKET_SIZE,
                self.wf(),
                index == bucket_of(hash),
                index + BUCKET_SIZE <= LOOKUP_SIZE * BUCKET_SIZE,
                pred == (|e: SearchResult| e.hash == hash),
            ensures
                match found_slot(self.lookup_table@, index as int, hash) {
                    Some(k) => entity == Some(self.lookup_table@[index + k]),
                    None => entity is None,
                },
            decreases BUCKET_SIZE - i,
        {
            let result = self.lookup_table[index + i];
            i = i + 1;
            if result.hash == hash {
                entity = Some(result);
                break;
            }
        }
        match entity {
            Some(value) => {
                if value.depth >= current_depth && value.is_max == is_max {
                    match value.node_type {
                        NodeType::Exact => {
                            return Some(value.score);
                        },
                        NodeType::LowerBound => {
                            if value.score >= beta {
                                return Some(value.score);
                            }
                        },
                        NodeType::UpperBound => {
                            if value.score <= alpha {
                                return Some(value.score);
                            }
                        },
                    }
                }
            },
            None => return None,
        }
        None
    }
}

/// The table after a store into a full bucket, by strategy.
pub open spec fn replaced(t: Seq<SearchResult>, index: int, sr: SearchResult, strategy: CollisionStrategy) -> Seq<SearchResult> {
    match strategy {
        CollisionStrategy::ReplaceWithRandHash => t.update(index + (sr.hash % (BUCKET_SIZE as u64)) as int, sr),
        CollisionStrategy::ReplaceWithShallowDepth => match first_in_bucket(t, index, |e: SearchResult| e.depth < sr.depth, 0) {
            Some(j) => t.update(index + j, sr),
            None => t,
        },
    }
}

/// The table after `store_in_cache` stores the given result (see its contract).
pub open spec fn stored_table(t: Seq<SearchResult>, hash: u64, depth: u8, score: i32, is_max: bool, node_type: NodeType,
    strategy: CollisionStrategy) -> Seq<SearchResult> {
    let sr = SearchResult { depth, hash, score, is_max, node_type };
    let index = bucket_of(hash);
    match store_slot(t, index, hash, depth) {
        Some(i) => t.update(index + i, sr),
        None => replaced(t, index, sr, strategy),
    }
}

/// A result just stored where no earlier entry of its bucket carries its hash is what a
/// lookup of that hash finds: its score when it is at least as deep as asked, for the same
/// side, and exact, a lower bound at least beta or an upper bound at most alpha; nothing
/// otherwise.
pub proof fn lemma_lookup_after_store(t: Seq<SearchResult>, sr: SearchResult, current_depth: u8, alpha: i32, beta: i32, is_max: bool)
    requires
        t.len() == LOOKUP_SIZE * BUCKET_SIZE,
        store_slot(t, bucket_of(sr.hash), sr.hash, sr.depth) is Some,
        forall|j: int| 0 <= j < store_slot(t, bucket_of(sr.hash), sr.hash, sr.depth)->0
            ==> #[trigger] t[bucket_of(sr.hash) + j].hash != sr.hash,
    ensures
        lookup_spec(t.update(bucket_of(sr.hash) + store_slot(t, bucket_of(sr.hash), sr.hash, sr.depth)->0, sr),
            sr.hash, current_depth, alpha, beta, is_max) == usable_score(sr, current_depth, alpha, beta, is_max),
        ({
            let found = lookup_spec(t.update(bucket_of(sr.hash) + store_slot(t, bucket_of(sr.hash), sr.hash, sr.depth)->0, sr),
                sr.hash, current_depth, alpha, beta, is_max);
            let decides = match sr.node_type {
                NodeType::Exact => true,
                NodeType::LowerBound => sr.score >= beta,
                NodeType::UpperBound => sr.score <= alpha,
            };
            &&& found is Some <==> (sr.depth >= current_depth && sr.is_max == is_max && decides)
            &&& found is Some ==> found == Some(sr.score)
        }),
{
    let index = bucket_of(sr.hash);
    let pred_s = |e: SearchResult| (e.hash == sr.hash && e.depth < sr.depth) || e.hash == 0xffff_ffff_ffff_ffffu64;
    let pred_f = |e: SearchResult| e.hash == sr.hash;
    let i = store_slot(t, index, sr.hash, sr.depth)->0;
    let t2 = t.update(index + i, sr);
    lemma_first_bounds(t, index, pred_s, 0);
    lemma_first_after_update(t, t2, index, pred_f, i, 0);
}

/// What a lookup answers is a score stored for that hash, at least as deep and for the
/// same side, that the window can use: an exact score, a lower bound only when it is at
/// least beta, an upper bound only when it is at most alpha. In particular an upper bound
/// above alpha or a lower bound below beta is never returned.
pub proof fn lemma_lookup_decides(t: Seq<SearchResult>, hash: u64, current_depth: u8, alpha: i32, beta: i32, is_max: bool)
    ensures
        lookup_spec(t, hash, current_depth, alpha, beta, is_max) matches Some(s) ==> exists|i: int| 0 <= i < BUCKET_SIZE && {
            let e = #[trigger] t[bucket_of(hash) + i];
            &&& e.hash == hash
            &&& e.score == s
            &&& e.depth >= current_depth
            &&& e.is_max == is_max
            &&& (e.node_type == NodeType::UpperBound ==> s <= alpha)
            &&& (e.node_type == NodeType::LowerBound ==> s >= beta)
        },
{
    let index = bucket_of(hash);
    let pred = |e: SearchResult| e.hash == hash;
    lemma_first_bounds(t, index, pred, 0);
    if let Some(s) = lookup_spec(t, hash, current_depth, alpha, beta, is_max) {
        let i = found_slot(t, index, hash)->0;
        let e = t[index + i];
        assert(e.hash == hash);
        assert(0 <= i < BUCKET_SIZE);
    }
}

/// The first position found is in the bucket and nothing before it matches.
proof fn lemma_first_bounds(t: Seq<SearchResult>, index: int, pred: spec_fn(SearchResult) -> bool, i: int)
    requires
        0 <= i,
    ensures
        first_in_bucket(t, index, pred, i) matches Some(k) ==> i <= k < BUCKET_SIZE && pred(t[index + k]),
    decreases BUCKET_SIZE - i,
{
    if i < BUCKET_SIZE && !pred(t[index + i]) {
        lemma_first_bounds(t, index, pred, i + 1);
    }
}

/// In a table updated at bucket position `k` with an entry that matches, where no earlier
/// position (from `i` on) of the old table matches, the first match is at `k`.
proof fn lemma_first_after_update(t: Seq<SearchResult>, t2: Seq<SearchResult>, index: int, pred: spec_fn(SearchResult) -> bool, k: int, i: int)
    requires
        0 <= i <= k < BUCKET_SIZE,
        0 <= index,
        index + BUCKET_SIZE <= t.len(),
        t2 == t.update(index + k, t2[index + k]),
        pred(t2[index + k]),
        forall|j: int| i <= j < k ==> !pred(#[trigger] t[index + j]),
    ensures
        first_in_bucket(t2, index, pred, i) == Some(k),
    decreases k - i,
{
    if i < k {
        assert(t2[index + i] == t[index + i]);
        assert(!pred(t[index + i]));
        lemma_first_after_update(t, t2, index, pred, k, i + 1);
    }
}

} // verus!
