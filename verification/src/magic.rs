//! Magic-bitboard lookup tables for rook and bishop attacks.
use vstd::prelude::*;
use vstd::arithmetic::power2::{pow2, lemma_pow2_unfold, lemma_pow2_pos};
use vstd::std_specs::bits::u64_trailing_zeros;
use crate::bits::{bit_at, single, nbits, lemma_bit_ops, lemma_bits_ext, lemma_lowest_bit, lemma_nbits, lemma_single, bit_count};
use crate::square::FileRank;
use crate::types::Color;
use crate::attacks::{rook_attacks, bishop_attacks, rook_mask, bishop_mask, pawn_capture_step, get_pawn_pattern_attacks,
    _gen_rook_move_fly, _gen_bishop_attacks_on_the_fly, _gen_rook_attacks_mask, _gen_bishop_attacks_mask};
use crate::precalculated::{rook_magic, rook_shift, bishop_magic, bishop_shift, rook_magic_number, rook_shift_amount,
    bishop_magic_number, bishop_shift_amount};

verus! {

/// The subset of `m` chosen by the bits of `j`: bit `k` of `j` decides whether the
/// `k`-th lowest square of `m` is in.
pub open spec fn deposit(j: nat, m: u64) -> u64
    decreases m,
{
    if m == 0 {
        0
    } else {
        proof {
            crate::bits::lemma_word_facts(m, 0, 0, 0);
        }
        (if j % 2 == 1 { single(u64_trailing_zeros(m) as int) } else { 0 }) | deposit(j / 2, m & ((m - 1) as u64))
    }
}

/// The index whose `deposit` onto `m` gives the squares of `s` inside `m`.
pub open spec fn extract(s: u64, m: u64) -> nat
    decreases m,
{
    if m == 0 {
        0
    } else {
        proof {
            crate::bits::lemma_word_facts(m, 0, 0, 0);
        }
        (if bit_at(s, u64_trailing_zeros(m) as int) { 1nat } else { 0nat }) + 2 * extract(s, m & ((m - 1) as u64))
    }
}

/// `s` has no square outside `m`.
pub open spec fn is_subset(s: u64, m: u64) -> bool {
    s & m == s
}

/// Position of blocker set `b` in a magic table.
pub open spec fn magic_index(b: u64, magic: u64, shift: u64) -> u64 {
    b.wrapping_mul(magic) >> shift
}

/// The attacks of a rook (`rook`) or bishop on `sq` with blockers `occ`.
pub open spec fn slider(rook: bool, sq: int, occ: u64) -> u64 {
    if rook { rook_attacks(sq, occ) } else { bishop_attacks(sq, occ) }
}

/// A table for square `sq`: every subset of the mask finds at its magic index the
/// attacks of some subset with the same index.
pub open spec fn table_ok(t: Seq<u64>, rook: bool, sq: int, mask: u64, magic: u64, shift: u64) -> bool {
    &&& t.len() == pow2((64 - shift) as nat)
    &&& forall|s: u64| #[trigger] is_subset(s, mask) ==> exists|s2: u64| #[trigger] is_subset(s2, mask)
            && magic_index(s2, magic, shift) == magic_index(s, magic, shift)
            && t[magic_index(s, magic, shift) as int] == slider(rook, sq, s2)
}

/// Every subset of `m` is a `deposit` onto `m`, and `deposit` onto `m` stays in `m`.
pub proof fn lemma_deposit_extract(s: u64, m: u64, j: nat)
    ensures
        deposit(extract(s, m), m) == s & m,
        extract(s, m) < pow2(nbits(m)),
        is_subset(deposit(j, m), m),
    decreases m,
{
    if m == 0 {
        crate::bits::lemma_word_facts(s, 0, 0, 0);
        crate::bits::lemma_word_facts(0, 0, 0, 0);
        vstd::arithmetic::power2::lemma2_to64();
    } else {
        let t = u64_trailing_zeros(m) as int;
        let r = m & ((m - 1) as u64);
        lemma_lowest_bit(m);
        lemma_deposit_extract(s, r, j / 2);
        let e = extract(s, m);
        let e2 = extract(s, r);
        assert(e / 2 == e2);
        assert(e % 2 == 1 <==> bit_at(s, t));
        let head = if bit_at(s, t) { single(t) } else { 0u64 };
        assert forall|k: int| 0 <= k < 64 implies bit_at(head | (s & r), k) == bit_at(s & m, k) by {
            lemma_bit_ops(head, s & r, k);
            lemma_bit_ops(s, r, k);
            lemma_bit_ops(s, m, k);
            lemma_single(t, k);
            lemma_bit_ops(0u64, 0u64, k);
        }
        lemma_bits_ext(head | (s & r), s & m);
        lemma_pow2_unfold(nbits(m));
        lemma_pow2_pos(nbits(r));
        let headj = if j % 2 == 1 { single(t) } else { 0u64 };
        let dj = deposit(j / 2, r);
        assert forall|k: int| 0 <= k < 64 implies bit_at((headj | dj) & m, k) == bit_at(headj | dj, k) by {
            lemma_bit_ops(headj, dj, k);
            lemma_bit_ops(headj | dj, m, k);
            lemma_bit_ops(dj, r, k);
            lemma_single(t, k);
            lemma_bit_ops(0u64, 0u64, k);
        }
        lemma_bits_ext((headj | dj) & m, headj | dj);
    }
}

/// One random `u64` from the thread-local generator (rand's `random::<u64>`,
/// that is `thread_rng().gen()`). Nothing is stated of the value.
#[verifier::external_body]
fn random_u64() -> u64 {
    rand::random::<u64>()
}

/// The candidate multiplier made from three words: their AND, which keeps only the bits
/// all three have, so about one bit in eight is set.
pub fn sparse_candidate(n: u64, n1: u64, n2: u64) -> (r: u64)
    ensures
        r == n & n1 & n2,
{
    n & n1 & n2
}

/// Helpers for building and querying magic tables.
pub struct MagicHelper {
    pub magic_numbers: Vec<u64>,
    pub shifts: Vec<usize>,
}

impl MagicHelper {
    /// A random candidate multiplier with few bits set: the AND of three random words
    /// (see `sparse_candidate`). Nothing is stated of the value: the words are random.
    pub fn get_random_number() -> u64 {
        let n: u64 = random_u64();
        let n1: u64 = random_u64();
        let n2: u64 = random_u64();
        sparse_candidate(n, n1, n2)
    }

    /// Position of blocker set `blockers` in a table with the given magic multiplier and shift.
    pub fn get_magic_index(blockers: u64, magic_number: u64, shift: usize) -> (r: usize)
        requires
            shift < 64,
            64 - shift <= usize::BITS,
        ensures
            r == magic_index(blockers, magic_number, shift as u64),
            r < pow2((64 - shift) as nat),
    {
        let x = blockers.wrapping_mul(magic_number);
        let v = x >> (shift as u64);
        proof {
            lemma_shift_bound(x, shift as u64);
            lemma_fits_usize(v, (64 - shift) as nat);
        }
        v as usize
    }

    /// The blocker set number `index` for `attack_mask`: the `k`-th lowest square
    /// of the mask is in exactly when bit `k` of `index` is set.
    pub fn calculate_occupancy(index: usize, attack_mask: u64) -> (occupancy: u64)
        ensures
            occupancy == deposit(index as nat, attack_mask),
    {
        let mut mask = attack_mask;
        let mut occupancy = 0u64;
        let mut count: u64 = 0;
        let i = index as u64;
        proof {
            lemma_nbits(attack_mask);
            crate::bits::lemma_word_facts(i, 0, 0, 0);
            crate::attacks::lemma_or_facts(deposit(index as nat, attack_mask), 0, 0);
        }
        while mask != 0
            invariant
                count + nbits(mask) == nbits(attack_mask),
                nbits(attack_mask) <= 64,
                i == index as u64,
                occupancy | deposit((i >> count) as nat, mask) == deposit(index as nat, attack_mask),
            decreases mask,
        {
            let ghost m0 = mask;
            let ghost j = (i >> count) as nat;
            let square = crate::bits::get_lsb_index(mask);
            crate::bits::pop_bit(&mut mask, square as u8);
            proof {
                lemma_lowest_bit(m0);
                let t = square as u64;
                assert(t < 64 && (m0 >> t) & 1u64 == 1u64 && m0 << ((64 - t) as u64) == 0 ==> m0 ^ (1u64 << t) == m0 & ((m0 - 1) as u64)) by (bit_vector);
                vstd::std_specs::bits::axiom_u64_trailing_zeros(m0);
                assert(count < 64);
                assert(((i >> count) & 1u64 == 1u64) == ((i >> count) % 2 == 1)
                    && (count < 64 ==> (i & (1u64 << count) > 0u64) == ((i >> count) & 1u64 == 1u64))
                    && (count < 64 ==> i >> ((count + 1) as u64) == (i >> count) / 2)) by (bit_vector);
            }
            let c: u64 = count;
            if i & (1u64 << c) > 0 {
                proof {
                    crate::attacks::lemma_or_facts(occupancy, 1u64 << (square as u64), deposit(((i >> count) / 2) as nat, mask));
                }
                occupancy = occupancy | (1u64 << (square as u64));
            } else {
                proof {
                    crate::attacks::lemma_or_facts(deposit(((i >> count) / 2) as nat, mask), 0, 0);
                }
            }
            count = count + 1;
        }
        proof {
            crate::attacks::lemma_or_facts(occupancy, 0, 0);
        }
        occupancy
    }

    /// All `2^n` blocker sets of a mask with `n` squares, in `deposit` order.
    pub fn generate_attack_subsets(attack_mask: u64) -> (subsets: Vec<u64>)
        requires
            nbits(attack_mask) < usize::BITS,
        ensures
            subsets@.len() == pow2(nbits(attack_mask)),
            forall|j: int| 0 <= j < subsets@.len() ==> #[trigger] subsets@[j] == deposit(j as nat, attack_mask),
    {
        let bits = bit_count(attack_mask);
        let count: usize = 1usize << bits;
        proof {
            vstd::arithmetic::power2::lemma_pow2(bits as nat);
            lemma_usize_shl_is_pow2(bits);
        }
        let mut subsets: Vec<u64> = Vec::new();
        let mut index: usize = 0;
        while index < count
            invariant
                index <= count,
                count == pow2(nbits(attack_mask)),
                subsets@.len() == index,
                forall|j: int| 0 <= j < index ==> #[trigger] subsets@[j] == deposit(j as nat, attack_mask),
            decreases count - index,
        {
            let result = Self::calculate_occupancy(index, attack_mask);
            subsets.push(result);
            index = index + 1;
        }
        subsets
    }

    /// Whether a multiplier sends the given blocker sets to distinct indices.
    pub fn is_collision_free(subsets: &Vec<u64>, magic_number: u64, shift: usize) -> (ok: bool)
        requires
            shift < 64,
        64 - shift < usize::BITS,
        ensures
            ok == forall|a: int, b: int| 0 <= a < b < subsets@.len() ==>
                magic_index(subsets@[a], magic_number, shift as u64) != magic_index(subsets@[b], magic_number, shift as u64),
    {
        let size: usize = 1usize << (64 - shift);
        proof {
            lemma_usize_shl_is_pow2((64 - shift) as usize);
        }
        let mut used: Vec<bool> = Vec::new();
        let mut k: usize = 0;
        while k < size
            invariant
                k <= size,
                used@.len() == k,
                forall|x: int| 0 <= x < k ==> !#[trigger] used@[x],
            decreases size - k,
        {
            used.push(false);
            k = k + 1;
        }
        let mut n: usize = 0;
        while n < subsets.len()
            invariant
                n <= subsets@.len(),
                used@.len() == size,
                size == pow2((64 - shift) as nat),
                shift < 64,
                64 - shift < usize::BITS,
                forall|a: int, b: int| 0 <= a < b < n ==>
                    magic_index(subsets@[a], magic_number, shift as u64) != magic_index(subsets@[b], magic_number, shift as u64),
                forall|x: int| 0 <= x < size ==> (#[trigger] used@[x] <==> exists|a: int| 0 <= a < n && magic_index(subsets@[a], magic_number, shift as u64) == x),
            decreases subsets@.len() - n,
        {
            let idx = Self::get_magic_index(subsets[n], magic_number, shift);
            if used[idx] {
                proof {
                    let a = choose|a: int| 0 <= a < n && magic_index(subsets@[a], magic_number, shift as u64) == idx;
                    assert(!(forall|a: int, b: int| 0 <= a < b < subsets@.len() ==>
                        magic_index(subsets@[a], magic_number, shift as u64) != magic_index(subsets@[b], magic_number, shift as u64))) by {
                        assert(magic_index(subsets@[a], magic_number, shift as u64) == magic_index(subsets@[n as int], magic_number, shift as u64));
                    }
                }
                return false;
            }
            let ghost used_before = used@;
            used.set(idx, true);
            proof {
                assert forall|x: int| 0 <= x < size implies (#[trigger] used@[x] <==> exists|a: int| 0 <= a < n + 1 && magic_index(subsets@[a], magic_number, shift as u64) == x) by {
                    if x == idx {
                        assert(magic_index(subsets@[n as int], magic_number, shift as u64) == x);
                    } else if used@[x] {
                        let a = choose|a: int| 0 <= a < n && magic_index(subsets@[a], magic_number, shift as u64) == x;
                        assert(0 <= a < n + 1);
                    }
                }
                assert forall|a: int, b: int| 0 <= a < b < n + 1 implies
                    magic_index(subsets@[a], magic_number, shift as u64) != magic_index(subsets@[b], magic_number, shift as u64) by {
                    if b == n {
                        let x = magic_index(subsets@[a], magic_number, shift as u64) as int;
                        if x == idx {
                            assert(used_before[x]);
                        }
                    }
                }
            }
            n = n + 1;
        }
        true
    }
}

/// A multiplier fits a mask with a shift when it sends every two different blocker
/// subsets of the mask to different indices.
pub open spec fn magic_fits(mask: u64, magic: u64, shift: u64) -> bool {
    forall|a: int, b: int| 0 <= a < b < pow2(nbits(mask)) ==>
        magic_index(#[trigger] deposit(a as nat, mask), magic, shift) != magic_index(#[trigger] deposit(b as nat, mask), magic, shift)
}

/// Random candidates are drawn until one is collision free for the blocker sets; the
/// search gives up, with `None`, only once `u64::MAX` candidates have failed.
fn find_magic(subsets: &Vec<u64>, shift: usize) -> (r: Option<u64>)
    requires
        shift < 64,
        64 - shift < usize::BITS,
    ensures
        r matches Some(m) ==> forall|a: int, b: int| 0 <= a < b < subsets@.len() ==>
            magic_index(subsets@[a], m, shift as u64) != magic_index(subsets@[b], m, shift as u64),
{
    let mut tries: u64 = 0;
    while tries < u64::MAX
        invariant
            shift < 64,
            64 - shift < usize::BITS,
        decreases u64::MAX - tries,
    {
        let magic_number = MagicHelper::get_random_number();
        if MagicHelper::is_collision_free(subsets, magic_number, shift) {
            return Some(magic_number);
        }
        tries = tries + 1;
    }
    None
}

impl MagicHelper {
    /// Searches a multiplier for each square's attack mask, square by square, with the
    /// shift `64 - n` for a mask of `n` squares; each multiplier found fits its mask.
    /// `None` only when the search for some square gave up.
    pub fn generate_magics(mask_attacks: [u64; 64]) -> (r: Option<MagicHelper>)
        requires
            forall|i: int| 0 <= i < 64 ==> 1 <= #[trigger] nbits(mask_attacks@[i]) < usize::BITS,
        ensures
            r matches Some(h) ==> {
                &&& h.magic_numbers@.len() == 64
                &&& h.shifts@.len() == 64
                &&& forall|i: int| 0 <= i < 64 ==> #[trigger] h.shifts@[i] == 64 - nbits(mask_attacks@[i])
                    && magic_fits(mask_attacks@[i], h.magic_numbers@[i], h.shifts@[i] as u64)
            },
    {
        let mut magic_numbers: Vec<u64> = Vec::new();
        let mut shifts: Vec<usize> = Vec::new();
        let mut i: usize = 0;
        while i < 64
            invariant
                i <= 64,
                forall|k: int| 0 <= k < 64 ==> 1 <= #[trigger] nbits(mask_attacks@[k]) < usize::BITS,
                magic_numbers@.len() == i,
                shifts@.len() == i,
                forall|k: int| 0 <= k < i ==> #[trigger] shifts@[k] == 64 - nbits(mask_attacks@[k])
                    && magic_fits(mask_attacks@[k], magic_numbers@[k], shifts@[k] as u64),
            decreases 64 - i,
        {
            let attack_pattern_mask = mask_attacks[i];
            let bits = bit_count(attack_pattern_mask);
            assert(1 <= nbits(mask_attacks@[i as int]) < usize::BITS);
            let relevant_bit: usize = 64 - bits;
            let subsets = Self::generate_attack_subsets(attack_pattern_mask);
            match find_magic(&subsets, relevant_bit) {
                Some(magic_number) => {
                    proof {
                        assert forall|a: int, b: int| 0 <= a < b < pow2(nbits(attack_pattern_mask)) implies
                            magic_index(#[trigger] deposit(a as nat, attack_pattern_mask), magic_number, relevant_bit as u64)
                            != magic_index(#[trigger] deposit(b as nat, attack_pattern_mask), magic_number, relevant_bit as u64) by {
                            assert(subsets@[a] == deposit(a as nat, attack_pattern_mask));
                            assert(subsets@[b] == deposit(b as nat, attack_pattern_mask));
                        }
                    }
                    magic_numbers.push(magic_number);
                    shifts.push(relevant_bit);
                },
                None => {
                    return None;
                },
            }
            i = i + 1;
        }
        Some(MagicHelper { magic_numbers, shifts })
    }
}

/// A right shift by `s` leaves fewer than `64 - s` bits.
pub proof fn lemma_shift_bound(x: u64, s: u64)
    requires
        s < 64,
    ensures
        (x >> s) < pow2((64 - s) as nat),
{
    vstd::arithmetic::power2::lemma2_to64();
    if s == 0 {
        assert(x >> 0u64 == x) by (bit_vector);
    } else {
        assert(0 < s < 64 ==> (x >> s) < (1u64 << ((64 - s) as u64))) by (bit_vector);
        vstd::bits::lemma_u64_pow2_no_overflow((64 - s) as nat);
        vstd::bits::lemma_u64_shl_is_mul(1, (64 - s) as u64);
    }
}

/// A value below `2^k` with `k` at most the width of `usize` fits in a `usize`.
pub proof fn lemma_fits_usize(v: u64, k: nat)
    requires
        v < pow2(k),
        k <= usize::BITS,
    ensures
        v <= usize::MAX,
{
    vstd::arithmetic::power2::lemma2_to64();
    vstd::arithmetic::power2::lemma2_to64_rest();
    if k < usize::BITS {
        vstd::arithmetic::power2::lemma_pow2_strictly_increases(k, usize::BITS as nat);
    }
}

/// `1 << n` is `2^n` for a shift that fits.
pub proof fn lemma_usize_shl_is_pow2(n: usize)
    requires
        n < usize::BITS,
    ensures
        (1usize << n) == pow2(n as nat),
{
    vstd::bits::lemma_usize_pow2_no_overflow(n as nat);
    vstd::bits::lemma_usize_shl_is_mul(1, n);
}

/// Magic multipliers whose collisions never mix up two different attack sets
/// for the blocker subsets of `mask`.
pub open spec fn magics_sound(rook: bool, sq: int, mask: u64, magic: u64, shift: u64) -> bool {
    forall|s1: u64, s2: u64| #[trigger] is_subset(s1, mask) && #[trigger] is_subset(s2, mask)
        && magic_index(s1, magic, shift) == magic_index(s2, magic, shift) ==> slider(rook, sq, s1) == slider(rook, sq, s2)
}

/// Builds the magic table of one square: every blocker subset of `attacks_mask`
/// is sent to its magic index, where its attacks are stored (later subsets
/// overwrite earlier ones at the same index).
pub fn calc_lookup_table(attacks_mask: u64, shift: usize, magic_number: u64, file_rank: &FileRank, rook: bool) -> (table: Vec<u64>)
    requires
        shift < 64,
        64 - shift < usize::BITS,
        nbits(attacks_mask) < usize::BITS,
    ensures
        table_ok(table@, rook, file_rank.idx(), attacks_mask, magic_number, shift as u64),
        forall|i: int| 0 <= i < table@.len() && (forall|s: u64| #[trigger] is_subset(s, attacks_mask)
            ==> magic_index(s, magic_number, shift as u64) != i) ==> table@[i] == 0,
{
    let size: usize = 1usize << (64 - shift);
    proof {
        lemma_usize_shl_is_pow2((64 - shift) as usize);
    }
    let mut table: Vec<u64> = Vec::new();
    let mut k: usize = 0;
    while k < size
        invariant
            k <= size,
            table@.len() == k,
            forall|i: int| 0 <= i < k ==> #[trigger] table@[i] == 0,
        decreases size - k,
    {
        table.push(0);
        k = k + 1;
    }
    let subsets = MagicHelper::generate_attack_subsets(attacks_mask);
    let ghost sq = file_rank.idx();
    let ghost mut written: Set<int> = Set::empty();
    let mut j: usize = 0;
    while j < subsets.len()
        invariant
            shift < 64,
            64 - shift < usize::BITS,
            table@.len() == size,
            size == pow2((64 - shift) as nat),
            sq == file_rank.idx(),
            subsets@.len() == pow2(nbits(attacks_mask)),
            forall|x: int| 0 <= x < subsets@.len() ==> #[trigger] subsets@[x] == deposit(x as nat, attacks_mask),
            forall|x: int| 0 <= x < j ==> written.contains(magic_index(#[trigger] subsets@[x], magic_number, shift as u64) as int),
            forall|i: int| #[trigger] written.contains(i) ==> 0 <= i < size,
            forall|i: int| #[trigger] written.contains(i) ==> exists|s2: u64| #[trigger] is_subset(s2, attacks_mask)
                && magic_index(s2, magic_number, shift as u64) == i && table@[i] == slider(rook, sq, s2),
            forall|i: int| 0 <= i < size && !written.contains(i) ==> #[trigger] table@[i] == 0,
        decreases subsets@.len() - j,
    {
        let subset = subsets[j];
        let slot = MagicHelper::get_magic_index(subset, magic_number, shift);
        let attack = if rook { _gen_rook_move_fly(*file_rank, subset) } else { _gen_bishop_attacks_on_the_fly(*file_rank, subset) };
        let ghost old_table = table@;
        table.set(slot, attack);
        proof {
            lemma_deposit_extract(0, attacks_mask, j as nat);
            assert(is_subset(subset, attacks_mask));
            let old_written = written;
            written = written.insert(slot as int);
            assert forall|i: int| #[trigger] written.contains(i) implies exists|s2: u64| #[trigger] is_subset(s2, attacks_mask)
                && magic_index(s2, magic_number, shift as u64) == i && table@[i] == slider(rook, sq, s2) by {
                if i == slot {
                    assert(is_subset(subset, attacks_mask) && magic_index(subset, magic_number, shift as u64) == i && table@[i] == slider(rook, sq, subset));
                } else {
                    assert(old_written.contains(i));
                    let s2 = choose|s2: u64| #[trigger] is_subset(s2, attacks_mask)
                        && magic_index(s2, magic_number, shift as u64) == i && old_table[i] == slider(rook, sq, s2);
                    assert(table@[i] == old_table[i]);
                    assert(is_subset(s2, attacks_mask) && magic_index(s2, magic_number, shift as u64) == i && table@[i] == slider(rook, sq, s2));
                }
            }
            assert forall|x: int| 0 <= x < j + 1 implies written.contains(magic_index(#[trigger] subsets@[x], magic_number, shift as u64) as int) by {
                if x < j {
                    assert(old_written.contains(magic_index(subsets@[x], magic_number, shift as u64) as int));
                }
            }
        }
        j = j + 1;
    }
    proof {
        assert forall|s: u64| #[trigger] is_subset(s, attacks_mask) implies exists|s2: u64| #[trigger] is_subset(s2, attacks_mask)
            && magic_index(s2, magic_number, shift as u64) == magic_index(s, magic_number, shift as u64)
            && table@[magic_index(s, magic_number, shift as u64) as int] == slider(rook, sq, s2) by {
            lemma_deposit_extract(s, attacks_mask, 0);
            let x = extract(s, attacks_mask) as int;
            assert(subsets@[x] == s);
            assert(written.contains(magic_index(subsets@[x], magic_number, shift as u64) as int));
        }
        assert forall|i: int| 0 <= i < table@.len() && (forall|s: u64| #[trigger] is_subset(s, attacks_mask)
            ==> magic_index(s, magic_number, shift as u64) != i) implies table@[i] == 0 by {
            if written.contains(i) {
                let s2 = choose|s2: u64| #[trigger] is_subset(s2, attacks_mask)
                    && magic_index(s2, magic_number, shift as u64) == i && table@[i] == slider(rook, sq, s2);
                assert(is_subset(s2, attacks_mask));
            }
        }
    }
    table
}

/// Precomputed rook and bishop attacks for every square and every blocker set.
#[derive(Clone, Debug)]
pub struct MoveLookupTable {
    pub rook_attacks: Vec<Vec<u64>>,
    pub bishop_attacks: Vec<Vec<u64>>,
    pub rook_masks: Vec<u64>,
    pub bishop_masks: Vec<u64>,
    /// Per square: every blocker set of the rook mask was checked to find its own
    /// attacks in the rook table.
    pub rook_checked: Vec<bool>,
    /// Per square: the same for the bishop table.
    pub bishop_checked: Vec<bool>,
}

/// Every blocker subset of the mask finds, at its magic index, its own attacks.
pub open spec fn table_exact(t: Seq<u64>, rook: bool, sq: int, mask: u64, magic: u64, shift: u64) -> bool {
    forall|s: u64| #[trigger] is_subset(s, mask) ==> t[magic_index(s, magic, shift) as int] == slider(rook, sq, s)
}

/// An exact table makes the magics sound: two subsets at one index have the same attacks.
pub proof fn lemma_exact_sound(t: Seq<u64>, rook: bool, sq: int, mask: u64, magic: u64, shift: u64)
    requires
        table_exact(t, rook, sq, mask, magic, shift),
    ensures
        magics_sound(rook, sq, mask, magic, shift),
{
}

/// Whether every blocker subset of `attacks_mask` finds its own attacks at its magic
/// index of `table`.
pub fn check_table(table: &Vec<u64>, attacks_mask: u64, shift: usize, magic_number: u64, file_rank: &FileRank, rook: bool)
    -> (ok: bool)
    requires
        shift < 64,
        64 - shift < usize::BITS,
        nbits(attacks_mask) < usize::BITS,
        table@.len() == pow2((64 - shift) as nat),
    ensures
        ok == table_exact(table@, rook, file_rank.idx(), attacks_mask, magic_number, shift as u64),
{
    let subsets = MagicHelper::generate_attack_subsets(attacks_mask);
    let ghost sq = file_rank.idx();
    let mut j: usize = 0;
    while j < subsets.len()
        invariant
            shift < 64,
            64 - shift < usize::BITS,
            table@.len() == pow2((64 - shift) as nat),
            sq == file_rank.idx(),
            subsets@.len() == pow2(nbits(attacks_mask)),
            forall|x: int| 0 <= x < subsets@.len() ==> #[trigger] subsets@[x] == deposit(x as nat, attacks_mask),
            forall|x: int| 0 <= x < j ==> table@[magic_index(#[trigger] subsets@[x], magic_number, shift as u64) as int]
                == slider(rook, sq, subsets@[x]),
        decreases subsets@.len() - j,
    {
        let subset = subsets[j];
        let slot = MagicHelper::get_magic_index(subset, magic_number, shift);
        let attack = if rook { _gen_rook_move_fly(*file_rank, subset) } else { _gen_bishop_attacks_on_the_fly(*file_rank, subset) };
        if table[slot] != attack {
            proof {
                lemma_deposit_extract(0, attacks_mask, j as nat);
                assert(is_subset(subset, attacks_mask));
            }
            return false;
        }
        j = j + 1;
    }
    proof {
        assert forall|s: u64| #[trigger] is_subset(s, attacks_mask) implies
            table@[magic_index(s, magic_number, shift as u64) as int] == slider(rook, sq, s) by {
            lemma_deposit_extract(s, attacks_mask, 0);
            let x = extract(s, attacks_mask) as int;
            assert(subsets@[x] == s);
        }
    }
    true
}

impl MoveLookupTable {
    /// One table per square, built from the relevant masks and the precomputed magics.
    pub open spec fn wf(&self) -> bool {
        &&& self.rook_attacks@.len() == 64
        &&& self.bishop_attacks@.len() == 64
        &&& self.rook_masks@.len() == 64
        &&& self.bishop_masks@.len() == 64
        &&& forall|i: int| 0 <= i < 64 ==> #[trigger] self.rook_masks@[i] == rook_mask(i)
        &&& forall|i: int| 0 <= i < 64 ==> #[trigger] self.bishop_masks@[i] == bishop_mask(i)
        &&& forall|i: int| 0 <= i < 64 ==> table_ok(#[trigger] self.rook_attacks@[i]@, true, i, rook_mask(i), rook_magic(i), rook_shift(i))
        &&& forall|i: int| 0 <= i < 64 ==> table_ok(#[trigger] self.bishop_attacks@[i]@, false, i, bishop_mask(i), bishop_magic(i), bishop_shift(i))
        &&& self.rook_checked@.len() == 64
        &&& self.bishop_checked@.len() == 64
        &&& forall|i: int| 0 <= i < 64 && #[trigger] self.rook_checked@[i] ==>
            table_exact(self.rook_attacks@[i]@, true, i, rook_mask(i), rook_magic(i), rook_shift(i))
        &&& forall|i: int| 0 <= i < 64 && #[trigger] self.bishop_checked@[i] ==>
            table_exact(self.bishop_attacks@[i]@, false, i, bishop_mask(i), bishop_magic(i), bishop_shift(i))
    }

    /// Builds the rook and bishop tables of all 64 squares, and checks each table: a
    /// square is marked checked when every blocker set finds its own attacks there.
    pub fn init() -> (t: MoveLookupTable)
        ensures
            t.wf(),
            forall|i: int| 0 <= i < 64 ==> (#[trigger] t.rook_checked@[i] <==>
                table_exact(t.rook_attacks@[i]@, true, i, rook_mask(i), rook_magic(i), rook_shift(i))),
            forall|i: int| 0 <= i < 64 ==> (#[trigger] t.bishop_checked@[i] <==>
                table_exact(t.bishop_attacks@[i]@, false, i, bishop_mask(i), bishop_magic(i), bishop_shift(i))),
    {
        let mut rook: Vec<Vec<u64>> = Vec::new();
        let mut bishop: Vec<Vec<u64>> = Vec::new();
        let mut rook_masks: Vec<u64> = Vec::new();
        let mut bishop_masks: Vec<u64> = Vec::new();
        let mut rook_checked: Vec<bool> = Vec::new();
        let mut bishop_checked: Vec<bool> = Vec::new();
        let squares = FileRank::iter();
        let mut i: usize = 0;
        while i < 64
            invariant
                i <= 64,
                squares@.len() == 64,
                forall|k: int| 0 <= k < 64 ==> #[trigger] squares@[k] == crate::square::square_at(k),
                rook@.len() == i,
                bishop@.len() == i,
                rook_masks@.len() == i,
                bishop_masks@.len() == i,
                forall|k: int| 0 <= k < i ==> #[trigger] rook_masks@[k] == rook_mask(k),
                forall|k: int| 0 <= k < i ==> #[trigger] bishop_masks@[k] == bishop_mask(k),
                forall|k: int| 0 <= k < i ==> table_ok(#[trigger] rook@[k]@, true, k, rook_mask(k), rook_magic(k), rook_shift(k)),
                forall|k: int| 0 <= k < i ==> table_ok(#[trigger] bishop@[k]@, false, k, bishop_mask(k), bishop_magic(k), bishop_shift(k)),
                rook_checked@.len() == i,
                bishop_checked@.len() == i,
                forall|k: int| 0 <= k < i ==> (#[trigger] rook_checked@[k] <==>
                    table_exact(rook@[k]@, true, k, rook_mask(k), rook_magic(k), rook_shift(k))),
                forall|k: int| 0 <= k < i ==> (#[trigger] bishop_checked@[k] <==>
                    table_exact(bishop@[k]@, false, k, bishop_mask(k), bishop_magic(k), bishop_shift(k))),
            decreases 64 - i,
        {
            let fr = squares[i];
            proof {
                crate::square::lemma_square_at(i as int);
                crate::attacks::lemma_mask_sizes(i as int);
            }
            let rm = _gen_rook_attacks_mask(fr);
            let bm = _gen_bishop_attacks_mask(fr);
            let rt = calc_lookup_table(rm, rook_shift_amount(i) as usize, rook_magic_number(i), &fr, true);
            let bt = calc_lookup_table(bm, bishop_shift_amount(i) as usize, bishop_magic_number(i), &fr, false);
            let rc = check_table(&rt, rm, rook_shift_amount(i) as usize, rook_magic_number(i), &fr, true);
            let bc = check_table(&bt, bm, bishop_shift_amount(i) as usize, bishop_magic_number(i), &fr, false);
            rook_checked.push(rc);
            bishop_checked.push(bc);
            rook.push(rt);
            bishop.push(bt);
            rook_masks.push(rm);
            bishop_masks.push(bm);
            i = i + 1;
        }
        MoveLookupTable { rook_attacks: rook, bishop_attacks: bishop, rook_masks, bishop_masks, rook_checked, bishop_checked }
    }

    /// Rook attacks from `file_rank` with blockers `all_pieces`: read from the table when
    /// the square's table was checked (always so for the built-in multipliers), computed
    /// on the fly otherwise.
    pub fn get_rook_attack(&self, file_rank: FileRank, all_pieces: u64) -> (attacks: u64)
        requires
            self.wf(),
        ensures
            attacks == rook_attacks(file_rank.idx(), all_pieces),
            self.rook_checked@[file_rank.idx()] ==> attacks == self.rook_attacks@[file_rank.idx()]@[magic_index(
                all_pieces & rook_mask(file_rank.idx()), rook_magic(file_rank.idx()), rook_shift(file_rank.idx())) as int],
    {
        let fr_index = file_rank.index();
        let ghost i = fr_index as int;
        proof {
            crate::attacks::lemma_rook_relevant(i, all_pieces);
        }
        if !self.rook_checked[fr_index] {
            return _gen_rook_move_fly(file_rank, all_pieces);
        }
        let attack_mask = self.rook_masks[fr_index];
        let magic_number = rook_magic_number(fr_index);
        let shift = rook_shift_amount(fr_index) as usize;
        let blockers: u64 = attack_mask & all_pieces;
        let slot = MagicHelper::get_magic_index(blockers, magic_number, shift);
        proof {
            assert(table_ok(self.rook_attacks@[i]@, true, i, rook_mask(i), rook_magic(i), rook_shift(i)));
            assert(table_exact(self.rook_attacks@[i]@, true, i, rook_mask(i), rook_magic(i), rook_shift(i)));
            crate::bits::lemma_word_facts(attack_mask, all_pieces, 0, 0);
            crate::bits::lemma_word_facts(all_pieces, attack_mask, 0, 0);
            assert(is_subset(blockers, attack_mask));
        }
        self.rook_attacks[fr_index][slot]
    }

    /// Bishop attacks from `file_rank` with blockers `all_pieces`: read from the table when
    /// the square's table was checked (always so for the built-in multipliers), computed
    /// on the fly otherwise.
    pub fn get_bishop_attack(&self, file_rank: FileRank, all_pieces: u64) -> (attacks: u64)
        requires
            self.wf(),
        ensures
            attacks == bishop_attacks(file_rank.idx(), all_pieces),
            self.bishop_checked@[file_rank.idx()] ==> attacks == self.bishop_attacks@[file_rank.idx()]@[magic_index(
                all_pieces & bishop_mask(file_rank.idx()), bishop_magic(file_rank.idx()), bishop_shift(file_rank.idx())) as int],
    {
        let fr_index = file_rank.index();
        let ghost i = fr_index as int;
        proof {
            crate::attacks::lemma_bishop_relevant(i, all_pieces);
        }
        if !self.bishop_checked[fr_index] {
            return _gen_bishop_attacks_on_the_fly(file_rank, all_pieces);
        }
        let attack_mask = self.bishop_masks[fr_index];
        let magic_number = bishop_magic_number(fr_index);
        let shift = bishop_shift_amount(fr_index) as usize;
        let blockers: u64 = attack_mask & all_pieces;
        let slot = MagicHelper::get_magic_index(blockers, magic_number, shift);
        proof {
            assert(table_ok(self.bishop_attacks@[i]@, false, i, bishop_mask(i), bishop_magic(i), bishop_shift(i)));
            assert(table_exact(self.bishop_attacks@[i]@, false, i, bishop_mask(i), bishop_magic(i), bishop_shift(i)));
            crate::bits::lemma_word_facts(attack_mask, all_pieces, 0, 0);
            crate::bits::lemma_word_facts(all_pieces, attack_mask, 0, 0);
            assert(is_subset(blockers, attack_mask));
        }
        self.bishop_attacks[fr_index][slot]
    }

    /// The diagonal squares a pawn of `color` on `file_rank` attacks (blockers do not matter).
    pub fn get_pawn_attack(&self, file_rank: FileRank, all_pieces: u64, color: Color) -> (attacks: u64)
        ensures
            forall|t: int| 0 <= t < 64 ==> #[trigger] bit_at(attacks, t) == pawn_capture_step(color, file_rank.idx(), t),
    {
        get_pawn_pattern_attacks(&color, &file_rank)
    }
}

} // verus!
