//! Reading back a written FEN record: the record of a game reads as the same board,
//! bitboards, side to move, en-passant square and clocks, and (since reading adds the
//! castling letters to full rights) the same castling rights when all four are held.
use vstd::prelude::*;
use crate::bits::{bit_at, single, lemma_bits_ext, lemma_bit_ops, lemma_single};
use crate::fen::{Placement, placement_of, place_step, empty_placement, placement_fits, field, field_start, tok_end,
    ws_skip, is_ws, count_text, row_text, placement_text_from, castling_text, ep_text, fen_text, color_field,
    clock_field};
use crate::game::{GameState, consistent};
use crate::square::square_at;
use crate::types::{Color, fen_letter, piece_of_letter, piece_of_ord, piece_ord, parse_u8, decimal_text, decimal_value,
    all_digits, digit_value, lemma_piece_letter, lemma_letter_piece, lemma_piece_of_ord};
use crate::zobrist::position_hash;

verus! {

/// Reading two texts one after the other is reading them joined.
proof fn lemma_placement_concat(a: Seq<char>, b: Seq<char>, st: Placement)
    ensures
        placement_of(a + b, st) == placement_of(b, placement_of(a, st)),
    decreases b.len(),
{
    if b.len() == 0 {
        assert(a + b =~= a);
    } else {
        assert((a + b).drop_last() =~= a + b.drop_last());
        assert((a + b).last() == b.last());
        lemma_placement_concat(a, b.drop_last(), st);
    }
}

/// The reading state holds the board's pieces on the squares before `upto` and nothing
/// on the others.
spec fn agrees(st: Placement, b: Seq<char>, upto: int) -> bool {
    &&& st.board.len() == 64
    &&& st.bb.len() == 12
    &&& forall|sq: int| 0 <= sq < 64 ==> #[trigger] st.board[sq] == (if sq < upto { b[sq] } else { '-' })
    &&& forall|k: int, sq: int| 0 <= k < 12 && 0 <= sq < 64 ==>
        (#[trigger] bit_at(st.bb[k], sq) <==> (sq < upto && b[sq] == fen_letter(piece_of_ord(k))))
}

/// Two bitboard positions with the same letter are the same position.
proof fn lemma_letters_distinct(k: int, j: int)
    requires
        0 <= k < 12,
        0 <= j < 12,
        fen_letter(piece_of_ord(k)) == fen_letter(piece_of_ord(j)),
    ensures
        k == j,
{
    lemma_piece_letter(piece_of_ord(k));
    lemma_piece_letter(piece_of_ord(j));
    lemma_piece_of_ord(k);
    lemma_piece_of_ord(j);
}

/// A run of `e` empty squares written as a digit moves the column on by `e` and leaves the
/// board as it was; the squares it passes are empty on the board too.
proof fn lemma_count_step(b: Seq<char>, r: int, f: int, e: int, st: Placement)
    requires
        0 <= r < 8,
        0 <= e <= f <= 8,
        b.len() == 64,
        forall|c: int| f - e <= c < f ==> #[trigger] b[r * 8 + c] == '-',
        st.ok,
        st.row == r,
        st.col == f - e,
        agrees(st, b, r * 8 + f - e),
    ensures
        placement_of(count_text(e), st).ok,
        placement_of(count_text(e), st).row == r,
        placement_of(count_text(e), st).col == f,
        agrees(placement_of(count_text(e), st), b, r * 8 + f),
{
    let t = count_text(e);
    if e > 0 {
        let d = (e + 48) as char;
        assert(t == seq![d]);
        assert(t.drop_last() =~= Seq::<char>::empty());
        assert(piece_of_letter(d) is None);
        reveal_with_fuel(placement_of, 2);
        let st2 = placement_of(t, st);
        assert(st2 == place_step(st, d));
        assert forall|k: int, sq: int| 0 <= k < 12 && 0 <= sq < 64 implies
            (#[trigger] bit_at(st2.bb[k], sq) <==> (sq < r * 8 + f && b[sq] == fen_letter(piece_of_ord(k)))) by {
            lemma_piece_letter(piece_of_ord(k));
            if r * 8 + f - e <= sq < r * 8 + f {
                assert(b[r * 8 + (sq - r * 8)] == '-');
            }
        }
        assert forall|sq: int| 0 <= sq < 64 implies #[trigger] st2.board[sq] == (if sq < r * 8 + f { b[sq] } else { '-' }) by {
            if r * 8 + f - e <= sq < r * 8 + f {
                assert(b[r * 8 + (sq - r * 8)] == '-');
            }
        }
    } else {
        assert(t.len() == 0);
    }
}

/// Reading the text of row `r` from column `f` on, with the `e` squares before `f`
/// empty and pending, fills in the rest of the row.
proof fn lemma_row_reads(b: Seq<char>, bb: Seq<u64>, r: int, f: int, e: int, st: Placement)
    requires
        consistent(bb, b),
        0 <= r < 8,
        0 <= e <= f <= 8,
        forall|c: int| f - e <= c < f ==> #[trigger] b[r * 8 + c] == '-',
        st.ok,
        st.row == r,
        st.col == f - e,
        agrees(st, b, r * 8 + f - e),
    ensures
        placement_of(row_text(b, r, f, e), st).ok,
        placement_of(row_text(b, r, f, e), st).row == r,
        placement_of(row_text(b, r, f, e), st).col == 8,
        agrees(placement_of(row_text(b, r, f, e), st), b, r * 8 + 8),
    decreases 8 - f,
{
    if f >= 8 {
        lemma_count_step(b, r, f, e, st);
    } else {
        let idx = r * 8 + f;
        match piece_of_letter(b[idx]) {
            Some(pc) => {
                lemma_count_step(b, r, f, e, st);
                let st1 = placement_of(count_text(e), st);
                let letter = seq![fen_letter(pc)];
                lemma_letter_piece(b[idx]);
                lemma_piece_letter(pc);
                assert(fen_letter(pc) == b[idx]);
                assert(letter.drop_last() =~= Seq::<char>::empty());
                reveal_with_fuel(placement_of, 2);
                let st2 = placement_of(letter, st1);
                assert(st2 == place_step(st1, fen_letter(pc)));
                let o = piece_ord(pc);
                assert(piece_of_ord(o) == pc);
                assert forall|sq: int| 0 <= sq < 64 implies #[trigger] st2.board[sq] == (if sq < idx + 1 { b[sq] } else { '-' }) by {
                }
                assert forall|k: int, sq: int| 0 <= k < 12 && 0 <= sq < 64 implies
                    (#[trigger] bit_at(st2.bb[k], sq) <==> (sq < idx + 1 && b[sq] == fen_letter(piece_of_ord(k)))) by {
                    if k == o {
                        lemma_bit_ops(st1.bb[k], single(idx), sq);
                        lemma_single(idx, sq);
                    } else {
                        assert(st2.bb[k] == st1.bb[k]);
                        if sq == idx && b[sq] == fen_letter(piece_of_ord(k)) {
                            lemma_letters_distinct(k, o);
                        }
                    }
                }
                lemma_row_reads(b, bb, r, f + 1, 0, st2);
                let rest = row_text(b, r, f + 1, 0);
                assert(row_text(b, r, f, e) == count_text(e) + letter + rest);
                lemma_placement_concat(count_text(e), letter, st);
                lemma_placement_concat(count_text(e) + letter, rest, st);
            },
            None => {
                assert(b[idx] == '-');
                assert forall|c: int| (f + 1) - (e + 1) <= c < f + 1 implies #[trigger] b[r * 8 + c] == '-' by {
                    if c < f {
                        assert(b[r * 8 + c] == '-');
                    }
                }
                lemma_row_reads(b, bb, r, f + 1, e + 1, st);
            },
        }
    }
}

/// Reading the rows from `r` down fills in the whole board.
proof fn lemma_rows_read(b: Seq<char>, bb: Seq<u64>, r: int, st: Placement)
    requires
        consistent(bb, b),
        0 <= r <= 8,
        r < 8 ==> st.row == r && st.col == 0,
        st.ok,
        agrees(st, b, r * 8),
    ensures
        placement_of(placement_text_from(b, r), st).ok,
        agrees(placement_of(placement_text_from(b, r), st), b, 64),
    decreases 8 - r,
{
    if r < 8 {
        lemma_row_reads(b, bb, r, 0, 0, st);
        let row = row_text(b, r, 0, 0);
        let st1 = placement_of(row, st);
        let sep: Seq<char> = if r < 7 { seq!['/'] } else { Seq::empty() };
        let st2 = placement_of(sep, st1);
        if r < 7 {
            assert(sep.drop_last() =~= Seq::<char>::empty());
            reveal_with_fuel(placement_of, 2);
            assert(st2 == place_step(st1, '/'));
        }
        lemma_rows_read(b, bb, r + 1, st2);
        lemma_placement_concat(row, sep, st);
        lemma_placement_concat(row + sep, placement_text_from(b, r + 1), st);
        assert(placement_text_from(b, r) == row + sep + placement_text_from(b, r + 1));
    }
}

/// The placement text of a consistent board reads back as that board and its bitboards.
proof fn lemma_placement_reads(b: Seq<char>, bb: Seq<u64>)
    requires
        consistent(bb, b),
    ensures
        placement_of(placement_text_from(b, 0), empty_placement()).ok,
        placement_of(placement_text_from(b, 0), empty_placement()).board == b,
        placement_of(placement_text_from(b, 0), empty_placement()).bb == bb,
{
    let st = empty_placement();
    assert forall|k: int, sq: int| 0 <= k < 12 && 0 <= sq < 64 implies
        (#[trigger] bit_at(st.bb[k], sq) <==> (sq < 0 && b[sq] == fen_letter(piece_of_ord(k)))) by {
        lemma_bit_ops(0u64, 0u64, sq);
    }
    lemma_rows_read(b, bb, 0, st);
    let fin = placement_of(placement_text_from(b, 0), st);
    assert(fin.board =~= b);
    assert forall|k: int| 0 <= k < 12 implies #[trigger] fin.bb[k] == bb[k] by {
        assert forall|sq: int| 0 <= sq < 64 implies bit_at(fin.bb[k], sq) == bit_at(bb[k], sq) by {
            assert(bit_at(bb[k], sq) <==> b[sq] == fen_letter(piece_of_ord(k)));
        }
        lemma_bits_ext(fin.bb[k], bb[k]);
    }
    assert(fin.bb =~= bb);
}

/// Characters that a written record holds outside its separating spaces.
spec fn record_char(c: char) -> bool {
    piece_of_letter(c) is Some || ('0' <= c <= '9') || c == '/' || c == '-' || ('a' <= c <= 'h') || c == 'w'
}

proof fn lemma_record_char_not_ws(c: char)
    requires
        record_char(c),
    ensures
        !is_ws(c),
{
}

/// The text of a row holds only record characters, and is not empty while squares or
/// pending empties remain.
proof fn lemma_row_chars(b: Seq<char>, r: int, f: int, e: int)
    requires
        0 <= r < 8,
        0 <= e <= f <= 8,
        b.len() == 64,
    ensures
        forall|i: int| 0 <= i < row_text(b, r, f, e).len() ==> record_char(#[trigger] row_text(b, r, f, e)[i]),
        (f < 8 || e > 0) ==> row_text(b, r, f, e).len() >= 1,
    decreases 8 - f,
{
    if f < 8 {
        match piece_of_letter(b[r * 8 + f]) {
            Some(pc) => {
                lemma_row_chars(b, r, f + 1, 0);
                lemma_piece_letter(pc);
                let t = count_text(e) + seq![fen_letter(pc)] + row_text(b, r, f + 1, 0);
                assert forall|i: int| 0 <= i < t.len() implies record_char(#[trigger] t[i]) by {
                    if i >= count_text(e).len() + 1 {
                        assert(t[i] == row_text(b, r, f + 1, 0)[i - count_text(e).len() - 1]);
                    }
                }
            },
            None => {
                lemma_row_chars(b, r, f + 1, e + 1);
            },
        }
    }
}

/// The placement text holds only record characters and is not empty.
proof fn lemma_placement_chars(b: Seq<char>, r: int)
    requires
        0 <= r <= 8,
        b.len() == 64,
    ensures
        forall|i: int| 0 <= i < placement_text_from(b, r).len() ==> record_char(#[trigger] placement_text_from(b, r)[i]),
        r < 8 ==> placement_text_from(b, r).len() >= 1,
    decreases 8 - r,
{
    if r < 8 {
        lemma_row_chars(b, r, 0, 0);
        lemma_placement_chars(b, r + 1);
        let row = row_text(b, r, 0, 0);
        let sep: Seq<char> = if r < 7 { seq!['/'] } else { Seq::empty() };
        let rest = placement_text_from(b, r + 1);
        let t = row + sep + rest;
        assert forall|i: int| 0 <= i < t.len() implies record_char(#[trigger] t[i]) by {
            if i >= row.len() + sep.len() {
                assert(t[i] == rest[i - row.len() - sep.len()]);
            } else if i >= row.len() {
                assert(t[i] == sep[i - row.len()]);
            } else {
                assert(t[i] == row[i]);
            }
        }
    }
}

/// Decimal text is digits, not empty, and denotes its number.
proof fn lemma_decimal_text(n: nat)
    ensures
        decimal_text(n).len() >= 1,
        all_digits(decimal_text(n)),
        decimal_value(decimal_text(n)) == n,
    decreases n,
{
    if n >= 10 {
        lemma_decimal_text(n / 10);
        let d = decimal_text(n / 10);
        let t = d.push(((n % 10) + 48) as char);
        assert(t.drop_last() =~= d);
        assert forall|i: int| 0 <= i < t.len() implies '0' <= #[trigger] t[i] <= '9' by {
            if i < d.len() {
                assert(t[i] == d[i]);
            }
        }
        assert(decimal_value(t) == decimal_value(d) * 10 + digit_value(t.last()));
        assert(digit_value(t.last()) == n % 10);
        assert(n == (n / 10) * 10 + n % 10);
        assert(decimal_text(n) == t);
    } else {
        let t = seq![(n + 48) as char];
        assert(t.drop_last() =~= Seq::<char>::empty());
        assert(decimal_value(t.drop_last()) == 0);
        assert(decimal_value(t) == decimal_value(t.drop_last()) * 10 + digit_value(t.last()));
        assert(decimal_text(n) == t);
    }
}

/// A written clock reads back as its value.
proof fn lemma_clock_reads(n: u8)
    ensures
        clock_field(decimal_text(n as nat)) == n,
        decimal_text(n as nat).len() >= 1,
        forall|i: int| 0 <= i < decimal_text(n as nat).len() ==> record_char(#[trigger] decimal_text(n as nat)[i]),
{
    lemma_decimal_text(n as nat);
    let d = decimal_text(n as nat);
    assert(d[0] != '+');
    assert(parse_u8(d) == Some(n));
    assert forall|i: int| 0 <= i < d.len() implies record_char(#[trigger] d[i]) by {
        assert('0' <= d[i] <= '9');
    }
}

/// A token of non-space characters from `a` ends at `b`, the next space or the end.
proof fn lemma_token_end(s: Seq<char>, a: int, b: int)
    requires
        0 <= a <= b <= s.len(),
        forall|i: int| a <= i < b ==> !is_ws(#[trigger] s[i]),
        b == s.len() || is_ws(s[b]),
    ensures
        tok_end(s, a) == b,
    decreases b - a,
{
    if a < b {
        lemma_token_end(s, a + 1, b);
    }
}

/// Field `k` starts at `start` and runs to `end`; when a space and another token follow,
/// field `k + 1` starts after the space.
proof fn lemma_field_span(s: Seq<char>, k: nat, start: int, end: int)
    requires
        field_start(s, k) == start,
        0 <= start <= end <= s.len(),
        forall|i: int| start <= i < end ==> !is_ws(#[trigger] s[i]),
        end == s.len() || s[end] == ' ',
    ensures
        field(s, k) == s.subrange(start, end),
        end + 1 < s.len() && !is_ws(s[end + 1]) ==> field_start(s, k + 1) == end + 1,
{
    lemma_token_end(s, start, end);
    if end + 1 < s.len() && !is_ws(s[end + 1]) {
        assert(field_start(s, k + 1) == ws_skip(s, tok_end(s, field_start(s, k))));
        assert(ws_skip(s, end) == ws_skip(s, end + 1));
        assert(ws_skip(s, end + 1) == end + 1);
    }
}

/// The fields of a game's FEN record are the texts it was written from.
#[verifier::rlimit(60)]
proof fn lemma_record_fields(g: &GameState)
    requires
        consistent(g.bitboard@, g.board@),
    ensures
        field(fen_text(g), 0) == placement_text_from(g.board@, 0),
        field(fen_text(g), 1) == seq![if g.move_turn == Color::White { 'w' } else { 'b' }],
        field(fen_text(g), 2) == castling_text(g.castling.mask),
        field(fen_text(g), 3) == ep_text(g.en_passant),
        field(fen_text(g), 4) == decimal_text(g.halfmove_clock.0 as nat),
        field(fen_text(g), 5) == decimal_text(g.fullmove_number.0 as nat),
{
    let b = g.board@;
    let pl = placement_text_from(b, 0);
    let col = seq![if g.move_turn == Color::White { 'w' } else { 'b' }];
    let ca = castling_text(g.castling.mask);
    let ep = ep_text(g.en_passant);
    let hf = decimal_text(g.halfmove_clock.0 as nat);
    let fl = decimal_text(g.fullmove_number.0 as nat);
    let sp = seq![' '];
    let s = fen_text(g);
    assert(s == pl + sp + col + sp + ca + sp + ep + sp + hf + sp + fl);
    lemma_placement_chars(b, 0);
    lemma_clock_reads(g.halfmove_clock.0);
    lemma_clock_reads(g.fullmove_number.0);
    assert(ca.len() >= 1 && forall|i: int| 0 <= i < ca.len() ==> record_char(#[trigger] ca[i]));
    match g.en_passant {
        Some(fr) => {
            fr.lemma_idx();
            assert(ep.len() == 2 && record_char(ep[0]) && record_char(ep[1]));
        },
        None => {},
    }
    assert(ep.len() >= 1 && forall|i: int| 0 <= i < ep.len() ==> record_char(#[trigger] ep[i]));
    let e0 = pl.len() as int;
    let p1 = e0 + 1;
    let e1 = p1 + 1;
    let p2 = e1 + 1;
    let e2 = p2 + ca.len();
    let p3 = e2 + 1;
    let e3 = p3 + ep.len();
    let p4 = e3 + 1;
    let e4 = p4 + hf.len();
    let p5 = e4 + 1;
    let e5 = p5 + fl.len();
    assert(s.len() == e5);
    assert forall|i: int| 0 <= i < e0 implies !is_ws(#[trigger] s[i]) by {
        assert(s[i] == pl[i]);
        lemma_record_char_not_ws(pl[i]);
    }
    assert forall|i: int| p1 <= i < e1 implies !is_ws(#[trigger] s[i]) by {
        assert(s[i] == col[i - p1]);
    }
    assert forall|i: int| p2 <= i < e2 implies !is_ws(#[trigger] s[i]) by {
        assert(s[i] == ca[i - p2]);
        lemma_record_char_not_ws(ca[i - p2]);
    }
    assert forall|i: int| p3 <= i < e3 implies !is_ws(#[trigger] s[i]) by {
        assert(s[i] == ep[i - p3]);
        lemma_record_char_not_ws(ep[i - p3]);
    }
    assert forall|i: int| p4 <= i < e4 implies !is_ws(#[trigger] s[i]) by {
        assert(s[i] == hf[i - p4]);
        lemma_record_char_not_ws(hf[i - p4]);
    }
    assert forall|i: int| p5 <= i < e5 implies !is_ws(#[trigger] s[i]) by {
        assert(s[i] == fl[i - p5]);
        lemma_record_char_not_ws(fl[i - p5]);
    }
    assert(s[e0] == ' ' && s[e1] == ' ' && s[e2] == ' ' && s[e3] == ' ' && s[e4] == ' ');
    assert(!is_ws(s[0]));
    assert(field_start(s, 0) == 0);
    lemma_field_span(s, 0, 0, e0);
    lemma_field_span(s, 1, p1, e1);
    lemma_field_span(s, 2, p2, e2);
    lemma_field_span(s, 3, p3, e3);
    lemma_field_span(s, 4, p4, e4);
    lemma_field_span(s, 5, p5, e5);
    assert(field(s, 0) =~= pl);
    assert(field(s, 1) =~= col);
    assert(field(s, 2) =~= ca);
    assert(field(s, 3) =~= ep);
    assert(field(s, 4) =~= hf);
    assert(field(s, 5) =~= fl);
}

/// What reading a FEN record `s` gives, as `deserialize` states it.
pub open spec fn reads_as(s: Seq<char>, d: &GameState) -> bool {
    &&& d.board@ == placement_of(field(s, 0), empty_placement()).board
    &&& d.bitboard@ == placement_of(field(s, 0), empty_placement()).bb
    &&& d.move_turn == color_field(field(s, 1))
    &&& d.castling.mask == 0b1111
    &&& (d.en_passant matches Some(fr) ==> field(s, 3) == fr.name())
    &&& (d.en_passant is None ==> forall|i: int| 0 <= i < 64 ==> field(s, 3) != #[trigger] square_at(i).name())
    &&& d.halfmove_clock.0 == clock_field(field(s, 4))
    &&& d.fullmove_number.0 == clock_field(field(s, 5))
    &&& d.hash == position_hash(&*d.zobrist_hashing, d.bitboard@, d.castling.mask, d.en_passant, d.move_turn)
    &&& crate::zobrist::standard_keys(&*d.zobrist_hashing)
}

/// The FEN record of a game can be read, and a game read from it has the same board,
/// bitboards, side to move, en-passant square and clocks, all four castling rights (which
/// are the game's own when it holds all four), and the hash of that position under its
/// own keys; its keys are the standard ones, so where the game's are too and it holds
/// all four rights, the two hashes are equal.
#[verifier::rlimit(40)]
pub proof fn lemma_fen_round_trip(g: &GameState, d: &GameState)
    requires
        consistent(g.bitboard@, g.board@),
    ensures
        placement_fits(fen_text(g)),
        reads_as(fen_text(g), d) ==> {
            &&& d.board@ == g.board@
            &&& d.bitboard@ == g.bitboard@
            &&& d.move_turn == g.move_turn
            &&& d.en_passant == g.en_passant
            &&& d.halfmove_clock == g.halfmove_clock
            &&& d.fullmove_number == g.fullmove_number
            &&& d.castling.mask == 0b1111
            &&& (g.castling.mask == 0b1111 ==> d.castling == g.castling
                && d.hash == position_hash(&*d.zobrist_hashing, g.bitboard@, g.castling.mask, g.en_passant, g.move_turn))
            &&& (g.castling.mask == 0b1111 && crate::zobrist::standard_keys(&*g.zobrist_hashing)
                && g.hash == position_hash(&*g.zobrist_hashing, g.bitboard@, g.castling.mask, g.en_passant, g.move_turn)
                ==> d.hash == g.hash)
        },
{
    let b = g.board@;
    let pl = placement_text_from(b, 0);
    let col = seq![if g.move_turn == Color::White { 'w' } else { 'b' }];
    let ep = ep_text(g.en_passant);
    let hf = decimal_text(g.halfmove_clock.0 as nat);
    let fl = decimal_text(g.fullmove_number.0 as nat);
    let s = fen_text(g);
    lemma_record_fields(g);
    lemma_placement_reads(b, g.bitboard@);
    lemma_clock_reads(g.halfmove_clock.0);
    lemma_clock_reads(g.fullmove_number.0);
    assert(seq!['w'] != seq!['b']) by {
        assert(seq!['w'][0] != seq!['b'][0]);
    }
    assert(color_field(col) == g.move_turn);
    if reads_as(s, d) {
        if crate::zobrist::standard_keys(&*g.zobrist_hashing) {
            crate::zobrist::lemma_standard_keys_hash(&*d.zobrist_hashing, &*g.zobrist_hashing, g.bitboard@,
                g.castling.mask, g.en_passant, g.move_turn);
        }
        match d.en_passant {
            Some(x) => {
                match g.en_passant {
                    Some(y) => {
                        crate::square::lemma_name_identifies_square(x, y);
                    },
                    None => {
                        assert(ep.len() == 1);
                        assert(x.name().len() == 2);
                    },
                }
            },
            None => {
                match g.en_passant {
                    Some(y) => {
                        y.lemma_idx();
                        assert(field(s, 3) == square_at(y.idx()).name());
                    },
                    None => {},
                }
            },
        }
    }
}


/// Each '/' of a placement text comes at most eight columns into its row, so no piece is
/// written onto a square of a row already read.
pub open spec fn rows_fit(s: Seq<char>) -> bool {
    forall|i: int| 0 <= i < s.len() && #[trigger] s[i] == '/' ==> placement_of(s.take(i), empty_placement()).col <= 8
}

/// What reading a placement keeps: board and bitboards agree, and every square from the
/// current reading position on is still empty.
spec fn placement_inv(st: Placement) -> bool {
    &&& consistent(st.bb, st.board)
    &&& st.row >= 0
    &&& st.col >= 0
    &&& forall|i: int| 0 <= i < 64 && i >= st.row * 8 + st.col ==> #[trigger] st.board[i] == '-'
}

/// Reading the first `n` characters of a placement whose rows fit keeps the invariant.
proof fn lemma_placement_prefix(s: Seq<char>, n: int)
    requires
        rows_fit(s),
        0 <= n <= s.len(),
    ensures
        placement_inv(placement_of(s.take(n), empty_placement())),
    decreases n,
{
    let e = empty_placement();
    if n == 0 {
        assert(s.take(0) =~= Seq::<char>::empty());
        assert forall|k: int, sq: int| 0 <= k < 12 && 0 <= sq < 64 implies (#[trigger] bit_at(e.bb[k], sq) <==> e.board[sq] == fen_letter(piece_of_ord(k))) by {
            lemma_piece_letter(piece_of_ord(k));
            lemma_bit_ops(0u64, 0u64, sq);
        }
    } else {
        lemma_placement_prefix(s, n - 1);
        let st = placement_of(s.take(n - 1), e);
        let c = s[n - 1];
        assert(s.take(n).drop_last() =~= s.take(n - 1));
        assert(s.take(n).last() == c);
        let nx = place_step(st, c);
        assert(placement_of(s.take(n), e) == nx);
        match piece_of_letter(c) {
            Some(pc) => {
                let idx = st.row * 8 + st.col;
                if idx < 64 {
                    let pos = crate::game::Position { bitboard: st.bb, board: st.board, turn: Color::White, castling: 0,
                        half: 0, full: 0, en_passant: None, hash: 0, history: Seq::empty() };
                    crate::game::lemma_put_consistent(pos, pc, idx);
                    assert(nx.board == crate::game::put(pos, pc, idx).board);
                    assert(nx.bb == crate::game::put(pos, pc, idx).bitboard);
                }
            },
            None => {
                if c == '/' {
                    assert(s[n - 1] == '/');
                }
            },
        }
    }
}

/// Reading a placement whose rows fit gives a board and bitboards that agree, so each
/// square holds at most one piece and no two of the twelve bitboards share a square.
pub proof fn lemma_placement_consistent(s: Seq<char>)
    requires
        rows_fit(s),
    ensures
        consistent(placement_of(s, empty_placement()).bb, placement_of(s, empty_placement()).board),
        forall|a: int, b: int, sq: int| 0 <= a < b < 12 && 0 <= sq < 64 ==>
            !(#[trigger] bit_at(placement_of(s, empty_placement()).bb[a], sq) && #[trigger] bit_at(placement_of(s, empty_placement()).bb[b], sq)),
{
    lemma_placement_prefix(s, s.len() as int);
    assert(s.take(s.len() as int) =~= s);
    let st = placement_of(s, empty_placement());
    assert forall|a: int, b: int, sq: int| 0 <= a < b < 12 && 0 <= sq < 64 implies
        !(#[trigger] bit_at(st.bb[a], sq) && #[trigger] bit_at(st.bb[b], sq)) by {
        if bit_at(st.bb[a], sq) && bit_at(st.bb[b], sq) {
            lemma_piece_of_ord(a);
            lemma_piece_of_ord(b);
            lemma_piece_letter(piece_of_ord(a));
            lemma_piece_letter(piece_of_ord(b));
            assert(fen_letter(piece_of_ord(a)) == fen_letter(piece_of_ord(b)));
            assert(piece_of_ord(a) == piece_of_ord(b));
        }
    }
}


/// In the FEN record of a game the castling field holds 'K' exactly when White may still
/// castle king side, 'Q' exactly when White may castle queen side, 'k' and 'q' likewise
/// for Black, and is "-" exactly when no right is held.
pub proof fn lemma_record_castling(g: &GameState)
    requires
        consistent(g.bitboard@, g.board@),
    ensures
        ({
            let f = field(fen_text(g), 2);
            let m = g.castling.mask;
            &&& f.contains('K') <==> m & crate::types::WHITE_CASTLING_KING_MASK != 0
            &&& f.contains('Q') <==> m & crate::types::WHITE_CASTLING_QUEEN_MASK != 0
            &&& f.contains('k') <==> m & crate::types::BLACK_CASTLING_KING_MASK != 0
            &&& f.contains('q') <==> m & crate::types::BLACK_CASTLING_QUEEN_MASK != 0
            &&& (f == seq!['-']) <==> m & 0b1111u64 == 0
        }),
{
    lemma_record_fields(g);
    let m = g.castling.mask;
    let a = if m & 0b1000u64 != 0 { seq!['K'] } else { Seq::<char>::empty() };
    let b = if m & 0b0100u64 != 0 { seq!['Q'] } else { Seq::<char>::empty() };
    let c = if m & 0b0010u64 != 0 { seq!['k'] } else { Seq::<char>::empty() };
    let d = if m & 0b0001u64 != 0 { seq!['q'] } else { Seq::<char>::empty() };
    let t = a + b + c + d;
    assert(m & 0b1111u64 == 0 <==> (m & 0b1000u64 == 0 && m & 0b0100u64 == 0 && m & 0b0010u64 == 0 && m & 0b0001u64 == 0)) by (bit_vector);
    let f = castling_text(m);
    assert forall|x: char| t.contains(x) <==> ((x == 'K' && a.len() > 0) || (x == 'Q' && b.len() > 0)
        || (x == 'k' && c.len() > 0) || (x == 'q' && d.len() > 0)) by {
        if t.contains(x) {
            let i = choose|i: int| 0 <= i < t.len() && t[i] == x;
            if i < a.len() {
                assert(t[i] == a[i]);
            } else if i < a.len() + b.len() {
                assert(t[i] == b[i - a.len()]);
            } else if i < a.len() + b.len() + c.len() {
                assert(t[i] == c[i - a.len() - b.len()]);
            } else {
                assert(t[i] == d[i - a.len() - b.len() - c.len()]);
            }
        }
        if x == 'K' && a.len() > 0 {
            assert(t[0] == 'K');
        }
        if x == 'Q' && b.len() > 0 {
            assert(t[a.len() as int] == 'Q');
        }
        if x == 'k' && c.len() > 0 {
            assert(t[(a.len() + b.len()) as int] == 'k');
        }
        if x == 'q' && d.len() > 0 {
            assert(t[(a.len() + b.len() + c.len()) as int] == 'q');
        }
    }
    if t.len() == 0 {
        assert(f == seq!['-']);
        assert(!f.contains('K') && !f.contains('Q') && !f.contains('k') && !f.contains('q')) by {
            if f.contains('K') || f.contains('Q') || f.contains('k') || f.contains('q') {
                let i = choose|i: int| 0 <= i < f.len() && (f[i] == 'K' || f[i] == 'Q' || f[i] == 'k' || f[i] == 'q');
                assert(f[i] == '-');
            }
        }
    } else {
        assert(f == t);
        assert(f != seq!['-']) by {
            if f == seq!['-'] {
                assert(t.contains(t[0]));
            }
        }
    }
}

} // verus!
