use chess_core::attacks::{get_king_attacks, get_knight_attacks, get_pawn_attacks, get_pawn_pattern_attacks};
use chess_core::bits::{bit_count, get_lsb_index, pop_bit, pop_lsb, set_bit_by_index};
use chess_core::magic::{MagicHelper, MoveLookupTable};
use chess_core::square::{FileRank, FILE_A, RANK_1, RANK_1_2, RANK_7_8};
use chess_core::types::{
    get_char_value, get_piece_from_char, parse_u8_text, u8_to_text, Castling, Clock, Color, MoveType, Piece,
    PieceMove, PieceType,
};
use chess_core::utility::{clear_bit, get_file_ranks_from_mask, set_bit};

#[test]
fn bit_helpers_set_pop_and_count() {
    let mut b: u64 = 0;
    set_bit_by_index(&mut b, 3);
    set_bit_by_index(&mut b, 40);
    assert_eq!(b, (1u64 << 3) | (1u64 << 40));
    assert_eq!(bit_count(b), 2);
    assert_eq!(get_lsb_index(b), 3);
    assert_eq!(get_lsb_index(0), 64);
    pop_bit(&mut b, 3);
    assert_eq!(b, 1u64 << 40);
    // popping a clear bit sets it (the operation toggles)
    pop_bit(&mut b, 5);
    assert_eq!(b, (1u64 << 40) | (1u64 << 5));
    let i = pop_lsb(&mut b);
    assert_eq!(i, 5);
    assert_eq!(b, 1u64 << 40);
    assert_eq!(bit_count(u64::MAX), 64);
}

#[test]
fn square_numbering_and_names() {
    assert_eq!(FileRank::A8.index(), 0);
    assert_eq!(FileRank::H1.index(), 63);
    assert_eq!(FileRank::E2.index(), 52);
    assert_eq!(FileRank::E2.rank(), 6);
    assert_eq!(FileRank::E2.file(), 4);
    assert_eq!(FileRank::E2.mask(), 1u64 << 52);
    assert_eq!(FileRank::get_file_rank(36), Some(FileRank::E4));
    assert_eq!(FileRank::get_file_rank(64), None);
    assert_eq!(FileRank::get_from_mask(0), None);
    assert_eq!(FileRank::get_from_mask((1u64 << 20) | (1u64 << 9)), Some(FileRank::B7));
    assert_eq!(FileRank::from_string("e3"), Some(FileRank::E3));
    assert_eq!(FileRank::from_string("i3"), None);
    assert_eq!(FileRank::from_string("e33"), None);
    assert_eq!(FileRank::from_chars('h', '8'), Some(FileRank::H8));
    assert_eq!(FileRank::C6.file_letter(), 'c');
    assert_eq!(FileRank::C6.rank_digit(), '6');
    let all = FileRank::iter();
    assert_eq!(all.len(), 64);
    assert_eq!(all[0], FileRank::A8);
    assert_eq!(all[63], FileRank::H1);
}

#[test]
fn utility_bits_by_square() {
    let mut b: u64 = 0;
    set_bit(&mut b, &FileRank::A1);
    assert_eq!(b, 1u64 << 56);
    clear_bit(&mut b, &FileRank::A1);
    assert_eq!(b, 0);
    let squares = get_file_ranks_from_mask(FILE_A);
    assert_eq!(squares.len(), 8);
    assert_eq!(squares[0], FileRank::A8);
    assert_eq!(squares[7], FileRank::A1);
}

#[test]
fn leaper_attack_patterns() {
    assert_eq!(get_knight_attacks(&FileRank::A8), (1u64 << 10) | (1u64 << 17));
    assert_eq!(get_king_attacks(&FileRank::A8), (1u64 << 1) | (1u64 << 8) | (1u64 << 9));
    assert_eq!(bit_count(get_knight_attacks(&FileRank::D4)), 8);
    assert_eq!(bit_count(get_king_attacks(&FileRank::E4)), 8);
    assert_eq!(get_pawn_pattern_attacks(&Color::White, &FileRank::E2), (1u64 << 43) | (1u64 << 45));
    assert_eq!(get_pawn_pattern_attacks(&Color::Black, &FileRank::E7), (1u64 << 19) | (1u64 << 21));
    assert_eq!(get_pawn_pattern_attacks(&Color::White, &FileRank::A2), 1u64 << 41);
    assert_eq!(get_pawn_attacks(Color::White, FileRank::E2), (1u64 << 43) | (1u64 << 45));
    assert_eq!(get_pawn_attacks(Color::Black, FileRank::H7), 1u64 << 22);
}

#[test]
fn slider_lookups_on_empty_and_blocked_boards() {
    let table = MoveLookupTable::init();
    let rook_a1 = (FILE_A | RANK_1) & !(1u64 << 56);
    assert_eq!(table.get_rook_attack(FileRank::A1, 0), rook_a1);
    assert_eq!(bit_count(table.get_bishop_attack(FileRank::D4, 0)), 13);
    // a blocker on a4 stops the rook there
    let blocked = table.get_rook_attack(FileRank::A1, 1u64 << 32);
    assert_eq!(blocked, (1u64 << 48) | (1u64 << 40) | (1u64 << 32) | (RANK_1 & !(1u64 << 56)));
}

#[test]
fn sparse_candidates_keep_common_bits() {
    assert_eq!(chess_core::magic::sparse_candidate(0b1110, 0b0111, 0b1101), 0b0100);
    assert_eq!(chess_core::magic::sparse_candidate(u64::MAX, u64::MAX, 7), 7);
}

#[test]
fn magic_helper_pieces() {
    assert_eq!(MagicHelper::get_magic_index(1, 1u64 << 63, 52), 2048);
    assert_eq!(MagicHelper::get_magic_index(1, 1u64 << 63, 63), 1);
    assert_eq!(MagicHelper::get_magic_index(1, 1u64 << 50, 40), 1024);
    assert_eq!(MagicHelper::calculate_occupancy(0b101, 0b1110), 0b1010);
    let subsets = MagicHelper::generate_attack_subsets(0b110);
    assert_eq!(subsets, vec![0, 0b10, 0b100, 0b110]);
    // the identity multiplier with shift 62 maps bits 62 and 63 apart
    let s = vec![0u64, 1u64 << 62, 1u64 << 63];
    assert!(MagicHelper::is_collision_free(&s, 1, 62));
    let t = vec![1u64, 2u64];
    assert!(!MagicHelper::is_collision_free(&t, 1, 62));
}

#[test]
fn magics_found_for_king_masks() {
    let mut masks = [0u64; 64];
    for (i, fr) in FileRank::iter().into_iter().enumerate() {
        masks[i] = get_king_attacks(&fr);
    }
    let helper = MagicHelper::generate_magics(masks).unwrap();
    assert_eq!(helper.magic_numbers.len(), 64);
    for i in 0..64 {
        assert_eq!(helper.shifts[i], 64 - bit_count(masks[i]));
        let subsets = MagicHelper::generate_attack_subsets(masks[i]);
        assert!(MagicHelper::is_collision_free(&subsets, helper.magic_numbers[i], helper.shifts[i]));
    }
}

#[test]
fn piece_letters_and_colors() {
    assert_eq!(get_char_value('P'), 0);
    assert_eq!(get_char_value('k'), 11);
    assert_eq!(get_char_value('x'), -1);
    let p = get_piece_from_char('n').unwrap();
    assert_eq!(p.piece_type, PieceType::Knight);
    assert_eq!(p.color, Color::Black);
    assert_eq!(p.symbol(), 'n');
    assert_eq!(p.bitboard_index(), 8);
    assert!(Piece::from_character('?').is_none());
    assert_eq!(Color::White.flip(), Color::Black);
    assert_eq!(Color::White.as_number(), 0);
    assert_eq!(Color::Black.as_number(), 1);
    assert_eq!(PieceType::Queen.get_symbol(), 'q');
}

#[test]
fn castling_rights_bits() {
    let mut c = Castling::new();
    assert_eq!(c.mask, 0b1111);
    assert!(c.get_king_side(&Color::White) && c.get_queen_side(&Color::Black));
    c.disable_king_side(&Color::White);
    assert_eq!(c.mask, 0b0111);
    assert!(!c.get_king_side(&Color::White));
    c.disable_black_castling_rights();
    assert_eq!(c.mask, 0b0100);
    c.disable_queen_side(&Color::White);
    assert_eq!(c.mask, 0);
    assert_eq!(Castling::from_mask(0b0010).get_king_side(&Color::Black), true);
}

#[test]
fn clocks_read_and_write_text() {
    assert_eq!(Clock::from_string("12").counter(), 12);
    assert_eq!(Clock::from_string("+7").counter(), 7);
    assert_eq!(Clock::from_string("abc").counter(), 0);
    assert_eq!(Clock::from_string("300").counter(), 0);
    assert_eq!(Clock::from_string("").counter(), 0);
    assert_eq!(parse_u8_text("255"), Some(255));
    assert_eq!(parse_u8_text("256"), None);
    assert_eq!(u8_to_text(0), "0");
    assert_eq!(u8_to_text(255), "255");
    let mut c = Clock::from(41);
    c.tick();
    assert_eq!(c.to_text(), "42");
    c.reset();
    assert_eq!(c.counter(), 0);
}

#[test]
fn uci_text_of_moves() {
    let pawn = Piece { piece_type: PieceType::Pawn, color: Color::White };
    let push = PieceMove { piece: pawn, from: FileRank::E2, target: FileRank::E4, move_type: MoveType::DoublePush(Some(FileRank::E3)) };
    assert_eq!(push.uci(), "e2e4");
    let promo = PieceMove { piece: pawn, from: FileRank::A7, target: FileRank::A8, move_type: MoveType::Promotion(PieceType::Queen) };
    assert_eq!(promo.uci(), "a7a8q");
    let cp = PieceMove { piece: pawn, from: FileRank::A7, target: FileRank::B8, move_type: MoveType::CaptureWithPromotion(PieceType::Knight) };
    assert_eq!(cp.uci(), "a7b8n");
    assert_eq!(RANK_1_2 & RANK_7_8, 0);
}

#[test]
fn built_in_magic_tables_are_all_checked() {
    let table = MoveLookupTable::init();
    assert_eq!(table.rook_checked.len(), 64);
    assert_eq!(table.bishop_checked.len(), 64);
    assert!(table.rook_checked.iter().all(|c| *c));
    assert!(table.bishop_checked.iter().all(|c| *c));
    assert_eq!(table.get_bishop_attack(FileRank::A8, 0), 0x8040201008040200);
    assert_eq!(table.get_bishop_attack(FileRank::A8, FileRank::D5.mask()), 0x0000000008040200);
}
