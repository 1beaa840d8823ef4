use chess_core::algebraic_notation::AlgebraicNotation;
use chess_core::attacks::get_pawn_moves;
use chess_core::fen::{placement_readable, FenParser, START_FEN};
use chess_core::game::GameState;
use chess_core::lexer::Lexer;
use chess_core::pawn_sets::get_pawn_moves_vectorized;
use chess_core::search_engine::{pick_best, SearchEngine};
use std::sync::atomic::AtomicBool;
use std::sync::Arc;
use chess_core::square::{FileRank, RANK_1_2, RANK_7_8};
use chess_core::transposition_table::{NodeType, TranspositionTable};
use chess_core::types::{AlgebraicNotationToken, Color, PieceMove, PieceType};

fn legal_moves(game: &mut GameState) -> Vec<PieceMove> {
    game.calculate_pseudolegal_moves();
    let mut moves: Vec<PieceMove> = Vec::new();
    game.fill_valid_moves(&mut moves);
    moves
}

#[test]
fn start_position_record_and_boards() {
    let game = GameState::new_game();
    assert_eq!(GameState::serialize(&game), START_FEN);
    assert_eq!(game.get_white_pieces(), RANK_1_2);
    assert_eq!(game.get_black_pieces(), RANK_7_8);
    assert_eq!(game.get_all_pieces(), RANK_1_2 | RANK_7_8);
    assert_eq!(game.empty_square(), !(RANK_1_2 | RANK_7_8));
    let king = game.get_piece_at(&FileRank::E1).unwrap();
    assert_eq!(king.piece_type, PieceType::King);
    assert_eq!(king.color, Color::White);
    assert!(game.get_piece_at(&FileRank::E4).is_none());
    assert!(GameState::has(game.get_white_pieces(), &FileRank::A1));
    assert!(!GameState::get_by_index(game.get_white_pieces(), 0));
    assert_eq!(game.hash, game.zobrist_hashing.get_hash_from_scratch(&game));
}

#[test]
fn fen_record_round_trip() {
    let fen = "r3k2r/p1pp1pb1/bn2Qnp1/2qPN3/1p2P3/2N5/PPPBBPPP/R3K2R b KQkq - 3 2";
    let game = GameState::deserialize(fen);
    assert_eq!(GameState::serialize(&game), fen);
    assert_eq!(game.halfmove_clock.counter(), 3);
    assert_eq!(game.fullmove_number.counter(), 2);
    assert_eq!(game.move_turn, Color::Black);
}

#[test]
fn fen_reading_keeps_all_castling_rights() {
    // the castling field is read on top of full rights, so the record comes back with all four
    let game = GameState::deserialize("8/8/8/2k5/2pP4/8/B7/4K3 b - d3 0 3");
    assert_eq!(game.castling.mask, 0b1111);
    assert_eq!(game.en_passant, Some(FileRank::D3));
    assert_eq!(GameState::serialize(&game), "8/8/8/2k5/2pP4/8/B7/4K3 b KQkq d3 0 3");
}

#[test]
fn make_then_unmake_restores_every_start_move() {
    let mut game = GameState::new_game();
    let before = GameState::serialize(&game);
    let hash = game.hash;
    let moves = legal_moves(&mut game);
    assert_eq!(moves.len(), 20);
    for mv in &moves {
        game.make_move(mv);
        assert_ne!(GameState::serialize(&game), before);
        assert_eq!(game.hash, game.zobrist_hashing.get_hash_from_scratch(&game));
        assert!(game.unmake_move());
        assert_eq!(GameState::serialize(&game), before);
        assert_eq!(game.hash, hash);
    }
    assert!(!game.unmake_move());
}

#[test]
fn castling_en_passant_and_promotion_round_trip() {
    let fens = [
        "r3k2r/8/8/8/8/8/8/R3K2R w KQkq - 0 1",
        "8/8/8/2k5/2pP4/8/B7/4K3 b KQkq d3 0 3",
        "4k3/1P6/8/8/8/8/K7/8 w KQkq - 0 1",
    ];
    for fen in fens {
        let mut game = GameState::deserialize(fen);
        let before = GameState::serialize(&game);
        for mv in legal_moves(&mut game) {
            game.make_move(&mv);
            assert_eq!(game.hash, game.zobrist_hashing.get_hash_from_scratch(&game), "{}", mv.uci());
            assert!(game.unmake_move());
            assert_eq!(GameState::serialize(&game), before, "{}", mv.uci());
        }
    }
}

#[test]
fn castling_moves_are_generated_and_played() {
    let mut game = GameState::deserialize("r3k2r/8/8/8/8/8/8/R3K2R w KQkq - 0 1");
    let ucis: Vec<String> = legal_moves(&mut game).iter().map(|m| m.uci()).collect();
    assert!(ucis.contains(&"e1g1".to_string()));
    assert!(ucis.contains(&"e1c1".to_string()));
    let mv = PieceMove::from_uci("e1g1", &game).unwrap();
    game.make_move(&mv);
    assert_eq!(GameState::serialize(&game), "r3k2r/8/8/8/8/8/8/R4RK1 b kq - 1 1");
    assert!(PieceMove::from_uci("e1e9", &game).is_none());
}

#[test]
fn perft_divide_lists_each_move() {
    let game = GameState::new_game();
    let (total, divide) = game.perft(2);
    assert_eq!(total, 400);
    assert_eq!(divide.len(), 20);
    assert!(divide.iter().all(|(_, n)| *n == 20));
    assert_eq!(divide.iter().map(|(_, n)| n).sum::<usize>(), total);
}

#[test]
fn check_detection_by_masks() {
    let game = GameState::new_game();
    assert!(game.detect_check(&(1u64 << 4), &(1u64 << 4)));
    assert!(!game.detect_check(&(1u64 << 4), &(1u64 << 5)));
}

#[test]
fn transposition_table_store_and_lookup() {
    let mut table = TranspositionTable::new();
    let hash: u64 = 0x1234_5678_9abc_def0;
    assert_eq!(table.try_get_from_cache(hash, 1, -100, 100, true), None);
    let stored = table.store_in_cache(hash, 4, 55, true, NodeType::Exact);
    assert_eq!(stored, Ok(table.get_index(hash)));
    assert_eq!(table.try_get_from_cache(hash, 3, -100, 100, true), Some(55));
    assert_eq!(table.try_get_from_cache(hash, 5, -100, 100, true), None);
    assert_eq!(table.try_get_from_cache(hash, 3, -100, 100, false), None);
    // a lower bound is only usable when it reaches beta
    let other = hash + 1;
    table.store_in_cache(other, 4, 50, false, NodeType::LowerBound).unwrap();
    assert_eq!(table.try_get_from_cache(other, 1, -100, 100, false), None);
    assert_eq!(table.try_get_from_cache(other, 1, -100, 40, false), Some(50));
    let idx = table.get_index(hash);
    assert_eq!(idx, ((hash % 524288) as usize) * 16);
    table.clear_lookup_table();
    assert_eq!(table.try_get_from_cache(hash, 1, -100, 100, true), None);
}

#[test]
fn lexer_splits_a_fen_line() {
    let line: Vec<char> = "fen 8/8/8/8/8/8/8/K6k w - - 0 1".chars().collect();
    let mut lexer = Lexer::from(&line);
    let mut words = Vec::new();
    while let Some(w) = lexer.next() {
        words.push(w);
    }
    assert_eq!(words, vec!["fen", "8/8/8/8/8/8/8/K6k", "w", "-", "-", "0", "1"]);
}

#[test]
fn lexer_splits_words() {
    let line: Vec<char> = "  go depth 6".chars().collect();
    let mut lexer = Lexer::from(&line);
    assert_eq!(lexer.next(), Some("go".to_string()));
    assert_eq!(lexer.next(), Some("depth".to_string()));
    assert_eq!(lexer.next(), Some("6".to_string()));
    assert_eq!(lexer.next(), None);
}

#[test]
fn algebraic_tokens() {
    let mut reader = AlgebraicNotation::new("Nf3");
    assert_eq!(reader.next_token(), Some(AlgebraicNotationToken::Piece('N')));
    assert_eq!(reader.next_token(), Some(AlgebraicNotationToken::File('f')));
    assert_eq!(reader.next_token(), Some(AlgebraicNotationToken::Rank('3')));
    assert_eq!(reader.next_token(), None);
    let mut castle = AlgebraicNotation::new("O-O-O");
    assert_eq!(castle.next_token(), Some(AlgebraicNotationToken::CastleQueenSide));
    let mut short = AlgebraicNotation::new("O-O#");
    assert_eq!(short.next_token(), Some(AlgebraicNotationToken::CastleKingSide));
    assert_eq!(short.next_token(), Some(AlgebraicNotationToken::Checkmate));
    let mut promo = AlgebraicNotation::new("exd8=Q+");
    assert_eq!(promo.next_token(), Some(AlgebraicNotationToken::File('e')));
    assert_eq!(promo.next_token(), Some(AlgebraicNotationToken::Capture));
    assert_eq!(promo.next_token(), Some(AlgebraicNotationToken::File('d')));
    assert_eq!(promo.next_token(), Some(AlgebraicNotationToken::Rank('8')));
    assert_eq!(promo.next_token(), Some(AlgebraicNotationToken::Promotion('Q')));
    assert_eq!(promo.next_token(), Some(AlgebraicNotationToken::Check));
    assert_eq!(promo.next_token(), None);
}

#[test]
fn material_score_and_best_capture() {
    let engine = SearchEngine::new();
    assert_eq!(engine.score_heuristic(&GameState::new_game()), 0);
    let game = GameState::deserialize("4k3/8/8/3q4/4P3/8/8/4K3 w - - 0 1");
    assert_eq!(engine.score_heuristic(&game), 100 - 900);
    let mut engine = engine;
    engine.max_depth = 1;
    let (best, scored) = engine.search(&game);
    assert_eq!(best, "e4d5");
    assert_eq!(scored[0].0, "e4d5");
    assert_eq!(scored[0].1, 100);
    assert!(scored.windows(2).all(|w| w[0].1 >= w[1].1));
}

#[test]
fn pawn_generators_agree_on_the_start_position() {
    let game = GameState::new_game();
    let pawns = game.bitboard[0];
    let empty = game.empty_square();
    let mut mask_a: u64 = 0;
    let mut quiet_a: Vec<PieceMove> = Vec::new();
    let mut loud_a: Vec<PieceMove> = Vec::new();
    get_pawn_moves(Color::White, pawns, empty, game.get_black_pieces(), &None, &mut mask_a, &mut quiet_a, &mut loud_a);
    let mut mask_b: u64 = 0;
    let mut quiet_b: Vec<PieceMove> = Vec::new();
    let mut loud_b: Vec<PieceMove> = Vec::new();
    get_pawn_moves_vectorized(Color::White, pawns, empty, game.get_black_pieces(), &None, &mut mask_b, &mut quiet_b, &mut loud_b);
    assert_eq!(quiet_a.len(), 16);
    assert_eq!(quiet_b.len(), 16);
    assert!(loud_a.is_empty() && loud_b.is_empty());
    for mv in &quiet_a {
        assert!(quiet_b.contains(mv));
    }
}

#[test]
fn best_pick_over_chunk_results() {
    let results: Vec<(Vec<(String, i32, u8)>, u8)> = vec![
        (vec![("a".to_string(), 5, 1), ("b".to_string(), 7, 1), ("a".to_string(), 9, 2)], 2),
        (vec![("c".to_string(), 7, 1), ("d".to_string(), 2, 1)], 1),
    ];
    // the least completed depth is 1, so the depth 2 entry does not count
    assert_eq!(pick_best(&results, true), "b");
    assert_eq!(pick_best(&results, false), "d");
    let none: Vec<(Vec<(String, i32, u8)>, u8)> = Vec::new();
    assert_eq!(pick_best(&none, true), "no_moves");
    let stopped: Vec<(Vec<(String, i32, u8)>, u8)> = vec![(vec![("a".to_string(), 1, 1)], 1), (Vec::new(), 0)];
    assert_eq!(pick_best(&stopped, true), "no_moves");
}

#[test]
fn chunk_deepening_tags_each_depth() {
    let mut game = GameState::deserialize("4k3/8/8/3q4/4P3/8/8/4K3 w - - 0 1");
    let mut moves: Vec<PieceMove> = Vec::new();
    let n = game.collect_legal_moves(&mut moves);
    assert_eq!(n, moves.len());
    let chunk = &moves[..2];
    let stop = Arc::new(AtomicBool::new(false));
    let (results, completed) = SearchEngine::deepen_chunk(&game, chunk, false, 2, &stop);
    assert_eq!(completed, 2);
    assert_eq!(results.len(), 4);
    for (j, (uci, _, depth)) in results.iter().enumerate() {
        assert_eq!(*uci, chunk[j % 2].uci());
        assert_eq!(*depth as usize, j / 2 + 1);
    }
    let stopped = Arc::new(AtomicBool::new(true));
    let (none, done) = SearchEngine::deepen_chunk(&game, chunk, false, 2, &stopped);
    assert!(none.is_empty());
    assert_eq!(done, 0);
}

#[test]
fn placement_and_soundness_checks() {
    assert!(placement_readable(START_FEN));
    assert!(placement_readable(""));
    assert!(!placement_readable("88888888888888888888888888888888888888 w - - 0 1"));
    let slashes = "/".repeat(300) + " w";
    assert!(!placement_readable(&slashes));
    assert!(GameState::new_game().is_sound());
    // two white kings
    assert!(!GameState::deserialize("4k3/8/8/8/8/8/8/K3K3 w - - 0 1").is_sound());
    // an en-passant square with no pawn behind it
    assert!(!GameState::deserialize("4k3/8/8/8/8/8/8/4K3 b - e3 0 1").is_sound());
    assert!(GameState::deserialize("4k3/8/8/8/4P3/8/8/4K3 b - e3 0 1").is_sound());
}

#[test]
fn node_counter_matches_perft() {
    use_counter();
}

fn use_counter() {
    let mut counter = chess_core::legal::CalculationObject::new();
    let mut game = GameState::new_game();
    assert_eq!(counter.get_total_nodes(&mut game, 0), 1);
    assert_eq!(counter.get_total_nodes(&mut game, 2), 400);
    assert_eq!(GameState::serialize(&game), START_FEN);
    let mut kiwi = GameState::deserialize("r3k2r/p1pp1pb1/bn2Qnp1/2qPN3/1p2P3/2N5/PPPBBPPP/R3K2R b KQkq - 3 2");
    assert_eq!(counter.get_total_nodes(&mut kiwi, 1), 5);
    assert!(counter.unique_position.is_empty());
}

#[test]
fn pawn_lookup_and_fast_hash_update() {
    let table = chess_core::magic::MoveLookupTable::init();
    assert_eq!(table.get_pawn_attack(FileRank::E2, 0, Color::White), (1u64 << 43) | (1u64 << 45));
    assert_eq!(table.get_pawn_attack(FileRank::A7, u64::MAX, Color::Black), 1u64 << 17);

    let mut game = GameState::new_game();
    let mv = PieceMove::from_uci("e2e4", &game).unwrap();
    let z = game.zobrist_hashing.clone();
    let fast = z.fast_recalculate_hash(&game, &mv);
    let expected = game.hash ^ z.side ^ z.pieces[52] ^ z.pieces[36];
    assert_eq!(fast, expected);
    // a quiet or double-push move updates to the position's full hash apart from the
    // en-passant key, which the fast update leaves out
    game.make_move(&mv);
    assert_eq!(fast ^ z.en_passant[FileRank::E3.index()], game.hash);
}

#[test]
fn parallel_search_answers_a_legal_move() {
    let mut engine = SearchEngine::new();
    engine.max_depth = 1;
    // the white king's only move is to take the queen
    let game = GameState::deserialize("7k/8/8/8/8/8/6q1/7K w - - 0 1");
    let go = Arc::new(AtomicBool::new(false));
    assert_eq!(engine.rayon_search(&game, go), "h1g2");
    let stop = Arc::new(AtomicBool::new(true));
    assert_eq!(engine.rayon_search(&game, stop), "no_moves");
    assert_eq!(engine.max_depth, 1);
}

#[test]
fn pawn_generators_agree_with_promotions_and_en_passant() {
    let game = GameState::deserialize("2r1k3/1P6/8/3pP3/8/8/P7/4K3 w - d6 0 1");
    let pawns = game.bitboard[0];
    let empty = game.empty_square();
    let opp = game.get_black_pieces();
    let ep = game.en_passant;
    let (mut ma, mut qa, mut la) = (0u64, Vec::new(), Vec::new());
    get_pawn_moves(Color::White, pawns, empty, opp, &ep, &mut ma, &mut qa, &mut la);
    let (mut mb, mut qb, mut lb) = (0u64, Vec::new(), Vec::new());
    get_pawn_moves_vectorized(Color::White, pawns, empty, opp, &ep, &mut mb, &mut qb, &mut lb);
    assert_eq!(ma, mb);
    let a: Vec<PieceMove> = qa.iter().chain(la.iter()).cloned().collect();
    let b: Vec<PieceMove> = qb.iter().chain(lb.iter()).cloned().collect();
    assert_eq!(a.len(), b.len());
    for mv in &a {
        assert!(b.contains(mv), "{}", mv.uci());
    }
    // b7-b8 four ways, b7xc8 four ways, e5-e6, e5xd6, a2-a3, a2-a4
    assert_eq!(a.len(), 12);
}

#[test]
fn board_drawing() {
    let text = GameState::new_game().board_text();
    let lines: Vec<&str> = text.lines().collect();
    assert_eq!(lines[0], "  a b c d e f g h");
    assert_eq!(lines[1], " +----------------+");
    assert_eq!(lines[2], "8|♜ ♞ ♝ ♛ ♚ ♝ ♞ ♜ |8");
    assert_eq!(lines[4], "6|. . . . . . . . |6");
    assert_eq!(lines[9], "1|♖ ♘ ♗ ♕ ♔ ♗ ♘ ♖ |1");
    assert_eq!(lines[10], " +----------------+");
    assert_eq!(lines[11], "  a b c d e f g h");
    assert_eq!(lines[12], format!("fen: {}", START_FEN));
    assert!(text.ends_with('\n'));
}

#[test]
fn fill_valid_moves_keeps_the_buffer_tail() {
    let mut game = GameState::new_game();
    let first = legal_moves(&mut game);
    assert_eq!(first.len(), 20);
    let mut tail: Vec<PieceMove> = first.clone();
    tail.reverse();
    let mut buffer: Vec<PieceMove> = first.clone();
    buffer.extend(tail.iter().cloned());
    buffer[0] = first[19];
    let n = game.fill_valid_moves(&mut buffer);
    assert_eq!(n, 20);
    assert_eq!(buffer.len(), 40);
    assert_eq!(&buffer[..20], &first[..]);
    assert_eq!(&buffer[20..], &tail[..]);
}

#[test]
fn rayon_search_without_legal_moves_answers_no_moves() {
    let game = GameState::deserialize("7k/6Q1/6K1/8/8/8/8/8 b - - 0 1");
    let mut engine = SearchEngine::new();
    engine.max_depth = 2;
    let go = Arc::new(AtomicBool::new(false));
    assert_eq!(engine.rayon_search(&game, go), "no_moves");
}

#[test]
fn read_placement_gives_disjoint_bitboards() {
    let game = GameState::deserialize("r3k2r/p1ppqpb1/bn2pnp1/3PN3/1p2P3/2N2Q1p/PPPBBPPP/R3K2R w KQkq - 0 1");
    for a in 0..12 {
        for b in (a + 1)..12 {
            assert_eq!(game.bitboard[a] & game.bitboard[b], 0);
        }
    }
}
