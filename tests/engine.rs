use quantum_shogi::error::MoveError;
use quantum_shogi::game::{Game, HandMode, MoveKind, PlannedMove, Settings};
use quantum_shogi::piece::{CandidateSet, Piece, PieceType, Player};
use quantum_shogi::snapshot::Snapshot;

fn empty_snapshot() -> Snapshot {
    Snapshot {
        board: vec![vec![None; 9]; 9],
        black_hand: Vec::new(),
        white_hand: Vec::new(),
    }
}

fn only(t: PieceType) -> CandidateSet {
    CandidateSet::single(t)
}

fn piece(id: u64, owner: Player, candidates: CandidateSet) -> Piece {
    Piece { id, owner, candidates, promoted: false }
}

fn game_with(settings: Settings, s: Snapshot) -> Game {
    let mut g = Game::new(settings);
    g.worlds[0].history = vec![s];
    g
}

fn step(from: (usize, usize), to: (usize, usize), dw: i32, dt: i32) -> PlannedMove {
    PlannedMove { kind: MoveKind::Move { from, to, promote: false }, delta_w: dw, delta_t: dt }
}

fn drop_at(piece_index: usize, to: (usize, usize)) -> PlannedMove {
    PlannedMove { kind: MoveKind::Drop { piece_index, to }, delta_w: 0, delta_t: 0 }
}

fn apply(g: &Game, pm: PlannedMove, branching: bool) -> (Result<(), MoveError>, Snapshot, Snapshot) {
    let present = g.present(0).unwrap();
    let mut src = present.duplicate();
    let mut target = present.duplicate();
    let mut cons = vec![0usize; 8];
    let r = g.execute_move(&mut src, &mut target, &pm, branching, &mut cons);
    (r, src, target)
}

#[test]
fn initial_state() {
    let g = Game::new(Settings::default());
    assert_eq!(g.worlds.len(), 1);
    assert_eq!(g.worlds[0].w, 0);
    assert_eq!(g.worlds[0].history.len(), 1);
    assert_eq!(g.turn, Player::Black);
    let s = g.present(0).unwrap();
    let mut black = 0;
    let mut white = 0;
    let mut ids = Vec::new();
    for row in &s.board {
        for c in row {
            if let Some(p) = c {
                assert_eq!(p.candidates.len(), 8);
                assert!(!p.promoted);
                ids.push(p.id);
                match p.owner {
                    Player::Black => black += 1,
                    Player::White => white += 1,
                }
            }
        }
    }
    assert_eq!(black, 27);
    assert_eq!(white, 27);
    ids.sort();
    ids.dedup();
    assert_eq!(ids.len(), 54);
    assert!(s.black_hand.is_empty());
    assert!(s.white_hand.is_empty());
    assert!(s.board[4].iter().all(|c| c.is_none()));
}

#[test]
fn collapse_is_idempotent() {
    let mut s = empty_snapshot();
    let mut two = CandidateSet::empty();
    two.insert(PieceType::King);
    two.insert(PieceType::Gold);
    s.board[8][4] = Some(piece(1, Player::Black, two));
    let mut rest = PieceType::all();
    rest.remove(PieceType::King);
    s.board[8][3] = Some(piece(2, Player::Black, rest));
    s.board[0][4] = Some(piece(3, Player::White, PieceType::all()));
    Game::collapse_by_count(&mut s);
    let once_board = s.board.clone();
    assert_eq!(s.board[8][4].unwrap().candidates, only(PieceType::King));
    assert_eq!(s.board[0][4].unwrap().candidates, only(PieceType::King));
    Game::collapse_by_count(&mut s);
    assert_eq!(s.board, once_board);
}

#[test]
fn collapse_cascades() {
    let mut s = empty_snapshot();
    let mut kg = CandidateSet::empty();
    kg.insert(PieceType::King);
    kg.insert(PieceType::Rook);
    s.board[8][4] = Some(piece(1, Player::Black, kg));
    s.board[8][5] = Some(piece(2, Player::Black, only(PieceType::Rook)));
    Game::collapse_by_count(&mut s);
    assert_eq!(s.board[8][5].unwrap().candidates, only(PieceType::Rook));
    assert_eq!(s.board[8][4].unwrap().candidates, only(PieceType::King));
}

#[test]
fn candidates_stay_non_empty_after_commit() {
    let mut g = Game::new(Settings::default());
    g.stage_move(0, step((4, 6), (4, 5), 0, 0));
    g.commit_turn();
    assert_eq!(g.turn, Player::White);
    assert_eq!(g.message, "同時確定しました");
    for wl in &g.worlds {
        for s in &wl.history {
            for row in &s.board {
                for c in row {
                    if let Some(p) = c {
                        assert!(!p.candidates.is_empty());
                    }
                }
            }
        }
    }
    assert_eq!(g.worlds[0].history.len(), 2);
    let p = g.present(0).unwrap().board[5][4].unwrap();
    assert!(p.candidates.contains(PieceType::Pawn));
    assert!(!p.candidates.contains(PieceType::Knight));
    assert!(!p.candidates.contains(PieceType::Bishop));
    assert!(g.present(0).unwrap().board[6][4].is_none());
}

#[test]
fn branch_keeps_piece_id() {
    let mut g = Game::new(Settings::default());
    let id = g.present(0).unwrap().board[6][4].unwrap().id;
    g.stage_move(0, step((4, 6), (4, 5), -1, 0));
    g.commit_turn();
    assert_eq!(g.message, "同時確定しました");
    assert_eq!(g.worlds.len(), 2);
    assert_eq!(g.worlds[0].w, -1);
    assert_eq!(g.worlds[1].w, 0);
    let new_world = g.present(-1).unwrap();
    let moved = new_world.board[5][4].unwrap();
    assert_eq!(moved.id, id);
    let mut expected = CandidateSet::empty();
    expected.insert(PieceType::Bishop);
    expected.insert(PieceType::King);
    assert_eq!(moved.candidates, expected);
    assert_eq!(g.present(0).unwrap().board[6][4].unwrap().id, id);
    assert_eq!(g.worlds[0].history.len(), 1);
    assert_eq!(g.worlds[1].history.len(), 2);
}

#[test]
fn unstaged_world_blocks_commit() {
    let mut g = Game::new(Settings::default());
    g.commit_turn();
    assert_eq!(g.turn, Player::Black);
    assert_eq!(g.worlds.len(), 1);
    assert_eq!(g.worlds[0].history.len(), 1);
    assert_eq!(g.message, "世界線 0 の手が未入力です");
}

#[test]
fn two_pawn_rule_removes_pawn() {
    let mut s = empty_snapshot();
    s.board[6][3] = Some(piece(1, Player::Black, only(PieceType::Pawn)));
    let mut pg = CandidateSet::empty();
    pg.insert(PieceType::Pawn);
    pg.insert(PieceType::Gold);
    s.black_hand.push(piece(2, Player::White, pg));
    let g = game_with(Settings::default(), s);
    let (r, _, target) = apply(&g, drop_at(0, (3, 4)), false);
    assert_eq!(r, Ok(()));
    let dropped = target.board[4][3].unwrap();
    assert_eq!(dropped.candidates, only(PieceType::Gold));
    assert_eq!(dropped.owner, Player::Black);
    assert!(target.black_hand.is_empty());
}

#[test]
fn two_pawn_rule_forbids_pure_pawn() {
    let mut s = empty_snapshot();
    s.board[6][3] = Some(piece(1, Player::Black, only(PieceType::Pawn)));
    s.black_hand.push(piece(2, Player::Black, only(PieceType::Pawn)));
    let g = game_with(Settings::default(), s);
    let (r, _, _) = apply(&g, drop_at(0, (3, 4)), false);
    assert_eq!(r, Err(MoveError::DropForbiddenByRule));
}

#[test]
fn king_step_forward_candidates() {
    let mut s = empty_snapshot();
    s.board[8][4] = Some(piece(1, Player::Black, PieceType::all()));
    let g = game_with(Settings::default(), s.duplicate());
    let p = s.board[8][4].unwrap();
    let r = g.filter_candidates_for_move(&p, (4, 8), (4, 7), 0, 0, &s, &s).unwrap();
    let mut expected = CandidateSet::empty();
    for t in [PieceType::Pawn, PieceType::Lance, PieceType::Silver, PieceType::Gold, PieceType::Rook, PieceType::King] {
        expected.insert(t);
    }
    assert_eq!(r, expected);
}

#[test]
fn max_worlds_one_refuses_branch() {
    let mut settings = Settings::default();
    settings.max_worlds = 1;
    let mut g = Game::new(settings);
    g.stage_move(0, step((4, 6), (4, 5), -1, 0));
    g.commit_turn();
    assert_eq!(g.worlds.len(), 1);
    assert_eq!(g.turn, Player::Black);
    assert_eq!(g.message, "不合法手: MAX_WORLDS");
}

#[test]
fn future_move_refused() {
    let mut g = Game::new(Settings::default());
    g.stage_move(0, step((4, 6), (4, 5), 0, 1));
    g.commit_turn();
    assert_eq!(g.message, "不合法手: 未来移動は無効");
    assert_eq!(g.turn, Player::Black);
}

#[test]
fn time_jump_too_large() {
    let mut g = Game::new(Settings::default());
    g.stage_move(0, step((4, 6), (4, 5), 0, -6));
    g.commit_turn();
    assert_eq!(g.message, "不合法手: 時間逆行幅が上限超え");
}

#[test]
fn history_range_invalid() {
    let mut g = Game::new(Settings::default());
    g.stage_move(0, step((4, 6), (4, 5), 0, -1));
    g.commit_turn();
    assert_eq!(g.message, "不合法手: 履歴範囲外");
}

#[test]
fn world_collision() {
    let mut g = Game::new(Settings::default());
    g.stage_move(0, step((4, 6), (4, 5), -1, 0));
    g.commit_turn();
    g.stage_move(-1, step((4, 2), (4, 3), 0, 0));
    g.stage_move(0, step((4, 2), (4, 3), -1, 0));
    g.commit_turn();
    assert_eq!(g.message, "不合法手: world衝突");
    assert_eq!(g.turn, Player::White);
    assert_eq!(g.worlds[0].history.len(), 2);
}

#[test]
fn move_errors() {
    let g = Game::new(Settings::default());
    assert_eq!(apply(&g, step((4, 4), (4, 3), 0, 0), false).0, Err(MoveError::EmptySource));
    assert_eq!(apply(&g, step((4, 2), (4, 3), 0, 0), false).0, Err(MoveError::NotOwnPiece));
    assert_eq!(apply(&g, step((4, 8), (4, 7), 0, 0), false).0, Err(MoveError::AllyOccupied));
    assert_eq!(apply(&g, step((9, 8), (4, 7), 0, 0), false).0, Err(MoveError::OutOfBounds));
    assert_eq!(apply(&g, step((4, 6), (4, 9), 0, 0), false).0, Err(MoveError::OutOfBounds));
    assert_eq!(apply(&g, step((4, 6), (6, 5), 0, 0), false).0, Err(MoveError::NoSurvivingCandidate));
    assert_eq!(apply(&g, drop_at(0, (4, 4)), false).0, Err(MoveError::HandIndexInvalid));
    assert_eq!(apply(&g, drop_at(0, (4, 6)), false).0, Err(MoveError::DropOccupied));
}

#[test]
fn path_leaving_board_is_an_error() {
    let mut s = empty_snapshot();
    s.board[7][0] = Some(piece(1, Player::Black, only(PieceType::Rook)));
    let g = game_with(Settings::default(), s);
    assert_eq!(apply(&g, step((0, 7), (3, 8), 0, 0), false).0, Err(MoveError::PathOutOfRange));
}

#[test]
fn capture_strips_king() {
    let mut s = empty_snapshot();
    s.board[5][4] = Some(piece(1, Player::Black, only(PieceType::Gold)));
    s.board[4][4] = Some(piece(2, Player::White, PieceType::all()));
    let g = game_with(Settings::default(), s);
    let (r, _, t) = apply(&g, step((4, 5), (4, 4), 0, 0), false);
    assert_eq!(r, Ok(()));
    assert_eq!(t.black_hand.len(), 1);
    assert!(!t.black_hand[0].candidates.contains(PieceType::King));
    assert_eq!(t.black_hand[0].candidates.len(), 7);
    assert_eq!(t.board[4][4].unwrap().id, 1);
    assert!(t.board[5][4].is_none());
}

#[test]
fn sliding_blocked_by_piece() {
    let mut s = empty_snapshot();
    s.board[8][0] = Some(piece(1, Player::Black, only(PieceType::Rook)));
    s.board[6][0] = Some(piece(2, Player::White, PieceType::all()));
    let g = game_with(Settings::default(), s);
    assert_eq!(apply(&g, step((0, 8), (0, 4), 0, 0), false).0, Err(MoveError::NoSurvivingCandidate));
    assert_eq!(apply(&g, step((0, 8), (0, 6), 0, 0), false).0, Ok(()));
}

#[test]
fn drop_rules_on_last_ranks() {
    let mut s = empty_snapshot();
    s.black_hand.push(piece(5, Player::White, PieceType::all()));
    let g = game_with(Settings::default(), s);
    let (r, _, t) = apply(&g, drop_at(0, (2, 0)), false);
    assert_eq!(r, Ok(()));
    let c = t.board[0][2].unwrap().candidates;
    assert!(!c.contains(PieceType::Pawn));
    assert!(!c.contains(PieceType::Lance));
    assert!(!c.contains(PieceType::Knight));
    assert_eq!(c.len(), 5);
    let (r2, _, t2) = apply(&g, drop_at(0, (2, 1)), false);
    assert_eq!(r2, Ok(()));
    let c2 = t2.board[1][2].unwrap().candidates;
    assert!(c2.contains(PieceType::Pawn));
    assert!(!c2.contains(PieceType::Knight));
}

#[test]
fn global_hand_shortage() {
    let mut settings = Settings::default();
    settings.hand_mode = HandMode::Global;
    let mut s = empty_snapshot();
    s.board[8][4] = Some(piece(1, Player::Black, only(PieceType::King)));
    s.board[0][4] = Some(piece(2, Player::White, only(PieceType::King)));
    s.black_hand.push(piece(3, Player::Black, only(PieceType::Gold)));
    let mut g = game_with(settings, s);
    g.stage_move(0, drop_at(0, (2, 4)));
    g.commit_turn();
    assert_eq!(g.message, "global hand不足: 金");
    assert_eq!(g.turn, Player::Black);
}

#[test]
fn global_hand_with_supply() {
    let mut settings = Settings::default();
    settings.hand_mode = HandMode::Global;
    let mut s = empty_snapshot();
    s.board[8][4] = Some(piece(1, Player::Black, only(PieceType::King)));
    s.board[0][4] = Some(piece(2, Player::White, only(PieceType::King)));
    s.black_hand.push(piece(3, Player::Black, only(PieceType::Gold)));
    s.black_hand.push(piece(4, Player::Black, only(PieceType::Gold)));
    let mut g = game_with(settings, s);
    g.stage_move(0, drop_at(0, (2, 4)));
    g.commit_turn();
    assert_eq!(g.message, "同時確定しました");
    assert_eq!(g.turn, Player::White);
}

#[test]
fn lost_world_marked() {
    let mut s = empty_snapshot();
    s.board[1][4] = Some(piece(1, Player::Black, only(PieceType::Gold)));
    s.board[0][4] = Some(piece(2, Player::White, only(PieceType::King)));
    s.board[8][4] = Some(piece(3, Player::Black, only(PieceType::King)));
    let mut g = game_with(Settings::default(), s);
    g.stage_move(0, step((4, 1), (4, 0), 0, 0));
    g.commit_turn();
    assert_eq!(g.message, "同時確定しました");
    assert!(g.worlds[0].lost);
    assert!(Game::king_candidates(g.present(0).unwrap(), Player::White).is_empty());
}

#[test]
fn king_candidates_initial() {
    let g = Game::new(Settings::default());
    let s = g.present(0).unwrap();
    let mut black = Vec::new();
    for y in 6..9 {
        for x in 0..9 {
            black.push((x, y));
        }
    }
    let mut white = Vec::new();
    for y in 0..3 {
        for x in 0..9 {
            white.push((x, y));
        }
    }
    assert_eq!(Game::king_candidates(s, Player::Black), black);
    assert_eq!(Game::king_candidates(s, Player::White), white);
}

#[test]
fn present_unknown_world() {
    let g = Game::new(Settings::default());
    assert!(g.present(3).is_none());
    assert!(g.present(0).is_some());
}

#[test]
fn stage_and_clear() {
    let mut g = Game::new(Settings::default());
    g.stage_move(5, step((4, 6), (4, 5), 0, 0));
    assert!(g.worlds[0].staged.is_none());
    g.stage_move(0, step((4, 6), (4, 5), 0, 0));
    assert!(g.worlds[0].staged.is_some());
    g.clear_staged();
    assert!(g.worlds[0].staged.is_none());
}

#[test]
fn player_basics() {
    assert_eq!(Player::Black.opposite(), Player::White);
    assert_eq!(Player::White.opposite(), Player::Black);
    assert_eq!(Player::Black.forward_sign(), -1);
    assert_eq!(Player::White.forward_sign(), 1);
    assert_eq!(Player::Black.label(), "先手");
    assert_eq!(Player::White.label(), "後手");
}

#[test]
fn piece_type_basics() {
    assert_eq!(PieceType::all().len(), 8);
    assert_eq!(PieceType::Gold.short(), "金");
    assert_eq!(PieceType::King.short(), "王");
    let p = Piece::new(9, Player::White);
    assert_eq!(p.id, 9);
    assert_eq!(p.candidates.len(), 8);
    assert_eq!(MoveError::WorldCollision.text(), "world衝突");
}

#[test]
fn default_settings() {
    let s = Settings::default();
    assert_eq!(s.max_worlds, 7);
    assert_eq!(s.max_time_jump, 5);
    assert_eq!(s.hand_mode, HandMode::PerWorld);
    assert!(s.past_only);
}

#[test]
fn unstaged_message_names_first_world() {
    let mut g = Game::new(Settings::default());
    g.stage_move(0, step((4, 6), (4, 5), -1, 0));
    g.commit_turn();
    assert_eq!(g.worlds.len(), 2);
    g.stage_move(0, step((4, 2), (4, 3), 0, 0));
    g.commit_turn();
    assert_eq!(g.message, "世界線 -1 の手が未入力です");
    assert_eq!(g.turn, Player::White);
}

#[test]
fn refused_move_changes_nothing() {
    let g = Game::new(Settings::default());
    let present = g.present(0).unwrap();
    let mut src = present.duplicate();
    let mut target = present.duplicate();
    let mut cons = vec![0usize; 8];
    let r = g.execute_move(&mut src, &mut target, &step((4, 2), (4, 3), 0, 0), false, &mut cons);
    assert_eq!(r, Err(MoveError::NotOwnPiece));
    assert_eq!(target.board, present.board);
    assert_eq!(src.board, present.board);
    assert_eq!(cons, vec![0usize; 8]);
}

#[test]
fn refused_drop_is_tallied_in_global_mode() {
    let mut settings = Settings::default();
    settings.hand_mode = HandMode::Global;
    let mut s = empty_snapshot();
    s.board[6][3] = Some(piece(1, Player::Black, only(PieceType::Pawn)));
    s.black_hand.push(piece(2, Player::Black, only(PieceType::Pawn)));
    let g = game_with(settings, s);
    let present = g.present(0).unwrap();
    let mut src = present.duplicate();
    let mut target = present.duplicate();
    let mut cons = vec![0usize; 8];
    let r = g.execute_move(&mut src, &mut target, &drop_at(0, (3, 4)), false, &mut cons);
    assert_eq!(r, Err(MoveError::DropForbiddenByRule));
    assert_eq!(target.board, present.board);
    assert!(target.black_hand.is_empty());
    assert_eq!(cons, vec![1, 0, 0, 0, 0, 0, 0, 0]);
}
