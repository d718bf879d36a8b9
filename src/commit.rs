use vstd::prelude::*;
use crate::error::MoveError;
use crate::game::{has_king, has_world, present_of, world_wf, worlds_wf, Game, HandMode, MoveKind, PlannedMove, Settings, WorldLine, WorldView};
use crate::piece::{CandidateSet, Piece, PieceType, Player};
use crate::laws::{branch_kept, is_branch_move, lemma_finalize_keeps, lemma_run_start, lemma_run_step, run_inv};
use crate::text::{append_decimal, decimal_text};
use crate::sums::{lemma_sum_prefix_le, lemma_sum_take_all, lemma_sum_take_next, seq_sum};
use crate::rules::{abs, drop_survivors, move_outcome, type_at};
use crate::snapshot::{cell, collapsed, count_hand_holders, hand_holders, hand_of, lemma_board_view, on_board, set_cell, view_wf, with_hand, SnapView, Snapshot};

verus! {

pub open spec fn strip_king(p: Piece) -> Piece {
    Piece { candidates: p.candidates.spec_without(PieceType::King), ..p }
}

/// A piece standing on (x, y) goes, without the king among its candidates,
/// to the hand of `pl`.
pub open spec fn capture(v: SnapView, x: int, y: int, pl: Player) -> SnapView {
    if cell(v, x, y) is Some {
        with_hand(v, pl, hand_of(v, pl).push(strip_king(cell(v, x, y)->0)))
    } else {
        v
    }
}

/// The snapshot a drop takes its piece from: the source when branching,
/// else the one snapshot that the move changes.
pub open spec fn drop_source(branching: bool, src: SnapView, target: SnapView) -> SnapView {
    if branching { src } else { target }
}

/// What one move does to the source snapshot and the target snapshot.
#[verifier::opaque]
pub open spec fn move_result(
    past_only: bool,
    turn: Player,
    pm: PlannedMove,
    branching: bool,
    src: SnapView,
    target: SnapView,
) -> Result<(SnapView, SnapView), MoveError> {
    match pm.kind {
        MoveKind::Move { from, to, promote } => {
            let (fx, fy, tx, ty) = (from.0 as int, from.1 as int, to.0 as int, to.1 as int);
            if !on_board(fx, fy) {
                Err(MoveError::OutOfBounds)
            } else if cell(src, fx, fy) is None {
                Err(MoveError::EmptySource)
            } else if cell(src, fx, fy)->0.owner != turn {
                Err(MoveError::NotOwnPiece)
            } else {
                let piece = cell(src, fx, fy)->0;
                match move_outcome(past_only, piece, fx, fy, tx, ty, pm.delta_w as int, pm.delta_t as int, src, target) {
                    Err(e) => Err(e),
                    Ok(cs) => if cs.is_empty_set() {
                        Err(MoveError::NoSurvivingCandidate)
                    } else {
                        let moved = Piece { candidates: cs, promoted: promote, ..piece };
                        let t1 = capture(target, tx, ty, turn);
                        let t2 = if branching { t1 } else { set_cell(t1, fx, fy, None) };
                        Ok((src, set_cell(t2, tx, ty, Some(moved))))
                    },
                }
            }
        },
        MoveKind::Drop { piece_index, to } => {
            let (tx, ty) = (to.0 as int, to.1 as int);
            let h = drop_source(branching, src, target);
            if !on_board(tx, ty) {
                Err(MoveError::OutOfBounds)
            } else if cell(target, tx, ty) is Some {
                Err(MoveError::DropOccupied)
            } else if piece_index >= hand_of(h, turn).len() {
                Err(MoveError::HandIndexInvalid)
            } else {
                let p = hand_of(h, turn)[piece_index as int];
                let h2 = with_hand(h, turn, hand_of(h, turn).remove(piece_index as int));
                let t1 = if branching { target } else { h2 };
                let cs = drop_survivors(p.candidates, turn, tx, ty, t1);
                if cs.is_empty_set() {
                    Err(MoveError::DropForbiddenByRule)
                } else {
                    let placed = Piece { owner: turn, candidates: cs, ..p };
                    Ok((if branching { h2 } else { src }, set_cell(t1, tx, ty, Some(placed))))
                }
            }
        },
    }
}

/// The piece a drop takes from the hand, when the move is a drop with a valid index.
pub open spec fn dropped_piece(turn: Player, pm: PlannedMove, branching: bool, src: SnapView, target: SnapView) -> Piece {
    match pm.kind {
        MoveKind::Drop { piece_index, to } => hand_of(drop_source(branching, src, target), turn)[piece_index as int],
        _ => arbitrary(),
    }
}

/// One more use of each type among `c`.
pub open spec fn ledger_add(l: Seq<usize>, c: CandidateSet) -> Seq<usize> {
    Seq::new(8, |k: int| (l[k] + if c.has(type_at(k)) { 1int } else { 0 }) as usize)
}

pub open spec fn ledger_counts(pm: PlannedMove, mode: HandMode) -> bool {
    pm.kind is Drop && mode == HandMode::Global
}

/// A drop onto a free square of the board with a valid hand index: the piece
/// leaves the hand, whatever the rules then say of its candidates.
pub open spec fn drop_takes_piece(turn: Player, pm: PlannedMove, branching: bool, src: SnapView, target: SnapView) -> bool {
    match pm.kind {
        MoveKind::Drop { piece_index, to } => on_board(to.0 as int, to.1 as int) && cell(target, to.0 as int, to.1 as int)
            is None && piece_index < hand_of(drop_source(branching, src, target), turn).len(),
        _ => false,
    }
}

/// The source and target once the dropped piece has left the hand.
pub open spec fn after_take(turn: Player, pm: PlannedMove, branching: bool, src: SnapView, target: SnapView) -> (SnapView, SnapView) {
    let h = drop_source(branching, src, target);
    let h2 = with_hand(h, turn, hand_of(h, turn).remove(pm.kind->Drop_piece_index as int));
    if branching { (h2, target) } else { (src, h2) }
}

impl Game {
    /// Applies one move: a piece of `src_present` moves to (or is dropped on) `target`.
    /// Without branching the caller passes a copy of the present as `src_present`
    /// and the present itself as `target`.
    pub fn execute_move(
        &self,
        src_present: &mut Snapshot,
        target: &mut Snapshot,
        pm: &PlannedMove,
        branching: bool,
        global_cons: &mut Vec<usize>,
    ) -> (r: Result<(), MoveError>)
        requires
            old(src_present).wf(),
            old(target).wf(),
            old(global_cons)@.len() == 8,
            forall|k: int| 0 <= k < 8 ==> old(global_cons)@[k] < usize::MAX,
        ensures
            final(global_cons)@.len() == 8,
            forall|k: int| 0 <= k < 8 ==> final(global_cons)@[k] <= old(global_cons)@[k] + 1,
            r is Ok == move_result(self.settings.past_only, self.turn, *pm, branching, old(src_present)@, old(target)@) is Ok,
            r is Err ==> r->Err_0 == move_result(self.settings.past_only, self.turn, *pm, branching, old(src_present)@, old(target)@)->Err_0,
            r is Ok ==> (final(src_present)@, final(target)@) == move_result(self.settings.past_only, self.turn, *pm, branching, old(src_present)@, old(target)@)->Ok_0,
            r is Ok ==> final(src_present).wf() && final(target).wf(),
            r is Ok && ledger_counts(*pm, self.settings.hand_mode) ==> final(global_cons)@ == ledger_add(
                old(global_cons)@,
                dropped_piece(self.turn, *pm, branching, old(src_present)@, old(target)@).candidates,
            ),
            r is Ok && !ledger_counts(*pm, self.settings.hand_mode) ==> final(global_cons)@ == old(global_cons)@,
            ledger_counts(*pm, self.settings.hand_mode) && drop_takes_piece(self.turn, *pm, branching, old(src_present)@, old(target)@)
                ==> final(global_cons)@ == ledger_add(
                old(global_cons)@,
                dropped_piece(self.turn, *pm, branching, old(src_present)@, old(target)@).candidates,
            ),
            !(ledger_counts(*pm, self.settings.hand_mode) && drop_takes_piece(self.turn, *pm, branching, old(src_present)@, old(target)@))
                ==> final(global_cons)@ == old(global_cons)@,
            r is Err && !drop_takes_piece(self.turn, *pm, branching, old(src_present)@, old(target)@) ==> final(src_present)@ == old(src_present)@
                && final(target)@ == old(target)@,
            r is Err && drop_takes_piece(self.turn, *pm, branching, old(src_present)@, old(target)@) ==> (final(src_present)@, final(target)@)
                == after_take(self.turn, *pm, branching, old(src_present)@, old(target)@),
            r is Err ==> final(target)@.board == old(target)@.board,
    {
        reveal(move_result);
        match pm.kind {
            MoveKind::Move { from, to, promote } => {
                if from.0 >= 9 || from.1 >= 9 {
                    return Err(MoveError::OutOfBounds);
                }
                proof { lemma_board_view(src_present); }
                assert(src_present@.board[from.1 as int].len() == 9);
                let piece = match src_present.board[from.1][from.0] {
                    Some(p) => p,
                    None => {
                        return Err(MoveError::EmptySource);
                    },
                };
                if piece.owner != self.turn {
                    return Err(MoveError::NotOwnPiece);
                }
                let candidates = self.filter_candidates_for_move(
                    &piece,
                    from,
                    to,
                    pm.delta_w,
                    pm.delta_t,
                    src_present,
                    target,
                )?;
                if candidates.is_empty() {
                    return Err(MoveError::NoSurvivingCandidate);
                }
                let moved = Piece { candidates, promoted: promote, ..piece };
                proof { lemma_board_view(target); }
                assert(target@.board[to.1 as int].len() == 9);
                if let Some(captured) = target.board[to.1][to.0] {
                    let mut c = captured;
                    c.candidates.remove(PieceType::King);
                    target.push_hand(self.turn, c);
                }
                if !branching {
                    target.set_square(from.0, from.1, None);
                }
                target.set_square(to.0, to.1, Some(moved));
                Ok(())
            },
            MoveKind::Drop { piece_index, to } => {
                if to.0 >= 9 || to.1 >= 9 {
                    return Err(MoveError::OutOfBounds);
                }
                proof { lemma_board_view(target); }
                assert(target@.board[to.1 as int].len() == 9);
                if target.board[to.1][to.0].is_some() {
                    return Err(MoveError::DropOccupied);
                }
                let hand_len = if branching {
                    src_present.hand(self.turn).len()
                } else {
                    target.hand(self.turn).len()
                };
                if piece_index >= hand_len {
                    return Err(MoveError::HandIndexInvalid);
                }
                let mut p = if branching {
                    src_present.remove_hand(self.turn, piece_index)
                } else {
                    target.remove_hand(self.turn, piece_index)
                };
                if self.settings.hand_mode == HandMode::Global {
                    let ghost l0 = global_cons@;
                    let mut k: usize = 0;
                    while k < 8
                        invariant
                            k <= 8,
                            l0.len() == 8,
                            forall|j: int| 0 <= j < 8 ==> l0[j] < usize::MAX,
                            global_cons@.len() == 8,
                            forall|j: int| 0 <= j < k ==> global_cons@[j] == ledger_add(l0, p.candidates)[j],
                            forall|j: int| k <= j < 8 ==> global_cons@[j] == l0[j],
                        decreases 8 - k,
                    {
                        let t = crate::rules::type_at_exec(k);
                        assert(global_cons@[k as int] == l0[k as int]);
                        if p.candidates.contains(t) {
                            let v = global_cons[k] + 1;
                            global_cons.set(k, v);
                        }
                        k = k + 1;
                    }
                    assert(global_cons@ =~= ledger_add(l0, p.candidates));
                }
                p.owner = self.turn;
                p.candidates = self.filter_drop_candidates(&p.candidates, to, target);
                if p.candidates.is_empty() {
                    return Err(MoveError::DropForbiddenByRule);
                }
                target.set_square(to.0, to.1, Some(p));
                Ok(())
            },
        }
    }
}

/// A move branches when it changes world or goes back in time.
pub open spec fn is_branching(pm: PlannedMove) -> bool {
    pm.delta_w != 0 || pm.delta_t < 0
}

/// Position of world `w` in a sequence of world-lines that holds it.
pub open spec fn world_index(ws: Seq<WorldView>, w: int) -> int {
    choose|i: int| 0 <= i < ws.len() && (#[trigger] ws[i]).w == w
}

/// Where a new world-line with index `key` goes to keep the order.
pub open spec fn insert_pos(ws: Seq<WorldView>, key: int) -> int
    decreases ws.len(),
{
    if ws.len() == 0 || ws[0].w > key {
        0
    } else {
        1 + insert_pos(ws.drop_first(), key)
    }
}

pub open spec fn push_present(wv: WorldView, s: SnapView) -> WorldView {
    WorldView { history: wv.history.push(s), ..wv }
}

pub open spec fn fresh_world(w: int, s: SnapView) -> WorldView {
    WorldView { w: w as i32, history: seq![s], staged: None, lost: false }
}

/// The checks on time, history and world count that come before the move
/// itself all pass.
pub open spec fn move_runs(settings: Settings, ws: Seq<WorldView>, w: int, pm: PlannedMove) -> bool {
    let wv = ws[world_index(ws, w)];
    let t_base = wv.history.len() - 1 + pm.delta_t;
    let w_new = w + pm.delta_w;
    &&& !(settings.past_only && pm.delta_t > 0)
    &&& abs(pm.delta_t as int) <= settings.max_time_jump
    &&& t_base >= 0
    &&& is_branching(pm) ==> {
        &&& ws.len() < settings.max_worlds
        &&& i32::MIN <= w_new <= i32::MAX
        &&& !has_world(ws, w_new)
        &&& t_base < wv.history.len()
    }
}

/// What applying `pm` to world `w` does to the world-lines and the ledger.
pub open spec fn apply_result(
    settings: Settings,
    turn: Player,
    ws: Seq<WorldView>,
    w: int,
    pm: PlannedMove,
    ledger: Seq<usize>,
) -> Result<(Seq<WorldView>, Seq<usize>), MoveError> {
    let i = world_index(ws, w);
    let wv = ws[i];
    let t_base = wv.history.len() - 1 + pm.delta_t;
    let w_new = w + pm.delta_w;
    if settings.past_only && pm.delta_t > 0 {
        Err(MoveError::FutureMoveDisallowed)
    } else if abs(pm.delta_t as int) > settings.max_time_jump {
        Err(MoveError::TimeJumpTooLarge)
    } else if t_base < 0 {
        Err(MoveError::HistoryRangeInvalid)
    } else if is_branching(pm) {
        if ws.len() >= settings.max_worlds {
            Err(MoveError::MaxWorldsExceeded)
        } else if !(i32::MIN <= w_new <= i32::MAX) {
            Err(MoveError::OutOfBounds)
        } else if has_world(ws, w_new) {
            Err(MoveError::WorldCollision)
        } else if t_base >= wv.history.len() {
            Err(MoveError::HistoryRangeInvalid)
        } else {
            branch_result(settings, turn, ws, i, w_new, t_base, pm, ledger)
        }
    } else {
        in_place_result(settings, turn, ws, i, pm, ledger)
    }
}

pub open spec fn ledger_after(settings: Settings, turn: Player, pm: PlannedMove, branching: bool, src: SnapView, target: SnapView, ledger: Seq<usize>) -> Seq<usize> {
    if ledger_counts(pm, settings.hand_mode) {
        ledger_add(ledger, dropped_piece(turn, pm, branching, src, target).candidates)
    } else {
        ledger
    }
}

/// A branching move of world `ws[i]`: its present moves on, and a new
/// world-line `w_new` starts from the snapshot at time `t_base`.
pub open spec fn branch_result(
    settings: Settings,
    turn: Player,
    ws: Seq<WorldView>,
    i: int,
    w_new: int,
    t_base: int,
    pm: PlannedMove,
    ledger: Seq<usize>,
) -> Result<(Seq<WorldView>, Seq<usize>), MoveError> {
    let wv = ws[i];
    let src = present_of(wv);
    let base = wv.history[t_base];
    match move_result(settings.past_only, turn, pm, true, src, base) {
        Err(e) => Err(e),
        Ok((s2, t2)) => {
            let ws1 = ws.update(i, push_present(wv, s2));
            Ok(
                (
                    ws1.insert(insert_pos(ws1, w_new), fresh_world(w_new, t2)),
                    ledger_after(settings, turn, pm, true, src, base, ledger),
                ),
            )
        },
    }
}

/// A move within world `ws[i]`: its present changes in place.
pub open spec fn in_place_result(
    settings: Settings,
    turn: Player,
    ws: Seq<WorldView>,
    i: int,
    pm: PlannedMove,
    ledger: Seq<usize>,
) -> Result<(Seq<WorldView>, Seq<usize>), MoveError> {
    let cur = present_of(ws[i]);
    match move_result(settings.past_only, turn, pm, false, cur, cur) {
        Err(e) => Err(e),
        Ok((s2, t2)) => Ok(
            (ws.update(i, push_present(ws[i], t2)), ledger_after(settings, turn, pm, false, cur, cur, ledger)),
        ),
    }
}

pub proof fn lemma_world_index(ws: Seq<WorldView>, i: int)
    requires
        worlds_wf(ws),
        0 <= i < ws.len(),
    ensures
        world_index(ws, ws[i].w as int) == i,
{
    let j = world_index(ws, ws[i].w as int);
    if j < i {
        assert(ws[j].w < ws[i].w);
    } else if j > i {
        assert(ws[i].w < ws[j].w);
    }
}

proof fn lemma_insert_pos_step(ws: Seq<WorldView>, key: int, i: int)
    requires
        0 <= i < ws.len(),
        ws[i].w <= key,
    ensures
        insert_pos(ws.skip(i), key) == 1 + insert_pos(ws.skip(i + 1), key),
{
    assert(ws.skip(i).drop_first() =~= ws.skip(i + 1));
}

impl Game {
    fn insert_world(&mut self, wl: WorldLine)
        requires
            worlds_wf(old(self).worlds_view()),
            world_wf(wl@),
            !has_world(old(self).worlds_view(), wl.w as int),
        ensures
            final(self).worlds_view() == old(self).worlds_view().insert(insert_pos(old(self).worlds_view(), wl.w as int), wl@),
            worlds_wf(final(self).worlds_view()),
            final(self).settings == old(self).settings,
            final(self).turn == old(self).turn,
            final(self).message == old(self).message,
            final(self).next_id == old(self).next_id,
            final(self).selected_world == old(self).selected_world,
    {
        let ghost ws = self.worlds_view();
        let key = wl.w;
        let mut i: usize = 0;
        assert(ws.skip(0) =~= ws);
        while i < self.worlds.len() && self.worlds[i].w <= key
            invariant
                i <= ws.len(),
                ws == self.worlds_view(),
                insert_pos(ws, key as int) == i + insert_pos(ws.skip(i as int), key as int),
                forall|j: int| 0 <= j < i ==> (#[trigger] ws[j]).w <= key,
            decreases ws.len() - i,
        {
            proof { lemma_insert_pos_step(ws, key as int, i as int); }
            i = i + 1;
        }
        proof {
            if i < ws.len() {
                assert(ws.skip(i as int)[0] == ws[i as int]);
            } else {
                assert(ws.skip(i as int).len() == 0);
            }
        }
        let ghost nv = wl@;
        self.worlds.insert(i, wl);
        assert(self.worlds_view() =~= ws.insert(i as int, nv));
        proof {
            let nws = self.worlds_view();
            assert forall|j: int| 0 <= j < i implies (#[trigger] ws[j]).w < key by {
                if ws[j].w == key {
                    assert(has_world(ws, key as int));
                }
            }
            assert forall|a: int, b: int| 0 <= a < b < nws.len() implies (#[trigger] nws[a]).w < (#[trigger] nws[b]).w by {
                if b < i {
                } else if b == i {
                } else if a < i {
                    assert(ws[a].w < key);
                    assert(ws[i as int].w > key);
                    if b - 1 > i {
                        assert(ws[i as int].w < ws[b - 1].w);
                    }
                } else if a == i {
                    assert(ws[i as int].w > key);
                    if b - 1 > i {
                        assert(ws[i as int].w < ws[b - 1].w);
                    }
                } else {
                    assert(ws[a - 1].w < ws[b - 1].w);
                }
            }
            assert forall|j: int| 0 <= j < nws.len() implies world_wf(#[trigger] nws[j]) by {
                if j < i {
                    assert(nws[j] == ws[j]);
                } else if j > i {
                    assert(nws[j] == ws[j - 1]);
                }
            }
        }
    }
}

impl Game {
    /// Applies the move staged for world `w`, on copies, and records the result.
    fn apply_one_world(&mut self, w: i32, pm: PlannedMove, global_cons: &mut Vec<usize>) -> (r: Result<(), MoveError>)
        requires
            worlds_wf(old(self).worlds_view()),
            has_world(old(self).worlds_view(), w as int),
            old(global_cons)@.len() == 8,
            forall|k: int| 0 <= k < 8 ==> old(global_cons)@[k] < usize::MAX,
        ensures
            worlds_wf(final(self).worlds_view()),
            final(global_cons)@.len() == 8,
            forall|k: int| 0 <= k < 8 ==> final(global_cons)@[k] <= old(global_cons)@[k] + 1,
            r is Ok == apply_result(old(self).settings, old(self).turn, old(self).worlds_view(), w as int, pm, old(global_cons)@) is Ok,
            r is Ok ==> (final(self).worlds_view(), final(global_cons)@) == apply_result(
                old(self).settings,
                old(self).turn,
                old(self).worlds_view(),
                w as int,
                pm,
                old(global_cons)@,
            )->Ok_0,
            r is Err ==> r->Err_0 == apply_result(
                old(self).settings,
                old(self).turn,
                old(self).worlds_view(),
                w as int,
                pm,
                old(global_cons)@,
            )->Err_0,
            r is Err ==> final(self).worlds_view() == old(self).worlds_view(),
            !move_runs(old(self).settings, old(self).worlds_view(), w as int, pm) ==> r is Err && final(global_cons)@ == old(
                global_cons,
            )@,
            final(self).settings == old(self).settings,
            final(self).turn == old(self).turn,
            final(self).message == old(self).message,
            final(self).next_id == old(self).next_id,
            final(self).selected_world == old(self).selected_world,
    {
        let ghost ws = self.worlds_view();
        let i = match self.find_world(w) {
            Some(i) => i,
            None => {
                return Err(MoveError::HistoryRangeInvalid);
            },
        };
        proof { lemma_world_index(ws, i as int); }
        assert(world_wf(ws[i as int]));
        let len = self.worlds[i].history.len();
        assert(ws[i as int].history.len() == len);
        let present_idx = len - 1;
        if self.settings.past_only && pm.delta_t > 0 {
            return Err(MoveError::FutureMoveDisallowed);
        }
        let dt = pm.delta_t as i64;
        let adt = if dt < 0 { -dt } else { dt };
        if adt > self.settings.max_time_jump as i64 {
            return Err(MoveError::TimeJumpTooLarge);
        }
        let back: usize = if dt < 0 { (-dt) as usize } else { 0 };
        if dt < 0 && back > present_idx {
            return Err(MoveError::HistoryRangeInvalid);
        }
        let branching = pm.delta_w != 0 || pm.delta_t < 0;
        if branching {
            if self.worlds.len() >= self.settings.max_worlds {
                return Err(MoveError::MaxWorldsExceeded);
            }
            let w_new64 = w as i64 + pm.delta_w as i64;
            if w_new64 < i32::MIN as i64 || w_new64 > i32::MAX as i64 {
                return Err(MoveError::OutOfBounds);
            }
            let w_new = w_new64 as i32;
            if let Some(j) = self.find_world(w_new) {
                assert(ws[j as int].w == w_new);
                return Err(MoveError::WorldCollision);
            }
            if dt > 0 {
                return Err(MoveError::HistoryRangeInvalid);
            }
            self.apply_branch(i, w_new, present_idx - back, pm, global_cons)
        } else {
            self.apply_in_place(i, pm, global_cons)
        }
    }

    fn apply_branch(&mut self, i: usize, w_new: i32, t_base: usize, pm: PlannedMove, global_cons: &mut Vec<usize>) -> (r: Result<(), MoveError>)
        requires
            worlds_wf(old(self).worlds_view()),
            i < old(self).worlds@.len(),
            t_base < old(self).worlds_view()[i as int].history.len(),
            !has_world(old(self).worlds_view(), w_new as int),
            old(global_cons)@.len() == 8,
            forall|k: int| 0 <= k < 8 ==> old(global_cons)@[k] < usize::MAX,
        ensures
            worlds_wf(final(self).worlds_view()),
            final(global_cons)@.len() == 8,
            forall|k: int| 0 <= k < 8 ==> final(global_cons)@[k] <= old(global_cons)@[k] + 1,
            r is Ok == branch_result(old(self).settings, old(self).turn, old(self).worlds_view(), i as int, w_new as int, t_base as int, pm, old(global_cons)@) is Ok,
            r is Ok ==> (final(self).worlds_view(), final(global_cons)@) == branch_result(old(self).settings, old(self).turn, old(self).worlds_view(), i as int, w_new as int, t_base as int, pm, old(global_cons)@)->Ok_0,
            r is Err ==> r->Err_0 == branch_result(old(self).settings, old(self).turn, old(self).worlds_view(), i as int, w_new as int, t_base as int, pm, old(global_cons)@)->Err_0,
            r is Err ==> final(self).worlds_view() == old(self).worlds_view(),
            final(self).settings == old(self).settings,
            final(self).turn == old(self).turn,
            final(self).message == old(self).message,
            final(self).next_id == old(self).next_id,
            final(self).selected_world == old(self).selected_world,
    {
        let ghost ws = self.worlds_view();
        assert(world_wf(ws[i as int]));
        let len = self.worlds[i].history.len();
        assert(ws[i as int].history.len() == len);
        let present_idx = len - 1;
        assert(view_wf(ws[i as int].history[t_base as int]));
        assert(self.worlds@[i as int].history@[t_base as int]@ == ws[i as int].history[t_base as int]);
        assert(self.worlds@[i as int].history@[present_idx as int]@ == present_of(ws[i as int]));
        let mut new_snap = self.worlds[i].history[t_base].duplicate();
        let mut src_now = self.worlds[i].history[present_idx].duplicate();
        self.execute_move(&mut src_now, &mut new_snap, &pm, true, global_cons)?;
        let ghost s2 = src_now@;
        let ghost nv = new_snap@;
        let ghost w0 = self.worlds@;
        self.worlds[i].history.push(src_now);
        assert(self.worlds_view()[i as int].history =~= ws[i as int].history.push(s2));
        assert forall|j: int| 0 <= j < ws.len() && j != i implies self.worlds_view()[j] == ws[j] by {
            assert(self.worlds@[j] == w0[j]);
        }
        assert(self.worlds_view() =~= ws.update(i as int, push_present(ws[i as int], s2)));
        proof {
            let ws1 = self.worlds_view();
            assert forall|j: int| 0 <= j < ws1.len() implies world_wf(#[trigger] ws1[j]) by {
                if j == i {
                    assert forall|t: int| 0 <= t < ws1[j].history.len() implies view_wf(#[trigger] ws1[j].history[t]) by {
                        if t < len {
                            assert(ws1[j].history[t] == ws[j].history[t]);
                        }
                    }
                }
            }
            assert forall|a: int, b: int| 0 <= a < b < ws1.len() implies (#[trigger] ws1[a]).w < (#[trigger] ws1[b]).w by {
                assert(ws[a].w < ws[b].w);
            }
            assert(!has_world(ws1, w_new as int)) by {
                if has_world(ws1, w_new as int) {
                    let j = choose|j: int| 0 <= j < ws1.len() && (#[trigger] ws1[j]).w == w_new;
                    assert(ws[j].w == w_new);
                }
            }
        }
        let mut history: Vec<Snapshot> = Vec::new();
        history.push(new_snap);
        let wl = WorldLine { w: w_new, history, staged: None, lost: false };
        assert(wl@.history =~= seq![nv]);
        assert(wl@ == fresh_world(w_new as int, nv));
        self.insert_world(wl);
        Ok(())
    }

    fn apply_in_place(&mut self, i: usize, pm: PlannedMove, global_cons: &mut Vec<usize>) -> (r: Result<(), MoveError>)
        requires
            worlds_wf(old(self).worlds_view()),
            i < old(self).worlds@.len(),
            old(global_cons)@.len() == 8,
            forall|k: int| 0 <= k < 8 ==> old(global_cons)@[k] < usize::MAX,
        ensures
            worlds_wf(final(self).worlds_view()),
            final(global_cons)@.len() == 8,
            forall|k: int| 0 <= k < 8 ==> final(global_cons)@[k] <= old(global_cons)@[k] + 1,
            r is Ok == in_place_result(old(self).settings, old(self).turn, old(self).worlds_view(), i as int, pm, old(global_cons)@) is Ok,
            r is Ok ==> (final(self).worlds_view(), final(global_cons)@) == in_place_result(old(self).settings, old(self).turn, old(self).worlds_view(), i as int, pm, old(global_cons)@)->Ok_0,
            r is Err ==> r->Err_0 == in_place_result(old(self).settings, old(self).turn, old(self).worlds_view(), i as int, pm, old(global_cons)@)->Err_0,
            r is Err ==> final(self).worlds_view() == old(self).worlds_view(),
            final(self).settings == old(self).settings,
            final(self).turn == old(self).turn,
            final(self).message == old(self).message,
            final(self).next_id == old(self).next_id,
            final(self).selected_world == old(self).selected_world,
    {
        let ghost ws = self.worlds_view();
        assert(world_wf(ws[i as int]));
        let len = self.worlds[i].history.len();
        assert(ws[i as int].history.len() == len);
        let present_idx = len - 1;
        assert(self.worlds@[i as int].history@[present_idx as int]@ == present_of(ws[i as int]));
        let mut dummy = self.worlds[i].history[present_idx].duplicate();
        let mut cur = self.worlds[i].history[present_idx].duplicate();
        self.execute_move(&mut dummy, &mut cur, &pm, false, global_cons)?;
        let ghost t2 = cur@;
        let ghost w0 = self.worlds@;
        self.worlds[i].history.push(cur);
        assert(self.worlds_view()[i as int].history =~= ws[i as int].history.push(t2));
        assert forall|j: int| 0 <= j < ws.len() && j != i implies self.worlds_view()[j] == ws[j] by {
            assert(self.worlds@[j] == w0[j]);
        }
        assert(self.worlds_view() =~= ws.update(i as int, push_present(ws[i as int], t2)));
        proof {
            let ws1 = self.worlds_view();
            assert forall|j: int| 0 <= j < ws1.len() implies world_wf(#[trigger] ws1[j]) by {
                if j == i {
                    assert forall|t: int| 0 <= t < ws1[j].history.len() implies view_wf(#[trigger] ws1[j].history[t]) by {
                        if t < len {
                            assert(ws1[j].history[t] == ws[j].history[t]);
                        }
                    }
                }
            }
            assert forall|a: int, b: int| 0 <= a < b < ws1.len() implies (#[trigger] ws1[a]).w < (#[trigger] ws1[b]).w by {
                assert(ws[a].w < ws[b].w);
            }
        }
        Ok(())
    }
}

/// Every world-line has a staged move.
pub open spec fn all_staged(ws: Seq<WorldView>) -> bool {
    forall|i: int| 0 <= i < ws.len() ==> (#[trigger] ws[i]).staged is Some
}

pub open spec fn empty_ledger() -> Seq<usize> {
    Seq::new(8, |k: int| 0usize)
}

/// The first `j` staged moves of `ws0`, applied in order; the world-lines and
/// ledger after them, and the error that stopped them, if any.
pub open spec fn run_moves(settings: Settings, turn: Player, ws0: Seq<WorldView>, j: nat) -> (Seq<WorldView>, Seq<usize>, Option<MoveError>)
    decreases j,
{
    if j == 0 {
        (ws0, empty_ledger(), None)
    } else {
        let prev = run_moves(settings, turn, ws0, (j - 1) as nat);
        if prev.2 is Some {
            prev
        } else {
            match apply_result(settings, turn, prev.0, ws0[j - 1].w as int, ws0[j - 1].staged->0, prev.1) {
                Err(e) => (prev.0, prev.1, Some(e)),
                Ok((ws, l)) => (ws, l, None),
            }
        }
    }
}

/// Pieces that may be `t` in the hands of `pl`, over the presents of all world-lines.
pub open spec fn supply(ws: Seq<WorldView>, pl: Player, t: PieceType) -> nat {
    seq_sum(ws, |wv: WorldView| hand_holders(hand_of(present_of(wv), pl), t))
}

/// Some type was dropped more often than the hands hold it.
pub open spec fn overdrawn(ws: Seq<WorldView>, pl: Player, l: Seq<usize>) -> bool {
    exists|k: int| 0 <= k < 8 && (#[trigger] l[k]) > supply(ws, pl, type_at(k))
}

/// The present after the turn: collapsed, pending move cleared, loss recorded.
pub open spec fn finalize(wv: WorldView, turn: Player) -> WorldView {
    let c = collapsed(present_of(wv));
    WorldView {
        history: wv.history.update(wv.history.len() - 1, c),
        staged: None,
        lost: !has_king(c, turn) || !has_king(c, turn.spec_opposite()),
        ..wv
    }
}

proof fn lemma_run_stops(settings: Settings, turn: Player, ws0: Seq<WorldView>, j: nat, n: nat)
    requires
        j <= n,
        run_moves(settings, turn, ws0, j).2 is Some,
    ensures
        run_moves(settings, turn, ws0, n) == run_moves(settings, turn, ws0, j),
    decreases n - j,
{
    if j < n {
        lemma_run_stops(settings, turn, ws0, j, (n - 1) as nat);
    }
}

proof fn lemma_insert_keeps(ws: Seq<WorldView>, p: int, x: WorldView, v: int)
    requires
        0 <= p <= ws.len(),
        has_world(ws, v),
    ensures
        has_world(ws.insert(p, x), v),
{
    let k = choose|k: int| 0 <= k < ws.len() && (#[trigger] ws[k]).w == v;
    if k < p {
        assert(ws.insert(p, x)[k] == ws[k]);
    } else {
        assert(ws.insert(p, x)[k + 1] == ws[k]);
    }
}

pub proof fn lemma_insert_pos_bound(ws: Seq<WorldView>, key: int)
    ensures
        0 <= insert_pos(ws, key) <= ws.len(),
    decreases ws.len(),
{
    if ws.len() > 0 && ws[0].w <= key {
        lemma_insert_pos_bound(ws.drop_first(), key);
    }
}

proof fn lemma_apply_keeps(settings: Settings, turn: Player, ws: Seq<WorldView>, w: int, pm: PlannedMove, l: Seq<usize>, v: int)
    requires
        has_world(ws, w),
        has_world(ws, v),
        apply_result(settings, turn, ws, w, pm, l) is Ok,
    ensures
        has_world(apply_result(settings, turn, ws, w, pm, l)->Ok_0.0, v),
{
    let i = world_index(ws, w);
    let k = choose|k: int| 0 <= k < ws.len() && (#[trigger] ws[k]).w == v;
    let wv = ws[i];
    let t_base = wv.history.len() - 1 + pm.delta_t;
    let w_new = w + pm.delta_w;
    if is_branching(pm) {
        let src = present_of(wv);
        let base = wv.history[t_base];
        let (s2, t2) = move_result(settings.past_only, turn, pm, true, src, base)->Ok_0;
        let ws1 = ws.update(i, push_present(wv, s2));
        assert(ws1[k].w == v);
        lemma_insert_pos_bound(ws1, w_new);
        lemma_insert_keeps(ws1, insert_pos(ws1, w_new), fresh_world(w_new, t2), v);
    } else {
        let r = apply_result(settings, turn, ws, w, pm, l)->Ok_0.0;
        assert(r[k].w == v);
    }
}

impl Game {
    /// The hands of `pl` hold at least `need` pieces that may be `t`.
    fn supply_at_least(&self, pl: Player, t: PieceType, need: usize) -> (r: bool)
        requires
            worlds_wf(self.worlds_view()),
        ensures
            r == (supply(self.worlds_view(), pl, t) >= need),
    {
        let ghost ws = self.worlds_view();
        if need == 0 {
            return true;
        }
        let mut have: usize = 0;
        let mut i: usize = 0;
        while i < self.worlds.len()
            invariant
                ws == self.worlds_view(),
                worlds_wf(ws),
                i <= ws.len(),
                have < need,
                have as nat == seq_sum(ws.take(i as int), |wv: WorldView| hand_holders(hand_of(present_of(wv), pl), t)),
            decreases ws.len() - i,
        {
            assert(world_wf(ws[i as int]));
            let last = self.worlds[i].history.len() - 1;
            assert(self.worlds@[i as int].history@[last as int]@ == present_of(ws[i as int]));
            let c = count_hand_holders(self.worlds[i].history[last].hand(pl), t);
            proof { lemma_sum_take_next(ws, |wv: WorldView| hand_holders(hand_of(present_of(wv), pl), t), i as int); }
            if c >= need - have {
                proof { lemma_sum_prefix_le(ws, |wv: WorldView| hand_holders(hand_of(present_of(wv), pl), t), i as int + 1); }
                return true;
            }
            have = have + c;
            i = i + 1;
        }
        proof { lemma_sum_take_all(ws, |wv: WorldView| hand_holders(hand_of(present_of(wv), pl), t)); }
        false
    }

    /// Collapses every present, clears the staged moves and records lost worlds.
    fn finalize_worlds(&mut self)
        requires
            worlds_wf(old(self).worlds_view()),
        ensures
            worlds_wf(final(self).worlds_view()),
            final(self).worlds_view() == old(self).worlds_view().map_values(|wv: WorldView| finalize(wv, old(self).turn)),
            final(self).settings == old(self).settings,
            final(self).turn == old(self).turn,
            final(self).message == old(self).message,
            final(self).next_id == old(self).next_id,
            final(self).selected_world == old(self).selected_world,
    {
        let ghost ws = self.worlds_view();
        let turn = self.turn;
        let mut i: usize = 0;
        while i < self.worlds.len()
            invariant
                i <= ws.len(),
                worlds_wf(ws),
                self.worlds@.len() == ws.len(),
                self.turn == turn,
                forall|j: int| 0 <= j < i ==> (#[trigger] self.worlds_view()[j]) == finalize(ws[j], turn),
                forall|j: int| i <= j < ws.len() ==> (#[trigger] self.worlds_view()[j]) == ws[j],
                forall|j: int| 0 <= j < i ==> world_wf(#[trigger] self.worlds_view()[j]),
                self.settings == old(self).settings,
                self.message == old(self).message,
                self.next_id == old(self).next_id,
                self.selected_world == old(self).selected_world,
            decreases ws.len() - i,
        {
            let ghost w0 = self.worlds@;
            let ghost v0 = self.worlds_view();
            assert(world_wf(ws[i as int]));
            assert(self.worlds_view()[i as int] == ws[i as int]);
            let last = self.worlds[i].history.len() - 1;
            assert(self.worlds@[i as int].history@[last as int]@ == present_of(ws[i as int]));
            assert(view_wf(ws[i as int].history[last as int]));
            self.worlds[i].staged = None;
            Game::collapse_by_count(&mut self.worlds[i].history[last]);
            let mine = Game::king_candidates(&self.worlds[i].history[last], turn);
            let theirs = Game::king_candidates(&self.worlds[i].history[last], turn.opposite());
            self.worlds[i].lost = mine.len() == 0 || theirs.len() == 0;
            proof {
                let c = collapsed(present_of(ws[i as int]));
                assert(self.worlds_view()[i as int].history =~= ws[i as int].history.update(last as int, c));
                assert(self.worlds_view()[i as int] == finalize(ws[i as int], turn));
                assert forall|j: int| 0 <= j < i + 1 implies #[trigger] self.worlds_view()[j] == finalize(ws[j], turn) by {
                    if j != i {
                        assert(self.worlds@[j] == w0[j]);
                        assert(v0[j] == w0[j]@);
                    }
                }
                assert forall|j: int| i + 1 <= j < ws.len() implies #[trigger] self.worlds_view()[j] == ws[j] by {
                    assert(self.worlds@[j] == w0[j]);
                    assert(v0[j] == w0[j]@);
                }
                let fw = self.worlds_view()[i as int];
                assert forall|t: int| 0 <= t < fw.history.len() implies view_wf(#[trigger] fw.history[t]) by {
                    if t != last {
                        assert(fw.history[t] == ws[i as int].history[t]);
                    }
                }
                assert(world_wf(fw));
                assert forall|j: int| 0 <= j < i + 1 implies world_wf(#[trigger] self.worlds_view()[j]) by {
                    if j != i {
                        assert(self.worlds@[j] == w0[j]);
                        assert(v0[j] == w0[j]@);
                    }
                }
            }
            i = i + 1;
        }
        proof {
            let fws = self.worlds_view();
            assert(fws =~= ws.map_values(|wv: WorldView| finalize(wv, turn)));
            assert forall|a: int, b: int| 0 <= a < b < fws.len() implies (#[trigger] fws[a]).w < (#[trigger] fws[b]).w by {
                assert(ws[a].w < ws[b].w);
            }
        }
    }
}

pub open spec fn commit_ok(settings: Settings, turn: Player, ws0: Seq<WorldView>) -> bool {
    let r = run_moves(settings, turn, ws0, ws0.len());
    r.2 is None && !(settings.hand_mode == HandMode::Global && overdrawn(r.0, turn, r.1))
}

impl Game {
    /// Runs one turn: every world-line must have a staged move; the moves are
    /// applied in ascending world order, the shared hands are reconciled in
    /// global hand mode, every present collapses, and the turn passes.
    /// A refused move stops the turn with the worlds before it already moved.
    pub fn commit_turn(&mut self)
        requires
            old(self).wf(),
        ensures
            final(self).wf(),
            final(self).settings == old(self).settings,
            final(self).next_id == old(self).next_id,
            final(self).selected_world == old(self).selected_world,
            !all_staged(old(self).worlds_view()) ==> {
                &&& final(self).worlds_view() == old(self).worlds_view()
                &&& final(self).turn == old(self).turn
                &&& exists|i: int|
                    0 <= i < old(self).worlds_view().len() && (#[trigger] old(self).worlds_view()[i]).staged is None
                        && (forall|j: int| 0 <= j < i ==> (#[trigger] old(self).worlds_view()[j]).staged is Some)
                        && final(self).message@ == "世界線 "@ + decimal_text(old(self).worlds_view()[i].w as int)
                        + " の手が未入力です"@
            },
            all_staged(old(self).worlds_view()) ==> {
                let r = run_moves(old(self).settings, old(self).turn, old(self).worlds_view(), old(self).worlds_view().len());
                &&& r.2 is Some ==> {
                    &&& final(self).worlds_view() == r.0
                    &&& final(self).turn == old(self).turn
                    &&& final(self).message@ == "不合法手: "@ + r.2->0.spec_text()
                }
                &&& r.2 is None && old(self).settings.hand_mode == HandMode::Global && overdrawn(r.0, old(self).turn, r.1) ==> {
                    &&& final(self).worlds_view() == r.0
                    &&& final(self).turn == old(self).turn
                    &&& exists|k: int|
                        0 <= k < 8 && (#[trigger] r.1[k]) > supply(r.0, old(self).turn, type_at(k)) && (forall|q: int|
                            0 <= q < k ==> !((#[trigger] r.1[q]) > supply(r.0, old(self).turn, type_at(q))))
                            && final(self).message@ == "global hand不足: "@ + type_at(k).spec_short()
                }
                &&& commit_ok(old(self).settings, old(self).turn, old(self).worlds_view()) ==> {
                    &&& final(self).worlds_view() == r.0.map_values(|wv: WorldView| finalize(wv, old(self).turn))
                    &&& final(self).turn == old(self).turn.spec_opposite()
                    &&& final(self).message@ == "同時確定しました"@
                    &&& forall|k: int|
                        0 <= k < old(self).worlds_view().len() && is_branch_move(
                            (#[trigger] old(self).worlds_view()[k]).staged->0,
                        ) ==> branch_kept(final(self).worlds_view(), old(self).worlds_view(), k)
                }
            },
    {
        let ghost ws0 = self.worlds_view();
        let n = self.worlds.len();
        let mut keys: Vec<i32> = Vec::new();
        let mut moves: Vec<PlannedMove> = Vec::new();
        let mut i: usize = 0;
        while i < n
            invariant
                n == self.worlds@.len(),
                ws0 == self.worlds_view(),
                i <= n,
                keys@.len() == i,
                moves@.len() == i,
                forall|j: int| 0 <= j < i ==> (#[trigger] keys@[j]) == ws0[j].w,
                forall|j: int| 0 <= j < i ==> ws0[j].staged == Some(#[trigger] moves@[j]),
                self.settings == old(self).settings,
                self.turn == old(self).turn,
                self.next_id == old(self).next_id,
                self.selected_world == old(self).selected_world,
                ws0 == old(self).worlds_view(),
                worlds_wf(ws0),
            decreases n - i,
        {
            assert(self.worlds@[i as int].staged == ws0[i as int].staged);
            match self.worlds[i].staged {
                Some(m) => {
                    keys.push(self.worlds[i].w);
                    moves.push(m);
                },
                None => {
                    let mut msg = String::from_str("世界線 ");
                    append_decimal(self.worlds[i].w, &mut msg);
                    msg.append(" の手が未入力です");
                    assert(ws0[i as int].staged is None);
                    assert forall|j: int| 0 <= j < i implies (#[trigger] ws0[j]).staged is Some by {
                        assert(ws0[j].staged == Some(moves@[j]));
                    }
                    self.message = msg;
                    assert(!all_staged(ws0));
                    return;
                },
            }
            i = i + 1;
        }
        assert forall|j: int| 0 <= j < ws0.len() implies (#[trigger] ws0[j]).staged is Some by {
            assert(ws0[j].staged == Some(moves@[j]));
        }
        assert(all_staged(ws0));
        let ghost settings = self.settings;
        let ghost turn = self.turn;
        let mut global_cons: Vec<usize> = vec![0, 0, 0, 0, 0, 0, 0, 0];
        assert(global_cons@ =~= empty_ledger());
        proof { lemma_run_start(ws0); }
        let mut j: usize = 0;
        while j < n
            invariant
                n == ws0.len(),
                j <= n,
                keys@.len() == n,
                moves@.len() == n,
                forall|k: int| 0 <= k < n ==> (#[trigger] keys@[k]) == ws0[k].w,
                forall|k: int| 0 <= k < n ==> ws0[k].staged == Some(#[trigger] moves@[k]),
                settings == self.settings,
                turn == self.turn,
                settings == old(self).settings,
                turn == old(self).turn,
                ws0 == old(self).worlds_view(),
                all_staged(ws0),
                worlds_wf(ws0),
                run_inv(self.worlds_view(), ws0, j as int),
                worlds_wf(self.worlds_view()),
                run_moves(settings, turn, ws0, j as nat) == (self.worlds_view(), global_cons@, None::<MoveError>),
                forall|k: int| 0 <= k < n ==> has_world(self.worlds_view(), (#[trigger] ws0[k]).w as int),
                global_cons@.len() == 8,
                forall|k: int| 0 <= k < 8 ==> global_cons@[k] <= j,
                self.next_id == old(self).next_id,
                self.selected_world == old(self).selected_world,
            decreases n - j,
        {
            let ghost ws = self.worlds_view();
            let ghost l = global_cons@;
            assert(has_world(ws, ws0[j as int].w as int));
            assert(keys@[j as int] == ws0[j as int].w);
            assert(moves@[j as int] == ws0[j as int].staged->0);
            let res = self.apply_one_world(keys[j], moves[j], &mut global_cons);
            match res {
                Err(e) => {
                    proof {
                        lemma_run_stops(settings, turn, ws0, (j + 1) as nat, n as nat);
                    }
                    let mut msg = String::from_str("不合法手: ");
                    msg.append(e.text());
                    self.message = msg;
                    return;
                },
                Ok(()) => {
                    proof {
                        lemma_run_step(settings, turn, ws0, j as int, ws, l);
                        assert forall|k: int| 0 <= k < n implies has_world(self.worlds_view(), (#[trigger] ws0[k]).w as int) by {
                            lemma_apply_keeps(settings, turn, ws, ws0[j as int].w as int, ws0[j as int].staged->0, l, ws0[k].w as int);
                        }
                    }
                },
            }
            j = j + 1;
        }
        let ghost r = run_moves(settings, turn, ws0, n as nat);
        if self.settings.hand_mode == HandMode::Global {
            let mut k: usize = 0;
            while k < 8
                invariant
                    k <= 8,
                    worlds_wf(self.worlds_view()),
                    r == (self.worlds_view(), global_cons@, None::<MoveError>),
                    global_cons@.len() == 8,
                    forall|q: int| 0 <= q < k ==> !((#[trigger] global_cons@[q]) > supply(r.0, turn, type_at(q))),
                    turn == self.turn,
                    settings == self.settings,
                    settings == old(self).settings,
                    turn == old(self).turn,
                    ws0 == old(self).worlds_view(),
                    all_staged(ws0),
                    r == run_moves(settings, turn, ws0, ws0.len()),
                    run_inv(self.worlds_view(), ws0, ws0.len() as int),
                    settings.hand_mode == HandMode::Global,
                    self.next_id == old(self).next_id,
                    self.selected_world == old(self).selected_world,
                decreases 8 - k,
            {
                let t = crate::rules::type_at_exec(k);
                if !self.supply_at_least(self.turn, t, global_cons[k]) {
                    let mut msg = String::from_str("global hand不足: ");
                    msg.append(t.short());
                    self.message = msg;
                    assert(r.1[k as int] > supply(r.0, turn, type_at(k as int)));
                    assert(overdrawn(r.0, turn, r.1));
                    assert(!commit_ok(settings, turn, ws0));
                    return;
                }
                k = k + 1;
            }
            assert(!overdrawn(r.0, turn, r.1));
        }
        let ghost cur = self.worlds_view();
        assert(run_inv(cur, ws0, ws0.len() as int));
        self.finalize_worlds();
        proof {
            assert forall|k: int| 0 <= k < ws0.len() && is_branch_move((#[trigger] ws0[k]).staged->0) implies branch_kept(
                self.worlds_view(),
                ws0,
                k,
            ) by {
                lemma_finalize_keeps(cur, ws0, turn, k);
            }
        }
        self.turn = self.turn.opposite();
        self.message = String::from_str("同時確定しました");
    }
}

} // verus!
