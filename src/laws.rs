use vstd::prelude::*;
use crate::commit::{finalize, apply_result, capture, fresh_world, insert_pos, is_branching, lemma_insert_pos_bound, move_result, push_present, world_index};
use crate::error::MoveError;
use crate::game::{has_world, Game, present_of, world_wf, worlds_wf, PlannedMove, Settings, WorldView};
use crate::piece::{PieceType, Player};
use crate::rules::{double_pawn, drop_survivors};
use crate::snapshot::{collapsed, lemma_collapsed_keeps_ids, cell, hand_of, on_board, view_wf, SnapView};

verus! {

/// A branching move of a piece writes that same piece, identity unchanged,
/// onto its destination in the snapshot that starts the new world-line.
pub proof fn lemma_branch_keeps_id(past_only: bool, turn: Player, pm: PlannedMove, src: SnapView, base: SnapView)
    requires
        view_wf(base),
        pm.kind is Move,
        move_result(past_only, turn, pm, true, src, base) is Ok,
    ensures
        ({
            let (from, to) = (pm.kind->Move_from, pm.kind->Move_to);
            let t2 = move_result(past_only, turn, pm, true, src, base)->Ok_0.1;
            &&& cell(t2, to.0 as int, to.1 as int) is Some
            &&& cell(t2, to.0 as int, to.1 as int)->0.id == cell(src, from.0 as int, from.1 as int)->0.id
            &&& cell(t2, to.0 as int, to.1 as int)->0.owner == turn
            &&& cell(src, from.0 as int, from.1 as int) is Some
            &&& cell(src, from.0 as int, from.1 as int)->0.owner == turn
            &&& on_board(to.0 as int, to.1 as int)
        }),
{
    reveal(move_result);
    let (from, to) = (pm.kind->Move_from, pm.kind->Move_to);
    let t1 = capture(base, to.0 as int, to.1 as int, turn);
    assert(t1.board == base.board);
    assert(t1.board[to.1 as int].len() == 9);
}

/// A move of a piece that branches into a new world-line.
pub open spec fn is_branch_move(pm: PlannedMove) -> bool {
    pm.kind is Move && is_branching(pm)
}

/// `nw` is the world-line that the branching move `pm` of world `w`, made
/// from present `src`, started: its only snapshot holds the moved piece, with
/// its id and owner, on the destination.
pub open spec fn branch_landed(nw: WorldView, w: int, pm: PlannedMove, src: SnapView) -> bool {
    let (from, to) = (pm.kind->Move_from, pm.kind->Move_to);
    &&& nw.w == w + pm.delta_w
    &&& nw.history.len() == 1
    &&& on_board(to.0 as int, to.1 as int)
    &&& cell(src, from.0 as int, from.1 as int) is Some
    &&& cell(nw.history[0], to.0 as int, to.1 as int) is Some
    &&& cell(nw.history[0], to.0 as int, to.1 as int)->0.id == cell(src, from.0 as int, from.1 as int)->0.id
    &&& cell(nw.history[0], to.0 as int, to.1 as int)->0.owner == cell(src, from.0 as int, from.1 as int)->0.owner
}

/// After a branching move applies to world `w`, the world-line `w + delta_w`
/// is new and its only snapshot holds the moved piece, with the same id and
/// owner, on the destination square.
pub proof fn lemma_branch_id_in_new_world(
    settings: Settings,
    turn: Player,
    ws: Seq<WorldView>,
    w: int,
    pm: PlannedMove,
    ledger: Seq<usize>,
)
    requires
        worlds_wf(ws),
        has_world(ws, w),
        is_branch_move(pm),
        apply_result(settings, turn, ws, w, pm, ledger) is Ok,
    ensures
        ({
            let r = apply_result(settings, turn, ws, w, pm, ledger)->Ok_0.0;
            exists|k: int|
                0 <= k < r.len() && branch_landed(#[trigger] r[k], w, pm, present_of(ws[world_index(ws, w)])) && !has_world(
                    ws,
                    r[k].w as int,
                )
        }),
{
    let i = world_index(ws, w);
    let wv = ws[i];
    let t_base = wv.history.len() - 1 + pm.delta_t;
    let w_new = w + pm.delta_w;
    let src = present_of(wv);
    let base = wv.history[t_base];
    assert(world_wf(wv));
    lemma_branch_keeps_id(settings.past_only, turn, pm, src, base);
    let (s2, t2) = move_result(settings.past_only, turn, pm, true, src, base)->Ok_0;
    let ws1 = ws.update(i, push_present(wv, s2));
    let p = insert_pos(ws1, w_new);
    lemma_insert_pos_bound(ws1, w_new);
    let r = apply_result(settings, turn, ws, w, pm, ledger)->Ok_0.0;
    assert(r == ws1.insert(p, fresh_world(w_new, t2)));
    assert(r[p] == fresh_world(w_new, t2));
    assert(branch_landed(r[p], w, pm, src));
}

/// Each branching move among the first `k` has left its new world-line in
/// `cur`, under an index that none of the original world-lines uses.
pub open spec fn branch_kept(cur: Seq<WorldView>, ws0: Seq<WorldView>, k: int) -> bool {
    exists|m: int|
        0 <= m < cur.len() && branch_landed(#[trigger] cur[m], ws0[k].w as int, ws0[k].staged->0, present_of(ws0[k]))
            && forall|q: int| 0 <= q < ws0.len() ==> (#[trigger] ws0[q]).w != cur[m].w
}

/// `wv` stands, unchanged, among `cur`.
pub open spec fn world_in(cur: Seq<WorldView>, wv: WorldView) -> bool {
    exists|m: int| 0 <= m < cur.len() && #[trigger] cur[m] == wv
}

/// Partway through the moves of a turn: the world-lines still to move are as
/// they were, and every branch made so far has kept its new world-line.
pub open spec fn run_inv(cur: Seq<WorldView>, ws0: Seq<WorldView>, j: int) -> bool {
    &&& forall|k: int| j <= k < ws0.len() ==> world_in(cur, #[trigger] ws0[k])
    &&& forall|k: int| 0 <= k < j && is_branch_move((#[trigger] ws0[k]).staged->0) ==> branch_kept(cur, ws0, k)
}

proof fn lemma_apply_keeps_other(settings: Settings, turn: Player, ws: Seq<WorldView>, w: int, pm: PlannedMove, l: Seq<usize>, m: int)
    requires
        has_world(ws, w),
        0 <= m < ws.len(),
        ws[m].w != w,
        apply_result(settings, turn, ws, w, pm, l) is Ok,
    ensures
        exists|k: int|
            0 <= k < apply_result(settings, turn, ws, w, pm, l)->Ok_0.0.len() && #[trigger] apply_result(
                settings,
                turn,
                ws,
                w,
                pm,
                l,
            )->Ok_0.0[k] == ws[m],
{
    let i = world_index(ws, w);
    let wv = ws[i];
    let r = apply_result(settings, turn, ws, w, pm, l)->Ok_0.0;
    if is_branching(pm) {
        let t_base = wv.history.len() - 1 + pm.delta_t;
        let w_new = w + pm.delta_w;
        let src = present_of(wv);
        let base = wv.history[t_base];
        let (s2, t2) = move_result(settings.past_only, turn, pm, true, src, base)->Ok_0;
        let ws1 = ws.update(i, push_present(wv, s2));
        let p = insert_pos(ws1, w_new);
        lemma_insert_pos_bound(ws1, w_new);
        assert(r == ws1.insert(p, fresh_world(w_new, t2)));
        if m < p {
            assert(r[m] == ws[m]);
        } else {
            assert(r[m + 1] == ws[m]);
        }
    } else {
        assert(r[m] == ws[m]);
    }
}

/// The invariant holds before the first move.
pub proof fn lemma_run_start(ws0: Seq<WorldView>)
    ensures
        run_inv(ws0, ws0, 0),
{
    assert forall|k: int| 0 <= k < ws0.len() implies world_in(ws0, #[trigger] ws0[k]) by {
        assert(ws0[k] == ws0[k]);
    }
}

/// One more move of the turn keeps the invariant.
pub proof fn lemma_run_step(settings: Settings, turn: Player, ws0: Seq<WorldView>, j: int, cur: Seq<WorldView>, l: Seq<usize>)
    requires
        worlds_wf(ws0),
        worlds_wf(cur),
        0 <= j < ws0.len(),
        run_inv(cur, ws0, j),
        forall|q: int| 0 <= q < ws0.len() ==> has_world(cur, (#[trigger] ws0[q]).w as int),
        apply_result(settings, turn, cur, ws0[j].w as int, ws0[j].staged->0, l) is Ok,
    ensures
        run_inv(apply_result(settings, turn, cur, ws0[j].w as int, ws0[j].staged->0, l)->Ok_0.0, ws0, j + 1),
{
    let w = ws0[j].w as int;
    let pm = ws0[j].staged->0;
    let next = apply_result(settings, turn, cur, w, pm, l)->Ok_0.0;
    assert(has_world(cur, w));
    assert forall|k: int| j + 1 <= k < ws0.len() implies world_in(next, #[trigger] ws0[k]) by {
        assert(world_in(cur, ws0[k]));
        let m0 = choose|m: int| 0 <= m < cur.len() && #[trigger] cur[m] == ws0[k];
        assert(ws0[j].w < ws0[k].w);
        lemma_apply_keeps_other(settings, turn, cur, w, pm, l, m0);
    }
    assert forall|k: int| 0 <= k < j + 1 && is_branch_move((#[trigger] ws0[k]).staged->0) implies branch_kept(next, ws0, k) by {
        if k < j {
            let m0 = choose|m: int|
                0 <= m < cur.len() && branch_landed(#[trigger] cur[m], ws0[k].w as int, ws0[k].staged->0, present_of(ws0[k]))
                    && forall|q: int| 0 <= q < ws0.len() ==> (#[trigger] ws0[q]).w != cur[m].w;
            assert(cur[m0].w != w);
            lemma_apply_keeps_other(settings, turn, cur, w, pm, l, m0);
            let k2 = choose|k2: int| 0 <= k2 < next.len() && #[trigger] next[k2] == cur[m0];
            assert(branch_landed(next[k2], ws0[k].w as int, ws0[k].staged->0, present_of(ws0[k])));
        } else {
            assert(world_in(cur, ws0[j]));
            let m0 = choose|m: int| 0 <= m < cur.len() && #[trigger] cur[m] == ws0[j];
            crate::commit::lemma_world_index(cur, m0);
            lemma_branch_id_in_new_world(settings, turn, cur, w, pm, l);
            let k2 = choose|k2: int|
                0 <= k2 < next.len() && branch_landed(#[trigger] next[k2], w, pm, present_of(cur[world_index(cur, w)]))
                    && !has_world(cur, next[k2].w as int);
            assert forall|q: int| 0 <= q < ws0.len() implies (#[trigger] ws0[q]).w != next[k2].w by {
                assert(has_world(cur, ws0[q].w as int));
            }
            assert(branch_landed(next[k2], ws0[k].w as int, ws0[k].staged->0, present_of(ws0[k])));
        }
    }
}

/// Finalizing the turn keeps each branch's new world-line and its moved piece.
pub proof fn lemma_finalize_keeps(cur: Seq<WorldView>, ws0: Seq<WorldView>, turn: Player, k: int)
    requires
        worlds_wf(cur),
        branch_kept(cur, ws0, k),
    ensures
        branch_kept(cur.map_values(|wv: WorldView| finalize(wv, turn)), ws0, k),
{
    let f = cur.map_values(|wv: WorldView| finalize(wv, turn));
    let m0 = choose|m: int|
        0 <= m < cur.len() && branch_landed(#[trigger] cur[m], ws0[k].w as int, ws0[k].staged->0, present_of(ws0[k]))
            && forall|q: int| 0 <= q < ws0.len() ==> (#[trigger] ws0[q]).w != cur[m].w;
    assert(world_wf(cur[m0]));
    let v = cur[m0].history[0];
    lemma_collapsed_keeps_ids(v);
    assert(f[m0] == finalize(cur[m0], turn));
    assert(f[m0].history[0] == collapsed(v));
    let to = ws0[k].staged->0.kind->Move_to;
    assert(cell(collapsed(v), to.0 as int, to.1 as int) is Some);
    assert(branch_landed(f[m0], ws0[k].w as int, ws0[k].staged->0, present_of(ws0[k])));
}

/// A drop on a file where the dropping side already has a piece collapsed to a
/// pawn never leaves the pawn among the dropped piece's candidates; and when no
/// candidate is left the drop is refused by rule.
pub proof fn lemma_two_pawn(past_only: bool, turn: Player, pm: PlannedMove, branching: bool, src: SnapView, target: SnapView)
    requires
        view_wf(src),
        view_wf(target),
        pm.kind is Drop,
        double_pawn(target, pm.kind->Drop_to.0 as int, turn),
    ensures
        ({
            let to = pm.kind->Drop_to;
            let idx = pm.kind->Drop_piece_index;
            let h = if branching { src } else { target };
            let r = move_result(past_only, turn, pm, branching, src, target);
            &&& r is Ok ==> cell(r->Ok_0.1, to.0 as int, to.1 as int) is Some && !cell(
                r->Ok_0.1,
                to.0 as int,
                to.1 as int,
            )->0.candidates.has(PieceType::Pawn)
            &&& (on_board(to.0 as int, to.1 as int) && cell(target, to.0 as int, to.1 as int) is None && idx
                < hand_of(h, turn).len() && hand_of(h, turn)[idx as int].candidates.is_only(PieceType::Pawn))
                ==> r == Err::<(SnapView, SnapView), MoveError>(MoveError::DropForbiddenByRule)
        }),
{
    reveal(move_result);
    let to = pm.kind->Drop_to;
    let h = if branching { src } else { target };
    let idx = pm.kind->Drop_piece_index;
    if on_board(to.0 as int, to.1 as int) && cell(target, to.0 as int, to.1 as int) is None && idx < hand_of(h, turn).len() {
        let p = hand_of(h, turn)[idx as int];
        let h2 = crate::snapshot::with_hand(h, turn, hand_of(h, turn).remove(idx as int));
        let t1 = if branching { target } else { h2 };
        assert(t1.board == target.board);
        assert(double_pawn(t1, to.0 as int, turn)) by {
            let y = choose|y: int| 0 <= y < 9 && (#[trigger] cell(target, to.0 as int, y)) is Some && cell(target, to.0 as int, y)->0.owner == turn
                && cell(target, to.0 as int, y)->0.candidates.is_only(PieceType::Pawn);
            assert(cell(t1, to.0 as int, y) == cell(target, to.0 as int, y));
        }
        let cs = drop_survivors(p.candidates, turn, to.0 as int, to.1 as int, t1);
        assert(!cs.has(PieceType::Pawn));
        assert(t1.board[to.1 as int].len() == 9);
        if p.candidates.is_only(PieceType::Pawn) {
            assert(cs.is_empty_set()) by {
                assert forall|t: PieceType| !cs.has(t) by {
                    assert(p.candidates.has(t) == (t == PieceType::Pawn));
                }
            }
        }
    }
}

/// Once the world count has reached the limit, no branching move can apply:
/// it fails, for lack of room or an earlier time check.
pub proof fn lemma_max_worlds(settings: Settings, turn: Player, ws: Seq<WorldView>, w: int, pm: PlannedMove, ledger: Seq<usize>)
    requires
        ws.len() >= settings.max_worlds,
        has_world(ws, w),
        is_branching(pm),
    ensures
        ({
            let r = apply_result(settings, turn, ws, w, pm, ledger);
            &&& r is Err
            &&& r->Err_0 == MoveError::MaxWorldsExceeded || r->Err_0 == MoveError::FutureMoveDisallowed
                || r->Err_0 == MoveError::TimeJumpTooLarge || r->Err_0 == MoveError::HistoryRangeInvalid
        }),
{
}

/// In a well-formed game, which `new` establishes and every operation keeps,
/// every piece standing on the board of every snapshot of every world-line
/// may still be at least one type.
pub proof fn lemma_board_candidates_non_empty(g: Game, i: int, t: int, x: int, y: int)
    requires
        g.wf(),
        0 <= i < g.worlds_view().len(),
        0 <= t < g.worlds_view()[i].history.len(),
        on_board(x, y),
        cell(g.worlds_view()[i].history[t], x, y) is Some,
    ensures
        !cell(g.worlds_view()[i].history[t], x, y)->0.candidates.is_empty_set(),
{
    assert(world_wf(g.worlds_view()[i]));
    assert(view_wf(g.worlds_view()[i].history[t]));
}

} // verus!
