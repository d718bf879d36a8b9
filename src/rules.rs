use vstd::prelude::*;
use crate::error::MoveError;
use crate::game::Game;
use crate::piece::{lemma_has_each, CandidateSet, Piece, PieceType, Player};
use crate::snapshot::{cell, lemma_board_view, on_board, SnapView, Snapshot};

verus! {

pub open spec fn abs(a: int) -> int {
    if a < 0 { -a } else { a }
}

pub open spec fn sign(a: int) -> int {
    if a > 0 { 1 } else if a < 0 { -1 } else { 0 }
}

pub open spec fn max2(a: int, b: int) -> int {
    if a >= b { a } else { b }
}

pub open spec fn step4(a: int, b: int, c: int, e: int) -> (int, int, int, int) {
    (a, b, c, e)
}

pub open spec fn gold_allows(f: int, d: (int, int, int, int)) -> bool {
    d == step4(0, f, 0, 0) || d == step4(1, 0, 0, 0) || d == step4(-1, 0, 0, 0) || d == step4(0, -f, 0, 0)
        || d == step4(1, f, 0, 0) || d == step4(-1, f, 0, 0) || d == step4(0, 0, f, 0) || d == step4(0, 0, 0, -1)
}

pub open spec fn silver_allows(f: int, d: (int, int, int, int)) -> bool {
    d == step4(0, f, 0, 0) || d == step4(1, f, 0, 0) || d == step4(-1, f, 0, 0) || d == step4(1, -f, 0, 0)
        || d == step4(-1, -f, 0, 0) || d == step4(0, 0, f, 0) || d == step4(0, 0, 0, -1)
}

pub open spec fn knight_allows(f: int, d: (int, int, int, int)) -> bool {
    d == step4(1, 2 * f, 0, 0) || d == step4(-1, 2 * f, 0, 0) || d == step4(1, 0, 2 * f, 0) || d == step4(-1, 0, 2 * f, 0)
        || d == step4(1, 0, 0, -2) || d == step4(-1, 0, 0, -2)
}

pub open spec fn pawn_allows(f: int, dx: int, dy: int, dw: int, dt: int) -> bool {
    (dy == f && dx == 0 && dw == 0 && dt == 0) || (dw == f && dx == 0 && dy == 0 && dt == 0)
        || (dt == -1 && dx == 0 && dy == 0 && dw == 0)
}

pub open spec fn king_allows(dx: int, dy: int, dw: int, dt: int) -> bool {
    max2(max2(abs(dx), abs(dy)), max2(abs(dw), abs(dt))) == 1
}

pub open spec fn lance_allows(f: int, dx: int, dy: int, dw: int, dt: int) -> bool {
    (dx, dy, dw, dt) != (0int, 0int, 0int, 0int) && ((dx == 0 && dw == 0 && dt == 0 && sign(dy) == f)
        || (dx == 0 && dy == 0 && dt == 0 && sign(dw) == f))
}

pub open spec fn zero_count(dx: int, dy: int, dw: int, dt: int) -> int {
    (if dx == 0 { 1int } else { 0 }) + (if dy == 0 { 1int } else { 0 }) + (if dw == 0 { 1int } else { 0 })
        + (if dt == 0 { 1int } else { 0 })
}

pub open spec fn rook_allows(dx: int, dy: int, dw: int, dt: int) -> bool {
    zero_count(dx, dy, dw, dt) == 3
}

/// At least two axes move, all by the same distance.
pub open spec fn bishop_allows(dx: int, dy: int, dw: int, dt: int) -> bool {
    let m = max2(max2(abs(dx), abs(dy)), max2(abs(dw), abs(dt)));
    &&& zero_count(dx, dy, dw, dt) <= 2
    &&& (dx == 0 || abs(dx) == m)
    &&& (dy == 0 || abs(dy) == m)
    &&& (dw == 0 || abs(dw) == m)
    &&& (dt == 0 || abs(dt) == m)
}

/// The displacement pattern of type `t` for a side whose forward sign is `f`.
pub open spec fn shape_allows(t: PieceType, f: int, dx: int, dy: int, dw: int, dt: int) -> bool {
    match t {
        PieceType::Pawn => pawn_allows(f, dx, dy, dw, dt),
        PieceType::Lance => lance_allows(f, dx, dy, dw, dt),
        PieceType::Knight => knight_allows(f, (dx, dy, dw, dt)),
        PieceType::Silver => silver_allows(f, (dx, dy, dw, dt)),
        PieceType::Gold => gold_allows(f, (dx, dy, dw, dt)),
        PieceType::Rook => rook_allows(dx, dy, dw, dt),
        PieceType::Bishop => bishop_allows(dx, dy, dw, dt),
        PieceType::King => king_allows(dx, dy, dw, dt),
    }
}

/// Types that may never jump two or more worlds.
pub open spec fn short_range(t: PieceType) -> bool {
    t == PieceType::Pawn || t == PieceType::Gold || t == PieceType::Silver || t == PieceType::King
}

pub open spec fn path_steps(dx: int, dy: int) -> int {
    max2(abs(dx), abs(dy))
}

pub open spec fn along(a: int, d: int, i: int) -> int {
    a + (if d > 0 { i } else if d < 0 { -i } else { 0 })
}

/// The board squares strictly before step `k` of the walk are on the board and empty.
pub open spec fn path_free_upto(v: SnapView, fx: int, fy: int, dx: int, dy: int, k: int) -> bool {
    forall|i: int|
        1 <= i < k ==> on_board(along(fx, dx, i), along(fy, dy, i)) && (#[trigger] cell(
            v,
            along(fx, dx, i),
            along(fy, dy, i),
        )) is None
}

/// The walk leaves the board before meeting any piece.
pub open spec fn path_error(v: SnapView, fx: int, fy: int, dx: int, dy: int) -> bool {
    exists|i: int|
        1 <= i < path_steps(dx, dy) && !on_board(#[trigger] along(fx, dx, i), along(fy, dy, i))
            && path_free_upto(v, fx, fy, dx, dy, i)
}

pub open spec fn path_clear(v: SnapView, fx: int, fy: int, dx: int, dy: int) -> bool {
    path_free_upto(v, fx, fy, dx, dy, path_steps(dx, dy))
}

/// Outcome of the walk between origin and destination on the board plane.
pub open spec fn path_outcome(v: SnapView, fx: int, fy: int, dx: int, dy: int) -> Result<bool, MoveError> {
    if path_error(v, fx, fy, dx, dy) {
        Err(MoveError::PathOutOfRange)
    } else {
        Ok(path_clear(v, fx, fy, dx, dy))
    }
}

/// Whether type `t` of `owner` may make the displacement, or why it cannot be judged.
pub open spec fn type_outcome(
    past_only: bool,
    t: PieceType,
    owner: Player,
    dx: int,
    dy: int,
    dw: int,
    dt: int,
    fx: int,
    fy: int,
    v: SnapView,
) -> Result<bool, MoveError> {
    let f = owner.spec_forward();
    if past_only && dt > 0 {
        Ok(false)
    } else if short_range(t) && abs(dw) >= 2 {
        Ok(false)
    } else if t == PieceType::Lance || t == PieceType::Rook {
        match path_outcome(v, fx, fy, dx, dy) {
            Err(e) => Err(e),
            Ok(clear) => Ok(clear && shape_allows(t, f, dx, dy, dw, dt)),
        }
    } else if t == PieceType::Bishop {
        if !shape_allows(t, f, dx, dy, dw, dt) {
            Ok(false)
        } else {
            path_outcome(v, fx, fy, dx, dy)
        }
    } else {
        Ok(shape_allows(t, f, dx, dy, dw, dt))
    }
}

fn abs64(a: i64) -> (r: i64)
    requires
        a > i64::MIN,
    ensures
        r == abs(a as int),
{
    if a < 0 { -a } else { a }
}

fn max64(a: i64, b: i64) -> (r: i64)
    ensures
        r == max2(a as int, b as int),
{
    if a >= b { a } else { b }
}

fn zeros(dx: i64, dy: i64, dw: i64, dt: i64) -> (r: i64)
    ensures
        r == zero_count(dx as int, dy as int, dw as int, dt as int),
{
    let mut n: i64 = 0;
    if dx == 0 { n = n + 1; }
    if dy == 0 { n = n + 1; }
    if dw == 0 { n = n + 1; }
    if dt == 0 { n = n + 1; }
    n
}

fn sign64(a: i64) -> (r: i64)
    ensures
        r == sign(a as int),
{
    if a > 0 { 1 } else if a < 0 { -1 } else { 0 }
}

fn shape_ok(t: PieceType, f: i64, dx: i64, dy: i64, dw: i64, dt: i64) -> (r: bool)
    requires
        f == 1 || f == -1,
        -(i32::MAX as i64) - 1 <= dx <= i32::MAX as i64,
        -(i32::MAX as i64) - 1 <= dy <= i32::MAX as i64,
        -(i32::MAX as i64) - 1 <= dw <= i32::MAX as i64,
        -(i32::MAX as i64) - 1 <= dt <= i32::MAX as i64,
    ensures
        r == shape_allows(t, f as int, dx as int, dy as int, dw as int, dt as int),
{
    match t {
        PieceType::Pawn => (dy == f && dx == 0 && dw == 0 && dt == 0) || (dw == f && dx == 0 && dy == 0
            && dt == 0) || (dt == -1 && dx == 0 && dy == 0 && dw == 0),
        PieceType::Lance => !(dx == 0 && dy == 0 && dw == 0 && dt == 0) && ((dx == 0 && dw == 0 && dt
            == 0 && sign64(dy) == f) || (dx == 0 && dy == 0 && dt == 0 && sign64(dw) == f)),
        PieceType::Knight => dw == 0 && dt == 0 && (dx == 1 || dx == -1) && dy == 2 * f
            || dy == 0 && dt == 0 && (dx == 1 || dx == -1) && dw == 2 * f
            || dy == 0 && dw == 0 && (dx == 1 || dx == -1) && dt == -2,
        PieceType::Silver => dw == 0 && dt == 0 && (dx == 0 || dx == 1 || dx == -1) && dy == f
            || dw == 0 && dt == 0 && (dx == 1 || dx == -1) && dy == -f
            || dx == 0 && dy == 0 && dt == 0 && dw == f
            || dx == 0 && dy == 0 && dw == 0 && dt == -1,
        PieceType::Gold => dw == 0 && dt == 0 && (dx == 0 || dx == 1 || dx == -1) && dy == f
            || dw == 0 && dt == 0 && (dx == 1 || dx == -1) && dy == 0
            || dw == 0 && dt == 0 && dx == 0 && dy == -f
            || dx == 0 && dy == 0 && dt == 0 && dw == f
            || dx == 0 && dy == 0 && dw == 0 && dt == -1,
        PieceType::Rook => zeros(dx, dy, dw, dt) == 3,
        PieceType::Bishop => {
            let m = max64(max64(abs64(dx), abs64(dy)), max64(abs64(dw), abs64(dt)));
            zeros(dx, dy, dw, dt) <= 2 && (dx == 0 || abs64(dx) == m) && (dy == 0 || abs64(dy) == m)
                && (dw == 0 || abs64(dw) == m) && (dt == 0 || abs64(dt) == m)
        },
        PieceType::King => max64(max64(abs64(dx), abs64(dy)), max64(abs64(dw), abs64(dt))) == 1,
    }
}

pub open spec fn type_at(k: int) -> PieceType {
    if k == 0 { PieceType::Pawn }
    else if k == 1 { PieceType::Lance }
    else if k == 2 { PieceType::Knight }
    else if k == 3 { PieceType::Silver }
    else if k == 4 { PieceType::Gold }
    else if k == 5 { PieceType::Rook }
    else if k == 6 { PieceType::Bishop }
    else { PieceType::King }
}

pub open spec fn type_index(t: PieceType) -> int {
    match t {
        PieceType::Pawn => 0,
        PieceType::Lance => 1,
        PieceType::Knight => 2,
        PieceType::Silver => 3,
        PieceType::Gold => 4,
        PieceType::Rook => 5,
        PieceType::Bishop => 6,
        PieceType::King => 7,
    }
}

pub(crate) fn type_at_exec(k: usize) -> (r: PieceType)
    requires
        k < 8,
    ensures
        r == type_at(k as int),
        type_index(r) == k,
{
    if k == 0 { PieceType::Pawn }
    else if k == 1 { PieceType::Lance }
    else if k == 2 { PieceType::Knight }
    else if k == 3 { PieceType::Silver }
    else if k == 4 { PieceType::Gold }
    else if k == 5 { PieceType::Rook }
    else if k == 6 { PieceType::Bishop }
    else { PieceType::King }
}

/// Outcome of type `t` for `piece` moving from (fx, fy) to (tx, ty).
pub open spec fn cand_outcome(
    past_only: bool,
    piece: Piece,
    fx: int,
    fy: int,
    tx: int,
    ty: int,
    dw: int,
    dt: int,
    src: SnapView,
    t: PieceType,
) -> Result<bool, MoveError> {
    type_outcome(past_only, t, piece.owner, tx - fx, ty - fy, dw, dt, fx, fy, src)
}

pub open spec fn survives(
    past_only: bool,
    piece: Piece,
    fx: int,
    fy: int,
    tx: int,
    ty: int,
    dw: int,
    dt: int,
    src: SnapView,
    t: PieceType,
) -> bool {
    piece.candidates.has(t) && cand_outcome(past_only, piece, fx, fy, tx, ty, dw, dt, src, t) == Ok::<
        bool,
        MoveError,
    >(true)
}

/// Outcome of checking every candidate of `piece` against the displacement:
/// the surviving types, or the error of a type that could not be judged.
pub open spec fn move_outcome(
    past_only: bool,
    piece: Piece,
    fx: int,
    fy: int,
    tx: int,
    ty: int,
    dw: int,
    dt: int,
    src: SnapView,
    target: SnapView,
) -> Result<CandidateSet, MoveError> {
    if !on_board(tx, ty) {
        Err(MoveError::OutOfBounds)
    } else if cell(target, tx, ty) is Some && cell(target, tx, ty)->0.owner == piece.owner {
        Err(MoveError::AllyOccupied)
    } else if exists|t: PieceType|
        piece.candidates.has(t) && (#[trigger] cand_outcome(past_only, piece, fx, fy, tx, ty, dw, dt, src, t)) is Err {
        Err(MoveError::PathOutOfRange)
    } else {
        Ok(
            CandidateSet {
                pawn: survives(past_only, piece, fx, fy, tx, ty, dw, dt, src, PieceType::Pawn),
                lance: survives(past_only, piece, fx, fy, tx, ty, dw, dt, src, PieceType::Lance),
                knight: survives(past_only, piece, fx, fy, tx, ty, dw, dt, src, PieceType::Knight),
                silver: survives(past_only, piece, fx, fy, tx, ty, dw, dt, src, PieceType::Silver),
                gold: survives(past_only, piece, fx, fy, tx, ty, dw, dt, src, PieceType::Gold),
                rook: survives(past_only, piece, fx, fy, tx, ty, dw, dt, src, PieceType::Rook),
                bishop: survives(past_only, piece, fx, fy, tx, ty, dw, dt, src, PieceType::Bishop),
                king: survives(past_only, piece, fx, fy, tx, ty, dw, dt, src, PieceType::King),
            },
        )
    }
}

/// The rank farthest from `pl`, where a pawn or lance could never move again.
pub open spec fn last_rank(pl: Player, y: int) -> bool {
    (pl == Player::Black && y == 0) || (pl == Player::White && y == 8)
}

/// The two ranks farthest from `pl`, where a knight could never move again.
pub open spec fn last_two_ranks(pl: Player, y: int) -> bool {
    (pl == Player::Black && y <= 1) || (pl == Player::White && y >= 7)
}

/// The file already holds a piece of `owner` collapsed to a pawn.
pub open spec fn double_pawn(v: SnapView, file: int, owner: Player) -> bool {
    exists|y: int|
        0 <= y < 9 && (#[trigger] cell(v, file, y)) is Some && cell(v, file, y)->0.owner == owner
            && cell(v, file, y)->0.candidates.is_only(PieceType::Pawn)
}

/// The candidates left for a piece of `pl` dropped on (tx, ty).
pub open spec fn drop_survivors(c: CandidateSet, pl: Player, tx: int, ty: int, v: SnapView) -> CandidateSet {
    CandidateSet {
        pawn: c.pawn && !double_pawn(v, tx, pl) && !last_rank(pl, ty),
        lance: c.lance && !last_rank(pl, ty),
        knight: c.knight && !last_two_ranks(pl, ty),
        ..c
    }
}

impl Game {
    fn is_linear_clear(from: (usize, usize), dx: i32, dy: i32, src: &Snapshot) -> (r: Result<bool, MoveError>)
        requires
            src.wf(),
            on_board(from.0 as int, from.1 as int),
            -8 <= dx <= 8,
            -8 <= dy <= 8,
        ensures
            r == path_outcome(src@, from.0 as int, from.1 as int, dx as int, dy as int),
    {
        let ax = if dx < 0 { -dx } else { dx };
        let ay = if dy < 0 { -dy } else { dy };
        let steps = if ax >= ay { ax } else { ay };
        let ghost (fx, fy) = (from.0 as int, from.1 as int);
        if steps <= 1 {
            assert(!path_error(src@, fx, fy, dx as int, dy as int));
            return Ok(true);
        }
        let mut i: i32 = 1;
        while i < steps
            invariant
                src.wf(),
                on_board(fx, fy),
                fx == from.0,
                fy == from.1,
                -8 <= dx <= 8,
                -8 <= dy <= 8,
                steps == path_steps(dx as int, dy as int),
                1 <= i <= steps,
                path_free_upto(src@, fx, fy, dx as int, dy as int, i as int),
            decreases steps - i,
        {
            let x = from.0 as i32 + if dx > 0 { i } else if dx < 0 { -i } else { 0 };
            let y = from.1 as i32 + if dy > 0 { i } else if dy < 0 { -i } else { 0 };
            assert(x == along(fx, dx as int, i as int) && y == along(fy, dy as int, i as int));
            if x < 0 || y < 0 || x >= 9 || y >= 9 {
                assert(path_error(src@, fx, fy, dx as int, dy as int));
                return Err(MoveError::PathOutOfRange);
            }
            proof { lemma_board_view(src); }
            if src.board[y as usize][x as usize].is_some() {
                assert(!path_error(src@, fx, fy, dx as int, dy as int)) by {
                    if path_error(src@, fx, fy, dx as int, dy as int) {
                        let j = choose|j: int|
                            1 <= j < path_steps(dx as int, dy as int) && !on_board(#[trigger] along(fx, dx as int, j), along(fy, dy as int, j))
                                && path_free_upto(src@, fx, fy, dx as int, dy as int, j);
                        if j > i {
                            assert(cell(src@, along(fx, dx as int, i as int), along(fy, dy as int, i as int)) is None);
                        }
                    }
                }
                assert(cell(src@, x as int, y as int) is Some);
                return Ok(false);
            }
            i = i + 1;
        }
        assert(!path_error(src@, fx, fy, dx as int, dy as int)) by {
            if path_error(src@, fx, fy, dx as int, dy as int) {
                let j = choose|j: int|
                    1 <= j < path_steps(dx as int, dy as int) && !on_board(#[trigger] along(fx, dx as int, j), along(fy, dy as int, j))
                        && path_free_upto(src@, fx, fy, dx as int, dy as int, j);
                assert(cell(src@, along(fx, dx as int, j), along(fy, dy as int, j)) is None);
            }
        }
        Ok(true)
    }
}

impl Game {
    /// Whether type `t` of `owner` may make the displacement from `from`.
    pub fn type_can_move(
        &self,
        t: PieceType,
        owner: Player,
        dx: i32,
        dy: i32,
        dw: i32,
        dt: i32,
        from: (usize, usize),
        src: &Snapshot,
    ) -> (r: Result<bool, MoveError>)
        requires
            src.wf(),
            on_board(from.0 as int, from.1 as int),
            on_board(from.0 + dx, from.1 + dy),
        ensures
            r == type_outcome(
                self.settings.past_only,
                t,
                owner,
                dx as int,
                dy as int,
                dw as int,
                dt as int,
                from.0 as int,
                from.1 as int,
                src@,
            ),
    {
        if self.settings.past_only && dt > 0 {
            return Ok(false);
        }
        let short = match t {
            PieceType::Pawn | PieceType::Gold | PieceType::Silver | PieceType::King => true,
            _ => false,
        };
        if short && (dw >= 2 || dw <= -2) {
            return Ok(false);
        }
        let f = owner.forward_sign() as i64;
        let shape = shape_ok(t, f, dx as i64, dy as i64, dw as i64, dt as i64);
        match t {
            PieceType::Lance | PieceType::Rook => {
                let clear = Game::is_linear_clear(from, dx, dy, src)?;
                Ok(clear && shape)
            },
            PieceType::Bishop => {
                if !shape {
                    Ok(false)
                } else {
                    Game::is_linear_clear(from, dx, dy, src)
                }
            },
            _ => Ok(shape),
        }
    }

    /// The candidates of `piece` under which the move from `from` to `to`,
    /// with world and time displacement `dw` and `dt`, is legal.
    pub fn filter_candidates_for_move(
        &self,
        piece: &Piece,
        from: (usize, usize),
        to: (usize, usize),
        dw: i32,
        dt: i32,
        src: &Snapshot,
        target: &Snapshot,
    ) -> (r: Result<CandidateSet, MoveError>)
        requires
            src.wf(),
            target.wf(),
            on_board(from.0 as int, from.1 as int),
        ensures
            r == move_outcome(
                self.settings.past_only,
                *piece,
                from.0 as int,
                from.1 as int,
                to.0 as int,
                to.1 as int,
                dw as int,
                dt as int,
                src@,
                target@,
            ),
    {
        if to.0 >= 9 || to.1 >= 9 {
            return Err(MoveError::OutOfBounds);
        }
        proof { lemma_board_view(target); }
        if let Some(tp) = &target.board[to.1][to.0] {
            if tp.owner == piece.owner {
                return Err(MoveError::AllyOccupied);
            }
        }
        let dx = to.0 as i32 - from.0 as i32;
        let dy = to.1 as i32 - from.1 as i32;
        let mut out = CandidateSet::empty();
        let mut k: usize = 0;
        while k < 8
            invariant
                src.wf(),
                on_board(from.0 as int, from.1 as int),
                on_board(to.0 as int, to.1 as int),
                dx == to.0 - from.0,
                dy == to.1 - from.1,
                !(cell(target@, to.0 as int, to.1 as int) is Some && cell(target@, to.0 as int, to.1 as int)->0.owner
                    == piece.owner),
                k <= 8,
                forall|t: PieceType| type_index(t) < k && piece.candidates.has(t) ==> (#[trigger] cand_outcome(self.settings.past_only, *piece, from.0 as int, from.1 as int, to.0 as int, to.1 as int, dw as int, dt as int, src@, t)) is Ok,
                forall|t: PieceType|
                    #[trigger] out.has(t) == (type_index(t) < k && survives(self.settings.past_only, *piece, from.0 as int, from.1 as int, to.0 as int, to.1 as int, dw as int, dt as int, src@, t)),
            decreases 8 - k,
        {
            let t = type_at_exec(k);
            if piece.candidates.contains(t) {
                let ok = self.type_can_move(t, piece.owner, dx, dy, dw, dt, from, src);
                match ok {
                    Err(e) => {
                        assert(cand_outcome(self.settings.past_only, *piece, from.0 as int, from.1 as int, to.0 as int, to.1 as int, dw as int, dt as int, src@, t) is Err);
                        return Err(e);
                    },
                    Ok(b) => {
                        if b {
                            out.insert(t);
                        }
                    },
                }
            }
            k = k + 1;
        }
        proof {
            lemma_has_each(out);
            lemma_has_each(piece.candidates);
            assert(!(exists|t: PieceType| piece.candidates.has(t) && (#[trigger] cand_outcome(self.settings.past_only, *piece, from.0 as int, from.1 as int, to.0 as int, to.1 as int, dw as int, dt as int, src@, t)) is Err));
        }
        Ok(out)
    }

    /// The file `file` holds a piece of `owner` collapsed to a pawn.
    pub fn double_pawn_file(&self, s: &Snapshot, file: usize, owner: Player) -> (r: bool)
        requires
            s.wf(),
            file < 9,
        ensures
            r == double_pawn(s@, file as int, owner),
    {
        proof { lemma_board_view(s); }
        let mut y: usize = 0;
        while y < 9
            invariant
                s.wf(),
                file < 9,
                y <= 9,
                forall|j: int|
                    0 <= j < y ==> !((#[trigger] cell(s@, file as int, j)) is Some && cell(s@, file as int, j)->0.owner == owner
                        && cell(s@, file as int, j)->0.candidates.is_only(PieceType::Pawn)),
            decreases 9 - y,
        {
            proof { lemma_board_view(s); }
            if let Some(p) = &s.board[y][file] {
                if p.owner == owner && p.candidates.is_single_of(PieceType::Pawn) {
                    assert(cell(s@, file as int, y as int) is Some);
                    return true;
                }
            }
            y = y + 1;
        }
        false
    }

    /// The candidates left for a piece of the side to move dropped on `to`.
    pub fn filter_drop_candidates(&self, cands: &CandidateSet, to: (usize, usize), target: &Snapshot) -> (r: CandidateSet)
        requires
            target.wf(),
            on_board(to.0 as int, to.1 as int),
        ensures
            r == drop_survivors(*cands, self.turn, to.0 as int, to.1 as int, target@),
    {
        let mut out = *cands;
        let last = (self.turn == Player::Black && to.1 == 0) || (self.turn == Player::White && to.1 == 8);
        let last_two = (self.turn == Player::Black && to.1 <= 1) || (self.turn == Player::White && to.1 >= 7);
        if out.pawn && (last || self.double_pawn_file(target, to.0, self.turn)) {
            out.pawn = false;
        }
        if out.lance && last {
            out.lance = false;
        }
        if out.knight && last_two {
            out.knight = false;
        }
        out
    }
}

} // verus!
