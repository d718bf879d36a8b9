use vstd::prelude::*;
use crate::piece::{CandidateSet, Piece, PieceType, Player};
use crate::snapshot::{hands_non_empty, lemma_collapsed_hands, cell, collapse_exec, collapsed, lemma_board_view, on_board, view_wf, SnapView, Snapshot};

verus! {

/// Whether hands belong to each world-line or are reconciled across all of them.
#[derive(Clone, Copy, Debug, PartialEq, Eq, Structural)]
pub enum HandMode {
    PerWorld,
    Global,
}

/// Reserved for finer check detection; no rule reads it.
#[derive(Clone, Copy, Debug, PartialEq, Eq, Structural)]
pub enum CheckAttackMode {
    Possible,
    Certain,
}

/// Game configuration; the engine reads it and never changes it.
#[derive(Clone, Copy, Debug, PartialEq, Eq, Structural)]
pub struct Settings {
    pub max_worlds: usize,
    pub max_time_jump: i32,
    pub hand_mode: HandMode,
    pub check_attack_mode: CheckAttackMode,
    pub past_only: bool,
}

impl Default for Settings {
    fn default() -> (r: Settings)
        ensures
            r.max_worlds == 7,
            r.max_time_jump == 5,
            r.hand_mode == HandMode::PerWorld,
            r.check_attack_mode == CheckAttackMode::Possible,
            r.past_only,
    {
        Settings {
            max_worlds: 7,
            max_time_jump: 5,
            hand_mode: HandMode::PerWorld,
            check_attack_mode: CheckAttackMode::Possible,
            past_only: true,
        }
    }
}

/// What a staged move does on its own board.
#[derive(Clone, Copy, Debug)]
pub enum MoveKind {
    Move { from: (usize, usize), to: (usize, usize), promote: bool },
    Drop { piece_index: usize, to: (usize, usize) },
}

/// A move staged for one world-line, with its world and time displacement.
#[derive(Clone, Copy, Debug)]
pub struct PlannedMove {
    pub kind: MoveKind,
    pub delta_w: i32,
    pub delta_t: i32,
}

/// One world-line: its history of snapshots, newest last.
pub struct WorldLine {
    pub w: i32,
    pub history: Vec<Snapshot>,
    pub staged: Option<PlannedMove>,
    pub lost: bool,
}

/// The whole game: settings, world-lines in ascending world order, the side
/// to move, the world shown to the user, the last outcome message, and the
/// next piece id to hand out.
pub struct Game {
    pub settings: Settings,
    pub worlds: Vec<WorldLine>,
    pub turn: Player,
    pub selected_world: i32,
    pub message: String,
    pub next_id: u64,
}

/// The mathematical value of a world-line.
pub struct WorldView {
    pub w: i32,
    pub history: Seq<SnapView>,
    pub staged: Option<PlannedMove>,
    pub lost: bool,
}

impl View for WorldLine {
    type V = WorldView;

    open spec fn view(&self) -> WorldView {
        WorldView {
            w: self.w,
            history: self.history@.map_values(|s: Snapshot| s@),
            staged: self.staged,
            lost: self.lost,
        }
    }
}

/// Every snapshot is well formed and the history is not empty.
pub open spec fn world_wf(wv: WorldView) -> bool {
    &&& wv.history.len() >= 1
    &&& forall|t: int| 0 <= t < wv.history.len() ==> view_wf(#[trigger] wv.history[t])
}

pub open spec fn present_of(wv: WorldView) -> SnapView {
    wv.history.last()
}

/// Well-formed world-lines, in strictly ascending world order.
pub open spec fn worlds_wf(ws: Seq<WorldView>) -> bool {
    &&& forall|i: int| 0 <= i < ws.len() ==> world_wf(#[trigger] ws[i])
    &&& forall|i: int, j: int| 0 <= i < j < ws.len() ==> (#[trigger] ws[i]).w < (#[trigger] ws[j]).w
}

/// The index of world `w`, if there is one.
pub open spec fn has_world(ws: Seq<WorldView>, w: int) -> bool {
    exists|i: int| 0 <= i < ws.len() && (#[trigger] ws[i]).w == w
}

pub open spec fn initial_cell(start: int, x: int, y: int) -> Option<Piece> {
    if y < 3 {
        Some(
            Piece {
                id: (start + 9 * y + x) as u64,
                owner: Player::White,
                candidates: CandidateSet::spec_all(),
                promoted: false,
            },
        )
    } else if y >= 6 {
        Some(
            Piece {
                id: (start + 27 + 9 * (y - 6) + x) as u64,
                owner: Player::Black,
                candidates: CandidateSet::spec_all(),
                promoted: false,
            },
        )
    } else {
        None
    }
}

/// The starting layout: three full ranks per side, every piece in full
/// superposition, ids counted from `start` in reading order, empty hands.
pub open spec fn initial_view(start: int) -> SnapView {
    SnapView {
        board: Seq::new(9, |y: int| Seq::new(9, |x: int| initial_cell(start, x, y))),
        black: Seq::empty(),
        white: Seq::empty(),
    }
}

impl Game {
    pub open spec fn worlds_view(&self) -> Seq<WorldView> {
        self.worlds@.map_values(|wl: WorldLine| wl@)
    }

    pub open spec fn wf(&self) -> bool {
        worlds_wf(self.worlds_view())
    }

    pub fn new(settings: Settings) -> (g: Game)
        ensures
            g.wf(),
            g.settings == settings,
            g.turn == Player::Black,
            g.selected_world == 0,
            g.worlds@.len() == 1,
            g.worlds_view()[0] == (WorldView {
                w: 0,
                history: seq![initial_view(1)],
                staged: None,
                lost: false,
            }),
            g.next_id == 55,
    {
        let mut g = Game {
            settings,
            worlds: Vec::new(),
            turn: Player::Black,
            selected_world: 0,
            message: String::new(),
            next_id: 1,
        };
        let snapshot = g.initial_snapshot();
        let mut history: Vec<Snapshot> = Vec::new();
        history.push(snapshot);
        g.worlds.push(WorldLine { w: 0, history, staged: None, lost: false });
        assert(g.worlds_view()[0].history =~= seq![initial_view(1)]);
        g
    }

    fn initial_snapshot(&mut self) -> (r: Snapshot)
        requires
            old(self).next_id + 54 <= u64::MAX,
        ensures
            r@ == initial_view(old(self).next_id as int),
            r.wf(),
            final(self).next_id == old(self).next_id + 54,
            final(self).settings == old(self).settings,
            final(self).worlds == old(self).worlds,
            final(self).turn == old(self).turn,
            final(self).selected_world == old(self).selected_world,
            final(self).message == old(self).message,
    {
        let ghost start = self.next_id as int;
        let mut board: Vec<Vec<Option<Piece>>> = Vec::new();
        let mut y: usize = 0;
        while y < 9
            invariant
                y <= 9,
                start + 54 <= u64::MAX,
                self.next_id == start + 9 * (if y < 3 { y as int } else if y < 6 { 3 } else { y - 3 }),
                board@.len() == y,
                forall|j: int, i: int| 0 <= j < y && 0 <= i < 9 ==> (#[trigger] board@[j]@[i]) == initial_cell(start, i, j),
                forall|j: int| 0 <= j < y ==> (#[trigger] board@[j])@.len() == 9,
                self.settings == old(self).settings,
                self.worlds == old(self).worlds,
                self.turn == old(self).turn,
                self.selected_world == old(self).selected_world,
                self.message == old(self).message,
            decreases 9 - y,
        {
            let mut row: Vec<Option<Piece>> = Vec::new();
            let mut x: usize = 0;
            while x < 9
                invariant
                    y < 9,
                    x <= 9,
                    start + 54 <= u64::MAX,
                    self.next_id == start + 9 * (if y < 3 { y as int } else if y < 6 { 3 } else { y - 3 })
                        + (if y < 3 || y >= 6 { x as int } else { 0 }),
                    row@.len() == x,
                    forall|i: int| 0 <= i < x ==> (#[trigger] row@[i]) == initial_cell(start, i, y as int),
                    self.settings == old(self).settings,
                    self.worlds == old(self).worlds,
                    self.turn == old(self).turn,
                    self.selected_world == old(self).selected_world,
                    self.message == old(self).message,
                decreases 9 - x,
            {
                if y < 3 {
                    let id = self.alloc_id();
                    row.push(Some(Piece::new(id, Player::White)));
                } else if y >= 6 {
                    let id = self.alloc_id();
                    row.push(Some(Piece::new(id, Player::Black)));
                } else {
                    row.push(None);
                }
                x = x + 1;
            }
            board.push(row);
            y = y + 1;
        }
        let r = Snapshot { board, black_hand: Vec::new(), white_hand: Vec::new() };
        assert(r@.board =~= initial_view(start).board) by {
            assert forall|j: int| 0 <= j < 9 implies r@.board[j] =~= initial_view(start).board[j] by {
                assert(r@.board[j] == board@[j]@);
            }
        }
        assert(r@.black =~= initial_view(start).black);
        assert(r@.white =~= initial_view(start).white);
        assert forall|j: int, i: int| on_board(i, j) && (#[trigger] r@.board[j][i]) is Some implies !r@.board[j][i]->0.candidates.is_empty_set() by {
            assert(r@.board[j][i]->0.candidates.has(PieceType::King));
        }
        r
    }

    fn alloc_id(&mut self) -> (id: u64)
        requires
            old(self).next_id < u64::MAX,
        ensures
            id == old(self).next_id,
            final(self).next_id == old(self).next_id + 1,
            final(self).settings == old(self).settings,
            final(self).worlds == old(self).worlds,
            final(self).turn == old(self).turn,
            final(self).selected_world == old(self).selected_world,
            final(self).message == old(self).message,
    {
        let id = self.next_id;
        self.next_id = self.next_id + 1;
        id
    }
}

/// (x, y) holds a piece of `pl` that may be the king.
pub open spec fn king_at(v: SnapView, pl: Player, x: int, y: int) -> bool {
    cell(v, x, y) is Some && cell(v, x, y)->0.owner == pl && cell(v, x, y)->0.candidates.has(PieceType::King)
}

/// King squares (i, y) of row `y` with i < x, left to right.
pub open spec fn row_kings(v: SnapView, pl: Player, y: int, x: int) -> Seq<(usize, usize)>
    decreases x,
{
    if x <= 0 {
        Seq::empty()
    } else {
        row_kings(v, pl, y, x - 1) + if king_at(v, pl, x - 1, y) {
            seq![((x - 1) as usize, y as usize)]
        } else {
            Seq::empty()
        }
    }
}

/// King squares of the rows above `y`, in reading order.
pub open spec fn board_kings(v: SnapView, pl: Player, y: int) -> Seq<(usize, usize)>
    decreases y,
{
    if y <= 0 {
        Seq::empty()
    } else {
        board_kings(v, pl, y - 1) + row_kings(v, pl, y - 1, 9)
    }
}

/// Some square holds a piece of `pl` that may be the king.
pub open spec fn has_king(v: SnapView, pl: Player) -> bool {
    exists|x: int, y: int| on_board(x, y) && #[trigger] king_at(v, pl, x, y)
}

pub open spec fn with_staged(wv: WorldView, m: Option<PlannedMove>) -> WorldView {
    WorldView { staged: m, ..wv }
}

impl Game {
    /// Position of world `w` in `worlds`.
    pub fn find_world(&self, w: i32) -> (r: Option<usize>)
        ensures
            r is Some ==> r->0 < self.worlds@.len() && self.worlds@[r->0 as int].w == w,
            r is None ==> !has_world(self.worlds_view(), w as int),
    {
        let mut i: usize = 0;
        while i < self.worlds.len()
            invariant
                i <= self.worlds@.len(),
                forall|j: int| 0 <= j < i ==> (#[trigger] self.worlds@[j]).w != w,
            decreases self.worlds@.len() - i,
        {
            if self.worlds[i].w == w {
                return Some(i);
            }
            i = i + 1;
        }
        assert(!has_world(self.worlds_view(), w as int)) by {
            if has_world(self.worlds_view(), w as int) {
                let j = choose|j: int| 0 <= j < self.worlds_view().len() && (#[trigger] self.worlds_view()[j]).w == w;
                assert(self.worlds@[j].w == self.worlds_view()[j].w);
            }
        }
        None
    }

    /// The latest snapshot of world `w`, if that world exists.
    pub fn present(&self, w: i32) -> (r: Option<&Snapshot>)
        requires
            self.wf(),
        ensures
            r is Some <==> has_world(self.worlds_view(), w as int),
            r is Some ==> exists|i: int|
                0 <= i < self.worlds@.len() && (#[trigger] self.worlds_view()[i]).w == w && r->0@ == present_of(
                    self.worlds_view()[i],
                ),
    {
        match self.find_world(w) {
            Some(i) => {
                let h = &self.worlds[i].history;
                assert(world_wf(self.worlds_view()[i as int]));
                assert(self.worlds_view()[i as int].history.len() == h@.len());
                let last = h.len() - 1;
                assert(self.worlds_view()[i as int].history.last() == h@[last as int]@);
                Some(&h[last])
            },
            None => None,
        }
    }

    /// Records a pending move for world `w`; nothing happens if there is no such world.
    pub fn stage_move(&mut self, w: i32, mv: PlannedMove)
        ensures
            has_world(old(self).worlds_view(), w as int) ==> exists|i: int|
                0 <= i < old(self).worlds@.len() && (#[trigger] old(self).worlds_view()[i]).w == w
                    && final(self).worlds_view() == old(self).worlds_view().update(
                    i,
                    with_staged(old(self).worlds_view()[i], Some(mv)),
                ),
            !has_world(old(self).worlds_view(), w as int) ==> final(self).worlds_view() == old(
                self,
            ).worlds_view(),
            old(self).wf() ==> final(self).wf(),
            final(self).turn == old(self).turn,
            final(self).settings == old(self).settings,
            final(self).message == old(self).message,
            final(self).next_id == old(self).next_id,
            final(self).selected_world == old(self).selected_world,
    {
        if let Some(i) = self.find_world(w) {
            let ghost ws = self.worlds_view();
            self.worlds[i].staged = Some(mv);
            assert(self.worlds_view() =~= ws.update(i as int, with_staged(ws[i as int], Some(mv))));
            proof {
                let nws = self.worlds_view();
                if worlds_wf(ws) {
                    assert forall|j: int| 0 <= j < nws.len() implies world_wf(#[trigger] nws[j]) by {
                        assert(world_wf(ws[j]));
                    }
                    assert forall|a: int, b: int| 0 <= a < b < nws.len() implies (#[trigger] nws[a]).w < (#[trigger] nws[b]).w by {
                        assert(ws[a].w < ws[b].w);
                    }
                }
            }
        }
    }

    /// Clears every pending move.
    pub fn clear_staged(&mut self)
        ensures
            final(self).worlds@.len() == old(self).worlds@.len(),
            forall|i: int|
                0 <= i < old(self).worlds@.len() ==> (#[trigger] final(self).worlds_view()[i]) == with_staged(
                    old(self).worlds_view()[i],
                    None,
                ),
            old(self).wf() ==> final(self).wf(),
            final(self).turn == old(self).turn,
            final(self).settings == old(self).settings,
            final(self).message == old(self).message,
            final(self).next_id == old(self).next_id,
            final(self).selected_world == old(self).selected_world,
    {
        let ghost ws = self.worlds_view();
        let mut i: usize = 0;
        while i < self.worlds.len()
            invariant
                i <= self.worlds@.len(),
                self.worlds@.len() == ws.len(),
                forall|j: int| 0 <= j < i ==> (#[trigger] self.worlds_view()[j]) == with_staged(ws[j], None),
                forall|j: int| i <= j < ws.len() ==> (#[trigger] self.worlds_view()[j]) == ws[j],
                self.turn == old(self).turn,
                self.settings == old(self).settings,
                self.message == old(self).message,
                self.next_id == old(self).next_id,
                self.selected_world == old(self).selected_world,
            decreases ws.len() - i,
        {
            let ghost cur = self.worlds_view();
            self.worlds[i].staged = None;
            assert(self.worlds_view() =~= cur.update(i as int, with_staged(cur[i as int], None)));
            i = i + 1;
        }
        proof {
            let nws = self.worlds_view();
            if worlds_wf(ws) {
                assert forall|j: int| 0 <= j < nws.len() implies world_wf(#[trigger] nws[j]) by {
                    assert(world_wf(ws[j]));
                }
                assert forall|a: int, b: int| 0 <= a < b < nws.len() implies (#[trigger] nws[a]).w < (#[trigger] nws[b]).w by {
                    assert(ws[a].w < ws[b].w);
                }
            }
        }
    }

    /// Every square where `pl` owns a piece that may be the king, in reading order.
    pub fn king_candidates(s: &Snapshot, pl: Player) -> (r: Vec<(usize, usize)>)
        requires
            s.wf(),
        ensures
            forall|k: int|
                0 <= k < r@.len() ==> on_board((#[trigger] r@[k]).0 as int, r@[k].1 as int) && king_at(
                    s@,
                    pl,
                    r@[k].0 as int,
                    r@[k].1 as int,
                ),
            forall|x: int, y: int|
                on_board(x, y) && #[trigger] king_at(s@, pl, x, y) ==> r@.contains((x as usize, y as usize)),
            r@.len() == 0 <==> !has_king(s@, pl),
            r@ == board_kings(s@, pl, 9),
    {
        proof { lemma_board_view(s); }
        let mut out: Vec<(usize, usize)> = Vec::new();
        let mut y: usize = 0;
        while y < 9
            invariant
                s.wf(),
                y <= 9,
                out@ == board_kings(s@, pl, y as int),
                forall|k: int|
                    0 <= k < out@.len() ==> on_board((#[trigger] out@[k]).0 as int, out@[k].1 as int) && king_at(
                        s@,
                        pl,
                        out@[k].0 as int,
                        out@[k].1 as int,
                    ),
                forall|x: int, j: int|
                    on_board(x, j) && j < y && #[trigger] king_at(s@, pl, x, j) ==> out@.contains((x as usize, j as usize)),
            decreases 9 - y,
        {
            let mut x: usize = 0;
            while x < 9
                invariant
                    s.wf(),
                    y < 9,
                    x <= 9,
                    out@ == board_kings(s@, pl, y as int) + row_kings(s@, pl, y as int, x as int),
                    forall|k: int|
                        0 <= k < out@.len() ==> on_board((#[trigger] out@[k]).0 as int, out@[k].1 as int) && king_at(
                            s@,
                            pl,
                            out@[k].0 as int,
                            out@[k].1 as int,
                        ),
                    forall|i: int, j: int|
                        on_board(i, j) && (j < y || (j == y && i < x)) && #[trigger] king_at(s@, pl, i, j)
                            ==> out@.contains((i as usize, j as usize)),
                decreases 9 - x,
            {
                proof { lemma_board_view(s); }
                assert(s@.board[y as int].len() == 9);
                if let Some(p) = &s.board[y][x] {
                    if p.owner == pl && p.candidates.contains(PieceType::King) {
                        let ghost before = out@;
                        out.push((x, y));
                        assert(out@[before.len() as int] == (x, y));
                        assert forall|i: int, j: int|
                            on_board(i, j) && (j < y || (j == y && i < x + 1)) && #[trigger] king_at(s@, pl, i, j)
                                implies out@.contains((i as usize, j as usize)) by {
                            if i == x && j == y {
                                assert(out@[before.len() as int] == (i as usize, j as usize));
                            } else {
                                assert(before.contains((i as usize, j as usize)));
                                let k = choose|k: int| 0 <= k < before.len() && before[k] == (i as usize, j as usize);
                                assert(out@[k] == before[k]);
                            }
                        }
                    }
                }
                assert(out@ =~= board_kings(s@, pl, y as int) + row_kings(s@, pl, y as int, x as int + 1));
                x = x + 1;
            }
            assert(out@ =~= board_kings(s@, pl, y as int + 1));
            y = y + 1;
        }
        proof {
            if out@.len() == 0 {
                assert(!has_king(s@, pl)) by {
                    if has_king(s@, pl) {
                        let (x, j) = choose|x: int, j: int| on_board(x, j) && #[trigger] king_at(s@, pl, x, j);
                        assert(out@.contains((x as usize, j as usize)));
                    }
                }
            } else {
                assert(king_at(s@, pl, out@[0].0 as int, out@[0].1 as int));
            }
        }
        out
    }

    /// Forces pieces to single types by count until nothing changes.
    pub fn collapse_by_count(s: &mut Snapshot)
        requires
            old(s).wf(),
        ensures
            final(s)@ == collapsed(old(s)@),
            final(s).wf(),
            hands_non_empty(old(s)@) ==> hands_non_empty(final(s)@),
    {
        collapse_exec(s);
        proof {
            if hands_non_empty(old(s)@) {
                lemma_collapsed_hands(old(s)@);
            }
        }
    }
}

} // verus!
