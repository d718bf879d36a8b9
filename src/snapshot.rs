use vstd::prelude::*;
use crate::piece::{lemma_has_each, CandidateSet, Piece, PieceType, Player};
use crate::sums::{lemma_sum_map_shrinks, lemma_sum_take_all, lemma_sum_take_next, seq_sum};

verus! {

/// One complete game state at one (world, time) coordinate: the board,
/// indexed `board[y][x]`, and each player's hand.
pub struct Snapshot {
    pub board: Vec<Vec<Option<Piece>>>,
    pub black_hand: Vec<Piece>,
    pub white_hand: Vec<Piece>,
}

/// The mathematical value of a snapshot.
pub struct SnapView {
    pub board: Seq<Seq<Option<Piece>>>,
    pub black: Seq<Piece>,
    pub white: Seq<Piece>,
}

impl View for Snapshot {
    type V = SnapView;

    open spec fn view(&self) -> SnapView {
        SnapView {
            board: self.board@.map_values(|r: Vec<Option<Piece>>| r@),
            black: self.black_hand@,
            white: self.white_hand@,
        }
    }
}

pub open spec fn hand_of(v: SnapView, pl: Player) -> Seq<Piece> {
    match pl {
        Player::Black => v.black,
        Player::White => v.white,
    }
}

pub open spec fn on_board(x: int, y: int) -> bool {
    0 <= x < 9 && 0 <= y < 9
}

pub open spec fn cell(v: SnapView, x: int, y: int) -> Option<Piece> {
    v.board[y][x]
}

/// The board is 9 by 9 and every piece on it may still be some type.
pub open spec fn view_wf(v: SnapView) -> bool {
    &&& v.board.len() == 9
    &&& forall|y: int| 0 <= y < 9 ==> (#[trigger] v.board[y]).len() == 9
    &&& forall|y: int, x: int|
        on_board(x, y) && (#[trigger] v.board[y][x]) is Some ==> !v.board[y][x]->0.candidates.is_empty_set()
}

impl Snapshot {
    pub open spec fn wf(&self) -> bool {
        view_wf(self@)
    }
}

/// How many pieces of each type a side owns.
pub open spec fn limit(pt: PieceType) -> nat {
    match pt {
        PieceType::King => 1,
        PieceType::Rook => 1,
        PieceType::Bishop => 1,
        PieceType::Gold => 2,
        PieceType::Silver => 2,
        PieceType::Knight => 2,
        PieceType::Lance => 2,
        PieceType::Pawn => 9,
    }
}

pub open spec fn board_holds(c: Option<Piece>, pl: Player, pt: PieceType) -> bool {
    c is Some && c->0.owner == pl && c->0.candidates.has(pt)
}

pub open spec fn cell_weight(c: Option<Piece>, pl: Player, pt: PieceType) -> nat {
    if board_holds(c, pl, pt) { 1 } else { 0 }
}

pub open spec fn hand_weight(p: Piece, pt: PieceType) -> nat {
    if p.candidates.has(pt) { 1 } else { 0 }
}

pub open spec fn row_holders(row: Seq<Option<Piece>>, pl: Player, pt: PieceType) -> nat {
    seq_sum(row, |c: Option<Piece>| cell_weight(c, pl, pt))
}

pub open spec fn board_holders(b: Seq<Seq<Option<Piece>>>, pl: Player, pt: PieceType) -> nat {
    seq_sum(b, |row: Seq<Option<Piece>>| row_holders(row, pl, pt))
}

pub open spec fn hand_holders(h: Seq<Piece>, pt: PieceType) -> nat {
    seq_sum(h, |p: Piece| hand_weight(p, pt))
}

/// Number of `pl`'s pieces, on the board or in `pl`'s hand, that may be `pt`.
pub open spec fn holders(v: SnapView, pl: Player, pt: PieceType) -> nat {
    board_holders(v.board, pl, pt) + hand_holders(hand_of(v, pl), pt)
}

pub open spec fn force_piece(p: Piece, pt: PieceType) -> Piece {
    Piece { candidates: CandidateSet::spec_single(pt), ..p }
}

pub open spec fn force_cell(c: Option<Piece>, pl: Player, pt: PieceType) -> Option<Piece> {
    if board_holds(c, pl, pt) { Some(force_piece(c->0, pt)) } else { c }
}

pub open spec fn force_hand_piece(p: Piece, pt: PieceType) -> Piece {
    if p.candidates.has(pt) { force_piece(p, pt) } else { p }
}

pub open spec fn force_row(row: Seq<Option<Piece>>, pl: Player, pt: PieceType) -> Seq<Option<Piece>> {
    row.map_values(|c: Option<Piece>| force_cell(c, pl, pt))
}

pub open spec fn force_board(b: Seq<Seq<Option<Piece>>>, pl: Player, pt: PieceType) -> Seq<Seq<Option<Piece>>> {
    b.map_values(|row: Seq<Option<Piece>>| force_row(row, pl, pt))
}

pub open spec fn force_hand(h: Seq<Piece>, pt: PieceType) -> Seq<Piece> {
    h.map_values(|p: Piece| force_hand_piece(p, pt))
}

/// Every piece of `pl` that may be `pt` becomes exactly `pt`.
pub open spec fn force_all(v: SnapView, pl: Player, pt: PieceType) -> SnapView {
    SnapView {
        board: force_board(v.board, pl, pt),
        black: if pl == Player::Black { force_hand(v.black, pt) } else { v.black },
        white: if pl == Player::White { force_hand(v.white, pt) } else { v.white },
    }
}

/// One collapse step: when exactly as many of `pl`'s pieces may be `pt` as
/// a side owns of that type, each of them is that type.
pub open spec fn collapse_step(v: SnapView, pl: Player, pt: PieceType) -> SnapView {
    if holders(v, pl, pt) == limit(pt) {
        force_all(v, pl, pt)
    } else {
        v
    }
}

pub open spec fn pass_player(k: nat) -> Player {
    if k < 8 { Player::Black } else { Player::White }
}

pub open spec fn pass_type(k: nat) -> PieceType {
    let i = k % 8;
    if i == 0 { PieceType::King }
    else if i == 1 { PieceType::Rook }
    else if i == 2 { PieceType::Bishop }
    else if i == 3 { PieceType::Gold }
    else if i == 4 { PieceType::Silver }
    else if i == 5 { PieceType::Knight }
    else if i == 6 { PieceType::Lance }
    else { PieceType::Pawn }
}

/// The first `k` steps of a pass over both players and all eight types.
pub open spec fn pass_prefix(v: SnapView, k: nat) -> SnapView
    decreases k,
{
    if k == 0 {
        v
    } else {
        collapse_step(pass_prefix(v, (k - 1) as nat), pass_player((k - 1) as nat), pass_type((k - 1) as nat))
    }
}

pub open spec fn collapse_pass(v: SnapView) -> SnapView {
    pass_prefix(v, 16)
}

pub open spec fn cell_spread(c: Option<Piece>) -> nat {
    if c is Some && c->0.candidates.count() >= 2 { 1 } else { 0 }
}

pub open spec fn piece_spread(p: Piece) -> nat {
    if p.candidates.count() >= 2 { 1 } else { 0 }
}

pub open spec fn row_spread(row: Seq<Option<Piece>>) -> nat {
    seq_sum(row, |c: Option<Piece>| cell_spread(c))
}

/// Number of pieces not yet collapsed to a single type.
pub open spec fn spread(v: SnapView) -> nat {
    seq_sum(v.board, |row: Seq<Option<Piece>>| row_spread(row))
        + seq_sum(v.black, |p: Piece| piece_spread(p))
        + seq_sum(v.white, |p: Piece| piece_spread(p))
}

/// Collapse passes repeated until a pass changes nothing.
pub open spec fn collapsed(v: SnapView) -> SnapView
    decreases spread(v),
    via collapsed_decreases
{
    if collapse_pass(v) == v {
        v
    } else {
        collapsed(collapse_pass(v))
    }
}

#[via_fn]
proof fn collapsed_decreases(v: SnapView) {
    lemma_pass_shrinks(v);
}

proof fn lemma_single_count(t: PieceType)
    ensures
        CandidateSet::spec_single(t).count() == 1,
        CandidateSet::spec_single(t).is_only(t),
{
    lemma_has_each(CandidateSet::spec_single(t));
}

proof fn lemma_force_piece_shrinks(p: Piece, pt: PieceType)
    requires
        p.candidates.has(pt),
    ensures
        force_piece(p, pt) == p || (p.candidates.count() >= 2 && force_piece(p, pt).candidates.count() == 1),
{
    lemma_single_count(pt);
    lemma_has_each(p.candidates);
    if p.candidates.count() < 2 {
        assert(p.candidates == CandidateSet::spec_single(pt));
    }
}

proof fn lemma_step_shrinks(v: SnapView, pl: Player, pt: PieceType)
    ensures
        spread(collapse_step(v, pl, pt)) <= spread(v),
        collapse_step(v, pl, pt) != v ==> spread(collapse_step(v, pl, pt)) < spread(v),
{
    if holders(v, pl, pt) == limit(pt) {
        let cf = |c: Option<Piece>| force_cell(c, pl, pt);
        let cw = |c: Option<Piece>| cell_spread(c);
        let rf = |row: Seq<Option<Piece>>| force_row(row, pl, pt);
        let rw = |row: Seq<Option<Piece>>| row_spread(row);
        let hf = |p: Piece| force_hand_piece(p, pt);
        let hw = |p: Piece| piece_spread(p);
        assert forall|c: Option<Piece>| #[trigger] cf(c) == c || cw(cf(c)) < cw(c) by {
            if board_holds(c, pl, pt) {
                lemma_force_piece_shrinks(c->0, pt);
            }
        }
        assert forall|row: Seq<Option<Piece>>| #[trigger] rf(row) == row || rw(rf(row)) < rw(row) by {
            lemma_sum_map_shrinks(row, cf, cw);
            assert(rf(row) == row.map_values(cf));
        }
        assert forall|p: Piece| #[trigger] hf(p) == p || hw(hf(p)) < hw(p) by {
            if p.candidates.has(pt) {
                lemma_force_piece_shrinks(p, pt);
            }
        }
        lemma_sum_map_shrinks(v.board, rf, rw);
        lemma_sum_map_shrinks(v.black, hf, hw);
        lemma_sum_map_shrinks(v.white, hf, hw);
        let w = force_all(v, pl, pt);
        assert(w.board == v.board.map_values(rf));
        if pl == Player::Black {
            assert(w.black == v.black.map_values(hf));
        } else {
            assert(w.white == v.white.map_values(hf));
        }
    }
}

proof fn lemma_prefix_shrinks(v: SnapView, k: nat)
    ensures
        spread(pass_prefix(v, k)) <= spread(v),
        pass_prefix(v, k) != v ==> spread(pass_prefix(v, k)) < spread(v),
    decreases k,
{
    if k > 0 {
        let k1 = (k - 1) as nat;
        lemma_prefix_shrinks(v, k1);
        lemma_step_shrinks(pass_prefix(v, k1), pass_player(k1), pass_type(k1));
    }
}

proof fn lemma_pass_shrinks(v: SnapView)
    ensures
        collapse_pass(v) != v ==> spread(collapse_pass(v)) < spread(v),
{
    lemma_prefix_shrinks(v, 16);
}

/// What `collapsed` returns is left unchanged by a further pass.
pub proof fn lemma_collapsed_stable(v: SnapView)
    ensures
        collapse_pass(collapsed(v)) == collapsed(v),
    decreases spread(v),
{
    if collapse_pass(v) != v {
        lemma_pass_shrinks(v);
        lemma_collapsed_stable(collapse_pass(v));
    }
}

/// Collapsing twice gives the same snapshot as collapsing once.
pub proof fn lemma_collapse_idempotent(v: SnapView)
    ensures
        collapsed(collapsed(v)) == collapsed(v),
{
    lemma_collapsed_stable(v);
}

/// A copy of `v`, element by element.
pub fn copy_vec<T: Copy>(v: &Vec<T>) -> (r: Vec<T>)
    ensures
        r@ == v@,
{
    let mut r: Vec<T> = Vec::new();
    let mut i: usize = 0;
    while i < v.len()
        invariant
            i <= v@.len(),
            r@ == v@.take(i as int),
        decreases v@.len() - i,
    {
        r.push(v[i]);
        i = i + 1;
        assert(r@ =~= v@.take(i as int));
    }
    assert(v@.take(i as int) =~= v@);
    r
}

impl Snapshot {
    /// A snapshot with the same board and hands.
    pub fn duplicate(&self) -> (r: Snapshot)
        ensures
            r@ == self@,
    {
        let mut board: Vec<Vec<Option<Piece>>> = Vec::new();
        let mut y: usize = 0;
        while y < self.board.len()
            invariant
                y <= self.board@.len(),
                board@.len() == y,
                forall|j: int| 0 <= j < y ==> (#[trigger] board@[j])@ == self.board@[j]@,
            decreases self.board@.len() - y,
        {
            board.push(copy_vec(&self.board[y]));
            y = y + 1;
        }
        let r = Snapshot {
            board,
            black_hand: copy_vec(&self.black_hand),
            white_hand: copy_vec(&self.white_hand),
        };
        assert(r@.board =~= self@.board);
        r
    }

    /// The hand of `pl`.
    pub fn hand(&self, pl: Player) -> (r: &Vec<Piece>)
        ensures
            r@ == hand_of(self@, pl),
    {
        match pl {
            Player::Black => &self.black_hand,
            Player::White => &self.white_hand,
        }
    }
}

/// The view's board rows are the rows' views.
pub proof fn lemma_board_view(s: &Snapshot)
    ensures
        s@.board.len() == s.board@.len(),
        forall|j: int| 0 <= j < s.board@.len() ==> #[trigger] s@.board[j] == s.board@[j]@,
{
}

fn limit_of(pt: PieceType) -> (r: usize)
    ensures
        r as nat == limit(pt),
{
    match pt {
        PieceType::King => 1,
        PieceType::Rook => 1,
        PieceType::Bishop => 1,
        PieceType::Gold => 2,
        PieceType::Silver => 2,
        PieceType::Knight => 2,
        PieceType::Lance => 2,
        PieceType::Pawn => 9,
    }
}

fn count_board_holders(s: &Snapshot, pl: Player, pt: PieceType) -> (n: usize)
    requires
        s.wf(),
    ensures
        n as nat == board_holders(s@.board, pl, pt),
{
    let ghost b = s@.board;
    let mut n: usize = 0;
    let mut y: usize = 0;
    while y < 9
        invariant
            s.wf(),
            b == s@.board,
            y <= 9,
            n <= 9 * y,
            n as nat == seq_sum(b.take(y as int), |row: Seq<Option<Piece>>| row_holders(row, pl, pt)),
        decreases 9 - y,
    {
        let ghost before = n as nat;
        let mut x: usize = 0;
        while x < 9
            invariant
                s.wf(),
                b == s@.board,
                y < 9,
                x <= 9,
                n <= 9 * y + x,
                n as nat == before + seq_sum(b[y as int].take(x as int), |c: Option<Piece>| cell_weight(c, pl, pt)),
            decreases 9 - x,
        {
            proof { lemma_sum_take_next(b[y as int], |c: Option<Piece>| cell_weight(c, pl, pt), x as int); }
            assert(s.board@[y as int]@[x as int] == b[y as int][x as int]);
            if let Some(p) = s.board[y][x] {
                if p.owner == pl && p.candidates.contains(pt) {
                    n = n + 1;
                }
            }
            x = x + 1;
        }
        proof {
            lemma_sum_take_all(b[y as int], |c: Option<Piece>| cell_weight(c, pl, pt));
            lemma_sum_take_next(b, |row: Seq<Option<Piece>>| row_holders(row, pl, pt), y as int);
        }
        y = y + 1;
    }
    proof { lemma_sum_take_all(b, |row: Seq<Option<Piece>>| row_holders(row, pl, pt)); }
    n
}

pub(crate) fn count_hand_holders(h: &Vec<Piece>, pt: PieceType) -> (n: usize)
    ensures
        n as nat == hand_holders(h@, pt),
{
    let mut n: usize = 0;
    let mut i: usize = 0;
    while i < h.len()
        invariant
            i <= h@.len(),
            n <= i,
            n as nat == seq_sum(h@.take(i as int), |p: Piece| hand_weight(p, pt)),
        decreases h@.len() - i,
    {
        proof { lemma_sum_take_next(h@, |p: Piece| hand_weight(p, pt), i as int); }
        if h[i].candidates.contains(pt) {
            n = n + 1;
        }
        i = i + 1;
    }
    proof { lemma_sum_take_all(h@, |p: Piece| hand_weight(p, pt)); }
    n
}

fn force_hand_exec(h: &mut Vec<Piece>, pt: PieceType)
    ensures
        final(h)@ == force_hand(old(h)@, pt),
{
    let ghost h0 = h@;
    let mut i: usize = 0;
    while i < h.len()
        invariant
            i <= h@.len(),
            h@.len() == h0.len(),
            forall|j: int| 0 <= j < i ==> h@[j] == force_hand_piece(h0[j], pt),
            forall|j: int| i <= j < h0.len() ==> h@[j] == h0[j],
        decreases h@.len() - i,
    {
        let p = h[i];
        if p.candidates.contains(pt) {
            h.set(i, Piece { candidates: CandidateSet::single(pt), ..p });
        }
        i = i + 1;
    }
    assert(h@ =~= force_hand(h0, pt));
}

fn force_all_exec(s: &mut Snapshot, pl: Player, pt: PieceType)
    requires
        old(s).wf(),
    ensures
        final(s)@ == force_all(old(s)@, pl, pt),
        final(s).wf(),
{
    let ghost v0 = s@;
    let mut y: usize = 0;
    while y < 9
        invariant
            y <= 9,
            view_wf(s@),
            view_wf(v0),
            forall|j: int, i: int|
                on_board(i, j) && (#[trigger] s@.board[j][i]) is Some ==> !s@.board[j][i]->0.candidates.is_empty_set(),
            forall|j: int| 0 <= j < y ==> (#[trigger] s@.board[j]) == force_row(v0.board[j], pl, pt),
            forall|j: int| y <= j < 9 ==> (#[trigger] s@.board[j]) == v0.board[j],
            s@.black == v0.black,
            s@.white == v0.white,
        decreases 9 - y,
    {
        let mut x: usize = 0;
        while x < 9
            invariant
                y < 9,
                x <= 9,
                view_wf(s@),
                view_wf(v0),
                forall|j: int, i: int|
                    on_board(i, j) && (#[trigger] s@.board[j][i]) is Some ==> !s@.board[j][i]->0.candidates.is_empty_set(),
                forall|j: int| 0 <= j < y ==> (#[trigger] s@.board[j]) == force_row(v0.board[j], pl, pt),
                forall|j: int| y < j < 9 ==> (#[trigger] s@.board[j]) == v0.board[j],
                forall|i: int| 0 <= i < x ==> (#[trigger] s@.board[y as int][i]) == force_cell(v0.board[y as int][i], pl, pt),
                forall|i: int| x <= i < 9 ==> (#[trigger] s@.board[y as int][i]) == v0.board[y as int][i],
                s@.black == v0.black,
                s@.white == v0.white,
            decreases 9 - x,
        {
            proof { lemma_board_view(s); }
            let ghost old_row = s@.board[y as int];
            let ghost old_board = s@.board;
            if let Some(p) = s.board[y][x] {
                if p.owner == pl && p.candidates.contains(pt) {
                    let c = CandidateSet::single(pt);
                    assert(c.has(pt));
                    s.board[y].set(x, Some(Piece { candidates: c, ..p }));
                    proof { lemma_board_view(s); }
                    assert(s@.board[y as int] =~= old_row.update(x as int, Some(force_piece(p, pt))));
                    assert(s@.board =~= old_board.update(y as int, old_row.update(x as int, Some(force_piece(p, pt)))));
                }
            }
            x = x + 1;
        }
        assert forall|i: int| 0 <= i < 9 implies s@.board[y as int][i] == force_row(v0.board[y as int], pl, pt)[i] by {
            assert(force_row(v0.board[y as int], pl, pt)[i] == force_cell(v0.board[y as int][i], pl, pt));
        }
        assert(s@.board[y as int] =~= force_row(v0.board[y as int], pl, pt));
        y = y + 1;
    }
    assert forall|j: int| 0 <= j < 9 implies s@.board[j] == force_board(v0.board, pl, pt)[j] by {
        assert(force_board(v0.board, pl, pt)[j] == force_row(v0.board[j], pl, pt));
    }
    assert(s@.board =~= force_board(v0.board, pl, pt));
    match pl {
        Player::Black => force_hand_exec(&mut s.black_hand, pt),
        Player::White => force_hand_exec(&mut s.white_hand, pt),
    }
}

fn collapse_step_exec(s: &mut Snapshot, pl: Player, pt: PieceType)
    requires
        old(s).wf(),
    ensures
        final(s)@ == collapse_step(old(s)@, pl, pt),
        final(s).wf(),
{
    let lim = limit_of(pt);
    let nb = count_board_holders(s, pl, pt);
    let nh = count_hand_holders(s.hand(pl), pt);
    if nb <= lim && nh == lim - nb {
        force_all_exec(s, pl, pt);
    }
}

fn pass_player_of(k: usize) -> (r: Player)
    ensures
        r == pass_player(k as nat),
{
    if k < 8 { Player::Black } else { Player::White }
}

fn pass_type_of(k: usize) -> (r: PieceType)
    ensures
        r == pass_type(k as nat),
{
    let i = k % 8;
    if i == 0 { PieceType::King }
    else if i == 1 { PieceType::Rook }
    else if i == 2 { PieceType::Bishop }
    else if i == 3 { PieceType::Gold }
    else if i == 4 { PieceType::Silver }
    else if i == 5 { PieceType::Knight }
    else if i == 6 { PieceType::Lance }
    else { PieceType::Pawn }
}

/// One collapse pass: both players, every type, in the fixed order.
pub(crate) fn collapse_pass_exec(s: &mut Snapshot)
    requires
        old(s).wf(),
    ensures
        final(s)@ == collapse_pass(old(s)@),
        final(s).wf(),
{
    let ghost v0 = s@;
    let mut k: usize = 0;
    while k < 16
        invariant
            k <= 16,
            s.wf(),
            s@ == pass_prefix(v0, k as nat),
        decreases 16 - k,
    {
        collapse_step_exec(s, pass_player_of(k), pass_type_of(k));
        k = k + 1;
    }
}

fn hand_spread(h: &Vec<Piece>) -> (n: usize)
    ensures
        n as nat == seq_sum(h@, |p: Piece| piece_spread(p)),
{
    let mut n: usize = 0;
    let mut i: usize = 0;
    while i < h.len()
        invariant
            i <= h@.len(),
            n <= i,
            n as nat == seq_sum(h@.take(i as int), |p: Piece| piece_spread(p)),
        decreases h@.len() - i,
    {
        proof { lemma_sum_take_next(h@, |p: Piece| piece_spread(p), i as int); }
        if h[i].candidates.len() >= 2 {
            n = n + 1;
        }
        i = i + 1;
    }
    proof { lemma_sum_take_all(h@, |p: Piece| piece_spread(p)); }
    n
}

fn board_spread(s: &Snapshot) -> (n: usize)
    requires
        s.wf(),
    ensures
        n as nat == seq_sum(s@.board, |row: Seq<Option<Piece>>| row_spread(row)),
{
    let ghost b = s@.board;
    let mut n: usize = 0;
    let mut y: usize = 0;
    while y < 9
        invariant
            s.wf(),
            b == s@.board,
            y <= 9,
            n <= 9 * y,
            n as nat == seq_sum(b.take(y as int), |row: Seq<Option<Piece>>| row_spread(row)),
        decreases 9 - y,
    {
        let ghost before = n as nat;
        let mut x: usize = 0;
        while x < 9
            invariant
                s.wf(),
                b == s@.board,
                y < 9,
                x <= 9,
                n <= 9 * y + x,
                n as nat == before + seq_sum(b[y as int].take(x as int), |c: Option<Piece>| cell_spread(c)),
            decreases 9 - x,
        {
            proof { lemma_sum_take_next(b[y as int], |c: Option<Piece>| cell_spread(c), x as int); }
            assert(s.board@[y as int]@[x as int] == b[y as int][x as int]);
            if let Some(p) = s.board[y][x] {
                if p.candidates.len() >= 2 {
                    n = n + 1;
                }
            }
            x = x + 1;
        }
        proof {
            lemma_sum_take_all(b[y as int], |c: Option<Piece>| cell_spread(c));
            lemma_sum_take_next(b, |row: Seq<Option<Piece>>| row_spread(row), y as int);
        }
        y = y + 1;
    }
    proof { lemma_sum_take_all(b, |row: Seq<Option<Piece>>| row_spread(row)); }
    n
}

/// The number of pieces not yet collapsed.
pub(crate) fn spread_of(s: &Snapshot) -> (r: u128)
    requires
        s.wf(),
    ensures
        r as nat == spread(s@),
{
    let a = board_spread(s) as u128;
    let b = hand_spread(&s.black_hand) as u128;
    let c = hand_spread(&s.white_hand) as u128;
    a + b + c
}

/// Repeats collapse passes until one changes nothing.
pub(crate) fn collapse_exec(s: &mut Snapshot)
    requires
        old(s).wf(),
    ensures
        final(s)@ == collapsed(old(s)@),
        final(s).wf(),
{
    let ghost v0 = s@;
    loop
        invariant
            s.wf(),
            collapsed(s@) == collapsed(v0),
        ensures
            s.wf(),
            s@ == collapsed(v0),
        decreases spread(s@),
    {
        let ghost prev = s@;
        let m0 = spread_of(s);
        collapse_pass_exec(s);
        let m1 = spread_of(s);
        proof {
            lemma_prefix_shrinks(prev, 16);
        }
        if m1 == m0 {
            break;
        }
    }
}

pub open spec fn set_cell(v: SnapView, x: int, y: int, c: Option<Piece>) -> SnapView {
    SnapView { board: v.board.update(y, v.board[y].update(x, c)), ..v }
}

pub open spec fn with_hand(v: SnapView, pl: Player, h: Seq<Piece>) -> SnapView {
    match pl {
        Player::Black => SnapView { black: h, ..v },
        Player::White => SnapView { white: h, ..v },
    }
}

impl Snapshot {
    /// Puts `c` on square (x, y).
    pub fn set_square(&mut self, x: usize, y: usize, c: Option<Piece>)
        requires
            old(self).wf(),
            on_board(x as int, y as int),
            c is Some ==> !c->0.candidates.is_empty_set(),
        ensures
            final(self)@ == set_cell(old(self)@, x as int, y as int, c),
            final(self).wf(),
    {
        proof { lemma_board_view(self); }
        let ghost v0 = self@;
        assert(self@.board[y as int].len() == 9);
        self.board[y].set(x, c);
        proof { lemma_board_view(self); }
        assert(self@.board =~= set_cell(v0, x as int, y as int, c).board);
    }

    /// Appends `p` to the hand of `pl`.
    pub fn push_hand(&mut self, pl: Player, p: Piece)
        ensures
            final(self)@ == with_hand(old(self)@, pl, hand_of(old(self)@, pl).push(p)),
            old(self).wf() ==> final(self).wf(),
    {
        match pl {
            Player::Black => self.black_hand.push(p),
            Player::White => self.white_hand.push(p),
        }
    }

    /// Takes the piece at index `i` out of the hand of `pl`.
    pub fn remove_hand(&mut self, pl: Player, i: usize) -> (p: Piece)
        requires
            i < hand_of(old(self)@, pl).len(),
        ensures
            p == hand_of(old(self)@, pl)[i as int],
            final(self)@ == with_hand(old(self)@, pl, hand_of(old(self)@, pl).remove(i as int)),
            old(self).wf() ==> final(self).wf(),
    {
        match pl {
            Player::Black => self.black_hand.remove(i),
            Player::White => self.white_hand.remove(i),
        }
    }
}

/// The same squares are occupied, by pieces of the same ids and owners.
pub open spec fn same_ids(a: SnapView, b: SnapView) -> bool {
    forall|x: int, y: int|
        on_board(x, y) ==> ((#[trigger] cell(b, x, y)) is Some == cell(a, x, y) is Some) && (cell(b, x, y) is Some
            ==> cell(b, x, y)->0.id == cell(a, x, y)->0.id && cell(b, x, y)->0.owner == cell(a, x, y)->0.owner)
}

proof fn lemma_step_keeps_ids(v: SnapView, pl: Player, pt: PieceType)
    requires
        view_wf(v),
    ensures
        view_wf(collapse_step(v, pl, pt)),
        same_ids(v, collapse_step(v, pl, pt)),
{
    let w = collapse_step(v, pl, pt);
    if holders(v, pl, pt) == limit(pt) {
        lemma_single_count(pt);
        assert forall|y: int| 0 <= y < 9 implies (#[trigger] w.board[y]).len() == 9 by {
            assert(w.board[y] == force_row(v.board[y], pl, pt));
        }
        assert forall|x: int, y: int| on_board(x, y) implies #[trigger] w.board[y][x] == force_cell(v.board[y][x], pl, pt) by {
            assert(w.board[y] == force_row(v.board[y], pl, pt));
        }
        assert forall|x: int, y: int| on_board(x, y) && (#[trigger] w.board[y][x]) is Some implies !w.board[y][x]->0.candidates.is_empty_set() by {
            if board_holds(v.board[y][x], pl, pt) {
                assert(w.board[y][x]->0.candidates.has(pt));
            }
        }
        assert forall|x: int, y: int| on_board(x, y) implies ((#[trigger] cell(w, x, y)) is Some == cell(v, x, y) is Some) && (cell(w, x, y) is Some
            ==> cell(w, x, y)->0.id == cell(v, x, y)->0.id && cell(w, x, y)->0.owner == cell(v, x, y)->0.owner) by {
            assert(w.board[y][x] == force_cell(v.board[y][x], pl, pt));
        }
    }
}

proof fn lemma_prefix_keeps_ids(v: SnapView, k: nat)
    requires
        view_wf(v),
    ensures
        view_wf(pass_prefix(v, k)),
        same_ids(v, pass_prefix(v, k)),
    decreases k,
{
    if k > 0 {
        let k1 = (k - 1) as nat;
        lemma_prefix_keeps_ids(v, k1);
        lemma_step_keeps_ids(pass_prefix(v, k1), pass_player(k1), pass_type(k1));
    }
}

/// Collapsing only narrows candidate sets: the same squares stay occupied by
/// pieces of the same ids and owners.
pub proof fn lemma_collapsed_keeps_ids(v: SnapView)
    requires
        view_wf(v),
    ensures
        view_wf(collapsed(v)),
        same_ids(v, collapsed(v)),
    decreases spread(v),
{
    if collapse_pass(v) != v {
        lemma_pass_shrinks(v);
        lemma_prefix_keeps_ids(v, 16);
        lemma_collapsed_keeps_ids(collapse_pass(v));
    }
}

/// Every piece in either hand may still be some type.
pub open spec fn hands_non_empty(v: SnapView) -> bool {
    &&& forall|i: int| 0 <= i < v.black.len() ==> !(#[trigger] v.black[i]).candidates.is_empty_set()
    &&& forall|i: int| 0 <= i < v.white.len() ==> !(#[trigger] v.white[i]).candidates.is_empty_set()
}

proof fn lemma_force_hand_non_empty(h: Seq<Piece>, pt: PieceType)
    requires
        forall|i: int| 0 <= i < h.len() ==> !(#[trigger] h[i]).candidates.is_empty_set(),
    ensures
        forall|i: int| 0 <= i < h.len() ==> !(#[trigger] force_hand(h, pt)[i]).candidates.is_empty_set(),
{
    lemma_single_count(pt);
    assert forall|i: int| 0 <= i < h.len() implies !(#[trigger] force_hand(h, pt)[i]).candidates.is_empty_set() by {
        assert(force_hand(h, pt)[i] == force_hand_piece(h[i], pt));
        if h[i].candidates.has(pt) {
            assert(force_hand(h, pt)[i].candidates.has(pt));
        }
    }
}

proof fn lemma_prefix_hands(v: SnapView, k: nat)
    requires
        hands_non_empty(v),
    ensures
        hands_non_empty(pass_prefix(v, k)),
    decreases k,
{
    if k > 0 {
        let k1 = (k - 1) as nat;
        lemma_prefix_hands(v, k1);
        let u = pass_prefix(v, k1);
        lemma_force_hand_non_empty(u.black, pass_type(k1));
        lemma_force_hand_non_empty(u.white, pass_type(k1));
    }
}

/// Collapsing never leaves a hand piece without a candidate type.
pub proof fn lemma_collapsed_hands(v: SnapView)
    requires
        hands_non_empty(v),
    ensures
        hands_non_empty(collapsed(v)),
    decreases spread(v),
{
    if collapse_pass(v) != v {
        lemma_pass_shrinks(v);
        lemma_prefix_hands(v, 16);
        lemma_collapsed_hands(collapse_pass(v));
    }
}

} // verus!
