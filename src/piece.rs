use vstd::prelude::*;

verus! {

/// One of the two sides.
#[derive(Clone, Copy, Debug, PartialEq, Eq, Structural, Hash)]
pub enum Player {
    Black,
    White,
}

impl Player {
    pub open spec fn spec_opposite(self) -> Player {
        match self {
            Player::Black => Player::White,
            Player::White => Player::Black,
        }
    }

    /// Direction of "forward" along the rank axis (and the world axis).
    pub open spec fn spec_forward(self) -> int {
        match self {
            Player::Black => -1,
            Player::White => 1,
        }
    }

    pub fn opposite(self) -> (r: Player)
        ensures
            r == self.spec_opposite(),
            r != self,
    {
        match self {
            Player::Black => Player::White,
            Player::White => Player::Black,
        }
    }

    pub fn forward_sign(self) -> (r: i32)
        ensures
            r as int == self.spec_forward(),
    {
        match self {
            Player::Black => -1,
            Player::White => 1,
        }
    }

    pub fn label(self) -> (r: &'static str)
        ensures
            r@ == (match self {
                Player::Black => "先手"@,
                Player::White => "後手"@,
            }),
    {
        match self {
            Player::Black => "先手",
            Player::White => "後手",
        }
    }
}

/// The eight canonical piece types.
#[derive(Clone, Copy, Debug, PartialEq, Eq, Structural, Hash)]
pub enum PieceType {
    Pawn,
    Lance,
    Knight,
    Silver,
    Gold,
    Rook,
    Bishop,
    King,
}

impl PieceType {
    /// The universal starting superposition.
    pub fn all() -> (r: CandidateSet)
        ensures
            r == CandidateSet::spec_all(),
            forall|t: PieceType| r.has(t),
            r.count() == 8,
    {
        CandidateSet {
            pawn: true,
            lance: true,
            knight: true,
            silver: true,
            gold: true,
            rook: true,
            bishop: true,
            king: true,
        }
    }

    pub open spec fn spec_short(self) -> Seq<char> {
        match self {
            PieceType::Pawn => "歩"@,
            PieceType::Lance => "香"@,
            PieceType::Knight => "桂"@,
            PieceType::Silver => "銀"@,
            PieceType::Gold => "金"@,
            PieceType::Rook => "飛"@,
            PieceType::Bishop => "角"@,
            PieceType::King => "王"@,
        }
    }

    /// One-character name of the type.
    pub fn short(self) -> (r: &'static str)
        ensures
            r@ == self.spec_short(),
    {
        match self {
            PieceType::Pawn => "歩",
            PieceType::Lance => "香",
            PieceType::Knight => "桂",
            PieceType::Silver => "銀",
            PieceType::Gold => "金",
            PieceType::Rook => "飛",
            PieceType::Bishop => "角",
            PieceType::King => "王",
        }
    }
}

/// The set of piece types a piece may still be, one flag per type.
#[derive(Clone, Copy, Debug, PartialEq, Eq, Structural)]
pub struct CandidateSet {
    pub pawn: bool,
    pub lance: bool,
    pub knight: bool,
    pub silver: bool,
    pub gold: bool,
    pub rook: bool,
    pub bishop: bool,
    pub king: bool,
}

pub open spec fn flag_value(b: bool) -> nat {
    if b { 1 } else { 0 }
}

fn flag(b: bool) -> (r: usize)
    ensures
        r as nat == flag_value(b),
        r <= 1,
{
    if b { 1 } else { 0 }
}

impl CandidateSet {
    pub open spec fn has(self, t: PieceType) -> bool {
        match t {
            PieceType::Pawn => self.pawn,
            PieceType::Lance => self.lance,
            PieceType::Knight => self.knight,
            PieceType::Silver => self.silver,
            PieceType::Gold => self.gold,
            PieceType::Rook => self.rook,
            PieceType::Bishop => self.bishop,
            PieceType::King => self.king,
        }
    }

    pub open spec fn view(self) -> Set<PieceType> {
        Set::new(|t: PieceType| self.has(t))
    }

    /// Number of types in the set.
    pub open spec fn count(self) -> nat {
        flag_value(self.pawn) + flag_value(self.lance) + flag_value(self.knight) + flag_value(
            self.silver,
        ) + flag_value(self.gold) + flag_value(self.rook) + flag_value(self.bishop) + flag_value(
            self.king,
        )
    }

    pub open spec fn is_empty_set(self) -> bool {
        forall|t: PieceType| !self.has(t)
    }

    /// The set holds `t` and nothing else.
    pub open spec fn is_only(self, t: PieceType) -> bool {
        forall|u: PieceType| self.has(u) == (u == t)
    }

    pub open spec fn spec_all() -> CandidateSet {
        CandidateSet {
            pawn: true,
            lance: true,
            knight: true,
            silver: true,
            gold: true,
            rook: true,
            bishop: true,
            king: true,
        }
    }

    pub open spec fn spec_single(t: PieceType) -> CandidateSet {
        CandidateSet {
            pawn: t == PieceType::Pawn,
            lance: t == PieceType::Lance,
            knight: t == PieceType::Knight,
            silver: t == PieceType::Silver,
            gold: t == PieceType::Gold,
            rook: t == PieceType::Rook,
            bishop: t == PieceType::Bishop,
            king: t == PieceType::King,
        }
    }

    pub open spec fn spec_without(self, t: PieceType) -> CandidateSet {
        CandidateSet {
            pawn: self.pawn && t != PieceType::Pawn,
            lance: self.lance && t != PieceType::Lance,
            knight: self.knight && t != PieceType::Knight,
            silver: self.silver && t != PieceType::Silver,
            gold: self.gold && t != PieceType::Gold,
            rook: self.rook && t != PieceType::Rook,
            bishop: self.bishop && t != PieceType::Bishop,
            king: self.king && t != PieceType::King,
        }
    }

    pub fn empty() -> (r: CandidateSet)
        ensures
            r.is_empty_set(),
            r.count() == 0,
    {
        CandidateSet {
            pawn: false,
            lance: false,
            knight: false,
            silver: false,
            gold: false,
            rook: false,
            bishop: false,
            king: false,
        }
    }

    pub fn single(t: PieceType) -> (r: CandidateSet)
        ensures
            r == CandidateSet::spec_single(t),
            r.is_only(t),
            r.count() == 1,
    {
        CandidateSet {
            pawn: t == PieceType::Pawn,
            lance: t == PieceType::Lance,
            knight: t == PieceType::Knight,
            silver: t == PieceType::Silver,
            gold: t == PieceType::Gold,
            rook: t == PieceType::Rook,
            bishop: t == PieceType::Bishop,
            king: t == PieceType::King,
        }
    }

    pub fn contains(&self, t: PieceType) -> (r: bool)
        ensures
            r == self.has(t),
    {
        match t {
            PieceType::Pawn => self.pawn,
            PieceType::Lance => self.lance,
            PieceType::Knight => self.knight,
            PieceType::Silver => self.silver,
            PieceType::Gold => self.gold,
            PieceType::Rook => self.rook,
            PieceType::Bishop => self.bishop,
            PieceType::King => self.king,
        }
    }

    pub fn insert(&mut self, t: PieceType)
        ensures
            forall|u: PieceType| final(self).has(u) == (old(self).has(u) || u == t),
    {
        match t {
            PieceType::Pawn => self.pawn = true,
            PieceType::Lance => self.lance = true,
            PieceType::Knight => self.knight = true,
            PieceType::Silver => self.silver = true,
            PieceType::Gold => self.gold = true,
            PieceType::Rook => self.rook = true,
            PieceType::Bishop => self.bishop = true,
            PieceType::King => self.king = true,
        }
    }

    pub fn remove(&mut self, t: PieceType)
        ensures
            *final(self) == old(self).spec_without(t),
            forall|u: PieceType| final(self).has(u) == (old(self).has(u) && u != t),
    {
        match t {
            PieceType::Pawn => self.pawn = false,
            PieceType::Lance => self.lance = false,
            PieceType::Knight => self.knight = false,
            PieceType::Silver => self.silver = false,
            PieceType::Gold => self.gold = false,
            PieceType::Rook => self.rook = false,
            PieceType::Bishop => self.bishop = false,
            PieceType::King => self.king = false,
        }
    }

    #[verifier::rlimit(60)]
    pub fn len(&self) -> (r: usize)
        ensures
            r as nat == self.count(),
    {
        let a = flag(self.pawn) + flag(self.lance);
        let b = flag(self.knight) + flag(self.silver);
        let c = flag(self.gold) + flag(self.rook);
        let d = flag(self.bishop) + flag(self.king);
        let r = a + b + c + d;
        assert(r as nat == self.count()) by {
            assert(a as nat == flag_value(self.pawn) + flag_value(self.lance));
            assert(b as nat == flag_value(self.knight) + flag_value(self.silver));
            assert(c as nat == flag_value(self.gold) + flag_value(self.rook));
            assert(d as nat == flag_value(self.bishop) + flag_value(self.king));
        }
        r
    }

    pub fn is_empty(&self) -> (r: bool)
        ensures
            r == self.is_empty_set(),
            r == (self.count() == 0),
    {
        proof { lemma_has_each(*self); }
        !(self.pawn || self.lance || self.knight || self.silver || self.gold || self.rook
            || self.bishop || self.king)
    }

    /// Holds exactly `t` (the piece has collapsed to that type).
    pub fn is_single_of(&self, t: PieceType) -> (r: bool)
        ensures
            r == self.is_only(t),
            r == (self.count() == 1 && self.has(t)),
    {
        proof { lemma_has_each(*self); }
        *self == CandidateSet::single(t)
    }
}

/// Each flag is reached by `has` on its type.
pub proof fn lemma_has_each(c: CandidateSet)
    ensures
        c.has(PieceType::Pawn) == c.pawn,
        c.has(PieceType::Lance) == c.lance,
        c.has(PieceType::Knight) == c.knight,
        c.has(PieceType::Silver) == c.silver,
        c.has(PieceType::Gold) == c.gold,
        c.has(PieceType::Rook) == c.rook,
        c.has(PieceType::Bishop) == c.bishop,
        c.has(PieceType::King) == c.king,
{
}

/// A piece: identity, owner, the types it may still be, and its promotion flag.
#[derive(Clone, Copy, Debug, PartialEq, Eq, Structural)]
pub struct Piece {
    pub id: u64,
    pub owner: Player,
    pub candidates: CandidateSet,
    pub promoted: bool,
}

impl Piece {
    pub fn new(id: u64, owner: Player) -> (r: Piece)
        ensures
            r.id == id,
            r.owner == owner,
            r.candidates == CandidateSet::spec_all(),
            forall|t: PieceType| r.candidates.has(t),
            r.candidates.count() == 8,
            !r.promoted,
    {
        Piece { id, owner, candidates: PieceType::all(), promoted: false }
    }
}

} // verus!
