use vstd::prelude::*;

verus! {

/// Why a staged move or a commit was refused.
#[derive(Clone, Copy, Debug, PartialEq, Eq, Structural)]
pub enum MoveError {
    EmptySource,
    OutOfBounds,
    PathOutOfRange,
    AllyOccupied,
    DropOccupied,
    NotOwnPiece,
    NoSurvivingCandidate,
    DropForbiddenByRule,
    FutureMoveDisallowed,
    TimeJumpTooLarge,
    HistoryRangeInvalid,
    MaxWorldsExceeded,
    WorldCollision,
    HandIndexInvalid,
    GlobalHandInsufficient,
    UnstagedWorld,
}

impl MoveError {
    pub open spec fn spec_text(self) -> Seq<char> {
        match self {
            MoveError::EmptySource => "移動元空"@,
            MoveError::OutOfBounds => "盤外"@,
            MoveError::PathOutOfRange => "経路範囲外"@,
            MoveError::AllyOccupied => "味方占有"@,
            MoveError::DropOccupied => "打ち先占有"@,
            MoveError::NotOwnPiece => "自駒ではない"@,
            MoveError::NoSurvivingCandidate => "候補なし"@,
            MoveError::DropForbiddenByRule => "禁則により打てない"@,
            MoveError::FutureMoveDisallowed => "未来移動は無効"@,
            MoveError::TimeJumpTooLarge => "時間逆行幅が上限超え"@,
            MoveError::HistoryRangeInvalid => "履歴範囲外"@,
            MoveError::MaxWorldsExceeded => "MAX_WORLDS"@,
            MoveError::WorldCollision => "world衝突"@,
            MoveError::HandIndexInvalid => "持ち駒index不正"@,
            MoveError::GlobalHandInsufficient => "global hand不足"@,
            MoveError::UnstagedWorld => "手が未入力"@,
        }
    }

    /// A short human-readable description.
    pub fn text(&self) -> (r: &'static str)
        ensures
            r@ == self.spec_text(),
    {
        match self {
            MoveError::EmptySource => "移動元空",
            MoveError::OutOfBounds => "盤外",
            MoveError::PathOutOfRange => "経路範囲外",
            MoveError::AllyOccupied => "味方占有",
            MoveError::DropOccupied => "打ち先占有",
            MoveError::NotOwnPiece => "自駒ではない",
            MoveError::NoSurvivingCandidate => "候補なし",
            MoveError::DropForbiddenByRule => "禁則により打てない",
            MoveError::FutureMoveDisallowed => "未来移動は無効",
            MoveError::TimeJumpTooLarge => "時間逆行幅が上限超え",
            MoveError::HistoryRangeInvalid => "履歴範囲外",
            MoveError::MaxWorldsExceeded => "MAX_WORLDS",
            MoveError::WorldCollision => "world衝突",
            MoveError::HandIndexInvalid => "持ち駒index不正",
            MoveError::GlobalHandInsufficient => "global hand不足",
            MoveError::UnstagedWorld => "手が未入力",
        }
    }
}

} // verus!
