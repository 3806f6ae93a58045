//! The participants of a battle and the per-participant outcome record.

use vstd::prelude::*;

verus! {

/// Target roster size of every battle: human joiners are padded up to this
/// count with generated filler characters.
pub const CAPACITY: usize = 100;

/// Length of the join window in milliseconds: arrivals inside one window are
/// merged into the same lobby.
pub const JOIN_WINDOW_MS: u64 = 10000;

/// Hit points a human joiner starts with.
pub const HUMAN_HP: i32 = 100;

/// Attack value of a human joiner.
pub const HUMAN_ATK: i32 = 20;

/// Rank of the sentinel failure result, outside the valid range `1..=CAPACITY`.
pub const SENTINEL_RANK: usize = 999;

/// Final hit points of the sentinel failure result; a real result of a winner
/// is always positive.
pub const SENTINEL_HP: i32 = -1;

/// One participant of a battle, human joiner or generated filler.
pub struct Character {
    pub name: String,
    pub hp: i32,
    pub atk: i32,
    pub is_alive: bool,
    pub is_client: bool,
}

/// The mathematical value of a [`Character`]: its name as a character
/// sequence and its numeric fields as unbounded integers.
pub struct CharModel {
    pub name: Seq<char>,
    pub hp: int,
    pub atk: int,
    pub is_alive: bool,
    pub is_client: bool,
}

impl View for Character {
    type V = CharModel;

    open spec fn view(&self) -> CharModel {
        CharModel {
            name: self.name@,
            hp: self.hp as int,
            atk: self.atk as int,
            is_alive: self.is_alive,
            is_client: self.is_client,
        }
    }
}

impl DeepView for Character {
    type V = CharModel;

    open spec fn deep_view(&self) -> CharModel {
        self.view()
    }
}

impl Clone for Character {
    fn clone(&self) -> (r: Self)
        ensures
            r@ == self@,
    {
        Character {
            name: self.name.clone(),
            hp: self.hp,
            atk: self.atk,
            is_alive: self.is_alive,
            is_client: self.is_client,
        }
    }
}

/// A character fit to enter a battle: alive, with positive hit points and a
/// strictly positive attack value.
pub open spec fn char_ok(c: CharModel) -> bool {
    &&& c.is_alive
    &&& 1 <= c.hp
    &&& 1 <= c.atk
}

/// A whole roster of battle-ready characters.
pub open spec fn roster_ok(cs: Seq<CharModel>) -> bool {
    forall|i: int| 0 <= i < cs.len() ==> char_ok(#[trigger] cs[i])
}

impl Character {
    /// The fixed-stat character a human joiner plays.
    pub fn new_human(name: String) -> (c: Character)
        ensures
            c@ == (CharModel {
                name: name@,
                hp: HUMAN_HP as int,
                atk: HUMAN_ATK as int,
                is_alive: true,
                is_client: true,
            }),
            char_ok(c@),
    {
        Character { name, hp: HUMAN_HP, atk: HUMAN_ATK, is_alive: true, is_client: true }
    }
}

/// The outcome record produced for one roster entry: rank 1 is the sole
/// winner.
pub struct BattleResult {
    pub name: String,
    pub rank: usize,
    pub final_hp: i32,
    pub is_winner: bool,
}

/// The mathematical value of a [`BattleResult`].
pub struct ResultModel {
    pub name: Seq<char>,
    pub rank: int,
    pub final_hp: int,
    pub is_winner: bool,
}

impl View for BattleResult {
    type V = ResultModel;

    open spec fn view(&self) -> ResultModel {
        ResultModel {
            name: self.name@,
            rank: self.rank as int,
            final_hp: self.final_hp as int,
            is_winner: self.is_winner,
        }
    }
}

impl DeepView for BattleResult {
    type V = ResultModel;

    open spec fn deep_view(&self) -> ResultModel {
        self.view()
    }
}

impl Clone for BattleResult {
    fn clone(&self) -> (r: Self)
        ensures
            r@ == self@,
    {
        BattleResult {
            name: self.name.clone(),
            rank: self.rank,
            final_hp: self.final_hp,
            is_winner: self.is_winner,
        }
    }
}

/// The defined failure record delivered to a joiner whose name cannot be
/// matched against the battle outcome: an out-of-range rank, negative final
/// hit points, and no win.
pub open spec fn sentinel_model(name: Seq<char>) -> ResultModel {
    ResultModel {
        name: name,
        rank: SENTINEL_RANK as int,
        final_hp: SENTINEL_HP as int,
        is_winner: false,
    }
}

impl BattleResult {
    /// Builds the sentinel failure result for the given joiner name.
    pub fn sentinel(name: String) -> (r: BattleResult)
        ensures
            r@ == sentinel_model(name@),
    {
        BattleResult { name, rank: SENTINEL_RANK, final_hp: SENTINEL_HP, is_winner: false }
    }
}

} // verus!
