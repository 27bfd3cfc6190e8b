//! The game state as the game server sends it, held as plain values.

use vstd::prelude::*;

verus! {

/// A cell of the board; in bounds when both coordinates lie in `0..=10`.
#[derive(Clone, Copy, Debug, PartialEq, Eq, Structural, Hash)]
pub struct Coord {
    pub x: i32,
    pub y: i32,
}


/// A snake as the game server describes it.
#[derive(Debug, Clone)]
pub struct Battlesnake {
    pub id: String,
    pub name: String,
    pub health: i32,
    pub body: Vec<Coord>,
    pub head: Coord,
    pub length: i32,
    pub latency: String,
    pub shout: Option<String>,
}

/// The board as the game server describes it.
#[derive(Debug, Clone)]
pub struct Board {
    pub height: u32,
    pub width: i32,
    pub food: Vec<Coord>,
    pub snakes: Vec<Battlesnake>,
    pub hazards: Vec<Coord>,
}

/// The session record of one game: the two teammates' identifiers and,
/// for each, the moves already decided, indexed by turn.
#[derive(Debug)]
pub struct GameInfo {
    pub id: String,
    pub timeout: u32,
    pub agent_ids: [String; 2],
    pub agent_moves: [Vec<crate::simple::Movement>; 2],
}

/// Two snakes are the same snake when their identifiers agree.
impl PartialEq for Battlesnake {
    fn eq(&self, other: &Battlesnake) -> (r: bool) {
        self.id == other.id
    }
}

impl Eq for Battlesnake {}

impl vstd::std_specs::cmp::PartialEqSpecImpl for Battlesnake {
    open spec fn obeys_eq_spec() -> bool {
        true
    }

    open spec fn eq_spec(&self, other: &Battlesnake) -> bool {
        self.id@ == other.id@
    }
}

} // verus!
