//! The per-game session record and the move decision for one teammate.

use vstd::prelude::*;
use crate::simple::{Movement, SnakeMove, SimpleBoard, board_from, is_agent, joint_moves, side_indices, in_bounds};
use crate::search::{search, valid_input, INPUT_BODY_LIMIT, INPUT_HEALTH_LIMIT, SAFETY_MARGIN_MS};
use crate::wire::{Battlesnake, Board, GameInfo};

verus! {

/// Appends `m` to the log of teammate `k`.
fn append_move(game_info: &mut GameInfo, k: usize, m: Movement)
    requires
        k < 2,
    ensures
        final(game_info).agent_moves[k as int]@ == old(game_info).agent_moves[k as int]@.push(m),
        final(game_info).agent_moves[1 - k]@ == old(game_info).agent_moves[1 - k]@,
        final(game_info).agent_ids == old(game_info).agent_ids,
        final(game_info).id == old(game_info).id,
        final(game_info).timeout == old(game_info).timeout,
{
    let mut log: Vec<Movement> = Vec::new();
    let mut i: usize = 0;
    while i < game_info.agent_moves[k].len()
        invariant
            k < 2,
            0 <= i <= game_info.agent_moves[k as int]@.len(),
            log@ == game_info.agent_moves[k as int]@.take(i as int),
        decreases game_info.agent_moves[k as int]@.len() - i,
    {
        log.push(game_info.agent_moves[k][i]);
        i = i + 1;
        assert(log@ =~= game_info.agent_moves[k as int]@.take(i as int));
    }
    assert(log@ =~= game_info.agent_moves[k as int]@.take(i as int));
    assert(game_info.agent_moves[k as int]@.take(i as int) =~= game_info.agent_moves[k as int]@);
    log.push(m);
    game_info.agent_moves[k] = log;
}


/// Why a move request could not be answered.
#[derive(Clone, Copy, Debug, PartialEq, Eq, Structural)]
pub enum MoveError {
    /// The requesting snake is not one of the game's two teammates.
    UnknownAgent,
    /// The requesting snake is not on the board.
    NotOnBoard,
    /// The board does not fit four slots, or a snake on it is outside what
    /// the search accepts.
    InvalidBoard,
}

/// Which of the two teammates has identifier `id`, the first match first.
pub open spec fn agent_index(gi: &GameInfo, id: Seq<char>) -> Option<int> {
    if gi.agent_ids[0]@ == id {
        Option::Some(0)
    } else if gi.agent_ids[1]@ == id {
        Option::Some(1)
    } else {
        Option::None
    }
}

/// The move already decided for teammate `k` on `turn`, if any.
pub open spec fn logged(gi: &GameInfo, k: int, turn: int) -> Option<Movement> {
    if 0 <= turn < gi.agent_moves[k]@.len() {
        Option::Some(gi.agent_moves[k]@[turn])
    } else {
        Option::None
    }
}

/// The move already decided on `turn` for the teammate with identifier `id`.
pub open spec fn served_from_log(gi: &GameInfo, id: Seq<char>, turn: int) -> Option<Movement> {
    match agent_index(gi, id) {
        Option::Some(k) => logged(gi, k, turn),
        Option::None => Option::None,
    }
}

/// The first position on the board of the snake with identifier `id`.
pub open spec fn board_index(board: &Board, id: Seq<char>) -> Option<int> {
    first_index(board.snakes@, id, 0)
}

pub open spec fn first_index(snakes: Seq<Battlesnake>, id: Seq<char>, from: int) -> Option<int>
    decreases snakes.len() - from,
{
    if from < 0 || from >= snakes.len() {
        Option::None
    } else if snakes[from].id@ == id {
        Option::Some(from)
    } else {
        first_index(snakes, id, from + 1)
    }
}

/// The move that joint move `jm` gives to slot `j`.
pub open spec fn move_for(jm: [SnakeMove; 2], j: int) -> Movement {
    if jm[0].id as int == j { jm[0].mv } else { jm[1].mv }
}

/// `new` is `old` with joint move `jm` recorded for the requester `you`
/// and, when the partner is on the board, for the partner.
pub open spec fn records_joint_move(old: &GameInfo, new: &GameInfo, board: &Board, you: Seq<char>, jm: [SnakeMove; 2]) -> bool {
    let k = agent_index(old, you).unwrap();
    let p = 1 - k;
    &&& new.id == old.id
    &&& new.timeout == old.timeout
    &&& new.agent_ids == old.agent_ids
    &&& new.agent_moves[k]@ == old.agent_moves[k]@.push(move_for(jm, board_index(board, you).unwrap()))
    &&& (board_index(board, old.agent_ids[p]@) matches Option::Some(q)
        ==> new.agent_moves[p]@ == old.agent_moves[p]@.push(move_for(jm, q)))
    &&& (board_index(board, old.agent_ids[p]@).is_none() ==> new.agent_moves[p]@ == old.agent_moves[p]@)
}

impl GameInfo {
    /// The session record of a new game: the first teammate to report,
    /// no moves yet, and the game's timeout less the safety margin.
    pub fn new(id: String, timeout: u32, first_agent: String) -> (r: GameInfo)
        ensures
            r.id@ == id@,
            r.timeout == if timeout >= SAFETY_MARGIN_MS { timeout - SAFETY_MARGIN_MS } else { 0 },
            r.agent_ids[0]@ == first_agent@,
            r.agent_ids[1]@ == Seq::<char>::empty(),
            r.agent_moves[0]@ == Seq::<Movement>::empty(),
            r.agent_moves[1]@ == Seq::<Movement>::empty(),
    {
        GameInfo {
            id,
            timeout: if timeout >= SAFETY_MARGIN_MS { timeout - SAFETY_MARGIN_MS } else { 0 },
            agent_ids: [first_agent, String::new()],
            agent_moves: [Vec::new(), Vec::new()],
        }
    }

    /// Records the second teammate once it reports.
    pub fn add_teammate(&mut self, agent: String)
        ensures
            final(self).agent_ids[1]@ == agent@,
            final(self).agent_ids[0] == old(self).agent_ids[0],
            final(self).agent_moves == old(self).agent_moves,
            final(self).id == old(self).id,
            final(self).timeout == old(self).timeout,
    {
        self.agent_ids[1] = agent;
    }
}

fn find_snake(board: &Board, id: &String) -> (r: Option<usize>)
    ensures
        r matches Option::Some(j) ==> board_index(board, id@) == Option::Some(j as int),
        r.is_none() ==> board_index(board, id@).is_none(),
{
    let mut i: usize = 0;
    while i < board.snakes.len()
        invariant
            0 <= i <= board.snakes@.len(),
            board_index(board, id@) == first_index(board.snakes@, id@, i as int),
        decreases board.snakes@.len() - i,
    {
        if board.snakes[i].id == *id {
            return Some(i);
        }
        i = i + 1;
    }
    None
}

/// Whether the search accepts this board (see `valid_input`).
pub fn accepts(board: &Board, game_info: &GameInfo) -> (r: bool)
    ensures
        r == valid_input(board, game_info),
{
    if board.snakes.len() > 4 {
        return false;
    }
    let mut team_count: usize = 0;
    let mut opp_count: usize = 0;
    let mut i: usize = 0;
    while i < board.snakes.len()
        invariant
            board.snakes@.len() <= 4,
            0 <= i <= board.snakes@.len(),
            team_count == side_indices(board.snakes@, game_info, true, i as int).len(),
            opp_count == side_indices(board.snakes@, game_info, false, i as int).len(),
            team_count + opp_count == i,
            forall|j: int| 0 <= j < i ==> {
                let s = #[trigger] board.snakes@[j];
                &&& s.body@.len() >= 1
                &&& s.body@.len() <= INPUT_BODY_LIMIT
                &&& s.health >= INPUT_HEALTH_LIMIT
                &&& in_bounds(s.body@[0])
            },
        decreases board.snakes@.len() - i,
    {
        let s = &board.snakes[i];
        if s.body.len() < 1 || s.body.len() > INPUT_BODY_LIMIT || s.health < INPUT_HEALTH_LIMIT {
            return false;
        }
        let h = s.body[0];
        if h.x < 0 || h.x > 10 || h.y < 0 || h.y > 10 {
            return false;
        }
        if game_info.agent_ids[0] == s.id || game_info.agent_ids[1] == s.id {
            team_count = team_count + 1;
        } else {
            opp_count = opp_count + 1;
        }
        i = i + 1;
    }
    team_count <= 2 && opp_count <= 2
}


proof fn lemma_first_index(snakes: Seq<Battlesnake>, id: Seq<char>, from: int)
    ensures
        first_index(snakes, id, from) matches Option::Some(j) ==> 0 <= from <= j < snakes.len() && snakes[j].id@ == id,
    decreases snakes.len() - from,
{
    if 0 <= from < snakes.len() && snakes[from].id@ != id {
        lemma_first_index(snakes, id, from + 1);
    }
}

proof fn lemma_side_complete(snakes: Seq<Battlesnake>, gi: &GameInfo, team: bool, n: int, j: int)
    requires
        0 <= j < n <= snakes.len(),
        snakes.len() <= usize::MAX,
        is_agent(gi, snakes[j].id@) == team,
    ensures
        exists|k: int| 0 <= k < side_indices(snakes, gi, team, n).len() && side_indices(snakes, gi, team, n)[k] == j,
    decreases n,
{
    let prev = side_indices(snakes, gi, team, n - 1);
    let extra: Seq<usize> = if is_agent(gi, snakes[n - 1].id@) == team { seq![(n - 1) as usize] } else { seq![] };
    assert(side_indices(snakes, gi, team, n) == prev + extra);
    if j < n - 1 {
        lemma_side_complete(snakes, gi, team, n - 1, j);
        let k = choose|k: int| 0 <= k < prev.len() && prev[k] == j;
        assert((prev + extra)[k] == j);
    } else {
        assert((prev + extra)[prev.len() as int] == j);
    }
}

/// On a board the search accepts, a teammate standing at `j` owns one of
/// the two slots that every team joint move moves.
proof fn lemma_teammate_moves(board: &Board, gi: &GameInfo, j: int, jm: [SnakeMove; 2])
    requires
        valid_input(board, gi),
        0 <= j < board.snakes@.len(),
        is_agent(gi, board.snakes@[j].id@),
        joint_moves(board_from(board, gi), true).contains(jm),
    ensures
        jm[0].id as int == j || jm[1].id as int == j,
{
    let b = board_from(board, gi);
    let n = board.snakes@.len() as int;
    let t = side_indices(board.snakes@, gi, true, n);
    crate::simple::lemma_sides(board.snakes@, gi, n);
    lemma_side_complete(board.snakes@, gi, true, n, j);
    assert(t.len() <= 2);
    assert(t.contains(j as usize) ==> b.team[0] as int == j || b.team[1] as int == j) by {
        if t.contains(j as usize) {
            let k = choose|k: int| 0 <= k < t.len() && t[k] == j as usize;
            assert(crate::simple::slot_of(t, k, n) == t[k]);
        }
    }
    assert(t.contains(j as usize));
    let k = choose|k: int| 0 <= k < joint_moves(b, true).len() && joint_moves(b, true)[k] == jm;
    crate::search::lemma_input_ready(board, gi);
    crate::simple::lemma_joint_move_slots(b, true, k);
}

/// Decides the move of teammate `you` on `turn`. A move already decided for
/// that turn (by the partner's request, which searched for both) is
/// returned as it stands. Otherwise one search runs for the pair; the
/// requester's move is logged and returned, and the partner's move is
/// logged when the partner is on the board. Nothing is changed when an
/// error is returned.
pub fn get_move(turn: &i32, board: &Board, you: &Battlesnake, game_info: &mut GameInfo) -> (r: Result<Movement, MoveError>)
    ensures
        agent_index(old(game_info), you.id@).is_none() ==> r == Err::<Movement, MoveError>(MoveError::UnknownAgent)
            && *final(game_info) == *old(game_info),
        served_from_log(old(game_info), you.id@, *turn as int) matches Option::Some(m) ==> r == Ok::<Movement, MoveError>(m)
            && *final(game_info) == *old(game_info),
        agent_index(old(game_info), you.id@).is_some() && served_from_log(old(game_info), you.id@, *turn as int).is_none()
            ==> {
            &&& board_index(board, you.id@).is_none() ==> r == Err::<Movement, MoveError>(MoveError::NotOnBoard)
                && *final(game_info) == *old(game_info)
            &&& board_index(board, you.id@).is_some() && !valid_input(board, old(game_info))
                ==> r == Err::<Movement, MoveError>(MoveError::InvalidBoard) && *final(game_info) == *old(game_info)
            &&& board_index(board, you.id@).is_some() && valid_input(board, old(game_info)) ==> exists|jm: [SnakeMove; 2]|
                #[trigger] joint_moves(board_from(board, old(game_info)), true).contains(jm)
                && r == Ok::<Movement, MoveError>(move_for(jm, board_index(board, you.id@).unwrap()))
                && records_joint_move(old(game_info), final(game_info), board, you.id@, jm)
        },
{
    let k: usize = if game_info.agent_ids[0] == you.id {
        0
    } else if game_info.agent_ids[1] == you.id {
        1
    } else {
        return Err(MoveError::UnknownAgent);
    };
    if *turn >= 0 && (*turn as usize) < game_info.agent_moves[k].len() {
        return Ok(game_info.agent_moves[k][*turn as usize]);
    }
    let j = match find_snake(board, &you.id) {
        Some(j) => j,
        None => {
            return Err(MoveError::NotOnBoard);
        },
    };
    if !accepts(board, game_info) {
        return Err(MoveError::InvalidBoard);
    }
    let ghost old_info = *game_info;
    let moves = search(board, game_info);
    proof {
        lemma_first_index(board.snakes@, you.id@, 0);
        lemma_teammate_moves(board, game_info, j as int, moves);
    }
    let chosen = if moves[0].id == j { moves[0].mv } else { moves[1].mv };
    let partner = find_snake(board, &game_info.agent_ids[1 - k]);
    append_move(game_info, k, chosen);
    match partner {
        Some(q) => {
            proof {
                lemma_first_index(board.snakes@, old_info.agent_ids[1 - k]@, 0);
            }
            let partner_move = if moves[0].id == q { moves[0].mv } else { moves[1].mv };
            append_move(game_info, 1 - k, partner_move);
        },
        None => {},
    }
    assert(records_joint_move(&old_info, game_info, board, you.id@, moves));
    Ok(chosen)
}

/// Two requests for one turn by the two teammates run one search: once the
/// first has recorded its joint move, both teammates' moves for that turn
/// are in the log, so the partner's request is answered from it, with the
/// partner's half of the same joint move.
pub proof fn lemma_one_search_per_turn(
    old: &GameInfo,
    new: &GameInfo,
    board: &Board,
    you: Seq<char>,
    partner: Seq<char>,
    turn: int,
    jm: [SnakeMove; 2],
)
    requires
        agent_index(old, you).is_some(),
        old.agent_ids[1 - agent_index(old, you).unwrap()]@ == partner,
        partner != you,
        0 <= turn,
        old.agent_moves[0]@.len() == turn,
        old.agent_moves[1]@.len() == turn,
        board_index(board, you).is_some(),
        board_index(board, partner).is_some(),
        records_joint_move(old, new, board, you, jm),
    ensures
        served_from_log(new, you, turn) == Option::Some(move_for(jm, board_index(board, you).unwrap())),
        served_from_log(new, partner, turn) == Option::Some(move_for(jm, board_index(board, partner).unwrap())),
{
    let k = agent_index(old, you).unwrap();
    assert(agent_index(new, you) == Option::Some(k));
    assert(agent_index(new, partner) == Option::Some(1 - k));
}

} // verus!
