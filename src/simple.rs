//! The compact board model: moves, snakes and boards.

use vstd::prelude::*;
use crate::wire::{Battlesnake, Board, Coord, GameInfo};

verus! {

/// A direction of travel. The declaration order is the total order used
/// to make comparisons deterministic: `Up < Down < Left < Right < Stay`.
#[derive(Clone, Copy, Debug, PartialEq, Eq, Structural, Hash, PartialOrd, Ord)]
pub enum Movement {
    Up,
    Down,
    Left,
    Right,
    Stay,
}

/// Rank of a movement in the order `Up < Down < Left < Right < Stay`.
pub open spec fn order_of(m: Movement) -> u8 {
    match m {
        Movement::Up => 0,
        Movement::Down => 1,
        Movement::Left => 2,
        Movement::Right => 3,
        Movement::Stay => 4,
    }
}

/// The name of a movement on the wire.
pub open spec fn wire_name(m: Movement) -> Seq<char> {
    match m {
        Movement::Up => "up"@,
        Movement::Down => "down"@,
        Movement::Left => "left"@,
        Movement::Right => "right"@,
        Movement::Stay => "no movement made somehow"@,
    }
}

impl Movement {
    /// The four real directions, in order.
    pub fn all() -> (r: Vec<Movement>)
        ensures
            r@ == seq![Movement::Up, Movement::Down, Movement::Left, Movement::Right],
    {
        vec![Movement::Up, Movement::Down, Movement::Left, Movement::Right]
    }

    /// The name the game server uses for this movement.
    pub fn as_str(&self) -> (r: &'static str)
        ensures
            r@ == wire_name(*self),
    {
        match self {
            Movement::Up => "up",
            Movement::Down => "down",
            Movement::Left => "left",
            Movement::Right => "right",
            Movement::Stay => "no movement made somehow",
        }
    }

    /// Rank of this movement in the deterministic order.
    pub fn to_order(&self) -> (r: u8)
        ensures
            r == order_of(*self),
    {
        match self {
            Movement::Up => 0,
            Movement::Down => 1,
            Movement::Left => 2,
            Movement::Right => 3,
            Movement::Stay => 4,
        }
    }
}


/// A move chosen for the snake in slot `id`.
#[derive(Clone, Copy, Debug, PartialEq, Eq, Structural)]
pub struct SnakeMove {
    pub id: usize,
    pub mv: Movement,
}

/// A live snake: its health and its body, head first and tail last.
#[derive(Debug, Clone)]
pub struct SimpleSnake {
    pub health: i32,
    pub body: std::collections::VecDeque<Coord>,
}

/// The mathematical content of a snake.
pub struct SnakeView {
    pub health: int,
    pub body: Seq<Coord>,
}

impl View for SimpleSnake {
    type V = SnakeView;

    open spec fn view(&self) -> SnakeView {
        SnakeView { health: self.health as int, body: self.body@ }
    }
}

impl SnakeView {
    pub open spec fn head(self) -> Coord {
        self.body[0]
    }

    pub open spec fn tail(self) -> Coord {
        self.body.last()
    }

    pub open spec fn len(self) -> int {
        self.body.len() as int
    }
}

/// Four snake slots (two for the team, two for the opponents), the food,
/// and the memoized heuristic values of this very board.
#[derive(Debug, Clone)]
pub struct SimpleBoard {
    pub food: Vec<Coord>,
    pub snakes: Vec<Option<SimpleSnake>>,
    pub team: [usize; 2],
    pub opps: [usize; 2],
    pub stored_fast_heuristic: Option<i32>,
    pub stored_flood_fill_heuristic: Option<i32>,
}

/// The mathematical content of a board (the memoized values left out).
pub struct BoardView {
    pub food: Seq<Coord>,
    pub snakes: Seq<Option<SnakeView>>,
    pub team: [usize; 2],
    pub opps: [usize; 2],
}

pub open spec fn snake_view_of(o: Option<SimpleSnake>) -> Option<SnakeView> {
    match o {
        Option::Some(s) => Option::Some(s@),
        Option::None => Option::None,
    }
}

impl View for SimpleBoard {
    type V = BoardView;

    open spec fn view(&self) -> BoardView {
        BoardView {
            food: self.food@,
            snakes: self.snakes@.map_values(|o: Option<SimpleSnake>| snake_view_of(o)),
            team: self.team,
            opps: self.opps,
        }
    }
}

pub open spec fn in_bounds(c: Coord) -> bool {
    0 <= c.x <= 10 && 0 <= c.y <= 10
}

/// A coordinate whose four neighbours are representable.
pub open spec fn steppable(c: Coord) -> bool {
    i32::MIN < c.x < i32::MAX && i32::MIN < c.y < i32::MAX
}

/// The cell reached from `c` by `m`.
pub open spec fn step(c: Coord, m: Movement) -> Coord {
    match m {
        Movement::Up => Coord { x: c.x, y: (c.y + 1) as i32 },
        Movement::Down => Coord { x: c.x, y: (c.y - 1) as i32 },
        Movement::Left => Coord { x: (c.x - 1) as i32, y: c.y },
        Movement::Right => Coord { x: (c.x + 1) as i32, y: c.y },
        Movement::Stay => c,
    }
}

/// Whether moving from `c` by `m` leaves the board (for `Stay`: whether
/// `c` itself is off the board).
pub open spec fn leaves_board(c: Coord, m: Movement) -> bool {
    match m {
        Movement::Up => c.y == 10,
        Movement::Down => c.y == 0,
        Movement::Left => c.x == 0,
        Movement::Right => c.x == 10,
        Movement::Stay => !in_bounds(c),
    }
}

pub open spec fn adjacent(a: Coord, b: Coord) -> bool {
    let dx = if a.x >= b.x { a.x - b.x } else { b.x - a.x };
    let dy = if a.y >= b.y { a.y - b.y } else { b.y - a.y };
    dx + dy == 1
}

impl BoardView {
    pub open spec fn live(self, i: int) -> bool {
        0 <= i < self.snakes.len() && self.snakes[i].is_some()
    }

    pub open spec fn snake(self, i: int) -> SnakeView {
        self.snakes[i].unwrap()
    }

    /// Four slots, the team and opponent indices a permutation of them,
    /// and every live snake with a body.
    pub open spec fn wf(self) -> bool {
        &&& self.snakes.len() == 4
        &&& self.team[0] < 4 && self.team[1] < 4 && self.opps[0] < 4 && self.opps[1] < 4
        &&& self.team[0] != self.team[1] && self.opps[0] != self.opps[1]
        &&& self.team[0] != self.opps[0] && self.team[0] != self.opps[1]
        &&& self.team[1] != self.opps[0] && self.team[1] != self.opps[1]
        &&& forall|i: int| #[trigger] self.live(i) ==> self.snake(i).body.len() >= 1
    }

    pub open spec fn is_team(self, i: int) -> bool {
        i == self.team[0] as int || i == self.team[1] as int
    }

    pub open spec fn tail_at(self, i: int, p: Coord) -> bool {
        self.live(i) && self.snake(i).tail() == p
    }

    pub open spec fn team_tail_at(self, p: Coord) -> bool {
        self.tail_at(self.team[0] as int, p) || self.tail_at(self.team[1] as int, p)
    }

    pub open spec fn opp_tail_at(self, p: Coord) -> bool {
        self.tail_at(self.opps[0] as int, p) || self.tail_at(self.opps[1] as int, p)
    }

    /// Some in-bounds food lies next to `h`.
    pub open spec fn food_near(self, h: Coord) -> bool {
        exists|k: int| 0 <= k < self.food.len() && in_bounds(#[trigger] self.food[k]) && adjacent(self.food[k], h)
    }

    /// An opponent's tail is at `p` and that opponent may eat this turn,
    /// so its tail stays.
    pub open spec fn growing_tail_at(self, p: Coord) -> bool {
        ||| self.tail_at(self.opps[0] as int, p) && self.food_near(self.snake(self.opps[0] as int).head())
        ||| self.tail_at(self.opps[1] as int, p) && self.food_near(self.snake(self.opps[1] as int).head())
    }

    /// Some live snake has a segment (head included) at `p`.
    pub open spec fn occupied(self, p: Coord) -> bool {
        exists|i: int| #[trigger] self.live(i) && self.snake(i).body.contains(p)
    }

    /// Moving onto `p` is unsafe for the team.
    pub open spec fn team_unsafe(self, p: Coord) -> bool {
        if self.team_tail_at(p) {
            false
        } else if self.opp_tail_at(p) {
            self.growing_tail_at(p)
        } else {
            self.occupied(p)
        }
    }

    /// Some live snake has a segment other than its head at `p`, or its
    /// head at `p` and at least `len` segments.
    pub open spec fn blocks(self, i: int, p: Coord, len: int) -> bool {
        self.live(i) && (
            (exists|k: int| 1 <= k < self.snake(i).body.len() && #[trigger] self.snake(i).body[k] == p)
            || (self.snake(i).head() == p && self.snake(i).len() >= len)
        )
    }

    /// Moving onto `p` is unsafe for an opponent of length `len`.
    pub open spec fn opp_unsafe(self, p: Coord, len: int) -> bool {
        if self.opp_tail_at(p) {
            false
        } else {
            exists|i: int| #[trigger] self.blocks(i, p, len)
        }
    }
}

/// `m` would put the snake's head back onto its neck.
pub open spec fn reverses(s: SnakeView, m: Movement) -> bool {
    s.body.len() > 1 && {
        let h = s.body[0];
        let n = s.body[1];
        ||| m == Movement::Left && n.x < h.x
        ||| m == Movement::Right && n.x > h.x
        ||| m == Movement::Down && n.y < h.y
        ||| m == Movement::Up && n.y > h.y
    }
}

/// `m` is a legal move for snake `s` on board `b`, seen from the team
/// (`our_team`) or from the opponents.
pub open spec fn allowed(s: SnakeView, b: BoardView, our_team: bool, m: Movement) -> bool {
    let p = step(s.head(), m);
    &&& !reverses(s, m)
    &&& !leaves_board(s.head(), m)
    &&& if our_team { !b.team_unsafe(p) } else { !b.opp_unsafe(p, s.len()) }
}

pub open spec fn keep_if(m: Movement, ok: bool) -> Seq<Movement> {
    if ok { seq![m] } else { seq![] }
}

/// The legal moves, in the order `Up, Down, Left, Right`.
pub open spec fn legal_moves(s: SnakeView, b: BoardView, our_team: bool) -> Seq<Movement> {
    keep_if(Movement::Up, allowed(s, b, our_team, Movement::Up))
        + keep_if(Movement::Down, allowed(s, b, our_team, Movement::Down))
        + keep_if(Movement::Left, allowed(s, b, our_team, Movement::Left))
        + keep_if(Movement::Right, allowed(s, b, our_team, Movement::Right))
}


/// Whether `body` holds `p`.
pub(crate) fn body_contains(body: &std::collections::VecDeque<Coord>, p: Coord) -> (r: bool)
    ensures
        r == body@.contains(p),
{
    let mut k: usize = 0;
    while k < body.len()
        invariant
            0 <= k <= body@.len(),
            forall|j: int| 0 <= j < k ==> body@[j] != p,
        decreases body@.len() - k,
    {
        if body[k] == p {
            return true;
        }
        k = k + 1;
    }
    false
}

/// Whether moving from `coord` by `movement` leaves the board.
pub fn simple_out_of_bounds(coord: &Coord, movement: &Movement) -> (r: bool)
    ensures
        r == leaves_board(*coord, *movement),
{
    match movement {
        Movement::Up => coord.y == 10,
        Movement::Down => coord.y == 0,
        Movement::Left => coord.x == 0,
        Movement::Right => coord.x == 10,
        Movement::Stay => coord.x < 0 || coord.x > 10 || coord.y < 0 || coord.y > 10,
    }
}

impl SimpleSnake {
    /// A snake with the given body (head first) and health.
    pub fn new(body: &Vec<Coord>, health: i32) -> (r: SimpleSnake)
        ensures
            r@.body == body@,
            r@.health == health,
    {
        let mut deque: std::collections::VecDeque<Coord> = std::collections::VecDeque::new();
        let mut k: usize = 0;
        while k < body.len()
            invariant
                0 <= k <= body@.len(),
                deque@ == body@.take(k as int),
            decreases body@.len() - k,
        {
            deque.push_back(body[k]);
            k = k + 1;
            assert(deque@ =~= body@.take(k as int));
        }
        assert(body@.take(body@.len() as int) =~= body@);
        SimpleSnake { health, body: deque }
    }

    /// A copy of this snake.
    pub fn duplicate(&self) -> (r: SimpleSnake)
        ensures
            r@ == self@,
    {
        let mut deque: std::collections::VecDeque<Coord> = std::collections::VecDeque::new();
        let mut k: usize = 0;
        while k < self.body.len()
            invariant
                0 <= k <= self.body@.len(),
                deque@ == self.body@.take(k as int),
            decreases self.body@.len() - k,
        {
            deque.push_back(self.body[k]);
            k = k + 1;
            assert(deque@ =~= self.body@.take(k as int));
        }
        assert(self.body@.take(self.body@.len() as int) =~= self.body@);
        SimpleSnake { health: self.health, body: deque }
    }

    /// The cell that `movement` takes the head to.
    pub fn next_position(&self, movement: Movement) -> (r: Coord)
        requires
            self.body@.len() >= 1,
            steppable(self@.head()),
        ensures
            r == step(self@.head(), movement),
    {
        let head = self.body[0];
        match movement {
            Movement::Up => Coord { x: head.x, y: head.y + 1 },
            Movement::Down => Coord { x: head.x, y: head.y - 1 },
            Movement::Left => Coord { x: head.x - 1, y: head.y },
            Movement::Right => Coord { x: head.x + 1, y: head.y },
            Movement::Stay => head,
        }
    }

    /// Whether `movement` takes the head onto the snake's own body.
    pub fn collision_with_body(&self, movement: Movement) -> (r: bool)
        requires
            self.body@.len() >= 1,
            steppable(self@.head()),
        ensures
            r == self.body@.contains(step(self@.head(), movement)),
    {
        let next_pos = self.next_position(movement);
        body_contains(&self.body, next_pos)
    }
}

impl SimpleBoard {
    /// A board with empty memoized values.
    pub fn new(food: Vec<Coord>, snakes: Vec<Option<SimpleSnake>>, team: [usize; 2], opps: [usize; 2]) -> (r: SimpleBoard)
        ensures
            r.food@ == food@,
            r.snakes@ == snakes@,
            r.team == team,
            r.opps == opps,
            r.stored_fast_heuristic.is_none(),
            r.stored_flood_fill_heuristic.is_none(),
    {
        SimpleBoard { food, snakes, team, opps, stored_fast_heuristic: None, stored_flood_fill_heuristic: None }
    }

    /// The view of slot `i` is the view of the snake stored there.
    pub proof fn lemma_slot_view(&self, i: int)
        requires
            0 <= i < self.snakes@.len(),
        ensures
            self@.snakes[i] == snake_view_of(self.snakes@[i]),
            self@.live(i) == self.snakes@[i].is_some(),
            self.snakes@[i].is_some() ==> self@.snake(i) == self.snakes@[i].unwrap()@,
    {
    }

    fn tail_at(&self, i: usize, p: Coord) -> (r: bool)
        requires
            self@.wf(),
            i < 4,
        ensures
            r == self@.tail_at(i as int, p),
    {
        proof { self.lemma_slot_view(i as int); }
        match &self.snakes[i] {
            Some(s) => {
                assert(self@.live(i as int));
                s.body[s.body.len() - 1] == p
            },
            None => false,
        }
    }

    fn food_near(&self, h: Coord) -> (r: bool)
        ensures
            r == self@.food_near(h),
    {
        let mut k: usize = 0;
        while k < self.food.len()
            invariant
                0 <= k <= self.food@.len(),
                forall|j: int| 0 <= j < k ==> !(in_bounds(#[trigger] self.food@[j]) && adjacent(self.food@[j], h)),
            decreases self.food@.len() - k,
        {
            let f = self.food[k];
            let dx: i64 = if f.x >= h.x { f.x as i64 - h.x as i64 } else { h.x as i64 - f.x as i64 };
            let dy: i64 = if f.y >= h.y { f.y as i64 - h.y as i64 } else { h.y as i64 - f.y as i64 };
            if f.x >= 0 && f.x <= 10 && f.y >= 0 && f.y <= 10 && dx + dy == 1 {
                assert(in_bounds(self@.food[k as int]) && adjacent(self@.food[k as int], h));
                assert(self@.food_near(h));
                return true;
            }
            k = k + 1;
        }
        false
    }

    fn occupied(&self, p: Coord) -> (r: bool)
        requires
            self@.wf(),
        ensures
            r == self@.occupied(p),
    {
        let mut i: usize = 0;
        while i < 4
            invariant
                self@.wf(),
                0 <= i <= 4,
                forall|j: int| 0 <= j < i ==> !(#[trigger] self@.live(j) && self@.snake(j).body.contains(p)),
            decreases 4 - i,
        {
            proof { self.lemma_slot_view(i as int); }
            match &self.snakes[i] {
                Some(s) => {
                    if body_contains(&s.body, p) {
                        assert(self@.live(i as int) && self@.snake(i as int).body.contains(p));
                        return true;
                    }
                },
                None => {},
            }
            i = i + 1;
        }
        false
    }

    fn blocks(&self, i: usize, p: Coord, len: usize) -> (r: bool)
        requires
            self@.wf(),
            i < 4,
        ensures
            r == self@.blocks(i as int, p, len as int),
    {
        proof { self.lemma_slot_view(i as int); }
        match &self.snakes[i] {
            Some(s) => {
                if s.body[0] == p && s.body.len() >= len {
                    return true;
                }
                let mut k: usize = 1;
                while k < s.body.len()
                    invariant
                        1 <= k <= s.body@.len(),
                        self@.snake(i as int).body == s.body@,
                        self@.live(i as int),
                        forall|j: int| 1 <= j < k ==> s.body@[j] != p,
                    decreases s.body@.len() - k,
                {
                    if s.body[k] == p {
                        assert(1 <= k < self@.snake(i as int).body.len() && self@.snake(i as int).body[k as int] == p);
                        assert(self@.live(i as int));
                        return true;
                    }
                    k = k + 1;
                }
                false
            },
            None => false,
        }
    }
}


impl SimpleSnake {
    /// Whether `movement` is unsafe for this snake when the team is to move:
    /// a team tail is vacated, an opponent's tail is vacated unless that
    /// opponent may eat, and any other occupied cell is unsafe.
    pub fn team_collision(&self, simple_board: &SimpleBoard, movement: Movement) -> (r: bool)
        requires
            simple_board@.wf(),
            self.body@.len() >= 1,
            steppable(self@.head()),
        ensures
            r == simple_board@.team_unsafe(step(self@.head(), movement)),
    {
        let next_pos = self.next_position(movement);
        if simple_board.tail_at(simple_board.team[0], next_pos) || simple_board.tail_at(simple_board.team[1], next_pos) {
            return false;
        }
        if simple_board.tail_at(simple_board.opps[0], next_pos) || simple_board.tail_at(simple_board.opps[1], next_pos) {
            let mut grows = false;
            let mut c: usize = 0;
            while c < 2
                invariant
                    simple_board@.wf(),
                    0 <= c <= 2,
                    grows == (
                        (0 < c && simple_board@.tail_at(simple_board.opps[0] as int, next_pos)
                            && simple_board@.food_near(simple_board@.snake(simple_board.opps[0] as int).head()))
                        || (1 < c && simple_board@.tail_at(simple_board.opps[1] as int, next_pos)
                            && simple_board@.food_near(simple_board@.snake(simple_board.opps[1] as int).head()))),
                decreases 2 - c,
            {
                let idx = simple_board.opps[c];
                proof { simple_board.lemma_slot_view(idx as int); }
                if simple_board.tail_at(idx, next_pos) {
                    match &simple_board.snakes[idx] {
                        Some(snake) => {
                            if simple_board.food_near(snake.body[0]) {
                                grows = true;
                            }
                        },
                        None => {},
                    }
                }
                c = c + 1;
            }
            return grows;
        }
        simple_board.occupied(next_pos)
    }

    /// Whether `movement` is unsafe for this snake when the opponents are
    /// to move: an opponent's tail is vacated; a body segment is unsafe, and
    /// so is a head unless this snake is strictly longer.
    pub fn opps_collision(&self, simple_board: &SimpleBoard, movement: Movement) -> (r: bool)
        requires
            simple_board@.wf(),
            self.body@.len() >= 1,
            steppable(self@.head()),
        ensures
            r == simple_board@.opp_unsafe(step(self@.head(), movement), self@.len()),
    {
        let next_pos = self.next_position(movement);
        if simple_board.tail_at(simple_board.opps[0], next_pos) || simple_board.tail_at(simple_board.opps[1], next_pos) {
            return false;
        }
        let mut i: usize = 0;
        while i < 4
            invariant
                simple_board@.wf(),
                0 <= i <= 4,
                !simple_board@.opp_tail_at(next_pos),
                next_pos == step(self@.head(), movement),
                forall|j: int| 0 <= j < i ==> !#[trigger] simple_board@.blocks(j, next_pos, self@.len()),
            decreases 4 - i,
        {
            if simple_board.blocks(i, next_pos, self.body.len()) {
                assert(simple_board@.blocks(i as int, next_pos, self@.len()));
                return true;
            }
            i = i + 1;
        }
        assert forall|j: int| !#[trigger] simple_board@.blocks(j, next_pos, self@.len()) by {
            if 0 <= j < 4 {
            } else {
                assert(!simple_board@.live(j));
            }
        }
        false
    }

    /// Whether `movement` is legal for this snake on `simple_board`.
    fn allows(&self, simple_board: &SimpleBoard, our_team: bool, movement: Movement) -> (r: bool)
        requires
            simple_board@.wf(),
            self.body@.len() >= 1,
            steppable(self@.head()),
        ensures
            r == allowed(self@, simple_board@, our_team, movement),
    {
        let head = self.body[0];
        if self.body.len() > 1 {
            let neck = self.body[1];
            let back = match movement {
                Movement::Left => neck.x < head.x,
                Movement::Right => neck.x > head.x,
                Movement::Down => neck.y < head.y,
                Movement::Up => neck.y > head.y,
                Movement::Stay => false,
            };
            if back {
                return false;
            }
        }
        if simple_out_of_bounds(&head, &movement) {
            return false;
        }
        if our_team {
            !self.team_collision(simple_board, movement)
        } else {
            !self.opps_collision(simple_board, movement)
        }
    }

    /// The legal moves of this snake, in the order `Up, Down, Left, Right`:
    /// no reversal onto the neck, no step off the board, and nothing that
    /// the collision rule of the side to move (team or opponents) forbids.
    pub fn get_safe_moves(&self, simple_board: &SimpleBoard, our_team: bool) -> (r: Vec<Movement>)
        requires
            simple_board@.wf(),
            self.body@.len() >= 1,
            steppable(self@.head()),
        ensures
            r@ == legal_moves(self@, simple_board@, our_team),
            forall|m: Movement| #[trigger] r@.contains(m) ==> {
                &&& self.body@.len() > 1 ==> step(self@.head(), m) != self.body@[1]
                &&& in_bounds(self@.head()) ==> in_bounds(step(self@.head(), m))
            },
    {
        let all = Movement::all();
        let mut m_v: Vec<Movement> = Vec::new();
        let mut k: usize = 0;
        while k < 4
            invariant
                simple_board@.wf(),
                self.body@.len() >= 1,
                steppable(self@.head()),
                all@ == seq![Movement::Up, Movement::Down, Movement::Left, Movement::Right],
                0 <= k <= 4,
                k == 0 ==> m_v@ == Seq::<Movement>::empty(),
                k == 1 ==> m_v@ == keep_if(Movement::Up, allowed(self@, simple_board@, our_team, Movement::Up)),
                k == 2 ==> m_v@ == keep_if(Movement::Up, allowed(self@, simple_board@, our_team, Movement::Up))
                    + keep_if(Movement::Down, allowed(self@, simple_board@, our_team, Movement::Down)),
                k == 3 ==> m_v@ == keep_if(Movement::Up, allowed(self@, simple_board@, our_team, Movement::Up))
                    + keep_if(Movement::Down, allowed(self@, simple_board@, our_team, Movement::Down))
                    + keep_if(Movement::Left, allowed(self@, simple_board@, our_team, Movement::Left)),
                k == 4 ==> m_v@ == legal_moves(self@, simple_board@, our_team),
            decreases 4 - k,
        {
            let m = all[k];
            let ghost before = m_v@;
            if self.allows(simple_board, our_team, m) {
                m_v.push(m);
            }
            assert(m_v@ =~= before + keep_if(m, allowed(self@, simple_board@, our_team, m)));
            k = k + 1;
        }
        proof {
            assert forall|m: Movement| #[trigger] m_v@.contains(m) implies {
                &&& self.body@.len() > 1 ==> step(self@.head(), m) != self.body@[1]
                &&& in_bounds(self@.head()) ==> in_bounds(step(self@.head(), m))
            } by {
                lemma_legal_moves_stay_safe(self@, simple_board@, our_team, m);
            }
        }
        m_v
    }
}


/// The moves offered to slot `i` for one ply: its legal moves, or `Down`
/// when it has none or the slot is empty.
pub open spec fn offered(b: BoardView, i: int, our_team: bool) -> Seq<Movement> {
    if b.live(i) && legal_moves(b.snake(i), b, our_team).len() > 0 {
        legal_moves(b.snake(i), b, our_team)
    } else {
        seq![Movement::Down]
    }
}

pub open spec fn tagged(i: usize, ms: Seq<Movement>) -> Seq<SnakeMove> {
    ms.map_values(|m: Movement| SnakeMove { id: i, mv: m })
}

pub open spec fn pairs_with(a: SnakeMove, bs: Seq<SnakeMove>) -> Seq<[SnakeMove; 2]> {
    bs.map_values(|y: SnakeMove| [a, y])
}

/// Every pair of one move from `a` and one from `bs`, `a` outermost.
pub open spec fn cartesian(a: Seq<SnakeMove>, bs: Seq<SnakeMove>) -> Seq<[SnakeMove; 2]>
    decreases a.len(),
{
    if a.len() == 0 {
        seq![]
    } else {
        cartesian(a.drop_last(), bs) + pairs_with(a.last(), bs)
    }
}

/// The slots of the side to move.
pub open spec fn acting(b: BoardView, our_team: bool) -> [usize; 2] {
    if our_team { b.team } else { b.opps }
}

/// Where the snake in `sm.id` puts its head.
pub open spec fn head_after(b: BoardView, sm: SnakeMove) -> Coord {
    step(b.snake(sm.id as int).head(), sm.mv)
}

/// Both snakes of a joint move are alive and would put their heads on
/// the same cell.
pub open spec fn clash(b: BoardView, jm: [SnakeMove; 2]) -> bool {
    b.live(jm[0].id as int) && b.live(jm[1].id as int) && head_after(b, jm[0]) == head_after(b, jm[1])
}

/// The candidate joint moves of one ply, before clashes are dropped.
pub open spec fn candidates(b: BoardView, our_team: bool) -> Seq<[SnakeMove; 2]> {
    let idx = acting(b, our_team);
    cartesian(
        tagged(idx[0], offered(b, idx[0] as int, our_team)),
        tagged(idx[1], offered(b, idx[1] as int, our_team)),
    )
}

/// The candidate joint moves whose heads do not clash.
pub open spec fn kept(b: BoardView, our_team: bool) -> Seq<[SnakeMove; 2]> {
    candidates(b, our_team).filter(no_clash(b))
}

pub open spec fn no_clash(b: BoardView) -> spec_fn([SnakeMove; 2]) -> bool {
    |jm: [SnakeMove; 2]| !clash(b, jm)
}

/// The joint moves that one ply yields: the kept ones, or both acting
/// snakes moving `Down` on the unchanged board when none is kept.
pub open spec fn joint_moves(b: BoardView, our_team: bool) -> Seq<[SnakeMove; 2]> {
    if kept(b, our_team).len() == 0 {
        let idx = acting(b, our_team);
        seq![[SnakeMove { id: idx[0], mv: Movement::Down }, SnakeMove { id: idx[1], mv: Movement::Down }]]
    } else {
        kept(b, our_team)
    }
}

/// A snake that moved its head to `p`: it grows by one if `p` holds food,
/// else keeps its length, and loses one health.
pub open spec fn moved(s: SnakeView, p: Coord, food: Seq<Coord>) -> SnakeView {
    SnakeView {
        health: s.health - 1,
        body: if food.contains(p) { seq![p] + s.body } else { (seq![p] + s.body).drop_last() },
    }
}

/// Food that no live acting snake of `jm` lands on.
pub open spec fn uneaten(b: BoardView, jm: [SnakeMove; 2], f: Coord) -> bool {
    &&& !(b.live(jm[0].id as int) && f == head_after(b, jm[0]))
    &&& !(b.live(jm[1].id as int) && f == head_after(b, jm[1]))
}

pub open spec fn not_eaten(b: BoardView, jm: [SnakeMove; 2]) -> spec_fn(Coord) -> bool {
    |f: Coord| uneaten(b, jm, f)
}

/// The board after the live snakes of `jm` moved, before elimination.
pub open spec fn after_moves(b: BoardView, jm: [SnakeMove; 2]) -> BoardView {
    BoardView {
        food: b.food.filter(not_eaten(b, jm)),
        snakes: Seq::new(b.snakes.len(), |i: int|
            if i == jm[0].id as int && b.live(i) {
                Option::Some(moved(b.snake(i), head_after(b, jm[0]), b.food))
            } else if i == jm[1].id as int && b.live(i) {
                Option::Some(moved(b.snake(i), head_after(b, jm[1]), b.food))
            } else {
                b.snakes[i]
            }),
        team: b.team,
        opps: b.opps,
    }
}

/// The head of snake `i` hits its own body, the body of another snake, or
/// the head of another snake at least as long.
pub open spec fn collides(b: BoardView, i: int) -> bool {
    let s = b.snake(i);
    ||| exists|k: int| 1 <= k < s.body.len() && #[trigger] s.body[k] == s.head()
    ||| exists|j: int| j != i && #[trigger] b.blocks(j, s.head(), s.len())
}

/// Snake `i` is eliminated: starved, off the board, or collided.
pub open spec fn dies(b: BoardView, i: int) -> bool {
    b.live(i) && (b.snake(i).health == 0 || !in_bounds(b.snake(i).head()) || collides(b, i))
}

/// The board with every snake that dies removed from its slot.
pub open spec fn eliminated(b: BoardView) -> BoardView {
    BoardView {
        food: b.food,
        snakes: Seq::new(b.snakes.len(), |i: int| if dies(b, i) { Option::None } else { b.snakes[i] }),
        team: b.team,
        opps: b.opps,
    }
}

/// The board after one joint move; elimination follows only an opponent ply.
pub open spec fn step_board(b: BoardView, jm: [SnakeMove; 2], our_team: bool) -> BoardView {
    if our_team { after_moves(b, jm) } else { eliminated(after_moves(b, jm)) }
}

/// The board that joint move `jm` of `joint_moves(b, our_team)` leads to.
pub open spec fn outcome(b: BoardView, jm: [SnakeMove; 2], our_team: bool) -> BoardView {
    if kept(b, our_team).len() == 0 { b } else { step_board(b, jm, our_team) }
}

/// The acting live snakes can take a step.
pub open spec fn can_step(b: BoardView, our_team: bool) -> bool {
    forall|c: int| 0 <= c < 2 && #[trigger] b.live(acting(b, our_team)[c] as int) ==> {
        let s = b.snake(acting(b, our_team)[c] as int);
        steppable(s.head()) && s.health > i32::MIN
    }
}

/// Every pair of one move from `v1` and one from `v2`, `v1` outermost.
pub fn cartesian_move(v1: &Vec<SnakeMove>, v2: &Vec<SnakeMove>) -> (r: Vec<[SnakeMove; 2]>)
    ensures
        r@ == cartesian(v1@, v2@),
{
    let mut r: Vec<[SnakeMove; 2]> = Vec::new();
    let mut i: usize = 0;
    while i < v1.len()
        invariant
            0 <= i <= v1@.len(),
            r@ == cartesian(v1@.take(i as int), v2@),
        decreases v1@.len() - i,
    {
        let m1 = v1[i];
        let mut j: usize = 0;
        while j < v2.len()
            invariant
                0 <= i < v1@.len(),
                m1 == v1@[i as int],
                0 <= j <= v2@.len(),
                r@ == cartesian(v1@.take(i as int), v2@) + pairs_with(m1, v2@.take(j as int)),
            decreases v2@.len() - j,
        {
            r.push([m1, v2[j]]);
            j = j + 1;
            assert(r@ =~= cartesian(v1@.take(i as int), v2@) + pairs_with(m1, v2@.take(j as int)));
        }
        assert(v2@.take(v2@.len() as int) =~= v2@);
        assert(v1@.take(i + 1).drop_last() =~= v1@.take(i as int));
        i = i + 1;
        assert(r@ =~= cartesian(v1@.take(i as int), v2@));
    }
    assert(v1@.take(v1@.len() as int) =~= v1@);
    r
}


proof fn lemma_cartesian_ids(a: Seq<SnakeMove>, bs: Seq<SnakeMove>, i0: usize, i1: usize)
    requires
        forall|k: int| 0 <= k < a.len() ==> (#[trigger] a[k]).id == i0,
        forall|k: int| 0 <= k < bs.len() ==> (#[trigger] bs[k]).id == i1,
    ensures
        forall|k: int| 0 <= k < cartesian(a, bs).len() ==>
            (#[trigger] cartesian(a, bs)[k])[0].id == i0 && cartesian(a, bs)[k][1].id == i1,
    decreases a.len(),
{
    if a.len() > 0 {
        lemma_cartesian_ids(a.drop_last(), bs, i0, i1);
        let c = cartesian(a.drop_last(), bs);
        let p = pairs_with(a.last(), bs);
        assert forall|k: int| 0 <= k < cartesian(a, bs).len() implies
            (#[trigger] cartesian(a, bs)[k])[0].id == i0 && cartesian(a, bs)[k][1].id == i1 by {
            if k < c.len() {
                assert(cartesian(a, bs)[k] == c[k]);
            } else {
                assert(cartesian(a, bs)[k] == p[k - c.len()]);
            }
        }
    }
}

/// Whether `food` holds `p`.
fn food_contains(food: &Vec<Coord>, p: Coord) -> (r: bool)
    ensures
        r == food@.contains(p),
{
    let mut k: usize = 0;
    while k < food.len()
        invariant
            0 <= k <= food@.len(),
            forall|j: int| 0 <= j < k ==> food@[j] != p,
        decreases food@.len() - k,
    {
        if food[k] == p {
            return true;
        }
        k = k + 1;
    }
    false
}

impl SimpleSnake {
    /// This snake after moving its head to `p` on a board holding `food`.
    fn moved_to(&self, p: Coord, food: &Vec<Coord>) -> (r: SimpleSnake)
        requires
            self.body@.len() >= 1,
            self.health > i32::MIN,
        ensures
            r@ == moved(self@, p, food@),
    {
        let mut s = self.duplicate();
        s.body.push_front(p);
        if !food_contains(food, p) {
            s.body.pop_back();
        }
        s.health = s.health - 1;
        assert(s@.body =~= moved(self@, p, food@).body);
        s
    }

    /// Whether this snake, standing in `slot` of `simple_board`, has run its
    /// head into its own body, another snake's body, or the head of a snake
    /// at least as long.
    pub fn collision_with_snakes(&self, simple_board: &SimpleBoard, slot: usize) -> (r: bool)
        requires
            simple_board@.wf(),
            slot < 4,
            simple_board@.live(slot as int),
            simple_board@.snake(slot as int) == self@,
        ensures
            r == collides(simple_board@, slot as int),
    {
        let head = self.body[0];
        let mut k: usize = 1;
        while k < self.body.len()
            invariant
                1 <= k <= self.body@.len(),
                head == self@.head(),
                simple_board@.snake(slot as int) == self@,
                forall|j: int| 1 <= j < k ==> self.body@[j] != head,
            decreases self.body@.len() - k,
        {
            if self.body[k] == head {
                assert(simple_board@.snake(slot as int).body[k as int] == simple_board@.snake(slot as int).head());
                return true;
            }
            k = k + 1;
        }
        let mut j: usize = 0;
        while j < 4
            invariant
                simple_board@.wf(),
                slot < 4,
                simple_board@.snake(slot as int) == self@,
                head == self@.head(),
                0 <= j <= 4,
                forall|q: int| 0 <= q < j && q != slot ==> !#[trigger] simple_board@.blocks(q, head, self@.len()),
            decreases 4 - j,
        {
            if j != slot && simple_board.blocks(j, head, self.body.len()) {
                assert(simple_board@.blocks(j as int, head, self@.len()));
                return true;
            }
            j = j + 1;
        }
        assert forall|q: int| q != slot implies !#[trigger] simple_board@.blocks(q, head, self@.len()) by {
            if !(0 <= q < 4) {
                assert(!simple_board@.live(q));
            }
        }
        false
    }
}

impl SimpleBoard {
    /// Whether the snake in `i` is eliminated on this board.
    fn dies(&self, i: usize) -> (r: bool)
        requires
            self@.wf(),
            i < 4,
        ensures
            r == dies(self@, i as int),
    {
        proof { self.lemma_slot_view(i as int); }
        match &self.snakes[i] {
            Some(snake) => {
                snake.health == 0 || simple_out_of_bounds(&snake.body[0], &Movement::Stay)
                    || snake.collision_with_snakes(self, i)
            },
            None => false,
        }
    }

    /// Empties the slot of every snake that starved, left the board or
    /// collided; the memoized values are dropped.
    pub fn kill_snakes(&mut self)
        requires
            old(self)@.wf(),
        ensures
            final(self)@ == eliminated(old(self)@),
            final(self).stored_fast_heuristic.is_none(),
            final(self).stored_flood_fill_heuristic.is_none(),
    {
        let mut kill: Vec<bool> = Vec::new();
        let mut i: usize = 0;
        while i < 4
            invariant
                self@.wf(),
                0 <= i <= 4,
                kill@.len() == i,
                forall|j: int| 0 <= j < i ==> kill@[j] == dies(self@, j),
            decreases 4 - i,
        {
            kill.push(self.dies(i));
            i = i + 1;
        }
        let ghost before = self@;
        assert forall|j: int| 0 <= j < 4 implies snake_view_of(#[trigger] self.snakes@[j]) == before.snakes[j] by {
            self.lemma_slot_view(j);
        }
        let mut i: usize = 0;
        while i < 4
            invariant
                before.wf(),
                0 <= i <= 4,
                kill@.len() == 4,
                forall|j: int| 0 <= j < 4 ==> kill@[j] == dies(before, j),
                self.snakes@.len() == 4,
                self.food@ == before.food,
                self.team == before.team,
                self.opps == before.opps,
                forall|j: int| 0 <= j < i ==> snake_view_of(#[trigger] self.snakes@[j]) == eliminated(before).snakes[j],
                forall|j: int| i <= j < 4 ==> snake_view_of(#[trigger] self.snakes@[j]) == before.snakes[j],
            decreases 4 - i,
        {
            if kill[i] {
                self.snakes.set(i, None);
            }
            i = i + 1;
        }
        self.stored_fast_heuristic = None;
        self.stored_flood_fill_heuristic = None;
        assert forall|j: int| 0 <= j < 4 implies #[trigger] self@.snakes[j] == eliminated(before).snakes[j] by {
            self.lemma_slot_view(j);
        }
        assert(self@.snakes =~= eliminated(before).snakes);
    }
}


impl SimpleBoard {
    /// The moves offered to slot `i` for one ply, tagged with the slot.
    fn offered_moves(&self, i: usize, our_team: bool) -> (r: Vec<SnakeMove>)
        requires
            self@.wf(),
            i < 4,
            self@.live(i as int) ==> steppable(self@.snake(i as int).head()),
        ensures
            r@ == tagged(i, offered(self@, i as int, our_team)),
    {
        proof { self.lemma_slot_view(i as int); }
        let ms: Vec<Movement> = match &self.snakes[i] {
            Some(s) => {
                let m = s.get_safe_moves(self, our_team);
                if m.len() == 0 {
                    vec![Movement::Down]
                } else {
                    m
                }
            },
            None => vec![Movement::Down],
        };
        assert(ms@ =~= offered(self@, i as int, our_team));
        let mut r: Vec<SnakeMove> = Vec::new();
        let mut k: usize = 0;
        while k < ms.len()
            invariant
                0 <= k <= ms@.len(),
                r@ == tagged(i, ms@.take(k as int)),
            decreases ms@.len() - k,
        {
            r.push(SnakeMove { id: i, mv: ms[k] });
            k = k + 1;
            assert(r@ =~= tagged(i, ms@.take(k as int)));
        }
        assert(ms@.take(ms@.len() as int) =~= ms@);
        r
    }

    /// A copy of this board with empty memoized values.
    pub fn duplicate(&self) -> (r: SimpleBoard)
        ensures
            r@ == self@,
            r.stored_fast_heuristic.is_none(),
            r.stored_flood_fill_heuristic.is_none(),
    {
        let mut food: Vec<Coord> = Vec::new();
        let mut k: usize = 0;
        while k < self.food.len()
            invariant
                0 <= k <= self.food@.len(),
                food@ == self.food@.take(k as int),
            decreases self.food@.len() - k,
        {
            food.push(self.food[k]);
            k = k + 1;
            assert(food@ =~= self.food@.take(k as int));
        }
        assert(self.food@.take(self.food@.len() as int) =~= self.food@);
        let mut snakes: Vec<Option<SimpleSnake>> = Vec::new();
        let mut i: usize = 0;
        while i < self.snakes.len()
            invariant
                0 <= i <= self.snakes@.len(),
                snakes@.len() == i,
                forall|j: int| 0 <= j < i ==> snake_view_of(#[trigger] snakes@[j]) == snake_view_of(self.snakes@[j]),
            decreases self.snakes@.len() - i,
        {
            let next: Option<SimpleSnake> = match &self.snakes[i] {
                Some(s) => Some(s.duplicate()),
                None => None,
            };
            snakes.push(next);
            i = i + 1;
        }
        let r = SimpleBoard::new(food, snakes, self.team, self.opps);
        assert(r@.snakes =~= self@.snakes);
        r
    }

    /// The head cell that `sm` leads to, for a live snake.
    fn head_after(&self, sm: SnakeMove) -> (r: Coord)
        requires
            self@.wf(),
            sm.id < 4,
            self@.live(sm.id as int),
            steppable(self@.snake(sm.id as int).head()),
        ensures
            r == head_after(self@, sm),
    {
        proof { self.lemma_slot_view(sm.id as int); }
        match &self.snakes[sm.id] {
            Some(s) => s.next_position(sm.mv),
            None => Coord { x: 0, y: 0 },
        }
    }

    fn is_live(&self, i: usize) -> (r: bool)
        requires
            self@.wf(),
            i < 4,
        ensures
            r == self@.live(i as int),
    {
        proof { self.lemma_slot_view(i as int); }
        self.snakes[i].is_some()
    }

    /// Whether both snakes of `m` are alive and their heads would meet.
    fn clashes(&self, m: [SnakeMove; 2]) -> (r: bool)
        requires
            self@.wf(),
            m[0].id < 4,
            m[1].id < 4,
            self@.live(m[0].id as int) ==> steppable(self@.snake(m[0].id as int).head()),
            self@.live(m[1].id as int) ==> steppable(self@.snake(m[1].id as int).head()),
        ensures
            r == clash(self@, m),
    {
        if self.is_live(m[0].id) && self.is_live(m[1].id) {
            self.head_after(m[0]) == self.head_after(m[1])
        } else {
            false
        }
    }

    /// The board after joint move `m`, eliminated when `our_team` is false.
    fn apply_moves(&self, m: [SnakeMove; 2], our_team: bool) -> (r: SimpleBoard)
        requires
            self@.wf(),
            m[0].id < 4,
            m[1].id < 4,
            m[0].id != m[1].id,
            forall|c: int| 0 <= c < 2 && #[trigger] self@.live(m[c].id as int) ==> {
                let s = self@.snake(m[c].id as int);
                steppable(s.head()) && s.health > i32::MIN
            },
        ensures
            r@ == step_board(self@, m, our_team),
            r.stored_fast_heuristic.is_none(),
            r.stored_flood_fill_heuristic.is_none(),
    {
        let ghost b = self@;
        let ghost target = after_moves(b, m);
        let live0 = self.is_live(m[0].id);
        let live1 = self.is_live(m[1].id);
        assert(live0 ==> self@.live(m[0].id as int));
        assert(live1 ==> self@.live(m[1].id as int));
        let p0 = if live0 { self.head_after(m[0]) } else { Coord { x: 0, y: 0 } };
        let p1 = if live1 { self.head_after(m[1]) } else { Coord { x: 0, y: 0 } };
        let mut snakes: Vec<Option<SimpleSnake>> = Vec::new();
        let mut i: usize = 0;
        while i < 4
            invariant
                self@ == b,
                b.wf(),
                m[0].id < 4 && m[1].id < 4,
                target == after_moves(b, m),
                live0 == b.live(m[0].id as int),
                live1 == b.live(m[1].id as int),
                live0 ==> p0 == head_after(b, m[0]) && b.snake(m[0].id as int).health > i32::MIN,
                live1 ==> p1 == head_after(b, m[1]) && b.snake(m[1].id as int).health > i32::MIN,
                0 <= i <= 4,
                snakes@.len() == i,
                forall|j: int| 0 <= j < i ==> snake_view_of(#[trigger] snakes@[j]) == target.snakes[j],
            decreases 4 - i,
        {
            proof { self.lemma_slot_view(i as int); }
            let next: Option<SimpleSnake> = match &self.snakes[i] {
                Some(s) => {
                    if i == m[0].id {
                        Some(s.moved_to(p0, &self.food))
                    } else if i == m[1].id {
                        Some(s.moved_to(p1, &self.food))
                    } else {
                        Some(s.duplicate())
                    }
                },
                None => None,
            };
            snakes.push(next);
            i = i + 1;
        }
        let mut food: Vec<Coord> = Vec::new();
        let mut k: usize = 0;
        while k < self.food.len()
            invariant
                self@ == b,
                live0 == b.live(m[0].id as int),
                live1 == b.live(m[1].id as int),
                live0 ==> p0 == head_after(b, m[0]),
                live1 ==> p1 == head_after(b, m[1]),
                0 <= k <= self.food@.len(),
                food@ == self.food@.take(k as int).filter(not_eaten(b, m)),
            decreases self.food@.len() - k,
        {
            let f = self.food[k];
            let ghost before = food@;
            if !(live0 && f == p0) && !(live1 && f == p1) {
                food.push(f);
            }
            proof {
                let t = self.food@.take(k + 1);
                assert(t.drop_last() =~= self.food@.take(k as int));
                assert(t.last() == f);
                reveal(Seq::filter);
                assert(t.filter(not_eaten(b, m)) == if not_eaten(b, m)(f) { before.push(f) } else { before });
            }
            k = k + 1;
        }
        assert(self.food@.take(self.food@.len() as int) =~= self.food@);
        let mut next_board = SimpleBoard::new(food, snakes, self.team, self.opps);
        assert forall|j: int| 0 <= j < 4 implies #[trigger] next_board@.snakes[j] == target.snakes[j] by {
            next_board.lemma_slot_view(j);
        }
        assert(next_board@.snakes =~= target.snakes);
        assert(next_board@ == target);
        if !our_team {
            assert forall|j: int| #[trigger] target.live(j) implies target.snake(j).body.len() >= 1 by {
                assert(b.live(j));
            }
            next_board.kill_snakes();
        }
        next_board
    }

    /// Every joint move of the side to move (the team when `our_team`,
    /// else the opponents) with the board it leads to. Joint moves whose
    /// two live snakes would meet head to head are left out; when none is
    /// left, both acting snakes move `Down` on the unchanged board. After an
    /// opponent ply the dead are eliminated; after a team ply they are not.
    /// Each resulting board starts with empty memoized values.
    pub fn simulate_move(&self, our_team: bool) -> (r: Vec<([SnakeMove; 2], SimpleBoard)>)
        requires
            self@.wf(),
            can_step(self@, our_team),
        ensures
            r@.len() == joint_moves(self@, our_team).len(),
            forall|k: int| 0 <= k < r@.len() ==> {
                &&& (#[trigger] r@[k]).0 == joint_moves(self@, our_team)[k]
                &&& r@[k].1@ == outcome(self@, r@[k].0, our_team)
                &&& r@[k].1.stored_fast_heuristic.is_none()
                &&& r@[k].1.stored_flood_fill_heuristic.is_none()
            },
            kept(self@, our_team).len() > 0 ==> forall|k: int, c: int|
                0 <= k < r@.len() && 0 <= c < 2 && self@.live((#[trigger] r@[k].0[c]).id as int)
                    && r@[k].1@.live(r@[k].0[c].id as int) ==>
                    r@[k].1@.snake(r@[k].0[c].id as int)
                        == moved(self@.snake(r@[k].0[c].id as int), head_after(self@, r@[k].0[c]), self@.food),
            our_team ==> forall|k: int, i: int| 0 <= k < r@.len() && self@.live(i) ==> #[trigger] r@[k].1@.live(i),
    {
        let ghost b = self@;
        let idx = if our_team { self.team } else { self.opps };
        assert(idx == acting(b, our_team));
        assert(b.live(idx[0] as int) ==> steppable(b.snake(idx[0] as int).head()));
        assert(b.live(idx[1] as int) ==> steppable(b.snake(idx[1] as int).head()));
        let moves0 = self.offered_moves(idx[0], our_team);
        let moves1 = self.offered_moves(idx[1], our_team);
        let team_moves = cartesian_move(&moves0, &moves1);
        proof {
            lemma_cartesian_ids(moves0@, moves1@, idx[0], idx[1]);
        }
        assert(team_moves@ == candidates(b, our_team));
        let mut simulations: Vec<([SnakeMove; 2], SimpleBoard)> = Vec::new();
        let mut k: usize = 0;
        while k < team_moves.len()
            invariant
                self@ == b,
                b.wf(),
                can_step(b, our_team),
                idx == acting(b, our_team),
                team_moves@ == candidates(b, our_team),
                forall|q: int| 0 <= q < team_moves@.len() ==>
                    (#[trigger] team_moves@[q])[0].id == idx[0] && team_moves@[q][1].id == idx[1],
                0 <= k <= team_moves@.len(),
                simulations@.len() == team_moves@.take(k as int).filter(no_clash(b)).len(),
                forall|q: int| 0 <= q < simulations@.len() ==> {
                    &&& (#[trigger] simulations@[q]).0 == team_moves@.take(k as int).filter(no_clash(b))[q]
                    &&& simulations@[q].1@ == step_board(b, simulations@[q].0, our_team)
                    &&& simulations@[q].1.stored_fast_heuristic.is_none()
                    &&& simulations@[q].1.stored_flood_fill_heuristic.is_none()
                },
            decreases team_moves@.len() - k,
        {
            let m = team_moves[k];
            let ghost kept_before = team_moves@.take(k as int).filter(no_clash(b));
            assert(m[0].id == idx[0] && m[1].id == idx[1]);
            assert(b.live(m[0].id as int) ==> steppable(b.snake(m[0].id as int).head()));
            assert(b.live(m[1].id as int) ==> steppable(b.snake(m[1].id as int).head()));
            let c = self.clashes(m);
            if !c {
                let next_board = self.apply_moves(m, our_team);
                simulations.push((m, next_board));
            }
            proof {
                let t = team_moves@.take(k + 1);
                assert(t.drop_last() =~= team_moves@.take(k as int));
                assert(t.last() == m);
                reveal(Seq::filter);
                assert(t.filter(no_clash(b)) == if no_clash(b)(m) { kept_before.push(m) } else { kept_before });
            }
            k = k + 1;
        }
        assert(team_moves@.take(team_moves@.len() as int) =~= team_moves@);
        if simulations.len() == 0 {
            let mut only: Vec<([SnakeMove; 2], SimpleBoard)> = Vec::new();
            let down = [SnakeMove { id: idx[0], mv: Movement::Down }, SnakeMove { id: idx[1], mv: Movement::Down }];
            only.push((down, self.duplicate()));
            proof {
                lemma_joint_moves_nonempty(b, our_team);
            }
            return only;
        }
        proof {
            assert forall|k: int, c: int|
                0 <= k < simulations@.len() && 0 <= c < 2 && b.live((#[trigger] simulations@[k].0[c]).id as int)
                    && simulations@[k].1@.live(simulations@[k].0[c].id as int) implies
                    simulations@[k].1@.snake(simulations@[k].0[c].id as int)
                        == moved(b.snake(simulations@[k].0[c].id as int), head_after(b, simulations@[k].0[c]), b.food) by {
                assert(kept(b, our_team).len() > 0);
                lemma_simulate_lengths(b, our_team, k, c);
            }
            if our_team {
                assert forall|k: int, i: int| 0 <= k < simulations@.len() && b.live(i) implies #[trigger] simulations@[k].1@.live(i) by {
                    lemma_team_ply_keeps_snakes(b, k, i);
                }
            }
        }
        simulations
    }
}


/// A legal move never puts the head back onto the neck, and from a head on
/// the board it never leaves the board.
pub proof fn lemma_legal_moves_stay_safe(s: SnakeView, b: BoardView, our_team: bool, m: Movement)
    requires
        s.body.len() >= 1,
        steppable(s.head()),
        legal_moves(s, b, our_team).contains(m),
    ensures
        s.body.len() > 1 ==> step(s.head(), m) != s.body[1],
        in_bounds(s.head()) ==> in_bounds(step(s.head(), m)),
{
    let l = legal_moves(s, b, our_team);
    let k = choose|k: int| 0 <= k < l.len() && l[k] == m;
    assert(allowed(s, b, our_team, m) && m != Movement::Stay) by {
        let u = keep_if(Movement::Up, allowed(s, b, our_team, Movement::Up));
        let d = keep_if(Movement::Down, allowed(s, b, our_team, Movement::Down));
        let lf = keep_if(Movement::Left, allowed(s, b, our_team, Movement::Left));
        let rt = keep_if(Movement::Right, allowed(s, b, our_team, Movement::Right));
        assert(l == u + d + lf + rt);
        if k < u.len() {
            assert(l[k] == u[k]);
        } else if k < u.len() + d.len() {
            assert(l[k] == d[k - u.len()]);
        } else if k < u.len() + d.len() + lf.len() {
            assert(l[k] == lf[k - u.len() - d.len()]);
        } else {
            assert(l[k] == rt[k - u.len() - d.len() - lf.len()]);
        }
    }
}

/// The joint moves of one ply move the two acting slots, one move each.
pub proof fn lemma_joint_move_slots(b: BoardView, our_team: bool, k: int)
    requires
        b.wf(),
        0 <= k < joint_moves(b, our_team).len(),
    ensures
        joint_moves(b, our_team)[k][0].id == acting(b, our_team)[0],
        joint_moves(b, our_team)[k][1].id == acting(b, our_team)[1],
        acting(b, our_team)[0] != acting(b, our_team)[1],
{
    let idx = acting(b, our_team);
    let a = tagged(idx[0], offered(b, idx[0] as int, our_team));
    let bs = tagged(idx[1], offered(b, idx[1] as int, our_team));
    lemma_cartesian_ids(a, bs, idx[0], idx[1]);
    if kept(b, our_team).len() > 0 {
        let jm = kept(b, our_team)[k];
        assert(kept(b, our_team).contains(jm));
        candidates(b, our_team).lemma_filter_contains_rev(no_clash(b), jm);
        let q = choose|q: int| 0 <= q < candidates(b, our_team).len() && candidates(b, our_team)[q] == jm;
        assert(candidates(b, our_team)[q] == jm);
    }
}

/// In a ply that moves snakes, each acting snake that is alive afterwards
/// has its head on the cell it moved to, is one segment longer if that
/// cell held food and as long as before otherwise, and has one health less.
pub proof fn lemma_simulate_lengths(b: BoardView, our_team: bool, k: int, c: int)
    requires
        b.wf(),
        kept(b, our_team).len() > 0,
        0 <= k < joint_moves(b, our_team).len(),
        0 <= c < 2,
        b.live(joint_moves(b, our_team)[k][c].id as int),
        outcome(b, joint_moves(b, our_team)[k], our_team).live(joint_moves(b, our_team)[k][c].id as int),
    ensures ({
        let jm = joint_moves(b, our_team)[k];
        let i = jm[c].id as int;
        let before = b.snake(i);
        let after = outcome(b, jm, our_team).snake(i);
        &&& after.head() == head_after(b, jm[c])
        &&& after.len() == before.len() + if b.food.contains(head_after(b, jm[c])) { 1int } else { 0int }
        &&& after.health == before.health - 1
        &&& after == moved(before, head_after(b, jm[c]), b.food)
    }),
{
    lemma_joint_move_slots(b, our_team, k);
    let jm = joint_moves(b, our_team)[k];
    let i = jm[c].id as int;
    let a = after_moves(b, jm);
    assert(a.snakes[i] == Option::Some(moved(b.snake(i), head_after(b, jm[c]), b.food)));
    if !our_team {
        assert(eliminated(a).snakes[i] == a.snakes[i]);
    }
}

proof fn lemma_joint_moves_nonempty(b: BoardView, our_team: bool)
    requires
        kept(b, our_team).len() == 0,
    ensures
        joint_moves(b, our_team).len() == 1,
        outcome(b, joint_moves(b, our_team)[0], our_team) == b,
{
}

/// A team ply eliminates no snake: every slot that held a snake still does.
pub proof fn lemma_team_ply_keeps_snakes(b: BoardView, k: int, i: int)
    requires
        b.wf(),
        0 <= k < joint_moves(b, true).len(),
        b.live(i),
    ensures
        outcome(b, joint_moves(b, true)[k], true).live(i),
{
    if kept(b, true).len() > 0 {
        let a = after_moves(b, joint_moves(b, true)[k]);
        assert(a.snakes[i].is_some());
    }
}

/// A team snake with one health left that moves onto a cell without food
/// ends the team ply with no health, and still on the board.
pub proof fn lemma_team_ply_starving(b: BoardView, k: int, c: int)
    requires
        b.wf(),
        kept(b, true).len() > 0,
        0 <= k < joint_moves(b, true).len(),
        0 <= c < 2,
        b.live(joint_moves(b, true)[k][c].id as int),
        b.snake(joint_moves(b, true)[k][c].id as int).health == 1,
    ensures
        outcome(b, joint_moves(b, true)[k], true).live(joint_moves(b, true)[k][c].id as int),
        outcome(b, joint_moves(b, true)[k], true).snake(joint_moves(b, true)[k][c].id as int).health == 0,
{
    lemma_team_ply_keeps_snakes(b, k, joint_moves(b, true)[k][c].id as int);
    lemma_simulate_lengths(b, true, k, c);
}

/// In an opponent ply, two snakes whose heads meet after the moves, on an
/// otherwise clear cell, with health left and equal lengths, are both
/// eliminated by the elimination that follows.
pub proof fn lemma_opponent_ply_head_to_head(b: BoardView, k: int, i: int, j: int)
    requires
        b.wf(),
        kept(b, false).len() > 0,
        0 <= k < joint_moves(b, false).len(),
        ({
            let a = after_moves(b, joint_moves(b, false)[k]);
            &&& i != j
            &&& a.live(i)
            &&& a.live(j)
            &&& a.snake(i).head() == a.snake(j).head()
            &&& in_bounds(a.snake(i).head())
            &&& a.snake(i).health != 0
            &&& a.snake(j).health != 0
            &&& a.snake(i).len() == a.snake(j).len()
            &&& forall|q: int, n: int| #[trigger] a.live(q) && 1 <= n < a.snake(q).body.len() ==>
                #[trigger] a.snake(q).body[n] != a.snake(i).head()
            &&& forall|q: int| #[trigger] a.live(q) && q != i && q != j ==> a.snake(q).head() != a.snake(i).head()
        }),
    ensures
        !outcome(b, joint_moves(b, false)[k], false).live(i),
        !outcome(b, joint_moves(b, false)[k], false).live(j),
{
    let jm = joint_moves(b, false)[k];
    let a = after_moves(b, jm);
    lemma_joint_move_slots(b, false, k);
    assert forall|q: int| #[trigger] a.live(q) implies a.snake(q).body.len() >= 1 by {
        assert(b.live(q));
        if q == jm[0].id as int || q == jm[1].id as int {
            let c: int = if q == jm[0].id as int { 0 } else { 1 };
            assert(a.snakes[q] == Option::Some(moved(b.snake(q), head_after(b, jm[c]), b.food)));
        } else {
            assert(a.snakes[q] == b.snakes[q]);
        }
    }
    assert(a.wf());
    lemma_head_to_head(a, i, j);
}

/// Two snakes whose heads meet on an otherwise clear cell of the board,
/// with health left and no other segment there: equal lengths eliminate
/// both, and unequal lengths eliminate only the shorter one.
pub proof fn lemma_head_to_head(b: BoardView, i: int, j: int)
    requires
        b.wf(),
        i != j,
        b.live(i),
        b.live(j),
        b.snake(i).head() == b.snake(j).head(),
        in_bounds(b.snake(i).head()),
        b.snake(i).health != 0,
        b.snake(j).health != 0,
        forall|q: int, k: int| #[trigger] b.live(q) && 1 <= k < b.snake(q).body.len() ==>
            #[trigger] b.snake(q).body[k] != b.snake(i).head(),
        forall|q: int| #[trigger] b.live(q) && q != i && q != j ==> b.snake(q).head() != b.snake(i).head(),
    ensures
        b.snake(i).len() == b.snake(j).len() ==> !eliminated(b).live(i) && !eliminated(b).live(j),
        b.snake(i).len() < b.snake(j).len() ==> !eliminated(b).live(i) && eliminated(b).live(j),
        b.snake(j).len() < b.snake(i).len() ==> !eliminated(b).live(j) && eliminated(b).live(i),
{
    let h = b.snake(i).head();
    assert(b.snake(i).len() >= b.snake(j).len() ==> b.blocks(i, h, b.snake(j).len()));
    assert(b.snake(j).len() >= b.snake(i).len() ==> b.blocks(j, h, b.snake(i).len()));
    assert(b.snake(i).len() < b.snake(j).len() ==> !collides(b, j)) by {
        if b.snake(i).len() < b.snake(j).len() {
            assert forall|q: int| q != j implies !#[trigger] b.blocks(q, h, b.snake(j).len()) by {
                if b.live(q) {
                    assert forall|k: int| 1 <= k < b.snake(q).body.len() implies #[trigger] b.snake(q).body[k] != h by {
                        assert(b.live(q) && 1 <= k < b.snake(q).body.len());
                    }
                }
            }
            assert forall|k: int| 1 <= k < b.snake(j).body.len() implies #[trigger] b.snake(j).body[k] != h by {
                assert(b.live(j) && 1 <= k < b.snake(j).body.len());
            }
        }
    }
    assert(b.snake(j).len() < b.snake(i).len() ==> !collides(b, i)) by {
        if b.snake(j).len() < b.snake(i).len() {
            assert forall|q: int| q != i implies !#[trigger] b.blocks(q, h, b.snake(i).len()) by {
                if b.live(q) {
                    assert forall|k: int| 1 <= k < b.snake(q).body.len() implies #[trigger] b.snake(q).body[k] != h by {
                        assert(b.live(q) && 1 <= k < b.snake(q).body.len());
                    }
                }
            }
            assert forall|k: int| 1 <= k < b.snake(i).body.len() implies #[trigger] b.snake(i).body[k] != h by {
                assert(b.live(i) && 1 <= k < b.snake(i).body.len());
            }
        }
    }
    assert(eliminated(b).snakes[i] == if dies(b, i) { Option::<SnakeView>::None } else { b.snakes[i] });
    assert(eliminated(b).snakes[j] == if dies(b, j) { Option::<SnakeView>::None } else { b.snakes[j] });
}


/// The snake's identifier is one of the two teammates'.
pub open spec fn is_agent(gi: &GameInfo, id: Seq<char>) -> bool {
    gi.agent_ids[0]@ == id || gi.agent_ids[1]@ == id
}

/// The indices below `n` of the snakes that are teammates (`team`) or not.
pub open spec fn side_indices(snakes: Seq<Battlesnake>, gi: &GameInfo, team: bool, n: int) -> Seq<usize>
    decreases n,
{
    if n <= 0 {
        seq![]
    } else {
        side_indices(snakes, gi, team, n - 1)
            + if is_agent(gi, snakes[n - 1].id@) == team { seq![(n - 1) as usize] } else { seq![] }
    }
}

/// The board has room for its snakes: at most two teammates and at most
/// two others.
pub open spec fn fits_slots(board: &Board, gi: &GameInfo) -> bool {
    &&& side_indices(board.snakes@, gi, true, board.snakes@.len() as int).len() <= 2
    &&& side_indices(board.snakes@, gi, false, board.snakes@.len() as int).len() <= 2
}

pub open spec fn view_of_wire(s: Battlesnake) -> SnakeView {
    SnakeView { health: s.health as int, body: s.body@ }
}

/// Slot `c` of a side whose snakes stand at `found`, the empty slots of
/// that side numbered from `pad`.
pub open spec fn slot_of(found: Seq<usize>, c: int, pad: int) -> usize {
    if c < found.len() { found[c] } else { (pad + c - found.len()) as usize }
}

/// The compact board of a game-server board: snakes keep their order, the
/// teammates' slots come first, and the empty slots follow, the team's
/// before the opponents'.
pub open spec fn board_from(board: &Board, gi: &GameInfo) -> BoardView {
    let n = board.snakes@.len() as int;
    let t = side_indices(board.snakes@, gi, true, n);
    let o = side_indices(board.snakes@, gi, false, n);
    BoardView {
        food: board.food@,
        snakes: Seq::new(4, |i: int| if i < n { Option::Some(view_of_wire(board.snakes@[i])) } else { Option::None }),
        team: [slot_of(t, 0, n), slot_of(t, 1, n)],
        opps: [slot_of(o, 0, n + 2 - t.len()), slot_of(o, 1, n + 2 - t.len())],
    }
}

/// The teammates and the others below `n` together number `n`; each list
/// is increasing and holds only indices of its side.
pub proof fn lemma_sides(snakes: Seq<Battlesnake>, gi: &GameInfo, n: int)
    requires
        0 <= n <= snakes.len(),
        snakes.len() <= usize::MAX,
    ensures
        side_indices(snakes, gi, true, n).len() + side_indices(snakes, gi, false, n).len() == n,
        forall|k: int| 0 <= k < side_indices(snakes, gi, true, n).len() ==>
            #[trigger] side_indices(snakes, gi, true, n)[k] < n
            && is_agent(gi, snakes[side_indices(snakes, gi, true, n)[k] as int].id@),
        forall|k: int| 0 <= k < side_indices(snakes, gi, false, n).len() ==>
            #[trigger] side_indices(snakes, gi, false, n)[k] < n
            && !is_agent(gi, snakes[side_indices(snakes, gi, false, n)[k] as int].id@),
        forall|k: int, l: int| 0 <= k < l < side_indices(snakes, gi, true, n).len() ==>
            side_indices(snakes, gi, true, n)[k] < side_indices(snakes, gi, true, n)[l],
        forall|k: int, l: int| 0 <= k < l < side_indices(snakes, gi, false, n).len() ==>
            side_indices(snakes, gi, false, n)[k] < side_indices(snakes, gi, false, n)[l],
    decreases n,
{
    if n > 0 {
        lemma_sides(snakes, gi, n - 1);
        let ag = is_agent(gi, snakes[n - 1].id@);
        let tp = side_indices(snakes, gi, true, n - 1);
        let op = side_indices(snakes, gi, false, n - 1);
        let extra: Seq<usize> = seq![(n - 1) as usize];
        if ag {
            assert(side_indices(snakes, gi, true, n) == tp + extra);
            assert(side_indices(snakes, gi, false, n) == op + Seq::<usize>::empty());
            assert(op + Seq::<usize>::empty() =~= op);
        } else {
            assert(side_indices(snakes, gi, false, n) == op + extra);
            assert(side_indices(snakes, gi, true, n) == tp + Seq::<usize>::empty());
            assert(tp + Seq::<usize>::empty() =~= tp);
        }
        assert forall|k: int| 0 <= k < side_indices(snakes, gi, true, n).len() implies
            #[trigger] side_indices(snakes, gi, true, n)[k] < n
            && is_agent(gi, snakes[side_indices(snakes, gi, true, n)[k] as int].id@) by {
            if k < tp.len() {
                assert(side_indices(snakes, gi, true, n)[k] == tp[k]);
            }
        }
        assert forall|k: int| 0 <= k < side_indices(snakes, gi, false, n).len() implies
            #[trigger] side_indices(snakes, gi, false, n)[k] < n
            && !is_agent(gi, snakes[side_indices(snakes, gi, false, n)[k] as int].id@) by {
            if k < op.len() {
                assert(side_indices(snakes, gi, false, n)[k] == op[k]);
            }
        }
    }
}

impl SimpleSnake {
    /// The compact form of a game-server snake.
    pub fn from(snake: &Battlesnake) -> (r: SimpleSnake)
        ensures
            r@ == view_of_wire(*snake),
    {
        SimpleSnake::new(&snake.body, snake.health)
    }
}

impl SimpleBoard {
    fn is_teammate(game_info: &GameInfo, id: &String) -> (r: bool)
        ensures
            r == is_agent(game_info, id@),
    {
        game_info.agent_ids[0] == *id || game_info.agent_ids[1] == *id
    }

    /// The compact board of a game-server board (see `board_from`), with
    /// empty memoized values.
    pub fn from(board: &Board, game_info: &GameInfo) -> (r: SimpleBoard)
        requires
            fits_slots(board, game_info),
        ensures
            r@ == board_from(board, game_info),
            r.stored_fast_heuristic.is_none(),
            r.stored_flood_fill_heuristic.is_none(),
    {
        let total: usize = board.snakes.len();
        let ghost n = total as int;
        let mut snakes: Vec<Option<SimpleSnake>> = Vec::new();
        let mut team: [usize; 2] = [10, 10];
        let mut opps: [usize; 2] = [10, 10];
        let mut friendly_count: usize = 0;
        let mut enemy_count: usize = 0;
        let mut idx: usize = 0;
        proof { lemma_sides(board.snakes@, game_info, n); }
        while idx < board.snakes.len()
            invariant
                fits_slots(board, game_info),
                n == board.snakes@.len(),
                0 <= idx <= n,
                snakes@.len() == idx,
                forall|j: int| 0 <= j < idx ==> snake_view_of(#[trigger] snakes@[j]) == Option::Some(view_of_wire(board.snakes@[j])),
                friendly_count == side_indices(board.snakes@, game_info, true, idx as int).len(),
                enemy_count == side_indices(board.snakes@, game_info, false, idx as int).len(),
                friendly_count <= 2,
                enemy_count <= 2,
                forall|c: int| 0 <= c < friendly_count ==> team[c] == side_indices(board.snakes@, game_info, true, idx as int)[c],
                forall|c: int| 0 <= c < enemy_count ==> opps[c] == side_indices(board.snakes@, game_info, false, idx as int)[c],
            decreases n - idx,
        {
            proof {
                lemma_sides(board.snakes@, game_info, n);
                lemma_sides(board.snakes@, game_info, idx + 1);
                lemma_side_prefix(board.snakes@, game_info, true, idx + 1, n);
                lemma_side_prefix(board.snakes@, game_info, false, idx + 1, n);
            }
            let snake = &board.snakes[idx];
            snakes.push(Some(SimpleSnake::from(snake)));
            if SimpleBoard::is_teammate(game_info, &snake.id) {
                if friendly_count == 0 {
                    team = [idx, team[1]];
                } else {
                    team = [team[0], idx];
                }
                friendly_count = friendly_count + 1;
            } else {
                if enemy_count == 0 {
                    opps = [idx, opps[1]];
                } else {
                    opps = [opps[0], idx];
                }
                enemy_count = enemy_count + 1;
            }
            idx = idx + 1;
        }
        let ghost t = side_indices(board.snakes@, game_info, true, n);
        let ghost o = side_indices(board.snakes@, game_info, false, n);
        proof { lemma_sides(board.snakes@, game_info, n); }
        while friendly_count < 2
            invariant
                n == board.snakes@.len(),
                t.len() <= 2,
                t.len() <= friendly_count <= 2,
                snakes@.len() == n + friendly_count - t.len(),
                forall|j: int| 0 <= j < n ==> snake_view_of(#[trigger] snakes@[j]) == Option::Some(view_of_wire(board.snakes@[j])),
                forall|j: int| n <= j < snakes@.len() ==> (#[trigger] snakes@[j]).is_none(),
                forall|c: int| 0 <= c < friendly_count ==> team[c] == slot_of(t, c, n),
            decreases 2 - friendly_count,
        {
            if friendly_count == 0 {
                team = [snakes.len(), team[1]];
            } else {
                team = [team[0], snakes.len()];
            }
            snakes.push(None);
            friendly_count = friendly_count + 1;
        }
        while enemy_count < 2
            invariant
                n == board.snakes@.len(),
                o.len() <= 2,
                t.len() <= 2,
                t.len() + o.len() == n,
                o.len() <= enemy_count <= 2,
                snakes@.len() == n + 2 - t.len() + enemy_count - o.len(),
                forall|j: int| 0 <= j < n ==> snake_view_of(#[trigger] snakes@[j]) == Option::Some(view_of_wire(board.snakes@[j])),
                forall|j: int| n <= j < snakes@.len() ==> (#[trigger] snakes@[j]).is_none(),
                forall|c: int| 0 <= c < enemy_count ==> opps[c] == slot_of(o, c, n + 2 - t.len()),
            decreases 2 - enemy_count,
        {
            if enemy_count == 0 {
                opps = [snakes.len(), opps[1]];
            } else {
                opps = [opps[0], snakes.len()];
            }
            snakes.push(None);
            enemy_count = enemy_count + 1;
        }
        let mut food: Vec<Coord> = Vec::new();
        let mut k: usize = 0;
        while k < board.food.len()
            invariant
                0 <= k <= board.food@.len(),
                food@ == board.food@.take(k as int),
            decreases board.food@.len() - k,
        {
            food.push(board.food[k]);
            k = k + 1;
            assert(food@ =~= board.food@.take(k as int));
        }
        assert(board.food@.take(board.food@.len() as int) =~= board.food@);
        let r = SimpleBoard::new(food, snakes, team, opps);
        assert(r@.snakes =~= board_from(board, game_info).snakes);
        assert(r.team == board_from(board, game_info).team);
        assert(r.opps == board_from(board, game_info).opps);
        r
    }
}

proof fn lemma_side_prefix(snakes: Seq<Battlesnake>, gi: &GameInfo, team: bool, m: int, n: int)
    requires
        0 <= m <= n,
    ensures
        side_indices(snakes, gi, team, m).len() <= side_indices(snakes, gi, team, n).len(),
        forall|k: int| 0 <= k < side_indices(snakes, gi, team, m).len() ==>
            #[trigger] side_indices(snakes, gi, team, m)[k] == side_indices(snakes, gi, team, n)[k],
    decreases n - m,
{
    if m < n {
        lemma_side_prefix(snakes, gi, team, m, n - 1);
    }
}

} // verus!
