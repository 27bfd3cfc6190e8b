//! Scores a board from the team's point of view.

use vstd::prelude::*;
use crate::wire::Coord;
use crate::simple::{BoardView, SimpleBoard, SnakeView, in_bounds};

verus! {

/// Longest body the scores are defined for.
pub const BODY_LIMIT: usize = 1000000;

/// Lowest health the scores are defined for.
pub const HEALTH_LIMIT: i32 = -1000000;

/// Health under which a snake is penalised.
pub const HEALTH_FLOOR: i32 = 20;

/// Side of the square board.
pub const BOARD_SIDE: usize = 11;

/// Number of cells of the board.
pub const CELLS: usize = 121;

/// A board the scores are defined for: well formed, and every live snake
/// within the body and health limits.
pub open spec fn scorable(b: BoardView) -> bool {
    &&& b.wf()
    &&& forall|i: int| #[trigger] b.live(i) ==> b.snake(i).len() <= BODY_LIMIT && b.snake(i).health >= HEALTH_LIMIT
}

pub open spec fn deficit(s: SnakeView) -> int {
    if s.health < HEALTH_FLOOR { HEALTH_FLOOR - s.health } else { 0 }
}

pub open spec fn slot_len(b: BoardView, i: int) -> int {
    if b.live(i) { b.snake(i).len() } else { 0 }
}

pub open spec fn slot_deficit(b: BoardView, i: int) -> int {
    if b.live(i) { deficit(b.snake(i)) } else { 0 }
}

pub open spec fn slot_dead(b: BoardView, i: int) -> int {
    if b.live(i) { 0 } else { 1 }
}

/// Both team slots are empty.
pub open spec fn team_gone(b: BoardView) -> bool {
    !b.live(b.team[0] as int) && !b.live(b.team[1] as int)
}

/// Both opponent slots are empty.
pub open spec fn opps_gone(b: BoardView) -> bool {
    !b.live(b.opps[0] as int) && !b.live(b.opps[1] as int)
}

/// The fast score: the lowest `i32` when the team is gone, else the highest
/// when the opponents are gone, else the health deficits below the floor
/// (x1), the length difference (x8) and the death difference (x20), each
/// counted for the team.
pub open spec fn fast_score(b: BoardView) -> int {
    let t0 = b.team[0] as int;
    let t1 = b.team[1] as int;
    let o0 = b.opps[0] as int;
    let o1 = b.opps[1] as int;
    if team_gone(b) {
        i32::MIN as int
    } else if opps_gone(b) {
        i32::MAX as int
    } else {
        let health = slot_deficit(b, o0) + slot_deficit(b, o1) - slot_deficit(b, t0) - slot_deficit(b, t1);
        let length = slot_len(b, t0) + slot_len(b, t1) - slot_len(b, o0) - slot_len(b, o1);
        let death = slot_dead(b, o0) + slot_dead(b, o1) - slot_dead(b, t0) - slot_dead(b, t1);
        health + 8 * length + 20 * death
    }
}

pub open spec fn is_sentinel(v: int) -> bool {
    v == i32::MIN as int || v == i32::MAX as int
}

pub open spec fn dist(a: Coord, c: Coord) -> int {
    let dx = if a.x >= c.x { a.x - c.x } else { c.x - a.x };
    let dy = if a.y >= c.y { a.y - c.y } else { c.y - a.y };
    dx + dy
}

/// Snake `i` seeds the fill: it is alive with its head on the board.
pub open spec fn seeds(b: BoardView, i: int) -> bool {
    b.live(i) && in_bounds(b.snake(i).head())
}

/// Snake `i` reaches cell `c` before snake `j`: nearer, or as near and
/// shorter, or as near, as long and in an earlier slot.
pub open spec fn precedes(b: BoardView, i: int, j: int, c: Coord) -> bool {
    let di = dist(b.snake(i).head(), c);
    let dj = dist(b.snake(j).head(), c);
    ||| di < dj
    ||| di == dj && b.snake(i).len() < b.snake(j).len()
    ||| di == dj && b.snake(i).len() == b.snake(j).len() && i < j
}

/// The first of the slots below `n` to reach cell `c`, if any seeds.
pub open spec fn claimant_upto(b: BoardView, c: Coord, n: int) -> Option<int>
    decreases n,
{
    if n <= 0 {
        Option::None
    } else {
        let prev = claimant_upto(b, c, n - 1);
        if seeds(b, n - 1) && (prev.is_none() || precedes(b, n - 1, prev.unwrap(), c)) {
            Option::Some(n - 1)
        } else {
            prev
        }
    }
}

/// The snake that claims cell `c`: a breadth-first fill from all heads at
/// once, shorter snakes first, reaches each cell of the open board first
/// from the nearest head, ties going to the earlier seed.
pub open spec fn claimant(b: BoardView, c: Coord) -> Option<int> {
    claimant_upto(b, c, 4)
}

/// Cell number `k` of the board, row by row.
pub open spec fn cell(k: int) -> Coord {
    Coord { x: (k % 11) as i32, y: (k / 11) as i32 }
}

/// How many of the first `n` cells snake `i` claims.
pub open spec fn area_upto(b: BoardView, i: int, n: int) -> int
    decreases n,
{
    if n <= 0 {
        0
    } else {
        area_upto(b, i, n - 1) + if claimant(b, cell(n - 1)) == Option::Some(i) { 1int } else { 0int }
    }
}

/// How many cells snake `i` claims.
pub open spec fn area(b: BoardView, i: int) -> int {
    area_upto(b, i, CELLS as int)
}

/// How many of the first `n` cells some snake claims.
pub open spec fn claimed_upto(b: BoardView, n: int) -> int
    decreases n,
{
    if n <= 0 {
        0
    } else {
        claimed_upto(b, n - 1) + if claimant(b, cell(n - 1)).is_some() { 1int } else { 0int }
    }
}

pub open spec fn slot_area(b: BoardView, i: int) -> int {
    if b.live(i) { area(b, i) } else { 0 }
}

/// How far a live snake's area falls short of its length.
pub open spec fn shortfall(b: BoardView, i: int) -> int {
    if b.live(i) && area(b, i) < b.snake(i).len() { b.snake(i).len() - area(b, i) } else { 0 }
}

/// The territory score: team area minus opponent area (x1), and the
/// opponents' shortfall minus the team's (x4).
pub open spec fn territory_score(b: BoardView) -> int {
    let t0 = b.team[0] as int;
    let t1 = b.team[1] as int;
    let o0 = b.opps[0] as int;
    let o1 = b.opps[1] as int;
    let sum = slot_area(b, t0) + slot_area(b, t1) - slot_area(b, o0) - slot_area(b, o1);
    let danger = shortfall(b, o0) + shortfall(b, o1) - shortfall(b, t0) - shortfall(b, t1);
    sum + 4 * danger
}

/// The score of a board: the fast score alone when asked for, or when it
/// is a certain win or loss; else the fast score plus the territory score.
pub open spec fn score(b: BoardView, fast: bool) -> int {
    if fast || is_sentinel(fast_score(b)) {
        fast_score(b)
    } else {
        fast_score(b) + territory_score(b)
    }
}

impl SimpleBoard {
    /// The memoized values, where present, are the scores of this board.
    pub open spec fn caches_ok(&self) -> bool {
        &&& (self.stored_fast_heuristic matches Option::Some(v) ==> v as int == fast_score(self@))
        &&& (self.stored_flood_fill_heuristic matches Option::Some(v) ==> v as int == territory_score(self@))
    }
}


proof fn lemma_claimant_range(b: BoardView, c: Coord, n: int)
    ensures
        claimant_upto(b, c, n) matches Option::Some(j) ==> 0 <= j < n && seeds(b, j),
        (exists|j: int| 0 <= j < n && seeds(b, j)) ==> claimant_upto(b, c, n).is_some(),
    decreases n,
{
    if n > 0 {
        lemma_claimant_range(b, c, n - 1);
        if exists|j: int| 0 <= j < n && seeds(b, j) {
            let j = choose|j: int| 0 <= j < n && seeds(b, j);
            if j < n - 1 {
                assert(exists|j: int| 0 <= j < n - 1 && seeds(b, j));
            }
        }
    }
}

proof fn lemma_area_bounds(b: BoardView, i: int, n: int)
    requires
        n >= 0,
    ensures
        0 <= area_upto(b, i, n) <= n,
    decreases n,
{
    if n > 0 {
        lemma_area_bounds(b, i, n - 1);
    }
}

/// Flood fill claims every cell at most once: the areas of the four slots
/// add up to the number of claimed cells, and when any snake has its head
/// on the board every cell is claimed.
pub proof fn lemma_flood_fill_partition(b: BoardView, n: int)
    requires
        0 <= n,
    ensures
        area_upto(b, 0, n) + area_upto(b, 1, n) + area_upto(b, 2, n) + area_upto(b, 3, n) == claimed_upto(b, n),
        (exists|j: int| 0 <= j < 4 && seeds(b, j)) ==> claimed_upto(b, n) == n,
    decreases n,
{
    if n > 0 {
        lemma_flood_fill_partition(b, n - 1);
        lemma_claimant_range(b, cell(n - 1), 4);
    }
}

/// The territory score and each area are functions of the board's
/// content alone: two boards with the same content get the same values.
pub proof fn lemma_territory_deterministic(b1: BoardView, b2: BoardView)
    requires
        b1 == b2,
    ensures
        territory_score(b1) == territory_score(b2),
        forall|i: int| area(b1, i) == area(b2, i),
        forall|c: Coord| claimant(b1, c) == claimant(b2, c),
{
}

proof fn lemma_fast_bounds(b: BoardView)
    requires
        scorable(b),
    ensures
        !is_sentinel(fast_score(b)) ==> -40000000 < fast_score(b) < 40000000,
        team_gone(b) <==> fast_score(b) == i32::MIN as int,
        !team_gone(b) ==> (opps_gone(b) <==> fast_score(b) == i32::MAX as int),
{
    assert forall|i: int| 0 <= #[trigger] slot_deficit(b, i) <= 1000020 && 0 <= slot_len(b, i) <= 1000000 by {
        if b.live(i) {
            assert(b.snake(i).len() <= BODY_LIMIT && b.snake(i).health >= HEALTH_LIMIT);
        }
    }
}

proof fn lemma_territory_bounds(b: BoardView)
    requires
        scorable(b),
    ensures
        -10000000 < territory_score(b) < 10000000,
{
    assert forall|i: int| 0 <= #[trigger] slot_area(b, i) <= 121 && 0 <= shortfall(b, i) <= 1000000 by {
        lemma_area_bounds(b, i, 121);
        if b.live(i) {
            assert(b.snake(i).len() <= BODY_LIMIT);
        }
    }
}

/// The fast score is the lowest `i32` exactly when both team slots are
/// empty and, the team being present, the highest `i32` exactly when both
/// opponent slots are empty; the full score then says the same, whatever
/// the territory.
pub proof fn lemma_fast_score_sentinels(b: BoardView)
    requires
        scorable(b),
    ensures
        fast_score(b) == i32::MIN as int <==> team_gone(b),
        !team_gone(b) ==> (fast_score(b) == i32::MAX as int <==> opps_gone(b)),
        team_gone(b) ==> score(b, false) == i32::MIN as int,
        !team_gone(b) && opps_gone(b) ==> score(b, false) == i32::MAX as int,
{
    lemma_fast_bounds(b);
}

/// A score that is not a certain win or loss lies strictly between them.
pub proof fn lemma_score_bounds(b: BoardView, fast: bool)
    requires
        scorable(b),
    ensures
        !is_sentinel(score(b, fast)) ==> -50000000 < score(b, fast) < 50000000,
        is_sentinel(score(b, fast)) <==> is_sentinel(fast_score(b)),
{
    lemma_fast_bounds(b);
    lemma_territory_bounds(b);
}

impl SimpleBoard {
    fn slot_len(&self, i: usize) -> (r: i64)
        requires
            scorable(self@),
            i < 4,
        ensures
            r == slot_len(self@, i as int),
    {
        proof { self.lemma_slot_view(i as int); }
        match &self.snakes[i] {
            Some(s) => {
                assert(self@.live(i as int));
                s.body.len() as i64
            },
            None => 0,
        }
    }

    fn slot_deficit(&self, i: usize) -> (r: i64)
        requires
            scorable(self@),
            i < 4,
        ensures
            r == slot_deficit(self@, i as int),
    {
        proof { self.lemma_slot_view(i as int); }
        match &self.snakes[i] {
            Some(s) => {
                assert(self@.live(i as int));
                if s.health < HEALTH_FLOOR { HEALTH_FLOOR as i64 - s.health as i64 } else { 0 }
            },
            None => 0,
        }
    }

    fn live_slot(&self, i: usize) -> (r: bool)
        requires
            self@.wf(),
            i < 4,
        ensures
            r == self@.live(i as int),
    {
        proof { self.lemma_slot_view(i as int); }
        self.snakes[i].is_some()
    }

    /// The fast score of this board, memoized.
    pub fn fast_heuristic(&mut self) -> (r: i32)
        requires
            scorable(old(self)@),
            old(self).caches_ok(),
        ensures
            r == fast_score(old(self)@),
            final(self)@ == old(self)@,
            final(self).caches_ok(),
            final(self).stored_fast_heuristic == Some(r),
            final(self).stored_flood_fill_heuristic == old(self).stored_flood_fill_heuristic,
    {
        if let Some(v) = self.stored_fast_heuristic {
            return v;
        }
        proof { lemma_fast_bounds(self@); }
        let t0 = self.team[0];
        let t1 = self.team[1];
        let o0 = self.opps[0];
        let o1 = self.opps[1];
        let v: i32 = if !self.live_slot(t0) && !self.live_slot(t1) {
            i32::MIN
        } else if !self.live_slot(o0) && !self.live_slot(o1) {
            i32::MAX
        } else {
            let health = self.slot_deficit(o0) + self.slot_deficit(o1) - self.slot_deficit(t0) - self.slot_deficit(t1);
            let length = self.slot_len(t0) + self.slot_len(t1) - self.slot_len(o0) - self.slot_len(o1);
            let d0: i64 = if self.live_slot(o0) { 0 } else { 1 };
            let d1: i64 = if self.live_slot(o1) { 0 } else { 1 };
            let d2: i64 = if self.live_slot(t0) { 0 } else { 1 };
            let d3: i64 = if self.live_slot(t1) { 0 } else { 1 };
            let death = d0 + d1 - d2 - d3;
            (health + 8 * length + 20 * death) as i32
        };
        self.stored_fast_heuristic = Some(v);
        v
    }

    /// The slot that claims cell `c` (see `claimant`).
    fn claimant_of(&self, c: Coord) -> (r: Option<usize>)
        requires
            self@.wf(),
            in_bounds(c),
        ensures
            r matches Option::Some(j) ==> claimant(self@, c) == Option::Some(j as int),
            r.is_none() ==> claimant(self@, c).is_none(),
    {
        let mut best: Option<usize> = None;
        let mut best_dist: i64 = 0;
        let mut best_len: usize = 0;
        let mut i: usize = 0;
        while i < 4
            invariant
                self@.wf(),
                in_bounds(c),
                0 <= i <= 4,
                best matches Option::Some(j) ==> claimant_upto(self@, c, i as int) == Option::Some(j as int)
                    && j < 4 && self@.live(j as int)
                    && best_dist == dist(self@.snake(j as int).head(), c)
                    && best_len == self@.snake(j as int).len(),
                best.is_none() ==> claimant_upto(self@, c, i as int).is_none(),
            decreases 4 - i,
        {
            proof { self.lemma_slot_view(i as int); }
            match &self.snakes[i] {
                Some(s) => {
                    let h = s.body[0];
                    if h.x >= 0 && h.x <= 10 && h.y >= 0 && h.y <= 10 {
                        let dx: i64 = if h.x >= c.x { h.x as i64 - c.x as i64 } else { c.x as i64 - h.x as i64 };
                        let dy: i64 = if h.y >= c.y { h.y as i64 - c.y as i64 } else { c.y as i64 - h.y as i64 };
                        let d = dx + dy;
                        let len = s.body.len();
                        let better = match best {
                            None => true,
                            Some(j) => d < best_dist || (d == best_dist && len < best_len) || (d == best_dist && len == best_len && i < j),
                        };
                        if better {
                            best = Some(i);
                            best_dist = d;
                            best_len = len;
                        }
                    }
                },
                None => {},
            }
            i = i + 1;
        }
        best
    }

    /// The area that each slot claims (see `area`), indexed by slot.
    pub fn flood_fill(&self) -> (r: Vec<usize>)
        requires
            self@.wf(),
        ensures
            r@.len() == 4,
            forall|i: int| 0 <= i < 4 ==> r@[i] == area(self@, i),
    {
        let mut areas: Vec<usize> = vec![0, 0, 0, 0];
        let mut k: usize = 0;
        while k < CELLS
            invariant
                self@.wf(),
                0 <= k <= CELLS,
                areas@.len() == 4,
                forall|i: int| 0 <= i < 4 ==> areas@[i] == area_upto(self@, i, k as int),
            decreases CELLS - k,
        {
            let c = Coord { x: (k % BOARD_SIDE) as i32, y: (k / BOARD_SIDE) as i32 };
            assert(c == cell(k as int));
            proof {
                assert forall|i: int| 0 <= i < 4 implies area_upto(self@, i, k as int) <= k by {
                    lemma_area_bounds(self@, i, k as int);
                }
                lemma_claimant_range(self@, c, 4);
            }
            match self.claimant_of(c) {
                Some(j) => {
                    areas.set(j, areas[j] + 1);
                },
                None => {},
            }
            k = k + 1;
        }
        areas
    }

    /// The territory score of this board, memoized.
    pub fn flood_fill_heuristic(&mut self) -> (r: i32)
        requires
            scorable(old(self)@),
            old(self).caches_ok(),
        ensures
            r == territory_score(old(self)@),
            final(self)@ == old(self)@,
            final(self).caches_ok(),
            final(self).stored_flood_fill_heuristic == Some(r),
            final(self).stored_fast_heuristic == old(self).stored_fast_heuristic,
    {
        if let Some(v) = self.stored_flood_fill_heuristic {
            return v;
        }
        proof {
            lemma_territory_bounds(self@);
            assert forall|i: int| 0 <= #[trigger] area(self@, i) <= 121 by {
                lemma_area_bounds(self@, i, 121);
            }
        }
        let areas = self.flood_fill();
        let mut sum: i64 = 0;
        let mut danger: i64 = 0;
        let mut c: usize = 0;
        while c < 4
            invariant
                scorable(self@),
                areas@.len() == 4,
                forall|i: int| 0 <= i < 4 ==> areas@[i] == area(self@, i),
                forall|i: int| 0 <= #[trigger] area(self@, i) <= 121,
                0 <= c <= 4,
                sum == (if c > 0 { slot_area(self@, self.team[0] as int) } else { 0 })
                    + (if c > 1 { slot_area(self@, self.team[1] as int) } else { 0 })
                    - (if c > 2 { slot_area(self@, self.opps[0] as int) } else { 0 })
                    - (if c > 3 { slot_area(self@, self.opps[1] as int) } else { 0 }),
                danger == (if c > 2 { shortfall(self@, self.opps[0] as int) } else { 0 })
                    + (if c > 3 { shortfall(self@, self.opps[1] as int) } else { 0 })
                    - (if c > 0 { shortfall(self@, self.team[0] as int) } else { 0 })
                    - (if c > 1 { shortfall(self@, self.team[1] as int) } else { 0 }),
            decreases 4 - c,
        {
            let idx = if c == 0 { self.team[0] } else if c == 1 { self.team[1] } else if c == 2 { self.opps[0] } else { self.opps[1] };
            let team_side = c < 2;
            proof { self.lemma_slot_view(idx as int); }
            match &self.snakes[idx] {
                Some(snake) => {
                    assert(self@.live(idx as int));
                    let ff_size = areas[idx] as i64;
                    let len = snake.body.len() as i64;
                    if team_side {
                        sum = sum + ff_size;
                        if ff_size < len {
                            danger = danger - (len - ff_size);
                        }
                    } else {
                        sum = sum - ff_size;
                        if ff_size < len {
                            danger = danger + (len - ff_size);
                        }
                    }
                },
                None => {},
            }
            c = c + 1;
        }
        let v = (sum + 4 * danger) as i32;
        self.stored_flood_fill_heuristic = Some(v);
        v
    }

    /// The score of this board (see `score`), from the memoized values
    /// where present; what is computed is memoized, the fast score always
    /// and the territory score when it was needed.
    pub fn heuristic(&mut self, fast: bool) -> (r: i32)
        requires
            scorable(old(self)@),
            old(self).caches_ok(),
        ensures
            r == score(old(self)@, fast),
            final(self)@ == old(self)@,
            final(self).caches_ok(),
            final(self).stored_fast_heuristic == Some(fast_score(old(self)@) as i32),
            !fast && !is_sentinel(fast_score(old(self)@))
                ==> final(self).stored_flood_fill_heuristic == Some(territory_score(old(self)@) as i32),
    {
        proof { lemma_score_bounds(self@, false); }
        let fast_heuristic = self.fast_heuristic();
        if fast || fast_heuristic == i32::MIN || fast_heuristic == i32::MAX {
            return fast_heuristic;
        }
        let flood_fill_heuristic = self.flood_fill_heuristic();
        fast_heuristic + flood_fill_heuristic
    }
}

} // verus!
