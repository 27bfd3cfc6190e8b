//! Time-boxed alpha-beta search over joint moves of the team and of the
//! opponents.

use vstd::prelude::*;
use crate::wire::{Board, GameInfo};
use crate::simple::{
    BoardView, SimpleBoard, SnakeMove, acting, board_from, can_step, fits_slots, in_bounds, joint_moves,
    kept, lemma_joint_move_slots, outcome, after_moves, eliminated, moved, head_after, view_of_wire,
    side_indices, is_agent,
};
use crate::heuristic::{fast_score, score, scorable, BODY_LIMIT, HEALTH_LIMIT};

verus! {

#[verifier::external_type_specification]
#[verifier::external_body]
pub struct ExInstant(std::time::Instant);

/// Relies on `Instant::now`: a reading of the monotonic clock; nothing is
/// assumed of its value.
pub assume_specification[ std::time::Instant::now ]() -> std::time::Instant;

/// Relies on `Instant::elapsed`: the time since a reading; nothing is
/// assumed of its value.
pub assume_specification[ std::time::Instant::elapsed ](i: &std::time::Instant) -> core::time::Duration;

/// Relies on `Duration::as_nanos`: a duration in whole nanoseconds; nothing
/// is assumed of its value.
pub assume_specification[ core::time::Duration::as_nanos ](d: &core::time::Duration) -> u128;

/// Depth at which the search stops and scores the board.
pub const MAX_DEPTH: i32 = 100;

/// Longest body a searched board may start with.
pub const INPUT_BODY_LIMIT: usize = 999000;

/// Lowest health a searched board may start with.
pub const INPUT_HEALTH_LIMIT: i32 = -999000;

/// Largest time span, in nanoseconds, that the search reasons about.
pub const TIME_LIMIT: i64 = 2305843009213693952;

/// Milliseconds kept back from the game's timeout.
pub const SAFETY_MARGIN_MS: u32 = 25;

/// Each ply grows a body by at most one, costs at most one health and moves
/// a head by at most one cell: after `d` plies from a board within the
/// input limits with heads on the board, this holds.
pub open spec fn search_ready(b: BoardView, d: int) -> bool {
    &&& b.wf()
    &&& 0 <= d
    &&& forall|i: int| #[trigger] b.live(i) ==> {
        let s = b.snake(i);
        &&& s.len() <= INPUT_BODY_LIMIT + d
        &&& s.health >= INPUT_HEALTH_LIMIT - d
        &&& -d <= s.head().x <= 10 + d
        &&& -d <= s.head().y <= 10 + d
    }
}

/// A board ready for the search at depth at most 101 can be scored, and
/// its acting snakes can step.
pub proof fn lemma_ready_scorable(b: BoardView, d: int, our_team: bool)
    requires
        search_ready(b, d),
        d <= 101,
    ensures
        scorable(b),
        can_step(b, our_team),
{
    assert forall|i: int| #[trigger] b.live(i) implies b.snake(i).len() <= BODY_LIMIT && b.snake(i).health >= HEALTH_LIMIT by {
    }
}

/// One ply keeps a board ready for the search, one level deeper.
#[verifier::rlimit(50)]
pub proof fn lemma_ready_step(b: BoardView, our_team: bool, k: int, d: int)
    requires
        search_ready(b, d),
        d <= 101,
        0 <= k < joint_moves(b, our_team).len(),
    ensures
        search_ready(outcome(b, joint_moves(b, our_team)[k], our_team), d + 1),
{
    lemma_joint_move_slots(b, our_team, k);
    let jm = joint_moves(b, our_team)[k];
    if kept(b, our_team).len() > 0 {
        let a = after_moves(b, jm);
        assert forall|i: int| #[trigger] a.live(i) implies {
            let s = a.snake(i);
            &&& s.body.len() >= 1
            &&& s.len() <= INPUT_BODY_LIMIT + d + 1
            &&& s.health >= INPUT_HEALTH_LIMIT - d - 1
            &&& -d - 1 <= s.head().x <= 10 + d + 1
            &&& -d - 1 <= s.head().y <= 10 + d + 1
        } by {
            assert(b.live(i));
            if i == jm[0].id as int || i == jm[1].id as int {
                let c: int = if i == jm[0].id as int { 0 } else { 1 };
                let p = head_after(b, jm[c]);
                assert(a.snakes[i] == Option::Some(moved(b.snake(i), p, b.food)));
                let h = b.snake(i).head();
                assert(-d - 1 <= p.x <= 10 + d + 1 && -d - 1 <= p.y <= 10 + d + 1);
                assert((seq![p] + b.snake(i).body)[0] == p);
            } else {
                assert(a.snakes[i] == b.snakes[i]);
            }
        }
        if !our_team {
            let e = eliminated(a);
            assert forall|i: int| #[trigger] e.live(i) implies a.live(i) && e.snake(i) == a.snake(i) by {
            }
        }
    }
}

proof fn lemma_quot_bounded(a: int, m: int)
    requires
        m >= 1,
    ensures
        a >= 0 ==> 0 <= quot_toward_zero(a, m) <= a,
        a < 0 ==> a <= quot_toward_zero(a, m) <= 0,
{
    if a >= 0 {
        vstd::arithmetic::div_mod::lemma_div_is_ordered_by_denominator(a, 1, m);
        vstd::arithmetic::div_mod::lemma_div_pos_is_pos(a, m);
    } else {
        vstd::arithmetic::div_mod::lemma_div_is_ordered_by_denominator(-a, 1, m);
        vstd::arithmetic::div_mod::lemma_div_pos_is_pos(-a, m);
    }
}

/// Rust's integer division: the quotient rounded toward zero.
pub open spec fn quot_toward_zero(a: int, b: int) -> int {
    if a >= 0 { a / b } else { -((-a) / b) }
}

/// `a / b` as Rust computes it, for a positive divisor.
pub fn trunc_div(a: i64, b: i64) -> (r: i64)
    requires
        b > 0,
        -TIME_LIMIT * 2 <= a <= TIME_LIMIT * 2,
    ensures
        r == quot_toward_zero(a as int, b as int),
{
    if a >= 0 {
        ((a as u64) / (b as u64)) as i64
    } else {
        let m: u64 = (-a) as u64;
        let q: u64 = m / (b as u64);
        proof {
            vstd::arithmetic::div_mod::lemma_div_is_ordered_by_denominator(m as int, 1, b as int);
        }
        -(q as i64)
    }
}

/// The value backed up from a child: the best child value weighted by how
/// many plies lie below, averaged with this node's own heuristic value.
pub open spec fn blended(value: int, depth_diff: int, h: int) -> int {
    quot_toward_zero(value * depth_diff + h, depth_diff + 1)
}

proof fn lemma_blend_between(v: int, d: int, h: int)
    requires
        0 <= d,
    ensures
        (if v <= h { v } else { h }) <= blended(v, d, h) <= (if v <= h { h } else { v }),
{
    let lo = if v <= h { v } else { h };
    let hi = if v <= h { h } else { v };
    let n = v * d + h;
    let den = d + 1;
    assert(lo * den <= n <= hi * den) by (nonlinear_arith)
        requires lo <= v, lo <= h, v <= hi, h <= hi, 0 <= d, n == v * d + h, den == d + 1;
    vstd::arithmetic::div_mod::lemma_div_multiples_vanish(lo, den);
    vstd::arithmetic::div_mod::lemma_div_multiples_vanish(hi, den);
    vstd::arithmetic::div_mod::lemma_div_multiples_vanish(-lo, den);
    vstd::arithmetic::div_mod::lemma_div_multiples_vanish(-hi, den);
    if n >= 0 {
        vstd::arithmetic::div_mod::lemma_div_is_ordered(lo * den, n, den);
        vstd::arithmetic::div_mod::lemma_div_is_ordered(n, hi * den, den);
        assert(lo * den / den == lo) by {
            assert(lo * den == den * lo) by (nonlinear_arith);
        }
        assert(hi * den / den == hi) by {
            assert(hi * den == den * hi) by (nonlinear_arith);
        }
    } else {
        assert(-n <= (-lo) * den) by (nonlinear_arith)
            requires lo * den <= n;
        assert((-hi) * den <= -n) by (nonlinear_arith)
            requires n <= hi * den;
        vstd::arithmetic::div_mod::lemma_div_is_ordered(-n, (-lo) * den, den);
        vstd::arithmetic::div_mod::lemma_div_is_ordered((-hi) * den, -n, den);
        assert((-lo) * den / den == -lo) by {
            assert((-lo) * den == den * (-lo)) by (nonlinear_arith);
        }
        assert((-hi) * den / den == -hi) by {
            assert((-hi) * den == den * (-hi)) by (nonlinear_arith);
        }
    }
}

/// The backed-up value `(value * depth_diff + h) / (depth_diff + 1)`.
pub fn blend(value: i32, depth_diff: i32, h: i32) -> (r: i32)
    requires
        0 <= depth_diff <= 101,
    ensures
        r == blended(value as int, depth_diff as int, h as int),
{
    proof {
        lemma_blend_between(value as int, depth_diff as int, h as int);
        assert(-300000000000i64 <= value as int * depth_diff as int <= 300000000000i64) by (nonlinear_arith)
            requires i32::MIN <= value <= i32::MAX, 0 <= depth_diff <= 101;
    }
    let n: i64 = value as i64 * depth_diff as i64 + h as i64;
    trunc_div(n, depth_diff as i64 + 1) as i32
}

/// `value` (a score and the depth where it was settled) beats `best` for
/// the side to move: a higher score for the team, a lower one for the
/// opponents, and on equal scores the deeper result.
pub open spec fn improves(our_team: bool, value: (i32, i32), best: (i32, i32)) -> bool {
    if our_team {
        value.0 > best.0 || (value.0 == best.0 && value.1 > best.1)
    } else {
        value.0 < best.0 || (value.0 == best.0 && value.1 > best.1)
    }
}

pub fn improves_on(our_team: bool, value: (i32, i32), best: (i32, i32)) -> (r: bool)
    ensures
        r == improves(our_team, value, best),
{
    if our_team {
        value.0 > best.0 || (value.0 == best.0 && value.1 > best.1)
    } else {
        value.0 < best.0 || (value.0 == best.0 && value.1 > best.1)
    }
}

/// The index of the first greatest value.
pub fn pick_best(values: &Vec<i32>) -> (r: usize)
    requires
        values@.len() > 0,
    ensures
        r < values@.len(),
        forall|q: int| 0 <= q < values@.len() ==> values@[q] <= values@[r as int],
        forall|q: int| 0 <= q < r ==> values@[q] < values@[r as int],
{
    let mut best: usize = 0;
    let mut k: usize = 1;
    while k < values.len()
        invariant
            1 <= k <= values@.len(),
            best < k,
            forall|q: int| 0 <= q < k ==> values@[q] <= values@[best as int],
            forall|q: int| 0 <= q < best ==> values@[q] < values@[best as int],
        decreases values@.len() - k,
    {
        if values[k] > values[best] {
            best = k;
        }
        k = k + 1;
    }
    best
}

/// `a` orders after `h`: lower for the team (best first), higher for the
/// opponents.
pub open spec fn worse(our_team: bool, a: int, h: int) -> bool {
    if our_team { a < h } else { a > h }
}

/// The first position whose key orders after `h`, or the length.
fn insertion_point(ordered: &Vec<(i32, SimpleBoard)>, h: i32, our_team: bool) -> (r: usize)
    ensures
        r <= ordered@.len(),
        forall|q: int| 0 <= q < r ==> !worse(our_team, (#[trigger] ordered@[q]).0 as int, h as int),
        r < ordered@.len() ==> worse(our_team, ordered@[r as int].0 as int, h as int),
{
    let mut p: usize = 0;
    while p < ordered.len()
        invariant
            0 <= p <= ordered@.len(),
            forall|q: int| 0 <= q < p ==> !worse(our_team, (#[trigger] ordered@[q]).0 as int, h as int),
        decreases ordered@.len() - p,
    {
        let a = ordered[p].0;
        if (our_team && a < h) || (!our_team && a > h) {
            return p;
        }
        p = p + 1;
    }
    p
}

/// How long since `start`, in nanoseconds, capped at `TIME_LIMIT`.
fn elapsed_since(start: &std::time::Instant) -> (r: i64)
    ensures
        0 <= r <= TIME_LIMIT,
{
    let n: u128 = start.elapsed().as_nanos();
    if n > TIME_LIMIT as u128 {
        TIME_LIMIT
    } else {
        n as i64
    }
}


/// Some joint move of the side to move leads to a board with fast score `v`.
pub open spec fn some_child_scores(b: BoardView, our_team: bool, v: int) -> bool {
    exists|k: int| 0 <= k < joint_moves(b, our_team).len()
        && fast_score(#[trigger] outcome(b, joint_moves(b, our_team)[k], our_team)) == v
}

/// The children of a node, keyed by fast score, are ordered best first for
/// the side to move.
pub open spec fn ordered_for(our_team: bool, keys: Seq<(i32, SimpleBoard)>) -> bool {
    forall|p: int, q: int| 0 <= p < q < keys.len() ==> !worse(our_team, keys[p].0 as int, keys[q].0 as int)
}

/// Inserting at the first position whose key orders after the new key
/// keeps the children ordered, and keeps a certain result first.
proof fn lemma_insert_ordered(before: Seq<(i32, SimpleBoard)>, after: Seq<(i32, SimpleBoard)>, pos: int, our_team: bool)
    requires
        0 <= pos <= before.len(),
        after == before.insert(pos, after[pos]),
        ordered_for(our_team, before),
        forall|q: int| 0 <= q < pos ==> !worse(our_team, (#[trigger] before[q]).0 as int, after[pos].0 as int),
        pos < before.len() ==> worse(our_team, before[pos].0 as int, after[pos].0 as int),
    ensures
        ordered_for(our_team, after),
        our_team && ((before.len() > 0 && before[0].0 == i32::MAX) || after[pos].0 == i32::MAX) ==> after[0].0 == i32::MAX,
        !our_team && ((before.len() > 0 && before[0].0 == i32::MIN) || after[pos].0 == i32::MIN) ==> after[0].0 == i32::MIN,
{
    let x = after[pos];
    let h = x.0;
    assert forall|i: int| 0 <= i < after.len() implies #[trigger] after[i] == if i < pos {
        before[i]
    } else if i == pos {
        x
    } else {
        before[i - 1]
    } by {}
    assert forall|p: int, q: int| 0 <= p < q < after.len() implies
        !worse(our_team, after[p].0 as int, after[q].0 as int) by {
        if q < pos {
            assert(after[p] == before[p]);
            assert(after[q] == before[q]);
        } else if q == pos {
            assert(after[p] == before[p]);
        } else if p < pos {
            assert(after[p] == before[p]);
            assert(after[q] == before[q - 1]);
        } else if p == pos {
            assert(after[q] == before[q - 1]);
            if pos < q - 1 {
                assert(!worse(our_team, before[pos].0 as int, before[q - 1].0 as int));
            }
        } else {
            assert(after[p] == before[p - 1]);
            assert(after[q] == before[q - 1]);
        }
    }
    if pos > 0 {
        assert(after[0] == before[0]);
    }
}

/// The bookkeeping of a node while its children are tried: the best
/// (value, settled depth) so far, the alpha-beta window, and whether a
/// cutoff has ended the node.
#[derive(Clone, Copy, Debug)]
pub struct NodeState {
    pub best: (i32, i32),
    pub alpha: i32,
    pub beta: i32,
    pub done: bool,
}

/// The state before any child is tried.
pub open spec fn node_start(our_team: bool, depth: i32, alpha: i32, beta: i32) -> NodeState {
    NodeState {
        best: if our_team { (i32::MIN, depth) } else { (i32::MAX, depth) },
        alpha,
        beta,
        done: false,
    }
}

/// The state after a child returned `v`: a better value becomes the best and
/// narrows the window (alpha for the team, beta for the opponents); the node
/// is cut off once the window closes.
pub open spec fn after_child(our_team: bool, s: NodeState, v: (i32, i32)) -> NodeState {
    if s.done || !improves(our_team, v, s.best) {
        s
    } else if our_team {
        NodeState {
            best: v,
            alpha: if v.0 > s.alpha { v.0 } else { s.alpha },
            beta: s.beta,
            done: v.0 >= s.beta,
        }
    } else {
        NodeState {
            best: v,
            alpha: s.alpha,
            beta: if v.0 < s.beta { v.0 } else { s.beta },
            done: v.0 <= s.alpha,
        }
    }
}

/// The state after the children returned `vals`, in order.
pub open spec fn after_children(our_team: bool, s: NodeState, vals: Seq<(i32, i32)>) -> NodeState
    decreases vals.len(),
{
    if vals.len() == 0 {
        s
    } else {
        after_child(our_team, after_children(our_team, s, vals.drop_last()), vals.last())
    }
}

/// The value a node backs up from its best (value, depth): a certain win
/// or loss as it stands, anything else blended with the node's fast score
/// `h`.
pub open spec fn backed_up(depth: i32, best: (i32, i32), h: int) -> (i32, i32) {
    if best.0 == i32::MAX || best.0 == i32::MIN {
        best
    } else {
        (blended(best.0 as int, best.1 - depth, h) as i32, best.1)
    }
}

/// The result of a node that searched its children: the children that were
/// tried returned `vals`; when time ran out before the next one, `cut` holds
/// the full score of the first-ordered child, settled one ply down.
pub open spec fn node_result(
    our_team: bool,
    depth: i32,
    alpha: i32,
    beta: i32,
    vals: Seq<(i32, i32)>,
    cut: Option<i32>,
    h: int,
) -> (i32, i32) {
    let s = after_children(our_team, node_start(our_team, depth, alpha, beta), vals);
    let best = match cut {
        Option::Some(c) => (c, (depth + 1) as i32),
        Option::None => s.best,
    };
    backed_up(depth, best, h)
}

/// What holds of a searched node however the clock ran: the values the
/// children returned, each settled below this node and no deeper than the
/// limit; a time cut only while the window was open, with the full score of
/// one of the children; and the result combined from them.
pub open spec fn searched_node(
    b: BoardView,
    our_team: bool,
    depth: i32,
    alpha: i32,
    beta: i32,
    vals: Seq<(i32, i32)>,
    cut: Option<i32>,
    r: (i32, i32),
) -> bool {
    &&& 1 <= vals.len() + if cut.is_some() { 1int } else { 0int } <= joint_moves(b, our_team).len()
    &&& forall|i: int| 0 <= i < vals.len() ==> depth + 1 <= (#[trigger] vals[i]).1 <= MAX_DEPTH
    &&& (cut matches Option::Some(c) ==> {
        &&& !after_children(our_team, node_start(our_team, depth, alpha, beta), vals).done
        &&& exists|k: int| 0 <= k < joint_moves(b, our_team).len()
            && c as int == score(#[trigger] outcome(b, joint_moves(b, our_team)[k], our_team), false)
    })
    &&& r == node_result(our_team, depth, alpha, beta, vals, cut, fast_score(b))
}

/// One child's value taken into the node's state (see `after_child`).
pub fn take_child(our_team: bool, s: NodeState, v: (i32, i32)) -> (r: NodeState)
    ensures
        r == after_child(our_team, s, v),
{
    if s.done || !improves_on(our_team, v, s.best) {
        s
    } else if our_team {
        NodeState { best: v, alpha: if v.0 > s.alpha { v.0 } else { s.alpha }, beta: s.beta, done: v.0 >= s.beta }
    } else {
        NodeState { best: v, alpha: s.alpha, beta: if v.0 < s.beta { v.0 } else { s.beta }, done: v.0 <= s.alpha }
    }
}

/// The value a node backs up (see `backed_up`).
pub fn back_up(depth: i32, best: (i32, i32), h: i32) -> (r: (i32, i32))
    requires
        depth <= best.1 <= depth + 101,
    ensures
        r == backed_up(depth, best, h as int),
{
    if best.0 == i32::MAX || best.0 == i32::MIN {
        best
    } else {
        (blend(best.0, best.1 - depth, h), best.1)
    }
}

/// The children, keyed by fast score and ordered best first for the side
/// to move; a certain win (loss for the opponents) among them comes first.
fn order_children(sims: Vec<([SnakeMove; 2], SimpleBoard)>, our_team: bool, depth: i32) -> (ordered: Vec<(i32, SimpleBoard)>)
    requires
        1 <= depth <= MAX_DEPTH,
        forall|q: int| 0 <= q < sims@.len() ==> {
            &&& search_ready((#[trigger] sims@[q]).1@, depth as int)
            &&& sims@[q].1.stored_fast_heuristic.is_none()
            &&& sims@[q].1.stored_flood_fill_heuristic.is_none()
        },
    ensures
        ordered@.len() == sims@.len(),
        forall|p: int| 0 <= p < ordered@.len() ==> {
            &&& search_ready((#[trigger] ordered@[p]).1@, depth as int)
            &&& ordered@[p].1.caches_ok()
            &&& ordered@[p].0 as int == fast_score(ordered@[p].1@)
        },
        ordered_for(our_team, ordered@),
        forall|p: int| 0 <= p < ordered@.len() ==> exists|q: int| 0 <= q < sims@.len() && (#[trigger] ordered@[p]).1@ == sims@[q].1@,
        our_team && (exists|q: int| 0 <= q < sims@.len() && fast_score((#[trigger] sims@[q]).1@) == i32::MAX as int)
            ==> ordered@[0].0 == i32::MAX,
        !our_team && (exists|q: int| 0 <= q < sims@.len() && fast_score((#[trigger] sims@[q]).1@) == i32::MIN as int)
            ==> ordered@[0].0 == i32::MIN,
{
    let ghost orig = sims@;
    let total = sims.len();
    let mut sims = sims;
    let mut ordered: Vec<(i32, SimpleBoard)> = Vec::new();
    let mut taken: usize = 0;
    while taken < total
        invariant
            1 <= depth <= MAX_DEPTH,
            total == orig.len(),
            0 <= taken <= total,
            sims@ == orig.subrange(taken as int, total as int),
            forall|q: int| 0 <= q < total ==> {
                &&& search_ready((#[trigger] orig[q]).1@, depth as int)
                &&& orig[q].1.stored_fast_heuristic.is_none()
                &&& orig[q].1.stored_flood_fill_heuristic.is_none()
            },
            ordered@.len() == taken,
            forall|p: int| 0 <= p < ordered@.len() ==> {
                &&& search_ready((#[trigger] ordered@[p]).1@, depth as int)
                &&& ordered@[p].1.caches_ok()
                &&& ordered@[p].0 as int == fast_score(ordered@[p].1@)
            },
            ordered_for(our_team, ordered@),
            forall|p: int| 0 <= p < ordered@.len() ==> exists|q: int| 0 <= q < orig.len() && (#[trigger] ordered@[p]).1@ == orig[q].1@,
            our_team && (exists|q: int| 0 <= q < taken && fast_score((#[trigger] orig[q]).1@) == i32::MAX as int)
                ==> ordered@[0].0 == i32::MAX,
            !our_team && (exists|q: int| 0 <= q < taken && fast_score((#[trigger] orig[q]).1@) == i32::MIN as int)
                ==> ordered@[0].0 == i32::MIN,
        decreases total - taken,
    {
        let ghost before = ordered@;
        let (_mv, mut child) = sims.remove(0);
        assert(child@ == orig[taken as int].1@);
        proof {
            lemma_ready_scorable(child@, depth as int, our_team);
        }
        let h = child.heuristic(true);
        let pos = insertion_point(&ordered, h, our_team);
        ordered.insert(pos, (h, child));
        proof {
            lemma_insert_ordered(before, ordered@, pos as int, our_team);
            assert forall|p: int| 0 <= p < ordered@.len() implies exists|q: int| 0 <= q < orig.len() && (#[trigger] ordered@[p]).1@ == orig[q].1@ by {
                if p < pos {
                    assert(ordered@[p] == before[p]);
                } else if p == pos {
                    assert(ordered@[p].1@ == orig[taken as int].1@);
                } else {
                    assert(ordered@[p] == before[p - 1]);
                }
            }
            if our_team && (exists|q: int| 0 <= q < taken + 1 && fast_score((#[trigger] orig[q]).1@) == i32::MAX as int) {
                let q = choose|q: int| 0 <= q < taken + 1 && fast_score((#[trigger] orig[q]).1@) == i32::MAX as int;
                if q < taken {
                    assert(before[0].0 == i32::MAX);
                }
            }
            if !our_team && (exists|q: int| 0 <= q < taken + 1 && fast_score((#[trigger] orig[q]).1@) == i32::MIN as int) {
                let q = choose|q: int| 0 <= q < taken + 1 && fast_score((#[trigger] orig[q]).1@) == i32::MIN as int;
                if q < taken {
                    assert(before[0].0 == i32::MIN);
                }
            }
        }
        taken = taken + 1;
        assert(sims@ =~= orig.subrange(taken as int, total as int));
    }
    assert(orig.subrange(0, total as int) =~= orig);
    ordered
}

proof fn lemma_cartesian_len(a: Seq<SnakeMove>, bs: Seq<SnakeMove>)
    ensures
        crate::simple::cartesian(a, bs).len() == a.len() * bs.len(),
    decreases a.len(),
{
    if a.len() > 0 {
        lemma_cartesian_len(a.drop_last(), bs);
        assert(a.len() * bs.len() == (a.len() - 1) * bs.len() + bs.len()) by (nonlinear_arith);
    }
}

/// One ply offers between one and sixteen joint moves.
pub proof fn lemma_joint_moves_len(b: BoardView, our_team: bool)
    ensures
        1 <= joint_moves(b, our_team).len() <= 16,
{
    let idx = acting(b, our_team);
    let a = crate::simple::tagged(idx[0], crate::simple::offered(b, idx[0] as int, our_team));
    let bs = crate::simple::tagged(idx[1], crate::simple::offered(b, idx[1] as int, our_team));
    lemma_cartesian_len(a, bs);
    assert(a.len() <= 4 && bs.len() <= 4);
    assert(a.len() * bs.len() <= 16) by (nonlinear_arith)
        requires a.len() <= 4, bs.len() <= 4;
    crate::simple::candidates(b, our_team).lemma_filter_len(crate::simple::no_clash(b));
}

/// Alpha-beta minimax below `board`, with `our_team` to move at `depth`.
/// Returns a value and the depth at which it was settled. The search
/// stops at `MAX_DEPTH` or when the time left cannot pay for an
/// evaluation, and then returns the board's full score. Otherwise the
/// children are tried best first: a certain win (loss) among them ends the
/// node at once; each child gets the time left divided by the children
/// still to try; when that time cannot pay for an evaluation, the full score
/// of the first child stands one ply down; the values are combined with
/// alpha-beta cutoffs and backed up (see `node_result`).
#[verifier::rlimit(60)]
pub fn minmax_simple(
    board: &mut SimpleBoard,
    depth: i32,
    our_team: bool,
    alpha: i32,
    beta: i32,
    heuristic_time: i64,
    return_time: i64,
    timeout: i64,
) -> (r: (i32, i32))
    requires
        1 <= depth <= MAX_DEPTH,
        search_ready(old(board)@, depth as int),
        old(board).caches_ok(),
        0 <= heuristic_time <= 1099511627776,
        0 <= return_time <= 1099511627776,
        -TIME_LIMIT <= timeout <= TIME_LIMIT,
    ensures
        final(board)@ == old(board)@,
        final(board).caches_ok(),
        depth <= r.1 <= MAX_DEPTH,
        depth == MAX_DEPTH || heuristic_time + return_time >= timeout ==> r == (score(old(board)@, false) as i32, depth),
        depth < MAX_DEPTH && heuristic_time + return_time < timeout && our_team
            && some_child_scores(old(board)@, true, i32::MAX as int) ==> r == (i32::MAX, depth),
        depth < MAX_DEPTH && heuristic_time + return_time < timeout && !our_team
            && some_child_scores(old(board)@, false, i32::MIN as int) ==> r == (i32::MIN, depth),
        depth < MAX_DEPTH && heuristic_time + return_time < timeout
            && !(our_team && some_child_scores(old(board)@, true, i32::MAX as int))
            && !(!our_team && some_child_scores(old(board)@, false, i32::MIN as int)) ==> {
            &&& depth + 1 <= r.1
            &&& exists|vals: Seq<(i32, i32)>, cut: Option<i32>|
                #[trigger] searched_node(old(board)@, our_team, depth, alpha, beta, vals, cut, r)
        },
    decreases MAX_DEPTH - depth,
{
    let start = std::time::Instant::now();
    proof {
        lemma_ready_scorable(board@, depth as int, our_team);
        crate::heuristic::lemma_score_bounds(board@, false);
    }
    if depth >= MAX_DEPTH || heuristic_time + return_time >= timeout {
        let h = board.heuristic(false);
        return (h, depth);
    }
    let ghost b = board@;
    let ghost jms = joint_moves(b, our_team);
    let sims = board.simulate_move(our_team);
    let ghost orig = sims@;
    let total = sims.len();
    proof {
        assert forall|q: int| 0 <= q < total implies search_ready((#[trigger] orig[q]).1@, depth + 1) by {
            lemma_ready_step(b, our_team, q, depth as int);
        }
    }
    let mut ordered = order_children(sims, our_team, depth + 1);
    proof { lemma_joint_moves_len(b, our_team); }
    proof {
        if our_team && some_child_scores(b, true, i32::MAX as int) {
            let k = choose|k: int| 0 <= k < joint_moves(b, true).len()
                && fast_score(#[trigger] outcome(b, joint_moves(b, true)[k], true)) == i32::MAX as int;
            assert(fast_score(orig[k].1@) == i32::MAX as int);
        }
        if !our_team && some_child_scores(b, false, i32::MIN as int) {
            let k = choose|k: int| 0 <= k < joint_moves(b, false).len()
                && fast_score(#[trigger] outcome(b, joint_moves(b, false)[k], false)) == i32::MIN as int;
            assert(fast_score(orig[k].1@) == i32::MIN as int);
        }
    }
    let first_h = ordered[0].0;
    if our_team && first_h == i32::MAX {
        proof {
            let q = choose|q: int| 0 <= q < orig.len() && ordered@[0].1@ == orig[q].1@;
            assert(outcome(b, jms[q], true) == ordered@[0].1@);
        }
        return (i32::MAX, depth);
    }
    if !our_team && first_h == i32::MIN {
        proof {
            let q = choose|q: int| 0 <= q < orig.len() && ordered@[0].1@ == orig[q].1@;
            assert(outcome(b, jms[q], false) == ordered@[0].1@);
        }
        return (i32::MIN, depth);
    }
    let ghost start_state = NodeState {
        best: if our_team { (i32::MIN, depth) } else { (i32::MAX, depth) },
        alpha,
        beta,
        done: false,
    };
    let mut state = NodeState {
        best: if our_team { (i32::MIN, depth) } else { (i32::MAX, depth) },
        alpha,
        beta,
        done: false,
    };
    let ghost mut vals: Seq<(i32, i32)> = Seq::empty();
    let mut cut: Option<i32> = None;
    let mut kept_first: Option<SimpleBoard> = None;
    let mut idx: usize = 0;
    while idx < total
        invariant_except_break
            ordered@.len() == total - idx,
            forall|p: int| 0 <= p < ordered@.len() ==> {
                &&& search_ready((#[trigger] ordered@[p]).1@, depth + 1)
                &&& ordered@[p].1.caches_ok()
                &&& exists|q: int| 0 <= q < orig.len() && ordered@[p].1@ == orig[q].1@
            },
            kept_first matches Option::Some(f) ==> search_ready(f@, depth + 1) && f.caches_ok()
                && exists|q: int| 0 <= q < orig.len() && f@ == orig[q].1@,
            idx > 0 ==> kept_first.is_some(),
            !state.done,
            cut.is_none(),
        invariant
            0 <= idx <= total,
            vals.len() == idx,
            state.done ==> vals.len() > 0,
            1 <= depth < MAX_DEPTH,
            0 <= heuristic_time <= 1099511627776,
            0 <= return_time <= 1099511627776,
            -TIME_LIMIT <= timeout <= TIME_LIMIT,
            total == orig.len(),
            orig.len() == jms.len(),
            jms == joint_moves(b, our_team),
            1 <= total <= 16,
            forall|q: int| 0 <= q < total ==> (#[trigger] orig[q]).1@ == outcome(b, jms[q], our_team),
            start_state == node_start(our_team, depth, alpha, beta),
            state == after_children(our_team, start_state, vals),
            vals.len() <= total,
            forall|i: int| 0 <= i < vals.len() ==> depth + 1 <= (#[trigger] vals[i]).1 <= MAX_DEPTH,
            vals.len() == 0 ==> state.best.1 == depth,
            vals.len() > 0 ==> depth + 1 <= state.best.1 <= MAX_DEPTH,
            cut matches Option::Some(c) ==> {
                &&& !state.done
                &&& vals.len() < total
                &&& exists|k: int| 0 <= k < jms.len()
                    && c as int == score(#[trigger] outcome(b, jms[k], our_team), false)
            },
        ensures
            cut.is_some() || vals.len() >= 1,
        decreases total - idx,
    {
        let (_key, mut child) = ordered.remove(0);
        assert(search_ready(child@, depth + 1) && child.caches_ok());
        let time_left: i64 = timeout - elapsed_since(&start) - return_time;
        if time_left <= heuristic_time {
            let h = match kept_first {
                Some(mut f) => {
                    proof { lemma_ready_scorable(f@, depth + 1, our_team); }
                    let ghost fv = f@;
                    let h = f.heuristic(false);
                    proof {
                        let q = choose|q: int| 0 <= q < orig.len() && fv == orig[q].1@;
                        assert(outcome(b, jms[q], our_team) == fv);
                    }
                    h
                },
                None => {
                    proof { lemma_ready_scorable(child@, depth + 1, our_team); }
                    let ghost cv = child@;
                    let h = child.heuristic(false);
                    proof {
                        let q = choose|q: int| 0 <= q < orig.len() && cv == orig[q].1@;
                        assert(outcome(b, jms[q], our_team) == cv);
                    }
                    h
                },
            };
            cut = Some(h);
            break;
        }
        let iterations_left = (total - idx) as i64;
        let time_per_move = trunc_div(time_left, iterations_left);
        proof {
            vstd::arithmetic::div_mod::lemma_div_is_ordered_by_denominator(time_left as int, 1, iterations_left as int);
            vstd::arithmetic::div_mod::lemma_div_pos_is_pos(time_left as int, iterations_left as int);
        }
        let value = minmax_simple(
            &mut child,
            depth + 1,
            !our_team,
            state.alpha,
            state.beta,
            heuristic_time,
            return_time,
            time_per_move,
        );
        if idx == 0 {
            kept_first = Some(child);
        }
        let ghost before = vals;
        state = take_child(our_team, state, value);
        proof {
            vals = vals.push(value);
            assert(vals.drop_last() =~= before);
        }
        idx = idx + 1;
        if state.done {
            break;
        }
    }
    let best = match cut {
        Some(c) => (c, depth + 1),
        None => state.best,
    };
    let h = board.heuristic(true);
    let r = back_up(depth, best, h);
    proof {
        assert(cut.is_none() ==> vals.len() >= 1);
        assert(1 <= vals.len() + if cut.is_some() { 1int } else { 0int } <= joint_moves(b, our_team).len());
        assert(state == after_children(our_team, node_start(our_team, depth, alpha, beta), vals));
        assert(r == node_result(our_team, depth, alpha, beta, vals, cut, fast_score(b)));
        assert(searched_node(b, our_team, depth, alpha, beta, vals, cut, r));
    }
    r
}

/// A game-server board the search accepts: room for its snakes, and every
/// snake with a head on the board, within the input limits.
pub open spec fn valid_input(board: &Board, gi: &GameInfo) -> bool {
    &&& board.snakes@.len() <= 4
    &&& fits_slots(board, gi)
    &&& forall|i: int| 0 <= i < board.snakes@.len() ==> {
        let s = #[trigger] board.snakes@[i];
        &&& s.body@.len() >= 1
        &&& s.body@.len() <= INPUT_BODY_LIMIT
        &&& s.health >= INPUT_HEALTH_LIMIT
        &&& in_bounds(s.body@[0])
    }
}

/// A board the search accepts is ready for it at depth 0.
pub proof fn lemma_input_ready(board: &Board, gi: &GameInfo)
    requires
        valid_input(board, gi),
    ensures
        search_ready(board_from(board, gi), 0),
{
    let n = board.snakes@.len() as int;
    crate::simple::lemma_sides(board.snakes@, gi, n);
    let t = side_indices(board.snakes@, gi, true, n);
    let o = side_indices(board.snakes@, gi, false, n);
    let b = board_from(board, gi);
    assert(n <= 4);
    if t.len() == 2 {
        assert(t[0] < t[1]);
    }
    if o.len() == 2 {
        assert(o[0] < o[1]);
    }
    assert forall|k: int, l: int| 0 <= k < t.len() && 0 <= l < o.len() implies t[k] != o[l] by {
        assert(is_agent(gi, board.snakes@[t[k] as int].id@));
        assert(!is_agent(gi, board.snakes@[o[l] as int].id@));
    }
    assert forall|i: int| #[trigger] b.live(i) implies b.snake(i).body.len() >= 1 && {
        let s = b.snake(i);
        &&& s.len() <= INPUT_BODY_LIMIT
        &&& s.health >= INPUT_HEALTH_LIMIT
        &&& 0 <= s.head().x <= 10
        &&& 0 <= s.head().y <= 10
    } by {
        assert(i < n);
        assert(b.snake(i) == view_of_wire(board.snakes@[i]));
    }
}

/// Index `i` holds the first greatest of `vals`.
pub open spec fn first_greatest(vals: Seq<i32>, i: int) -> bool {
    &&& 0 <= i < vals.len()
    &&& forall|q: int| 0 <= q < vals.len() ==> vals[q] <= vals[i]
    &&& forall|q: int| 0 <= q < i ==> vals[q] < vals[i]
}

/// Searches every joint move of the team, with an equal share of the time
/// still left, and returns the value found for each (in the order of
/// `joint_moves`) with the joint move of the first highest value.
pub fn search_scored(board: &Board, game_info: &GameInfo) -> (r: ([SnakeMove; 2], Vec<i32>))
    requires
        valid_input(board, game_info),
    ensures
        r.1@.len() == joint_moves(board_from(board, game_info), true).len(),
        exists|i: int| first_greatest(r.1@, i) && r.0 == joint_moves(board_from(board, game_info), true)[i],
{
    let start = std::time::Instant::now();
    let simple_board = SimpleBoard::from(board, game_info);
    let ghost b = simple_board@;
    proof {
        lemma_input_ready(board, game_info);
        lemma_ready_scorable(b, 0, true);
        lemma_joint_moves_len(b, true);
    }
    let timeout: i64 = game_info.timeout as i64 * 1000000;
    let mut simulations = simple_board.simulate_move(true);
    let ghost orig = simulations@;
    let n = simulations.len();
    proof {
        assert forall|q: int| 0 <= q < n implies search_ready((#[trigger] orig[q]).1@, 1) by {
            lemma_ready_step(b, true, q, 0);
        }
    }
    let mut values: Vec<i32> = Vec::new();
    let mut moves: Vec<[SnakeMove; 2]> = Vec::new();
    let mut best_value: i32 = i32::MIN;
    let mut i: usize = 0;
    while i < n
        invariant
            1 <= n <= 16,
            n == orig.len(),
            n == joint_moves(b, true).len(),
            b == board_from(board, game_info),
            0 <= timeout <= 4294967295000000,
            0 <= i <= n,
            simulations@ == orig.subrange(i as int, n as int),
            forall|q: int| 0 <= q < n ==> {
                &&& (#[trigger] orig[q]).0 == joint_moves(b, true)[q]
                &&& search_ready(orig[q].1@, 1)
                &&& orig[q].1.stored_fast_heuristic.is_none()
                &&& orig[q].1.stored_flood_fill_heuristic.is_none()
            },
            values@.len() == i,
            moves@.len() == i,
            forall|q: int| 0 <= q < i ==> #[trigger] moves@[q] == orig[q].0,
        decreases n - i,
    {
        let (move_pair, mut next_board) = simulations.remove(0);
        assert(next_board@ == orig[i as int].1@);
        let elapsed = elapsed_since(&start);
        let time = trunc_div(timeout - elapsed, (n - i) as i64);
        proof { lemma_quot_bounded((timeout - elapsed) as int, (n - i) as int); }
        let value = minmax_simple(&mut next_board, 1, false, best_value, i32::MAX, 1, 10, time).0;
        if value > best_value {
            best_value = value;
        }
        values.push(value);
        moves.push(move_pair);
        i = i + 1;
        assert(simulations@ =~= orig.subrange(i as int, n as int));
    }
    let idx = pick_best(&values);
    assert(moves@[idx as int] == joint_moves(b, true)[idx as int]);
    assert(first_greatest(values@, idx as int));
    let chosen = moves[idx];
    let r = (chosen, values);
    assert(first_greatest(r.1@, idx as int) && r.0 == joint_moves(board_from(board, game_info), true)[idx as int]);
    r
}

/// Chooses the team's joint move: the one of the first highest value
/// found by `search_scored`. Whatever the clock says, the result is one of
/// the team's joint moves on this board.
pub fn search(board: &Board, game_info: &GameInfo) -> (r: [SnakeMove; 2])
    requires
        valid_input(board, game_info),
    ensures
        joint_moves(board_from(board, game_info), true).contains(r),
{
    let scored = search_scored(board, game_info);
    proof {
        let i = choose|i: int| first_greatest(scored.1@, i) && scored.0 == joint_moves(board_from(board, game_info), true)[i];
        assert(joint_moves(board_from(board, game_info), true)[i] == scored.0);
    }
    scored.0
}

} // verus!
