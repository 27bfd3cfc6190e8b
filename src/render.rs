//! A text picture of a board, for diagnostics.

use vstd::prelude::*;
use crate::wire::Coord;
use crate::simple::{BoardView, SimpleBoard};

verus! {

/// Relies on `String::push`: appends the character to the string.
#[verifier::external_body]
fn push_char(s: &mut String, c: char)
    ensures
        final(s)@ == old(s)@.push(c),
{
    s.push(c)
}

/// The first slot from `from` on whose snake covers `c`.
pub open spec fn first_holder(b: BoardView, c: Coord, from: int) -> Option<int>
    decreases 4 - from,
{
    if from < 0 || from >= 4 {
        Option::None
    } else if b.live(from) && b.snake(from).body.contains(c) {
        Option::Some(from)
    } else {
        first_holder(b, c, from + 1)
    }
}

/// What a cell shows: `f` for food, `h` for the head and `s` for the body of
/// the first snake covering it, and a blank otherwise.
pub open spec fn glyph(b: BoardView, c: Coord) -> char {
    if b.food.contains(c) {
        'f'
    } else {
        match first_holder(b, c, 0) {
            Option::Some(i) => if b.snake(i).head() == c { 'h' } else { 's' },
            Option::None => ' ',
        }
    }
}

/// The frame line above and below the picture.
pub open spec fn frame() -> Seq<char> {
    seq!['\n', '|', ':', '-', '-', '-', '-', '-', '-', '-', '-', '-', ':', '|']
}

/// Row `y` of the picture, on a line of its own.
pub open spec fn row(b: BoardView, y: int) -> Seq<char> {
    seq!['\n', '|'] + Seq::new(11, |x: int| glyph(b, Coord { x: x as i32, y: y as i32 })) + seq!['|']
}

/// The first `n` rows, top row (`y == 10`) first.
pub open spec fn rows(b: BoardView, n: int) -> Seq<char>
    decreases n,
{
    if n <= 0 { seq![] } else { rows(b, n - 1) + row(b, 11 - n) }
}

/// The picture of a board: a frame line, the eleven rows from the top,
/// and a frame line.
pub open spec fn picture(b: BoardView) -> Seq<char> {
    frame() + rows(b, 11) + frame()
}

fn push_frame(s: &mut String)
    ensures
        final(s)@ == old(s)@ + frame(),
{
    let ghost start = s@;
    push_char(s, '\n');
    push_char(s, '|');
    push_char(s, ':');
    let mut k: usize = 0;
    while k < 9
        invariant
            0 <= k <= 9,
            s@ == start + seq!['\n', '|', ':'] + Seq::new(k as nat, |i: int| '-'),
        decreases 9 - k,
    {
        push_char(s, '-');
        k = k + 1;
        assert(s@ =~= start + seq!['\n', '|', ':'] + Seq::new(k as nat, |i: int| '-'));
    }
    push_char(s, ':');
    push_char(s, '|');
    assert(s@ =~= start + frame());
}

impl SimpleBoard {
    fn first_holder(&self, c: Coord) -> (r: Option<usize>)
        requires
            self@.wf(),
        ensures
            r matches Option::Some(i) ==> first_holder(self@, c, 0) == Option::Some(i as int) && i < 4 && self@.live(i as int),
            r.is_none() ==> first_holder(self@, c, 0).is_none(),
    {
        let mut i: usize = 0;
        while i < 4
            invariant
                self@.wf(),
                0 <= i <= 4,
                first_holder(self@, c, 0) == first_holder(self@, c, i as int),
            decreases 4 - i,
        {
            proof { self.lemma_slot_view(i as int); }
            match &self.snakes[i] {
                Some(s) => {
                    if crate::simple::body_contains(&s.body, c) {
                        assert(self@.snake(i as int).body.contains(c));
                        return Some(i);
                    }
                },
                None => {},
            }
            i = i + 1;
        }
        None
    }

    fn glyph(&self, c: Coord) -> (r: char)
        requires
            self@.wf(),
        ensures
            r == glyph(self@, c),
    {
        let mut k: usize = 0;
        while k < self.food.len()
            invariant
                0 <= k <= self.food@.len(),
                forall|j: int| 0 <= j < k ==> self.food@[j] != c,
            decreases self.food@.len() - k,
        {
            if self.food[k] == c {
                assert(self@.food[k as int] == c);
                return 'f';
            }
            k = k + 1;
        }
        assert(!self@.food.contains(c));
        match self.first_holder(c) {
            Some(i) => {
                proof { self.lemma_slot_view(i as int); }
                match &self.snakes[i] {
                    Some(s) => if s.body[0] == c { 'h' } else { 's' },
                    None => ' ',
                }
            },
            None => ' ',
        }
    }

    /// A text picture of this board (see `picture`).
    pub fn render(&self) -> (r: String)
        requires
            self@.wf(),
        ensures
            r@ == picture(self@),
    {
        let mut s = String::new();
        push_frame(&mut s);
        let mut n: usize = 0;
        while n < 11
            invariant
                self@.wf(),
                0 <= n <= 11,
                s@ == frame() + rows(self@, n as int),
            decreases 11 - n,
        {
            let y: i32 = 10 - n as i32;
            let ghost before = s@;
            push_char(&mut s, '\n');
            push_char(&mut s, '|');
            let mut x: i32 = 0;
            while x < 11
                invariant
                    self@.wf(),
                    0 <= x <= 11,
                    0 <= y <= 10,
                    s@ == before + seq!['\n', '|'] + Seq::new(x as nat, |i: int| glyph(self@, Coord { x: i as i32, y })),
                decreases 11 - x,
            {
                let g = self.glyph(Coord { x, y });
                push_char(&mut s, g);
                x = x + 1;
                assert(s@ =~= before + seq!['\n', '|'] + Seq::new(x as nat, |i: int| glyph(self@, Coord { x: i as i32, y })));
            }
            push_char(&mut s, '|');
            n = n + 1;
            assert(s@ =~= frame() + rows(self@, n as int));
        }
        push_frame(&mut s);
        s
    }
}

} // verus!
