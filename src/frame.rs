use vstd::prelude::*;
use crate::grid::{contains_cell, Cell};
use crate::maze::World;

verus! {

/// What a cell shows in a frame of the path's animation.
#[derive(Clone, Copy, Debug, PartialEq, Eq, Structural)]
pub enum Glyph {
    Goal,
    Wall,
    Agent,
    Trail,
    Start,
    Empty,
}

/// The glyph of `c` in the frame for `step`: the goal and the obstacles
/// first, then the agent's cell, the cells passed before it, the start, and
/// otherwise an empty cell.
pub open spec fn glyph_of(w: World, path: Seq<Cell>, step: int, c: Cell) -> Glyph {
    if c == w.goal {
        Glyph::Goal
    } else if w.walls@.contains(c) {
        Glyph::Wall
    } else if c == path[step] {
        Glyph::Agent
    } else if path.subrange(0, step).contains(c) {
        Glyph::Trail
    } else if c == w.start {
        Glyph::Start
    } else {
        Glyph::Empty
    }
}

/// The glyph of `c` in the frame that shows `path[step]`.
pub fn glyph_at(w: &World, path: &Vec<Cell>, step: usize, c: Cell) -> (r: Glyph)
    requires
        step < path@.len(),
    ensures
        r == glyph_of(*w, path@, step as int, c),
{
    if c == w.goal {
        return Glyph::Goal;
    }
    if contains_cell(w.walls.as_slice(), c) {
        return Glyph::Wall;
    }
    if c == path[step] {
        return Glyph::Agent;
    }
    let mut i: usize = 0;
    while i < step
        invariant
            step < path@.len(),
            i <= step,
            c != w.goal,
            !w.walls@.contains(c),
            c != path@[step as int],
            forall|j: int| 0 <= j < i ==> path@[j] != c,
        decreases step - i,
    {
        if path[i] == c {
            proof {
                assert(path@.subrange(0, step as int)[i as int] == c);
                assert(path@.subrange(0, step as int).contains(c));
            }
            return Glyph::Trail;
        }
        i += 1;
    }
    proof {
        assert(!path@.subrange(0, step as int).contains(c)) by {
            if path@.subrange(0, step as int).contains(c) {
                let j = choose|j: int| 0 <= j < step && path@.subrange(0, step as int)[j] == c;
                assert(path@[j] == c);
            }
        }
    }
    if c == w.start {
        Glyph::Start
    } else {
        Glyph::Empty
    }
}

} // verus!
