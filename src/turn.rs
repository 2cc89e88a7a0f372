use vstd::prelude::*;
use crate::puzzle::{inverse, Corner, FaceState, Rotation, State};

verus! {

/// The state after a quarter-turn of `corner` in direction `rotation`: the
/// three facelets of each adjoining face nearest that corner move, as a block,
/// onto the next face round the corner.
#[verifier::opaque]
pub open spec fn turned(state: State, corner: Corner, rotation: Rotation) -> State {
    let f = state.front;
    let l = state.left;
    let r = state.right;
    let b = state.base;
    match corner {
        Corner::FrontLeftBase => match rotation {
            Rotation::Clockwise => State {
                front: FaceState { four: l.two, five: l.three, six: l.four, ..f },
                left: FaceState { two: b.two, three: b.three, four: b.four, ..l },
                right: r,
                base: FaceState { two: f.four, three: f.five, four: f.six, ..b },
            },
            Rotation::AntiClockwise => State {
                front: FaceState { four: b.two, five: b.three, six: b.four, ..f },
                left: FaceState { two: f.four, three: f.five, four: f.six, ..l },
                right: r,
                base: FaceState { two: l.two, three: l.three, four: l.four, ..b },
            },
        },
        Corner::FrontRightBase => match rotation {
            Rotation::Clockwise => State {
                front: FaceState { two: b.four, three: b.five, four: b.six, ..f },
                left: l,
                right: FaceState { four: f.two, five: f.three, six: f.four, ..r },
                base: FaceState { four: r.four, five: r.five, six: r.six, ..b },
            },
            Rotation::AntiClockwise => State {
                front: FaceState { two: r.four, three: r.five, four: r.six, ..f },
                left: l,
                right: FaceState { four: b.four, five: b.five, six: b.six, ..r },
                base: FaceState { four: f.two, five: f.three, six: f.four, ..b },
            },
        },
        Corner::FrontLeftRight => match rotation {
            Rotation::Clockwise => State {
                front: FaceState { one: r.one, two: r.two, six: r.six, ..f },
                left: FaceState { one: f.one, two: f.two, six: f.six, ..l },
                right: FaceState { one: l.one, two: l.two, six: l.six, ..r },
                base: b,
            },
            Rotation::AntiClockwise => State {
                front: FaceState { one: l.one, two: l.two, six: l.six, ..f },
                left: FaceState { one: r.one, two: r.two, six: r.six, ..l },
                right: FaceState { one: f.one, two: f.two, six: f.six, ..r },
                base: b,
            },
        },
        Corner::BaseLeftRight => match rotation {
            Rotation::Clockwise => State {
                front: f,
                left: FaceState { four: r.two, five: r.three, six: r.four, ..l },
                right: FaceState { two: b.six, three: b.one, four: b.two, ..r },
                base: FaceState { one: l.five, two: l.six, six: l.four, ..b },
            },
            Rotation::AntiClockwise => State {
                front: f,
                left: FaceState { four: b.six, five: b.one, six: b.two, ..l },
                right: FaceState { two: l.four, three: l.five, four: l.six, ..r },
                base: FaceState { one: r.three, two: r.four, six: r.two, ..b },
            },
        },
    }
}

/// The state reached from `state` by the turns of `path`, first to last.
pub open spec fn run(state: State, path: Seq<(Corner, Rotation)>) -> State
    decreases path.len(),
{
    if path.len() == 0 {
        state
    } else {
        let m = path.last();
        turned(run(state, path.drop_last()), m.0, m.1)
    }
}

/// The turns that take the end of `path` back to its start: the same corners
/// in reverse order, each turned the other way.
pub open spec fn undo(path: Seq<(Corner, Rotation)>) -> Seq<(Corner, Rotation)>
    decreases path.len(),
{
    if path.len() == 0 {
        path
    } else {
        let m = path.last();
        seq![(m.0, inverse(m.1))] + undo(path.drop_last())
    }
}

/// Applies one quarter-turn of `corner` in direction `rotation` to `state`.
pub fn turn(state: State, corner: Corner, rotation: Rotation) -> (next: State)
    ensures
        next == turned(state, corner, rotation),
{
    match corner {
        Corner::FrontLeftBase => match rotation {
            Rotation::Clockwise => turn_front_left_base_clockwise(state),
            Rotation::AntiClockwise => turn_front_left_base_anticlockwise(state),
        },
        Corner::FrontRightBase => match rotation {
            Rotation::Clockwise => turn_front_right_base_clockwise(state),
            Rotation::AntiClockwise => turn_front_right_base_anticlockwise(state),
        },
        Corner::FrontLeftRight => match rotation {
            Rotation::Clockwise => turn_front_left_right_clockwise(state),
            Rotation::AntiClockwise => turn_front_left_right_anticlockwise(state),
        },
        Corner::BaseLeftRight => match rotation {
            Rotation::Clockwise => turn_base_left_right_clockwise(state),
            Rotation::AntiClockwise => turn_base_left_right_anticlockwise(state),
        },
    }
}

fn turn_front_left_base_clockwise(state: State) -> (next: State)
    ensures
        next == turned(state, Corner::FrontLeftBase, Rotation::Clockwise),
{
    proof {
        reveal(turned);
    }
    let f = state.front;
    let l = state.left;
    let r = state.right;
    let b = state.base;
    State {
        front: FaceState::new(f.one, f.two, f.three, l.two, l.three, l.four),
        left: FaceState::new(l.one, b.two, b.three, b.four, l.five, l.six),
        right: r,
        base: FaceState::new(b.one, f.four, f.five, f.six, b.five, b.six),
    }
}

fn turn_front_left_base_anticlockwise(state: State) -> (next: State)
    ensures
        next == turned(state, Corner::FrontLeftBase, Rotation::AntiClockwise),
{
    proof {
        reveal(turned);
    }
    let f = state.front;
    let l = state.left;
    let r = state.right;
    let b = state.base;
    State {
        front: FaceState::new(f.one, f.two, f.three, b.two, b.three, b.four),
        left: FaceState::new(l.one, f.four, f.five, f.six, l.five, l.six),
        right: r,
        base: FaceState::new(b.one, l.two, l.three, l.four, b.five, b.six),
    }
}

fn turn_front_right_base_clockwise(state: State) -> (next: State)
    ensures
        next == turned(state, Corner::FrontRightBase, Rotation::Clockwise),
{
    proof {
        reveal(turned);
    }
    let f = state.front;
    let l = state.left;
    let r = state.right;
    let b = state.base;
    State {
        front: FaceState::new(f.one, b.four, b.five, b.six, f.five, f.six),
        left: l,
        right: FaceState::new(r.one, r.two, r.three, f.two, f.three, f.four),
        base: FaceState::new(b.one, b.two, b.three, r.four, r.five, r.six),
    }
}

fn turn_front_right_base_anticlockwise(state: State) -> (next: State)
    ensures
        next == turned(state, Corner::FrontRightBase, Rotation::AntiClockwise),
{
    proof {
        reveal(turned);
    }
    let f = state.front;
    let l = state.left;
    let r = state.right;
    let b = state.base;
    State {
        front: FaceState::new(f.one, r.four, r.five, r.six, f.five, f.six),
        left: l,
        right: FaceState::new(r.one, r.two, r.three, b.four, b.five, b.six),
        base: FaceState::new(b.one, b.two, b.three, f.two, f.three, f.four),
    }
}

fn turn_front_left_right_clockwise(state: State) -> (next: State)
    ensures
        next == turned(state, Corner::FrontLeftRight, Rotation::Clockwise),
{
    proof {
        reveal(turned);
    }
    let f = state.front;
    let l = state.left;
    let r = state.right;
    let b = state.base;
    State {
        front: FaceState::new(r.one, r.two, f.three, f.four, f.five, r.six),
        left: FaceState::new(f.one, f.two, l.three, l.four, l.five, f.six),
        right: FaceState::new(l.one, l.two, r.three, r.four, r.five, l.six),
        base: b,
    }
}

fn turn_front_left_right_anticlockwise(state: State) -> (next: State)
    ensures
        next == turned(state, Corner::FrontLeftRight, Rotation::AntiClockwise),
{
    proof {
        reveal(turned);
    }
    let f = state.front;
    let l = state.left;
    let r = state.right;
    let b = state.base;
    State {
        front: FaceState::new(l.one, l.two, f.three, f.four, f.five, l.six),
        left: FaceState::new(r.one, r.two, l.three, l.four, l.five, r.six),
        right: FaceState::new(f.one, f.two, r.three, r.four, r.five, f.six),
        base: b,
    }
}

fn turn_base_left_right_clockwise(state: State) -> (next: State)
    ensures
        next == turned(state, Corner::BaseLeftRight, Rotation::Clockwise),
{
    proof {
        reveal(turned);
    }
    let f = state.front;
    let l = state.left;
    let r = state.right;
    let b = state.base;
    State {
        front: f,
        left: FaceState::new(l.one, l.two, l.three, r.two, r.three, r.four),
        right: FaceState::new(r.one, b.six, b.one, b.two, r.five, r.six),
        base: FaceState::new(l.five, l.six, b.three, b.four, b.five, l.four),
    }
}

fn turn_base_left_right_anticlockwise(state: State) -> (next: State)
    ensures
        next == turned(state, Corner::BaseLeftRight, Rotation::AntiClockwise),
{
    proof {
        reveal(turned);
    }
    let f = state.front;
    let l = state.left;
    let r = state.right;
    let b = state.base;
    State {
        front: f,
        left: FaceState::new(l.one, l.two, l.three, b.six, b.one, b.two),
        right: FaceState::new(r.one, l.four, l.five, l.six, r.five, r.six),
        base: FaceState::new(r.three, r.four, b.three, b.four, b.five, r.two),
    }
}

/// Three quarter-turns of one corner in one direction bring every state back
/// to itself.
pub proof fn lemma_three_turns_identity(state: State, corner: Corner, rotation: Rotation)
    ensures
        turned(turned(turned(state, corner, rotation), corner, rotation), corner, rotation)
            == state,
{
    let once = turned(state, corner, rotation);
    lemma_double_turn(once, corner, rotation);
    lemma_turn_then_inverse(state, corner, rotation);
}

/// Two quarter-turns of a corner one way are one quarter-turn the other way.
pub proof fn lemma_double_turn(state: State, corner: Corner, rotation: Rotation)
    ensures
        turned(turned(state, corner, rotation), corner, rotation)
            == turned(state, corner, inverse(rotation)),
{
    match corner {
        Corner::FrontLeftBase => match rotation {
            Rotation::Clockwise => {
                assert(turned(turned(state, Corner::FrontLeftBase, Rotation::Clockwise), Corner::FrontLeftBase, Rotation::Clockwise) == turned(state, Corner::FrontLeftBase, Rotation::AntiClockwise)) by {
                    reveal(turned);
                }
            },
            Rotation::AntiClockwise => {
                assert(turned(turned(state, Corner::FrontLeftBase, Rotation::AntiClockwise), Corner::FrontLeftBase, Rotation::AntiClockwise) == turned(state, Corner::FrontLeftBase, Rotation::Clockwise)) by {
                    reveal(turned);
                }
            },
        },
        Corner::FrontRightBase => match rotation {
            Rotation::Clockwise => {
                assert(turned(turned(state, Corner::FrontRightBase, Rotation::Clockwise), Corner::FrontRightBase, Rotation::Clockwise) == turned(state, Corner::FrontRightBase, Rotation::AntiClockwise)) by {
                    reveal(turned);
                }
            },
            Rotation::AntiClockwise => {
                assert(turned(turned(state, Corner::FrontRightBase, Rotation::AntiClockwise), Corner::FrontRightBase, Rotation::AntiClockwise) == turned(state, Corner::FrontRightBase, Rotation::Clockwise)) by {
                    reveal(turned);
                }
            },
        },
        Corner::FrontLeftRight => match rotation {
            Rotation::Clockwise => {
                assert(turned(turned(state, Corner::FrontLeftRight, Rotation::Clockwise), Corner::FrontLeftRight, Rotation::Clockwise) == turned(state, Corner::FrontLeftRight, Rotation::AntiClockwise)) by {
                    reveal(turned);
                }
            },
            Rotation::AntiClockwise => {
                assert(turned(turned(state, Corner::FrontLeftRight, Rotation::AntiClockwise), Corner::FrontLeftRight, Rotation::AntiClockwise) == turned(state, Corner::FrontLeftRight, Rotation::Clockwise)) by {
                    reveal(turned);
                }
            },
        },
        Corner::BaseLeftRight => match rotation {
            Rotation::Clockwise => {
                assert(turned(turned(state, Corner::BaseLeftRight, Rotation::Clockwise), Corner::BaseLeftRight, Rotation::Clockwise) == turned(state, Corner::BaseLeftRight, Rotation::AntiClockwise)) by {
                    reveal(turned);
                }
            },
            Rotation::AntiClockwise => {
                assert(turned(turned(state, Corner::BaseLeftRight, Rotation::AntiClockwise), Corner::BaseLeftRight, Rotation::AntiClockwise) == turned(state, Corner::BaseLeftRight, Rotation::Clockwise)) by {
                    reveal(turned);
                }
            },
        },
    }
}

/// A quarter-turn followed by the same corner's turn the other way leaves
/// every state unchanged.
pub proof fn lemma_turn_then_inverse(state: State, corner: Corner, rotation: Rotation)
    ensures
        turned(turned(state, corner, rotation), corner, inverse(rotation)) == state,
{
    match corner {
        Corner::FrontLeftBase => match rotation {
            Rotation::Clockwise => {
                assert(turned(turned(state, Corner::FrontLeftBase, Rotation::Clockwise), Corner::FrontLeftBase, Rotation::AntiClockwise) == state) by {
                    reveal(turned);
                }
            },
            Rotation::AntiClockwise => {
                assert(turned(turned(state, Corner::FrontLeftBase, Rotation::AntiClockwise), Corner::FrontLeftBase, Rotation::Clockwise) == state) by {
                    reveal(turned);
                }
            },
        },
        Corner::FrontRightBase => match rotation {
            Rotation::Clockwise => {
                assert(turned(turned(state, Corner::FrontRightBase, Rotation::Clockwise), Corner::FrontRightBase, Rotation::AntiClockwise) == state) by {
                    reveal(turned);
                }
            },
            Rotation::AntiClockwise => {
                assert(turned(turned(state, Corner::FrontRightBase, Rotation::AntiClockwise), Corner::FrontRightBase, Rotation::Clockwise) == state) by {
                    reveal(turned);
                }
            },
        },
        Corner::FrontLeftRight => match rotation {
            Rotation::Clockwise => {
                assert(turned(turned(state, Corner::FrontLeftRight, Rotation::Clockwise), Corner::FrontLeftRight, Rotation::AntiClockwise) == state) by {
                    reveal(turned);
                }
            },
            Rotation::AntiClockwise => {
                assert(turned(turned(state, Corner::FrontLeftRight, Rotation::AntiClockwise), Corner::FrontLeftRight, Rotation::Clockwise) == state) by {
                    reveal(turned);
                }
            },
        },
        Corner::BaseLeftRight => match rotation {
            Rotation::Clockwise => {
                assert(turned(turned(state, Corner::BaseLeftRight, Rotation::Clockwise), Corner::BaseLeftRight, Rotation::AntiClockwise) == state) by {
                    reveal(turned);
                }
            },
            Rotation::AntiClockwise => {
                assert(turned(turned(state, Corner::BaseLeftRight, Rotation::AntiClockwise), Corner::BaseLeftRight, Rotation::Clockwise) == state) by {
                    reveal(turned);
                }
            },
        },
    }
}

/// Running `a` and then `b` is running their concatenation.
pub proof fn lemma_run_concat(state: State, a: Seq<(Corner, Rotation)>, b: Seq<(Corner, Rotation)>)
    ensures
        run(state, a + b) == run(run(state, a), b),
    decreases b.len(),
{
    if b.len() == 0 {
        assert(a + b =~= a);
    } else {
        lemma_run_concat(state, a, b.drop_last());
        assert((a + b).drop_last() =~= a + b.drop_last());
    }
}

/// `undo(path)` has as many turns as `path`, and it takes the end of `path`
/// back to where `path` started.
pub proof fn lemma_undo(state: State, path: Seq<(Corner, Rotation)>)
    ensures
        undo(path).len() == path.len(),
        run(run(state, path), undo(path)) == state,
    decreases path.len(),
{
    if path.len() > 0 {
        let m = path.last();
        let rest = path.drop_last();
        let end = run(state, path);
        lemma_undo(state, rest);
        lemma_run_concat(end, seq![(m.0, inverse(m.1))], undo(rest));
        let back = seq![(m.0, inverse(m.1))];
        assert(back.drop_last() =~= Seq::<(Corner, Rotation)>::empty());
        assert(run(end, back) == turned(run(end, back.drop_last()), m.0, inverse(m.1)));
        lemma_turn_then_inverse(run(state, rest), m.0, m.1);
    }
}

} // verus!
