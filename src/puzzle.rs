use vstd::prelude::*;

verus! {

/// The colour of one facelet.
#[derive(Debug, Clone, Copy, PartialEq, Eq, Structural, Hash)]
pub enum Colour {
    Red,
    Yellow,
    Blue,
    Green,
}

/// The six facelets of one triangular face, in their fixed position order.
#[derive(Debug, Clone, Copy, PartialEq, Eq, Structural, Hash)]
pub struct FaceState {
    pub one: Colour,
    pub two: Colour,
    pub three: Colour,
    pub four: Colour,
    pub five: Colour,
    pub six: Colour,
}

/// A whole puzzle: its four faces.
#[derive(Debug, Clone, Copy, PartialEq, Eq, Structural, Hash)]
pub struct State {
    pub front: FaceState,
    pub left: FaceState,
    pub right: FaceState,
    pub base: FaceState,
}

/// The direction of a quarter-turn.
#[derive(Debug, Clone, Copy, PartialEq, Eq, Structural, Hash)]
pub enum Rotation {
    Clockwise,
    AntiClockwise,
}

/// A vertex of the tetrahedron, where three faces meet and turn together.
#[derive(Debug, Clone, Copy, PartialEq, Eq, Structural, Hash)]
pub enum Corner {
    FrontLeftBase,
    FrontRightBase,
    FrontLeftRight,
    BaseLeftRight,
}

/// A face whose six facelets all have colour `c`.
pub open spec fn uniform_face(c: Colour) -> FaceState {
    FaceState { one: c, two: c, three: c, four: c, five: c, six: c }
}

/// The solved puzzle: each face one colour, red in front, yellow left, blue
/// right and green at the base.
pub open spec fn solved() -> State {
    State {
        front: uniform_face(Colour::Red),
        left: uniform_face(Colour::Yellow),
        right: uniform_face(Colour::Blue),
        base: uniform_face(Colour::Green),
    }
}

/// The other direction of turn.
pub open spec fn inverse(r: Rotation) -> Rotation {
    match r {
        Rotation::Clockwise => Rotation::AntiClockwise,
        Rotation::AntiClockwise => Rotation::Clockwise,
    }
}

/// The corners in the order in which the search tries them.
pub open spec fn corner_order() -> Seq<Corner> {
    seq![Corner::FrontLeftBase, Corner::FrontRightBase, Corner::FrontLeftRight, Corner::BaseLeftRight]
}

/// The directions in the order in which the search tries them.
pub open spec fn rotation_order() -> Seq<Rotation> {
    seq![Rotation::Clockwise, Rotation::AntiClockwise]
}

impl FaceState {
    pub fn new(
        one: Colour,
        two: Colour,
        three: Colour,
        four: Colour,
        five: Colour,
        six: Colour,
    ) -> (f: FaceState)
        ensures
            f == (FaceState { one, two, three, four, five, six }),
    {
        FaceState { one: one, two: two, three: three, four: four, five: five, six: six }
    }

    pub fn from_colour(colour: Colour) -> (f: FaceState)
        ensures
            f == uniform_face(colour),
    {
        FaceState::new(colour, colour, colour, colour, colour, colour)
    }
}

impl State {
    /// The solved state.
    pub fn new() -> (s: State)
        ensures
            s == solved(),
    {
        State {
            front: FaceState::from_colour(Colour::Red),
            left: FaceState::from_colour(Colour::Yellow),
            right: FaceState::from_colour(Colour::Blue),
            base: FaceState::from_colour(Colour::Green),
        }
    }
}

impl Rotation {
    /// Both directions, clockwise first.
    pub fn new_vec() -> (v: Vec<Rotation>)
        ensures
            v@ == rotation_order(),
    {
        let mut res: Vec<Rotation> = Vec::new();
        res.push(Rotation::Clockwise);
        res.push(Rotation::AntiClockwise);
        proof {
            assert(res@ =~= rotation_order());
        }
        res
    }
}

impl Corner {
    /// The four corners in their fixed order.
    pub fn new_vec() -> (v: Vec<Corner>)
        ensures
            v@ == corner_order(),
    {
        let mut res: Vec<Corner> = Vec::new();
        res.push(Corner::FrontLeftBase);
        res.push(Corner::FrontRightBase);
        res.push(Corner::FrontLeftRight);
        res.push(Corner::BaseLeftRight);
        proof {
            assert(res@ =~= corner_order());
        }
        res
    }
}

} // verus!
