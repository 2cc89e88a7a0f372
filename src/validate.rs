use vstd::prelude::*;
use crate::puzzle::{solved, Colour, Corner, FaceState, Rotation, State};
use crate::turn::{lemma_double_turn, run, turned};

verus! {

/// Why the library refused to work on a state.
#[derive(Debug, Clone, Copy, PartialEq, Eq, Structural)]
pub enum SolveError {
    /// The state breaks a colour-count, corner or edge rule of the puzzle.
    InvalidState,
    /// No sequence of turns leads from the state to the solved state.
    SearchExhausted,
}

/// One if facelet colour `c` is `k`, else zero.
#[verifier::opaque]
pub open spec fn indicator(c: Colour, k: Colour) -> int {
    if c == k {
        1
    } else {
        0
    }
}

/// How many of the six facelets of `f` have colour `k`.
pub open spec fn tally(f: FaceState, k: Colour) -> int {
    indicator(f.one, k) + indicator(f.two, k) + indicator(f.three, k) + indicator(f.four, k)
        + indicator(f.five, k) + indicator(f.six, k)
}

/// How many of the 24 facelets of `s` have colour `c`.
pub open spec fn colour_count(s: State, c: Colour) -> int {
    tally(s.front, c) + tally(s.left, c) + tally(s.right, c) + tally(s.base, c)
}

/// Each colour covers exactly six facelets.
pub open spec fn counts_ok(s: State) -> bool {
    forall|c: Colour| colour_count(s, c) == 6
}

/// `t` is one of the three cyclic rotations of `(a, b, c)`.
pub open spec fn cyclic(t: (Colour, Colour, Colour), a: Colour, b: Colour, c: Colour) -> bool {
    t == (a, b, c) || t == (b, c, a) || t == (c, a, b)
}

/// The three facelets nearest each corner, one from each face that meets there.
pub open spec fn clusters(s: State) -> Seq<(Colour, Colour, Colour)> {
    seq![
        (s.front.five, s.base.three, s.left.three),
        (s.front.one, s.left.one, s.right.one),
        (s.front.three, s.right.five, s.base.five),
        (s.left.five, s.base.one, s.right.three),
    ]
}

/// Each corner cluster shows its corner's colours in their cyclic order.
pub open spec fn corners_ok(s: State) -> bool {
    let k = clusters(s);
    &&& cyclic(k[0], Colour::Red, Colour::Green, Colour::Yellow)
    &&& cyclic(k[1], Colour::Red, Colour::Yellow, Colour::Blue)
    &&& cyclic(k[2], Colour::Red, Colour::Blue, Colour::Green)
    &&& cyclic(k[3], Colour::Green, Colour::Blue, Colour::Yellow)
}

/// The two facelets on either side of each of the six edges.
pub open spec fn edges(s: State) -> Seq<(Colour, Colour)> {
    seq![
        (s.front.two, s.right.six),
        (s.front.four, s.base.four),
        (s.front.six, s.left.two),
        (s.base.two, s.left.four),
        (s.base.six, s.right.four),
        (s.left.six, s.right.two),
    ]
}

/// `p` and `q` hold the same two colours, in either order.
pub open spec fn same_pair(p: (Colour, Colour), q: (Colour, Colour)) -> bool {
    (p.0 == q.0 && p.1 == q.1) || (p.0 == q.1 && p.1 == q.0)
}

/// Each edge shows two different colours, and no two edges show the same
/// pair: so the six edges use up the six pairs of colours, one each.
pub open spec fn pairs_ok(e: Seq<(Colour, Colour)>) -> bool {
    &&& forall|i: int| 0 <= i < e.len() ==> #[trigger] e[i].0 != e[i].1
    &&& forall|i: int, j: int|
        0 <= i < j < e.len() ==> !same_pair(#[trigger] e[i], #[trigger] e[j])
}

/// A legal configuration: right colour counts, corners and edges.
pub open spec fn legal(s: State) -> bool {
    counts_ok(s) && corners_ok(s) && pairs_ok(edges(s))
}

fn tally_face(f: FaceState, c: Colour) -> (n: u8)
    ensures
        n == tally(f, c),
        n <= 6,
{
    proof {
        reveal(indicator);
    }
    let mut n: u8 = 0;
    if f.one == c {
        n = n + 1;
    }
    if f.two == c {
        n = n + 1;
    }
    if f.three == c {
        n = n + 1;
    }
    if f.four == c {
        n = n + 1;
    }
    if f.five == c {
        n = n + 1;
    }
    if f.six == c {
        n = n + 1;
    }
    n
}

fn count_colour(s: State, c: Colour) -> (n: u8)
    ensures
        n == colour_count(s, c),
{
    tally_face(s.front, c) + tally_face(s.left, c) + tally_face(s.right, c) + tally_face(s.base, c)
}

fn is_cyclic(x: Colour, y: Colour, z: Colour, a: Colour, b: Colour, c: Colour) -> (r: bool)
    ensures
        r == cyclic((x, y, z), a, b, c),
{
    (x == a && y == b && z == c) || (x == b && y == c && z == a) || (x == c && y == a && z == b)
}

fn edge_pairs(s: State) -> (e: Vec<(Colour, Colour)>)
    ensures
        e@ == edges(s),
{
    let e = vec![
        (s.front.two, s.right.six),
        (s.front.four, s.base.four),
        (s.front.six, s.left.two),
        (s.base.two, s.left.four),
        (s.base.six, s.right.four),
        (s.left.six, s.right.two),
    ];
    assert(e@ =~= edges(s));
    e
}

fn pairs_distinct(e: &Vec<(Colour, Colour)>) -> (r: bool)
    ensures
        r == pairs_ok(e@),
{
    let mut i: usize = 0;
    while i < e.len()
        invariant
            i <= e@.len(),
            pairs_ok(e@.subrange(0, i as int)),
        decreases e@.len() - i,
    {
        let (a, b) = e[i];
        if a == b {
            assert(e@[i as int].0 == e@[i as int].1);
            return false;
        }
        let mut j: usize = 0;
        while j < i
            invariant
                j <= i < e@.len(),
                (a, b) == e@[i as int],
                forall|k: int| 0 <= k < j ==> !same_pair(#[trigger] e@[k], e@[i as int]),
            decreases i - j,
        {
            let (c, d) = e[j];
            if (a == c && b == d) || (a == d && b == c) {
                assert(same_pair(e@[j as int], e@[i as int]));
                return false;
            }
            j = j + 1;
        }
        assert(pairs_ok(e@.subrange(0, i + 1))) by {
            let s = e@.subrange(0, i + 1);
            assert forall|x: int, y: int| 0 <= x < y < s.len() implies !same_pair(
                #[trigger] s[x],
                #[trigger] s[y],
            ) by {
                if y < i {
                    assert(e@.subrange(0, i as int)[x] == s[x]);
                    assert(e@.subrange(0, i as int)[y] == s[y]);
                }
            }
            assert forall|x: int| 0 <= x < s.len() implies #[trigger] s[x].0 != s[x].1 by {
                if x < i {
                    assert(e@.subrange(0, i as int)[x] == s[x]);
                }
            }
        }
        i = i + 1;
    }
    assert(e@.subrange(0, e@.len() as int) =~= e@);
    true
}

fn counts_correct(state: State) -> (r: bool)
    ensures
        r == counts_ok(state),
{
    let red = count_colour(state, Colour::Red);
    let yellow = count_colour(state, Colour::Yellow);
    let blue = count_colour(state, Colour::Blue);
    let green = count_colour(state, Colour::Green);
    let r = red == 6 && yellow == 6 && blue == 6 && green == 6;
    if r {
        assert forall|c: Colour| colour_count(state, c) == 6 by {
            match c {
                Colour::Red => {},
                Colour::Yellow => {},
                Colour::Blue => {},
                Colour::Green => {},
            }
        }
    }
    r
}

fn corners_correct(state: State) -> (r: bool)
    ensures
        r == corners_ok(state),
{
    let f = state.front;
    let l = state.left;
    let r = state.right;
    let b = state.base;
    is_cyclic(f.five, b.three, l.three, Colour::Red, Colour::Green, Colour::Yellow) && is_cyclic(
        f.one,
        l.one,
        r.one,
        Colour::Red,
        Colour::Yellow,
        Colour::Blue,
    ) && is_cyclic(f.three, r.five, b.five, Colour::Red, Colour::Blue, Colour::Green) && is_cyclic(
        l.five,
        b.one,
        r.three,
        Colour::Green,
        Colour::Blue,
        Colour::Yellow,
    )
}

/// Checks that `state` is a legal configuration of the puzzle.
pub fn colour_correct(state: State) -> (r: Result<(), SolveError>)
    ensures
        r == (if legal(state) {
            Ok::<(), SolveError>(())
        } else {
            Err(SolveError::InvalidState)
        }),
{
    let e = edge_pairs(state);
    if counts_correct(state) && corners_correct(state) && pairs_distinct(&e) {
        Ok(())
    } else {
        Err(SolveError::InvalidState)
    }
}

/// The `i`-th of six indices `p0` to `p5`.
spec fn pick(p0: int, p1: int, p2: int, p3: int, p4: int, p5: int, i: int) -> int {
    if i == 0 {
        p0
    } else if i == 1 {
        p1
    } else if i == 2 {
        p2
    } else if i == 3 {
        p3
    } else if i == 4 {
        p4
    } else {
        p5
    }
}

/// Edges that show the same pairs as legal edges, in another order and
/// either way round, are legal too.
proof fn lemma_pairs_permuted(
    before: Seq<(Colour, Colour)>,
    after: Seq<(Colour, Colour)>,
    p0: int,
    p1: int,
    p2: int,
    p3: int,
    p4: int,
    p5: int,
)
    requires
        pairs_ok(before),
        before.len() == 6,
        after.len() == 6,
        0 <= p0 < 6 && 0 <= p1 < 6 && 0 <= p2 < 6 && 0 <= p3 < 6 && 0 <= p4 < 6 && 0 <= p5 < 6,
        p0 != p1,
        p0 != p2,
        p0 != p3,
        p0 != p4,
        p0 != p5,
        p1 != p2,
        p1 != p3,
        p1 != p4,
        p1 != p5,
        p2 != p3,
        p2 != p4,
        p2 != p5,
        p3 != p4,
        p3 != p5,
        p4 != p5,
        same_pair(after[0], before[p0]),
        same_pair(after[1], before[p1]),
        same_pair(after[2], before[p2]),
        same_pair(after[3], before[p3]),
        same_pair(after[4], before[p4]),
        same_pair(after[5], before[p5]),
    ensures
        pairs_ok(after),
{
    assert forall|i: int| 0 <= i < 6 implies same_pair(after[i], before[pick(p0, p1, p2, p3, p4, p5, i)]) by {
        if i == 0 {
        } else if i == 1 {
        } else if i == 2 {
        } else if i == 3 {
        } else if i == 4 {
        } else {
        }
    }
    assert forall|i: int| 0 <= i < after.len() implies #[trigger] after[i].0 != after[i].1 by {
        let k = pick(p0, p1, p2, p3, p4, p5, i);
        assert(same_pair(after[i], before[k]));
        assert(before[k].0 != before[k].1);
    }
    assert forall|i: int, j: int| 0 <= i < j < after.len() implies !same_pair(
        #[trigger] after[i],
        #[trigger] after[j],
    ) by {
        let a = pick(p0, p1, p2, p3, p4, p5, i);
        let b = pick(p0, p1, p2, p3, p4, p5, j);
        assert(same_pair(after[i], before[a]));
        assert(same_pair(after[j], before[b]));
        assert(a != b);
        if a < b {
            assert(!same_pair(before[a], before[b]));
        } else {
            assert(!same_pair(before[b], before[a]));
        }
    }
}

/// A turn keeps the number of facelets of each colour.
proof fn lemma_turn_keeps_counts(state: State, corner: Corner, rotation: Rotation, k: Colour)
    ensures
        colour_count(turned(state, corner, rotation), k) == colour_count(state, k),
{
    if rotation == Rotation::Clockwise {
        lemma_clockwise_keeps_counts(state, corner, k);
    } else {
        let once = turned(state, corner, Rotation::Clockwise);
        lemma_double_turn(state, corner, Rotation::Clockwise);
        lemma_clockwise_keeps_counts(state, corner, k);
        lemma_clockwise_keeps_counts(once, corner, k);
    }
}

proof fn lemma_clockwise_keeps_counts(state: State, corner: Corner, k: Colour)
    ensures
        colour_count(turned(state, corner, Rotation::Clockwise), k) == colour_count(state, k),
{
    match corner {
        Corner::FrontLeftBase => lemma_counts_front_left_base(state, k),
        Corner::FrontRightBase => lemma_counts_front_right_base(state, k),
        Corner::FrontLeftRight => lemma_counts_front_left_right(state, k),
        Corner::BaseLeftRight => lemma_counts_base_left_right(state, k),
    }
}

proof fn lemma_counts_front_left_base(state: State, k: Colour)
    ensures
        colour_count(turned(state, Corner::FrontLeftBase, Rotation::Clockwise), k) == colour_count(state, k),
{
    reveal(turned);
}

proof fn lemma_counts_front_right_base(state: State, k: Colour)
    ensures
        colour_count(turned(state, Corner::FrontRightBase, Rotation::Clockwise), k) == colour_count(state, k),
{
    reveal(turned);
}

proof fn lemma_counts_front_left_right(state: State, k: Colour)
    ensures
        colour_count(turned(state, Corner::FrontLeftRight, Rotation::Clockwise), k) == colour_count(state, k),
{
    reveal(turned);
}

proof fn lemma_counts_base_left_right(state: State, k: Colour)
    ensures
        colour_count(turned(state, Corner::BaseLeftRight, Rotation::Clockwise), k) == colour_count(state, k),
{
    reveal(turned);
}

/// A turn keeps each corner cluster a cyclic rotation of its corner's colours.
#[verifier::spinoff_prover]
#[verifier::rlimit(40)]
proof fn lemma_turn_keeps_corners(state: State, corner: Corner, rotation: Rotation)
    requires
        corners_ok(state),
    ensures
        corners_ok(turned(state, corner, rotation)),
{
    match corner {
        Corner::FrontLeftBase => match rotation {
            Rotation::Clockwise => {
                assert(corners_ok(turned(state, Corner::FrontLeftBase, Rotation::Clockwise))) by {
                    reveal(turned);
                }
            },
            Rotation::AntiClockwise => {
                assert(corners_ok(turned(state, Corner::FrontLeftBase, Rotation::AntiClockwise))) by {
                    reveal(turned);
                }
            },
        },
        Corner::FrontRightBase => match rotation {
            Rotation::Clockwise => {
                assert(corners_ok(turned(state, Corner::FrontRightBase, Rotation::Clockwise))) by {
                    reveal(turned);
                }
            },
            Rotation::AntiClockwise => {
                assert(corners_ok(turned(state, Corner::FrontRightBase, Rotation::AntiClockwise))) by {
                    reveal(turned);
                }
            },
        },
        Corner::FrontLeftRight => match rotation {
            Rotation::Clockwise => {
                assert(corners_ok(turned(state, Corner::FrontLeftRight, Rotation::Clockwise))) by {
                    reveal(turned);
                }
            },
            Rotation::AntiClockwise => {
                assert(corners_ok(turned(state, Corner::FrontLeftRight, Rotation::AntiClockwise))) by {
                    reveal(turned);
                }
            },
        },
        Corner::BaseLeftRight => match rotation {
            Rotation::Clockwise => {
                assert(corners_ok(turned(state, Corner::BaseLeftRight, Rotation::Clockwise))) by {
                    reveal(turned);
                }
            },
            Rotation::AntiClockwise => {
                assert(corners_ok(turned(state, Corner::BaseLeftRight, Rotation::AntiClockwise))) by {
                    reveal(turned);
                }
            },
        },
    }
}

/// A turn moves the edge pairs among the edges, so each pair is still used once.
#[verifier::spinoff_prover]
#[verifier::rlimit(40)]
proof fn lemma_turn_keeps_edges(state: State, corner: Corner, rotation: Rotation)
    requires
        pairs_ok(edges(state)),
    ensures
        pairs_ok(edges(turned(state, corner, rotation))),
{
    let before = edges(state);
    match corner {
        Corner::FrontLeftBase => match rotation {
            Rotation::Clockwise => {
                let after = edges(turned(state, Corner::FrontLeftBase, Rotation::Clockwise));
                assert(same_pair(after[0], before[0]) && same_pair(after[1], before[2]) && same_pair(after[2], before[3]) && same_pair(after[3], before[1]) && same_pair(after[4], before[4]) && same_pair(after[5], before[5])) by {
                    reveal(turned);
                }
                lemma_pairs_permuted(before, after, 0, 2, 3, 1, 4, 5);
            },
            Rotation::AntiClockwise => {
                let after = edges(turned(state, Corner::FrontLeftBase, Rotation::AntiClockwise));
                assert(same_pair(after[0], before[0]) && same_pair(after[1], before[3]) && same_pair(after[2], before[1]) && same_pair(after[3], before[2]) && same_pair(after[4], before[4]) && same_pair(after[5], before[5])) by {
                    reveal(turned);
                }
                lemma_pairs_permuted(before, after, 0, 3, 1, 2, 4, 5);
            },
        },
        Corner::FrontRightBase => match rotation {
            Rotation::Clockwise => {
                let after = edges(turned(state, Corner::FrontRightBase, Rotation::Clockwise));
                assert(same_pair(after[0], before[1]) && same_pair(after[1], before[4]) && same_pair(after[2], before[2]) && same_pair(after[3], before[3]) && same_pair(after[4], before[0]) && same_pair(after[5], before[5])) by {
                    reveal(turned);
                }
                lemma_pairs_permuted(before, after, 1, 4, 2, 3, 0, 5);
            },
            Rotation::AntiClockwise => {
                let after = edges(turned(state, Corner::FrontRightBase, Rotation::AntiClockwise));
                assert(same_pair(after[0], before[4]) && same_pair(after[1], before[0]) && same_pair(after[2], before[2]) && same_pair(after[3], before[3]) && same_pair(after[4], before[1]) && same_pair(after[5], before[5])) by {
                    reveal(turned);
                }
                lemma_pairs_permuted(before, after, 4, 0, 2, 3, 1, 5);
            },
        },
        Corner::FrontLeftRight => match rotation {
            Rotation::Clockwise => {
                let after = edges(turned(state, Corner::FrontLeftRight, Rotation::Clockwise));
                assert(same_pair(after[0], before[5]) && same_pair(after[1], before[1]) && same_pair(after[2], before[0]) && same_pair(after[3], before[3]) && same_pair(after[4], before[4]) && same_pair(after[5], before[2])) by {
                    reveal(turned);
                }
                lemma_pairs_permuted(before, after, 5, 1, 0, 3, 4, 2);
            },
            Rotation::AntiClockwise => {
                let after = edges(turned(state, Corner::FrontLeftRight, Rotation::AntiClockwise));
                assert(same_pair(after[0], before[2]) && same_pair(after[1], before[1]) && same_pair(after[2], before[5]) && same_pair(after[3], before[3]) && same_pair(after[4], before[4]) && same_pair(after[5], before[0])) by {
                    reveal(turned);
                }
                lemma_pairs_permuted(before, after, 2, 1, 5, 3, 4, 0);
            },
        },
        Corner::BaseLeftRight => match rotation {
            Rotation::Clockwise => {
                let after = edges(turned(state, Corner::BaseLeftRight, Rotation::Clockwise));
                assert(same_pair(after[0], before[0]) && same_pair(after[1], before[1]) && same_pair(after[2], before[2]) && same_pair(after[3], before[5]) && same_pair(after[4], before[3]) && same_pair(after[5], before[4])) by {
                    reveal(turned);
                }
                lemma_pairs_permuted(before, after, 0, 1, 2, 5, 3, 4);
            },
            Rotation::AntiClockwise => {
                let after = edges(turned(state, Corner::BaseLeftRight, Rotation::AntiClockwise));
                assert(same_pair(after[0], before[0]) && same_pair(after[1], before[1]) && same_pair(after[2], before[2]) && same_pair(after[3], before[4]) && same_pair(after[4], before[5]) && same_pair(after[5], before[3])) by {
                    reveal(turned);
                }
                lemma_pairs_permuted(before, after, 0, 1, 2, 4, 5, 3);
            },
        },
    }
}

/// Turning a legal state gives a legal state.
pub proof fn lemma_turn_keeps_legal(state: State, corner: Corner, rotation: Rotation)
    requires
        legal(state),
    ensures
        legal(turned(state, corner, rotation)),
{
    let next = turned(state, corner, rotation);
    assert forall|k: Colour| colour_count(next, k) == 6 by {
        lemma_turn_keeps_counts(state, corner, rotation, k);
    }
    lemma_turn_keeps_corners(state, corner, rotation);
    lemma_turn_keeps_edges(state, corner, rotation);
}

/// The solved state is legal.
pub proof fn lemma_solved_legal()
    ensures
        legal(solved()),
{
    let s = solved();
    assert forall|k: Colour| colour_count(s, k) == 6 by {
        reveal(indicator);
    }
    let e = edges(s);
    assert forall|i: int, j: int| 0 <= i < j < e.len() implies !same_pair(
        #[trigger] e[i],
        #[trigger] e[j],
    ) by {
        if i == 0 {
            if j == 1 {
            } else if j == 2 {
            } else if j == 3 {
            } else if j == 4 {
            } else if j == 5 {
            }
        } else if i == 1 {
            if j == 2 {
            } else if j == 3 {
            } else if j == 4 {
            } else if j == 5 {
            }
        } else if i == 2 {
            if j == 3 {
            } else if j == 4 {
            } else if j == 5 {
            }
        } else if i == 3 {
            if j == 4 {
            } else if j == 5 {
            }
        } else if i == 4 {
            if j == 5 {
            }
        }
    }
}

/// Every state reached from a legal state by any sequence of turns is legal.
pub proof fn lemma_run_keeps_legal(state: State, path: Seq<(Corner, Rotation)>)
    requires
        legal(state),
    ensures
        legal(run(state, path)),
    decreases path.len(),
{
    if path.len() > 0 {
        lemma_run_keeps_legal(state, path.drop_last());
        lemma_turn_keeps_legal(run(state, path.drop_last()), path.last().0, path.last().1);
    }
}

/// A state in which some colour covers other than six facelets (seven red
/// and five yellow, say) is not legal, so `colour_correct` rejects it.
pub proof fn lemma_miscounted_not_legal(state: State, c: Colour)
    requires
        colour_count(state, c) != 6,
    ensures
        !legal(state),
{
}

/// A state in which some corner cluster is not one of the three cyclic
/// rotations of its corner's colours is not legal, so `colour_correct`
/// rejects it.
pub proof fn lemma_twisted_corner_not_legal(state: State)
    requires
        !corners_ok(state),
    ensures
        !legal(state),
{
}

} // verus!
