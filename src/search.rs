use vstd::prelude::*;
use vstd::set_lib::{lemma_int_range, lemma_len_subset, set_int_range};
use std::collections::{HashMap, VecDeque};
use crate::puzzle::{corner_order, rotation_order, solved, Colour, Corner, FaceState, Rotation, State};
use crate::turn::{lemma_undo, run, turn, turned, undo};
use crate::validate::{colour_correct, lemma_run_keeps_legal, lemma_solved_legal, legal, SolveError};

verus! {

/// One quarter-turn: the corner and the direction.
pub type Move = (Corner, Rotation);

/// `path` takes `start` to the solved state.
pub open spec fn solves(start: State, path: Seq<Move>) -> bool {
    run(start, path) == solved()
}

/// Some sequence of turns takes `start` to the solved state.
pub open spec fn solvable(start: State) -> bool {
    exists|path: Seq<Move>| solves(start, path)
}

/// `path` solves `start`, and no sequence of turns that solves it is shorter.
pub open spec fn shortest_solution(start: State, path: Seq<Move>) -> bool {
    &&& solves(start, path)
    &&& forall|other: Seq<Move>| solves(start, other) ==> path.len() <= other.len()
}

/// The number of distinct state codes: four colours on each of 24 facelets.
pub open spec fn code_bound() -> int {
    0x1_0000_0000_0000
}

/// The base-4 digit of a colour.
pub open spec fn digit(c: Colour) -> int {
    match c {
        Colour::Red => 0,
        Colour::Yellow => 1,
        Colour::Blue => 2,
        Colour::Green => 3,
    }
}

/// The six facelets of `f` read as a base-4 number, position one lowest.
pub open spec fn face_code(f: FaceState) -> int {
    digit(f.one) + 4 * (digit(f.two) + 4 * (digit(f.three) + 4 * (digit(f.four) + 4 * (digit(
        f.five,
    ) + 4 * digit(f.six)))))
}

/// The four faces of `s` read as a base-4096 number, the front lowest.
pub open spec fn code(s: State) -> int {
    face_code(s.front) + 4096 * (face_code(s.left) + 4096 * (face_code(s.right) + 4096 * face_code(
        s.base,
    )))
}

/// The code of `s` as the search stores it.
pub open spec fn key(s: State) -> u64 {
    code(s) as u64
}

proof fn lemma_digit(c: Colour, d: Colour)
    ensures
        0 <= digit(c) < 4,
        digit(c) == digit(d) ==> c == d,
{
}

proof fn lemma_split(a: int, x: int, b: int, y: int)
    requires
        0 <= a < 4,
        0 <= b < 4,
        a + 4 * x == b + 4 * y,
    ensures
        a == b,
        x == y,
{
}

proof fn lemma_face_code(f: FaceState, g: FaceState)
    ensures
        0 <= face_code(f) < 4096,
        face_code(f) == face_code(g) ==> f == g,
{
    lemma_digit(f.one, g.one);
    lemma_digit(f.two, g.two);
    lemma_digit(f.three, g.three);
    lemma_digit(f.four, g.four);
    lemma_digit(f.five, g.five);
    lemma_digit(f.six, g.six);
    lemma_digit(g.one, f.one);
    lemma_digit(g.two, f.two);
    lemma_digit(g.three, f.three);
    lemma_digit(g.four, f.four);
    lemma_digit(g.five, f.five);
    lemma_digit(g.six, f.six);
    let x5 = digit(f.five) + 4 * digit(f.six);
    let x4 = digit(f.four) + 4 * x5;
    let x3 = digit(f.three) + 4 * x4;
    let x2 = digit(f.two) + 4 * x3;
    let y5 = digit(g.five) + 4 * digit(g.six);
    let y4 = digit(g.four) + 4 * y5;
    let y3 = digit(g.three) + 4 * y4;
    let y2 = digit(g.two) + 4 * y3;
    assert(face_code(f) == digit(f.one) + 4 * x2);
    assert(face_code(g) == digit(g.one) + 4 * y2);
    if face_code(f) == face_code(g) {
        lemma_split(digit(f.one), x2, digit(g.one), y2);
        lemma_split(digit(f.two), x3, digit(g.two), y3);
        lemma_split(digit(f.three), x4, digit(g.three), y4);
        lemma_split(digit(f.four), x5, digit(g.four), y5);
        lemma_split(digit(f.five), digit(f.six), digit(g.five), digit(g.six));
    }
}

/// Distinct states have distinct codes, and every code is below `code_bound()`.
proof fn lemma_code(s: State, t: State)
    ensures
        0 <= code(s) < code_bound(),
        key(s) as int == code(s),
        key(s) == key(t) ==> s == t,
{
    lemma_face_code(s.front, t.front);
    lemma_face_code(s.left, t.left);
    lemma_face_code(s.right, t.right);
    lemma_face_code(s.base, t.base);
    lemma_face_code(t.front, s.front);
    lemma_face_code(t.left, s.left);
    lemma_face_code(t.right, s.right);
    lemma_face_code(t.base, s.base);
}

fn colour_digit(c: Colour) -> (d: u64)
    ensures
        d == digit(c),
{
    match c {
        Colour::Red => 0,
        Colour::Yellow => 1,
        Colour::Blue => 2,
        Colour::Green => 3,
    }
}

fn face_number(f: FaceState) -> (n: u64)
    ensures
        n == face_code(f),
{
    proof {
        lemma_face_code(f, f);
    }
    colour_digit(f.one) + 4 * (colour_digit(f.two) + 4 * (colour_digit(f.three) + 4 * (colour_digit(
        f.four,
    ) + 4 * (colour_digit(f.five) + 4 * colour_digit(f.six)))))
}

fn state_key(s: State) -> (k: u64)
    ensures
        k == key(s),
{
    proof {
        lemma_face_code(s.front, s.front);
        lemma_face_code(s.left, s.left);
        lemma_face_code(s.right, s.right);
        lemma_face_code(s.base, s.base);
    }
    face_number(s.front) + 4096 * (face_number(s.left) + 4096 * (face_number(s.right) + 4096
        * face_number(s.base)))
}

/// A frontier entry of the search: a state and the turns that reached it.
struct Head {
    state: State,
    path: Vec<Move>,
}

/// `t` has been reached in at most `n` turns: it is recorded with a depth of
/// at most `n`, or waits in the queue with a path of at most `n` turns.
spec fn covered(counts: Map<u64, usize>, queue: Seq<Head>, t: State, n: int) -> bool {
    ||| counts.contains_key(key(t)) && counts[key(t)] <= n
    ||| exists|i: int| 0 <= i < queue.len() && queue[i].state == t && queue[i].path@.len() <= n
}

/// Every successor of a recorded state has been reached in one more turn.
spec fn closed(counts: Map<u64, usize>, queue: Seq<Head>) -> bool {
    forall|s: State, c: Corner, r: Rotation|
        #![trigger counts.contains_key(key(s)), turned(s, c, r)]
        counts.contains_key(key(s)) ==> covered(counts, queue, turned(s, c, r), counts[key(s)] + 1)
}

/// The start is recorded at depth zero, or is the first entry of the queue.
spec fn rooted(start: State, counts: Map<u64, usize>, queue: Seq<Head>) -> bool {
    ||| counts.contains_key(key(start)) && counts[key(start)] == 0
    ||| queue.len() > 0 && queue[0].state == start && queue[0].path@.len() == 0
}

/// The entry at `base + 2 * a + b` is the successor of `(state, path)` under
/// the `a`-th corner and the `b`-th direction.
spec fn successor_at(queue: Seq<Head>, base: int, state: State, path: Seq<Move>, a: int, b: int) -> bool {
    let m = (corner_order()[a], rotation_order()[b]);
    &&& queue[base + 2 * a + b].state == turned(state, m.0, m.1)
    &&& queue[base + 2 * a + b].path@ == path.push(m)
}

spec fn corner_pos(c: Corner) -> int {
    match c {
        Corner::FrontLeftBase => 0,
        Corner::FrontRightBase => 1,
        Corner::FrontLeftRight => 2,
        Corner::BaseLeftRight => 3,
    }
}

spec fn rotation_pos(r: Rotation) -> int {
    match r {
        Rotation::Clockwise => 0,
        Rotation::AntiClockwise => 1,
    }
}

/// While every queue entry is at least `n` turns long, every path shorter
/// than `n` ends in a state recorded at a depth no greater than its length.
proof fn lemma_reach(start: State, counts: Map<u64, usize>, queue: Seq<Head>, path: Seq<Move>, n: int)
    requires
        closed(counts, queue),
        rooted(start, counts, queue),
        forall|i: int| 0 <= i < queue.len() ==> queue[i].path@.len() >= n,
        path.len() < n,
    ensures
        counts.contains_key(key(run(start, path))),
        counts[key(run(start, path))] <= path.len(),
    decreases path.len(),
{
    if path.len() > 0 {
        let rest = path.drop_last();
        let m = path.last();
        lemma_reach(start, counts, queue, rest, n);
        let s = run(start, rest);
        assert(counts.contains_key(key(s)));
        assert(covered(counts, queue, turned(s, m.0, m.1), counts[key(s)] + 1));
    } else if queue.len() > 0 {
        assert(queue[0].path@.len() >= n);
    }
}

fn extended(path: &Vec<Move>, m: Move) -> (r: Vec<Move>)
    ensures
        r@ == path@.push(m),
{
    let mut r: Vec<Move> = Vec::new();
    let mut i: usize = 0;
    while i < path.len()
        invariant
            i <= path@.len(),
            r@ == path@.subrange(0, i as int),
        decreases path@.len() - i,
    {
        r.push(path[i]);
        i = i + 1;
        assert(r@ =~= path@.subrange(0, i as int));
    }
    r.push(m);
    assert(r@ =~= path@.push(m));
    r
}

/// Appends the eight successors of `head` to the queue, corner by corner,
/// clockwise before anticlockwise.
fn push_successors(
    heads: &mut VecDeque<Head>,
    head: &Head,
    corners: &Vec<Corner>,
    rotations: &Vec<Rotation>,
)
    requires
        corners@ == corner_order(),
        rotations@ == rotation_order(),
    ensures
        final(heads)@.len() == old(heads)@.len() + 8,
        final(heads)@.subrange(0, old(heads)@.len() as int) == old(heads)@,
        forall|a: int, b: int|
            0 <= a < 4 && 0 <= b < 2 ==> successor_at(
                final(heads)@,
                old(heads)@.len() as int,
                head.state,
                head.path@,
                a,
                b,
            ),
{
    let ghost base = heads@;
    let mut i: usize = 0;
    while i < corners.len()
        invariant
            corners@ == corner_order(),
            rotations@ == rotation_order(),
            i <= 4,
            heads@.len() == base.len() + 2 * i,
            heads@.subrange(0, base.len() as int) == base,
            forall|a: int, b: int|
                0 <= a < i && 0 <= b < 2 ==> successor_at(
                    heads@,
                    base.len() as int,
                    head.state,
                    head.path@,
                    a,
                    b,
                ),
        decreases 4 - i,
    {
        let mut j: usize = 0;
        while j < rotations.len()
            invariant
                corners@ == corner_order(),
                rotations@ == rotation_order(),
                i < 4,
                j <= 2,
                heads@.len() == base.len() + 2 * i + j,
                heads@.subrange(0, base.len() as int) == base,
                forall|a: int, b: int|
                    (0 <= a < i && 0 <= b < 2) || (a == i && 0 <= b < j) ==> successor_at(
                        heads@,
                        base.len() as int,
                        head.state,
                        head.path@,
                        a,
                        b,
                    ),
            decreases 2 - j,
        {
            let corner = corners[i];
            let rotation = rotations[j];
            let next = Head { state: turn(head.state, corner, rotation), path: extended(&head.path, (corner, rotation)) };
            let ghost before = heads@;
            heads.push_back(next);
            assert(heads@.subrange(0, base.len() as int) =~= before.subrange(0, base.len() as int));
            assert forall|a: int, b: int|
                (0 <= a < i && 0 <= b < 2) || (a == i && 0 <= b < j + 1) implies successor_at(
                    heads@,
                    base.len() as int,
                    head.state,
                    head.path@,
                    a,
                    b,
                ) by {
                if !(a == i && b == j) {
                    assert(successor_at(before, base.len() as int, head.state, head.path@, a, b));
                    assert(heads@[base.len() + 2 * a + b] == before[base.len() + 2 * a + b]);
                }
            }
            j = j + 1;
        }
        i = i + 1;
    }
}

/// Each entry of the queue was reached from `start` by its path; the paths
/// never get shorter along the queue, and are `level` or `level + 1` long.
spec fn queue_ok(start: State, queue: Seq<Head>, level: int) -> bool {
    &&& forall|i: int| 0 <= i < queue.len() ==> run(start, queue[i].path@) == #[trigger] queue[i].state
    &&& forall|i: int, j: int|
        0 <= i <= j < queue.len() ==> #[trigger] queue[i].path@.len() <= #[trigger] queue[j].path@.len()
    &&& forall|i: int| 0 <= i < queue.len() ==> level <= #[trigger] queue[i].path@.len() <= level + 1
}

/// `queue` is `rest` followed by the eight successors of `head`.
spec fn expanded(queue: Seq<Head>, rest: Seq<Head>, head: Head) -> bool {
    &&& queue.len() == rest.len() + 8
    &&& queue.subrange(0, rest.len() as int) == rest
    &&& forall|a: int, b: int|
        0 <= a < 4 && 0 <= b < 2 ==> successor_at(queue, rest.len() as int, head.state, head.path@, a, b)
}

proof fn lemma_skip(start: State, counts: Map<u64, usize>, q0: Seq<Head>, level: int)
    requires
        queue_ok(start, q0, level),
        closed(counts, q0),
        rooted(start, counts, q0),
        q0.len() > 0,
        counts.contains_key(key(q0[0].state)),
        counts[key(q0[0].state)] <= q0[0].path@.len(),
    ensures
        queue_ok(start, q0.subrange(1, q0.len() as int), level),
        closed(counts, q0.subrange(1, q0.len() as int)),
        rooted(start, counts, q0.subrange(1, q0.len() as int)),
{
    let rest = q0.subrange(1, q0.len() as int);
    assert forall|i: int| 0 <= i < rest.len() implies rest[i] == q0[i + 1] by {}
    assert forall|i: int, j: int| 0 <= i <= j < rest.len() implies #[trigger] rest[i].path@.len() <= #[trigger] rest[j].path@.len() by {
        assert(rest[i] == q0[i + 1] && rest[j] == q0[j + 1]);
    }
    assert forall|s: State, c: Corner, r: Rotation|
        #![trigger counts.contains_key(key(s)), turned(s, c, r)]
        counts.contains_key(key(s)) implies covered(counts, rest, turned(s, c, r), counts[key(s)] + 1) by {
        let t = turned(s, c, r);
        assert(covered(counts, q0, t, counts[key(s)] + 1));
        if !(counts.contains_key(key(t)) && counts[key(t)] <= counts[key(s)] + 1) {
            let i = choose|i: int|
                0 <= i < q0.len() && q0[i].state == t && q0[i].path@.len() <= counts[key(s)] + 1;
            if i > 0 {
                assert(rest[i - 1] == q0[i]);
            }
        }
    }
}

proof fn lemma_expand_queue(start: State, counts: Map<u64, usize>, q0: Seq<Head>, level: int, heads: Seq<Head>)
    requires
        queue_ok(start, q0, level),
        closed(counts, q0),
        rooted(start, counts, q0),
        q0.len() > 0,
        !counts.contains_key(key(q0[0].state)),
        forall|k: u64| counts.contains_key(k) ==> counts[k] <= level,
        expanded(heads, q0.subrange(1, q0.len() as int), q0[0]),
    ensures
        queue_ok(start, heads, q0[0].path@.len() as int),
{
    let head = q0[0];
    let n = head.path@.len() as int;
    let k = key(head.state);
    let c1 = counts.insert(k, n as usize);
    let rest = q0.subrange(1, q0.len() as int);
    let base = rest.len() as int;
    assert forall|i: int| 0 <= i < base implies heads[i] == q0[i + 1] && heads[i] == rest[i] by {
        assert(heads.subrange(0, base)[i] == heads[i]);
    }
    assert forall|i: int| base <= i < heads.len() implies run(start, heads[i].path@) == heads[i].state
        && heads[i].path@.len() == n + 1 by {
        let a = (i - base) / 2;
        let b = (i - base) % 2;
        assert(successor_at(heads, base, head.state, head.path@, a, b));
        let m = (corner_order()[a], rotation_order()[b]);
        assert(head.path@.push(m).drop_last() =~= head.path@);
    }
    assert forall|i: int| 0 <= i < heads.len() implies run(start, heads[i].path@) == #[trigger] heads[i].state by {
        if i < base {
            assert(heads[i] == q0[i + 1]);
        }
    }
    assert forall|i: int| 0 <= i < heads.len() implies n <= #[trigger] heads[i].path@.len() <= n + 1 by {
        if i < base {
            assert(heads[i] == q0[i + 1]);
            assert(q0[0].path@.len() <= q0[i + 1].path@.len());
        }
    }
    assert forall|i: int, j: int| 0 <= i <= j < heads.len() implies #[trigger] heads[i].path@.len() <= #[trigger] heads[j].path@.len() by {
        if j < base {
            assert(heads[i] == q0[i + 1] && heads[j] == q0[j + 1]);
            assert(q0[i + 1].path@.len() <= q0[j + 1].path@.len());
        } else if i < base {
            assert(heads[i] == q0[i + 1]);
        }
    }
}

proof fn lemma_expand_closed(start: State, counts: Map<u64, usize>, q0: Seq<Head>, level: int, heads: Seq<Head>)
    requires
        queue_ok(start, q0, level),
        closed(counts, q0),
        rooted(start, counts, q0),
        q0.len() > 0,
        !counts.contains_key(key(q0[0].state)),
        forall|k: u64| counts.contains_key(k) ==> counts[k] <= level,
        expanded(heads, q0.subrange(1, q0.len() as int), q0[0]),
        q0[0].path@.len() <= usize::MAX,
    ensures
        closed(counts.insert(key(q0[0].state), q0[0].path@.len() as usize), heads),
        rooted(start, counts.insert(key(q0[0].state), q0[0].path@.len() as usize), heads),
{
    let head = q0[0];
    let k = key(head.state);
    let c1 = counts.insert(k, head.path@.len() as usize);
    assert forall|s: State, c: Corner, r: Rotation|
        #![trigger c1.contains_key(key(s)), turned(s, c, r)]
        c1.contains_key(key(s)) implies covered(c1, heads, turned(s, c, r), c1[key(s)] + 1) by {
        if key(s) == k {
            lemma_code(s, head.state);
            lemma_new_state_covered(counts, q0, heads, c, r);
        } else {
            lemma_old_state_covered(counts, q0, heads, s, c, r);
        }
    }
    if !(counts.contains_key(key(start)) && counts[key(start)] == 0) {
        assert(q0[0].state == start);
    }
}

/// The successors of the newly recorded state wait at the back of the queue.
proof fn lemma_new_state_covered(counts: Map<u64, usize>, q0: Seq<Head>, heads: Seq<Head>, c: Corner, r: Rotation)
    requires
        q0.len() > 0,
        expanded(heads, q0.subrange(1, q0.len() as int), q0[0]),
        q0[0].path@.len() <= usize::MAX,
    ensures
        covered(
            counts.insert(key(q0[0].state), q0[0].path@.len() as usize),
            heads,
            turned(q0[0].state, c, r),
            q0[0].path@.len() + 1 as int,
        ),
{
    let head = q0[0];
    let base = q0.len() - 1;
    let a = corner_pos(c);
    let b = rotation_pos(r);
    assert(successor_at(heads, base, head.state, head.path@, a, b));
    assert(corner_order()[a] == c);
    assert(rotation_order()[b] == r);
    let i = base + 2 * a + b;
    assert(heads[i].state == turned(head.state, c, r) && heads[i].path@.len() <= head.path@.len() + 1);
}

/// A state recorded before keeps its successors covered once the first
/// queue entry is recorded and replaced by its successors.
proof fn lemma_old_state_covered(
    counts: Map<u64, usize>,
    q0: Seq<Head>,
    heads: Seq<Head>,
    s: State,
    c: Corner,
    r: Rotation,
)
    requires
        closed(counts, q0),
        q0.len() > 0,
        !counts.contains_key(key(q0[0].state)),
        counts.contains_key(key(s)),
        expanded(heads, q0.subrange(1, q0.len() as int), q0[0]),
        q0[0].path@.len() <= usize::MAX,
    ensures
        covered(
            counts.insert(key(q0[0].state), q0[0].path@.len() as usize),
            heads,
            turned(s, c, r),
            counts[key(s)] + 1,
        ),
{
    let head = q0[0];
    let t = turned(s, c, r);
    let base = q0.len() - 1;
    assert(covered(counts, q0, t, counts[key(s)] + 1));
    if !(counts.contains_key(key(t)) && counts[key(t)] <= counts[key(s)] + 1) {
        let i = choose|i: int|
            0 <= i < q0.len() && q0[i].state == t && q0[i].path@.len() <= counts[key(s)] + 1;
        if i > 0 {
            assert(heads.subrange(0, base)[i - 1] == heads[i - 1]);
            assert(heads[i - 1] == q0[i]);
        } else {
            lemma_code(t, head.state);
        }
    } else {
        lemma_code(t, head.state);
    }
}

/// Breadth-first search from `start` for a shortest path to the solved state.
fn search(start: State) -> (r: Option<Vec<Move>>)
    ensures
        match r {
            Some(p) => shortest_solution(start, p@),
            None => !solvable(start),
        },
{
    broadcast use vstd::std_specs::hash::group_hash_axioms;

    let goal = State::new();
    let goal_key = state_key(goal);
    let corners = Corner::new_vec();
    let rotations = Rotation::new_vec();
    let mut heads: VecDeque<Head> = VecDeque::new();
    let mut counts: HashMap<u64, usize> = HashMap::new();
    let ghost mut seen: Set<int> = Set::empty();
    let ghost mut level: int = 0;
    heads.push_back(Head { state: start, path: Vec::new() });
    proof {
        assert(run(start, heads@[0].path@) == start);
    }
    loop
        invariant
            corners@ == corner_order(),
            rotations@ == rotation_order(),
            goal == solved(),
            goal_key == key(goal),
            queue_ok(start, heads@, level),
            forall|k: u64| counts@.contains_key(k) ==> counts@[k] <= level,
            !counts@.contains_key(goal_key),
            closed(counts@, heads@),
            rooted(start, counts@, heads@),
            seen.finite(),
            forall|k: u64| counts@.contains_key(k) <==> seen.contains(k as int),
            forall|x: int| seen.contains(x) ==> 0 <= x < code_bound(),
            seen.len() <= code_bound(),
        decreases code_bound() - seen.len(), heads@.len(),
    {
        let ghost q0 = heads@;
        let ghost c0 = counts@;
        let head = match heads.pop_front() {
            Some(h) => h,
            None => {
                proof {
                    assert forall|path: Seq<Move>| !solves(start, path) by {
                        lemma_reach(start, c0, q0, path, path.len() + 1 as int);
                        lemma_code(run(start, path), goal);
                    }
                }
                return None;
            },
        };
        let k = state_key(head.state);
        let n = head.path.len();
        let seen_before = match counts.get(&k) {
            Some(count) => *count <= n,
            None => false,
        };
        if seen_before {
            proof {
                lemma_skip(start, c0, q0, level);
            }
            continue;
        }
        proof {
            lemma_code(head.state, goal);
        }
        counts.insert(k, n);
        if head.state == goal {
            proof {
                assert forall|other: Seq<Move>| solves(start, other) implies n <= other.len() by {
                    if other.len() < n {
                        assert forall|i: int| 0 <= i < q0.len() implies q0[i].path@.len() >= n by {
                            assert(q0[0].path@.len() <= q0[i].path@.len());
                        }
                        lemma_reach(start, c0, q0, other, n as int);
                        lemma_code(run(start, other), goal);
                    }
                }
            }
            return Some(head.path);
        }
        let ghost q1 = heads@;
        push_successors(&mut heads, &head, &corners, &rotations);
        proof {
            assert(!c0.contains_key(k));
            lemma_expand_queue(start, c0, q0, level, heads@);
            lemma_expand_closed(start, c0, q0, level, heads@);
            let old_seen = seen;
            seen = seen.insert(k as int);
            level = n as int;
            lemma_int_range(0, code_bound());
            assert(seen.subset_of(set_int_range(0, code_bound())));
            lemma_len_subset(seen, set_int_range(0, code_bound()));
            assert(!old_seen.contains(k as int));
        }
    }
}

/// Finds a shortest sequence of turns that takes `state` to the solved state.
/// An illegal state is refused before any search; a legal state that no
/// sequence of turns solves exhausts the search.
///
/// The search is breadth-first over the eight turns, corners in their fixed
/// order and clockwise first. A map from state code to the fewest turns at
/// which the state was dequeued drops entries that are no shorter. The
/// first dequeued entry that is solved is returned: every entry behind it
/// in the queue is at least as long.
pub fn solve(state: State) -> (r: Result<Vec<Move>, SolveError>)
    ensures
        match r {
            Ok(path) => legal(state) && shortest_solution(state, path@),
            Err(e) => {
                ||| e == SolveError::InvalidState && !legal(state)
                ||| e == SolveError::SearchExhausted && legal(state) && !solvable(state)
            },
        },
        r is Ok <==> legal(state) && solvable(state),
{
    match colour_correct(state) {
        Err(e) => return Err(e),
        Ok(()) => {},
    }
    match search(state) {
        Some(path) => Ok(path),
        None => Err(SolveError::SearchExhausted),
    }
}

/// A state that the turns of `scramble` reach from the solved state, and
/// that no shorter sequence reaches, is legal and can be solved, and every
/// shortest solution of it has exactly as many turns as `scramble`. So
/// `solve` returns a path of that length for it.
pub proof fn lemma_shortest_solution_length(state: State, scramble: Seq<Move>)
    requires
        run(solved(), scramble) == state,
        forall|other: Seq<Move>| run(solved(), other) == state ==> scramble.len() <= other.len(),
    ensures
        legal(state),
        solvable(state),
        forall|path: Seq<Move>| shortest_solution(state, path) ==> path.len() == scramble.len(),
{
    lemma_solved_legal();
    lemma_run_keeps_legal(solved(), scramble);
    lemma_undo(solved(), scramble);
    assert(solves(state, undo(scramble)));
    assert forall|path: Seq<Move>| shortest_solution(state, path) implies path.len() == scramble.len() by {
        lemma_undo(state, path);
        assert(run(solved(), undo(path)) == state);
    }
}

} // verus!
