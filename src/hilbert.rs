use vstd::prelude::*;

use crate::geometry::{lemma_pixel_path_fits, lemma_trail_start};

verus! {

/// Turn instruction.
#[derive(Copy, Clone, PartialEq, Eq, Structural, Debug)]
pub enum Turn {
    Right,
    Left,
}

/// Movement instruction.
#[derive(Copy, Clone, PartialEq, Eq, Structural, Debug)]
pub enum Movement {
    Turn(Turn),
    Forward,
}

/// Sub-rule invocation instruction.
#[derive(Copy, Clone, PartialEq, Eq, Structural, Debug)]
pub enum Invocation {
    A,
    B,
}

/// An element of a L-system rule - single instruction.
#[derive(Copy, Clone, PartialEq, Eq, Structural, Debug)]
pub enum Symbol {
    Move(Movement),
    Invoke(Invocation),
}

/// A Lindenmayer system rule (set of movements or 'calls' to another rule).
pub type Rule = [Symbol; 11];

/// The symbols of the production rule that `inv` refers to.
pub open spec fn rule(inv: Invocation) -> Seq<Symbol> {
    let l = Symbol::Move(Movement::Turn(Turn::Left));
    let r = Symbol::Move(Movement::Turn(Turn::Right));
    let f = Symbol::Move(Movement::Forward);
    let a = Symbol::Invoke(Invocation::A);
    let b = Symbol::Invoke(Invocation::B);
    match inv {
        Invocation::A => seq![l, b, f, r, a, f, a, r, f, b, l],
        Invocation::B => seq![r, a, f, l, b, f, b, l, f, a, r],
    }
}

impl Invocation {
    fn to_rule(self) -> (r: Rule)
        ensures
            r@ == rule(self),
    {
        let l = Symbol::Move(Movement::Turn(Turn::Left));
        let r = Symbol::Move(Movement::Turn(Turn::Right));
        let f = Symbol::Move(Movement::Forward);
        let a = Symbol::Invoke(Invocation::A);
        let b = Symbol::Invoke(Invocation::B);
        match self {
            Invocation::A => [l, b, f, r, a, f, a, r, f, b, l],
            Invocation::B => [r, a, f, l, b, f, b, l, f, a, r],
        }
    }
}

/// Direction the turtle is facing.
#[derive(Copy, Clone, PartialEq, Eq, Structural, Debug)]
pub enum Direction {
    Up,
    Right,
    Down,
    Left,
}

/// The direction reached from `d` by a quarter turn `t`.
pub open spec fn turned(d: Direction, t: Turn) -> Direction {
    match (d, t) {
        (Direction::Up, Turn::Right) => Direction::Right,
        (Direction::Up, Turn::Left) => Direction::Left,
        (Direction::Right, Turn::Right) => Direction::Down,
        (Direction::Right, Turn::Left) => Direction::Up,
        (Direction::Down, Turn::Right) => Direction::Left,
        (Direction::Down, Turn::Left) => Direction::Right,
        (Direction::Left, Turn::Right) => Direction::Up,
        (Direction::Left, Turn::Left) => Direction::Down,
    }
}

/// Given previous direction and turn, computes direction after the turn.
pub fn turn(prev_direction: Direction, t: Turn) -> (r: Direction)
    ensures
        r == turned(prev_direction, t),
{
    match (prev_direction, t) {
        (Direction::Up, Turn::Right) => Direction::Right,
        (Direction::Up, Turn::Left) => Direction::Left,
        (Direction::Right, Turn::Right) => Direction::Down,
        (Direction::Right, Turn::Left) => Direction::Up,
        (Direction::Down, Turn::Right) => Direction::Left,
        (Direction::Down, Turn::Left) => Direction::Right,
        (Direction::Left, Turn::Right) => Direction::Up,
        (Direction::Left, Turn::Left) => Direction::Down,
    }
}

/// The directions met when turning `n` times by `t` from `d`, `d` first.
pub open spec fn rotations(d: Direction, t: Turn, n: nat) -> Seq<Direction>
    decreases n,
{
    if n == 0 {
        seq![d]
    } else {
        let before = rotations(d, t, (n - 1) as nat);
        before.push(turned(before.last(), t))
    }
}

/// Four right turns bring every direction back to itself.
pub proof fn lemma_four_rights_close(d: Direction)
    ensures
        rotations(d, Turn::Right, 4).len() == 5,
        rotations(d, Turn::Right, 4)[4] == d,
{
    reveal_with_fuel(rotations, 5);
}

/// Four left turns meet the directions of four right turns in reverse order.
pub proof fn lemma_left_mirrors_right(d: Direction)
    ensures
        rotations(d, Turn::Left, 4) == rotations(d, Turn::Right, 4).reverse(),
{
    reveal_with_fuel(rotations, 5);
    assert(rotations(d, Turn::Left, 4) =~= rotations(d, Turn::Right, 4).reverse());
}

/// The movements that the rule `inv`, read from symbol `c` on, stands for when
/// its invocations are expanded `k - 1` levels deep (nothing at all when `k` is 0).
pub open spec fn expand(inv: Invocation, c: nat, k: nat) -> Seq<Movement>
    decreases k, 11 - c,
{
    if k == 0 || c >= 11 {
        Seq::empty()
    } else {
        let head = match rule(inv)[c as int] {
            Symbol::Move(m) => seq![m],
            Symbol::Invoke(j) => expand(j, 0, (k - 1) as nat),
        };
        head + expand(inv, c + 1, k)
    }
}

/// The movements of a Hilbert curve of the given order.
pub open spec fn curve_moves(order: nat) -> Seq<Movement> {
    expand(Invocation::A, 0, order)
}

/// Number of steps left to take by the expansion engine on one frame.
spec fn frame_cost(inv: Invocation, c: nat, k: nat) -> nat
    decreases k, 11 - c,
{
    if k == 0 || c >= 11 {
        0
    } else {
        let sub = match rule(inv)[c as int] {
            Symbol::Move(m) => 0,
            Symbol::Invoke(j) => frame_cost(j, 0, (k - 1) as nat),
        };
        2 + sub + frame_cost(inv, c + 1, k)
    }
}

/// Movements still to come from a stack of frames, the frame at index `i`
/// being expanded at level `order - i`.
spec fn stack_rest(frames: Seq<(Invocation, usize)>, order: nat) -> Seq<Movement>
    decreases frames.len(),
{
    if frames.len() == 0 {
        Seq::empty()
    } else {
        let top = frames.last();
        let lvl = order - (frames.len() - 1);
        expand(top.0, top.1 as nat, lvl as nat) + stack_rest(frames.drop_last(), order)
    }
}

spec fn stack_cost(frames: Seq<(Invocation, usize)>, order: nat) -> nat
    decreases frames.len(),
{
    if frames.len() == 0 {
        0
    } else {
        let top = frames.last();
        let lvl = order - (frames.len() - 1);
        1 + frame_cost(top.0, top.1 as nat, lvl as nat) + stack_cost(frames.drop_last(), order)
    }
}

/// Iterator over turtle graphics commands for the hilbert curve.
pub struct HilbertCurvePath {
    rules_stack: Vec<(Invocation, usize)>,
    max_depth: usize,
}

impl View for HilbertCurvePath {
    type V = Seq<Movement>;

    /// The movements not yet produced.
    closed spec fn view(&self) -> Seq<Movement> {
        stack_rest(self.rules_stack@, self.order())
    }
}

/// An 'interpreter' of the L-system rules A and B that yields
/// consecutive movements the turtle has to make to draw a hilbert curve.
impl HilbertCurvePath {
    /// The curve order the generator was made for.
    pub closed spec fn order(&self) -> nat {
        (self.max_depth + 1) as nat
    }

    pub closed spec fn wf(&self) -> bool {
        &&& self.max_depth < usize::MAX
        &&& self.rules_stack@.len() <= self.order()
        &&& forall|i: int| 0 <= i < self.rules_stack@.len() ==> self.rules_stack@[i].1 <= 11
    }

    pub fn new(order: usize) -> (r: HilbertCurvePath)
        requires
            order >= 1,
        ensures
            r.wf(),
            r.order() == order,
            r@ == curve_moves(order as nat),
    {
        let r = HilbertCurvePath { rules_stack: vec![(Invocation::A, 0)], max_depth: order - 1 };
        proof {
            let frames = r.rules_stack@;
            assert(frames.drop_last() =~= Seq::<(Invocation, usize)>::empty());
            assert(stack_rest(frames.drop_last(), order as nat) =~= Seq::empty());
            assert(r@ =~= curve_moves(order as nat));
        }
        r
    }

    /// Produces the next movement, or `None` once the expansion is exhausted.
    pub fn next(&mut self) -> (r: Option<Movement>)
        requires
            old(self).wf(),
        ensures
            final(self).wf(),
            final(self).order() == old(self).order(),
            old(self)@.len() == 0 ==> r.is_none() && final(self)@ == old(self)@,
            old(self)@.len() > 0 ==> r == Some(old(self)@[0]) && final(self)@ == old(self)@.drop_first(),
    {
        let ghost target = self@;
        loop
            invariant
                self.wf(),
                self.order() == old(self).order(),
                self@ == target,
                target == old(self)@,
            decreases stack_cost(self.rules_stack@, self.order()),
        {
            let len = self.rules_stack.len();
            if len == 0 {
                return None;
            }
            let ghost frames = self.rules_stack@;
            let ghost order = self.order();
            let ghost lvl: nat = (order - (len - 1)) as nat;
            let (inv, idx) = self.rules_stack[len - 1];
            if idx >= 11 {
                self.rules_stack.pop();
                proof {
                    assert(self.rules_stack@ =~= frames.drop_last());
                    assert(expand(inv, idx as nat, lvl) =~= Seq::empty());
                    assert(target =~= self@);
                    assert(stack_cost(frames, order) == 1 + stack_cost(self.rules_stack@, order));
                }
            } else {
                self.rules_stack.set(len - 1, (inv, idx + 1));
                let rule_symbols = inv.to_rule();
                let symbol = rule_symbols[idx];
                let ghost rest = stack_rest(frames.drop_last(), order);
                proof {
                    assert(self.rules_stack@.drop_last() =~= frames.drop_last());
                    assert(symbol == rule(inv)[idx as int]);
                    assert(stack_cost(self.rules_stack@, order) == 1 + frame_cost(inv, (idx + 1) as nat, lvl)
                        + stack_cost(frames.drop_last(), order));
                    assert(frame_cost(inv, idx as nat, lvl) >= 2 + frame_cost(inv, (idx + 1) as nat, lvl));
                }
                match symbol {
                    Symbol::Move(m) => {
                        proof {
                            assert(target =~= seq![m] + (expand(inv, (idx + 1) as nat, lvl) + rest));
                            assert(self@ =~= target.drop_first());
                        }
                        return Some(m);
                    },
                    Symbol::Invoke(j) => {
                        if len <= self.max_depth {
                            let ghost before = self.rules_stack@;
                            self.rules_stack.push((j, 0));
                            proof {
                                assert(self.rules_stack@.drop_last() =~= before);
                                assert(stack_rest(before, order) == expand(inv, (idx + 1) as nat, lvl) + rest);
                                assert(expand(inv, idx as nat, lvl) == expand(j, 0, (lvl - 1) as nat)
                                    + expand(inv, (idx + 1) as nat, lvl));
                                assert(self@ == expand(j, 0, (lvl - 1) as nat) + stack_rest(before, order));
                                assert(target =~= self@);
                                assert(frame_cost(inv, idx as nat, lvl) == 2 + frame_cost(j, 0, (lvl - 1) as nat)
                                    + frame_cost(inv, (idx + 1) as nat, lvl));
                                assert(stack_cost(self.rules_stack@, order) == 1 + frame_cost(j, 0, (lvl - 1) as nat)
                                    + stack_cost(before, order));
                            }
                        } else {
                            proof {
                                assert(expand(j, 0, 0) =~= Seq::empty());
                                assert(target =~= self@);
                            }
                        }
                    },
                }
            }
        }
    }
}

/// A pixel of the image: `x` grows to the right, `y` downwards from the top-left corner.
#[derive(Copy, Clone, PartialEq, Eq, Structural, Debug)]
pub struct Position {
    pub x: u32,
    pub y: u32,
}

/// A position as a point of the integer plane.
pub open spec fn cell(p: Position) -> (int, int) {
    (p.x as int, p.y as int)
}

/// Unit vector of a direction; x grows to the right, y grows downwards.
pub open spec fn unit_of(d: Direction) -> (int, int) {
    match d {
        Direction::Up => (0, -1),
        Direction::Right => (1, 0),
        Direction::Down => (0, 1),
        Direction::Left => (-1, 0),
    }
}

/// The point one unit step from `p` in direction `d`.
pub open spec fn step(p: (int, int), d: Direction) -> (int, int) {
    (p.0 + unit_of(d).0, p.1 + unit_of(d).1)
}

/// The points a turtle standing at `p` and facing `d` occupies while it
/// carries out `ms`: where it stands before each forward move, then where it
/// stands at the end.
pub open spec fn trail(ms: Seq<Movement>, p: (int, int), d: Direction) -> Seq<(int, int)>
    decreases ms.len(),
{
    if ms.len() == 0 {
        seq![p]
    } else {
        match ms[0] {
            Movement::Turn(t) => trail(ms.drop_first(), p, turned(d, t)),
            Movement::Forward => seq![p] + trail(ms.drop_first(), step(p, d), d),
        }
    }
}

/// The direction a turtle facing `d` faces after carrying out `ms`.
pub open spec fn heading(ms: Seq<Movement>, d: Direction) -> Direction
    decreases ms.len(),
{
    if ms.len() == 0 {
        d
    } else {
        match ms[0] {
            Movement::Turn(t) => heading(ms.drop_first(), turned(d, t)),
            Movement::Forward => heading(ms.drop_first(), d),
        }
    }
}

/// The pixels of the Hilbert curve of the given order, in drawing order,
/// starting at the top-left corner facing down.
pub open spec fn pixel_path(order: nat) -> Seq<(int, int)> {
    trail(curve_moves(order), (0, 0), Direction::Down)
}

/// One unit step from `previous_position` in `direction`.
pub fn move_forward(previous_position: Position, direction: Direction) -> (r: Position)
    requires
        0 <= step(cell(previous_position), direction).0 <= u32::MAX,
        0 <= step(cell(previous_position), direction).1 <= u32::MAX,
    ensures
        cell(r) == step(cell(previous_position), direction),
{
    let Position { x, y } = previous_position;
    // 0 ---→
    // |   +x
    // |
    // ↓ +y
    match direction {
        Direction::Up => Position { x: x, y: y - 1 },
        Direction::Right => Position { x: x + 1, y: y },
        Direction::Down => Position { x: x, y: y + 1 },
        Direction::Left => Position { x: x - 1, y: y },
    }
}

/// A point whose coordinates fit in a `Position`.
pub open spec fn fits(c: (int, int)) -> bool {
    0 <= c.0 <= u32::MAX && 0 <= c.1 <= u32::MAX
}

/// Iterator over hilbert curve pixels for bitmaps of 2ⁿ ☓ 2ⁿ pixels.
pub struct HilbertCurvePixels {
    position: Position,
    direction: Direction,
    path: HilbertCurvePath,
    finished: bool,
}

impl View for HilbertCurvePixels {
    type V = Seq<(int, int)>;

    /// The pixels not yet produced.
    closed spec fn view(&self) -> Seq<(int, int)> {
        if self.finished {
            Seq::empty()
        } else {
            trail(self.path@, cell(self.position), self.direction)
        }
    }
}

impl HilbertCurvePixels {
    pub closed spec fn wf(&self) -> bool {
        &&& self.path.wf()
        &&& forall|i: int| 0 <= i < self@.len() ==> fits(#[trigger] self@[i])
    }

    pub fn new(power: u32) -> (r: HilbertCurvePixels)
        requires
            1 <= power <= 32,
        ensures
            r.wf(),
            r@ == pixel_path(power as nat),
    {
        let r = HilbertCurvePixels {
            position: Position { x: 0, y: 0 },
            direction: Direction::Down,
            path: HilbertCurvePath::new(power as usize),
            finished: false,
        };
        proof {
            lemma_pixel_path_fits(power as nat);
            assert(r@ == pixel_path(power as nat));
            assert forall|i: int| 0 <= i < r@.len() implies fits(#[trigger] r@[i]) by {
                assert(r@[i] == pixel_path(power as nat)[i]);
            }
        }
        r
    }

    /// Produces the next pixel, or `None` once the curve has been drawn.
    pub fn next(&mut self) -> (r: Option<Position>)
        requires
            old(self).wf(),
        ensures
            final(self).wf(),
            old(self)@.len() == 0 ==> r.is_none() && final(self)@ == old(self)@,
            old(self)@.len() > 0 ==> r.is_some() && cell(r.unwrap()) == old(self)@[0] && final(self)@ == old(
                self,
            )@.drop_first(),
    {
        if self.finished {
            return None;
        }
        let current_position = self.position;
        let ghost target = self@;
        proof {
            lemma_trail_start(self.path@, cell(self.position), self.direction);
        }
        loop
            invariant
                self.path.wf(),
                !self.finished,
                self.position == current_position,
                self@ == target,
                target == old(self)@,
                forall|i: int| 0 <= i < target.len() ==> fits(#[trigger] target[i]),
            decreases self.path@.len(),
        {
            let ghost moves = self.path@;
            match self.path.next() {
                Some(Movement::Turn(turn_dir)) => {
                    self.direction = turn(self.direction, turn_dir);
                },
                Some(Movement::Forward) => {
                    let ghost q = step(cell(self.position), self.direction);
                    proof {
                        lemma_trail_start(self.path@, q, self.direction);
                        assert(target == seq![cell(current_position)] + trail(self.path@, q, self.direction));
                        assert(target[1] == q);
                    }
                    self.position = move_forward(self.position, self.direction);
                    proof {
                        assert(self@ =~= target.drop_first());
                        assert forall|i: int| 0 <= i < self@.len() implies fits(#[trigger] self@[i]) by {
                            assert(self@[i] == target[i + 1]);
                        }
                    }
                    return Some(current_position);
                },
                None => {
                    // The last pixel is where the turtle stands once every movement is done.
                    self.finished = true;
                    proof {
                        assert(target =~= seq![cell(current_position)]);
                    }
                    return Some(current_position);
                },
            }
        }
    }
}

/// Two drains of generators of the same order give the same pixels.
pub proof fn lemma_positions_deterministic(a: Seq<Position>, b: Seq<Position>, order: nat)
    requires
        a.map_values(|p: Position| cell(p)) == pixel_path(order),
        b.map_values(|p: Position| cell(p)) == pixel_path(order),
    ensures
        a == b,
{
    assert(a.map_values(|p: Position| cell(p)).len() == a.len());
    assert(b.map_values(|p: Position| cell(p)).len() == b.len());
    assert forall|i: int| 0 <= i < a.len() implies a[i] == b[i] by {
        assert(a.map_values(|p: Position| cell(p))[i] == cell(a[i]));
        assert(b.map_values(|p: Position| cell(p))[i] == cell(b[i]));
    }
    assert(a =~= b);
}

/// All pixels of the Hilbert curve of order `power`, in drawing order.
pub fn hilbert_curve_positions(power: u32) -> (r: Vec<Position>)
    requires
        1 <= power <= 32,
    ensures
        r@.map_values(|p: Position| cell(p)) == pixel_path(power as nat),
{
    let mut pixels = HilbertCurvePixels::new(power);
    let mut out: Vec<Position> = Vec::new();
    loop
        invariant
            pixels.wf(),
            out@.map_values(|p: Position| cell(p)) + pixels@ == pixel_path(power as nat),
        decreases pixels@.len(),
    {
        let ghost before = pixels@;
        match pixels.next() {
            Some(p) => {
                let ghost prev = out@;
                out.push(p);
                proof {
                    assert(out@.map_values(|p: Position| cell(p)) =~= prev.map_values(|p: Position| cell(p)).push(
                        cell(p),
                    ));
                    assert(before == seq![cell(p)] + pixels@);
                    assert(out@.map_values(|p: Position| cell(p)) + pixels@ =~= prev.map_values(
                        |p: Position| cell(p),
                    ) + before);
                }
            },
            None => {
                proof {
                    assert(out@.map_values(|p: Position| cell(p)) + pixels@ =~= out@.map_values(
                        |p: Position| cell(p),
                    ));
                }
                return out;
            },
        }
    }
}

} // verus!
