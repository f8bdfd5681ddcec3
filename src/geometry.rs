use vstd::prelude::*;

use crate::hilbert::{
    curve_moves, expand, heading, pixel_path, rule, step, trail, turned, Direction,
    Invocation, Movement, Symbol, Turn,
};

verus! {

/// The opposite turn.
pub open spec fn flip(t: Turn) -> Turn {
    match t {
        Turn::Left => Turn::Right,
        Turn::Right => Turn::Left,
    }
}

/// The turn a rule starts and ends with: rule A bends left, rule B right.
pub open spec fn side_turn(inv: Invocation) -> Turn {
    match inv {
        Invocation::A => Turn::Left,
        Invocation::B => Turn::Right,
    }
}

/// The rule that `inv` calls at its two ends.
pub open spec fn other(inv: Invocation) -> Invocation {
    match inv {
        Invocation::A => Invocation::B,
        Invocation::B => Invocation::A,
    }
}

/// `2^k`, the side of the square a curve of order `k` fills.
pub open spec fn pow2(k: nat) -> nat
    decreases k,
{
    if k == 0 {
        1
    } else {
        2 * pow2((k - 1) as nat)
    }
}

pub(crate) proof fn lemma_pow2_pos(k: nat)
    ensures
        pow2(k) >= 1,
    decreases k,
{
    if k > 0 {
        lemma_pow2_pos((k - 1) as nat);
    }
}

/// `p` moved `a` units in direction `v`.
pub open spec fn off(p: (int, int), a: int, v: Direction) -> (int, int) {
    match v {
        Direction::Up => (p.0, p.1 - a),
        Direction::Right => (p.0 + a, p.1),
        Direction::Down => (p.0, p.1 + a),
        Direction::Left => (p.0 - a, p.1),
    }
}

/// How far `c` lies from `p` in direction `v`.
pub open spec fn coord(c: (int, int), p: (int, int), v: Direction) -> int {
    match v {
        Direction::Up => p.1 - c.1,
        Direction::Right => c.0 - p.0,
        Direction::Down => c.1 - p.1,
        Direction::Left => p.0 - c.0,
    }
}

/// `c` lies in the square of side `s` with corner `p` that extends along `w` and `v`.
pub open spec fn in_box(c: (int, int), p: (int, int), w: Direction, v: Direction, s: int) -> bool {
    &&& 0 <= coord(c, p, w) < s
    &&& 0 <= coord(c, p, v) < s
}

/// `c` lies in the quadrant at offsets `a` along `w` and `b` along `v` of side `h`.
pub open spec fn in_part(c: (int, int), p: (int, int), w: Direction, v: Direction, a: int, b: int, h: int) -> bool {
    &&& a <= coord(c, p, w) < a + h
    &&& b <= coord(c, p, v) < b + h
}

/// Two points one unit step apart along exactly one axis.
pub open spec fn adjacent(a: (int, int), b: (int, int)) -> bool {
    ||| (a.0 == b.0 && (a.1 - b.1 == 1 || b.1 - a.1 == 1))
    ||| (a.1 == b.1 && (a.0 - b.0 == 1 || b.0 - a.0 == 1))
}

proof fn lemma_turn_back(d: Direction, t: Turn)
    ensures
        turned(turned(d, t), flip(t)) == d,
        turned(turned(d, flip(t)), t) == d,
{
}

pub(crate) proof fn lemma_trail_start(ms: Seq<Movement>, p: (int, int), d: Direction)
    ensures
        trail(ms, p, d).len() >= 1,
        trail(ms, p, d)[0] == p,
    decreases ms.len(),
{
    if ms.len() > 0 {
        lemma_trail_start(ms.drop_first(), p, turned(d, Turn::Left));
        lemma_trail_start(ms.drop_first(), p, turned(d, Turn::Right));
        lemma_trail_start(ms.drop_first(), step(p, d), d);
    }
}

proof fn lemma_trail_concat(a: Seq<Movement>, b: Seq<Movement>, p: (int, int), d: Direction)
    ensures
        trail(a + b, p, d) == trail(a, p, d).drop_last() + trail(b, trail(a, p, d).last(), heading(a, d)),
        heading(a + b, d) == heading(b, heading(a, d)),
    decreases a.len(),
{
    lemma_trail_start(a, p, d);
    if a.len() == 0 {
        assert(a + b =~= b);
        assert(trail(a, p, d).drop_last() =~= Seq::empty());
        assert(trail(a, p, d).drop_last() + trail(b, p, d) =~= trail(b, p, d));
    } else {
        let rest = a.drop_first();
        assert((a + b).drop_first() =~= rest + b);
        assert((a + b)[0] == a[0]);
        match a[0] {
            Movement::Turn(t) => {
                lemma_trail_concat(rest, b, p, turned(d, t));
            },
            Movement::Forward => {
                let q = step(p, d);
                lemma_trail_concat(rest, b, q, d);
                lemma_trail_start(rest, q, d);
                let tr = trail(rest, q, d);
                assert((seq![p] + tr).drop_last() =~= seq![p] + tr.drop_last());
                assert((seq![p] + tr).last() == tr.last());
                assert(seq![p] + (tr.drop_last() + trail(b, tr.last(), heading(rest, d)))
                    =~= (seq![p] + tr).drop_last() + trail(b, tr.last(), heading(rest, d)));
            },
        }
    }
}

proof fn lemma_trail_turn(x: Seq<Movement>, p: (int, int), d: Direction, t: Turn)
    ensures
        trail(seq![Movement::Turn(t)] + x, p, d) == trail(x, p, turned(d, t)),
        heading(seq![Movement::Turn(t)] + x, d) == heading(x, turned(d, t)),
{
    let m = seq![Movement::Turn(t)] + x;
    assert(m.drop_first() =~= x);
    assert(m[0] == Movement::Turn(t));
}

/// A forward move glues the trail of what precedes it to the trail of what follows.
proof fn lemma_trail_forward(a: Seq<Movement>, x: Seq<Movement>, p: (int, int), d: Direction)
    ensures
        trail(a + (seq![Movement::Forward] + x), p, d) == trail(a, p, d) + trail(
            x,
            step(trail(a, p, d).last(), heading(a, d)),
            heading(a, d),
        ),
        heading(a + (seq![Movement::Forward] + x), d) == heading(x, heading(a, d)),
{
    let fx = seq![Movement::Forward] + x;
    lemma_trail_concat(a, fx, p, d);
    lemma_trail_start(a, p, d);
    let e = trail(a, p, d).last();
    let h = heading(a, d);
    assert(fx.drop_first() =~= x);
    assert(fx[0] == Movement::Forward);
    assert(trail(fx, e, h) == seq![e] + trail(x, step(e, h), h));
    assert(trail(a, p, d).drop_last() + (seq![e] + trail(x, step(e, h), h)) =~= trail(a, p, d) + trail(
        x,
        step(e, h),
        h,
    ));
}

/// A turn at the end adds nothing to a trail.
proof fn lemma_trail_turn_last(a: Seq<Movement>, p: (int, int), d: Direction, t: Turn)
    ensures
        trail(a + seq![Movement::Turn(t)], p, d) == trail(a, p, d),
        heading(a + seq![Movement::Turn(t)], d) == turned(heading(a, d), t),
{
    lemma_trail_concat(a, seq![Movement::Turn(t)], p, d);
    lemma_trail_start(a, p, d);
    let e = trail(a, p, d).last();
    lemma_trail_turn(Seq::empty(), e, heading(a, d), t);
    assert(seq![Movement::Turn(t)] + Seq::<Movement>::empty() =~= seq![Movement::Turn(t)]);
    assert(trail(a, p, d).drop_last() + seq![e] =~= trail(a, p, d));
}

/// The expansion of a rule at level `k > 0`, in terms of the expansions one level down.
proof fn lemma_expand_unfold(inv: Invocation, k: nat)
    requires
        k > 0,
    ensures
        ({
            let w = Movement::Turn(side_turn(inv));
            let fw = Movement::Turn(flip(side_turn(inv)));
            let f = Movement::Forward;
            let eo = expand(other(inv), 0, (k - 1) as nat);
            let ei = expand(inv, 0, (k - 1) as nat);
            expand(inv, 0, k) == seq![w] + (eo + (seq![f] + (seq![fw] + ((ei + (seq![f] + ((ei
                + seq![fw]) + (seq![f] + (eo + seq![w])))))))))
        }),
{
    let w = Movement::Turn(side_turn(inv));
    let fw = Movement::Turn(flip(side_turn(inv)));
    let f = Movement::Forward;
    let eo = expand(other(inv), 0, (k - 1) as nat);
    let ei = expand(inv, 0, (k - 1) as nat);
    let r = rule(inv);
    assert(r[0] == Symbol::Move(w) && r[1] == Symbol::Invoke(other(inv)) && r[2] == Symbol::Move(f)
        && r[3] == Symbol::Move(fw) && r[4] == Symbol::Invoke(inv) && r[5] == Symbol::Move(f)
        && r[6] == Symbol::Invoke(inv) && r[7] == Symbol::Move(fw) && r[8] == Symbol::Move(f)
        && r[9] == Symbol::Invoke(other(inv)) && r[10] == Symbol::Move(w));
    let x10 = expand(inv, 10, k);
    assert(expand(inv, 11, k) == Seq::<Movement>::empty());
    assert(x10 =~= seq![w]);
    let x9 = expand(inv, 9, k);
    assert(x9 == eo + x10);
    let x8 = expand(inv, 8, k);
    assert(x8 == seq![f] + x9);
    let x7 = expand(inv, 7, k);
    assert(x7 == seq![fw] + x8);
    let x6 = expand(inv, 6, k);
    assert(x6 == ei + x7);
    let x5 = expand(inv, 5, k);
    assert(x5 == seq![f] + x6);
    let x4 = expand(inv, 4, k);
    assert(x4 == ei + x5);
    let x3 = expand(inv, 3, k);
    assert(x3 == seq![fw] + x4);
    let x2 = expand(inv, 2, k);
    assert(x2 == seq![f] + x3);
    let x1 = expand(inv, 1, k);
    assert(x1 == eo + x2);
    assert(expand(inv, 0, k) == seq![w] + x1);
    assert(ei + (seq![fw] + (seq![f] + (eo + seq![w]))) =~= (ei + seq![fw]) + (seq![f] + (eo + seq![w])));
}

/// Where the four quarters of a curve of side `2h` lie, for a curve that starts
/// at `p` facing `d` and bends towards `w`.
proof fn lemma_quarters(p: (int, int), d: Direction, w: Turn, h: int)
    requires
        h >= 1,
    ensures
        ({
            let d1 = turned(d, w);
            let d4 = turned(d, flip(w));
            let big_w = d1;
            let big_d = d;
            let s2 = step(off(p, h - 1, big_w), d1);
            let s3 = step(off(s2, h - 1, big_d), d);
            let s4 = step(off(s3, h - 1, big_d), d4);
            &&& off(s4, h - 1, d4) == off(p, 2 * h - 1, big_d)
            &&& forall|c: (int, int)|
                in_box(c, p, turned(d1, flip(w)), big_w, h) ==> in_part(c, p, big_w, big_d, 0, 0, h)
            &&& forall|c: (int, int)| in_box(c, s2, big_w, big_d, h) ==> in_part(c, p, big_w, big_d, h, 0, h)
            &&& forall|c: (int, int)| in_box(c, s3, big_w, big_d, h) ==> in_part(c, p, big_w, big_d, h, h, h)
            &&& forall|c: (int, int)|
                in_box(c, s4, turned(d4, flip(w)), d4, h) ==> in_part(
                    c,
                    p,
                    big_w,
                    big_d,
                    0,
                    h,
                    h,
                )
        }),
{
    match d {
        Direction::Up => match w {
            Turn::Left => {},
            Turn::Right => {},
        },
        Direction::Right => match w {
            Turn::Left => {},
            Turn::Right => {},
        },
        Direction::Down => match w {
            Turn::Left => {},
            Turn::Right => {},
        },
        Direction::Left => match w {
            Turn::Left => {},
            Turn::Right => {},
        },
    }
}

proof fn lemma_no_dup_concat(a: Seq<(int, int)>, b: Seq<(int, int)>)
    requires
        a.no_duplicates(),
        b.no_duplicates(),
        forall|i: int, j: int| 0 <= i < a.len() && 0 <= j < b.len() ==> a[i] != b[j],
    ensures
        (a + b).no_duplicates(),
{
    let ab = a + b;
    assert forall|i: int, j: int| 0 <= i < ab.len() && 0 <= j < ab.len() && i != j implies ab[i] != ab[j] by {
        if i < a.len() && j >= a.len() {
            assert(ab[j] == b[j - a.len()]);
        } else if i >= a.len() && j < a.len() {
            assert(ab[i] == b[i - a.len()]);
        }
    }
}

/// Every point of `t` lies in the given quarter.
pub open spec fn all_in_part(t: Seq<(int, int)>, p: (int, int), w: Direction, v: Direction, a: int, b: int, h: int) -> bool {
    forall|i: int| 0 <= i < t.len() ==> in_part(#[trigger] t[i], p, w, v, a, b, h)
}

/// Four trails without repeats, one in each quarter of a square, make one
/// trail without repeats in the square.
proof fn lemma_four_quarters(
    t1: Seq<(int, int)>,
    t2: Seq<(int, int)>,
    t3: Seq<(int, int)>,
    t4: Seq<(int, int)>,
    p: (int, int),
    w: Direction,
    v: Direction,
    h: int,
)
    requires
        t1.no_duplicates(),
        t2.no_duplicates(),
        t3.no_duplicates(),
        t4.no_duplicates(),
        all_in_part(t1, p, w, v, 0, 0, h),
        all_in_part(t2, p, w, v, h, 0, h),
        all_in_part(t3, p, w, v, h, h, h),
        all_in_part(t4, p, w, v, 0, h, h),
    ensures
        (t1 + (t2 + (t3 + t4))).no_duplicates(),
        forall|i: int|
            0 <= i < (t1 + (t2 + (t3 + t4))).len() ==> in_box(
                #[trigger] (t1 + (t2 + (t3 + t4)))[i],
                p,
                w,
                v,
                2 * h,
            ),
{
    let t34 = t3 + t4;
    assert forall|i: int| 0 <= i < t34.len() implies h <= coord(#[trigger] t34[i], p, v) < 2 * h && 0 <= coord(
        t34[i],
        p,
        w,
    ) < 2 * h by {
        if i >= t3.len() {
            assert(t34[i] == t4[i - t3.len()]);
        }
    }
    assert forall|i: int, j: int| 0 <= i < t3.len() && 0 <= j < t4.len() implies t3[i] != t4[j] by {
        assert(in_part(t3[i], p, w, v, h, h, h));
        assert(in_part(t4[j], p, w, v, 0, h, h));
    }
    lemma_no_dup_concat(t3, t4);
    let t234 = t2 + t34;
    assert forall|i: int| 0 <= i < t234.len() implies in_box(#[trigger] t234[i], p, w, v, 2 * h) && (h <= coord(
        t234[i],
        p,
        w,
    ) || h <= coord(t234[i], p, v)) by {
        if i >= t2.len() {
            assert(t234[i] == t34[i - t2.len()]);
        }
    }
    assert forall|i: int, j: int| 0 <= i < t2.len() && 0 <= j < t34.len() implies t2[i] != t34[j] by {
        assert(in_part(t2[i], p, w, v, h, 0, h));
    }
    lemma_no_dup_concat(t2, t34);
    assert forall|i: int, j: int| 0 <= i < t1.len() && 0 <= j < t234.len() implies t1[i] != t234[j] by {
        assert(in_part(t1[i], p, w, v, 0, 0, h));
    }
    lemma_no_dup_concat(t1, t234);
    let t = t1 + t234;
    assert forall|i: int| 0 <= i < t.len() implies in_box(#[trigger] t[i], p, w, v, 2 * h) by {
        if i < t1.len() {
            assert(in_part(t1[i], p, w, v, 0, 0, h));
        } else {
            assert(t[i] == t234[i - t1.len()]);
        }
    }
}

/// The trail of a rule at level `k > 0` is the trails of its four sub-curves
/// one after the other, each starting one step past where the last one ended.
proof fn lemma_curve_pieces(inv: Invocation, k: nat, p: (int, int), d: Direction)
    requires
        k > 0,
        forall|x: Direction| #[trigger] heading(expand(other(inv), 0, (k - 1) as nat), x) == x,
        forall|x: Direction| #[trigger] heading(expand(inv, 0, (k - 1) as nat), x) == x,
        forall|x: (int, int), y: Direction| #[trigger] trail(expand(other(inv), 0, (k - 1) as nat), x, y).len() >= 1,
        forall|x: (int, int), y: Direction| #[trigger] trail(expand(inv, 0, (k - 1) as nat), x, y).len() >= 1,
    ensures
        ({
            let km = (k - 1) as nat;
            let eo = expand(other(inv), 0, km);
            let ei = expand(inv, 0, km);
            let d1 = turned(d, side_turn(inv));
            let d4 = turned(d, flip(side_turn(inv)));
            let t1 = trail(eo, p, d1);
            let t2 = trail(ei, step(t1.last(), d1), d);
            let t3 = trail(ei, step(t2.last(), d), d);
            let t4 = trail(eo, step(t3.last(), d4), d4);
            &&& trail(expand(inv, 0, k), p, d) == t1 + (t2 + (t3 + t4))
            &&& heading(expand(inv, 0, k), d) == d
        }),
{
    let km = (k - 1) as nat;
    let w = side_turn(inv);
    let fw = flip(w);
    let o = other(inv);
    let eo = expand(o, 0, km);
    let ei = expand(inv, 0, km);
    let mw = Movement::Turn(w);
    let mfw = Movement::Turn(fw);
    let mf = Movement::Forward;
    lemma_expand_unfold(inv, k);
    let d1 = turned(d, w);
    let d4 = turned(d, fw);
    lemma_turn_back(d, w);
    lemma_turn_back(d, fw);
    let t1 = trail(eo, p, d1);
    let s2 = step(t1.last(), d1);
    let t2 = trail(ei, s2, d);
    let s3 = step(t2.last(), d);
    let t3 = trail(ei, s3, d);
    let s4 = step(t3.last(), d4);
    let t4 = trail(eo, s4, d4);
    assert(heading(eo, d1) == d1);
    assert(heading(ei, d) == d);
    assert(heading(eo, d4) == d4);
    let x4 = eo + seq![mw];
    let r2 = (ei + seq![mfw]) + (seq![mf] + x4);
    let r1 = seq![mfw] + (ei + (seq![mf] + r2));
    let m = expand(inv, 0, k);
    assert(m == seq![mw] + (eo + (seq![mf] + r1)));
    lemma_trail_turn(eo + (seq![mf] + r1), p, d, w);
    lemma_trail_forward(eo, r1, p, d1);
    lemma_trail_turn(ei + (seq![mf] + r2), s2, d1, fw);
    lemma_trail_forward(ei, r2, s2, d);
    lemma_trail_forward(ei + seq![mfw], x4, s3, d);
    lemma_trail_turn_last(ei, s3, d, fw);
    lemma_trail_turn_last(eo, s4, d4, w);
}

/// The trail of rule `inv` expanded to level `k`, from `p` facing `d`: it
/// visits each cell of a square of side `2^k` exactly once, starting in one
/// corner and ending in the next corner ahead, facing `d` again.
pub proof fn lemma_curve(inv: Invocation, k: nat, p: (int, int), d: Direction)
    ensures
        ({
            let t = trail(expand(inv, 0, k), p, d);
            let s = pow2(k) as int;
            &&& t.len() == s * s
            &&& t.last() == off(p, s - 1, d)
            &&& heading(expand(inv, 0, k), d) == d
            &&& t.no_duplicates()
            &&& forall|i: int|
                0 <= i < t.len() ==> in_box(t[i], p, turned(d, side_turn(inv)), d, s)
        }),
    decreases k,
{
    if k == 0 {
        assert(expand(inv, 0, 0) == Seq::<Movement>::empty());
    } else {
        let km = (k - 1) as nat;
        let w = side_turn(inv);
        let fw = flip(w);
        let o = other(inv);
        let eo = expand(o, 0, km);
        let ei = expand(inv, 0, km);
        let h = pow2(km) as int;
        lemma_pow2_pos(km);
        assert(h * h >= 1) by (nonlinear_arith)
            requires
                h >= 1,
        ;
        let d1 = turned(d, w);
        let d4 = turned(d, fw);
        assert(side_turn(o) == fw);
        assert forall|x: Direction| #[trigger] heading(eo, x) == x by {
            lemma_curve(o, km, (0, 0), x);
        }
        assert forall|x: Direction| #[trigger] heading(ei, x) == x by {
            lemma_curve(inv, km, (0, 0), x);
        }
        assert forall|x: (int, int), y: Direction| #[trigger] trail(eo, x, y).len() >= 1 by {
            lemma_trail_start(eo, x, y);
        }
        assert forall|x: (int, int), y: Direction| #[trigger] trail(ei, x, y).len() >= 1 by {
            lemma_trail_start(ei, x, y);
        }
        lemma_curve_pieces(inv, k, p, d);

        lemma_curve(o, km, p, d1);
        let t1 = trail(eo, p, d1);
        let s2 = step(t1.last(), d1);
        lemma_curve(inv, km, s2, d);
        let t2 = trail(ei, s2, d);
        let s3 = step(t2.last(), d);
        lemma_curve(inv, km, s3, d);
        let t3 = trail(ei, s3, d);
        let s4 = step(t3.last(), d4);
        lemma_curve(o, km, s4, d4);
        let t4 = trail(eo, s4, d4);
        lemma_quarters(p, d, w, h);

        let t = trail(expand(inv, 0, k), p, d);
        let s = pow2(k) as int;
        assert(s * s == 4 * (h * h)) by (nonlinear_arith)
            requires
                s == 2 * h,
        ;
        assert(t.last() == t4.last());
        assert(all_in_part(t1, p, d1, d, 0, 0, h)) by {
            assert forall|i: int| 0 <= i < t1.len() implies in_part(#[trigger] t1[i], p, d1, d, 0, 0, h) by {
                assert(in_box(t1[i], p, turned(d1, fw), d1, h));
            }
        }
        assert(all_in_part(t2, p, d1, d, h, 0, h)) by {
            assert forall|i: int| 0 <= i < t2.len() implies in_part(#[trigger] t2[i], p, d1, d, h, 0, h) by {
                assert(in_box(t2[i], s2, d1, d, h));
            }
        }
        assert(all_in_part(t3, p, d1, d, h, h, h)) by {
            assert forall|i: int| 0 <= i < t3.len() implies in_part(#[trigger] t3[i], p, d1, d, h, h, h) by {
                assert(in_box(t3[i], s3, d1, d, h));
            }
        }
        assert(all_in_part(t4, p, d1, d, 0, h, h)) by {
            assert forall|i: int| 0 <= i < t4.len() implies in_part(#[trigger] t4[i], p, d1, d, 0, h, h) by {
                assert(in_box(t4[i], s4, turned(d4, fw), d4, h));
            }
        }
        lemma_four_quarters(t1, t2, t3, t4, p, d1, d, h);
    }
}

proof fn lemma_pow2_grows(k: nat, m: nat)
    requires
        k <= m,
    ensures
        pow2(k) <= pow2(m),
    decreases m,
{
    if k < m {
        lemma_pow2_grows(k, (m - 1) as nat);
    }
}

/// The pixels of the curve of order `order` are `4^order` distinct cells,
/// which therefore fill the `2^order` by `2^order` grid.
pub proof fn lemma_pixel_path_fills_grid(order: nat)
    ensures
        pixel_path(order).len() == pow2(order) * pow2(order),
        pixel_path(order).no_duplicates(),
        forall|i: int|
            0 <= i < pixel_path(order).len() ==> 0 <= (#[trigger] pixel_path(order)[i]).0 < pow2(order) && 0
                <= pixel_path(order)[i].1 < pow2(order),
{
    lemma_curve(Invocation::A, order, (0, 0), Direction::Down);
    let t = pixel_path(order);
    assert forall|i: int| 0 <= i < t.len() implies 0 <= (#[trigger] t[i]).0 < pow2(order) && 0 <= t[i].1 < pow2(
        order,
    ) by {
        assert(in_box(t[i], (0, 0), Direction::Right, Direction::Down, pow2(order) as int));
    }
}

/// Every pixel of a curve of order at most 32 has coordinates that fit in `u32`.
pub(crate) proof fn lemma_pixel_path_fits(order: nat)
    requires
        order <= 32,
    ensures
        forall|i: int|
            0 <= i < pixel_path(order).len() ==> 0 <= (#[trigger] pixel_path(order)[i]).0 <= u32::MAX && 0
                <= pixel_path(order)[i].1 <= u32::MAX,
{
    lemma_pixel_path_fills_grid(order);
    lemma_pow2_grows(order, 32);
    reveal_with_fuel(pow2, 33);
    assert(pow2(32) == 0x1_0000_0000);
}

/// Consecutive points of any trail are one unit step apart.
pub proof fn lemma_trail_continuous(ms: Seq<Movement>, p: (int, int), d: Direction)
    ensures
        forall|i: int|
            0 <= i < trail(ms, p, d).len() - 1 ==> adjacent(#[trigger] trail(ms, p, d)[i], trail(ms, p, d)[i + 1]),
    decreases ms.len(),
{
    if ms.len() > 0 {
        match ms[0] {
            Movement::Turn(t) => {
                lemma_trail_continuous(ms.drop_first(), p, turned(d, t));
                assert(trail(ms, p, d) == trail(ms.drop_first(), p, turned(d, t)));
            },
            Movement::Forward => {
                let q = step(p, d);
                let tr = trail(ms.drop_first(), q, d);
                lemma_trail_continuous(ms.drop_first(), q, d);
                lemma_trail_start(ms.drop_first(), q, d);
                let t = trail(ms, p, d);
                assert(t == seq![p] + tr);
                assert forall|i: int| 0 <= i < t.len() - 1 implies adjacent(#[trigger] t[i], t[i + 1]) by {
                    if i > 0 {
                        assert(t[i] == tr[i - 1]);
                        assert(t[i + 1] == tr[i]);
                    } else {
                        assert(t[1] == q);
                        match d {
                            Direction::Up => {},
                            Direction::Right => {},
                            Direction::Down => {},
                            Direction::Left => {},
                        }
                    }
                }
            },
        }
    }
}

/// Consecutive pixels of a curve differ by one unit along exactly one axis.
pub proof fn lemma_pixel_path_continuous(order: nat)
    ensures
        forall|i: int|
            0 <= i < pixel_path(order).len() - 1 ==> adjacent(
                #[trigger] pixel_path(order)[i],
                pixel_path(order)[i + 1],
            ),
{
    lemma_trail_continuous(curve_moves(order), (0, 0), Direction::Down);
}

} // verus!
