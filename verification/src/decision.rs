use vstd::prelude::*;
use crate::geom::Delta;
use crate::geom::sat_i8;
use crate::kinds::Particle;
use crate::kinds::Raycast;
use crate::board::BoardModel;
use crate::board::is_unit_dir;
use crate::board::lemma_raycast_props;
use crate::board::ray_pos;
use crate::board::spec_raycast;

verus! {

/// What one axis asks of the automaton, ranked below by urgency. `pos` is
/// true when the preferred step is toward the axis's positive side.
#[derive(Debug, Clone, Copy, PartialEq, Eq, Structural)]
pub enum AutomatonDecision {
    /// An attractor on one side, a repulsor on the other, and the automaton
    /// not already adjacent to the attractor.
    UnbalancedPair { pos: bool, att_dist: usize, rep_dist: usize },
    /// Flee the nearer (or only) repulsor.
    FromRepulsor { pos: bool, rep_dist: usize },
    /// Approach the nearer (or only) attractor.
    TowardAttractor { pos: bool, att_dist: usize },
    /// Nothing on this axis calls for a move.
    Still,
}

/// Rank of a decision kind; a larger rank always wins.
pub open spec fn spec_priority(d: AutomatonDecision) -> int {
    match d {
        AutomatonDecision::Still => 0,
        AutomatonDecision::TowardAttractor { .. } => 10,
        AutomatonDecision::FromRepulsor { .. } => 20,
        AutomatonDecision::UnbalancedPair { .. } => 30,
    }
}

/// Whether `a` is strictly more urgent than `b`: first by kind, then within a
/// kind by smaller distance (attractor distance first for an unbalanced
/// pair). The preferred side plays no part.
pub open spec fn spec_decision_gt(a: AutomatonDecision, b: AutomatonDecision) -> bool {
    if spec_priority(a) != spec_priority(b) {
        spec_priority(a) > spec_priority(b)
    } else {
        match (a, b) {
            (
                AutomatonDecision::UnbalancedPair { pos: _, att_dist: aa, rep_dist: ar },
                AutomatonDecision::UnbalancedPair { pos: _, att_dist: ba, rep_dist: br },
            ) => aa < ba || (aa == ba && ar < br),
            (
                AutomatonDecision::FromRepulsor { pos: _, rep_dist: ar },
                AutomatonDecision::FromRepulsor { pos: _, rep_dist: br },
            ) => ar < br,
            (
                AutomatonDecision::TowardAttractor { pos: _, att_dist: aa },
                AutomatonDecision::TowardAttractor { pos: _, att_dist: ba },
            ) => aa < ba,
            _ => false,
        }
    }
}

/// Whether `a` and `b` are equally urgent: same kind and same distances. The
/// preferred side plays no part.
pub open spec fn spec_decision_eq(a: AutomatonDecision, b: AutomatonDecision) -> bool {
    match (a, b) {
        (
            AutomatonDecision::UnbalancedPair { pos: _, att_dist: aa, rep_dist: ar },
            AutomatonDecision::UnbalancedPair { pos: _, att_dist: ba, rep_dist: br },
        ) => aa == ba && ar == br,
        (
            AutomatonDecision::FromRepulsor { pos: _, rep_dist: ar },
            AutomatonDecision::FromRepulsor { pos: _, rep_dist: br },
        ) => ar == br,
        (
            AutomatonDecision::TowardAttractor { pos: _, att_dist: aa },
            AutomatonDecision::TowardAttractor { pos: _, att_dist: ba },
        ) => aa == ba,
        (AutomatonDecision::Still, AutomatonDecision::Still) => true,
        _ => false,
    }
}

/// The signed step a decision asks for: +1 toward the positive side, -1
/// toward the negative side, 0 for no move.
pub open spec fn decision_dir(d: AutomatonDecision) -> int {
    match d {
        AutomatonDecision::UnbalancedPair { pos, .. } => if pos { 1int } else { -1int },
        AutomatonDecision::FromRepulsor { pos, .. } => if pos { 1int } else { -1int },
        AutomatonDecision::TowardAttractor { pos, .. } => if pos { 1int } else { -1int },
        AutomatonDecision::Still => 0int,
    }
}

/// Classify one axis from its two raycasts, `pos` looking toward the
/// positive side and `neg` toward the negative side.
pub open spec fn spec_evaluate_axis(pos: Raycast, neg: Raycast) -> AutomatonDecision {
    if pos.what == Particle::Attractor && neg.what == Particle::Repulsor && pos.dist > 1 {
        AutomatonDecision::UnbalancedPair { pos: true, att_dist: pos.dist, rep_dist: neg.dist }
    } else if pos.what == Particle::Repulsor && neg.what == Particle::Attractor && neg.dist > 1 {
        AutomatonDecision::UnbalancedPair { pos: false, att_dist: neg.dist, rep_dist: pos.dist }
    } else if pos.what == Particle::Repulsor && neg.what == Particle::Repulsor && pos.dist != neg.dist {
        AutomatonDecision::FromRepulsor {
            pos: pos.dist > neg.dist,
            rep_dist: if pos.dist <= neg.dist { pos.dist } else { neg.dist },
        }
    } else if pos.what == Particle::Repulsor && neg.what == Particle::Vacuum && neg.dist > 1 {
        AutomatonDecision::FromRepulsor { pos: false, rep_dist: pos.dist }
    } else if pos.what == Particle::Vacuum && neg.what == Particle::Repulsor && pos.dist > 1 {
        AutomatonDecision::FromRepulsor { pos: true, rep_dist: neg.dist }
    } else if pos.what == Particle::Attractor && neg.what == Particle::Attractor && pos.dist != neg.dist {
        AutomatonDecision::TowardAttractor {
            pos: pos.dist < neg.dist,
            att_dist: if pos.dist <= neg.dist { pos.dist } else { neg.dist },
        }
    } else if pos.what == Particle::Attractor && neg.what == Particle::Vacuum && pos.dist > 1 {
        AutomatonDecision::TowardAttractor { pos: true, att_dist: pos.dist }
    } else if pos.what == Particle::Vacuum && neg.what == Particle::Attractor && neg.dist > 1 {
        AutomatonDecision::TowardAttractor { pos: false, att_dist: neg.dist }
    } else {
        AutomatonDecision::Still
    }
}

/// The x-axis decision at the automaton's cell.
pub open spec fn spec_x_decision(b: BoardModel) -> AutomatonDecision {
    spec_evaluate_axis(spec_raycast(b, b.auto, (1int, 0int)), spec_raycast(b, b.auto, (-1int, 0int)))
}

/// The y-axis decision at the automaton's cell.
pub open spec fn spec_y_decision(b: BoardModel) -> AutomatonDecision {
    spec_evaluate_axis(spec_raycast(b, b.auto, (0int, 1int)), spec_raycast(b, b.auto, (0int, -1int)))
}

/// Where the automaton moves this round: one step along the axis whose
/// decision is the more urgent; on an exact tie it stays put, unless the
/// column rule is on, in which case the y-axis decision is followed.
pub open spec fn spec_automaton_target(b: BoardModel, use_column_rule: bool) -> (int, int) {
    let xd = spec_x_decision(b);
    let yd = spec_y_decision(b);
    if spec_decision_gt(xd, yd) {
        (b.auto.0 + decision_dir(xd), b.auto.1)
    } else if !use_column_rule && spec_decision_eq(xd, yd) {
        b.auto
    } else {
        (b.auto.0, b.auto.1 + decision_dir(yd))
    }
}

impl AutomatonDecision {
    /// Rank of the decision kind; a larger rank always wins.
    pub fn priority(&self) -> (r: usize)
        ensures
            r == spec_priority(*self),
    {
        match self {
            AutomatonDecision::Still => 0,
            AutomatonDecision::TowardAttractor { .. } => 10,
            AutomatonDecision::FromRepulsor { .. } => 20,
            AutomatonDecision::UnbalancedPair { .. } => 30,
        }
    }

    /// The delta the decision asks for, given the axis's positive unit delta:
    /// the axis itself, its reverse, or zero.
    pub fn delta(&self, axis: Delta) -> (r: Delta)
        ensures
            r.dx == sat_i8(decision_dir(*self) * axis.dx),
            r.dy == sat_i8(decision_dir(*self) * axis.dy),
    {
        let dir: i8 = match self {
            AutomatonDecision::UnbalancedPair { pos, .. } => if *pos { 1 } else { -1 },
            AutomatonDecision::FromRepulsor { pos, .. } => if *pos { 1 } else { -1 },
            AutomatonDecision::TowardAttractor { pos, .. } => if *pos { 1 } else { -1 },
            AutomatonDecision::Still => 0,
        };
        let r = axis.times(dir);
        proof {
            assert(axis.dx as int * dir as int == decision_dir(*self) * axis.dx) by (nonlinear_arith)
                requires dir as int == decision_dir(*self);
            assert(axis.dy as int * dir as int == decision_dir(*self) * axis.dy) by (nonlinear_arith)
                requires dir as int == decision_dir(*self);
        }
        r
    }
}

/// Whether `a` is strictly more urgent than `b`.
pub fn decision_gt(a: &AutomatonDecision, b: &AutomatonDecision) -> (r: bool)
    ensures
        r == spec_decision_gt(*a, *b),
{
    let pa = a.priority();
    let pb = b.priority();
    if pa != pb {
        pa > pb
    } else {
        match (*a, *b) {
            (
                AutomatonDecision::UnbalancedPair { pos: _, att_dist: aa, rep_dist: ar },
                AutomatonDecision::UnbalancedPair { pos: _, att_dist: ba, rep_dist: br },
            ) => aa < ba || (aa == ba && ar < br),
            (
                AutomatonDecision::FromRepulsor { pos: _, rep_dist: ar },
                AutomatonDecision::FromRepulsor { pos: _, rep_dist: br },
            ) => ar < br,
            (
                AutomatonDecision::TowardAttractor { pos: _, att_dist: aa },
                AutomatonDecision::TowardAttractor { pos: _, att_dist: ba },
            ) => aa < ba,
            _ => false,
        }
    }
}

/// Whether `a` and `b` are equally urgent.
pub fn decision_eq(a: &AutomatonDecision, b: &AutomatonDecision) -> (r: bool)
    ensures
        r == spec_decision_eq(*a, *b),
{
    match (*a, *b) {
        (
            AutomatonDecision::UnbalancedPair { pos: _, att_dist: aa, rep_dist: ar },
            AutomatonDecision::UnbalancedPair { pos: _, att_dist: ba, rep_dist: br },
        ) => aa == ba && ar == br,
        (
            AutomatonDecision::FromRepulsor { pos: _, rep_dist: ar },
            AutomatonDecision::FromRepulsor { pos: _, rep_dist: br },
        ) => ar == br,
        (
            AutomatonDecision::TowardAttractor { pos: _, att_dist: aa },
            AutomatonDecision::TowardAttractor { pos: _, att_dist: ba },
        ) => aa == ba,
        (AutomatonDecision::Still, AutomatonDecision::Still) => true,
        _ => false,
    }
}

/// Classify one axis from its two raycasts.
pub fn evaluate_axis(pos: &Raycast, neg: &Raycast) -> (r: AutomatonDecision)
    ensures
        r == spec_evaluate_axis(*pos, *neg),
{
    let pw = pos.what;
    let nw = neg.what;
    if pw == Particle::Attractor && nw == Particle::Repulsor && pos.dist > 1 {
        AutomatonDecision::UnbalancedPair { pos: true, att_dist: pos.dist, rep_dist: neg.dist }
    } else if pw == Particle::Repulsor && nw == Particle::Attractor && neg.dist > 1 {
        AutomatonDecision::UnbalancedPair { pos: false, att_dist: neg.dist, rep_dist: pos.dist }
    } else if pw == Particle::Repulsor && nw == Particle::Repulsor && pos.dist != neg.dist {
        AutomatonDecision::FromRepulsor {
            pos: pos.dist > neg.dist,
            rep_dist: if pos.dist <= neg.dist { pos.dist } else { neg.dist },
        }
    } else if pw == Particle::Repulsor && nw == Particle::Vacuum && neg.dist > 1 {
        AutomatonDecision::FromRepulsor { pos: false, rep_dist: pos.dist }
    } else if pw == Particle::Vacuum && nw == Particle::Repulsor && pos.dist > 1 {
        AutomatonDecision::FromRepulsor { pos: true, rep_dist: neg.dist }
    } else if pw == Particle::Attractor && nw == Particle::Attractor && pos.dist != neg.dist {
        AutomatonDecision::TowardAttractor {
            pos: pos.dist < neg.dist,
            att_dist: if pos.dist <= neg.dist { pos.dist } else { neg.dist },
        }
    } else if pw == Particle::Attractor && nw == Particle::Vacuum && pos.dist > 1 {
        AutomatonDecision::TowardAttractor { pos: true, att_dist: pos.dist }
    } else if pw == Particle::Vacuum && nw == Particle::Attractor && neg.dist > 1 {
        AutomatonDecision::TowardAttractor { pos: false, att_dist: neg.dist }
    } else {
        AutomatonDecision::Still
    }
}


/// Urgency is asymmetric, and an exact tie excludes either side winning.
pub proof fn lemma_decision_order(a: AutomatonDecision, b: AutomatonDecision)
    ensures
        spec_decision_gt(a, b) ==> !spec_decision_gt(b, a),
        spec_decision_gt(a, b) ==> !spec_decision_eq(a, b),
        spec_decision_eq(a, b) ==> !spec_decision_gt(a, b) && !spec_decision_gt(b, a),
{
}

/// The axis with the strictly more urgent decision decides the automaton's
/// step, whatever stands on the other axis; an exact tie moves nothing
/// unless the column rule hands the step to the y axis.
pub proof fn lemma_urgent_axis_decides(b: BoardModel, use_column_rule: bool)
    ensures
        spec_decision_gt(spec_x_decision(b), spec_y_decision(b))
            ==> spec_automaton_target(b, use_column_rule)
                == (b.auto.0 + decision_dir(spec_x_decision(b)), b.auto.1),
        spec_decision_gt(spec_y_decision(b), spec_x_decision(b))
            ==> spec_automaton_target(b, use_column_rule)
                == (b.auto.0, b.auto.1 + decision_dir(spec_y_decision(b))),
        spec_decision_eq(spec_x_decision(b), spec_y_decision(b)) && !use_column_rule
            ==> spec_automaton_target(b, use_column_rule) == b.auto,
        spec_decision_eq(spec_x_decision(b), spec_y_decision(b)) && use_column_rule
            ==> spec_automaton_target(b, use_column_rule)
                == (b.auto.0, b.auto.1 + decision_dir(spec_y_decision(b))),
{
    lemma_decision_order(spec_x_decision(b), spec_y_decision(b));
}

/// On a board whose every other cell is empty, no axis pulls or pushes and
/// the automaton stays put, column rule or not.
pub proof fn lemma_becalmed_automaton_stays(b: BoardModel, use_column_rule: bool)
    requires
        b.wf(),
        forall|k: (int, int)| b.inb(k) && k != b.auto ==> (#[trigger] b.cell(k)).what == Particle::Vacuum,
    ensures
        spec_automaton_target(b, use_column_rule) == b.auto,
{
    lemma_vacuum_ray(b, (1int, 0int));
    lemma_vacuum_ray(b, (-1int, 0int));
    lemma_vacuum_ray(b, (0int, 1int));
    lemma_vacuum_ray(b, (0int, -1int));
}

/// A ray over empty cells reports only emptiness.
proof fn lemma_vacuum_ray(b: BoardModel, d: (int, int))
    requires
        b.wf(),
        is_unit_dir(d),
        forall|k: (int, int)| b.inb(k) && k != b.auto ==> (#[trigger] b.cell(k)).what == Particle::Vacuum,
    ensures
        spec_raycast(b, b.auto, d).what == Particle::Vacuum,
        spec_raycast(b, b.auto, d).hit is None,
{
    let r = spec_raycast(b, b.auto, d);
    lemma_raycast_props(b, b.auto, d);
    if r.hit is Some {
        let p = ray_pos(b.auto, d, r.dist as int);
        assert(b.inb(p));
        assert(p != b.auto) by {
            crate::board::lemma_ray_unit_moves(b.auto, d, r.dist as int);
        }
        assert(b.cell(p).what == Particle::Vacuum);
    }
}

/// On a well formed board the automaton's target is on the board, is the
/// automaton's own cell or an adjacent one on a shared row or column, and
/// the cell it steps onto (when it moves) was reached by the winning ray's
/// first step.
pub proof fn lemma_target_props(b: BoardModel, use_column_rule: bool)
    requires
        b.wf(),
    ensures
        ({
            let t = spec_automaton_target(b, use_column_rule);
            &&& b.inb(t)
            &&& (t != b.auto ==> (t.0 == b.auto.0 || t.1 == b.auto.1)
                    && crate::geom::abs_int(t.0 - b.auto.0) + crate::geom::abs_int(t.1 - b.auto.1) == 1)
        }),
{
    let t = spec_automaton_target(b, use_column_rule);
    lemma_raycast_props(b, b.auto, (1int, 0int));
    lemma_raycast_props(b, b.auto, (-1int, 0int));
    lemma_raycast_props(b, b.auto, (0int, 1int));
    lemma_raycast_props(b, b.auto, (0int, -1int));
    lemma_dir_step_inb(b, (1int, 0int));
    lemma_dir_step_inb(b, (-1int, 0int));
    lemma_dir_step_inb(b, (0int, 1int));
    lemma_dir_step_inb(b, (0int, -1int));
}

/// If the decision of an axis steps in direction `d`, then the cell one step
/// from the automaton in direction `d` is on the board.
proof fn lemma_dir_step_inb(b: BoardModel, d: (int, int))
    requires
        b.wf(),
        is_unit_dir(d),
    ensures
        ({
            let fwd = spec_raycast(b, b.auto, d);
            let bwd = spec_raycast(b, b.auto, (-d.0, -d.1));
            let dec = if d == (1int, 0int) || d == (0int, 1int) {
                spec_evaluate_axis(fwd, bwd)
            } else {
                spec_evaluate_axis(bwd, fwd)
            };
            let dir = decision_dir(dec);
            ((d == (1int, 0int) || d == (0int, 1int)) && dir == 1) ==> b.inb(ray_pos(b.auto, d, 1))
        }),
        ({
            let fwd = spec_raycast(b, b.auto, d);
            let bwd = spec_raycast(b, b.auto, (-d.0, -d.1));
            let dec = if d == (1int, 0int) || d == (0int, 1int) {
                spec_evaluate_axis(fwd, bwd)
            } else {
                spec_evaluate_axis(bwd, fwd)
            };
            let dir = decision_dir(dec);
            ((d == (-1int, 0int) || d == (0int, -1int)) && dir == -1) ==> b.inb(ray_pos(b.auto, d, 1))
        }),
{
    let fwd = spec_raycast(b, b.auto, d);
    lemma_raycast_props(b, b.auto, d);
    lemma_raycast_props(b, b.auto, (-d.0, -d.1));
    if fwd.dist > 1 {
        assert(b.inb(ray_pos(b.auto, d, 1)));
    } else {
        if fwd.hit is Some {
            assert(b.inb(ray_pos(b.auto, d, fwd.dist as int)));
        }
    }
}

} // verus!
