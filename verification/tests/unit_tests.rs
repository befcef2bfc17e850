use automatafl::AutomatonDecision;
use automatafl::Board;
use automatafl::Coord;
use automatafl::Delta;
use automatafl::Particle;
use automatafl::Raycast;
use automatafl::decision_eq;
use automatafl::decision_gt;
use automatafl::evaluate_axis;

fn c(x: u8, y: u8) -> Coord {
    Coord { x, y }
}

#[test]
fn coordinate_arithmetic_clamps() {
    assert_eq!(c(3, 7).minus(c(1, 9)), Delta { dx: 2, dy: -2 });
    assert_eq!(c(0, 0).minus(c(255, 0)), Delta { dx: -128, dy: 0 });
    assert_eq!(c(255, 0).minus(c(0, 0)), Delta { dx: 127, dy: 0 });
    assert_eq!(c(4, 4).plus(Delta { dx: -1, dy: 2 }), c(3, 6));
    assert_eq!(c(255, 0).plus(Delta { dx: 5, dy: -1 }), c(255, 0));
    assert_eq!(c(10, 20).ix(), (10usize, 20usize));
}

#[test]
fn delta_shapes() {
    assert!(Delta { dx: 0, dy: 3 }.is_axial());
    assert!(Delta { dx: -2, dy: 0 }.is_axial());
    assert!(!Delta { dx: 0, dy: 0 }.is_axial());
    assert!(!Delta { dx: 1, dy: 1 }.is_axial());
    assert!(Delta { dx: 0, dy: 0 }.is_zero());
    assert_eq!(Delta { dx: 3, dy: -4 }.displacement(), 7);
    assert_eq!(Delta { dx: -5, dy: 0 }.axial_unit(), Delta { dx: -1, dy: 0 });
    assert_eq!(Delta { dx: 2, dy: -3 }.axial_unit(), Delta { dx: 0, dy: -1 });
    // on a tie of magnitudes the y axis is preferred
    assert_eq!(Delta { dx: 2, dy: 2 }.axial_unit(), Delta { dx: 0, dy: 1 });
    assert_eq!(Delta { dx: 1, dy: 2 }.perpendicular(), Delta { dx: -2, dy: 1 });
    assert_eq!(Delta { dx: 4, dy: 0 }.times(-2), Delta { dx: -8, dy: 0 });
}

#[test]
fn raycast_reports_first_particle_or_edge() {
    let b = Board::stock_testing();
    let hit = b.raycast(c(2, 2), Delta::xp());
    assert_eq!(hit, Raycast { what: Particle::Attractor, hit: Some(c(4, 2)), dist: 2 });
    let edge = b.raycast(c(3, 1), Delta::yn());
    assert_eq!(edge, Raycast { what: Particle::Vacuum, hit: None, dist: 2 });
}

#[test]
fn axis_classification() {
    let att2 = Raycast { what: Particle::Attractor, hit: Some(c(4, 2)), dist: 2 };
    let rep2 = Raycast { what: Particle::Repulsor, hit: Some(c(0, 2)), dist: 2 };
    let rep1 = Raycast { what: Particle::Repulsor, hit: Some(c(1, 2)), dist: 1 };
    let att1 = Raycast { what: Particle::Attractor, hit: Some(c(3, 2)), dist: 1 };
    let vac3 = Raycast { what: Particle::Vacuum, hit: None, dist: 3 };

    assert_eq!(
        evaluate_axis(&att2, &rep2),
        AutomatonDecision::UnbalancedPair { pos: true, att_dist: 2, rep_dist: 2 }
    );
    // an adjacent attractor disqualifies the pair
    assert_eq!(evaluate_axis(&att1, &rep2), AutomatonDecision::Still);
    // the nearer repulsor sits on the positive side: flee toward negative
    assert_eq!(
        evaluate_axis(&rep1, &rep2),
        AutomatonDecision::FromRepulsor { pos: false, rep_dist: 1 }
    );
    assert_eq!(
        evaluate_axis(&rep2, &rep1),
        AutomatonDecision::FromRepulsor { pos: true, rep_dist: 1 }
    );
    assert_eq!(
        evaluate_axis(&vac3, &rep2),
        AutomatonDecision::FromRepulsor { pos: true, rep_dist: 2 }
    );
    assert_eq!(
        evaluate_axis(&att2, &vac3),
        AutomatonDecision::TowardAttractor { pos: true, att_dist: 2 }
    );
    assert_eq!(evaluate_axis(&vac3, &vac3), AutomatonDecision::Still);
}

#[test]
fn decision_ordering() {
    let unp = AutomatonDecision::UnbalancedPair { pos: true, att_dist: 9, rep_dist: 9 };
    let rep = AutomatonDecision::FromRepulsor { pos: false, rep_dist: 1 };
    let att = AutomatonDecision::TowardAttractor { pos: true, att_dist: 1 };
    let still = AutomatonDecision::Still;
    // kind outranks distance
    assert!(decision_gt(&unp, &rep));
    assert!(decision_gt(&rep, &att));
    assert!(decision_gt(&att, &still));
    // within a kind, the smaller distance is more urgent
    assert!(decision_gt(
        &AutomatonDecision::FromRepulsor { pos: true, rep_dist: 1 },
        &AutomatonDecision::FromRepulsor { pos: false, rep_dist: 2 },
    ));
    assert!(decision_gt(
        &AutomatonDecision::UnbalancedPair { pos: true, att_dist: 2, rep_dist: 5 },
        &AutomatonDecision::UnbalancedPair { pos: true, att_dist: 3, rep_dist: 1 },
    ));
    assert!(decision_gt(
        &AutomatonDecision::UnbalancedPair { pos: true, att_dist: 2, rep_dist: 1 },
        &AutomatonDecision::UnbalancedPair { pos: true, att_dist: 2, rep_dist: 3 },
    ));
    // equality ignores the preferred side
    assert!(decision_eq(
        &AutomatonDecision::FromRepulsor { pos: true, rep_dist: 2 },
        &AutomatonDecision::FromRepulsor { pos: false, rep_dist: 2 },
    ));
    assert!(!decision_eq(&unp, &still));
    assert_eq!(unp.priority(), 30);
    assert_eq!(rep.priority(), 20);
    assert_eq!(att.priority(), 10);
    assert_eq!(still.priority(), 0);
    assert_eq!(rep.delta(Delta::xp()), Delta { dx: -1, dy: 0 });
    assert_eq!(att.delta(Delta::yp()), Delta { dx: 0, dy: 1 });
    assert_eq!(still.delta(Delta::yp()), Delta { dx: 0, dy: 0 });
}

#[test]
fn stock_boards_shape() {
    let two = Board::stock_two_player();
    assert_eq!(two.size(), c(11, 11));
    assert_eq!(two.automaton_location(), c(5, 5));
    assert!(!two.is_vacuum(c(0, 0)));
    assert!(two.is_vacuum(c(2, 2)));

    let five = Board::stock_testing();
    assert_eq!(five.size(), c(5, 5));
    assert_eq!(five.automaton_location(), c(2, 2));
    assert!(five.is_automaton(c(2, 2)));
    assert!(!five.is_conflict(c(0, 0)));

    let mut empty = Board::stock_testing_empty();
    assert!(empty.is_vacuum(c(0, 0)));
    // placing the automaton vacates its old cell
    empty.place(c(1, 1), Particle::Automaton);
    assert_eq!(empty.automaton_location(), c(1, 1));
    assert!(empty.is_vacuum(c(2, 2)));
}
