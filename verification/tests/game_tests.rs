use automatafl::Board;
use automatafl::Coord;
use automatafl::CoordFeedback;
use automatafl::Game;
use automatafl::Move;
use automatafl::MoveFeedback;
use automatafl::MoveResult;
use automatafl::Particle;
use automatafl::Pid;
use automatafl::RoundState;

fn c(x: u8, y: u8) -> Coord {
    Coord { x, y }
}

fn mv(who: u8, from: Coord, to: Coord) -> Move {
    Move { who: Pid(who), from, to }
}

#[test]
fn must_move_rejected_and_not_queued() {
    let mut game = Game::new(Board::stock_testing(), 2, true);
    let (fb, ready) = game.propose_move(mv(0, c(0, 0), c(0, 0)));
    assert_eq!(fb, MoveFeedback::MustMove);
    assert!(!ready);
    assert_eq!(game.pending_moves().len(), 0);
}

#[test]
fn diagonal_rejected() {
    let mut game = Game::new(Board::stock_testing(), 2, true);
    let (fb, _) = game.propose_move(mv(0, c(0, 0), c(1, 1)));
    assert_eq!(fb, MoveFeedback::AxisAlignedOnly);
    assert_eq!(game.pending_moves().len(), 0);
}

#[test]
fn automaton_cell_reported_for_both_coords() {
    let mut game = Game::new(Board::stock_testing(), 2, true);
    // the automaton sits at (2, 2); both coordinates must be reported,
    // even though only one is bad
    let (fb, _) = game.propose_move(mv(0, c(2, 2), c(2, 4)));
    match fb {
        MoveFeedback::SeeCoords(cfs) => {
            assert_eq!(cfs.data.len(), 2);
            assert_eq!(cfs.data[0], (c(2, 2), CoordFeedback::Automaton));
            assert_eq!(cfs.data[1], (c(2, 4), CoordFeedback::Fine));
        }
        other => panic!("expected SeeCoords, got {:?}", other),
    }
    // as a destination, likewise
    let (fb, _) = game.propose_move(mv(0, c(2, 0), c(2, 2)));
    match fb {
        MoveFeedback::SeeCoords(cfs) => {
            assert_eq!(cfs.data[0], (c(2, 0), CoordFeedback::Fine));
            assert_eq!(cfs.data[1], (c(2, 2), CoordFeedback::Automaton));
        }
        other => panic!("expected SeeCoords, got {:?}", other),
    }
    assert_eq!(game.pending_moves().len(), 0);
}

#[test]
fn out_of_bounds_reported() {
    let mut game = Game::new(Board::stock_testing(), 2, true);
    let (fb, _) = game.propose_move(mv(0, c(9, 0), c(9, 9)));
    match fb {
        MoveFeedback::SeeCoords(cfs) => {
            assert_eq!(cfs.data[0], (c(9, 0), CoordFeedback::Oob));
            assert_eq!(cfs.data[1], (c(9, 9), CoordFeedback::Oob));
        }
        other => panic!("expected SeeCoords, got {:?}", other),
    }
}

#[test]
fn identical_pair_is_not_a_conflict() {
    // two players submit the same (from, to) pair: one survives, no conflict
    let mut game = Game::new(Board::stock_testing(), 2, true);
    let (fb, ready) = game.propose_move(mv(0, c(0, 0), c(0, 1)));
    assert_eq!(fb, MoveFeedback::Committed);
    assert!(!ready);
    let (fb, ready) = game.propose_move(mv(1, c(0, 0), c(0, 1)));
    assert_eq!(fb, MoveFeedback::Committed);
    assert!(ready);
    let results = game.try_complete_round().expect("no conflict expected");
    assert_eq!(results.len(), 1);
    assert_eq!(results[0].0, mv(0, c(0, 0), c(0, 1)));
    assert_eq!(results[0].1, MoveResult::Applied);
    assert_eq!(game.round(), RoundState::Fresh);
    assert_eq!(game.locked_players().len(), 0);
}

#[test]
fn shared_endpoints_conflict_transitively() {
    // a locked, m1 locked, m2 clashes with m1's source and with a's
    // destination: all three are pulled into the conflict
    let mut game = Game::new(Board::stock_testing_empty(), 3, true);
    let a = mv(0, c(3, 4), c(0, 4));
    let m1 = mv(1, c(0, 1), c(0, 2));
    let m2 = mv(2, c(0, 1), c(0, 4));
    assert_eq!(game.propose_move(a).0, MoveFeedback::Committed);
    assert_eq!(game.propose_move(m1).0, MoveFeedback::Committed);
    let (fb, ready) = game.propose_move(m2);
    assert_eq!(fb, MoveFeedback::Committed);
    assert!(ready);
    assert!(game.try_complete_round().is_err());
    assert_eq!(game.round(), RoundState::ResolvingConflict);
    // every author is locked out
    let locked = game.locked_players();
    assert!(locked.contains(&Pid(0)));
    assert!(locked.contains(&Pid(1)));
    assert!(locked.contains(&Pid(2)));
    // all three moves left the queue
    assert_eq!(game.pending_moves().len(), 0);
    // the clashing coordinates are marked
    assert!(game.board().is_conflict(c(0, 1)));
    assert!(game.board().is_conflict(c(0, 4)));
    // a locked player may not re-propose
    let (fb, _) = game.propose_move(mv(1, c(1, 0), c(1, 1)));
    assert_eq!(fb, MoveFeedback::WaitYourTurn);
    // an unlocked player may, but not onto a conflicted cell
    let (fb, _) = game.propose_move(mv(7, c(0, 1), c(0, 3)));
    match fb {
        MoveFeedback::SeeCoords(cfs) => {
            assert_eq!(cfs.data[0], (c(0, 1), CoordFeedback::Conflict));
        }
        other => panic!("expected SeeCoords, got {:?}", other),
    }
}

#[test]
fn distinct_sources_same_destination_conflict() {
    let mut game = Game::new(Board::stock_testing(), 2, true);
    assert_eq!(game.propose_move(mv(0, c(0, 0), c(1, 0))).0, MoveFeedback::Committed);
    let (fb, ready) = game.propose_move(mv(1, c(2, 0), c(1, 0)));
    assert_eq!(fb, MoveFeedback::Committed);
    assert!(ready);
    assert!(game.try_complete_round().is_err());
    assert!(game.locked_players().contains(&Pid(0)));
    assert!(game.locked_players().contains(&Pid(1)));
    assert!(game.board().is_conflict(c(1, 0)));
}

#[test]
fn automaton_alone_stays_put_on_completion() {
    let mut game = Game::new(Board::stock_testing_empty(), 0, true);
    let results = game.try_complete_round().expect("nothing to conflict");
    assert_eq!(results.len(), 0);
    assert_eq!(game.board().automaton_location(), c(2, 2));
    assert_eq!(game.round(), RoundState::Fresh);
}

#[test]
fn attractor_repulsor_pair_moves_automaton_north() {
    // attractor two cells north (+y), repulsor two cells south: one step
    // north, whatever occupies the perpendicular axis
    let mut game = Game::new(Board::stock_testing_empty(), 0, true);
    game.place(c(2, 4), Particle::Attractor);
    game.place(c(2, 0), Particle::Repulsor);
    let results = game.try_complete_round().expect("no conflict");
    assert_eq!(results.len(), 0);
    assert_eq!(game.board().automaton_location(), c(2, 3));

    // a lone attractor east only yields the weaker toward-attractor pull
    let mut with_attractor = Game::new(Board::stock_testing_empty(), 0, true);
    with_attractor.place(c(2, 4), Particle::Attractor);
    with_attractor.place(c(2, 0), Particle::Repulsor);
    with_attractor.place(c(4, 2), Particle::Attractor);
    assert_eq!(with_attractor.automaton_move(), c(2, 3));

    // a lone repulsor west only yields the weaker flee-repulsor push
    let mut with_repulsor = Game::new(Board::stock_testing_empty(), 0, true);
    with_repulsor.place(c(2, 4), Particle::Attractor);
    with_repulsor.place(c(2, 0), Particle::Repulsor);
    with_repulsor.place(c(0, 2), Particle::Repulsor);
    assert_eq!(with_repulsor.automaton_move(), c(2, 3));
}

#[test]
fn adjacent_attractor_disqualifies_the_pair() {
    // attractor adjacent north, repulsor two cells south: no move
    let mut game = Game::new(Board::stock_testing_empty(), 0, true);
    game.place(c(2, 3), Particle::Attractor);
    game.place(c(2, 0), Particle::Repulsor);
    let results = game.try_complete_round().expect("no conflict");
    assert_eq!(results.len(), 0);
    assert_eq!(game.board().automaton_location(), c(2, 2));
}

#[test]
fn chain_of_three_moves_applies() {
    let mut game = Game::new(Board::stock_testing_empty(), 3, true);
    game.place(c(0, 0), Particle::Repulsor);
    game.place(c(1, 0), Particle::Repulsor);
    game.place(c(2, 0), Particle::Repulsor);
    assert_eq!(game.propose_move(mv(0, c(0, 0), c(1, 0))).0, MoveFeedback::Committed);
    assert_eq!(game.propose_move(mv(1, c(1, 0), c(2, 0))).0, MoveFeedback::Committed);
    let (fb, ready) = game.propose_move(mv(2, c(2, 0), c(3, 0)));
    assert_eq!(fb, MoveFeedback::Committed);
    assert!(ready);
    let results = game.try_complete_round().expect("no conflict");
    assert_eq!(results.len(), 3);
    for (_, res) in results.iter() {
        assert_eq!(*res, MoveResult::Applied);
    }
    assert_eq!(game.round(), RoundState::Fresh);
}

#[test]
fn vacant_source_resolves_to_no_source() {
    let mut game = Game::new(Board::stock_testing_empty(), 2, true);
    game.place(c(0, 0), Particle::Repulsor);
    assert_eq!(game.propose_move(mv(0, c(0, 0), c(1, 0))).0, MoveFeedback::Committed);
    // nothing sits at (3, 0); the move can never find a piece
    let (fb, ready) = game.propose_move(mv(1, c(3, 0), c(4, 0)));
    assert_eq!(fb, MoveFeedback::Committed);
    assert!(ready);
    let results = game.try_complete_round().expect("no conflict");
    assert_eq!(results.len(), 2);
    let mut applied = 0;
    let mut no_source = 0;
    for (m, res) in results.iter() {
        if *m == mv(0, c(0, 0), c(1, 0)) {
            assert_eq!(*res, MoveResult::Applied);
            applied += 1;
        } else {
            assert_eq!(*m, mv(1, c(3, 0), c(4, 0)));
            assert_eq!(*res, MoveResult::NoSource);
            no_source += 1;
        }
    }
    assert_eq!((applied, no_source), (1, 1));
}

#[test]
fn occluded_path_reports_the_blocker() {
    // on the stock testing board, (0, 2) holds an attractor: a move from
    // (0, 0) to (0, 4) is blocked there
    let mut game = Game::new(Board::stock_testing(), 1, false);
    let (fb, ready) = game.propose_move(mv(0, c(0, 0), c(0, 4)));
    assert_eq!(fb, MoveFeedback::Committed);
    assert!(ready);
    let results = game.try_complete_round().expect("no conflict");
    assert_eq!(results.len(), 1);
    assert_eq!(results[0].1, MoveResult::OccupiedAt(c(0, 2)));
    // the blocked move changed nothing
    assert!(!game.board().is_vacuum(c(0, 0)));
}

#[test]
fn reaching_a_goal_ends_the_game() {
    let mut game = Game::new(Board::stock_testing_empty(), 0, true);
    game.place(c(2, 4), Particle::Attractor);
    game.add_goal(c(2, 3), Pid(1));
    let _ = game.try_complete_round().expect("no conflict");
    assert_eq!(game.board().automaton_location(), c(2, 3));
    assert_eq!(game.round(), RoundState::GameOver);
    assert_eq!(game.winner(), Some(Pid(1)));
    // all further proposals are rejected
    let (fb, _) = game.propose_move(mv(0, c(0, 0), c(0, 1)));
    assert_eq!(fb, MoveFeedback::GameOver);
}

#[test]
fn column_rule_breaks_exact_ties() {
    // a repulsor adjacent on +x and one adjacent on +y give both axes the
    // same decision; only the column rule lets the y axis win
    let mut with_rule = Game::new(Board::stock_testing_empty(), 0, true);
    with_rule.place(c(3, 2), Particle::Repulsor);
    with_rule.place(c(2, 3), Particle::Repulsor);
    assert_eq!(with_rule.automaton_move(), c(2, 1));

    let mut without_rule = Game::new(Board::stock_testing_empty(), 0, false);
    without_rule.place(c(3, 2), Particle::Repulsor);
    without_rule.place(c(2, 3), Particle::Repulsor);
    assert_eq!(without_rule.automaton_move(), c(2, 2));
}

#[test]
fn marks_cleared_after_clean_round() {
    // a conflicted round marks cells; a later clean round clears them
    let mut game = Game::new(Board::stock_testing_empty(), 2, true);
    game.place(c(0, 0), Particle::Repulsor);
    game.place(c(1, 0), Particle::Repulsor);
    assert_eq!(game.propose_move(mv(0, c(0, 0), c(0, 1))).0, MoveFeedback::Committed);
    assert_eq!(game.propose_move(mv(1, c(3, 1), c(0, 1))).0, MoveFeedback::Committed);
    assert!(game.try_complete_round().is_err());
    assert!(game.board().is_conflict(c(0, 1)));
    // the two non-conflicting proposals of the next attempt
    assert_eq!(game.propose_move(mv(7, c(0, 0), c(0, 2))).0, MoveFeedback::Committed);
    let (fb, ready) = game.propose_move(mv(8, c(1, 0), c(1, 2)));
    assert_eq!(fb, MoveFeedback::Committed);
    assert!(ready);
    let results = game.try_complete_round().expect("no conflict");
    assert_eq!(results.len(), 2);
    assert!(!game.board().is_conflict(c(0, 1)));
    assert_eq!(game.round(), RoundState::Fresh);
    // locks are lifted with the fresh round
    assert_eq!(game.locked_players().len(), 0);
}

#[test]
fn round_state_tracks_submissions() {
    let mut game = Game::new(Board::stock_testing(), 2, true);
    assert_eq!(game.round(), RoundState::Fresh);
    let (fb, _) = game.propose_move(mv(0, c(0, 0), c(0, 1)));
    assert_eq!(fb, MoveFeedback::Committed);
    assert_eq!(game.round(), RoundState::PartiallySubmitted);
    // a rejected proposal leaves the state alone
    let _ = game.propose_move(mv(1, c(1, 1), c(1, 1)));
    assert_eq!(game.round(), RoundState::PartiallySubmitted);
}
