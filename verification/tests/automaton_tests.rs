use automatafl::Board;
use automatafl::Coord;
use automatafl::Delta;
use automatafl::Game;
use automatafl::Particle;

#[derive(Debug)]
struct AutMoveError {
    expected_move: Delta,
    actual_move: Delta,
}

type AutMoveTest = Result<(), AutMoveError>;

fn expect_automaton_move(game: &mut Game, by: Delta) -> AutMoveTest {
    let t0 = game.board().automaton_location();
    let d = game.automaton_move().minus(t0);
    if d == by {
        Ok(())
    } else {
        Err(AutMoveError { expected_move: by, actual_move: d })
    }
}

fn testing_game() -> Game {
    Game::new(Board::stock_testing_empty(), 2, true)
}

fn run_automaton_stays_put() -> AutMoveTest {
    let board = Board::stock_two_player();
    let mut game = Game::new(board, 2, true);
    expect_automaton_move(&mut game, Delta::zero())
}

fn run_unbalanced_pair() -> AutMoveTest {
    for &d in Delta::axial_units().iter() {
        let mut game = testing_game();
        let loc = game.board().automaton_location();
        game.place(loc.plus(d.times(2)), Particle::Attractor);
        game.place(loc.plus(d.times(-2)), Particle::Repulsor);
        println!("* empty UnP delta {:?}", d);
        expect_automaton_move(&mut game, d)?;

        let perp = d.perpendicular();

        game.place(loc.plus(perp.times(2)), Particle::Attractor);
        println!("* UnP delta {:?} unaffected by unipolar attractor", d);
        expect_automaton_move(&mut game, d)?;
        game.place(loc.plus(perp.times(-2)), Particle::Attractor);
        println!("* UnP delta {:?} unaffected by bipolar attractor", d);
        expect_automaton_move(&mut game, d)?;

        // back to the clean unbalanced-pair board
        game.place(loc.plus(perp.times(2)), Particle::Vacuum);
        game.place(loc.plus(perp.times(-2)), Particle::Vacuum);

        game.place(loc.plus(perp.times(2)), Particle::Repulsor);
        println!("* UnP delta {:?} unaffected by unipolar repulsor", d);
        expect_automaton_move(&mut game, d)?;
        game.place(loc.plus(perp.times(-2)), Particle::Repulsor);
        println!("* UnP delta {:?} unaffected by bipolar repulsor", d);
        expect_automaton_move(&mut game, d)?;
    }
    Ok(())
}

fn run_unbalanced_pair_limits() -> AutMoveTest {
    for &d in Delta::axial_units().iter() {
        let mut game = testing_game();
        let loc = game.board().automaton_location();

        game.place(loc.plus(d.times(1)), Particle::Attractor);
        game.place(loc.plus(d.times(-2)), Particle::Repulsor);
        expect_automaton_move(&mut game, Delta::zero())?;
        println!("* no move when adjacent to UnP attractor, delta {:?}", d);

        let mut game = testing_game();
        game.place(loc.plus(d.times(2)), Particle::Attractor);
        game.place(loc.plus(d.times(-1)), Particle::Repulsor);
        println!("* still moves when UnP repulsor is adjacent, delta {:?}", d);
        expect_automaton_move(&mut game, d)?;
    }
    Ok(())
}

fn run_repulsor() -> AutMoveTest {
    for &d in Delta::axial_units().iter() {
        let loc = testing_game().board().automaton_location();
        let perp = d.perpendicular();

        let try_with_attractors = |g: &mut Game, e: Delta| -> AutMoveTest {
            g.place(loc.plus(perp.times(2)), Particle::Attractor);
            println!("* ...with unipolar attractor");
            expect_automaton_move(g, e)?;
            g.place(loc.plus(perp.times(-2)), Particle::Attractor);
            println!("* ...with bipolar attractor");
            expect_automaton_move(g, e)?;
            Ok(())
        };

        let mut game = testing_game();
        game.place(loc.plus(d.times(-1)), Particle::Repulsor);
        println!("* away from adjacent repulsor, unipolar, delta {:?}", d);
        expect_automaton_move(&mut game, d)?;
        try_with_attractors(&mut game, d)?;

        let mut game = testing_game();
        game.place(loc.plus(d.times(-2)), Particle::Repulsor);
        println!("* away from far repulsor, unipolar, delta {:?}", d);
        expect_automaton_move(&mut game, d)?;
        try_with_attractors(&mut game, d)?;

        let mut game = testing_game();
        game.place(loc.plus(d.times(-1)), Particle::Repulsor);
        game.place(loc.plus(d.times(2)), Particle::Repulsor);
        println!("* away from nearer repulsor, bipolar, delta {:?}", d);
        expect_automaton_move(&mut game, d)?;
        try_with_attractors(&mut game, d)?;
    }
    Ok(())
}

fn run_trapped_all_sides() -> AutMoveTest {
    let mut game = testing_game();
    let loc = game.board().automaton_location();
    for &d in Delta::axial_units().iter() {
        game.place(loc.plus(d), Particle::Repulsor);
    }
    expect_automaton_move(&mut game, Delta::zero())
}

#[test]
fn lib_automaton_stays_put() -> AutMoveTest {
    run_automaton_stays_put()
}

#[test]
fn lib_unbalanced_pair() -> AutMoveTest {
    run_unbalanced_pair()
}

#[test]
fn lib_unbalanced_pair_limits() -> AutMoveTest {
    run_unbalanced_pair_limits()
}

#[test]
fn lib_repulsor() -> AutMoveTest {
    run_repulsor()
}

#[test]
fn lib_trapped_all_sides() -> AutMoveTest {
    run_trapped_all_sides()
}

#[test]
fn support_automaton_stays_put() -> AutMoveTest {
    run_automaton_stays_put()
}

#[test]
fn support_unbalanced_pair() -> AutMoveTest {
    run_unbalanced_pair()
}

#[test]
fn support_unbalanced_pair_limits() -> AutMoveTest {
    run_unbalanced_pair_limits()
}

#[test]
fn support_repulsor() -> AutMoveTest {
    run_repulsor()
}

#[test]
fn support_trapped_all_sides() -> AutMoveTest {
    run_trapped_all_sides()
}
