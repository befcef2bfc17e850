use vstd::prelude::*;
use crate::geom::Coord;
use crate::geom::Delta;
use crate::geom::Move;
use crate::geom::Pid;
use crate::kinds::CoordFeedback;
use crate::kinds::CoordsFeedback;
use crate::kinds::MoveFeedback;
use crate::kinds::MoveResult;
use crate::kinds::Particle;
use crate::kinds::RoundState;
use crate::board::Board;
use crate::board::BoardModel;
use crate::board::clear_model;
use crate::board::coord_key;
use crate::board::do_move_model;
use crate::board::first_blocker;
use crate::board::mark_conflict_model;
use crate::board::mark_passable_model;
use crate::board::span;
use crate::board::swap_model;
use crate::decision::decision_eq;
use crate::decision::decision_gt;
use crate::decision::evaluate_axis;
use crate::decision::lemma_target_props;
use crate::decision::spec_automaton_target;

verus! {

/// A proposed move's shape is acceptable against a board: both endpoints on
/// the board, distinct, and on a shared row or column.
pub open spec fn valid_move(b: BoardModel, m: Move) -> bool {
    &&& b.inb(coord_key(m.from))
    &&& b.inb(coord_key(m.to))
    &&& m.from != m.to
    &&& (m.from.x == m.to.x || m.from.y == m.to.y)
}

/// The verdict on one coordinate of a proposed move: off the board, the
/// automaton's cell, conflicted this round, or usable.
pub open spec fn spec_coord_feedback(b: BoardModel, c: Coord) -> CoordFeedback {
    if !b.inb(coord_key(c)) {
        CoordFeedback::Oob
    } else if coord_key(c) == b.auto {
        CoordFeedback::Automaton
    } else if b.cell(coord_key(c)).conflict {
        CoordFeedback::Conflict
    } else {
        CoordFeedback::Fine
    }
}

/// Whether a proposal passes the whole validation pipeline and is queued.
pub open spec fn spec_move_allowed(g: GameModel, m: Move) -> bool {
    &&& g.round != RoundState::GameOver
    &&& !g.locked.contains(m.who)
    &&& spec_coord_feedback(g.board, m.from) == CoordFeedback::Fine
    &&& spec_coord_feedback(g.board, m.to) == CoordFeedback::Fine
    &&& m.from != m.to
    &&& (m.from.x == m.to.x || m.from.y == m.to.y)
}

/// Mathematical model of a game.
#[verifier::ext_equal]
pub struct GameModel {
    /// The winning player, once a goal is reached.
    pub winner: Option<Pid>,
    /// Players barred from proposing this round.
    pub locked: Seq<Pid>,
    pub board: BoardModel,
    pub round: RoundState,
    /// Accepted proposals, in submission order.
    pub pending: Seq<Move>,
    /// Coordinates bound to players; the automaton reaching one ends the game.
    pub goals: Seq<(Coord, Pid)>,
    pub player_count: int,
    pub use_column_rule: bool,
}

/// One game: a board plus the per-round bookkeeping of the round state
/// machine. Mutated only through `propose_move` and `try_complete_round`
/// (and the setup operations `add_goal`, `set_board` and `place`).
pub struct Game {
    winner: Option<Pid>,
    locked_players: Vec<Pid>,
    board: Board,
    round: RoundState,
    pending_moves: Vec<Move>,
    goals: Vec<(Coord, Pid)>,
    player_count: u8,
    use_column_rule: bool,
}

impl View for Game {
    type V = GameModel;

    closed spec fn view(&self) -> GameModel {
        GameModel {
            winner: self.winner,
            locked: self.locked_players@,
            board: self.board@,
            round: self.round,
            pending: self.pending_moves@,
            goals: self.goals@,
            player_count: self.player_count as int,
            use_column_rule: self.use_column_rule,
        }
    }
}

impl Game {
    /// The game is well formed: its board is, and every queued move has an
    /// acceptable shape.
    pub closed spec fn wf(&self) -> bool {
        &&& self.board.wf()
        &&& (forall|i: int| 0 <= i < self@.pending.len() ==> valid_move(self@.board, #[trigger] self@.pending[i]))
    }

    /// No queued move touches the automaton's current cell. This holds
    /// between rounds; it is re-established by emptying or filtering the
    /// queue whenever the automaton moves.
    pub closed spec fn pending_avoids_automaton(&self) -> bool {
        forall|i: int| 0 <= i < self@.pending.len()
            ==> coord_key((#[trigger] self@.pending[i]).from) != self@.board.auto
                && coord_key(self@.pending[i].to) != self@.board.auto
    }

    /// A fresh game over a board, with no proposals, goals, locks or winner.
    pub fn new(board: Board, player_count: u8, use_column_rule: bool) -> (r: Game)
        requires
            board.wf(),
        ensures
            r.wf(),
            r.pending_avoids_automaton(),
            r@ == (GameModel {
                winner: None,
                locked: Seq::empty(),
                board: board@,
                round: RoundState::Fresh,
                pending: Seq::empty(),
                goals: Seq::empty(),
                player_count: player_count as int,
                use_column_rule,
            }),
    {
        let r = Game {
            winner: None,
            locked_players: Vec::new(),
            board,
            round: RoundState::Fresh,
            pending_moves: Vec::new(),
            goals: Vec::new(),
            player_count,
            use_column_rule,
        };
        proof {
            assert(r@ =~= (GameModel {
                winner: None,
                locked: Seq::empty(),
                board: r.board@,
                round: RoundState::Fresh,
                pending: Seq::empty(),
                goals: Seq::empty(),
                player_count: player_count as int,
                use_column_rule,
            }));
        }
        r
    }

    /// The board, for rendering and spatial queries.
    pub fn board(&self) -> (r: &Board)
        ensures
            r@ == self@.board,
            self.wf() ==> r.wf(),
    {
        &self.board
    }

    /// The round state.
    pub fn round(&self) -> (r: RoundState)
        ensures
            r == self@.round,
    {
        self.round
    }

    /// The winning player, if the game has ended.
    pub fn winner(&self) -> (r: Option<Pid>)
        ensures
            r == self@.winner,
    {
        self.winner
    }

    /// The players barred from proposing this round.
    pub fn locked_players(&self) -> (r: &Vec<Pid>)
        ensures
            r@ == self@.locked,
    {
        &self.locked_players
    }

    /// The accepted proposals waiting for the round to complete.
    pub fn pending_moves(&self) -> (r: &Vec<Move>)
        ensures
            r@ == self@.pending,
    {
        &self.pending_moves
    }

    /// How many players the game waits for each round.
    pub fn player_count(&self) -> (r: u8)
        ensures
            r as int == self@.player_count,
    {
        self.player_count
    }

    /// Whether the column rule (y-axis tie-break) is on.
    pub fn use_column_rule(&self) -> (r: bool)
        ensures
            r == self@.use_column_rule,
    {
        self.use_column_rule
    }

    /// Bind a goal coordinate to a player.
    pub fn add_goal(&mut self, c: Coord, who: Pid)
        requires
            old(self).wf(),
        ensures
            final(self).wf(),
            old(self).pending_avoids_automaton() ==> final(self).pending_avoids_automaton(),
            final(self)@ == (GameModel { goals: old(self)@.goals.push((c, who)), ..old(self)@ }),
    {
        self.goals.push((c, who));
        proof {
            assert(final(self)@ =~= (GameModel { goals: old(self)@.goals.push((c, who)), ..old(self)@ }));
        }
    }

    /// Place a particle on the game's board (board setup and testing).
    pub fn place(&mut self, c: Coord, w: Particle)
        requires
            old(self).wf(),
            old(self)@.board.inb(coord_key(c)),
            w != Particle::Automaton ==> coord_key(c) != old(self)@.board.auto,
            old(self)@.pending.len() == 0,
        ensures
            final(self).wf(),
            final(self).pending_avoids_automaton(),
            final(self)@ == (GameModel {
                board: crate::board::place_model(old(self)@.board, coord_key(c), w),
                ..old(self)@
            }),
    {
        self.board.place(c, w);
        proof {
            assert(final(self)@ =~= (GameModel {
                board: crate::board::place_model(old(self)@.board, coord_key(c), w),
                ..old(self)@
            }));
        }
    }

    /// Replace the game's board (board setup and testing). The proposal
    /// queue must be empty, since queued moves were validated against the
    /// old board.
    pub fn set_board(&mut self, board: Board)
        requires
            old(self).wf(),
            board.wf(),
            old(self)@.pending.len() == 0,
        ensures
            final(self).wf(),
            final(self).pending_avoids_automaton(),
            final(self)@ == (GameModel { board: board@, ..old(self)@ }),
    {
        self.board = board;
        proof {
            assert(final(self)@ =~= (GameModel { board: final(self).board@, ..old(self)@ }));
        }
    }

    /// Propose a move. The reply reports the first rule the move breaks (or
    /// that it is committed), and whether the round is ready to complete:
    /// exactly as many moves are queued as there are players.
    ///
    /// Both coordinates are always evaluated, so a reply can report problems
    /// with either or both endpoints at once.
    pub fn propose_move(&mut self, m: Move) -> (r: (MoveFeedback, bool))
        requires
            old(self).wf(),
            old(self).pending_avoids_automaton(),
        ensures
            final(self).wf(),
            final(self).pending_avoids_automaton(),
            spec_move_allowed(old(self)@, m) ==> r.0 == MoveFeedback::Committed
                && final(self)@ == (GameModel {
                    pending: old(self)@.pending.push(m),
                    round: if old(self)@.round == RoundState::Fresh {
                        RoundState::PartiallySubmitted
                    } else {
                        old(self)@.round
                    },
                    ..old(self)@
                }),
            !spec_move_allowed(old(self)@, m) ==> final(self)@ == old(self)@,
            old(self)@.round == RoundState::GameOver ==> r.0 == MoveFeedback::GameOver,
            ({
                let g = old(self)@;
                let fbf = spec_coord_feedback(g.board, m.from);
                let fbt = spec_coord_feedback(g.board, m.to);
                &&& (g.round != RoundState::GameOver && g.locked.contains(m.who)
                        ==> r.0 == MoveFeedback::WaitYourTurn)
                &&& (g.round != RoundState::GameOver && !g.locked.contains(m.who)
                        && !(fbf == CoordFeedback::Fine && fbt == CoordFeedback::Fine)
                        ==> (r.0 matches MoveFeedback::SeeCoords(cfs)
                            && cfs.data@ == seq![(m.from, fbf), (m.to, fbt)]))
                &&& (g.round != RoundState::GameOver && !g.locked.contains(m.who)
                        && fbf == CoordFeedback::Fine && fbt == CoordFeedback::Fine && m.from == m.to
                        ==> r.0 == MoveFeedback::MustMove)
                &&& (g.round != RoundState::GameOver && !g.locked.contains(m.who)
                        && fbf == CoordFeedback::Fine && fbt == CoordFeedback::Fine && m.from != m.to
                        && m.from.x != m.to.x && m.from.y != m.to.y
                        ==> r.0 == MoveFeedback::AxisAlignedOnly)
            }),
            r.1 == (final(self)@.pending.len() == final(self)@.player_count),
    {
        let game_over = match self.round {
            RoundState::GameOver => true,
            _ => false,
        };
        let res: MoveFeedback = if game_over {
            MoveFeedback::GameOver
        } else if contains_pid(&self.locked_players, m.who) {
            MoveFeedback::WaitYourTurn
        } else {
            let fbf = coord_feedback_of(&self.board, m.from);
            let fbt = coord_feedback_of(&self.board, m.to);
            if !(fbf == CoordFeedback::Fine && fbt == CoordFeedback::Fine) {
                let mut data: Vec<(Coord, CoordFeedback)> = Vec::new();
                data.push((m.from, fbf));
                data.push((m.to, fbt));
                proof {
                    assert(data@ =~= seq![
                        (m.from, spec_coord_feedback(old(self)@.board, m.from)),
                        (m.to, spec_coord_feedback(old(self)@.board, m.to)),
                    ]);
                }
                MoveFeedback::SeeCoords(CoordsFeedback { data })
            } else if m.from == m.to {
                MoveFeedback::MustMove
            } else if !(m.from.x == m.to.x || m.from.y == m.to.y) {
                MoveFeedback::AxisAlignedOnly
            } else {
                MoveFeedback::Committed
            }
        };
        let committed = match res {
            MoveFeedback::Committed => true,
            _ => false,
        };
        if committed {
            self.pending_moves.push(m);
            let still_fresh = match self.round {
                RoundState::Fresh => true,
                _ => false,
            };
            if still_fresh {
                self.round = RoundState::PartiallySubmitted;
            }
            proof {
                assert(final(self)@ =~= (GameModel {
                    pending: old(self)@.pending.push(m),
                    round: if old(self)@.round == RoundState::Fresh {
                        RoundState::PartiallySubmitted
                    } else {
                        old(self)@.round
                    },
                    ..old(self)@
                }));
            }
        }
        let ready = self.pending_moves.len() == self.player_count as usize;
        (res, ready)
    }

    /// Resolve the queued proposals: exact duplicate (from, to) pairs are
    /// harmless and collapse to one; moves clashing on a source or a
    /// destination become conflicts (pulling in every locked move they share
    /// an endpoint with) and their clashing coordinates are marked on the
    /// board. Gives the locked moves if no conflict was found, else the
    /// conflicting moves.
    fn resolve_conflicts(&mut self) -> (r: Result<Vec<Move>, Vec<Move>>)
        requires
            old(self).wf(),
        ensures
            final(self).wf(),
            ({
                let st = spec_resolve(old(self)@.pending);
                &&& final(self)@ == (GameModel {
                    board: mark_conflicts_all(old(self)@.board, st.marks),
                    ..old(self)@
                })
                &&& (r matches Ok(v) ==> v@ == st.locked && st.conflicts.len() == 0)
                &&& (r matches Err(v) ==> v@ == st.conflicts && st.conflicts.len() > 0)
            }),
    {
        let ghost pending0 = self@.pending;
        let ghost b0 = self@.board;
        let mut seen_pairs: Vec<(Coord, Coord)> = Vec::new();
        let mut seen_from: Vec<Coord> = Vec::new();
        let mut seen_to: Vec<Coord> = Vec::new();
        let mut conflict_moves: Vec<Move> = Vec::new();
        let mut locked_moves: Vec<Move> = Vec::new();
        let n = self.pending_moves.len();
        let mut i: usize = 0;
        while i < n
            invariant
                i <= n,
                n == self.pending_moves.len(),
                self.wf(),
                self.winner == old(self).winner,
                self.locked_players == old(self).locked_players,
                self.round == old(self).round,
                self.pending_moves == old(self).pending_moves,
                self.goals == old(self).goals,
                self.player_count == old(self).player_count,
                self.use_column_rule == old(self).use_column_rule,
                pending0 == old(self)@.pending,
                b0 == old(self)@.board,
                ({
                    let st = resolve_upto(pending0, i as int);
                    &&& (forall|p: (Coord, Coord)| seen_pairs@.contains(p) <==> st.pairs.contains(p))
                    &&& (forall|c: Coord| seen_from@.contains(c) <==> st.seen_from.contains(c))
                    &&& (forall|c: Coord| seen_to@.contains(c) <==> st.seen_to.contains(c))
                    &&& locked_moves@ == st.locked
                    &&& conflict_moves@ == st.conflicts
                    &&& self@.board == mark_conflicts_all(b0, st.marks)
                }),
            decreases n - i,
        {
            let ghost st_pre = resolve_upto(pending0, i as int);
            let m = self.pending_moves[i];
            proof {
                assert(resolve_upto(pending0, i as int + 1) == resolve_step(st_pre, m));
                assert(self@.pending[i as int] == pending0[i as int]);
                assert(valid_move(self@.board, self@.pending[i as int]));
                assert(valid_move(self@.board, m));
            }
            if contains_pair(&seen_pairs, m.from, m.to) {
                proof {
                    assert(st_pre.pairs.contains((m.from, m.to)));
                    assert(resolve_step(st_pre, m) == st_pre);
                }
            } else {
                proof {
                    assert(!st_pre.pairs.contains((m.from, m.to)));
                }
                let ghost pairs_pre = seen_pairs@;
                let ghost from_pre = seen_from@;
                let ghost to_pre = seen_to@;
                seen_pairs.push((m.from, m.to));
                let mut conflict = false;
                if contains_coord(&seen_from, m.from) {
                    self.board.mark_conflict(m.from);
                    conflict = true;
                    proof {
                        assert(st_pre.marks.push(m.from).drop_last() =~= st_pre.marks);
                        assert(self@.board == mark_conflicts_all(b0, st_pre.marks.push(m.from)));
                    }
                } else {
                    seen_from.push(m.from);
                }
                let ghost marks_mid = if st_pre.seen_from.contains(m.from) {
                    st_pre.marks.push(m.from)
                } else {
                    st_pre.marks
                };
                if contains_coord(&seen_to, m.to) {
                    self.board.mark_conflict(m.to);
                    conflict = true;
                    proof {
                        assert(marks_mid.push(m.to).drop_last() =~= marks_mid);
                        assert(self@.board == mark_conflicts_all(b0, marks_mid.push(m.to)));
                    }
                } else {
                    seen_to.push(m.to);
                }
                let ghost st_post = resolve_step(st_pre, m);
                proof {
                    assert(self@.board == mark_conflicts_all(b0, st_post.marks));
                }
                if conflict {
                    conflict_moves.push(m);
                    let mut kept: Vec<Move> = Vec::new();
                    let mut t: usize = 0;
                    while t < locked_moves.len()
                        invariant
                            t <= locked_moves.len(),
                            locked_moves@ == st_pre.locked,
                            kept@ == keep_unshared(st_pre.locked.take(t as int), m),
                            conflict_moves@ == st_pre.conflicts.push(m)
                                + pull_conflicts(st_pre.locked.take(t as int), m),
                        decreases locked_moves.len() - t,
                    {
                        let p = locked_moves[t];
                        proof {
                            assert(st_pre.locked.take(t as int + 1).drop_last() =~= st_pre.locked.take(t as int));
                            assert(st_pre.locked.take(t as int + 1).last() == st_pre.locked[t as int]);
                        }
                        if p.from == m.from || p.to == m.to {
                            conflict_moves.push(p);
                            proof {
                                assert(conflict_moves@ =~= st_pre.conflicts.push(m)
                                    + pull_conflicts(st_pre.locked.take(t as int + 1), m));
                            }
                        } else {
                            kept.push(p);
                        }
                        t = t + 1;
                    }
                    proof {
                        assert(st_pre.locked.take(locked_moves@.len() as int) =~= st_pre.locked);
                    }
                    locked_moves = kept;
                } else {
                    locked_moves.push(m);
                }
                proof {
                    assert(seen_pairs@ == pairs_pre.push((m.from, m.to)));
                    assert forall|p: (Coord, Coord)| seen_pairs@.contains(p)
                        <==> st_post.pairs.contains(p) by {
                        if p != (m.from, m.to) {
                            if seen_pairs@.contains(p) {
                                let w = choose|w: int| 0 <= w < seen_pairs@.len() && seen_pairs@[w] == p;
                                assert(pairs_pre[w] == p);
                                assert(pairs_pre.contains(p));
                            }
                            if pairs_pre.contains(p) {
                                let w = choose|w: int| 0 <= w < pairs_pre.len() && pairs_pre[w] == p;
                                assert(seen_pairs@[w] == p);
                            }
                        } else {
                            assert(seen_pairs@[seen_pairs@.len() - 1] == p);
                        }
                    }
                    assert forall|c: Coord| seen_from@.contains(c)
                        <==> st_post.seen_from.contains(c) by {
                        if st_pre.seen_from.contains(m.from) {
                            assert(seen_from@ == from_pre);
                        } else {
                            assert(seen_from@ == from_pre.push(m.from));
                            if c != m.from {
                                if seen_from@.contains(c) {
                                    let w = choose|w: int| 0 <= w < seen_from@.len() && seen_from@[w] == c;
                                    assert(from_pre[w] == c);
                                    assert(from_pre.contains(c));
                                }
                                if from_pre.contains(c) {
                                    let w = choose|w: int| 0 <= w < from_pre.len() && from_pre[w] == c;
                                    assert(seen_from@[w] == c);
                                }
                            } else {
                                assert(seen_from@[seen_from@.len() - 1] == c);
                            }
                        }
                    }
                    assert forall|c: Coord| seen_to@.contains(c)
                        <==> st_post.seen_to.contains(c) by {
                        if st_pre.seen_to.contains(m.to) {
                            assert(seen_to@ == to_pre);
                        } else {
                            assert(seen_to@ == to_pre.push(m.to));
                            if c != m.to {
                                if seen_to@.contains(c) {
                                    let w = choose|w: int| 0 <= w < seen_to@.len() && seen_to@[w] == c;
                                    assert(to_pre[w] == c);
                                    assert(to_pre.contains(c));
                                }
                                if to_pre.contains(c) {
                                    let w = choose|w: int| 0 <= w < to_pre.len() && to_pre[w] == c;
                                    assert(seen_to@[w] == c);
                                }
                            } else {
                                assert(seen_to@[seen_to@.len() - 1] == c);
                            }
                        }
                    }
                }
            }
            i = i + 1;
        }
        proof {
            assert(resolve_upto(pending0, n as int) == spec_resolve(pending0));
            assert(final(self)@ =~= (GameModel {
                board: mark_conflicts_all(old(self)@.board, spec_resolve(old(self)@.pending).marks),
                ..old(self)@
            }));
        }
        if conflict_moves.len() == 0 {
            Ok(locked_moves)
        } else {
            Err(conflict_moves)
        }
    }

    /// The cell the automaton would step to right now, computed from the four
    /// axial raycasts; its own cell when no axis wins.
    pub fn automaton_move(&self) -> (r: Coord)
        requires
            self.wf(),
        ensures
            coord_key(r) == spec_automaton_target(self@.board, self@.use_column_rule),
    {
        let loc = self.board.automaton_location();
        let xp = self.board.raycast(loc, Delta::xp());
        let xn = self.board.raycast(loc, Delta::xn());
        let yp = self.board.raycast(loc, Delta::yp());
        let yn = self.board.raycast(loc, Delta::yn());
        let xd = evaluate_axis(&xp, &xn);
        let yd = evaluate_axis(&yp, &yn);
        proof {
            lemma_target_props(self@.board, self@.use_column_rule);
        }
        if decision_gt(&xd, &yd) {
            loc.plus(xd.delta(Delta::xp()))
        } else if !self.use_column_rule && decision_eq(&xd, &yd) {
            loc
        } else {
            loc.plus(yd.delta(Delta::yp()))
        }
    }

    /// Let the automaton take its step: one cell along the winning axis, or
    /// none. The stepped-onto cell's particle (if any) trades places with the
    /// automaton.
    pub fn update_automaton(&mut self)
        requires
            old(self).wf(),
        ensures
            final(self).wf(),
            ({
                let t = spec_automaton_target(old(self)@.board, old(self)@.use_column_rule);
                let moved = if t == old(self)@.board.auto {
                    old(self)@.board
                } else {
                    swap_model(old(self)@.board, old(self)@.board.auto, t)
                };
                final(self)@ == (GameModel { board: moved, ..old(self)@ })
            }),
    {
        let new_location = self.automaton_move();
        let loc = self.board.automaton_location();
        if !(new_location == loc) {
            proof {
                lemma_target_props(self@.board, self@.use_column_rule);
                assert(span(coord_key(loc), coord_key(new_location)) == 1);
                assert(first_blocker(self@.board, coord_key(loc), coord_key(new_location), 1)
                    == None::<(int, int)>);
            }
            let moved = self.board.do_move(loc, new_location);
            proof {
                // the automaton's own one-cell step can never be blocked
                assert(moved == MoveResult::Applied);
                assert(final(self)@ =~= (GameModel {
                    board: swap_model(old(self)@.board, old(self)@.board.auto,
                        spec_automaton_target(old(self)@.board, old(self)@.use_column_rule)),
                    ..old(self)@
                }));
            }
        }
    }

    /// Complete the round. If resolution found no conflict, apply the locked
    /// moves in passes, let the automaton take its step, check the goals and
    /// either end the game or reset for a fresh round; the per-move results
    /// are returned. Otherwise enter conflict resolution: the conflicting
    /// moves leave the queue and their authors are locked out.
    pub fn try_complete_round(&mut self) -> (r: Result<Vec<(Move, MoveResult)>, ()>)
        requires
            old(self).wf(),
            old(self).pending_avoids_automaton(),
            old(self)@.round != RoundState::GameOver,
            old(self)@.pending.len() == old(self)@.player_count,
        ensures
            final(self).wf(),
            final(self).pending_avoids_automaton(),
            ({
                let st = spec_resolve(old(self)@.pending);
                &&& (r is Ok <==> st.conflicts.len() == 0)
                &&& (r matches Ok(v) ==> final(self)@ == complete_ok_model(old(self)@).0
                        && v@ == complete_ok_model(old(self)@).1)
                &&& (r is Err ==> final(self)@ == complete_err_model(old(self)@))
            }),
    {
        let ghost g0 = self@;
        let ghost st = spec_resolve(g0.pending);
        proof {
            lemma_resolve_provenance(g0.pending, g0.pending.len() as int);
        }
        match self.resolve_conflicts() {
            Ok(locked) => {
                proof {
                    assert(st.marks.len() == 0);
                    assert(self@.board == g0.board);
                    assert(self@ =~= g0);
                }
                let mut i: usize = 0;
                let n = locked.len();
                while i < n
                    invariant
                        i <= n,
                        n == locked@.len(),
                        locked@ == st.locked,
                        self@.winner == g0.winner,
                        self@.locked == g0.locked,
                        self@.round == g0.round,
                        self@.pending == g0.pending,
                        self@.goals == g0.goals,
                        self@.player_count == g0.player_count,
                        self@.use_column_rule == g0.use_column_rule,
                        g0 == old(self)@,
                        st == spec_resolve(g0.pending),
                        forall|j: int| 0 <= j < st.locked.len() ==> g0.pending.contains(#[trigger] st.locked[j]),
                        forall|j: int| 0 <= j < g0.pending.len() ==> valid_move(g0.board, #[trigger] g0.pending[j]),
                        forall|j: int| 0 <= j < g0.pending.len()
                            ==> coord_key((#[trigger] g0.pending[j]).from) != g0.board.auto
                                && coord_key(g0.pending[j].to) != g0.board.auto,
                        self.board.wf(),
                        self.board@.size == g0.board.size,
                        self.board@.auto == g0.board.auto,
                        self.board@ == mark_passables_all(g0.board, st.locked.take(i as int)),
                    decreases n - i,
                {
                    let m = locked[i];
                    proof {
                        assert(st.locked[i as int] == m);
                        assert(g0.pending.contains(m));
                        let w = choose|w: int| 0 <= w < g0.pending.len() && #[trigger] g0.pending[w] == m;
                        assert(valid_move(g0.board, m));
                        assert(self.board@.inb(coord_key(m.from)));
                        assert(st.locked.take(i as int + 1).drop_last() =~= st.locked.take(i as int));
                        assert(st.locked.take(i as int + 1).last() == m);
                    }
                    self.board.mark_passable(m.from);
                    i = i + 1;
                }
                proof {
                    assert(st.locked.take(n as int) =~= st.locked);
                }
                let ghost b_marked = mark_passables_all(g0.board, st.locked);
                let mut remaining: Vec<Move> = locked;
                let mut results: Vec<(Move, MoveResult)> = Vec::new();
                proof {
                    assert(apply_all(b_marked, st.locked).1 =~= results@ + apply_all(self.board@, remaining@).1);
                }
                while remaining.len() > 0
                    invariant
                        self@.winner == g0.winner,
                        self@.locked == g0.locked,
                        self@.round == g0.round,
                        self@.pending == g0.pending,
                        self@.goals == g0.goals,
                        self@.player_count == g0.player_count,
                        self@.use_column_rule == g0.use_column_rule,
                        g0 == old(self)@,
                        st == spec_resolve(g0.pending),
                        self.board.wf(),
                        self.board@.size == g0.board.size,
                        self.board@.auto == g0.board.auto,
                        forall|j: int| 0 <= j < remaining@.len() ==> valid_move(g0.board, #[trigger] remaining@[j])
                            && coord_key(remaining@[j].from) != g0.board.auto
                            && coord_key(remaining@[j].to) != g0.board.auto,
                        apply_all(b_marked, st.locked).0 == apply_all(self.board@, remaining@).0,
                        apply_all(b_marked, st.locked).1 == results@ + apply_all(self.board@, remaining@).1,
                    decreases remaining@.len(),
                {
                    let ghost b_pass = self.board@;
                    let ghost rem0 = remaining@;
                    let ghost results0 = results@;
                    let mut next: Vec<Move> = Vec::new();
                    let mut progressed = false;
                    let mut t: usize = 0;
                    while t < remaining.len()
                        invariant
                            t <= remaining.len(),
                            remaining@ == rem0,
                            rem0.len() > 0,
                            g0 == old(self)@,
                            self@.winner == g0.winner,
                            self@.locked == g0.locked,
                            self@.round == g0.round,
                            self@.pending == g0.pending,
                            self@.goals == g0.goals,
                            self@.player_count == g0.player_count,
                            self@.use_column_rule == g0.use_column_rule,
                            self.board.wf(),
                            self.board@.size == g0.board.size,
                            self.board@.auto == g0.board.auto,
                            b_pass.size == g0.board.size,
                            b_pass.auto == g0.board.auto,
                            forall|j: int| 0 <= j < rem0.len() ==> valid_move(g0.board, #[trigger] rem0[j])
                                && coord_key(rem0[j].from) != g0.board.auto
                                && coord_key(rem0[j].to) != g0.board.auto,
                            ({
                                let pass = one_pass_upto(b_pass, rem0, t as int);
                                &&& self.board@ == pass.0
                                &&& next@ == pass.2
                                &&& results@ == results0 + pass.1
                                &&& progressed == (pass.1.len() > 0)
                                &&& pass.1.len() + pass.2.len() == t as int
                            }),
                        decreases remaining@.len() - t,
                    {
                        let m = remaining[t];
                        proof {
                            assert(rem0[t as int] == m);
                            assert(valid_move(g0.board, m));
                            assert(self.board@.inb(coord_key(m.from)));
                            assert(self.board@.inb(coord_key(m.to)));
                            assert(one_pass_upto(b_pass, rem0, t as int + 1)
                                == ({
                                    let prev = one_pass_upto(b_pass, rem0, t as int);
                                    let mm = rem0[t as int];
                                    if prev.0.cell(coord_key(mm.from)).what == Particle::Vacuum {
                                        (prev.0, prev.1, prev.2.push(mm))
                                    } else {
                                        let stepped = do_move_model(prev.0, coord_key(mm.from), coord_key(mm.to));
                                        (stepped.0, prev.1.push((mm, stepped.1)), prev.2)
                                    }
                                }));
                        }
                        if self.board.is_vacuum(m.from) {
                            next.push(m);
                        } else {
                            let res = self.board.do_move(m.from, m.to);
                            results.push((m, res));
                            progressed = true;
                            proof {
                                assert(results@ =~= results0
                                    + one_pass_upto(b_pass, rem0, t as int + 1).1);
                            }
                        }
                        t = t + 1;
                    }
                    let ghost pass = one_pass_upto(b_pass, rem0, rem0.len() as int);
                    proof {
                        assert(self.board@ == pass.0);
                        assert(next@ == pass.2);
                        assert(results@ == results0 + pass.1);
                        assert(pass.1.len() + pass.2.len() == rem0.len());
                        assert(apply_all(b_pass, rem0)
                            == if pass.2.len() < rem0.len() {
                                let rest = apply_all(pass.0, pass.2);
                                (rest.0, pass.1 + rest.1)
                            } else {
                                (pass.0, pass.1 + no_source_results(pass.2))
                            });
                    }
                    if !progressed {
                        proof {
                            assert(pass.1.len() == 0);
                            assert(pass.2.len() == rem0.len());
                        }
                        let ghost results1 = results@;
                        let mut u: usize = 0;
                        while u < next.len()
                            invariant
                                u <= next.len(),
                                next@ == pass.2,
                                results@ == results1 + no_source_results(next@.take(u as int)),
                            decreases next.len() - u,
                        {
                            let m2 = next[u];
                            proof {
                                assert(next@.take(u as int + 1).drop_last() =~= next@.take(u as int));
                                assert(next@.take(u as int + 1).last() == m2);
                            }
                            results.push((m2, MoveResult::NoSource));
                            proof {
                                assert(results@ =~= results1 + no_source_results(next@.take(u as int + 1)));
                            }
                            u = u + 1;
                        }
                        proof {
                            assert(next@.take(next@.len() as int) =~= next@);
                        }
                        remaining = Vec::new();
                        proof {
                            assert(apply_all(self.board@, remaining@).1 =~= Seq::<(Move, MoveResult)>::empty());
                            assert(results@ =~= results0 + pass.1 + no_source_results(pass.2));
                            assert(results0 + (pass.1 + no_source_results(pass.2))
                                =~= results0 + pass.1 + no_source_results(pass.2));
                            assert(apply_all(b_marked, st.locked).1 =~= results@ + apply_all(self.board@, remaining@).1);
                        }
                    } else {
                        remaining = next;
                        proof {
                            assert(pass.1.len() > 0);
                            assert(pass.2.len() < rem0.len());
                            assert(results0 + (pass.1 + apply_all(pass.0, pass.2).1)
                                =~= results0 + pass.1 + apply_all(pass.0, pass.2).1);
                            assert forall|j: int| 0 <= j < remaining@.len()
                                implies valid_move(g0.board, #[trigger] remaining@[j])
                                    && coord_key(remaining@[j].from) != g0.board.auto
                                    && coord_key(remaining@[j].to) != g0.board.auto by {
                                lemma_one_pass_rem_sub(b_pass, rem0, rem0.len() as int);
                                assert(rem0.contains(remaining@[j]));
                                let w = choose|w: int| 0 <= w < rem0.len() && #[trigger] rem0[w] == remaining@[j];
                            }
                        }
                    }
                }
                proof {
                    assert(apply_all(self.board@, remaining@).1 =~= Seq::<(Move, MoveResult)>::empty());
                    assert(apply_all(b_marked, st.locked).0 == self.board@);
                    assert(apply_all(b_marked, st.locked).1 =~= results@);
                    assert forall|j: int| 0 <= j < self@.pending.len()
                        implies valid_move(self@.board, #[trigger] self@.pending[j]) by {
                        assert(valid_move(g0.board, g0.pending[j]));
                    }
                    assert(self.wf());
                }
                let ghost b_applied = self.board@;
                self.update_automaton();
                let ghost b_moved = self@.board;
                let auto_loc = self.board.automaton_location();
                let mut won: Option<Pid> = None;
                let mut gi: usize = 0;
                let gn = self.goals.len();
                while gi < gn
                    invariant
                        gi <= gn,
                        gn == self.goals@.len(),
                        self@.goals == g0.goals,
                        g0 == old(self)@,
                        coord_key(auto_loc) == self@.board.auto,
                        match won {
                            Option::None => first_goal(g0.goals, self@.board.auto, 0)
                                == first_goal(g0.goals, self@.board.auto, gi as int),
                            Option::Some(p) => first_goal(g0.goals, self@.board.auto, 0) == Some(p),
                        },
                        self@.winner == g0.winner,
                        self@.locked == g0.locked,
                        self@.round == g0.round,
                        self@.pending == g0.pending,
                        self@.player_count == g0.player_count,
                        self@.use_column_rule == g0.use_column_rule,
                        self.board.wf(),
                        self@.board == b_moved,
                    decreases gn - gi,
                {
                    let goal = self.goals[gi];
                    let already = won.is_some();
                    if !already && goal.0 == auto_loc {
                        won = Some(goal.1);
                        proof {
                            assert(g0.goals[gi as int] == goal);
                            assert(first_goal(g0.goals, self@.board.auto, gi as int) == Some(goal.1));
                        }
                    } else {
                        proof {
                            if won is None {
                                assert(g0.goals[gi as int] == goal);
                                assert(coord_key(goal.0) != self@.board.auto);
                            }
                        }
                    }
                    gi = gi + 1;
                }
                match won {
                    Some(p) => {
                        self.winner = Some(p);
                        self.round = RoundState::GameOver;
                        self.pending_moves = Vec::new();
                        self.locked_players = Vec::new();
                    },
                    None => {
                        self.board.clear_marks();
                        self.round = RoundState::Fresh;
                        self.pending_moves = Vec::new();
                        self.locked_players = Vec::new();
                    },
                }
                proof {
                    assert(final(self)@.pending =~= Seq::<Move>::empty());
                    assert(final(self)@.locked =~= Seq::<Pid>::empty());
                    assert(final(self)@ =~= complete_ok_model(g0).0);
                    assert(results@ == complete_ok_model(g0).1);
                }
                Ok(results)
            },
            Err(conflicts) => {
                self.round = RoundState::ResolvingConflict;
                let mut kept: Vec<Move> = Vec::new();
                let n = self.pending_moves.len();
                let mut i: usize = 0;
                while i < n
                    invariant
                        i <= n,
                        n == self.pending_moves@.len(),
                        self.pending_moves@ == g0.pending,
                        conflicts@ == st.conflicts,
                        st == spec_resolve(g0.pending),
                        g0 == old(self)@,
                        kept@ == drop_conflicted(g0.pending.take(i as int), st.conflicts),
                        self.board.wf(),
                        self@.board == mark_conflicts_all(g0.board, st.marks),
                        self@.round == RoundState::ResolvingConflict,
                        self@.winner == g0.winner,
                        self@.locked == g0.locked,
                        self@.goals == g0.goals,
                        self@.player_count == g0.player_count,
                        self@.use_column_rule == g0.use_column_rule,
                    decreases n - i,
                {
                    let m = self.pending_moves[i];
                    proof {
                        assert(g0.pending.take(i as int + 1).drop_last() =~= g0.pending.take(i as int));
                        assert(g0.pending.take(i as int + 1).last() == m);
                    }
                    if !contains_move(&conflicts, m) {
                        kept.push(m);
                    }
                    i = i + 1;
                }
                proof {
                    assert(g0.pending.take(n as int) =~= g0.pending);
                }
                self.pending_moves = kept;
                let mut t: usize = 0;
                let cn = conflicts.len();
                while t < cn
                    invariant
                        t <= cn,
                        cn == conflicts@.len(),
                        conflicts@ == st.conflicts,
                        st == spec_resolve(g0.pending),
                        g0 == old(self)@,
                        self.locked_players@ == lock_all(g0.locked, st.conflicts.take(t as int)),
                        self.board.wf(),
                        self@.board == mark_conflicts_all(g0.board, st.marks),
                        self@.round == RoundState::ResolvingConflict,
                        self@.winner == g0.winner,
                        self@.goals == g0.goals,
                        self@.pending == drop_conflicted(g0.pending, st.conflicts),
                        self@.player_count == g0.player_count,
                        self@.use_column_rule == g0.use_column_rule,
                    decreases cn - t,
                {
                    let m = conflicts[t];
                    proof {
                        assert(st.conflicts.take(t as int + 1).drop_last() =~= st.conflicts.take(t as int));
                        assert(st.conflicts.take(t as int + 1).last() == m);
                    }
                    if !contains_pid(&self.locked_players, m.who) {
                        self.locked_players.push(m.who);
                    }
                    t = t + 1;
                }
                proof {
                    assert(st.conflicts.take(cn as int) =~= st.conflicts);
                    lemma_drop_conflicted_sub(g0.pending, st.conflicts);
                    lemma_mark_conflicts_shape(g0.board, st.marks);
                    assert(final(self)@.pending == drop_conflicted(g0.pending, st.conflicts));
                    assert forall|j: int| 0 <= j < final(self)@.pending.len()
                        implies valid_move(final(self)@.board, #[trigger] final(self)@.pending[j])
                            && coord_key(final(self)@.pending[j].from) != final(self)@.board.auto
                            && coord_key(final(self)@.pending[j].to) != final(self)@.board.auto by {
                        assert(drop_conflicted(g0.pending, st.conflicts)[j] == final(self)@.pending[j]);
                        assert(g0.pending.contains(final(self)@.pending[j]));
                        let w = choose|w: int| 0 <= w < g0.pending.len()
                            && #[trigger] g0.pending[w] == final(self)@.pending[j];
                        assert(valid_move(g0.board, g0.pending[w]));
                    }
                    assert(final(self)@ =~= complete_err_model(g0));
                }
                Err(())
            },
        }
    }
}


/// Whether `p` shares its source or destination with `m`.
pub open spec fn shares_endpoint(m: Move, p: Move) -> bool {
    p.from == m.from || p.to == m.to
}

/// The locked moves that survive when `m` turns out to conflict: those
/// sharing no endpoint with it, in their original order.
pub open spec fn keep_unshared(locked: Seq<Move>, m: Move) -> Seq<Move>
    decreases locked.len(),
{
    if locked.len() == 0 {
        Seq::empty()
    } else {
        let rest = keep_unshared(locked.drop_last(), m);
        if shares_endpoint(m, locked.last()) {
            rest
        } else {
            rest.push(locked.last())
        }
    }
}

/// The locked moves pulled into the conflict when `m` conflicts: those
/// sharing an endpoint with it, in their original order.
pub open spec fn pull_conflicts(locked: Seq<Move>, m: Move) -> Seq<Move>
    decreases locked.len(),
{
    if locked.len() == 0 {
        Seq::empty()
    } else {
        let rest = pull_conflicts(locked.drop_last(), m);
        if shares_endpoint(m, locked.last()) {
            rest.push(locked.last())
        } else {
            rest
        }
    }
}

/// The proposals that are not in the conflict list, in their original order.
pub open spec fn drop_conflicted(pending: Seq<Move>, conflicts: Seq<Move>) -> Seq<Move>
    decreases pending.len(),
{
    if pending.len() == 0 {
        Seq::empty()
    } else {
        let rest = drop_conflicted(pending.drop_last(), conflicts);
        if conflicts.contains(pending.last()) {
            rest
        } else {
            rest.push(pending.last())
        }
    }
}

/// State of conflict resolution after some prefix of the proposals.
#[verifier::ext_equal]
pub struct ResolveModel {
    /// (from, to) pairs already accepted once; an exact duplicate is skipped.
    pub pairs: Set<(Coord, Coord)>,
    /// Sources claimed by an accepted proposal so far.
    pub seen_from: Set<Coord>,
    /// Destinations claimed by an accepted proposal so far.
    pub seen_to: Set<Coord>,
    /// Moves tentatively locked in, in submission order.
    pub locked: Seq<Move>,
    /// Moves found conflicting, in discovery order.
    pub conflicts: Seq<Move>,
    /// Coordinates marked conflicted on the board, in marking order.
    pub marks: Seq<Coord>,
}

/// Resolution before any proposal is considered.
pub open spec fn resolve_init() -> ResolveModel {
    ResolveModel {
        pairs: Set::empty(),
        seen_from: Set::empty(),
        seen_to: Set::empty(),
        locked: Seq::empty(),
        conflicts: Seq::empty(),
        marks: Seq::empty(),
    }
}

/// One proposal considered: an exact duplicate pair is skipped; a move whose
/// source or destination was already claimed becomes a conflict, its clashing
/// coordinates are marked, and every locked move sharing an endpoint with it
/// is pulled into the conflict; otherwise the move is locked.
pub open spec fn resolve_step(st: ResolveModel, m: Move) -> ResolveModel {
    if st.pairs.contains((m.from, m.to)) {
        st
    } else {
        let from_conf = st.seen_from.contains(m.from);
        let to_conf = st.seen_to.contains(m.to);
        let marks2 = if from_conf && to_conf {
            st.marks.push(m.from).push(m.to)
        } else if from_conf {
            st.marks.push(m.from)
        } else if to_conf {
            st.marks.push(m.to)
        } else {
            st.marks
        };
        ResolveModel {
            pairs: st.pairs.insert((m.from, m.to)),
            seen_from: if from_conf { st.seen_from } else { st.seen_from.insert(m.from) },
            seen_to: if to_conf { st.seen_to } else { st.seen_to.insert(m.to) },
            locked: if from_conf || to_conf { keep_unshared(st.locked, m) } else { st.locked.push(m) },
            conflicts: if from_conf || to_conf {
                st.conflicts.push(m) + pull_conflicts(st.locked, m)
            } else {
                st.conflicts
            },
            marks: marks2,
        }
    }
}

/// Resolution of the first `n` proposals.
pub open spec fn resolve_upto(ms: Seq<Move>, n: int) -> ResolveModel
    decreases n,
{
    if n <= 0 {
        resolve_init()
    } else {
        resolve_step(resolve_upto(ms, n - 1), ms[n - 1])
    }
}

/// Resolution of a whole batch of proposals.
pub open spec fn spec_resolve(ms: Seq<Move>) -> ResolveModel {
    resolve_upto(ms, ms.len() as int)
}

/// The board after a run of conflict marks.
pub open spec fn mark_conflicts_all(b: BoardModel, ms: Seq<Coord>) -> BoardModel
    decreases ms.len(),
{
    if ms.len() == 0 {
        b
    } else {
        mark_conflict_model(mark_conflicts_all(b, ms.drop_last()), coord_key(ms.last()))
    }
}

/// The board after the source of each listed move is marked passable.
pub open spec fn mark_passables_all(b: BoardModel, ms: Seq<Move>) -> BoardModel
    decreases ms.len(),
{
    if ms.len() == 0 {
        b
    } else {
        mark_passable_model(mark_passables_all(b, ms.drop_last()), coord_key(ms.last().from))
    }
}

/// Everything in a resolution comes from the proposals: locked and
/// conflicting moves are proposals, every mark is an endpoint of a proposal,
/// and without conflicts nothing is marked.
pub proof fn lemma_resolve_provenance(ms: Seq<Move>, n: int)
    requires
        0 <= n <= ms.len(),
    ensures
        ({
            let st = resolve_upto(ms, n);
            &&& (forall|i: int| 0 <= i < st.locked.len() ==> ms.contains(#[trigger] st.locked[i]))
            &&& (forall|i: int| 0 <= i < st.conflicts.len() ==> ms.contains(#[trigger] st.conflicts[i]))
            &&& (forall|i: int| 0 <= i < st.marks.len() ==> exists|j: int| 0 <= j < ms.len()
                    && ((#[trigger] st.marks[i]) == (#[trigger] ms[j]).from || st.marks[i] == ms[j].to))
            &&& (st.conflicts.len() == 0 ==> st.marks.len() == 0 && st.locked.len() <= n)
            &&& st.locked.len() <= n
        }),
    decreases n,
{
    if n > 0 {
        lemma_resolve_provenance(ms, n - 1);
        let st0 = resolve_upto(ms, n - 1);
        let m = ms[n - 1];
        let st = resolve_step(st0, m);
        assert(ms.contains(m)) by {
            assert(ms[n - 1] == m);
        }
        lemma_keep_pull_sub(st0.locked, m);
        assert forall|i: int| 0 <= i < st.locked.len() implies ms.contains(#[trigger] st.locked[i]) by {
            if !st0.pairs.contains((m.from, m.to)) {
                let from_conf = st0.seen_from.contains(m.from);
                let to_conf = st0.seen_to.contains(m.to);
                if from_conf || to_conf {
                    assert(st0.locked.contains(st.locked[i]));
                    let w = choose|w: int| 0 <= w < st0.locked.len() && #[trigger] st0.locked[w] == st.locked[i];
                    assert(ms.contains(st0.locked[w]));
                } else {
                    if i < st0.locked.len() {
                        assert(st.locked[i] == st0.locked[i]);
                    } else {
                        assert(st.locked[i] == m);
                    }
                }
            }
        }
        assert forall|i: int| 0 <= i < st.conflicts.len() implies ms.contains(#[trigger] st.conflicts[i]) by {
            if i < st0.conflicts.len() {
                assert(st.conflicts[i] == st0.conflicts[i]);
            } else if !st0.pairs.contains((m.from, m.to)) {
                let from_conf = st0.seen_from.contains(m.from);
                let to_conf = st0.seen_to.contains(m.to);
                if from_conf || to_conf {
                    let tail = pull_conflicts(st0.locked, m);
                    if i == st0.conflicts.len() {
                        assert(st.conflicts[i] == m);
                    } else {
                        assert(st.conflicts[i] == tail[i - st0.conflicts.len() - 1]);
                        assert(st0.locked.contains(st.conflicts[i]));
                        let w = choose|w: int| 0 <= w < st0.locked.len() && #[trigger] st0.locked[w] == st.conflicts[i];
                        assert(ms.contains(st0.locked[w]));
                    }
                }
            }
        }
        assert forall|i: int| 0 <= i < st.marks.len() implies exists|j: int| 0 <= j < ms.len()
            && ((#[trigger] st.marks[i]) == (#[trigger] ms[j]).from || st.marks[i] == ms[j].to) by {
            if i < st0.marks.len() {
                assert(st.marks[i] == st0.marks[i]);
            } else {
                assert(st.marks[i] == m.from || st.marks[i] == m.to);
                assert(0 <= n - 1 < ms.len() && (st.marks[i] == ms[n - 1].from || st.marks[i] == ms[n - 1].to));
            }
        }
        if st.conflicts.len() == 0 {
            assert(st0.conflicts.len() == 0);
        }
    }
}

/// What survives and what is pulled in are both taken from the locked list.
proof fn lemma_keep_pull_sub(locked: Seq<Move>, m: Move)
    ensures
        keep_unshared(locked, m).len() <= locked.len(),
        pull_conflicts(locked, m).len() <= locked.len(),
        forall|i: int| 0 <= i < keep_unshared(locked, m).len()
            ==> locked.contains(#[trigger] keep_unshared(locked, m)[i]),
        forall|i: int| 0 <= i < pull_conflicts(locked, m).len()
            ==> locked.contains(#[trigger] pull_conflicts(locked, m)[i]),
    decreases locked.len(),
{
    if locked.len() > 0 {
        lemma_keep_pull_sub(locked.drop_last(), m);
        let rest = locked.drop_last();
        assert forall|i: int| 0 <= i < keep_unshared(locked, m).len()
            implies locked.contains(#[trigger] keep_unshared(locked, m)[i]) by {
            let kept = keep_unshared(locked, m);
            if !shares_endpoint(m, locked.last()) && i == kept.len() - 1 {
                assert(locked[locked.len() - 1] == kept[i]);
            } else {
                assert(kept[i] == keep_unshared(rest, m)[i]);
                assert(rest.contains(kept[i]));
                let w = choose|w: int| 0 <= w < rest.len() && #[trigger] rest[w] == kept[i];
                assert(locked[w] == kept[i]);
            }
        }
        assert forall|i: int| 0 <= i < pull_conflicts(locked, m).len()
            implies locked.contains(#[trigger] pull_conflicts(locked, m)[i]) by {
            let pulled = pull_conflicts(locked, m);
            if shares_endpoint(m, locked.last()) && i == pulled.len() - 1 {
                assert(locked[locked.len() - 1] == pulled[i]);
            } else {
                assert(pulled[i] == pull_conflicts(rest, m)[i]);
                assert(rest.contains(pulled[i]));
                let w = choose|w: int| 0 <= w < rest.len() && #[trigger] rest[w] == pulled[i];
                assert(locked[w] == pulled[i]);
            }
        }
    }

}


/// One application pass over the first `n` still-pending moves: each whose
/// source currently holds a piece is applied (in order, on the evolving
/// board) and its result recorded; the others are left for a later pass.
pub open spec fn one_pass_upto(b: BoardModel, ms: Seq<Move>, n: int) -> (BoardModel, Seq<(Move, MoveResult)>, Seq<Move>)
    decreases n,
{
    if n <= 0 {
        (b, Seq::empty(), Seq::empty())
    } else {
        let prev = one_pass_upto(b, ms, n - 1);
        let m = ms[n - 1];
        if prev.0.cell(coord_key(m.from)).what == Particle::Vacuum {
            (prev.0, prev.1, prev.2.push(m))
        } else {
            let stepped = do_move_model(prev.0, coord_key(m.from), coord_key(m.to));
            (stepped.0, prev.1.push((m, stepped.1)), prev.2)
        }
    }
}

/// Each move recorded as having lost its source piece.
pub open spec fn no_source_results(ms: Seq<Move>) -> Seq<(Move, MoveResult)>
    decreases ms.len(),
{
    if ms.len() == 0 {
        Seq::empty()
    } else {
        no_source_results(ms.drop_last()).push((ms.last(), MoveResult::NoSource))
    }
}

/// Apply passes until every move is dealt with: a pass that applies nothing
/// while moves remain drains them all as `NoSource`. Yields the final board
/// and the per-move results.
pub open spec fn apply_all(b: BoardModel, ms: Seq<Move>) -> (BoardModel, Seq<(Move, MoveResult)>)
    decreases ms.len(),
{
    if ms.len() == 0 {
        (b, Seq::empty())
    } else {
        let pass = one_pass_upto(b, ms, ms.len() as int);
        if pass.2.len() < ms.len() {
            let rest = apply_all(pass.0, pass.2);
            (rest.0, pass.1 + rest.1)
        } else {
            (pass.0, pass.1 + no_source_results(pass.2))
        }
    }
}

/// The first goal the automaton sits on, scanning from index `n`.
pub open spec fn first_goal(goals: Seq<(Coord, Pid)>, auto: (int, int), n: int) -> Option<Pid>
    decreases goals.len() - n,
{
    if n < 0 || n >= goals.len() {
        None::<Pid>
    } else if coord_key(goals[n].0) == auto {
        Some(goals[n].1)
    } else {
        first_goal(goals, auto, n + 1)
    }
}

/// The locked players after each conflicting move's author is added once.
pub open spec fn lock_all(locked: Seq<Pid>, ms: Seq<Move>) -> Seq<Pid>
    decreases ms.len(),
{
    if ms.len() == 0 {
        locked
    } else {
        let l = lock_all(locked, ms.drop_last());
        if l.contains(ms.last().who) {
            l
        } else {
            l.push(ms.last().who)
        }
    }
}

/// A failed round completion: the round enters conflict resolution, the
/// conflicting moves leave the queue, their authors are locked, and the
/// clashing coordinates are marked on the board.
pub open spec fn complete_err_model(g: GameModel) -> GameModel {
    let st = spec_resolve(g.pending);
    GameModel {
        board: mark_conflicts_all(g.board, st.marks),
        round: RoundState::ResolvingConflict,
        pending: drop_conflicted(g.pending, st.conflicts),
        locked: lock_all(g.locked, st.conflicts),
        ..g
    }
}

/// A successful round completion: the sources of the locked moves become
/// passable, the moves are applied in passes, the automaton takes its step,
/// and the goals are checked. A win ends the game; otherwise the marks are
/// cleared, the queue and the locks are emptied and a fresh round begins.
pub open spec fn complete_ok_model(g: GameModel) -> (GameModel, Seq<(Move, MoveResult)>) {
    let st = spec_resolve(g.pending);
    let marked = mark_passables_all(g.board, st.locked);
    let applied = apply_all(marked, st.locked);
    let t = spec_automaton_target(applied.0, g.use_column_rule);
    let moved = if t == applied.0.auto {
        applied.0
    } else {
        swap_model(applied.0, applied.0.auto, t)
    };
    match first_goal(g.goals, moved.auto, 0) {
        Some(p) => (
            GameModel {
                winner: Some(p),
                round: RoundState::GameOver,
                board: moved,
                pending: Seq::empty(),
                locked: Seq::empty(),
                ..g
            },
            applied.1,
        ),
        None => (
            GameModel {
                round: RoundState::Fresh,
                board: clear_model(moved),
                pending: Seq::empty(),
                locked: Seq::empty(),
                ..g
            },
            applied.1,
        ),
    }
}


/// What survives the conflict filter comes from the original queue.
proof fn lemma_drop_conflicted_sub(pending: Seq<Move>, conflicts: Seq<Move>)
    ensures
        forall|i: int| 0 <= i < drop_conflicted(pending, conflicts).len()
            ==> pending.contains(#[trigger] drop_conflicted(pending, conflicts)[i]),
    decreases pending.len(),
{
    if pending.len() > 0 {
        lemma_drop_conflicted_sub(pending.drop_last(), conflicts);
        let rest = pending.drop_last();
        let out = drop_conflicted(pending, conflicts);
        assert forall|i: int| 0 <= i < out.len()
            implies pending.contains(#[trigger] out[i]) by {
            if !conflicts.contains(pending.last()) && i == out.len() - 1 {
                assert(pending[pending.len() - 1] == out[i]);
            } else {
                assert(out[i] == drop_conflicted(rest, conflicts)[i]);
                assert(rest.contains(out[i]));
                let w = choose|w: int| 0 <= w < rest.len() && #[trigger] rest[w] == out[i];
                assert(pending[w] == out[i]);
            }
        }
    }
}

/// Conflict marks change neither the board's shape nor the automaton's cell.
proof fn lemma_mark_conflicts_shape(b: BoardModel, ms: Seq<Coord>)
    ensures
        mark_conflicts_all(b, ms).size == b.size,
        mark_conflicts_all(b, ms).auto == b.auto,
    decreases ms.len(),
{
    if ms.len() > 0 {
        lemma_mark_conflicts_shape(b, ms.drop_last());
    }
}


/// The moves a pass leaves for later come from the pass's input.
proof fn lemma_one_pass_rem_sub(b: BoardModel, ms: Seq<Move>, n: int)
    requires
        0 <= n <= ms.len(),
    ensures
        forall|i: int| 0 <= i < one_pass_upto(b, ms, n).2.len()
            ==> ms.contains(#[trigger] one_pass_upto(b, ms, n).2[i]),
    decreases n,
{
    if n > 0 {
        lemma_one_pass_rem_sub(b, ms, n - 1);
        let prev = one_pass_upto(b, ms, n - 1);
        let cur = one_pass_upto(b, ms, n);
        assert forall|i: int| 0 <= i < cur.2.len()
            implies ms.contains(#[trigger] cur.2[i]) by {
            if i < prev.2.len() {
                assert(cur.2[i] == prev.2[i]);
            } else {
                assert(cur.2[i] == ms[n - 1]);
            }
        }
    }
}


/// A proposal whose exact (from, to) pair was already accepted changes
/// nothing at its turn, whoever submits it: resolution keeps one copy only,
/// and the duplicate causes no conflict.
pub proof fn lemma_duplicate_pair_skipped(ms: Seq<Move>, i: int, n: int)
    requires
        0 <= i < n - 1,
        n <= ms.len(),
        ms[n - 1].from == ms[i].from,
        ms[n - 1].to == ms[i].to,
    ensures
        resolve_upto(ms, n) == resolve_upto(ms, n - 1),
{
    lemma_resolve_pairs_collect(ms, i, n - 1);
}

/// After `n` proposals are resolved, every accepted (from, to) pair so far is
/// remembered.
pub proof fn lemma_resolve_pairs_collect(ms: Seq<Move>, i: int, n: int)
    requires
        0 <= i < n <= ms.len(),
    ensures
        resolve_upto(ms, n).pairs.contains((ms[i].from, ms[i].to)),
    decreases n,
{
    if i == n - 1 {
        let st0 = resolve_upto(ms, n - 1);
        if st0.pairs.contains((ms[i].from, ms[i].to)) {
        } else {
            assert(resolve_upto(ms, n).pairs == st0.pairs.insert((ms[i].from, ms[i].to)));
        }
    } else {
        lemma_resolve_pairs_collect(ms, i, n - 1);
        let st0 = resolve_upto(ms, n - 1);
        let m = ms[n - 1];
        if !st0.pairs.contains((m.from, m.to)) {
            assert(resolve_upto(ms, n).pairs == st0.pairs.insert((m.from, m.to)));
        }
    }
}

/// Two players submitting an identical (from, to) pair is harmless: one move
/// survives resolution, and it is not a conflict.
pub proof fn lemma_identical_pair_one_survives(m1: Move, m2: Move)
    requires
        m1.from == m2.from,
        m1.to == m2.to,
    ensures
        spec_resolve(seq![m1, m2]).locked =~= seq![m1],
        spec_resolve(seq![m1, m2]).conflicts.len() == 0,
{
    let ms = seq![m1, m2];
    reveal_with_fuel(resolve_upto, 4);
    let st1 = resolve_step(resolve_init(), m1);
    assert(st1.locked =~= seq![m1]);
    assert(st1.pairs.contains((m2.from, m2.to)));
    assert(resolve_upto(ms, 2) == resolve_step(st1, ms[1]));
    assert(spec_resolve(ms).locked =~= seq![m1]);
}

/// When a proposal conflicts, every locked move sharing its source or its
/// destination is pulled into the conflict with it, whatever else the state
/// holds.
pub proof fn lemma_conflict_pulls_shared(st: ResolveModel, m: Move, a: Move)
    requires
        !st.pairs.contains((m.from, m.to)),
        st.seen_from.contains(m.from) || st.seen_to.contains(m.to),
        st.locked.contains(a),
        shares_endpoint(m, a),
    ensures
        resolve_step(st, m).conflicts.contains(m),
        resolve_step(st, m).conflicts.contains(a),
        !resolve_step(st, m).locked.contains(a),
{
    let out = resolve_step(st, m);
    assert(out.conflicts == st.conflicts.push(m) + pull_conflicts(st.locked, m));
    assert(out.conflicts[st.conflicts.len() as int] == m);
    lemma_pull_keeps_shared(st.locked, m, a);
    let w = choose|w: int| 0 <= w < pull_conflicts(st.locked, m).len()
        && #[trigger] pull_conflicts(st.locked, m)[w] == a;
    assert(out.conflicts[st.conflicts.len() + 1 + w] == a);
    lemma_keep_drops_shared(st.locked, m, a);
}

/// A locked move sharing an endpoint with the conflicting move is among the
/// pulled moves.
proof fn lemma_pull_keeps_shared(locked: Seq<Move>, m: Move, a: Move)
    requires
        locked.contains(a),
        shares_endpoint(m, a),
    ensures
        pull_conflicts(locked, m).contains(a),
    decreases locked.len(),
{
    if locked.len() > 0 {
        if locked.last() == a {
            assert(pull_conflicts(locked, m).last() == a);
        } else {
            let w = choose|w: int| 0 <= w < locked.len() && #[trigger] locked[w] == a;
            assert(locked.drop_last()[w] == a);
            assert(locked.drop_last().contains(a));
            lemma_pull_keeps_shared(locked.drop_last(), m, a);
            let pulled = pull_conflicts(locked.drop_last(), m);
            let u = choose|u: int| 0 <= u < pulled.len() && #[trigger] pulled[u] == a;
            assert(pull_conflicts(locked, m)[u] == a);
        }
    }
}

/// No move sharing an endpoint with the conflicting move stays locked.
proof fn lemma_keep_drops_shared(locked: Seq<Move>, m: Move, a: Move)
    requires
        shares_endpoint(m, a),
    ensures
        !keep_unshared(locked, m).contains(a),
    decreases locked.len(),
{
    if locked.len() > 0 {
        lemma_keep_drops_shared(locked.drop_last(), m, a);
        let kept = keep_unshared(locked, m);
        if kept.contains(a) {
            let w = choose|w: int| 0 <= w < kept.len() && #[trigger] kept[w] == a;
            if shares_endpoint(m, locked.last()) || w < kept.len() - 1 {
                assert(keep_unshared(locked.drop_last(), m)[w] == a);
                assert(keep_unshared(locked.drop_last(), m).contains(a));
            } else {
                assert(a == locked.last());
            }
        }
    }
}

/// Two distinct proposals clashing on a source or on a destination both end
/// up conflicting, and neither survives.
pub proof fn lemma_shared_endpoint_both_conflict(m1: Move, m2: Move)
    requires
        (m1.from, m1.to) != (m2.from, m2.to),
        m1.from == m2.from || m1.to == m2.to,
    ensures
        spec_resolve(seq![m1, m2]).conflicts.contains(m1),
        spec_resolve(seq![m1, m2]).conflicts.contains(m2),
        spec_resolve(seq![m1, m2]).locked.len() == 0,
{
    let ms = seq![m1, m2];
    reveal_with_fuel(resolve_upto, 4);
    let st1 = resolve_step(resolve_init(), m1);
    assert(st1.locked =~= seq![m1]);
    assert(st1.seen_from =~= Set::empty().insert(m1.from));
    assert(st1.seen_to =~= Set::empty().insert(m1.to));
    assert(st1.pairs =~= Set::empty().insert((m1.from, m1.to)));
    assert(!st1.pairs.contains((m2.from, m2.to)));
    assert(st1.locked.contains(m1)) by {
        assert(st1.locked[0] == m1);
    }
    lemma_conflict_pulls_shared(st1, m2, m1);
    assert(spec_resolve(ms) == resolve_step(st1, m2));
    assert(resolve_step(st1, m2).locked == keep_unshared(st1.locked, m2));
    assert forall|i: int| 0 <= i < st1.locked.len()
        implies shares_endpoint(m2, #[trigger] st1.locked[i]) by {
        assert(st1.locked[i] == m1);
    }
    lemma_keep_unshared_empty(st1.locked, m2);
}

/// A chain of clashes is pulled in within one resolution pass: with `a`
/// locked, then `m1` locked, a third proposal `m2` clashing with `m1` and
/// sharing an endpoint with `a` drags all three into the conflict.
pub proof fn lemma_transitive_conflict(a: Move, m1: Move, m2: Move)
    requires
        a.from != m1.from,
        a.to != m1.to,
        m1.from == m2.from || m1.to == m2.to,
        shares_endpoint(m2, a),
        (m2.from, m2.to) != (a.from, a.to),
        (m2.from, m2.to) != (m1.from, m1.to),
    ensures
        spec_resolve(seq![a, m1, m2]).conflicts.contains(a),
        spec_resolve(seq![a, m1, m2]).conflicts.contains(m1),
        spec_resolve(seq![a, m1, m2]).conflicts.contains(m2),
        spec_resolve(seq![a, m1, m2]).locked.len() == 0,
{
    let ms = seq![a, m1, m2];
    reveal_with_fuel(resolve_upto, 5);
    let st1 = resolve_step(resolve_init(), a);
    assert(st1.locked =~= seq![a]);
    assert(st1.seen_from =~= Set::empty().insert(a.from));
    assert(st1.seen_to =~= Set::empty().insert(a.to));
    assert(st1.pairs =~= Set::empty().insert((a.from, a.to)));
    assert(!st1.pairs.contains((m1.from, m1.to)));
    let st2 = resolve_step(st1, m1);
    assert(st2.locked =~= seq![a].push(m1));
    assert(st2.seen_from =~= st1.seen_from.insert(m1.from));
    assert(st2.seen_to =~= st1.seen_to.insert(m1.to));
    assert(st2.conflicts.len() == 0);
    assert(!st2.pairs.contains((m2.from, m2.to)));
    assert(st2.seen_from.contains(m2.from) || st2.seen_to.contains(m2.to));
    assert(st2.locked.contains(a)) by {
        assert(st2.locked[0] == a);
    }
    assert(st2.locked.contains(m1)) by {
        assert(st2.locked[1] == m1);
    }
    lemma_conflict_pulls_shared(st2, m2, a);
    lemma_conflict_pulls_shared(st2, m2, m1);
    assert(spec_resolve(ms) == resolve_step(st2, m2));
    let out = resolve_step(st2, m2);
    assert(out.locked == keep_unshared(st2.locked, m2));
    assert forall|i: int| 0 <= i < st2.locked.len()
        implies shares_endpoint(m2, #[trigger] st2.locked[i]) by {
        if i == 0 {
            assert(st2.locked[i] == a);
        } else {
            assert(st2.locked[i] == m1);
        }
    }
    lemma_keep_unshared_empty(st2.locked, m2);
}


/// When every locked move shares an endpoint with the conflicting move,
/// none survives.
proof fn lemma_keep_unshared_empty(locked: Seq<Move>, m: Move)
    requires
        forall|i: int| 0 <= i < locked.len() ==> shares_endpoint(m, #[trigger] locked[i]),
    ensures
        keep_unshared(locked, m).len() == 0,
    decreases locked.len(),
{
    if locked.len() > 0 {
        assert(shares_endpoint(m, locked.last())) by {
            assert(locked[locked.len() - 1] == locked.last());
        }
        assert forall|i: int| 0 <= i < locked.drop_last().len()
            implies shares_endpoint(m, #[trigger] locked.drop_last()[i]) by {
            assert(locked.drop_last()[i] == locked[i]);
        }
        lemma_keep_unshared_empty(locked.drop_last(), m);
    }
}

/// Whether a player id is in the list.
fn contains_pid(v: &Vec<Pid>, p: Pid) -> (r: bool)
    ensures
        r == v@.contains(p),
{
    let mut i: usize = 0;
    while i < v.len()
        invariant
            i <= v.len(),
            forall|j: int| 0 <= j < i ==> v@[j] != p,
        decreases v.len() - i,
    {
        if v[i] == p {
            return true;
        }
        i = i + 1;
    }
    false
}

/// Whether a coordinate is in the list.
fn contains_coord(v: &Vec<Coord>, c: Coord) -> (r: bool)
    ensures
        r == v@.contains(c),
{
    let mut i: usize = 0;
    while i < v.len()
        invariant
            i <= v.len(),
            forall|j: int| 0 <= j < i ==> v@[j] != c,
        decreases v.len() - i,
    {
        if v[i] == c {
            return true;
        }
        i = i + 1;
    }
    false
}

/// Whether a coordinate pair is in the list.
fn contains_pair(v: &Vec<(Coord, Coord)>, a: Coord, b: Coord) -> (r: bool)
    ensures
        r == v@.contains((a, b)),
{
    let mut i: usize = 0;
    while i < v.len()
        invariant
            i <= v.len(),
            forall|j: int| 0 <= j < i ==> v@[j] != (a, b),
        decreases v.len() - i,
    {
        let e = v[i];
        if e.0 == a && e.1 == b {
            return true;
        }
        i = i + 1;
    }
    false
}

/// Whether a move is in the list.
fn contains_move(v: &Vec<Move>, m: Move) -> (r: bool)
    ensures
        r == v@.contains(m),
{
    let mut i: usize = 0;
    while i < v.len()
        invariant
            i <= v.len(),
            forall|j: int| 0 <= j < i ==> v@[j] != m,
        decreases v.len() - i,
    {
        if v[i] == m {
            return true;
        }
        i = i + 1;
    }
    false
}

/// The verdict on one coordinate of a proposed move.
fn coord_feedback_of(b: &Board, c: Coord) -> (r: CoordFeedback)
    requires
        b.wf(),
    ensures
        r == spec_coord_feedback(b@, c),
{
    if !b.inbounds(c) {
        CoordFeedback::Oob
    } else if b.is_automaton(c) {
        CoordFeedback::Automaton
    } else if b.is_conflict(c) {
        CoordFeedback::Conflict
    } else {
        CoordFeedback::Fine
    }
}

} // verus!
