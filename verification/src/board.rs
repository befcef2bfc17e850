use vstd::prelude::*;
use crate::geom::Coord;
use crate::geom::abs_int;
use crate::geom::sign_int;
use crate::kinds::Cell;
use crate::kinds::Particle;
use crate::kinds::MoveResult;
use crate::kinds::Raycast;
use crate::geom::Delta;
use crate::grid::CellGrid;
use crate::grid::grid_at;
use crate::grid::grid_cells;
use crate::grid::grid_dims;
use crate::grid::grid_filled;
use crate::grid::grid_put;

verus! {

/// A coordinate as the integer pair that the board model is keyed by.
pub open spec fn coord_key(c: Coord) -> (int, int) {
    (c.x as int, c.y as int)
}

/// The coordinate a (small, nonnegative) integer pair stands for.
pub open spec fn key_coord(k: (int, int)) -> Coord {
    Coord { x: k.0 as u8, y: k.1 as u8 }
}

/// Mathematical model of a board: the cells, the shape, the cached automaton
/// location, and the coordinates currently carrying each transient mark.
#[verifier::ext_equal]
pub struct BoardModel {
    /// Cells keyed by (x, y); the domain is exactly the in-bounds pairs.
    pub cells: Map<(int, int), Cell>,
    /// Extent in x and in y.
    pub size: (int, int),
    /// Where the automaton is; the cell there holds the automaton particle.
    pub auto: (int, int),
    /// Coordinates carrying a conflict mark, in marking order.
    pub conflicts: Seq<(int, int)>,
    /// Coordinates carrying a passable mark, in marking order.
    pub passables: Seq<(int, int)>,
}

impl BoardModel {
    /// True when the pair lies on the board.
    pub open spec fn inb(self, k: (int, int)) -> bool {
        0 <= k.0 < self.size.0 && 0 <= k.1 < self.size.1
    }

    /// The cell at a pair.
    pub open spec fn cell(self, k: (int, int)) -> Cell {
        self.cells[k]
    }

    /// Everything the board promises about itself: the domain matches the
    /// shape, exactly one cell holds the automaton and the cache points at it,
    /// and each mark list holds exactly the coordinates whose flag is set.
    pub open spec fn wf(self) -> bool {
        &&& 0 < self.size.0 <= 255
        &&& 0 < self.size.1 <= 255
        &&& (forall|k: (int, int)| #[trigger] self.cells.dom().contains(k) <==> self.inb(k))
        &&& self.inb(self.auto)
        &&& self.cell(self.auto).what == Particle::Automaton
        &&& (forall|k: (int, int)| self.inb(k) && (#[trigger] self.cell(k)).what == Particle::Automaton
                ==> k == self.auto)
        &&& (forall|i: int| 0 <= i < self.conflicts.len() ==> self.inb(#[trigger] self.conflicts[i]))
        &&& (forall|k: (int, int)| self.inb(k) ==> ((#[trigger] self.cell(k)).conflict <==> self.conflicts.contains(k)))
        &&& (forall|i: int| 0 <= i < self.passables.len() ==> self.inb(#[trigger] self.passables[i]))
        &&& (forall|k: (int, int)| self.inb(k) ==> ((#[trigger] self.cell(k)).passable <==> self.passables.contains(k)))
    }
}

/// A cell's particle set to `w`, flags kept.
pub open spec fn with_what(c: Cell, w: Particle) -> Cell {
    Cell { what: w, conflict: c.conflict, passable: c.passable }
}

/// The board after unconditionally placing `w` at `k`. Placing the automaton
/// first clears its current cell and retargets the cache.
pub open spec fn place_model(b: BoardModel, k: (int, int), w: Particle) -> BoardModel {
    if w == Particle::Automaton {
        let cleared = b.cells.insert(b.auto, with_what(b.cell(b.auto), Particle::Vacuum));
        BoardModel {
            cells: cleared.insert(k, with_what(cleared[k], Particle::Automaton)),
            auto: k,
            ..b
        }
    } else {
        BoardModel { cells: b.cells.insert(k, with_what(b.cell(k), w)), ..b }
    }
}

/// The board after the particles at `a` and `k` trade places; the transient
/// marks stay on their cells. The automaton cache follows the automaton.
pub open spec fn swap_model(b: BoardModel, a: (int, int), k: (int, int)) -> BoardModel {
    BoardModel {
        cells: b.cells
            .insert(a, with_what(b.cell(a), b.cell(k).what))
            .insert(k, with_what(b.cell(k), b.cell(a).what)),
        auto: if b.auto == a { k } else { b.auto },
        ..b
    }
}

/// The board after `k` gains a conflict mark.
pub open spec fn mark_conflict_model(b: BoardModel, k: (int, int)) -> BoardModel {
    BoardModel {
        cells: b.cells.insert(k, (Cell { what: b.cell(k).what, conflict: true, passable: b.cell(k).passable })),
        conflicts: b.conflicts.push(k),
        ..b
    }
}

/// The board after `k` gains a passable mark.
pub open spec fn mark_passable_model(b: BoardModel, k: (int, int)) -> BoardModel {
    BoardModel {
        cells: b.cells.insert(k, (Cell { what: b.cell(k).what, conflict: b.cell(k).conflict, passable: true })),
        passables: b.passables.push(k),
        ..b
    }
}

/// The board with every transient mark dropped.
pub open spec fn clear_model(b: BoardModel) -> BoardModel {
    BoardModel {
        cells: Map::new(
            |k: (int, int)| b.cells.dom().contains(k),
            |k: (int, int)| (Cell { what: b.cells[k].what, conflict: false, passable: false }),
        ),
        conflicts: Seq::empty(),
        passables: Seq::empty(),
        ..b
    }
}


/// The unit step from `a` toward `k` along their shared row or column.
pub open spec fn unit_toward(a: (int, int), k: (int, int)) -> (int, int) {
    if a.0 == k.0 { (0int, sign_int(k.1 - a.1)) } else { (sign_int(k.0 - a.0), 0int) }
}

/// The j-th cell of the straight path from `a` toward `k`.
pub open spec fn path_pos(a: (int, int), k: (int, int), j: int) -> (int, int) {
    (a.0 + j * unit_toward(a, k).0, a.1 + j * unit_toward(a, k).1)
}

/// Number of single steps from `a` to `k`.
pub open spec fn span(a: (int, int), k: (int, int)) -> int {
    abs_int(k.0 - a.0) + abs_int(k.1 - a.1)
}

/// The first occluding cell strictly between `a` and `k`, scanning outward
/// from step `j`; nothing if the way is free.
pub open spec fn first_blocker(b: BoardModel, a: (int, int), k: (int, int), j: int) -> Option<(int, int)>
    decreases span(a, k) - j,
{
    if j < 1 || j >= span(a, k) {
        None::<(int, int)>
    } else if b.cell(path_pos(a, k, j)).spec_occludes() {
        Some(path_pos(a, k, j))
    } else {
        first_blocker(b, a, k, j + 1)
    }
}

/// The outcome of a validated move: either the path is occluded and the board
/// is untouched, or the two endpoint cells' particles trade places.
pub open spec fn do_move_model(b: BoardModel, a: (int, int), k: (int, int)) -> (BoardModel, MoveResult) {
    match first_blocker(b, a, k, 1) {
        Some(c) => (b, MoveResult::OccupiedAt(key_coord(c))),
        None => (swap_model(b, a, k), MoveResult::Applied),
    }
}

/// The raycast outcome inspecting positions `o + d*i`, `o + d*(i+1)`, ... with
/// at most `fuel` positions inspected (the fuel never runs out on a board,
/// whose extent is far below it).
pub open spec fn ray_model(b: BoardModel, o: (int, int), d: (int, int), i: int, fuel: nat) -> Raycast
    decreases fuel,
{
    if fuel == 0 {
        (Raycast { what: Particle::Vacuum, hit: None, dist: 0 })
    } else {
        let p = (o.0 + i * d.0, o.1 + i * d.1);
        if !b.inb(p) {
            (Raycast { what: Particle::Vacuum, hit: None, dist: i as usize })
        } else if b.cell(p).what != Particle::Vacuum {
            (Raycast { what: b.cell(p).what, hit: Some(key_coord(p)), dist: i as usize })
        } else {
            ray_model(b, o, d, i + 1, (fuel - 1) as nat)
        }
    }
}

/// The first particle (or board edge) along the ray from `o` in direction `d`,
/// not counting `o` itself.
pub open spec fn spec_raycast(b: BoardModel, o: (int, int), d: (int, int)) -> Raycast {
    ray_model(b, o, d, 1, 600)
}



/// Position `j` steps along the ray from `o` in direction `d`.
pub open spec fn ray_pos(o: (int, int), d: (int, int), j: int) -> (int, int) {
    (o.0 + j * d.0, o.1 + j * d.1)
}

/// True for the four axial unit directions.
pub open spec fn is_unit_dir(d: (int, int)) -> bool {
    d == (1int, 0int) || d == (-1int, 0int) || d == (0int, 1int) || d == (0int, -1int)
}

/// The first step at which the ray from `o` in direction `d` leaves the board.
pub open spec fn oob_step(b: BoardModel, o: (int, int), d: (int, int)) -> int {
    if d == (1int, 0int) {
        b.size.0 - o.0
    } else if d == (-1int, 0int) {
        o.0 + 1
    } else if d == (0int, 1int) {
        b.size.1 - o.1
    } else {
        o.1 + 1
    }
}

/// Along a unit ray from an in-bounds origin, a step is on the board exactly
/// when it comes before the ray's exit step.
proof fn lemma_ray_pos_inb(b: BoardModel, o: (int, int), d: (int, int), j: int)
    requires
        b.wf(),
        is_unit_dir(d),
        b.inb(o),
        0 <= j,
    ensures
        b.inb(ray_pos(o, d, j)) <==> j < oob_step(b, o, d),
        1 <= oob_step(b, o, d) <= 255,
{
    lemma_mul_unit(j, d.0);
    lemma_mul_unit(j, d.1);
}

/// What a raycast outcome means on the board: positions strictly before the
/// reported distance are on the board and empty; a reported hit is the
/// particle at the reported distance; no hit means the ray left the board at
/// that distance.
proof fn lemma_ray_model_props(b: BoardModel, o: (int, int), d: (int, int), i: int, fuel: nat)
    requires
        b.wf(),
        is_unit_dir(d),
        b.inb(o),
        1 <= i <= oob_step(b, o, d),
        fuel > oob_step(b, o, d) - i,
    ensures
        ({
            let r = ray_model(b, o, d, i, fuel);
            &&& i <= r.dist <= oob_step(b, o, d)
            &&& (forall|j: int| i <= j < r.dist ==> b.inb(#[trigger] ray_pos(o, d, j))
                    && b.cell(ray_pos(o, d, j)).what == Particle::Vacuum)
            &&& (r.hit matches Some(c) ==> coord_key(c) == ray_pos(o, d, r.dist as int)
                    && b.inb(ray_pos(o, d, r.dist as int))
                    && b.cell(ray_pos(o, d, r.dist as int)).what == r.what
                    && r.what != Particle::Vacuum)
            &&& (r.hit is None ==> !b.inb(ray_pos(o, d, r.dist as int)) && r.what == Particle::Vacuum
                    && r.dist == oob_step(b, o, d))
        }),
    decreases fuel,
{
    let r = ray_model(b, o, d, i, fuel);
    let p = ray_pos(o, d, i);
    lemma_ray_pos_inb(b, o, d, i);
    if !b.inb(p) {
        assert(i == oob_step(b, o, d));
        assert(r.dist == i as usize);
    } else if b.cell(p).what != Particle::Vacuum {
        assert(b.inb(ray_pos(o, d, i)));
        assert(key_coord(p) == (Coord { x: p.0 as u8, y: p.1 as u8 }));
        assert(coord_key(key_coord(p)) == p);
        assert(i < oob_step(b, o, d));
    } else {
        lemma_ray_model_props(b, o, d, i + 1, (fuel - 1) as nat);
        assert forall|j: int| i <= j < r.dist implies b.inb(#[trigger] ray_pos(o, d, j))
            && b.cell(ray_pos(o, d, j)).what == Particle::Vacuum by {
            if j == i {
                assert(b.inb(p));
            }
        }
    }
}

/// What `spec_raycast` promises on a well formed board.
pub proof fn lemma_raycast_props(b: BoardModel, o: (int, int), d: (int, int))
    requires
        b.wf(),
        is_unit_dir(d),
        b.inb(o),
    ensures
        ({
            let r = spec_raycast(b, o, d);
            &&& 1 <= r.dist <= 255
            &&& (forall|j: int| 1 <= j < r.dist ==> b.inb(#[trigger] ray_pos(o, d, j))
                    && b.cell(ray_pos(o, d, j)).what == Particle::Vacuum)
            &&& (r.hit matches Some(c) ==> coord_key(c) == ray_pos(o, d, r.dist as int)
                    && b.inb(ray_pos(o, d, r.dist as int))
                    && b.cell(ray_pos(o, d, r.dist as int)).what == r.what
                    && r.what != Particle::Vacuum)
            &&& (r.hit is None ==> !b.inb(ray_pos(o, d, r.dist as int)) && r.what == Particle::Vacuum)
        }),
{
    lemma_ray_pos_inb(b, o, d, 0);
    lemma_ray_model_props(b, o, d, 1, 600);
}


/// A unit ray's position at a positive step differs from its origin.
pub proof fn lemma_ray_unit_moves(o: (int, int), d: (int, int), j: int)
    requires
        is_unit_dir(d),
        j >= 1,
    ensures
        ray_pos(o, d, j) != o,
{
    lemma_mul_unit(j, d.0);
    lemma_mul_unit(j, d.1);
}

/// Multiplying by a unit (or zero) factor is the identity, negation or zero.
proof fn lemma_mul_unit(i: int, d: int)
    ensures
        d == 1 ==> i * d == i,
        d == -1 ==> i * d == -i,
        d == 0 ==> i * d == 0,
{
    assert(d == 1 ==> i * d == i) by (nonlinear_arith);
    assert(d == -1 ==> i * d == -i) by (nonlinear_arith);
    assert(d == 0 ==> i * d == 0) by (nonlinear_arith);
}


/// The 5-by-5 testing fixture: repulsors in the corners and mid-edges of the
/// odd rows, attractors at the row centers, the automaton in the middle.
pub open spec fn testing_layout(k: (int, int)) -> Particle {
    if k == (2int, 2int) {
        Particle::Automaton
    } else if k == (0int, 2int) || k == (4int, 2int) {
        Particle::Attractor
    } else if k == (0int, 0int) || k == (0int, 4int) || k == (2int, 0int) || k == (2int, 4int)
        || k == (4int, 0int) || k == (4int, 4int) {
        Particle::Repulsor
    } else {
        Particle::Vacuum
    }
}

/// Attractor cells of the standard two-player layout.
pub open spec fn two_player_attractor(k: (int, int)) -> bool {
    ||| k == (1int, 3int) || k == (1int, 7int)
    ||| k == (4int, 0int) || k == (4int, 1int) || k == (4int, 9int) || k == (4int, 10int)
    ||| k == (6int, 0int) || k == (6int, 1int) || k == (6int, 9int) || k == (6int, 10int)
    ||| k == (9int, 3int) || k == (9int, 7int)
}

/// Repulsor cells of the standard two-player layout.
pub open spec fn two_player_repulsor(k: (int, int)) -> bool {
    ||| k == (0int, 0int) || k == (0int, 1int) || k == (0int, 4int) || k == (0int, 5int)
        || k == (0int, 6int) || k == (0int, 9int) || k == (0int, 10int)
    ||| k == (1int, 4int) || k == (1int, 5int) || k == (1int, 6int)
    ||| k == (5int, 0int) || k == (5int, 1int) || k == (5int, 9int) || k == (5int, 10int)
    ||| k == (9int, 4int) || k == (9int, 5int) || k == (9int, 6int)
    ||| k == (10int, 0int) || k == (10int, 1int) || k == (10int, 4int) || k == (10int, 5int)
        || k == (10int, 6int) || k == (10int, 9int) || k == (10int, 10int)
}

/// The standard symmetric 11-by-11 two-player layout, automaton centered.
pub open spec fn two_player_layout(k: (int, int)) -> Particle {
    if k == (5int, 5int) {
        Particle::Automaton
    } else if two_player_attractor(k) {
        Particle::Attractor
    } else if two_player_repulsor(k) {
        Particle::Repulsor
    } else {
        Particle::Vacuum
    }
}

/// The grid of cells a round is played on. All mutation goes through the
/// operations below, which keep `BoardModel::wf`.
pub struct Board {
    grid: CellGrid,
    size: Coord,
    automaton_location: Coord,
    conflict_list: Vec<Coord>,
    passable_list: Vec<Coord>,
}

impl View for Board {
    type V = BoardModel;

    closed spec fn view(&self) -> BoardModel {
        BoardModel {
            cells: grid_cells(self.grid),
            size: (self.size.x as int, self.size.y as int),
            auto: coord_key(self.automaton_location),
            conflicts: self.conflict_list@.map_values(|c: Coord| coord_key(c)),
            passables: self.passable_list@.map_values(|c: Coord| coord_key(c)),
        }
    }
}

impl Board {
    /// The stored grid's shape agrees with the model's.
    pub closed spec fn dims_ok(&self) -> bool {
        grid_dims(self.grid) == self@.size
    }

    /// The board is well formed.
    pub open spec fn wf(&self) -> bool {
        self.dims_ok() && self@.wf()
    }

    /// The board's extent in each axis.
    pub fn size(&self) -> (r: Coord)
        ensures
            coord_key(r) == self@.size,
    {
        self.size
    }

    /// Where the automaton is.
    pub fn automaton_location(&self) -> (r: Coord)
        ensures
            coord_key(r) == self@.auto,
    {
        self.automaton_location
    }

    /// Whether the coordinate is on the board.
    pub fn inbounds(&self, c: Coord) -> (r: bool)
        ensures
            r == self@.inb(coord_key(c)),
    {
        c.x < self.size.x && c.y < self.size.y
    }

    /// The cell at an in-bounds coordinate.
    pub fn cell_at(&self, c: Coord) -> (r: Cell)
        requires
            self.wf(),
            self@.inb(coord_key(c)),
        ensures
            r == self@.cell(coord_key(c)),
    {
        grid_at(&self.grid, c.x as usize, c.y as usize)
    }

    /// Whether the cell at an in-bounds coordinate is empty.
    pub fn is_vacuum(&self, c: Coord) -> (r: bool)
        requires
            self.wf(),
            self@.inb(coord_key(c)),
        ensures
            r == (self@.cell(coord_key(c)).what == Particle::Vacuum),
    {
        self.cell_at(c).what.is_vacuum()
    }

    /// Whether the cell at an in-bounds coordinate is marked conflicted.
    pub fn is_conflict(&self, c: Coord) -> (r: bool)
        requires
            self.wf(),
            self@.inb(coord_key(c)),
        ensures
            r == self@.cell(coord_key(c)).conflict,
    {
        self.cell_at(c).conflict
    }

    /// Whether the coordinate is the automaton's.
    pub fn is_automaton(&self, c: Coord) -> (r: bool)
        ensures
            r == (coord_key(c) == self@.auto),
    {
        self.automaton_location == c
    }

    /// Place a particle on the board.
    ///
    /// Placing a non-automaton particle overwrites one cell. Placing the
    /// automaton also vacates its current cell, so that there stays exactly
    /// one automaton on the board.
    pub fn place(&mut self, c: Coord, w: Particle)
        requires
            old(self).wf(),
            old(self)@.inb(coord_key(c)),
            w != Particle::Automaton ==> coord_key(c) != old(self)@.auto,
        ensures
            final(self).wf(),
            final(self)@ == place_model(old(self)@, coord_key(c), w),
    {
        let w_is_auto = match w {
            Particle::Automaton => true,
            _ => false,
        };
        if w_is_auto {
            let a = self.automaton_location;
            let prev = grid_at(&self.grid, a.x as usize, a.y as usize);
            grid_put(
                &mut self.grid,
                a.x as usize,
                a.y as usize,
                Cell { what: Particle::Vacuum, conflict: prev.conflict, passable: prev.passable },
            );
            self.automaton_location = c;
        }
        let cur = grid_at(&self.grid, c.x as usize, c.y as usize);
        grid_put(
            &mut self.grid,
            c.x as usize,
            c.y as usize,
            Cell { what: w, conflict: cur.conflict, passable: cur.passable },
        );
        proof {
            assert(final(self)@ =~= place_model(old(self)@, coord_key(c), w));
            lemma_place_wf(old(self)@, coord_key(c), w);
        }
    }

    /// Swap the particles at two distinct in-bounds coordinates, leaving the
    /// transient marks where they were, and keep the automaton cache true.
    fn force_move(&mut self, from: Coord, to: Coord)
        requires
            old(self).wf(),
            old(self)@.inb(coord_key(from)),
            old(self)@.inb(coord_key(to)),
            from != to,
            coord_key(from) == old(self)@.auto || coord_key(to) != old(self)@.auto,
        ensures
            final(self).wf(),
            final(self)@ == swap_model(old(self)@, coord_key(from), coord_key(to)),
    {
        let ca = grid_at(&self.grid, from.x as usize, from.y as usize);
        let cb = grid_at(&self.grid, to.x as usize, to.y as usize);
        grid_put(
            &mut self.grid,
            from.x as usize,
            from.y as usize,
            Cell { what: cb.what, conflict: ca.conflict, passable: ca.passable },
        );
        grid_put(
            &mut self.grid,
            to.x as usize,
            to.y as usize,
            Cell { what: ca.what, conflict: cb.conflict, passable: cb.passable },
        );
        if self.automaton_location == from {
            self.automaton_location = to;
        }
        proof {
            assert(final(self)@ =~= swap_model(old(self)@, coord_key(from), coord_key(to)));
            lemma_swap_wf(old(self)@, coord_key(from), coord_key(to));
        }
    }

    /// Mark an in-bounds coordinate as conflicted and record it for clearing.
    pub(crate) fn mark_conflict(&mut self, c: Coord)
        requires
            old(self).wf(),
            old(self)@.inb(coord_key(c)),
        ensures
            final(self).wf(),
            final(self)@ == mark_conflict_model(old(self)@, coord_key(c)),
    {
        let cur = grid_at(&self.grid, c.x as usize, c.y as usize);
        grid_put(
            &mut self.grid,
            c.x as usize,
            c.y as usize,
            Cell { what: cur.what, conflict: true, passable: cur.passable },
        );
        self.conflict_list.push(c);
        proof {
            assert(final(self)@.conflicts =~= old(self)@.conflicts.push(coord_key(c)));
            assert(final(self)@ =~= mark_conflict_model(old(self)@, coord_key(c)));
            lemma_mark_conflict_wf(old(self)@, coord_key(c));
        }
    }

    /// Mark an in-bounds coordinate as passable and record it for clearing.
    pub(crate) fn mark_passable(&mut self, c: Coord)
        requires
            old(self).wf(),
            old(self)@.inb(coord_key(c)),
        ensures
            final(self).wf(),
            final(self)@ == mark_passable_model(old(self)@, coord_key(c)),
    {
        let cur = grid_at(&self.grid, c.x as usize, c.y as usize);
        grid_put(
            &mut self.grid,
            c.x as usize,
            c.y as usize,
            Cell { what: cur.what, conflict: cur.conflict, passable: true },
        );
        self.passable_list.push(c);
        proof {
            assert(final(self)@.passables =~= old(self)@.passables.push(coord_key(c)));
            assert(final(self)@ =~= mark_passable_model(old(self)@, coord_key(c)));
            lemma_mark_passable_wf(old(self)@, coord_key(c));
        }
    }

    /// Drop every transient mark previously recorded, leaving the particles
    /// untouched and both mark lists empty.
    pub(crate) fn clear_marks(&mut self)
        requires
            old(self).wf(),
        ensures
            final(self).wf(),
            final(self)@ == clear_model(old(self)@),
    {
        let ghost b0 = self@;
        let mut i: usize = 0;
        while i < self.conflict_list.len()
            invariant
                self.dims_ok(),
                i <= self.conflict_list.len(),
                self.size == old(self).size,
                self.automaton_location == old(self).automaton_location,
                self.conflict_list == old(self).conflict_list,
                self.passable_list == old(self).passable_list,
                b0 == old(self)@,
                b0.wf(),
                forall|k: (int, int)| #[trigger] self@.cells.dom().contains(k) <==> b0.cells.dom().contains(k),
                forall|k: (int, int)| b0.inb(k) ==> (#[trigger] self@.cell(k)).what == b0.cell(k).what,
                forall|k: (int, int)| b0.inb(k) ==> (#[trigger] self@.cell(k)).passable == b0.cell(k).passable,
                forall|k: (int, int)| b0.inb(k) ==> ((#[trigger] self@.cell(k)).conflict
                    <==> (b0.cell(k).conflict && !b0.conflicts.take(i as int).contains(k))),
            decreases self.conflict_list.len() - i,
        {
            let c = self.conflict_list[i];
            proof {
                assert(b0.conflicts[i as int] == coord_key(c));
                assert(b0.inb(coord_key(c)));
            }
            let ghost pre = self@;
            let cur = grid_at(&self.grid, c.x as usize, c.y as usize);
            grid_put(
                &mut self.grid,
                c.x as usize,
                c.y as usize,
                Cell { what: cur.what, conflict: false, passable: cur.passable },
            );
            proof {
                let ck = coord_key(c);
                let newc = Cell { what: cur.what, conflict: false, passable: cur.passable };
                assert(self@.cells == pre.cells.insert(ck, newc));
                assert(b0.conflicts.take(i as int + 1) =~= b0.conflicts.take(i as int).push(ck));
                assert(pre.cells.dom().contains(ck) <==> b0.cells.dom().contains(ck));
                assert(b0.cells.dom().contains(ck));
                assert forall|k: (int, int)| #[trigger] self@.cells.dom().contains(k)
                    <==> b0.cells.dom().contains(k) by {
                    assert(pre.cells.dom().contains(k) <==> b0.cells.dom().contains(k));
                }
                assert forall|k: (int, int)| b0.inb(k)
                    implies (#[trigger] self@.cell(k)).what == b0.cell(k).what by {
                    if k != ck {
                        assert(self@.cell(k) == pre.cell(k));
                    }
                    assert(pre.cell(k).what == b0.cell(k).what);
                }
                assert forall|k: (int, int)| b0.inb(k)
                    implies (#[trigger] self@.cell(k)).passable == b0.cell(k).passable by {
                    if k != ck {
                        assert(self@.cell(k) == pre.cell(k));
                    }
                    assert(pre.cell(k).passable == b0.cell(k).passable);
                }
                assert forall|k: (int, int)| b0.inb(k) implies ((#[trigger] self@.cell(k)).conflict
                    <==> (b0.cell(k).conflict && !b0.conflicts.take(i as int + 1).contains(k))) by {
                    if k == ck {
                        assert(b0.conflicts.take(i as int + 1)[i as int] == ck);
                        assert(b0.conflicts.take(i as int + 1).contains(ck));
                    } else {
                        assert(self@.cell(k) == pre.cell(k));
                        assert(pre.cell(k).conflict
                            <==> (b0.cell(k).conflict && !b0.conflicts.take(i as int).contains(k)));
                        if b0.conflicts.take(i as int + 1).contains(k) {
                            let ix = choose|ix: int| 0 <= ix < b0.conflicts.take(i as int + 1).len()
                                && #[trigger] b0.conflicts.take(i as int + 1)[ix] == k;
                            assert(b0.conflicts.take(i as int)[ix] == k);
                            assert(b0.conflicts.take(i as int).contains(k));
                        }
                        if b0.conflicts.take(i as int).contains(k) {
                            let ix = choose|ix: int| 0 <= ix < b0.conflicts.take(i as int).len()
                                && #[trigger] b0.conflicts.take(i as int)[ix] == k;
                            assert(b0.conflicts.take(i as int + 1)[ix] == k);
                        }
                    }
                }
            }
            i = i + 1;
        }
        proof {
            assert(b0.conflicts.take(self.conflict_list.len() as int) =~= b0.conflicts);
            assert forall|k: (int, int)| b0.inb(k) implies !(#[trigger] self@.cell(k)).conflict by {
                if b0.cell(k).conflict {
                    assert(b0.conflicts.contains(k));
                }
            }
        }
        let ghost b1 = self@;
        let mut j: usize = 0;
        while j < self.passable_list.len()
            invariant
                self.dims_ok(),
                j <= self.passable_list.len(),
                self.size == old(self).size,
                self.automaton_location == old(self).automaton_location,
                self.conflict_list == old(self).conflict_list,
                self.passable_list == old(self).passable_list,
                b0 == old(self)@,
                b0.wf(),
                forall|k: (int, int)| #[trigger] self@.cells.dom().contains(k) <==> b0.cells.dom().contains(k),
                forall|k: (int, int)| b0.inb(k) ==> (#[trigger] self@.cell(k)).what == b0.cell(k).what,
                forall|k: (int, int)| b0.inb(k) ==> !(#[trigger] self@.cell(k)).conflict,
                forall|k: (int, int)| b0.inb(k) ==> ((#[trigger] self@.cell(k)).passable
                    <==> (b0.cell(k).passable && !b0.passables.take(j as int).contains(k))),
            decreases self.passable_list.len() - j,
        {
            let c = self.passable_list[j];
            proof {
                assert(b0.passables[j as int] == coord_key(c));
                assert(b0.inb(coord_key(c)));
            }
            let ghost pre = self@;
            let cur = grid_at(&self.grid, c.x as usize, c.y as usize);
            grid_put(
                &mut self.grid,
                c.x as usize,
                c.y as usize,
                Cell { what: cur.what, conflict: false, passable: false },
            );
            proof {
                let ck = coord_key(c);
                let newc = Cell { what: cur.what, conflict: false, passable: false };
                assert(self@.cells == pre.cells.insert(ck, newc));
                assert(b0.passables.take(j as int + 1) =~= b0.passables.take(j as int).push(ck));
                assert(pre.cells.dom().contains(ck) <==> b0.cells.dom().contains(ck));
                assert(b0.cells.dom().contains(ck));
                assert forall|k: (int, int)| #[trigger] self@.cells.dom().contains(k)
                    <==> b0.cells.dom().contains(k) by {
                    assert(pre.cells.dom().contains(k) <==> b0.cells.dom().contains(k));
                }
                assert forall|k: (int, int)| b0.inb(k)
                    implies (#[trigger] self@.cell(k)).what == b0.cell(k).what by {
                    if k != ck {
                        assert(self@.cell(k) == pre.cell(k));
                    }
                    assert(pre.cell(k).what == b0.cell(k).what);
                }
                assert forall|k: (int, int)| b0.inb(k)
                    implies !(#[trigger] self@.cell(k)).conflict by {
                    if k != ck {
                        assert(self@.cell(k) == pre.cell(k));
                    }
                    assert(!pre.cell(k).conflict);
                }
                assert forall|k: (int, int)| b0.inb(k) implies ((#[trigger] self@.cell(k)).passable
                    <==> (b0.cell(k).passable && !b0.passables.take(j as int + 1).contains(k))) by {
                    if k == ck {
                        assert(b0.passables.take(j as int + 1)[j as int] == ck);
                        assert(b0.passables.take(j as int + 1).contains(ck));
                    } else {
                        assert(self@.cell(k) == pre.cell(k));
                        assert(pre.cell(k).passable
                            <==> (b0.cell(k).passable && !b0.passables.take(j as int).contains(k)));
                        if b0.passables.take(j as int + 1).contains(k) {
                            let ix = choose|ix: int| 0 <= ix < b0.passables.take(j as int + 1).len()
                                && #[trigger] b0.passables.take(j as int + 1)[ix] == k;
                            assert(b0.passables.take(j as int)[ix] == k);
                            assert(b0.passables.take(j as int).contains(k));
                        }
                        if b0.passables.take(j as int).contains(k) {
                            let ix = choose|ix: int| 0 <= ix < b0.passables.take(j as int).len()
                                && #[trigger] b0.passables.take(j as int)[ix] == k;
                            assert(b0.passables.take(j as int + 1)[ix] == k);
                        }
                    }
                }
            }
            j = j + 1;
        }
        proof {
            assert(b0.passables.take(self.passable_list.len() as int) =~= b0.passables);
            assert forall|k: (int, int)| b0.inb(k) implies !(#[trigger] self@.cell(k)).passable by {
                if b0.cell(k).passable {
                    assert(b0.passables.contains(k));
                }
            }
        }
        let ghost b2 = self@;
        self.conflict_list = Vec::new();
        self.passable_list = Vec::new();
        proof {
            let m = clear_model(b0);
            assert(self@.cells == b2.cells);
            assert(self@.conflicts =~= Seq::<(int, int)>::empty());
            assert(self@.passables =~= Seq::<(int, int)>::empty());
            assert forall|k: (int, int)| #[trigger] self@.cells.dom().contains(k)
                implies self@.cells[k] == m.cells[k] by {
                assert(b2.cells.dom().contains(k) <==> b0.cells.dom().contains(k));
                assert(b0.cells.dom().contains(k));
                assert(b0.inb(k));
                assert((#[trigger] b2.cell(k)).what == b0.cell(k).what);
                assert(!b2.cell(k).conflict);
                assert(!b2.cell(k).passable);
            }
            assert forall|k: (int, int)| #[trigger] self@.cells.dom().contains(k)
                <==> m.cells.dom().contains(k) by {
                assert(b2.cells.dom().contains(k) <==> b0.cells.dom().contains(k));
            }
            assert(self@.cells =~= m.cells);
            assert(self@ =~= m);
            assert forall|k: (int, int)| #[trigger] self@.cells.dom().contains(k) <==> self@.inb(k) by {
                assert(b2.cells.dom().contains(k) <==> b0.cells.dom().contains(k));
                assert(b0.cells.dom().contains(k) <==> b0.inb(k));
            }
            assert(self@.cell(self@.auto).what == b0.cell(b0.auto).what);
            assert forall|k: (int, int)| self@.inb(k) && (#[trigger] self@.cell(k)).what == Particle::Automaton
                implies k == self@.auto by {
                assert((#[trigger] b2.cell(k)).what == b0.cell(k).what);
            }
            assert(self@.wf());
        }
    }


    /// A board of the given extents holding only the automaton, at `auto`,
    /// with no marks.
    fn lone_automaton(sx: u8, sy: u8, auto: Coord) -> (b: Board)
        requires
            0 < sx,
            0 < sy,
            auto.x < sx,
            auto.y < sy,
        ensures
            b.wf(),
            b@.size == (sx as int, sy as int),
            b@.auto == coord_key(auto),
            b@.conflicts.len() == 0,
            b@.passables.len() == 0,
            forall|k: (int, int)| b@.inb(k) ==> b@.cell(k) == (Cell {
                what: if k == coord_key(auto) { Particle::Automaton } else { Particle::Vacuum },
                conflict: false,
                passable: false,
            }),
    {
        let vac = Cell { what: Particle::Vacuum, conflict: false, passable: false };
        let mut grid = grid_filled(sx as usize, sy as usize, vac);
        grid_put(
            &mut grid,
            auto.x as usize,
            auto.y as usize,
            Cell { what: Particle::Automaton, conflict: false, passable: false },
        );
        let b = Board {
            grid,
            size: Coord { x: sx, y: sy },
            automaton_location: auto,
            conflict_list: Vec::new(),
            passable_list: Vec::new(),
        };
        proof {
            assert(b@.conflicts =~= Seq::<(int, int)>::empty());
            assert(b@.passables =~= Seq::<(int, int)>::empty());
            assert(b.wf());
        }
        b
    }

    /// An empty 5-by-5 board containing a lone centered automaton.
    pub fn stock_testing_empty() -> (b: Board)
        ensures
            b.wf(),
            b@.size == (5int, 5int),
            b@.auto == (2int, 2int),
            b@.conflicts.len() == 0,
            b@.passables.len() == 0,
            forall|k: (int, int)| b@.inb(k) ==> b@.cell(k) == (Cell {
                what: if k == (2int, 2int) { Particle::Automaton } else { Particle::Vacuum },
                conflict: false,
                passable: false,
            }),
    {
        Board::lone_automaton(5, 5, Coord { x: 2, y: 2 })
    }

    /// A 5-by-5 board with the automaton centered among a ring of repulsors
    /// and two attractors.
    pub fn stock_testing() -> (b: Board)
        ensures
            b.wf(),
            b@.size == (5int, 5int),
            b@.auto == (2int, 2int),
            b@.conflicts.len() == 0,
            b@.passables.len() == 0,
            forall|k: (int, int)| b@.inb(k) ==> b@.cell(k) == (Cell {
                what: testing_layout(k),
                conflict: false,
                passable: false,
            }),
    {
        let mut b = Board::lone_automaton(5, 5, Coord { x: 2, y: 2 });
        let ghost base = b@;
        b.place(Coord { x: 0, y: 2 }, Particle::Attractor);
        b.place(Coord { x: 4, y: 2 }, Particle::Attractor);
        b.place(Coord { x: 0, y: 0 }, Particle::Repulsor);
        b.place(Coord { x: 0, y: 4 }, Particle::Repulsor);
        b.place(Coord { x: 2, y: 0 }, Particle::Repulsor);
        b.place(Coord { x: 2, y: 4 }, Particle::Repulsor);
        b.place(Coord { x: 4, y: 0 }, Particle::Repulsor);
        b.place(Coord { x: 4, y: 4 }, Particle::Repulsor);
        proof {
            assert forall|k: (int, int)| b@.inb(k) implies b@.cell(k) == (Cell {
                what: testing_layout(k),
                conflict: false,
                passable: false,
            }) by {
                assert(base.inb(k));
                assert(base.cell(k) == (Cell {
                    what: if k == (2int, 2int) { Particle::Automaton } else { Particle::Vacuum },
                    conflict: false,
                    passable: false,
                }));
            }
        }
        b
    }

    /// The standard symmetric 11-by-11 layout for a two player game,
    /// automaton centered.
    #[verifier::rlimit(100)]
    pub fn stock_two_player() -> (b: Board)
        ensures
            b.wf(),
            b@.size == (11int, 11int),
            b@.auto == (5int, 5int),
            b@.conflicts.len() == 0,
            b@.passables.len() == 0,
            forall|k: (int, int)| b@.inb(k) ==> b@.cell(k) == (Cell {
                what: two_player_layout(k),
                conflict: false,
                passable: false,
            }),
    {
        let mut b = Board::lone_automaton(11, 11, Coord { x: 5, y: 5 });
        let ghost base = b@;
        b.place(Coord { x: 1, y: 3 }, Particle::Attractor);
        b.place(Coord { x: 1, y: 7 }, Particle::Attractor);
        b.place(Coord { x: 4, y: 0 }, Particle::Attractor);
        b.place(Coord { x: 4, y: 1 }, Particle::Attractor);
        b.place(Coord { x: 4, y: 9 }, Particle::Attractor);
        b.place(Coord { x: 4, y: 10 }, Particle::Attractor);
        b.place(Coord { x: 6, y: 0 }, Particle::Attractor);
        b.place(Coord { x: 6, y: 1 }, Particle::Attractor);
        b.place(Coord { x: 6, y: 9 }, Particle::Attractor);
        b.place(Coord { x: 6, y: 10 }, Particle::Attractor);
        b.place(Coord { x: 9, y: 3 }, Particle::Attractor);
        b.place(Coord { x: 9, y: 7 }, Particle::Attractor);
        b.place(Coord { x: 0, y: 0 }, Particle::Repulsor);
        b.place(Coord { x: 0, y: 1 }, Particle::Repulsor);
        b.place(Coord { x: 0, y: 4 }, Particle::Repulsor);
        b.place(Coord { x: 0, y: 5 }, Particle::Repulsor);
        b.place(Coord { x: 0, y: 6 }, Particle::Repulsor);
        b.place(Coord { x: 0, y: 9 }, Particle::Repulsor);
        b.place(Coord { x: 0, y: 10 }, Particle::Repulsor);
        b.place(Coord { x: 1, y: 4 }, Particle::Repulsor);
        b.place(Coord { x: 1, y: 5 }, Particle::Repulsor);
        b.place(Coord { x: 1, y: 6 }, Particle::Repulsor);
        b.place(Coord { x: 5, y: 0 }, Particle::Repulsor);
        b.place(Coord { x: 5, y: 1 }, Particle::Repulsor);
        b.place(Coord { x: 5, y: 9 }, Particle::Repulsor);
        b.place(Coord { x: 5, y: 10 }, Particle::Repulsor);
        b.place(Coord { x: 9, y: 4 }, Particle::Repulsor);
        b.place(Coord { x: 9, y: 5 }, Particle::Repulsor);
        b.place(Coord { x: 9, y: 6 }, Particle::Repulsor);
        b.place(Coord { x: 10, y: 0 }, Particle::Repulsor);
        b.place(Coord { x: 10, y: 1 }, Particle::Repulsor);
        b.place(Coord { x: 10, y: 4 }, Particle::Repulsor);
        b.place(Coord { x: 10, y: 5 }, Particle::Repulsor);
        b.place(Coord { x: 10, y: 6 }, Particle::Repulsor);
        b.place(Coord { x: 10, y: 9 }, Particle::Repulsor);
        b.place(Coord { x: 10, y: 10 }, Particle::Repulsor);
        proof {
            assert forall|k: (int, int)| b@.inb(k) implies b@.cell(k) == (Cell {
                what: two_player_layout(k),
                conflict: false,
                passable: false,
            }) by {
                assert(base.inb(k));
                assert(base.cell(k) == (Cell {
                    what: if k == (5int, 5int) { Particle::Automaton } else { Particle::Vacuum },
                    conflict: false,
                    passable: false,
                }));
            }
        }
        b
    }

    /// Attempt a validated move of the piece at `from` to `to`: the two
    /// coordinates are in bounds, distinct and axis-aligned, and the source
    /// holds a piece. Every cell strictly between them must be free (empty or
    /// marked passable), else the move fails and nothing changes.
    pub(crate) fn do_move(&mut self, from: Coord, to: Coord) -> (r: MoveResult)
        requires
            old(self).wf(),
            old(self)@.inb(coord_key(from)),
            old(self)@.inb(coord_key(to)),
            from != to,
            from.x == to.x || from.y == to.y,
            old(self)@.cell(coord_key(from)).what != Particle::Vacuum,
            coord_key(from) == old(self)@.auto || coord_key(to) != old(self)@.auto,
        ensures
            final(self).wf(),
            final(self)@ == do_move_model(old(self)@, coord_key(from), coord_key(to)).0,
            r == do_move_model(old(self)@, coord_key(from), coord_key(to)).1,
    {
        let ghost a = coord_key(from);
        let ghost kk = coord_key(to);
        let dist: usize = if from.x == to.x {
            if to.y > from.y { (to.y - from.y) as usize } else { (from.y - to.y) as usize }
        } else {
            if to.x > from.x { (to.x - from.x) as usize } else { (from.x - to.x) as usize }
        };
        proof {
            assert(dist == span(a, kk));
        }
        let mut j: usize = 1;
        while j < dist
            invariant
                self == old(self),
                self.wf(),
                a == coord_key(from),
                kk == coord_key(to),
                self@.inb(a),
                self@.inb(kk),
                from != to,
                from.x == to.x || from.y == to.y,
                dist == span(a, kk),
                1 <= j <= dist,
                first_blocker(self@, a, kk, j as int) == first_blocker(self@, a, kk, 1),
            decreases dist - j,
        {
            let cx: usize;
            let cy: usize;
            if from.x == to.x {
                cx = from.x as usize;
                cy = if to.y > from.y { from.y as usize + j } else { from.y as usize - j };
            } else {
                cy = from.y as usize;
                cx = if to.x > from.x { from.x as usize + j } else { from.x as usize - j };
            }
            proof {
                let u = unit_toward(a, kk);
                lemma_mul_unit(j as int, u.0);
                lemma_mul_unit(j as int, u.1);
                assert((cx as int, cy as int) == path_pos(a, kk, j as int));
                assert(self@.inb(path_pos(a, kk, j as int)));
            }
            let cell = grid_at(&self.grid, cx, cy);
            if cell.occludes() {
                proof {
                    assert(first_blocker(self@, a, kk, j as int) == Some(path_pos(a, kk, j as int)));
                }
                return MoveResult::OccupiedAt(Coord { x: cx as u8, y: cy as u8 });
            }
            proof {
                assert(first_blocker(self@, a, kk, j as int) == first_blocker(self@, a, kk, j as int + 1));
            }
            j = j + 1;
        }
        proof {
            assert(first_blocker(self@, a, kk, 1) == None::<(int, int)>);
        }
        self.force_move(from, to);
        MoveResult::Applied
    }

    /// Walk the ray `from + axis`, `from + 2*axis`, ... until a particle is
    /// found (its kind, coordinate and distance are reported) or the ray
    /// leaves the board (no coordinate; the distance of the first outside
    /// step is reported). The walk never inspects `from` itself.
    pub fn raycast(&self, from: Coord, axis: Delta) -> (r: Raycast)
        requires
            self.wf(),
            axis.spec_is_axial_unit(),
            self@.inb(coord_key(from)),
        ensures
            r == spec_raycast(self@, coord_key(from), (axis.dx as int, axis.dy as int)),
    {
        let ghost o = coord_key(from);
        let ghost d = (axis.dx as int, axis.dy as int);
        let mut i: usize = 1;
        let mut px: i32 = from.x as i32 + axis.dx as i32;
        let mut py: i32 = from.y as i32 + axis.dy as i32;
        proof {
            lemma_mul_unit(1int, d.0);
            lemma_mul_unit(1int, d.1);
        }
        loop
            invariant
                self.wf(),
                axis.spec_is_axial_unit(),
                o == coord_key(from),
                d == (axis.dx as int, axis.dy as int),
                self@.inb(o),
                1 <= i <= 256,
                px as int == o.0 + i * d.0,
                py as int == o.1 + i * d.1,
                -256 <= px as int <= 511,
                -256 <= py as int <= 511,
                spec_raycast(self@, o, d) == ray_model(self@, o, d, i as int, (600 - (i - 1)) as nat),
            decreases 600 - i,
        {
            let ghost p = (o.0 + i as int * d.0, o.1 + i as int * d.1);
            proof {
                lemma_mul_unit(i as int, d.0);
                lemma_mul_unit(i as int, d.1);
                assert(p == (px as int, py as int));
            }
            if px < 0 || py < 0 || px >= self.size.x as i32 || py >= self.size.y as i32 {
                proof {
                    assert(!self@.inb(p));
                    assert(ray_model(self@, o, d, i as int, (600 - (i - 1)) as nat)
                        == (Raycast { what: Particle::Vacuum, hit: None::<Coord>, dist: (i as int) as usize }));
                }
                return Raycast { what: Particle::Vacuum, hit: None, dist: i };
            }
            proof {
                assert(self@.inb(p));
            }
            let cell = grid_at(&self.grid, px as usize, py as usize);
            if !cell.what.is_vacuum() {
                proof {
                    assert(key_coord(p) == (Coord { x: px as u8, y: py as u8 }));
                }
                return Raycast { what: cell.what, hit: Some(Coord { x: px as u8, y: py as u8 }), dist: i };
            }
            proof {
                lemma_mul_unit(i as int, d.0);
                lemma_mul_unit(i as int, d.1);
                lemma_mul_unit(i as int + 1, d.0);
                lemma_mul_unit(i as int + 1, d.1);
                assert(ray_model(self@, o, d, i as int, (600 - (i - 1)) as nat)
                    == ray_model(self@, o, d, i as int + 1, (600 - i) as nat));
                if d.0 == 1 {
                    assert(i as int <= self@.size.0 - o.0);
                } else if d.0 == -1 {
                    assert(i as int <= o.0);
                } else if d.1 == 1 {
                    assert(i as int <= self@.size.1 - o.1);
                } else {
                    assert(d.1 == -1);
                    assert(i as int <= o.1);
                }
                assert(i < 256);
            }
            i = i + 1;
            px = px + axis.dx as i32;
            py = py + axis.dy as i32;
        }
    }
}



/// Placing keeps the board well formed.
proof fn lemma_place_wf(b: BoardModel, k: (int, int), w: Particle)
    requires
        b.wf(),
        b.inb(k),
        w != Particle::Automaton ==> k != b.auto,
    ensures
        place_model(b, k, w).wf(),
{
    let m = place_model(b, k, w);
    assert forall|k2: (int, int)| #[trigger] m.cells.dom().contains(k2) <==> m.inb(k2) by {
        assert(b.cells.dom().contains(b.auto));
        assert(b.cells.dom().contains(k));
    }
    if w == Particle::Automaton {
        assert(m.cell(k).what == Particle::Automaton);
        assert forall|k2: (int, int)| m.inb(k2) && (#[trigger] m.cell(k2)).what == Particle::Automaton
            implies k2 == m.auto by {
            if k2 != k && k2 != b.auto {
                assert(m.cell(k2) == b.cell(k2));
            }
        }
    } else {
        assert(m.cell(m.auto) == b.cell(b.auto));
        assert forall|k2: (int, int)| m.inb(k2) && (#[trigger] m.cell(k2)).what == Particle::Automaton
            implies k2 == m.auto by {
            if k2 != k {
                assert(m.cell(k2) == b.cell(k2));
            }
        }
    }
    assert forall|k2: (int, int)| m.inb(k2) implies ((#[trigger] m.cell(k2)).conflict <==> m.conflicts.contains(k2)) by {
        assert(m.cell(k2).conflict == b.cell(k2).conflict);
        assert(b.cell(k2).conflict <==> b.conflicts.contains(k2));
    }
    assert forall|k2: (int, int)| m.inb(k2) implies ((#[trigger] m.cell(k2)).passable <==> m.passables.contains(k2)) by {
        assert(m.cell(k2).passable == b.cell(k2).passable);
        assert(b.cell(k2).passable <==> b.passables.contains(k2));
    }
}

/// Swapping two particles keeps the board well formed.
proof fn lemma_swap_wf(b: BoardModel, a: (int, int), k: (int, int))
    requires
        b.wf(),
        b.inb(a),
        b.inb(k),
        a != k,
        a == b.auto || k != b.auto,
    ensures
        swap_model(b, a, k).wf(),
{
    let m = swap_model(b, a, k);
    assert forall|k2: (int, int)| #[trigger] m.cells.dom().contains(k2) <==> m.inb(k2) by {
        assert(b.cells.dom().contains(a));
        assert(b.cells.dom().contains(k));
    }
    assert(m.cell(a).what == b.cell(k).what);
    assert(m.cell(k).what == b.cell(a).what);
    if b.auto == a {
        assert(m.cell(m.auto).what == Particle::Automaton);
    } else {
        assert(m.cell(m.auto) == b.cell(b.auto));
    }
    assert forall|k2: (int, int)| m.inb(k2) && (#[trigger] m.cell(k2)).what == Particle::Automaton
        implies k2 == m.auto by {
        if k2 != a && k2 != k {
            assert(m.cell(k2) == b.cell(k2));
        }
    }
    assert forall|k2: (int, int)| m.inb(k2) implies ((#[trigger] m.cell(k2)).conflict <==> m.conflicts.contains(k2)) by {
        assert(m.cell(k2).conflict == b.cell(k2).conflict);
        assert(b.cell(k2).conflict <==> b.conflicts.contains(k2));
    }
    assert forall|k2: (int, int)| m.inb(k2) implies ((#[trigger] m.cell(k2)).passable <==> m.passables.contains(k2)) by {
        assert(m.cell(k2).passable == b.cell(k2).passable);
        assert(b.cell(k2).passable <==> b.passables.contains(k2));
    }
}

/// Marking a conflict keeps the board well formed.
proof fn lemma_mark_conflict_wf(b: BoardModel, k: (int, int))
    requires
        b.wf(),
        b.inb(k),
    ensures
        mark_conflict_model(b, k).wf(),
{
    let m = mark_conflict_model(b, k);
    assert forall|k2: (int, int)| #[trigger] m.cells.dom().contains(k2) <==> m.inb(k2) by {
        assert(b.cells.dom().contains(k));
    }
    assert forall|i: int| 0 <= i < m.conflicts.len() implies m.inb(#[trigger] m.conflicts[i]) by {
        if i < b.conflicts.len() {
            assert(m.conflicts[i] == b.conflicts[i]);
        }
    }
    assert forall|k2: (int, int)| m.inb(k2) implies ((#[trigger] m.cell(k2)).conflict <==> m.conflicts.contains(k2)) by {
        if k2 == k {
            assert(m.conflicts[m.conflicts.len() - 1] == k);
            assert(m.conflicts.contains(k));
        } else {
            assert(m.cell(k2) == b.cell(k2));
            assert(b.cell(k2).conflict <==> b.conflicts.contains(k2));
            if m.conflicts.contains(k2) {
                let i = choose|i: int| 0 <= i < m.conflicts.len() && #[trigger] m.conflicts[i] == k2;
                assert(b.conflicts[i] == k2);
                assert(b.conflicts.contains(k2));
            }
            if b.conflicts.contains(k2) {
                let i = choose|i: int| 0 <= i < b.conflicts.len() && #[trigger] b.conflicts[i] == k2;
                assert(m.conflicts[i] == k2);
            }
        }
    }
    assert forall|k2: (int, int)| m.inb(k2) implies ((#[trigger] m.cell(k2)).passable <==> m.passables.contains(k2)) by {
        assert(m.cell(k2).passable == b.cell(k2).passable);
        assert(b.cell(k2).passable <==> b.passables.contains(k2));
    }
    assert(m.cell(m.auto).what == b.cell(b.auto).what);
    assert forall|k2: (int, int)| m.inb(k2) && (#[trigger] m.cell(k2)).what == Particle::Automaton
        implies k2 == m.auto by {
        assert(m.cell(k2).what == b.cell(k2).what);
    }
}

/// Marking a passable cell keeps the board well formed.
proof fn lemma_mark_passable_wf(b: BoardModel, k: (int, int))
    requires
        b.wf(),
        b.inb(k),
    ensures
        mark_passable_model(b, k).wf(),
{
    let m = mark_passable_model(b, k);
    assert forall|k2: (int, int)| #[trigger] m.cells.dom().contains(k2) <==> m.inb(k2) by {
        assert(b.cells.dom().contains(k));
    }
    assert forall|i: int| 0 <= i < m.passables.len() implies m.inb(#[trigger] m.passables[i]) by {
        if i < b.passables.len() {
            assert(m.passables[i] == b.passables[i]);
        }
    }
    assert forall|k2: (int, int)| m.inb(k2) implies ((#[trigger] m.cell(k2)).passable <==> m.passables.contains(k2)) by {
        if k2 == k {
            assert(m.passables[m.passables.len() - 1] == k);
            assert(m.passables.contains(k));
        } else {
            assert(m.cell(k2) == b.cell(k2));
            assert(b.cell(k2).passable <==> b.passables.contains(k2));
            if m.passables.contains(k2) {
                let i = choose|i: int| 0 <= i < m.passables.len() && #[trigger] m.passables[i] == k2;
                assert(b.passables[i] == k2);
                assert(b.passables.contains(k2));
            }
            if b.passables.contains(k2) {
                let i = choose|i: int| 0 <= i < b.passables.len() && #[trigger] b.passables[i] == k2;
                assert(m.passables[i] == k2);
            }
        }
    }
    assert forall|k2: (int, int)| m.inb(k2) implies ((#[trigger] m.cell(k2)).conflict <==> m.conflicts.contains(k2)) by {
        assert(m.cell(k2).conflict == b.cell(k2).conflict);
        assert(b.cell(k2).conflict <==> b.conflicts.contains(k2));
    }
    assert(m.cell(m.auto).what == b.cell(b.auto).what);
    assert forall|k2: (int, int)| m.inb(k2) && (#[trigger] m.cell(k2)).what == Particle::Automaton
        implies k2 == m.auto by {
        assert(m.cell(k2).what == b.cell(k2).what);
    }
}

} // verus!
