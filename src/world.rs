use crate::grid::{Tile, color_of, tile_color};
use crate::layout::{
    base_tiles, cell, count_empty, count_open, first_empty, lemma_cell_in_range, lemma_cell_injective,
    lemma_count_empty_base, lemma_count_empty_fill, placed, roots_ok,
};
use crate::random::{below, seeded, shuffle_cells};
use vstd::prelude::*;

verus! {

/// Probabilities are given as a number of chances out of this many.
pub const CHANCE_SCALE: u32 = 1_000_000;

/// How many random cells a pulse samples before giving up on a species.
pub const PULSE_SAMPLES: u32 = 10_000;

/// How many random cells are tried for a species' starting cell before the board is scanned.
pub const PLACEMENT_SAMPLES: u32 = 10_000;

/// The fixed parameters of one simulation.
pub struct Config {
    pub width: usize,
    pub height: usize,
    /// Number of competing species; species ids are `0..species`.
    pub species: usize,
    /// The age a freshly taken or refreshed cell starts with.
    pub max_age: u8,
    /// Chance (out of `CHANCE_SCALE`) that a frontier cell waits a tick and stays active.
    pub skip_chance: u32,
    /// Chance (out of `CHANCE_SCALE`) that a frontier cell that did not wait goes dormant.
    pub deactive_chance: u32,
    /// Chance (out of `CHANCE_SCALE`) that an active species pulses from its root.
    pub pulse_chance: u32,
    /// One base colour per species.
    pub palette: Vec<[u8; 4]>,
}

impl Config {
    /// A board of at least one cell whose frame fits in memory, one to 256 species, and a
    /// colour for each species.
    pub open spec fn valid(&self) -> bool {
        &&& self.width > 0
        &&& self.height > 0
        &&& self.width * self.height * 4 <= usize::MAX
        &&& 1 <= self.species <= 256
        &&& self.palette@.len() == self.species
    }

    /// Whether the configuration is `valid`.
    pub fn is_valid(&self) -> (r: bool)
        ensures
            r == self.valid(),
    {
        if self.width == 0 || self.height == 0 || self.species == 0 || self.species > 256
            || self.palette.len() != self.species {
            return false;
        }
        match self.width.checked_mul(self.height) {
            Some(n) => n <= usize::MAX / 4,
            None => false,
        }
    }
}

/// Why a world could not be built.
#[derive(Clone, Copy, Debug, PartialEq, Eq, Structural)]
pub enum InitError {
    /// The configuration is not `valid`.
    InvalidConfig,
    /// The wall map (or the list of starting cells) has the wrong length.
    LayoutMismatch,
    /// A given starting cell is off the board, on a wall, or shared with another species.
    BadRoot,
    /// Fewer open cells than species.
    NoRoom,
}

/// Distinct neighbours of a cell are distinct board cells, so a cell is the `d`-th
/// neighbour exactly when it is one of the first `d + 1` and not one of the first `d`.
pub proof fn lemma_adjacent_step(width: nat, height: nat, x: int, y: int, d: int, i: int)
    requires
        0 <= x < width,
        0 <= y < height,
        0 <= d < 4,
    ensures
        adjacent_within(width, height, x, y, d + 1, i) <==> (adjacent_within(width, height, x, y, d, i)
            || neighbor_at(width, height, x, y, d, i)),
        neighbor_at(width, height, x, y, d, i) ==> !adjacent_within(width, height, x, y, d, i),
{
    if neighbor_at(width, height, x, y, d, i) && adjacent_within(width, height, x, y, d, i) {
        let e = choose|e: int| 0 <= e < d && #[trigger] neighbor_at(width, height, x, y, e, i);
        let a = neighbor(x, y, e);
        let b = neighbor(x, y, d);
        lemma_cell_injective(width, a.0, a.1, b.0, b.1);
    }
    if adjacent_within(width, height, x, y, d + 1, i) && !neighbor_at(width, height, x, y, d, i) {
        let e = choose|e: int| 0 <= e < d + 1 && #[trigger] neighbor_at(width, height, x, y, e, i);
        assert(e != d);
        assert(adjacent_within(width, height, x, y, d, i));
    }
    if neighbor_at(width, height, x, y, d, i) {
        assert(adjacent_within(width, height, x, y, d + 1, i));
    }
    if adjacent_within(width, height, x, y, d, i) {
        let e = choose|e: int| 0 <= e < d && #[trigger] neighbor_at(width, height, x, y, e, i);
        assert(adjacent_within(width, height, x, y, d + 1, i));
    }
}

/// A tile whose occupant, if any, is a known species no older than `max_age`.
pub open spec fn tile_ok(t: Tile, species: nat, max_age: u8) -> bool {
    match t {
        Tile::Bug(s, age) => (s as nat) < species && age <= max_age,
        _ => true,
    }
}

/// A cell that a spreading species may take: empty, or held by a spent occupant.
pub open spec fn takeable(t: Tile) -> bool {
    match t {
        Tile::Empty => true,
        Tile::Bug(_, age) => age == 0,
        Tile::Wall => false,
    }
}

/// Whether a tile is held by the given species.
pub open spec fn owned_by(t: Tile, s: int) -> bool {
    match t {
        Tile::Bug(id, _) => id as int == s,
        _ => false,
    }
}

/// The `d`-th orthogonal neighbour of `(x, y)`, in the order left, up, down, right.
pub open spec fn neighbor(x: int, y: int, d: int) -> (int, int) {
    if d == 0 {
        (x - 1, y)
    } else if d == 1 {
        (x, y - 1)
    } else if d == 2 {
        (x, y + 1)
    } else {
        (x + 1, y)
    }
}

/// Cell `i` is the `d`-th neighbour of `(x, y)`, and it lies on the board.
pub open spec fn neighbor_at(width: nat, height: nat, x: int, y: int, d: int, i: int) -> bool {
    let n = neighbor(x, y, d);
    0 <= n.0 < width && 0 <= n.1 < height && cell(width, n.0, n.1) == i
}

/// Cell `i` is one of the first `k` orthogonal neighbours of `(x, y)` on the board.
pub open spec fn adjacent_within(width: nat, height: nat, x: int, y: int, k: int, i: int) -> bool {
    exists|d: int| 0 <= d < k && #[trigger] neighbor_at(width, height, x, y, d, i)
}

/// What a spread of species `id` from `(x, y)` has done after its first `d` neighbours,
/// starting from `start` = (tiles, next frontier, cells taken this tick): each neighbour on
/// the board that is `takeable` becomes `Bug(id, max_age)`, joins the frontier and is
/// marked as taken.
pub open spec fn spread_steps(
    start: (Seq<Tile>, Seq<(usize, usize)>, Seq<bool>),
    width: nat,
    height: nat,
    x: int,
    y: int,
    id: u8,
    max_age: u8,
    d: nat,
) -> (Seq<Tile>, Seq<(usize, usize)>, Seq<bool>)
    decreases d,
{
    if d == 0 {
        start
    } else {
        let prev = spread_steps(start, width, height, x, y, id, max_age, (d - 1) as nat);
        let n = neighbor(x, y, d - 1);
        let i = cell(width, n.0, n.1);
        if 0 <= n.0 < width && 0 <= n.1 < height && takeable(prev.0[i]) {
            (
                prev.0.update(i, Tile::Bug(id, max_age)),
                prev.1.push((n.0 as usize, n.1 as usize)),
                prev.2.update(i, true),
            )
        } else {
            prev
        }
    }
}

/// A cell during the spreading phase either kept its tile and mark, or was taken: it
/// holds a fresh occupant and is marked, and it was no wall.
pub open spec fn taken_or_kept(before: Tile, marked_before: bool, after: Tile, marked_after: bool, max_age: u8) -> bool {
    (after == before && marked_after == marked_before) || (renewed(after, max_age) && marked_after && before != Tile::Wall)
}

/// A tile holding an occupant at full age.
pub open spec fn renewed(t: Tile, max_age: u8) -> bool {
    t matches Tile::Bug(_, age) && age == max_age
}

/// A tile holding a spent occupant.
pub open spec fn spent(t: Tile) -> bool {
    t matches Tile::Bug(_, age) && age == 0
}

/// A tile after the age pass: a living occupant that was not taken this tick loses one
/// unit of age; a spent one stays at zero.
pub open spec fn aged(t: Tile, fresh: bool) -> Tile {
    match t {
        Tile::Bug(s, age) => if age > 0 && !fresh {
            Tile::Bug(s, (age - 1) as u8)
        } else {
            t
        },
        _ => t,
    }
}

/// The state after species `s` refreshes its cell `(x, y)`: the tile is reset to
/// `max_age` and becomes the species' root.
pub open spec fn refreshed(v: WorldView, s: int, x: usize, y: usize) -> WorldView {
    WorldView {
        tiles: v.tiles.update(cell(v.width, x as int, y as int), Tile::Bug(s as u8, v.max_age)),
        roots: v.roots.update(s, (x, y)),
        ..v
    }
}

/// The four bytes of cell `j` in a frame.
pub open spec fn pixel(frame: Seq<u8>, j: int) -> Seq<u8> {
    frame.subrange(4 * j, 4 * j + 4)
}

/// What a frontier cell does in one tick.
#[derive(Clone, Copy, Debug, PartialEq, Eq, Structural)]
pub enum Fate {
    /// It waits and stays in the frontier.
    Wait,
    /// It leaves the frontier; its occupant stays as it is.
    Sleep,
    /// It spreads and counts as active for the species holding it.
    Spread,
}

/// The state of the spreading phase of a tick.
pub ghost struct Phase {
    pub tiles: Seq<Tile>,
    /// The frontier gathered for the next tick.
    pub next: Seq<(usize, usize)>,
    /// The cells taken in this tick.
    pub fresh: Seq<bool>,
    /// Per species, how many frontier cells it held when they spread.
    pub counts: Seq<usize>,
}

/// The spreading phase after the first `k` frontier cells of `order` met their `fates`,
/// starting from `v`: a waiting cell is carried to the next frontier, a sleeping one is
/// dropped, and a spreading one that holds species `id` counts for `id` and spreads as
/// `spread_steps` says.
pub open spec fn phase_steps(v: WorldView, order: Seq<(usize, usize)>, fates: Seq<Fate>, k: nat) -> Phase
    decreases k,
{
    if k == 0 {
        Phase {
            tiles: v.tiles,
            next: Seq::empty(),
            fresh: Seq::new(v.tiles.len(), |i: int| false),
            counts: Seq::new(v.species, |s: int| 0usize),
        }
    } else {
        let p = phase_steps(v, order, fates, (k - 1) as nat);
        let c = order[k - 1];
        match fates[k - 1] {
            Fate::Wait => Phase { next: p.next.push(c), ..p },
            Fate::Sleep => p,
            Fate::Spread => match p.tiles[cell(v.width, c.0 as int, c.1 as int)] {
                Tile::Bug(id, _) => {
                    let st = spread_steps(
                        (p.tiles, p.next, p.fresh),
                        v.width,
                        v.height,
                        c.0 as int,
                        c.1 as int,
                        id,
                        v.max_age,
                        4,
                    );
                    Phase {
                        tiles: st.0,
                        next: st.1,
                        fresh: st.2,
                        counts: p.counts.update(id as int, (p.counts[id as int] + 1) as usize),
                    }
                },
                _ => p,
            },
        }
    }
}

/// The winner that a tick's counts decide: the one species with a nonzero count, if any.
pub open spec fn sole_winner(counts: Seq<usize>) -> Option<u8> {
    if exists|s: int| sole_active(counts, s) {
        Some((choose|s: int| sole_active(counts, s)) as u8)
    } else {
        None
    }
}

/// `after` is `before` refreshed by a pulse of the species holding it.
pub open spec fn pulsed(before: Tile, after: Tile, max_age: u8) -> bool {
    after matches Tile::Bug(s, age) && age == max_age && owned_by(before, s as int)
}

/// Fates that the chances allow: a cell waits only if waiting has a chance, and sleeps
/// only if sleeping has one.
pub open spec fn fates_allowed(v: WorldView, fates: Seq<Fate>) -> bool {
    forall|k: int| 0 <= k < fates.len() ==> {
        &&& (#[trigger] fates[k] == Fate::Wait ==> v.skip_chance > 0)
        &&& (fates[k] == Fate::Sleep ==> v.deactive_chance > 0)
    }
}

/// A tick from `before` to `after` in which the frontier was processed in `order` (a
/// permutation of the frontier) with the given fates: the spreading phase is exactly
/// `phase_steps`; then every tile is aged (cells taken in the tick excepted) or refreshed by
/// a pulse of its owner; the new frontier is the phase's frontier followed by the pulsed
/// cells; and a winner not yet decided becomes the sole species with a nonzero count.
pub open spec fn tick_outcome(before: WorldView, after: WorldView, order: Seq<(usize, usize)>, fates: Seq<Fate>) -> bool {
    let p = phase_steps(before, order, fates, order.len());
    &&& order.to_multiset() == before.active.to_multiset()
    &&& fates.len() == order.len()
    &&& fates_allowed(before, fates)
    &&& after.tiles.len() == p.tiles.len()
    &&& forall|i: int| 0 <= i < p.tiles.len() ==> ({
        let a = aged(p.tiles[i], p.fresh[i]);
        #[trigger] after.tiles[i] == a || pulsed(a, after.tiles[i], before.max_age)
    })
    &&& after.active.len() >= p.next.len()
    &&& after.active.subrange(0, p.next.len() as int) == p.next
    &&& forall|j: int| p.next.len() <= j < after.active.len() ==> renewed(
        after.at((#[trigger] after.active[j]).0 as int, after.active[j].1 as int),
        before.max_age,
    )
    &&& after.winner == if before.winner is Some { before.winner } else { sole_winner(p.counts) }
}

/// The abstract state of a simulation.
pub ghost struct WorldView {
    pub width: nat,
    pub height: nat,
    pub species: nat,
    pub max_age: u8,
    pub palette: Seq<[u8; 4]>,
    /// Row-major tiles: `(x, y)` is at `cell(width, x, y)`.
    pub tiles: Seq<Tile>,
    /// The active frontier.
    pub active: Seq<(usize, usize)>,
    /// One root anchor per species.
    pub roots: Seq<(usize, usize)>,
    pub winner: Option<u8>,
    pub ticks: u64,
    pub skip_chance: u32,
    pub deactive_chance: u32,
    pub pulse_chance: u32,
}

impl WorldView {
    pub open spec fn in_bounds(self, x: int, y: int) -> bool {
        0 <= x < self.width && 0 <= y < self.height
    }

    pub open spec fn at(self, x: int, y: int) -> Tile {
        self.tiles[cell(self.width, x, y)]
    }

    /// The invariant of every reachable state: occupants are valid species no older than
    /// `max_age`, and every frontier cell and root lies on the board.
    pub open spec fn wf(self) -> bool {
        &&& self.width > 0
        &&& self.height > 0
        &&& self.width * self.height * 4 <= usize::MAX
        &&& 1 <= self.species <= 256
        &&& self.palette.len() == self.species
        &&& self.tiles.len() == self.width * self.height
        &&& forall|i: int| 0 <= i < self.tiles.len() ==> tile_ok(#[trigger] self.tiles[i], self.species, self.max_age)
        &&& forall|k: int| 0 <= k < self.active.len() ==> self.in_bounds(#[trigger] self.active[k].0 as int, self.active[k].1 as int)
        &&& self.roots.len() == self.species
        &&& forall|s: int| 0 <= s < self.roots.len() ==> self.in_bounds(#[trigger] self.roots[s].0 as int, self.roots[s].1 as int)
        &&& (self.winner matches Some(w) ==> (w as nat) < self.species)
    }

    /// The same board with the same walls.
    pub open spec fn same_walls(self, other: WorldView) -> bool {
        &&& self.tiles.len() == other.tiles.len()
        &&& forall|i: int| 0 <= i < self.tiles.len() ==> (#[trigger] self.tiles[i] == Tile::Wall <==> other.tiles[i] == Tile::Wall)
    }
}

/// The species that alone had active occupants, if exactly one did.
pub open spec fn sole_active(counts: Seq<usize>, s: int) -> bool {
    &&& 0 <= s < counts.len()
    &&& counts[s] > 0
    &&& forall|t: int| 0 <= t < counts.len() && t != s ==> counts[t] == 0
}

/// Returns `Some(s)` exactly when `s` is the only species with a nonzero count.
pub fn sole_active_species(counts: &Vec<usize>) -> (r: Option<u8>)
    requires
        counts@.len() <= 256,
    ensures
        r == sole_winner(counts@),
        r matches Some(s) ==> sole_active(counts@, s as int),
        r is None ==> forall|s: int| !sole_active(counts@, s),
{
    let mut found: Option<usize> = None;
    let mut i: usize = 0;
    while i < counts.len()
        invariant
            i <= counts@.len() <= 256,
            found matches Some(f) ==> f < i && counts@[f as int] > 0
                && forall|t: int| 0 <= t < i && t != f ==> counts@[t] == 0,
            found is None ==> forall|t: int| 0 <= t < i ==> counts@[t] == 0,
        decreases counts@.len() - i,
    {
        if counts[i] > 0 {
            if found.is_some() {
                assert(forall|s: int| !sole_active(counts@, s));
                return None;
            }
            found = Some(i);
        }
        i += 1;
    }
    match found {
        Some(f) => {
            proof {
                assert(sole_active(counts@, f as int));
                let c = choose|s: int| sole_active(counts@, s);
                assert(c == f);
            }
            Some(f as u8)
        },
        None => {
            assert(forall|s: int| !sole_active(counts@, s));
            None
        },
    }
}

/// The `d`-th neighbour of `(x, y)` as a board cell, if it lies on the board.
fn neighbor_cell(x: usize, y: usize, d: usize, width: usize, height: usize) -> (r: Option<(usize, usize)>)
    requires
        x < width,
        y < height,
        d < 4,
    ensures
        match r {
            Some(c) => c.0 as int == neighbor(x as int, y as int, d as int).0
                && c.1 as int == neighbor(x as int, y as int, d as int).1
                && c.0 < width && c.1 < height,
            None => !(0 <= neighbor(x as int, y as int, d as int).0 < width
                && 0 <= neighbor(x as int, y as int, d as int).1 < height),
        },
{
    if d == 0 {
        if x > 0 { Some((x - 1, y)) } else { None }
    } else if d == 1 {
        if y > 0 { Some((x, y - 1)) } else { None }
    } else if d == 2 {
        if y + 1 < height { Some((x, y + 1)) } else { None }
    } else {
        if x + 1 < width { Some((x + 1, y)) } else { None }
    }
}

/// A tile that a spreading species may take.
fn is_takeable(t: Tile) -> (r: bool)
    ensures
        r == takeable(t),
{
    match t {
        Tile::Empty => true,
        Tile::Bug(_, age) => age == 0,
        Tile::Wall => false,
    }
}

/// The state of a world just built from `config`, a wall map and the species' starting
/// cells: each species at full age on its cell, which is also its root and its frontier
/// entry; no winner, no tick taken.
pub open spec fn initial_view(config: Config, walls: Seq<bool>, roots: Seq<(usize, usize)>) -> WorldView {
    WorldView {
        width: config.width as nat,
        height: config.height as nat,
        species: config.species as nat,
        max_age: config.max_age,
        palette: config.palette@,
        tiles: placed(base_tiles(walls), roots, config.width as nat, config.max_age),
        active: roots,
        roots: roots,
        winner: None,
        ticks: 0,
        skip_chance: config.skip_chance,
        deactive_chance: config.deactive_chance,
        pulse_chance: config.pulse_chance,
    }
}

/// A copy of a list of cells.
fn copy_cells(v: &Vec<(usize, usize)>) -> (r: Vec<(usize, usize)>)
    ensures
        r@ == v@,
{
    let mut r: Vec<(usize, usize)> = Vec::new();
    let mut k: usize = 0;
    while k < v.len()
        invariant
            k <= v@.len(),
            r@ == v@.subrange(0, k as int),
        decreases v@.len() - k,
    {
        r.push(v[k]);
        k += 1;
        assert(r@ =~= v@.subrange(0, k as int));
    }
    assert(r@ =~= v@);
    r
}

/// The board of a wall map before any species is placed.
fn wall_board(walls: &Vec<bool>) -> (r: Vec<Tile>)
    ensures
        r@ == base_tiles(walls@),
{
    let mut r: Vec<Tile> = Vec::new();
    let mut i: usize = 0;
    while i < walls.len()
        invariant
            i <= walls@.len(),
            r@ == base_tiles(walls@).subrange(0, i as int),
        decreases walls@.len() - i,
    {
        r.push(if walls[i] { Tile::Wall } else { Tile::Empty });
        i += 1;
        assert(r@ =~= base_tiles(walls@).subrange(0, i as int));
    }
    assert(r@ =~= base_tiles(walls@));
    r
}

/// Number of open cells in a wall map.
fn open_cells(walls: &Vec<bool>) -> (r: usize)
    ensures
        r == count_open(walls@),
{
    let mut r: usize = 0;
    let mut i: usize = 0;
    while i < walls.len()
        invariant
            i <= walls@.len(),
            r <= i,
            r == count_open(walls@.subrange(0, i as int)),
        decreases walls@.len() - i,
    {
        assert(walls@.subrange(0, i + 1).drop_last() =~= walls@.subrange(0, i as int));
        if !walls[i] {
            r += 1;
        }
        i += 1;
    }
    assert(walls@.subrange(0, i as int) =~= walls@);
    r
}

/// A running simulation: the board, its active frontier, the species' roots and the
/// winner, if one was decided.
pub struct World {
    config: Config,
    rng: rand::rngs::StdRng,
    tiles: Vec<Tile>,
    active: Vec<(usize, usize)>,
    roots: Vec<(usize, usize)>,
    winner: Option<u8>,
    ticks: u64,
}

impl View for World {
    type V = WorldView;

    closed spec fn view(&self) -> WorldView {
        WorldView {
            width: self.config.width as nat,
            height: self.config.height as nat,
            species: self.config.species as nat,
            max_age: self.config.max_age,
            palette: self.config.palette@,
            tiles: self.tiles@,
            active: self.active@,
            roots: self.roots@,
            winner: self.winner,
            ticks: self.ticks,
            skip_chance: self.config.skip_chance,
            deactive_chance: self.config.deactive_chance,
            pulse_chance: self.config.pulse_chance,
        }
    }
}

impl World {
    pub fn width(&self) -> (r: usize)
        ensures
            r == self@.width,
    {
        self.config.width
    }

    pub fn height(&self) -> (r: usize)
        ensures
            r == self@.height,
    {
        self.config.height
    }

    /// Number of ticks taken so far (it stops growing at `u64::MAX`).
    pub fn ticks(&self) -> (r: u64)
        ensures
            r == self@.ticks,
    {
        self.ticks
    }

    /// The tile at `(x, y)`.
    pub fn tile(&self, x: usize, y: usize) -> (r: Tile)
        requires
            self@.wf(),
            self@.in_bounds(x as int, y as int),
        ensures
            r == self@.at(x as int, y as int),
    {
        proof {
            lemma_cell_in_range(self@.width, self@.height, x as int, y as int);
        }
        self.tiles[y * self.config.width + x]
    }

    /// The root anchor of species `s`.
    pub fn root(&self, s: usize) -> (r: (usize, usize))
        requires
            self@.wf(),
            s < self@.species,
        ensures
            r == self@.roots[s as int],
    {
        self.roots[s]
    }

    /// The active frontier, in its current order.
    pub fn frontier(&self) -> (r: Vec<(usize, usize)>)
        ensures
            r@ == self@.active,
    {
        copy_cells(&self.active)
    }

    /// Whether a winner has been decided.
    pub fn is_game_over(&self) -> (r: bool)
        ensures
            r == self@.winner is Some,
    {
        self.winner.is_some()
    }

    /// The species that won, once one has.
    pub fn winner(&self) -> (r: Option<u8>)
        ensures
            r == self@.winner,
    {
        self.winner
    }

    /// The spreading step of one frontier cell. Where `(x, y)` holds species `id`, each of
    /// its orthogonal neighbours on the board (left, up, down, right) that is empty or
    /// held by a spent occupant is taken by `id` at `max_age`, appended to `next` and
    /// marked in `fresh`; the result is `Some(id)`. Otherwise nothing changes and the
    /// result is `None`.
    pub fn spread_from(
        &mut self,
        x: usize,
        y: usize,
        next: &mut Vec<(usize, usize)>,
        fresh: &mut Vec<bool>,
    ) -> (r: Option<u8>)
        requires
            old(self)@.wf(),
            old(self)@.in_bounds(x as int, y as int),
            old(fresh)@.len() == old(self)@.tiles.len(),
        ensures
            final(self)@.wf(),
            r == (match old(self)@.at(x as int, y as int) {
                Tile::Bug(id, _) => Some(id),
                _ => None,
            }),
            r matches Some(id) ==> ({
                let st = spread_steps(
                    (old(self)@.tiles, old(next)@, old(fresh)@),
                    old(self)@.width,
                    old(self)@.height,
                    x as int,
                    y as int,
                    id,
                    old(self)@.max_age,
                    4,
                );
                &&& final(self)@ == (WorldView { tiles: st.0, ..old(self)@ })
                &&& final(next)@ == st.1
                &&& final(fresh)@ == st.2
            }),
            r is None ==> final(self)@ == old(self)@ && final(next)@ == old(next)@ && final(fresh)@ == old(fresh)@,
            final(fresh)@.len() == old(fresh)@.len(),
            final(next)@.len() >= old(next)@.len(),
            forall|k: int| old(next)@.len() <= k < final(next)@.len() ==> 0 <= k && final(self)@.in_bounds(
                #[trigger] final(next)@[k].0 as int,
                final(next)@[k].1 as int,
            ),
            forall|k: int| 0 <= k < old(next)@.len() ==> #[trigger] final(next)@[k] == old(next)@[k],
            forall|k: int| old(next)@.len() <= k < final(next)@.len() ==> renewed(
                final(self)@.at((#[trigger] final(next)@[k]).0 as int, final(next)@[k].1 as int),
                old(self)@.max_age,
            ),
            r matches Some(id) ==> forall|i: int| 0 <= i < old(self)@.tiles.len() ==> #[trigger] final(self)@.tiles[i] == if adjacent_within(
                old(self)@.width,
                old(self)@.height,
                x as int,
                y as int,
                4,
                i,
            ) && takeable(old(self)@.tiles[i]) {
                Tile::Bug(id, old(self)@.max_age)
            } else {
                old(self)@.tiles[i]
            },
            forall|i: int| 0 <= i < old(self)@.tiles.len() ==> taken_or_kept(
                old(self)@.tiles[i],
                old(fresh)@[i],
                #[trigger] final(self)@.tiles[i],
                final(fresh)@[i],
                old(self)@.max_age,
            ),
    {
        let width = self.config.width;
        let height = self.config.height;
        let max_age = self.config.max_age;
        proof {
            lemma_cell_in_range(self@.width, self@.height, x as int, y as int);
        }
        let id = match self.tiles[y * width + x] {
            Tile::Bug(id, _) => id,
            _ => {
                return None;
            },
        };
        let ghost pre = self@;
        let ghost start = (self@.tiles, next@, fresh@);
        let mut d: usize = 0;
        while d < 4
            invariant
                d <= 4,
                width as nat == pre.width,
                height as nat == pre.height,
                max_age == pre.max_age,
                pre.wf(),
                (id as nat) < pre.species,
                x < width,
                y < height,
                self@ == (WorldView { tiles: self@.tiles, ..pre }),
                self@.wf(),
                fresh@.len() == self@.tiles.len(),
                (self@.tiles, next@, fresh@) == spread_steps(start, pre.width, pre.height, x as int, y as int, id, max_age, d as nat),
                next@.len() >= start.1.len(),
                forall|k: int| start.1.len() <= k < next@.len() ==> 0 <= k && pre.in_bounds(
                    #[trigger] next@[k].0 as int,
                    next@[k].1 as int,
                ),
                forall|k: int| 0 <= k < start.1.len() ==> #[trigger] next@[k] == start.1[k],
                forall|k: int| start.1.len() <= k < next@.len() ==> renewed(
                    self@.at((#[trigger] next@[k]).0 as int, next@[k].1 as int),
                    max_age,
                ),
                forall|i: int| 0 <= i < pre.tiles.len() ==> #[trigger] self@.tiles[i] == if adjacent_within(
                    pre.width,
                    pre.height,
                    x as int,
                    y as int,
                    d as int,
                    i,
                ) && takeable(pre.tiles[i]) {
                    Tile::Bug(id, max_age)
                } else {
                    pre.tiles[i]
                },
                forall|i: int| 0 <= i < pre.tiles.len() ==> taken_or_kept(
                    pre.tiles[i],
                    start.2[i],
                    #[trigger] self@.tiles[i],
                    fresh@[i],
                    max_age,
                ),
            decreases 4 - d,
        {
            if let Some((nx, ny)) = neighbor_cell(x, y, d, width, height) {
                proof {
                    lemma_cell_in_range(pre.width, pre.height, nx as int, ny as int);
                }
                let i: usize = ny * width + nx;
                if is_takeable(self.tiles[i]) {
                    let ghost tiles_before = self@.tiles;
                    let ghost next_before = next@;
                    self.tiles.set(i, Tile::Bug(id, max_age));
                    next.push((nx, ny));
                    fresh.set(i, true);
                    assert forall|k: int| start.1.len() <= k < next@.len() implies renewed(
                        self@.at((#[trigger] next@[k]).0 as int, next@[k].1 as int),
                        max_age,
                    ) by {
                        if k < next_before.len() {
                            assert(next@[k] == next_before[k]);
                            let ck = cell(pre.width, next@[k].0 as int, next@[k].1 as int);
                            lemma_cell_in_range(pre.width, pre.height, next@[k].0 as int, next@[k].1 as int);
                            if ck != i {
                                assert(self@.tiles[ck] == tiles_before[ck]);
                            }
                        }
                    }
                }
            }
            proof {
                assert forall|i: int| 0 <= i < pre.tiles.len() implies #[trigger] self@.tiles[i] == if adjacent_within(
                    pre.width,
                    pre.height,
                    x as int,
                    y as int,
                    d + 1,
                    i,
                ) && takeable(pre.tiles[i]) {
                    Tile::Bug(id, max_age)
                } else {
                    pre.tiles[i]
                } by {
                    lemma_adjacent_step(pre.width, pre.height, x as int, y as int, d as int, i);
                }
            }
            d += 1;
        }
        Some(id)
    }

    /// The age pass: every occupant not marked in `fresh` and older than zero loses one
    /// unit of age; spent occupants stay at zero.
    pub fn age_pass(&mut self, fresh: &Vec<bool>)
        requires
            old(self)@.wf(),
            fresh@.len() == old(self)@.tiles.len(),
        ensures
            final(self)@.wf(),
            final(self)@ == (WorldView {
                tiles: Seq::new(old(self)@.tiles.len(), |i: int| aged(old(self)@.tiles[i], fresh@[i])),
                ..old(self)@
            }),
    {
        let ghost pre = self@;
        let n = self.tiles.len();
        let mut i: usize = 0;
        while i < n
            invariant
                i <= n,
                n == pre.tiles.len(),
                fresh@.len() == n,
                pre.wf(),
                self@ == (WorldView { tiles: self@.tiles, ..pre }),
                self@.tiles.len() == n,
                forall|j: int| 0 <= j < i ==> #[trigger] self@.tiles[j] == aged(pre.tiles[j], fresh@[j]),
                forall|j: int| i <= j < n ==> #[trigger] self@.tiles[j] == pre.tiles[j],
            decreases n - i,
        {
            if let Tile::Bug(s, age) = self.tiles[i] {
                if age > 0 && !fresh[i] {
                    self.tiles.set(i, Tile::Bug(s, age - 1));
                }
            }
            i += 1;
        }
        assert(self@.tiles =~= Seq::new(pre.tiles.len(), |i: int| aged(pre.tiles[i], fresh@[i])));
        assert forall|j: int| 0 <= j < self@.tiles.len() implies tile_ok(
            #[trigger] self@.tiles[j],
            pre.species,
            pre.max_age,
        ) by {
            assert(tile_ok(pre.tiles[j], pre.species, pre.max_age));
        }
    }

    /// Where species `s` holds `(x, y)`, refreshes it to `max_age`, makes it the root of
    /// `s`, appends it to `next` and returns true; otherwise changes nothing and returns
    /// false.
    pub fn refresh_owned(&mut self, s: usize, x: usize, y: usize, next: &mut Vec<(usize, usize)>) -> (r: bool)
        requires
            old(self)@.wf(),
            s < old(self)@.species,
            old(self)@.in_bounds(x as int, y as int),
        ensures
            final(self)@.wf(),
            r == owned_by(old(self)@.at(x as int, y as int), s as int),
            r ==> final(self)@ == refreshed(old(self)@, s as int, x, y) && final(next)@ == old(next)@.push((x, y)),
            !r ==> final(self)@ == old(self)@ && final(next)@ == old(next)@,
    {
        proof {
            lemma_cell_in_range(self@.width, self@.height, x as int, y as int);
        }
        let i: usize = y * self.config.width + x;
        if let Tile::Bug(id, _) = self.tiles[i] {
            if id as usize == s {
                self.tiles.set(i, Tile::Bug(id, self.config.max_age));
                self.roots.set(s, (x, y));
                next.push((x, y));
                return true;
            }
        }
        false
    }


    /// A pulse of species `s`: its root is refreshed if `s` still holds it; otherwise up to
    /// `PULSE_SAMPLES` random cells are tried and the first one that `s` holds is refreshed
    /// and becomes the new root. Either exactly one cell held by `s` was refreshed and
    /// appended to `next`, or nothing changed.
    pub fn pulse(&mut self, s: usize, next: &mut Vec<(usize, usize)>)
        requires
            old(self)@.wf(),
            s < old(self)@.species,
        ensures
            final(self)@.wf(),
            (final(self)@ == old(self)@ && final(next)@ == old(next)@) || exists|x: usize, y: usize|
                old(self)@.in_bounds(x as int, y as int)
                    && owned_by(old(self)@.at(x as int, y as int), s as int)
                    && final(self)@ == #[trigger] refreshed(old(self)@, s as int, x, y)
                    && final(next)@ == old(next)@.push((x, y)),
            ({
                let root = old(self)@.roots[s as int];
                owned_by(old(self)@.at(root.0 as int, root.1 as int), s as int) ==> final(self)@ == refreshed(
                    old(self)@,
                    s as int,
                    root.0,
                    root.1,
                ) && final(next)@ == old(next)@.push(root)
            }),
    {
        let (rx, ry) = self.roots[s];
        if self.refresh_owned(s, rx, ry, next) {
            assert(refreshed(old(self)@, s as int, rx, ry) == final(self)@);
            return;
        }
        let ghost pre = self@;
        let ghost pre_next = next@;
        let mut tries: u32 = 0;
        while tries < PULSE_SAMPLES
            invariant
                self@ == pre,
                next@ == pre_next,
                old(self)@ == pre,
                old(next)@ == pre_next,
                pre.wf(),
                s < pre.species,
                !owned_by(pre.at(rx as int, ry as int), s as int),
                pre.roots[s as int] == (rx, ry),
            decreases PULSE_SAMPLES - tries,
        {
            let x = below(&mut self.rng, self.config.width);
            let y = below(&mut self.rng, self.config.height);
            if self.refresh_owned(s, x, y, next) {
                assert(final(self)@ == refreshed(pre, s as int, x, y));
                return;
            }
            tries += 1;
        }
    }


    /// Advances the simulation by one step. The frontier is shuffled and each of its cells
    /// is given a fate: it waits (with `skip_chance`), else sleeps (with
    /// `deactive_chance`), else spreads. The spreading phase follows (`spread_phase`), then
    /// the age pass, which does not age cells taken in this tick, then a pulse (with
    /// `pulse_chance`) of each species that had a spreading cell. If no winner was decided
    /// yet and exactly one species had a spreading cell, it becomes the winner. The cells
    /// gathered form the new frontier.
    ///
    /// A winner is decided by activity in this tick, not by the territory still held: a
    /// species whose cells were all dormant this tick does not count as present.
    pub fn tick(&mut self)
        requires
            old(self)@.wf(),
        ensures
            final(self)@.wf(),
            exists|order: Seq<(usize, usize)>, fates: Seq<Fate>| #[trigger] tick_outcome(
                old(self)@,
                final(self)@,
                order,
                fates,
            ),
            final(self)@ == (WorldView {
                tiles: final(self)@.tiles,
                active: final(self)@.active,
                roots: final(self)@.roots,
                winner: final(self)@.winner,
                ticks: final(self)@.ticks,
                ..old(self)@
            }),
            final(self)@.same_walls(old(self)@),
            forall|i: int| 0 <= i < old(self)@.tiles.len() && spent(#[trigger] old(self)@.tiles[i]) ==> final(self)@.tiles[i]
                == old(self)@.tiles[i] || renewed(final(self)@.tiles[i], old(self)@.max_age),
            forall|i: int| 0 <= i < old(self)@.tiles.len() && #[trigger] old(self)@.tiles[i] is Bug ==> final(self)@.tiles[i] is Bug,
            forall|j: int| 0 <= j < final(self)@.active.len() ==> final(self)@.at(
                (#[trigger] final(self)@.active[j]).0 as int,
                final(self)@.active[j].1 as int,
            ) is Bug || old(self)@.active.contains(final(self)@.active[j]),
            old(self)@.winner is Some ==> final(self)@.winner == old(self)@.winner,
            final(self)@.ticks == if old(self)@.ticks == u64::MAX {
                old(self)@.ticks
            } else {
                (old(self)@.ticks + 1) as u64
            },
    {
        let ghost start = self@;
        let mut order = copy_cells(&self.active);
        shuffle_cells(&mut order, &mut self.rng);
        assert forall|k: int| 0 <= k < order@.len() implies start.in_bounds(
            #[trigger] order@[k].0 as int,
            order@[k].1 as int,
        ) by {
            broadcast use vstd::seq_lib::group_to_multiset_ensures;

            assert(order@.contains(order@[k]));
            assert(order@.to_multiset().count(order@[k]) > 0);
            assert(start.active.to_multiset().count(order@[k]) > 0);
            assert(start.active.contains(order@[k]));
        }
        let mut fates: Vec<Fate> = Vec::new();
        while fates.len() < order.len()
            invariant
                fates@.len() <= order@.len(),
                self@ == start,
                fates_allowed(start, fates@),
            decreases order@.len() - fates@.len(),
        {
            let fate = if below(&mut self.rng, CHANCE_SCALE as usize) < self.config.skip_chance as usize {
                Fate::Wait
            } else if below(&mut self.rng, CHANCE_SCALE as usize) < self.config.deactive_chance as usize {
                Fate::Sleep
            } else {
                Fate::Spread
            };
            fates.push(fate);
        }
        let ghost p = phase_steps(start, order@, fates@, order@.len());
        let (mut next, fresh, counts) = self.spread_phase(&order, &fates);
        let n = self.tiles.len();
        let species = self.config.species;
        let max_age = self.config.max_age;

        let ghost before_age = self@;
        self.age_pass(&fresh);
        assert forall|i: int| 0 <= i < n implies (#[trigger] self@.tiles[i] == Tile::Wall) == (start.tiles[i] == Tile::Wall) by {
            assert(self@.tiles[i] == aged(before_age.tiles[i], fresh@[i]));
            assert(taken_or_kept(start.tiles[i], false, before_age.tiles[i], fresh@[i], max_age));
        }
        assert forall|i: int| 0 <= i < n && spent(#[trigger] start.tiles[i]) implies self@.tiles[i] == start.tiles[i]
            || renewed(self@.tiles[i], max_age) by {
            assert(self@.tiles[i] == aged(before_age.tiles[i], fresh@[i]));
            assert(taken_or_kept(start.tiles[i], false, before_age.tiles[i], fresh@[i], max_age));
        }
        assert(next@.subrange(0, p.next.len() as int) =~= p.next);

        let ghost aged_state = self@;
        let mut s: usize = 0;
        while s < species
            invariant
                s <= species,
                species == start.species,
                max_age == start.max_age,
                n == start.tiles.len(),
                self@ == (WorldView { tiles: self@.tiles, roots: self@.roots, ..aged_state }),
                aged_state == (WorldView { tiles: aged_state.tiles, roots: aged_state.roots, ..start }),
                aged_state.tiles == Seq::new(n as nat, |i: int| aged(p.tiles[i], p.fresh[i])),
                p.tiles.len() == n,
                self@.wf(),
                self@.same_walls(start),
                forall|i: int| 0 <= i < n && spent(#[trigger] start.tiles[i]) ==> self@.tiles[i] == start.tiles[i]
                    || renewed(self@.tiles[i], max_age),
                forall|i: int| 0 <= i < n ==> #[trigger] self@.tiles[i] == aged(p.tiles[i], p.fresh[i]) || pulsed(
                    aged(p.tiles[i], p.fresh[i]),
                    self@.tiles[i],
                    max_age,
                ),
                next@.len() >= p.next.len(),
                next@.subrange(0, p.next.len() as int) == p.next,
                forall|j: int| p.next.len() <= j < next@.len() ==> renewed(
                    self@.at((#[trigger] next@[j]).0 as int, next@[j].1 as int),
                    max_age,
                ),
                forall|j: int| 0 <= j < next@.len() ==> start.in_bounds(#[trigger] next@[j].0 as int, next@[j].1 as int),
                counts@.len() == species,
            decreases species - s,
        {
            if counts[s] > 0 && below(&mut self.rng, CHANCE_SCALE as usize) < self.config.pulse_chance as usize {
                let ghost before = self@;
                let ghost next_before = next@;
                self.pulse(s, &mut next);
                proof {
                    if self@ != before || next@ != next_before {
                        let (px, py) = choose|x: usize, y: usize|
                            before.in_bounds(x as int, y as int)
                                && owned_by(before.at(x as int, y as int), s as int)
                                && self@ == #[trigger] refreshed(before, s as int, x, y)
                                && next@ == next_before.push((x, y));
                        lemma_cell_in_range(before.width, before.height, px as int, py as int);
                        let ci = cell(before.width, px as int, py as int);
                        assert forall|i: int| 0 <= i < n implies (#[trigger] self@.tiles[i] == Tile::Wall) == (start.tiles[i] == Tile::Wall) by {
                            assert(before.tiles[i] == Tile::Wall <==> start.tiles[i] == Tile::Wall);
                        }
                        assert forall|i: int| 0 <= i < n implies #[trigger] self@.tiles[i] == aged(p.tiles[i], p.fresh[i]) || pulsed(
                            aged(p.tiles[i], p.fresh[i]),
                            self@.tiles[i],
                            max_age,
                        ) by {
                            if i != ci {
                                assert(self@.tiles[i] == before.tiles[i]);
                            }
                        }
                        assert(next@.subrange(0, p.next.len() as int) =~= next_before.subrange(0, p.next.len() as int));
                        assert forall|j: int| p.next.len() <= j < next@.len() implies renewed(
                            self@.at((#[trigger] next@[j]).0 as int, next@[j].1 as int),
                            max_age,
                        ) by {
                            if j < next_before.len() {
                                assert(next@[j] == next_before[j]);
                                let cj = cell(before.width, next@[j].0 as int, next@[j].1 as int);
                                lemma_cell_in_range(before.width, before.height, next@[j].0 as int, next@[j].1 as int);
                                if cj != ci {
                                    assert(self@.tiles[cj] == before.tiles[cj]);
                                }
                            }
                        }
                    }
                }
            }
            s += 1;
        }

        if self.winner.is_none() {
            self.winner = sole_active_species(&counts);
        }
        proof {
            assert forall|i: int| 0 <= i < n && #[trigger] start.tiles[i] is Bug implies self@.tiles[i] is Bug by {
                assert(taken_or_kept(start.tiles[i], false, p.tiles[i], p.fresh[i], max_age));
            }
            assert forall|j: int| 0 <= j < next@.len() implies self@.at((#[trigger] next@[j]).0 as int, next@[j].1 as int) is Bug
                || start.active.contains(next@[j]) by {
                broadcast use vstd::seq_lib::group_to_multiset_ensures;

                lemma_cell_in_range(start.width, start.height, next@[j].0 as int, next@[j].1 as int);
                let cj = cell(start.width, next@[j].0 as int, next@[j].1 as int);
                assert(self@.tiles[cj] == aged(p.tiles[cj], p.fresh[cj]) || pulsed(aged(p.tiles[cj], p.fresh[cj]), self@.tiles[cj], max_age));
                if j < p.next.len() {
                    assert(next@[j] == p.next[j]);
                    if order@.contains(next@[j]) {
                        assert(order@.to_multiset().count(next@[j]) > 0);
                    }
                }
            }
        }
        self.active = next;
        self.ticks = self.ticks.saturating_add(1);
        assert(tick_outcome(start, self@, order@, fates@));
    }

    /// Writes the colour of every cell, row by row, as four bytes (red, green, blue,
    /// alpha) into `frame`, which holds exactly four bytes per cell.
    pub fn draw(&self, frame: &mut [u8])
        requires
            self@.wf(),
            old(frame)@.len() == 4 * self@.tiles.len(),
        ensures
            final(frame)@.len() == old(frame)@.len(),
            forall|j: int| 0 <= j < self@.tiles.len() ==> #[trigger] pixel(final(frame)@, j) == color_of(
                self@.tiles[j],
                self@.palette,
            ),
    {
        let n = self.tiles.len();
        let mut i: usize = 0;
        while i < n
            invariant
                self@.wf(),
                n == self@.tiles.len(),
                i <= n,
                frame@.len() == 4 * n,
                forall|j: int| 0 <= j < i ==> #[trigger] pixel(frame@, j) == color_of(self@.tiles[j], self@.palette),
            decreases n - i,
        {
            let ghost prev = frame@;
            assert(tile_ok(self@.tiles[i as int], self@.species, self@.max_age));
            let rgba = tile_color(self.tiles[i], &self.config.palette);
            let base: usize = 4 * i;
            frame[base] = rgba[0];
            frame[base + 1] = rgba[1];
            frame[base + 2] = rgba[2];
            frame[base + 3] = rgba[3];
            assert(pixel(frame@, i as int) =~= color_of(self@.tiles[i as int], self@.palette));
            assert forall|j: int| 0 <= j < i implies #[trigger] pixel(frame@, j) == color_of(self@.tiles[j], self@.palette) by {
                assert(pixel(frame@, j) =~= pixel(prev, j));
            }
            i += 1;
        }
    }


    /// The spreading phase of a tick, with the frontier taken in `order` and each of its
    /// cells meeting the matching fate: the result is exactly `phase_steps`, returned as
    /// (next frontier, cells taken, per-species counts).
    pub fn spread_phase(&mut self, order: &Vec<(usize, usize)>, fates: &Vec<Fate>) -> (r: (Vec<(usize, usize)>, Vec<bool>, Vec<usize>))
        requires
            old(self)@.wf(),
            fates@.len() == order@.len(),
            forall|k: int| 0 <= k < order@.len() ==> old(self)@.in_bounds(#[trigger] order@[k].0 as int, order@[k].1 as int),
        ensures
            final(self)@.wf(),
            ({
                let p = phase_steps(old(self)@, order@, fates@, order@.len());
                &&& final(self)@ == (WorldView { tiles: p.tiles, ..old(self)@ })
                &&& r.0@ == p.next
                &&& r.1@ == p.fresh
                &&& r.2@ == p.counts
            }),
            r.1@.len() == old(self)@.tiles.len(),
            r.2@.len() == old(self)@.species,
            forall|j: int| 0 <= j < r.0@.len() ==> old(self)@.in_bounds(#[trigger] r.0@[j].0 as int, r.0@[j].1 as int),
            forall|j: int| 0 <= j < r.0@.len() ==> final(self)@.at((#[trigger] r.0@[j]).0 as int, r.0@[j].1 as int) is Bug
                || order@.contains(r.0@[j]),
            forall|i: int| 0 <= i < old(self)@.tiles.len() ==> taken_or_kept(
                old(self)@.tiles[i],
                false,
                #[trigger] final(self)@.tiles[i],
                r.1@[i],
                old(self)@.max_age,
            ),
    {
        let ghost pre = self@;
        let n = self.tiles.len();
        let species = self.config.species;
        let max_age = self.config.max_age;
        let mut fresh: Vec<bool> = Vec::new();
        while fresh.len() < n
            invariant
                fresh@.len() <= n,
                forall|i: int| 0 <= i < fresh@.len() ==> !#[trigger] fresh@[i],
            decreases n - fresh@.len(),
        {
            fresh.push(false);
        }
        let mut counts: Vec<usize> = Vec::new();
        while counts.len() < species
            invariant
                counts@.len() <= species,
                forall|t: int| 0 <= t < counts@.len() ==> #[trigger] counts@[t] == 0,
            decreases species - counts@.len(),
        {
            counts.push(0);
        }
        let mut next: Vec<(usize, usize)> = Vec::new();
        assert(fresh@ =~= Seq::new(pre.tiles.len(), |i: int| false));
        assert(counts@ =~= Seq::new(pre.species, |s: int| 0usize));
        assert(next@ =~= Seq::empty());
        let mut k: usize = 0;
        while k < order.len()
            invariant
                k <= order@.len(),
                fates@.len() == order@.len(),
                pre.wf(),
                forall|j: int| 0 <= j < order@.len() ==> pre.in_bounds(#[trigger] order@[j].0 as int, order@[j].1 as int),
                self@ == (WorldView { tiles: self@.tiles, ..pre }),
                self@.wf(),
                n == pre.tiles.len(),
                species == pre.species,
                max_age == pre.max_age,
                phase_steps(pre, order@, fates@, k as nat) == (Phase {
                    tiles: self@.tiles,
                    next: next@,
                    fresh: fresh@,
                    counts: counts@,
                }),
                fresh@.len() == n,
                counts@.len() == species,
                forall|t: int| 0 <= t < species ==> #[trigger] counts@[t] <= k,
                forall|j: int| 0 <= j < next@.len() ==> pre.in_bounds(#[trigger] next@[j].0 as int, next@[j].1 as int),
                forall|j: int| 0 <= j < next@.len() ==> self@.at((#[trigger] next@[j]).0 as int, next@[j].1 as int) is Bug
                    || order@.contains(next@[j]),
                forall|i: int| 0 <= i < n ==> taken_or_kept(pre.tiles[i], false, #[trigger] self@.tiles[i], fresh@[i], max_age),
            decreases order@.len() - k,
        {
            let (x, y) = order[k];
            match fates[k] {
                Fate::Wait => {
                    next.push((x, y));
                    assert(order@[k as int] == (x, y));
                },
                Fate::Sleep => {},
                Fate::Spread => {
                    let ghost before = self@;
                    let ghost fresh_before = fresh@;
                    proof {
                        lemma_cell_in_range(pre.width, pre.height, x as int, y as int);
                        assert(tile_ok(before.at(x as int, y as int), before.species, before.max_age));
                    }
                    let ghost next_before = next@;
                    if let Some(id) = self.spread_from(x, y, &mut next, &mut fresh) {
                        let c = counts[id as usize];
                        counts.set(id as usize, c + 1);
                    }
                    assert forall|j: int| 0 <= j < next@.len() implies self@.at((#[trigger] next@[j]).0 as int, next@[j].1 as int) is Bug
                        || order@.contains(next@[j]) by {
                        if j < next_before.len() {
                            assert(next@[j] == next_before[j]);
                            let cj = cell(pre.width, next@[j].0 as int, next@[j].1 as int);
                            lemma_cell_in_range(pre.width, pre.height, next@[j].0 as int, next@[j].1 as int);
                            assert(taken_or_kept(before.tiles[cj], fresh_before[cj], self@.tiles[cj], fresh@[cj], max_age));
                        }
                    }
                    assert forall|i: int| 0 <= i < n implies taken_or_kept(
                        pre.tiles[i],
                        false,
                        #[trigger] self@.tiles[i],
                        fresh@[i],
                        max_age,
                    ) by {
                        assert(taken_or_kept(before.tiles[i], fresh_before[i], self@.tiles[i], fresh@[i], max_age));
                    }
                },
            }
            k += 1;
        }
        (next, fresh, counts)
    }


    /// Reinforces species 0 at `(x, y)`: where species 0 holds that cell, it is refreshed
    /// to `max_age`, becomes species 0's root and joins the frontier. Anywhere else,
    /// including off the board, nothing changes.
    pub fn click(&mut self, x: usize, y: usize)
        requires
            old(self)@.wf(),
        ensures
            final(self)@.wf(),
            if old(self)@.in_bounds(x as int, y as int) && owned_by(old(self)@.at(x as int, y as int), 0) {
                final(self)@ == (WorldView {
                    tiles: old(self)@.tiles.update(
                        cell(old(self)@.width, x as int, y as int),
                        Tile::Bug(0, old(self)@.max_age),
                    ),
                    roots: old(self)@.roots.update(0, (x, y)),
                    active: old(self)@.active.push((x, y)),
                    ..old(self)@
                })
            } else {
                final(self)@ == old(self)@
            },
    {
        if x >= self.config.width || y >= self.config.height {
            return;
        }
        proof {
            lemma_cell_in_range(self@.width, self@.height, x as int, y as int);
        }
        let i: usize = y * self.config.width + x;
        if let Tile::Bug(0, _) = self.tiles[i] {
            self.tiles.set(i, Tile::Bug(0, self.config.max_age));
            self.roots.set(0, (x, y));
            self.active.push((x, y));
        }
    }
}

impl World {
    /// Builds a world with species `s` starting on `roots[s]`. `walls` holds one flag per
    /// cell, row by row. The configuration must be valid, the wall map must cover the
    /// board and `roots` must name one cell per species; the starting cells must then lie
    /// on the board, on no wall, and differ from each other.
    pub fn from_layout(config: Config, walls: &Vec<bool>, roots: &Vec<(usize, usize)>, seed: u64) -> (r: Result<World, InitError>)
        ensures
            !config.valid() ==> r == Err::<World, InitError>(InitError::InvalidConfig),
            config.valid() && (walls@.len() != config.width * config.height || roots@.len() != config.species)
                ==> r == Err::<World, InitError>(InitError::LayoutMismatch),
            config.valid() && walls@.len() == config.width * config.height && roots@.len() == config.species ==> {
                &&& r is Ok <==> roots_ok(walls@, roots@, config.width as nat, config.height as nat)
                &&& r matches Err(e) ==> e == InitError::BadRoot
                &&& r matches Ok(world) ==> world@.wf() && world@ == initial_view(config, walls@, roots@)
            },
    {
        if !config.is_valid() {
            return Err(InitError::InvalidConfig);
        }
        let width = config.width;
        let height = config.height;
        let species = config.species;
        let max_age = config.max_age;
        if walls.len() != width * height || roots.len() != species {
            return Err(InitError::LayoutMismatch);
        }
        let ghost base = base_tiles(walls@);
        let n = walls.len();
        let mut tiles = wall_board(walls);
        let mut s: usize = 0;
        while s < species
            invariant
                config.valid(),
                width == config.width,
                height == config.height,
                species == config.species,
                max_age == config.max_age,
                n == width * height,
                walls@.len() == n,
                roots@.len() == species,
                s <= species,
                base == base_tiles(walls@),
                tiles@ == placed(base, roots@.subrange(0, s as int), width as nat, max_age),
                tiles@.len() == n,
                roots_ok(walls@, roots@.subrange(0, s as int), width as nat, height as nat),
                forall|i: int| 0 <= i < n ==> (#[trigger] tiles@[i] == Tile::Empty <==> (!walls@[i] && forall|t: int|
                    0 <= t < s ==> cell(width as nat, roots@[t].0 as int, roots@[t].1 as int) != i)),
                forall|i: int| 0 <= i < n ==> (#[trigger] tiles@[i] == Tile::Wall <==> walls@[i]),
                forall|i: int| 0 <= i < n ==> tile_ok(#[trigger] tiles@[i], species as nat, max_age),
            decreases species - s,
        {
            let (x, y) = roots[s];
            if x >= width || y >= height {
                assert(roots@.subrange(0, species as int) =~= roots@);
                return Err(InitError::BadRoot);
            }
            proof {
                lemma_cell_in_range(width as nat, height as nat, x as int, y as int);
            }
            let i: usize = y * width + x;
            if tiles[i] != Tile::Empty {
                proof {
                    if !walls@[i as int] {
                        let t = choose|t: int|
                            0 <= t < s && cell(width as nat, roots@[t].0 as int, roots@[t].1 as int) == i;
                        assert(roots_ok(walls@, roots@.subrange(0, s as int), width as nat, height as nat));
                        assert(roots@.subrange(0, s as int)[t] == roots@[t]);
                        lemma_cell_injective(width as nat, roots@[t].0 as int, roots@[t].1 as int, x as int, y as int);
                        assert(roots@[t] == roots@[s as int]);
                    }
                }
                return Err(InitError::BadRoot);
            }
            let ghost prev = tiles@;
            tiles.set(i, Tile::Bug(s as u8, max_age));
            proof {
                let sub = roots@.subrange(0, s + 1);
                assert(sub.drop_last() =~= roots@.subrange(0, s as int));
                assert forall|t: int| 0 <= t < s implies roots@[t] != roots@[s as int] by {
                    if roots@[t] == roots@[s as int] {
                        assert(prev[i as int] != Tile::Empty);
                    }
                }
                assert(roots_ok(walls@, sub, width as nat, height as nat));
                assert forall|j: int| 0 <= j < n implies (#[trigger] tiles@[j] == Tile::Empty <==> (!walls@[j]
                    && forall|t: int| 0 <= t < s + 1 ==> cell(width as nat, roots@[t].0 as int, roots@[t].1 as int) != j)) by {
                    if j != i {
                        assert(prev[j] == tiles@[j]);
                    }
                }
            }
            s += 1;
        }
        assert(roots@.subrange(0, species as int) =~= roots@);
        let world = World {
            config,
            rng: seeded(seed),
            tiles,
            active: copy_cells(roots),
            roots: copy_cells(roots),
            winner: None,
            ticks: 0,
        };
        Ok(world)
    }
    /// Builds a world on the given wall map (one flag per cell, row by row), placing each
    /// species in turn on a random empty cell drawn from the generator seeded by `seed`.
    /// After `PLACEMENT_SAMPLES` misses the first empty cell in row order is taken, so
    /// placement fails only when there are fewer open cells than species.
    pub fn new(config: Config, walls: &Vec<bool>, seed: u64) -> (r: Result<World, InitError>)
        ensures
            !config.valid() ==> r == Err::<World, InitError>(InitError::InvalidConfig),
            config.valid() && walls@.len() != config.width * config.height
                ==> r == Err::<World, InitError>(InitError::LayoutMismatch),
            config.valid() && walls@.len() == config.width * config.height ==> {
                &&& r is Ok <==> count_open(walls@) >= config.species
                &&& r matches Err(e) ==> e == InitError::NoRoom
                &&& r matches Ok(world) ==> {
                    &&& world@.wf()
                    &&& roots_ok(walls@, world@.roots, config.width as nat, config.height as nat)
                    &&& world@ == initial_view(config, walls@, world@.roots)
                }
            },
    {
        if !config.is_valid() {
            return Err(InitError::InvalidConfig);
        }
        let width = config.width;
        let height = config.height;
        let species = config.species;
        let max_age = config.max_age;
        if walls.len() != width * height {
            return Err(InitError::LayoutMismatch);
        }
        if open_cells(walls) < species {
            return Err(InitError::NoRoom);
        }
        let ghost base = base_tiles(walls@);
        let n = walls.len();
        let mut rng = seeded(seed);
        let mut tiles = wall_board(walls);
        let mut roots: Vec<(usize, usize)> = Vec::new();
        proof {
            lemma_count_empty_base(walls@);
        }
        while roots.len() < species
            invariant
                config.valid(),
                width == config.width,
                height == config.height,
                species == config.species,
                max_age == config.max_age,
                n == width * height,
                walls@.len() == n,
                roots@.len() <= species,
                count_open(walls@) >= species,
                count_empty(tiles@) + roots@.len() == count_open(walls@),
                base == base_tiles(walls@),
                tiles@ == placed(base, roots@, width as nat, max_age),
                tiles@.len() == n,
                roots_ok(walls@, roots@, width as nat, height as nat),
                forall|i: int| 0 <= i < n ==> (#[trigger] tiles@[i] == Tile::Empty <==> (!walls@[i] && forall|t: int|
                    0 <= t < roots@.len() ==> cell(width as nat, roots@[t].0 as int, roots@[t].1 as int) != i)),
                forall|i: int| 0 <= i < n ==> (#[trigger] tiles@[i] == Tile::Wall <==> walls@[i]),
                forall|i: int| 0 <= i < n ==> tile_ok(#[trigger] tiles@[i], species as nat, max_age),
            decreases species - roots@.len(),
        {
            let s = roots.len();
            let mut found: Option<(usize, usize)> = None;
            let mut tries: u32 = 0;
            while tries < PLACEMENT_SAMPLES && found.is_none()
                invariant
                    config.valid(),
                    width == config.width,
                    height == config.height,
                    width > 0,
                    height > 0,
                    tiles@.len() == width * height,
                    found matches Some(c) ==> c.0 < width && c.1 < height
                        && tiles@[cell(width as nat, c.0 as int, c.1 as int)] == Tile::Empty,
                decreases PLACEMENT_SAMPLES - tries,
            {
                let x = below(&mut rng, width);
                let y = below(&mut rng, height);
                proof {
                    lemma_cell_in_range(width as nat, height as nat, x as int, y as int);
                }
                if tiles[y * width + x] == Tile::Empty {
                    found = Some((x, y));
                }
                tries += 1;
            }
            let (x, y) = match found {
                Some(c) => c,
                None => first_empty(&tiles, width, height),
            };
            proof {
                lemma_cell_in_range(width as nat, height as nat, x as int, y as int);
            }
            let i: usize = y * width + x;
            let ghost prev = tiles@;
            let ghost prev_roots = roots@;
            tiles.set(i, Tile::Bug(s as u8, max_age));
            roots.push((x, y));
            proof {
                lemma_count_empty_fill(prev, i as int, Tile::Bug(s as u8, max_age));
                assert(roots@.drop_last() =~= prev_roots);
                assert forall|t: int| 0 <= t < s implies prev_roots[t] != (x, y) by {
                    if prev_roots[t] == (x, y) {
                        assert(cell(width as nat, prev_roots[t].0 as int, prev_roots[t].1 as int) == i);
                    }
                }
                assert forall|a: int, b: int| 0 <= b < a < roots@.len() implies #[trigger] roots@[b] != #[trigger] roots@[a] by {
                    if a < s {
                        assert(prev_roots[a] == roots@[a] && prev_roots[b] == roots@[b]);
                    }
                }
                assert(roots_ok(walls@, roots@, width as nat, height as nat));
                assert forall|j: int| 0 <= j < n implies (#[trigger] tiles@[j] == Tile::Empty <==> (!walls@[j]
                    && forall|t: int| 0 <= t < roots@.len() ==> cell(width as nat, roots@[t].0 as int, roots@[t].1 as int) != j)) by {
                    assert(roots@[s as int] == (x, y));
                    assert(cell(width as nat, roots@[s as int].0 as int, roots@[s as int].1 as int) == i);
                    if j != i {
                        assert(prev[j] == tiles@[j]);
                        assert forall|t: int| 0 <= t < s implies roots@[t] == prev_roots[t] by {}
                    }
                }
            }
        }
        let world = World {
            config,
            rng,
            active: copy_cells(&roots),
            tiles,
            roots,
            winner: None,
            ticks: 0,
        };
        Ok(world)
    }
}

} // verus!
