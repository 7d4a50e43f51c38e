//! The grid of cells and the collapse engine that resolves them one at a time.
use vstd::prelude::*;
use vstd::arithmetic::div_mod::{lemma_fundamental_div_mod, lemma_fundamental_div_mod_converse};
use bittyset::BitSet;
use crate::bitset::{members, set_clone, set_contains, set_empty, set_insert, set_intersection, set_len, set_remove, set_union};
use crate::tileset::{Direction, TileSet};
use crate::random::draw_below;
use rand::rngs::StdRng;

verus! {

/// What one call of `step` did.
#[derive(Clone, Copy, PartialEq, Eq, Structural, Debug)]
pub enum StepResult {
    /// Every cell was already resolved; nothing changed.
    Complete,
    /// One more cell was resolved and its consequences propagated.
    Advanced,
    /// The named cell has no option left; generation cannot go on.
    Contradiction(usize),
}

/// What a cell shows to a reader.
#[derive(Clone, Copy, PartialEq, Eq, Structural, Debug)]
pub enum CellState {
    Resolved(usize),
    /// Not resolved yet, with this many tiles still possible.
    Undetermined(usize),
}

struct Cell {
    resolved: Option<usize>,
    options: BitSet,
}

/// The tile ids below `n`.
pub open spec fn ids(n: nat) -> Set<usize> {
    Set::new(|t: usize| t < n)
}

/// `v` wrapped into `0 .. n`.
pub open spec fn wrap(v: int, n: int) -> int {
    v % n
}

proof fn lemma_wrap(v: int, n: int)
    requires
        n > 0,
        -n <= v < 2 * n,
    ensures
        wrap(v, n) == if v < 0 {
            v + n
        } else if v >= n {
            v - n
        } else {
            v
        },
{
    if v < 0 {
        lemma_fundamental_div_mod_converse(v, n, -1, v + n);
    } else if v >= n {
        lemma_fundamental_div_mod_converse(v, n, 1, v - n);
    } else {
        lemma_fundamental_div_mod_converse(v, n, 0, v);
    }
}

/// A fixed-size toroidal grid of cells over an adjacency model.
pub struct Grid {
    tileset: TileSet,
    width: usize,
    height: usize,
    cells: Vec<Cell>,
    unresolved: BitSet,
    contradiction: Option<usize>,
}

impl Grid {
    pub closed spec fn model(&self) -> TileSet {
        self.tileset
    }

    pub closed spec fn width_spec(&self) -> nat {
        self.width as nat
    }

    pub closed spec fn height_spec(&self) -> nat {
        self.height as nat
    }

    /// Number of cells.
    pub open spec fn size(&self) -> nat {
        self.width_spec() * self.height_spec()
    }

    /// The tiles still possible at cell `i`.
    pub closed spec fn options(&self, i: int) -> Set<usize> {
        members(self.cells@[i].options)
    }

    /// The tile that cell `i` was resolved to, if any.
    pub closed spec fn resolved(&self, i: int) -> Option<usize> {
        self.cells@[i].resolved
    }

    /// The cells not resolved yet.
    pub closed spec fn unresolved_set(&self) -> Set<usize> {
        members(self.unresolved)
    }

    /// The cell whose emptied options halted generation, if any.
    pub closed spec fn failed(&self) -> Option<usize> {
        self.contradiction
    }

    pub closed spec fn layout(&self) -> bool {
        self.cells@.len() == self.width * self.height
    }

    /// Index of the neighbour of cell `i` in direction `d`, wrapping around
    /// both edges independently.
    pub open spec fn neighbor(&self, i: int, d: Direction) -> int {
        let w = self.width_spec() as int;
        let h = self.height_spec() as int;
        wrap(i % w + d.dx(), w) + wrap(i / w + d.dy(), h) * w
    }

    /// The grid's invariant: cells hold known tiles; a resolved cell holds
    /// exactly its tile; the unresolved set lists the cells without a tile;
    /// a cell has no option only when generation halted on it.
    pub open spec fn wf(&self) -> bool {
        &&& self.layout()
        &&& self.width_spec() > 0
        &&& self.height_spec() > 0
        &&& self.size() <= usize::MAX
        &&& self.model().wf()
        &&& forall|i: int| 0 <= i < self.size() ==> (#[trigger] self.options(i)).subset_of(ids(self.model().count()))
        &&& forall|i: int| 0 <= i < self.size() ==> (#[trigger] self.options(i)).finite()
        &&& forall|i: int| 0 <= i < self.size() ==> match #[trigger] self.resolved(i) {
            Some(t) => self.options(i) == Set::<usize>::empty().insert(t),
            None => true,
        }
        &&& self.unresolved_set() == Set::new(|i: usize| i < self.size() && self.resolved(i as int) is None)
        &&& forall|i: int| 0 <= i < self.size() && (#[trigger] self.options(i)).len() == 0 ==> self.failed() == Some(i as usize)
        &&& match self.failed() {
            Some(c) => c < self.size(),
            None => true,
        }
    }

    /// Cell `i` is unresolved and has the fewest options of all unresolved
    /// cells, and strictly fewer than every unresolved cell before it.
    pub open spec fn is_min_cell(&self, i: int) -> bool {
        &&& 0 <= i < self.size()
        &&& self.resolved(i) is None
        &&& forall|j: int| 0 <= j < self.size() && (#[trigger] self.resolved(j)) is None
            ==> self.options(i).len() <= self.options(j).len()
        &&& forall|j: int| 0 <= j < i && (#[trigger] self.resolved(j)) is None
            ==> self.options(i).len() < self.options(j).len()
    }

    /// A grid of `width` by `height` cells in which every cell may still hold
    /// every tile of `tileset` and none is resolved.
    pub fn new(tileset: TileSet, width: usize, height: usize) -> (r: Grid)
        requires
            tileset.wf(),
            width > 0,
            height > 0,
            width * height <= usize::MAX,
        ensures
            r.wf(),
            r.model() == tileset,
            r.width_spec() == width,
            r.height_spec() == height,
            r.failed() is None,
            forall|i: int| 0 <= i < r.size() ==> #[trigger] r.options(i) == ids(tileset.count()),
            forall|i: int| 0 <= i < r.size() ==> #[trigger] r.resolved(i) is None,
    {
        let count: usize = tileset.len();
        let mut all: BitSet = set_empty();
        let mut t: usize = 0;
        while t < count
            invariant
                t <= count,
                members(all) == Set::new(|u: usize| u < t),
                members(all).finite(),
            decreases count - t,
        {
            set_insert(&mut all, t);
            assert(members(all) =~= Set::new(|u: usize| u < t + 1));
            t += 1;
        }
        assert(members(all) =~= ids(count as nat));
        let n: usize = width * height;
        let mut cells: Vec<Cell> = Vec::new();
        let mut unresolved: BitSet = set_empty();
        let mut i: usize = 0;
        while i < n
            invariant
                i <= n,
                members(all) == ids(count as nat),
                members(all).finite(),
                cells@.len() == i,
                forall|j: int| 0 <= j < i ==> #[trigger] members(cells@[j].options) == ids(count as nat),
                forall|j: int| 0 <= j < i ==> (#[trigger] cells@[j]).resolved is None,
                members(unresolved) == Set::new(|u: usize| u < i),
            decreases n - i,
        {
            cells.push(Cell { resolved: None, options: set_clone(&all) });
            set_insert(&mut unresolved, i);
            assert(members(unresolved) =~= Set::new(|u: usize| u < i + 1));
            i += 1;
        }
        let g = Grid { tileset, width, height, cells, unresolved, contradiction: None };
        proof {
            assert(g.unresolved_set() =~= Set::new(|i: usize| i < g.size() && g.resolved(i as int) is None));
            assert forall|i: int| 0 <= i < g.size() && (#[trigger] g.options(i)).len() == 0 implies false by {
                assert(g.options(i).contains(0));
            }
        }
        g
    }

    /// Index of the neighbour of cell `index` in direction `d`.
    fn get_neighbor(&self, index: usize, d: Direction) -> (r: usize)
        requires
            self.wf(),
            index < self.size(),
        ensures
            r == self.neighbor(index as int, d),
            r < self.size(),
    {
        let w: usize = self.width;
        let h: usize = self.height;
        let x: usize = index % w;
        let y: usize = index / w;
        proof {
            lemma_fundamental_div_mod(index as int, w as int);
            assert(y < h) by (nonlinear_arith)
                requires index == w * y + x, index < w * h, x >= 0, w > 0;
            lemma_wrap(x + d.dx(), w as int);
            lemma_wrap(y + d.dy(), h as int);
        }
        let nx: usize = match d {
            Direction::East => if x + 1 == w { 0 } else { x + 1 },
            Direction::West => if x == 0 { w - 1 } else { x - 1 },
            _ => x,
        };
        let ny: usize = match d {
            Direction::South => if y + 1 == h { 0 } else { y + 1 },
            Direction::North => if y == 0 { h - 1 } else { y - 1 },
            _ => y,
        };
        proof {
            assert(nx + ny * w < w * h) by (nonlinear_arith)
                requires nx < w, ny < h;
        }
        nx + ny * w
    }

    /// Number of tiles still possible at cell `index`.
    pub fn entropy(&self, index: usize) -> (r: usize)
        requires
            self.wf(),
            index < self.size(),
        ensures
            r == self.options(index as int).len(),
    {
        set_len(&self.cells[index].options)
    }

    /// Whether every cell is resolved.
    pub fn is_complete(&self) -> (r: bool)
        requires
            self.wf(),
        ensures
            r == (self.unresolved_set() == Set::<usize>::empty()),
            r == (forall|i: int| 0 <= i < self.size() ==> (#[trigger] self.resolved(i)) is Some),
    {
        let n: usize = self.width * self.height;
        let mut i: usize = 0;
        while i < n
            invariant
                self.wf(),
                n == self.size(),
                i <= n,
                forall|j: int| 0 <= j < i ==> (#[trigger] self.resolved(j)) is Some,
            decreases n - i,
        {
            if set_contains(&self.unresolved, i) {
                assert(!(self.unresolved_set() =~= Set::<usize>::empty())) by {
                    assert(self.unresolved_set().contains(i));
                }
                return false;
            }
            assert(self.resolved(i as int) is Some);
            i += 1;
        }
        assert(self.unresolved_set() =~= Set::<usize>::empty());
        true
    }

    /// What cell `index` shows: its tile, or how many tiles it may still hold.
    pub fn cell_state(&self, index: usize) -> (r: CellState)
        requires
            self.wf(),
            index < self.size(),
        ensures
            r == match self.resolved(index as int) {
                Some(t) => CellState::Resolved(t),
                None => CellState::Undetermined(self.options(index as int).len() as usize),
            },
    {
        match self.cells[index].resolved {
            Some(t) => CellState::Resolved(t),
            None => CellState::Undetermined(set_len(&self.cells[index].options)),
        }
    }

    /// The unresolved cell with the fewest options, the lowest index among
    /// equals; `None` when every cell is resolved.
    fn min_cell(&self) -> (r: Option<usize>)
        requires
            self.wf(),
        ensures
            match r {
                Some(i) => self.is_min_cell(i as int),
                None => forall|j: int| 0 <= j < self.size() ==> (#[trigger] self.resolved(j)) is Some,
            },
    {
        let n: usize = self.width * self.height;
        let mut best: Option<usize> = None;
        let mut best_entropy: usize = 0;
        let mut i: usize = 0;
        while i < n
            invariant
                self.wf(),
                n == self.size(),
                i <= n,
                match best {
                    Some(b) => b < i && self.resolved(b as int) is None && best_entropy == self.options(b as int).len()
                        && (forall|j: int| 0 <= j < i && (#[trigger] self.resolved(j)) is None
                            ==> self.options(b as int).len() <= self.options(j).len())
                        && (forall|j: int| 0 <= j < b && (#[trigger] self.resolved(j)) is None
                            ==> self.options(b as int).len() < self.options(j).len()),
                    None => forall|j: int| 0 <= j < i ==> (#[trigger] self.resolved(j)) is Some,
                },
            decreases n - i,
        {
            if self.cells[i].resolved.is_none() {
                let e: usize = self.entropy(i);
                match best {
                    None => {
                        best = Some(i);
                        best_entropy = e;
                    },
                    Some(_) => {
                        if e < best_entropy {
                            best = Some(i);
                            best_entropy = e;
                        }
                    },
                }
            }
            i += 1;
        }
        best
    }
}

/// Sum of the frequencies of the tiles below `t` that `opts` holds.
pub open spec fn weight_below(freqs: Seq<usize>, opts: Set<usize>, t: nat) -> nat
    decreases t,
{
    if t == 0 {
        0
    } else {
        weight_below(freqs, opts, (t - 1) as nat) + if opts.contains((t - 1) as usize) {
            freqs[t - 1] as nat
        } else {
            0nat
        }
    }
}

/// Tile `t` is the one that draw `r` selects from `opts`: laying the options
/// out in ascending order, each over a span as long as its frequency, `r`
/// falls in the span of `t`.
pub open spec fn chosen(freqs: Seq<usize>, opts: Set<usize>, r: nat, t: usize) -> bool {
    &&& opts.contains(t)
    &&& weight_below(freqs, opts, t as nat) <= r < weight_below(freqs, opts, (t + 1) as nat)
}

proof fn lemma_weight_bound(freqs: Seq<usize>, opts: Set<usize>, t: nat)
    requires
        t <= freqs.len(),
    ensures
        weight_below(freqs, opts, t) <= crate::tileset::sum(freqs.take(t as int)),
    decreases t,
{
    if t > 0 {
        lemma_weight_bound(freqs, opts, (t - 1) as nat);
        assert(freqs.take(t as int).drop_last() =~= freqs.take(t - 1));
    }
}

proof fn lemma_weight_mono(freqs: Seq<usize>, opts: Set<usize>, a: nat, b: nat)
    requires
        a <= b,
    ensures
        weight_below(freqs, opts, a) <= weight_below(freqs, opts, b),
    decreases b,
{
    if a < b {
        lemma_weight_mono(freqs, opts, a, (b - 1) as nat);
    }
}

/// The tiles that a cell may still hold.
spec fn cell_options(c: Cell) -> Set<usize> {
    members(c.options)
}

/// Total number of options over all cells.
spec fn options_total(cells: Seq<Cell>) -> nat
    decreases cells.len(),
{
    if cells.len() == 0 {
        0
    } else {
        options_total(cells.drop_last()) + cell_options(cells.last()).len()
    }
}

proof fn lemma_options_total_update(cells: Seq<Cell>, i: int, c: Cell)
    requires
        0 <= i < cells.len(),
    ensures
        options_total(cells.update(i, c)) + cell_options(cells[i]).len() == options_total(cells) + cell_options(c).len(),
    decreases cells.len(),
{
    if i < cells.len() - 1 {
        lemma_options_total_update(cells.drop_last(), i, c);
        assert(cells.update(i, c).drop_last() =~= cells.drop_last().update(i, c));
    } else {
        assert(cells.update(i, c).drop_last() =~= cells.drop_last());
    }
}

impl Grid {
    /// The tiles that some tile of `s` allows next to it in direction `d`.
    pub open spec fn allowed(&self, s: Set<usize>, d: Direction) -> Set<usize> {
        Set::new(|u: usize| exists|t: usize| s.contains(t) && #[trigger] self.model().adjacent(t as int, d).contains(u))
    }

    /// Cell `c` constrains its neighbour in direction `d`: that neighbour is
    /// resolved, or holds only tiles that some option of `c` allows there.
    pub open spec fn supports(&self, c: int, d: Direction) -> bool {
        let n = self.neighbor(c, d);
        self.resolved(n) is Some || self.options(n).subset_of(self.allowed(self.options(c), d))
    }

    /// Sum of the frequencies of the options of cell `i`.
    pub open spec fn weight(&self, i: int) -> nat {
        weight_below(self.model().frequencies(), self.options(i), self.model().count())
    }

    /// Tile `t` is what `draw` selects among the options of cell `i`.
    pub open spec fn drawn(&self, i: int, t: usize, draw: nat) -> bool {
        chosen(self.model().frequencies(), self.options(i), draw % self.weight(i), t)
    }

    /// `self` comes from `old` by narrowing options alone.
    pub open spec fn narrowed_from(&self, old: Grid) -> bool {
        &&& self.model() == old.model()
        &&& self.width_spec() == old.width_spec()
        &&& self.height_spec() == old.height_spec()
        &&& forall|j: int| 0 <= j < self.size() ==> #[trigger] self.resolved(j) == old.resolved(j)
        &&& forall|j: int| 0 <= j < self.size() ==> (#[trigger] self.options(j)).subset_of(old.options(j))
        &&& forall|j: int| 0 <= j < self.size() ==> (#[trigger] self.options(j)).len() <= old.options(j).len()
    }

    /// Every cell that `origin` names or whose options changed since `old`
    /// constrains all four of its neighbours.
    pub open spec fn settled_from(&self, old: Grid, origin: int) -> bool {
        forall|c: int, d: Direction|
            0 <= c < self.size() && (c == origin || self.options(c) != old.options(c)) ==> #[trigger] self.supports(c, d)
    }

    /// The options of every cell, as a function of the cell index.
    pub open spec fn options_fn(&self) -> spec_fn(int) -> Set<usize> {
        |j: int| self.options(j)
    }

    /// `opts` gives each cell a subset of its options in `base`, and every
    /// cell that `origin` names or where `opts` differs from `base`
    /// constrains, under `opts`, each of its neighbours that is not resolved.
    pub open spec fn admissible(&self, base: spec_fn(int) -> Set<usize>, origin: int, opts: spec_fn(int) -> Set<usize>) -> bool {
        &&& forall|j: int| 0 <= j < self.size() ==> (#[trigger] opts(j)).subset_of(base(j))
        &&& forall|c: int, d: Direction|
            0 <= c < self.size() && (c == origin || opts(c) != base(c)) ==> (self.resolved(#[trigger] self.neighbor(c, d)) is Some
                || opts(self.neighbor(c, d)).subset_of(self.allowed(opts(c), d)))
    }

    proof fn lemma_allowed_mono(&self, s1: Set<usize>, s2: Set<usize>, d: Direction)
        requires
            s1.subset_of(s2),
        ensures
            self.allowed(s1, d).subset_of(self.allowed(s2, d)),
    {
        assert forall|u: usize| self.allowed(s1, d).contains(u) implies self.allowed(s2, d).contains(u) by {
            let t = choose|t: usize| s1.contains(t) && #[trigger] self.model().adjacent(t as int, d).contains(u);
            assert(s2.contains(t));
        }
    }

    /// Sum of the frequencies of the options of cell `index`.
    fn option_weight(&self, index: usize) -> (r: usize)
        requires
            self.wf(),
            index < self.size(),
        ensures
            r == self.weight(index as int),
    {
        let count: usize = self.tileset.len();
        let ghost freqs = self.model().frequencies();
        let ghost opts = self.options(index as int);
        let mut acc: usize = 0;
        let mut t: usize = 0;
        while t < count
            invariant
                self.wf(),
                index < self.size(),
                count == self.model().count(),
                freqs == self.model().frequencies(),
                opts == self.options(index as int),
                t <= count,
                acc == weight_below(freqs, opts, t as nat),
            decreases count - t,
        {
            proof {
                lemma_weight_bound(freqs, opts, (t + 1) as nat);
                assert(freqs.take(count as int) =~= freqs);
                lemma_weight_bound(freqs, opts, count as nat);
                crate::tileset::lemma_sum_take(freqs, (t + 1) as nat);
            }
            if set_contains(&self.cells[index].options, t) {
                acc = acc + self.tileset.frequency(t);
            }
            t += 1;
        }
        acc
    }

    /// The option of cell `index` that `r` selects, each option weighted by
    /// its frequency.
    fn pick(&self, index: usize, r: usize) -> (t: usize)
        requires
            self.wf(),
            index < self.size(),
            r < self.weight(index as int),
        ensures
            chosen(self.model().frequencies(), self.options(index as int), r as nat, t),
    {
        let count: usize = self.tileset.len();
        let ghost freqs = self.model().frequencies();
        let ghost opts = self.options(index as int);
        let mut acc: usize = 0;
        let mut t: usize = 0;
        while t < count
            invariant
                self.wf(),
                index < self.size(),
                count == self.model().count(),
                freqs == self.model().frequencies(),
                opts == self.options(index as int),
                r < weight_below(freqs, opts, count as nat),
                t <= count,
                acc == weight_below(freqs, opts, t as nat),
                acc <= r,
            decreases count - t,
        {
            proof {
                lemma_weight_mono(freqs, opts, (t + 1) as nat, count as nat);
                assert(freqs.take(count as int) =~= freqs);
                lemma_weight_bound(freqs, opts, count as nat);
            }
            if set_contains(&self.cells[index].options, t) {
                let f: usize = self.tileset.frequency(t);
                if r < acc + f {
                    return t;
                }
                acc = acc + f;
            }
            t += 1;
        }
        proof {
            assert(false);
        }
        0
    }

    /// The tiles that the options of cell `c` allow next to it in direction `d`.
    fn allowed_from(&self, c: usize, d: Direction) -> (r: BitSet)
        requires
            self.wf(),
            c < self.size(),
        ensures
            members(r) == self.allowed(self.options(c as int), d),
    {
        let count: usize = self.tileset.len();
        let ghost opts = self.options(c as int);
        let mut acc: BitSet = set_empty();
        let mut t: usize = 0;
        while t < count
            invariant
                self.wf(),
                c < self.size(),
                count == self.model().count(),
                opts == self.options(c as int),
                t <= count,
                members(acc) == Set::new(
                    |u: usize| exists|s: usize| s < t && opts.contains(s) && #[trigger] self.model().adjacent(s as int, d).contains(u),
                ),
            decreases count - t,
        {
            if set_contains(&self.cells[c].options, t) {
                let next: BitSet = set_union(&acc, self.tileset.adjacency(t, d));
                acc = next;
            }
            proof {
                assert forall|u: usize| #[trigger] members(acc).contains(u) <==>
                    exists|s: usize| s < t + 1 && opts.contains(s) && #[trigger] self.model().adjacent(s as int, d).contains(u) by {
                    if exists|s: usize| s < t + 1 && opts.contains(s) && #[trigger] self.model().adjacent(s as int, d).contains(u) {
                        let s = choose|s: usize| s < t + 1 && opts.contains(s) && #[trigger] self.model().adjacent(s as int, d).contains(u);
                        if s < t {
                            assert(members(acc).contains(u));
                        }
                    }
                }
                assert(members(acc) =~= Set::new(
                    |u: usize| exists|s: usize| s < t + 1 && opts.contains(s) && #[trigger] self.model().adjacent(s as int, d).contains(u),
                ));
            }
            t += 1;
        }
        proof {
            assert forall|u: usize| #[trigger] members(acc).contains(u) <==> self.allowed(opts, d).contains(u) by {
                if self.allowed(opts, d).contains(u) {
                    let s = choose|s: usize| opts.contains(s) && #[trigger] self.model().adjacent(s as int, d).contains(u);
                    assert(opts.subset_of(ids(count as nat)));
                }
            }
            assert(members(acc) =~= self.allowed(opts, d));
        }
        acc
    }

    /// Narrows the options of the cells around `origin` until every cell that
    /// changed, and `origin` itself, constrains its four neighbours; stops at
    /// the first cell left without options and reports it. Resolved cells are
    /// never narrowed.
    pub fn propagate(&mut self, origin: usize) -> (r: Option<usize>)
        requires
            old(self).wf(),
            old(self).failed() is None,
            origin < old(self).size(),
        ensures
            final(self).wf(),
            final(self).narrowed_from(*old(self)),
            final(self).unresolved_set() == old(self).unresolved_set(),
            r == final(self).failed(),
            match r {
                Some(c) => final(self).options(c as int).len() == 0,
                None => final(self).settled_from(*old(self), origin as int),
            },
            forall|opts: spec_fn(int) -> Set<usize>| #[trigger] old(self).admissible(old(self).options_fn(), origin as int, opts)
                ==> forall|j: int| 0 <= j < old(self).size() ==> (#[trigger] opts(j)).subset_of(final(self).options(j)),
    {
        let n: usize = self.width * self.height;
        let ghost start = *self;
        let mut queued: Vec<bool> = Vec::new();
        let mut k: usize = 0;
        while k < n
            invariant
                k <= n,
                queued@.len() == k,
                forall|j: int| 0 <= j < k ==> !#[trigger] queued@[j],
            decreases n - k,
        {
            queued.push(false);
            k += 1;
        }
        let mut stack: Vec<usize> = Vec::new();
        stack.push(origin);
        let ghost q0 = queued@;
        queued[origin] = true;
        proof {
            assert(stack@[0] == origin);
            assert(stack@.contains(origin));
            assert forall|j: int| 0 <= j < n && #[trigger] queued@[j] implies stack@.contains(j as usize) by {
                if j != origin {
                    assert(queued@[j] == q0[j]);
                    assert(!q0[j]);
                }
            }
        }
        while stack.len() > 0
            invariant
                n == self.size(),
                self.wf(),
                self.failed() is None,
                self.narrowed_from(start),
                self.unresolved_set() == start.unresolved_set(),
                start == *old(self),
                origin < n,
                forall|i: int| 0 <= i < stack@.len() ==> stack@[i] == origin
                    || self.options(#[trigger] stack@[i] as int) != start.options(stack@[i] as int),
                forall|opts: spec_fn(int) -> Set<usize>| #[trigger] start.admissible(start.options_fn(), origin as int, opts)
                    ==> forall|j: int| 0 <= j < n ==> (#[trigger] opts(j)).subset_of(self.options(j)),
                queued@.len() == n,
                forall|i: int| 0 <= i < stack@.len() ==> #[trigger] stack@[i] < n,
                forall|j: int| 0 <= j < n && #[trigger] queued@[j] ==> stack@.contains(j as usize),
                forall|c: int, d: Direction|
                    0 <= c < n && !queued@[c] && (c == origin || self.options(c) != start.options(c))
                    ==> #[trigger] self.supports(c, d),
            decreases options_total(self.cells@), stack@.len(),
        {
            let ghost total0 = options_total(self.cells@);
            let ghost len0 = stack@.len();
            let ghost stack0 = stack@;
            let c: usize = match stack.pop() {
                Some(c) => c,
                None => {
                    proof {
                        assert(false);
                    }
                    0
                },
            };
            let ghost queued0 = queued@;
            queued[c] = false;
            proof {
                assert(stack0.last() == c);
                assert(stack0[stack0.len() - 1] == c);
                assert forall|i: int| 0 <= i < stack@.len() implies stack@[i] == origin
                    || self.options(#[trigger] stack@[i] as int) != start.options(stack@[i] as int) by {
                    assert(stack@[i] == stack0[i]);
                }
                assert forall|j: int| 0 <= j < n && #[trigger] queued@[j] implies stack@.contains(j as usize) by {
                    assert(queued0[j]);
                    assert(j != c);
                    assert(stack0.contains(j as usize));
                    let i = choose|i: int| 0 <= i < stack0.len() && stack0[i] == j as usize;
                    assert(i != stack0.len() - 1);
                    assert(stack@[i] == j as usize);
                }
            }
            let mut di: usize = 0;
            while di < 4
                invariant
                    n == self.size(),
                    self.wf(),
                    self.failed() is None,
                    self.narrowed_from(start),
                    self.unresolved_set() == start.unresolved_set(),
                    start == *old(self),
                    origin < n,
                    c < n,
                    c == origin || self.options(c as int) != start.options(c as int),
                    forall|i: int| 0 <= i < stack@.len() ==> stack@[i] == origin
                        || self.options(#[trigger] stack@[i] as int) != start.options(stack@[i] as int),
                    forall|opts: spec_fn(int) -> Set<usize>| #[trigger] start.admissible(start.options_fn(), origin as int, opts)
                        ==> forall|j: int| 0 <= j < n ==> (#[trigger] opts(j)).subset_of(self.options(j)),
                    di <= 4,
                    queued@.len() == n,
                    forall|i: int| 0 <= i < stack@.len() ==> #[trigger] stack@[i] < n,
                    forall|j: int| 0 <= j < n && #[trigger] queued@[j] ==> stack@.contains(j as usize),
                    forall|c2: int, d: Direction|
                        0 <= c2 < n && c2 != c && !queued@[c2] && (c2 == origin || self.options(c2) != start.options(c2))
                        ==> #[trigger] self.supports(c2, d),
                    forall|d: Direction| d.ord() < di && !queued@[c as int] ==> #[trigger] self.supports(c as int, d),
                    options_total(self.cells@) <= total0,
                    options_total(self.cells@) + stack@.len() + 1 <= total0 + len0,
                decreases 4 - di,
            {
                let d: Direction = Direction::from_index(di);
                let nb: usize = self.get_neighbor(c, d);
                if self.cells[nb].resolved.is_none() {
                    let allowed: BitSet = self.allowed_from(c, d);
                    let narrowed: BitSet = set_intersection(&self.cells[nb].options, &allowed);
                    let before_len: usize = set_len(&self.cells[nb].options);
                    let after_len: usize = set_len(&narrowed);
                    let ghost nset = members(narrowed);
                    let ghost prev = *self;
                    if after_len < before_len {
                        if after_len == 0 {
                            self.contradiction = Some(nb);
                        }
                        self.cells[nb].options = narrowed;
                        proof {
                            self.lemma_narrow_step(prev, start, nb as int, nset, c as int, d, origin as int);
                            assert forall|i: int| 0 <= i < stack@.len() implies stack@[i] == origin
                                || self.options(#[trigger] stack@[i] as int) != start.options(stack@[i] as int) by {
                                if stack@[i] != nb {
                                    assert(self.options(stack@[i] as int) == prev.options(stack@[i] as int));
                                }
                            }
                            if c != nb {
                                assert(self.options(c as int) == prev.options(c as int));
                            }
                        }
                        if after_len == 0 {
                            return Some(nb);
                        }
                        if !queued[nb] {
                            let ghost st = stack@;
                            let ghost qu = queued@;
                            queued[nb] = true;
                            stack.push(nb);
                            proof {
                                assert(stack@[stack@.len() - 1] == nb);
                                assert forall|i: int| 0 <= i < stack@.len() implies stack@[i] == origin
                                    || self.options(#[trigger] stack@[i] as int) != start.options(stack@[i] as int) by {
                                    if i < st.len() {
                                        assert(stack@[i] == st[i]);
                                    }
                                }
                                assert forall|j: int| 0 <= j < n && #[trigger] queued@[j] implies stack@.contains(j as usize) by {
                                    if j != nb {
                                        assert(qu[j]);
                                        assert(st.contains(j as usize));
                                        let i = choose|i: int| 0 <= i < st.len() && st[i] == j as usize;
                                        assert(stack@[i] == j as usize);
                                    }
                                }
                            }
                        }
                        proof {
                            assert(queued@[nb as int]);
                            assert forall|c2: int, e: Direction|
                                0 <= c2 < n && c2 != c && !queued@[c2] && (c2 == origin || self.options(c2) != start.options(c2))
                                implies #[trigger] self.supports(c2, e) by {
                                assert(c2 != nb);
                                assert(self.options(c2) == prev.options(c2));
                                assert(prev.supports(c2, e));
                            }
                            assert forall|e: Direction| e.ord() < di && !queued@[c as int] implies #[trigger] self.supports(c as int, e) by {
                                assert(c != nb);
                                assert(prev.supports(c as int, e));
                            }
                            if !queued@[c as int] {
                                assert(c != nb);
                                assert(self.supports(c as int, d));
                            }
                        }
                    } else {
                        proof {
                            vstd::set_lib::lemma_len_subset(nset, self.options(nb as int));
                            vstd::set_lib::lemma_subset_equality(nset, self.options(nb as int));
                            assert(self.supports(c as int, d));
                        }
                    }
                } else {
                    assert(self.supports(c as int, d));
                }
                proof {
                    assert forall|e: Direction| e.ord() < di + 1 && !queued@[c as int] implies #[trigger] self.supports(c as int, e) by {
                        if e.ord() == di {
                            assert(e == d);
                        }
                    }
                }
                di += 1;
            }
        }
        None
    }

    proof fn lemma_neighbor_in_grid(&self, i: int, d: Direction)
        requires
            self.wf(),
            0 <= i < self.size(),
        ensures
            0 <= self.neighbor(i, d) < self.size(),
    {
        let w = self.width_spec() as int;
        let h = self.height_spec() as int;
        let x = wrap(i % w + d.dx(), w);
        let y = wrap(i / w + d.dy(), h);
        lemma_fundamental_div_mod(i, w);
        assert(i / w < h) by (nonlinear_arith)
            requires i == w * (i / w) + i % w, i < w * h, 0 <= i % w, w > 0;
        assert(i / w >= 0) by (nonlinear_arith)
            requires i == w * (i / w) + i % w, i >= 0, i % w < w, w > 0;
        lemma_wrap(i % w + d.dx(), w);
        lemma_wrap(i / w + d.dy(), h);
        assert(0 <= x + y * w < w * h) by (nonlinear_arith)
            requires 0 <= x < w, 0 <= y < h;
    }

    /// One narrowing of cell `nb` from `prev` to `self` keeps the grid's
    /// invariant and leaves every other cell's constraints in place.
    proof fn lemma_narrow_step(&self, prev: Grid, start: Grid, nb: int, nset: Set<usize>, c: int, d: Direction, origin: int)
        requires
            c == origin || prev.options(c) != start.options(c),
            forall|opts: spec_fn(int) -> Set<usize>| #[trigger] start.admissible(start.options_fn(), origin, opts)
                ==> forall|j: int| 0 <= j < prev.size() ==> (#[trigger] opts(j)).subset_of(prev.options(j)),
            prev.wf(),
            prev.failed() is None,
            prev.narrowed_from(start),
            0 <= c < prev.size(),
            nb == prev.neighbor(c, d),
            0 <= nb < prev.size(),
            prev.resolved(nb) is None,
            nset == prev.options(nb).intersect(prev.allowed(prev.options(c), d)),
            nset.len() < prev.options(nb).len(),
            self.tileset == prev.tileset,
            self.width == prev.width,
            self.height == prev.height,
            self.unresolved == prev.unresolved,
            self.contradiction == if nset.len() == 0 {
                Some(nb as usize)
            } else {
                None
            },
            self.cells@.len() == prev.cells@.len(),
            self.cells@ == prev.cells@.update(nb, Cell { resolved: None, options: self.cells@[nb].options }),
            members(self.cells@[nb].options) == nset,
        ensures
            self.wf(),
            self.narrowed_from(start),
            self.unresolved_set() == prev.unresolved_set(),
            options_total(self.cells@) + 1 <= options_total(prev.cells@),
            self.options(nb) != start.options(nb),
            nb != c ==> self.supports(c, d),
            forall|c2: int, e: Direction| 0 <= c2 < prev.size() && c2 != nb && #[trigger] prev.supports(c2, e) ==> self.supports(c2, e),
            forall|j: int| 0 <= j < prev.size() && j != nb ==> #[trigger] self.options(j) == prev.options(j),
            forall|opts: spec_fn(int) -> Set<usize>| #[trigger] start.admissible(start.options_fn(), origin, opts)
                ==> forall|j: int| 0 <= j < prev.size() ==> (#[trigger] opts(j)).subset_of(self.options(j)),
    {
        assert forall|opts: spec_fn(int) -> Set<usize>| #[trigger] start.admissible(start.options_fn(), origin, opts)
            implies forall|j: int| 0 <= j < prev.size() ==> (#[trigger] opts(j)).subset_of(self.options(j)) by {
            assert forall|j: int| 0 <= j < prev.size() implies (#[trigger] opts(j)).subset_of(self.options(j)) by {
                assert(opts(j).subset_of(prev.options(j)));
                if j == nb {
                    assert(opts(c).subset_of(prev.options(c)));
                    assert(prev.options(c).subset_of(start.options(c)));
                    if c != origin && opts(c) == start.options(c) {
                        assert(prev.options(c) =~= start.options(c));
                    }
                    assert(start.options_fn()(c) == start.options(c));
                    assert(start.neighbor(c, d) == nb);
                    assert(start.resolved(nb) == prev.resolved(nb));
                    assert(opts(nb).subset_of(start.allowed(opts(c), d)));
                    prev.lemma_allowed_mono(opts(c), prev.options(c), d);
                    assert(start.model() == prev.model());
                    assert(start.allowed(opts(c), d) == prev.allowed(opts(c), d));
                } else {
                    assert(self.cells@[j] == prev.cells@[j]);
                }
            }
        }
        let newc = Cell { resolved: None, options: self.cells@[nb].options };
        assert(self.cells@[nb] == newc);
        assert forall|j: int| 0 <= j < self.size() && j != nb implies #[trigger] self.options(j) == prev.options(j)
            && self.resolved(j) == prev.resolved(j) by {
            assert(self.cells@[j] == prev.cells@[j]);
        }
        assert(self.resolved(nb) == prev.resolved(nb));
        assert forall|j: int| 0 <= j < self.size() implies (#[trigger] self.options(j)).subset_of(ids(self.model().count()))
            && self.options(j).finite() && match self.resolved(j) {
                Some(t) => self.options(j) == Set::<usize>::empty().insert(t),
                None => true,
            } by {
            if j != nb {
                assert(self.options(j) == prev.options(j));
                assert(self.resolved(j) == prev.resolved(j));
            } else {
                assert(prev.options(j).subset_of(ids(prev.model().count())));
            }
        }
        lemma_options_total_update(prev.cells@, nb, newc);
        vstd::set_lib::lemma_len_subset(nset, prev.options(nb));
        assert forall|j: int| 0 <= j < self.size() implies (#[trigger] self.options(j)).subset_of(start.options(j))
            && self.options(j).len() <= start.options(j).len() && self.resolved(j) == start.resolved(j) by {
            assert(prev.options(j).subset_of(start.options(j)));
            assert(prev.options(j).len() <= start.options(j).len());
            assert(prev.resolved(j) == start.resolved(j));
            if j == nb {
                assert(self.options(j) == nset);
                assert(nset.subset_of(prev.options(j)));
            } else {
                assert(self.cells@[j] == prev.cells@[j]);
                assert(self.options(j) == prev.options(j));
            }
        }
        assert forall|j: int| 0 <= j < self.size() implies #[trigger] self.resolved(j) == start.resolved(j) by {
            assert(prev.resolved(j) == start.resolved(j));
            if j != nb {
                assert(self.resolved(j) == prev.resolved(j));
            }
        }
        assert(self.unresolved_set() =~= Set::new(|i: usize| i < self.size() && self.resolved(i as int) is None));
        assert forall|i: int| 0 <= i < self.size() && (#[trigger] self.options(i)).len() == 0 implies self.failed() == Some(i as usize) by {
            if i != nb {
                assert(prev.options(i).len() == 0);
            }
        }
        assert forall|c2: int, e: Direction| 0 <= c2 < prev.size() && c2 != nb && #[trigger] prev.supports(c2, e) implies self.supports(c2, e) by {
            let m = prev.neighbor(c2, e);
            prev.lemma_neighbor_in_grid(c2, e);
            assert(self.neighbor(c2, e) == m);
            assert(self.cells@[c2] == prev.cells@[c2]);
            assert(self.options(c2) == prev.options(c2));
            assert(self.model() == prev.model());
            assert(self.allowed(self.options(c2), e) == prev.allowed(prev.options(c2), e));
            assert(self.resolved(m) == prev.resolved(m));
            if m == nb {
                assert(self.options(m).subset_of(prev.options(m)));
            } else {
                assert(self.cells@[m] == prev.cells@[m]);
            }
        }
        if nb != c {
            assert(self.options(c) == prev.options(c));
            assert(self.allowed(self.options(c), d) == prev.allowed(prev.options(c), d));
        }
    }
}

proof fn lemma_weight_positive(freqs: Seq<usize>, opts: Set<usize>, t: usize, n: nat)
    requires
        t < n <= freqs.len(),
        opts.contains(t),
        freqs[t as int] >= 1,
    ensures
        weight_below(freqs, opts, n) >= 1,
{
    lemma_weight_mono(freqs, opts, (t + 1) as nat, n);
}

impl Grid {
    /// `self` is `old` after one collapse of cell `i` and its propagation,
    /// reported as `r`.
    pub open spec fn collapsed_from(&self, old: Grid, i: int, r: StepResult) -> bool {
        &&& self.model() == old.model()
        &&& self.width_spec() == old.width_spec()
        &&& self.height_spec() == old.height_spec()
        &&& self.resolved(i) is Some
        &&& old.options(i).contains(self.resolved(i)->Some_0)
        &&& forall|j: int| 0 <= j < self.size() && j != i ==> #[trigger] self.resolved(j) == old.resolved(j)
        &&& forall|j: int| 0 <= j < self.size() ==> (#[trigger] self.options(j)).subset_of(old.options(j))
        &&& r == match self.failed() {
            Some(c) => StepResult::Contradiction(c),
            None => StepResult::Advanced,
        }
        &&& self.failed() is None ==> self.settled_from(old, i)
        &&& match self.failed() {
            Some(c) => self.options(c as int).len() == 0,
            None => true,
        }
        &&& forall|opts: spec_fn(int) -> Set<usize>| #[trigger] self.admissible(old.base_after(i, self.resolved(i)->Some_0), i, opts)
            ==> forall|j: int| 0 <= j < self.size() ==> (#[trigger] opts(j)).subset_of(self.options(j))
    }

    /// The options of `self` once cell `i` is narrowed to tile `t` alone.
    pub open spec fn base_after(&self, i: int, t: usize) -> spec_fn(int) -> Set<usize> {
        |j: int| if j == i {
            Set::<usize>::empty().insert(t)
        } else {
            self.options(j)
        }
    }

    /// Two grids over the same model and of the same size hold the same cells.
    pub open spec fn same_cells(&self, other: Grid) -> bool {
        &&& self.model() == other.model()
        &&& self.width_spec() == other.width_spec()
        &&& self.height_spec() == other.height_spec()
        &&& self.failed() == other.failed()
        &&& forall|j: int| 0 <= j < self.size() ==> #[trigger] self.options(j) == other.options(j)
        &&& forall|j: int| 0 <= j < self.size() ==> #[trigger] self.resolved(j) == other.resolved(j)
    }

    proof fn lemma_min_cell_unique(&self, i: int, j: int)
        requires
            self.is_min_cell(i),
            self.is_min_cell(j),
        ensures
            i == j,
    {
        if i < j {
            assert(self.resolved(i) is None);
        } else if j < i {
            assert(self.resolved(j) is None);
        }
    }

    /// One collapse step with `draw` as its random input. A halted grid
    /// reports its contradiction again and a complete one reports `Complete`,
    /// both unchanged. Otherwise the unresolved cell with the fewest options
    /// (the lowest index among equals) is resolved to the option that
    /// `draw` modulo the options' total frequency selects, and the
    /// consequence is propagated.
    pub fn step_with(&mut self, draw: usize) -> (r: StepResult)
        requires
            old(self).wf(),
        ensures
            final(self).wf(),
            final(self).model() == old(self).model(),
            final(self).width_spec() == old(self).width_spec(),
            final(self).height_spec() == old(self).height_spec(),
            old(self).failed() is Some ==> r == StepResult::Contradiction(old(self).failed()->Some_0)
                && *final(self) == *old(self),
            old(self).failed() is None && old(self).unresolved_set() == Set::<usize>::empty()
                ==> r == StepResult::Complete && *final(self) == *old(self),
            old(self).failed() is None && old(self).unresolved_set() != Set::<usize>::empty()
                ==> forall|i: int| #[trigger] old(self).is_min_cell(i) ==> final(self).collapsed_from(*old(self), i, r)
                    && old(self).drawn(i, final(self).resolved(i)->Some_0, draw as nat),
    {
        if let Some(c) = self.contradiction {
            return StepResult::Contradiction(c);
        }
        let i: usize = match self.min_cell() {
            None => {
                proof {
                    assert(self.unresolved_set() =~= Set::<usize>::empty());
                }
                return StepResult::Complete;
            },
            Some(i) => i,
        };
        let ghost before = *self;
        let count: usize = self.tileset.len();
        let w: usize = self.option_weight(i);
        if w == 0 {
            proof {
                assert(self.options(i as int).len() != 0);
                vstd::set_lib::lemma_set_empty_equivalency_len(self.options(i as int));
                let t = choose|t: usize| self.options(i as int).contains(t);
                assert(self.options(i as int).subset_of(ids(count as nat)));
                lemma_weight_positive(self.model().frequencies(), self.options(i as int), t, count as nat);
            }
            return StepResult::Contradiction(i);
        }
        let t: usize = self.pick(i, draw % w);
        proof {
            assert(self.options(i as int).subset_of(ids(count as nat)));
        }
        let mut single: BitSet = set_empty();
        set_insert(&mut single, t);
        self.cells[i] = Cell { resolved: Some(t), options: single };
        set_remove(&mut self.unresolved, i);
        proof {
            let mid = *self;
            assert forall|j: int| 0 <= j < mid.size() && j != i implies #[trigger] mid.options(j) == before.options(j)
                && mid.resolved(j) == before.resolved(j) by {
                assert(mid.cells@[j] == before.cells@[j]);
            }
            assert(mid.options(i as int) =~= Set::<usize>::empty().insert(t));
            assert forall|j: int| 0 <= j < mid.size() implies (#[trigger] mid.options(j)).subset_of(ids(mid.model().count()))
                && mid.options(j).finite() && match mid.resolved(j) {
                    Some(u) => mid.options(j) == Set::<usize>::empty().insert(u),
                    None => true,
                } by {
                if j != i {
                    assert(mid.options(j) == before.options(j));
                }
            }
            assert(mid.unresolved_set() =~= Set::new(|j: usize| j < mid.size() && mid.resolved(j as int) is None));
            assert forall|j: int| 0 <= j < mid.size() && (#[trigger] mid.options(j)).len() == 0 implies mid.failed() == Some(j as usize) by {
                if j != i {
                    assert(before.options(j).len() == 0);
                } else {
                    assert(mid.options(j).contains(t));
                }
            }
        }
        let ghost mid = *self;
        let res: Option<usize> = self.propagate(i);
        proof {
            assert forall|k: int| #[trigger] before.is_min_cell(k) implies self.collapsed_from(before, k, match res {
                Some(c) => StepResult::Contradiction(c),
                None => StepResult::Advanced,
            }) && before.drawn(k, self.resolved(k)->Some_0, draw as nat) by {
                before.lemma_min_cell_unique(k, i as int);
                assert(mid.options(i as int).contains(t));
                assert forall|j: int| 0 <= j < self.size() implies (#[trigger] self.options(j)).subset_of(before.options(j)) by {
                    assert(self.options(j).subset_of(mid.options(j)));
                    if j != i {
                        assert(mid.options(j) == before.options(j));
                    }
                }
                assert forall|j: int| 0 <= j < self.size() && j != i implies #[trigger] self.resolved(j) == before.resolved(j) by {
                    assert(self.resolved(j) == mid.resolved(j));
                    assert(mid.resolved(j) == before.resolved(j));
                }
                assert forall|j: int| 0 <= j < mid.size() implies #[trigger] mid.options_fn()(j) == before.base_after(i as int, t)(j) by {
                    if j == i {
                        assert(mid.options(j) =~= Set::<usize>::empty().insert(t));
                    } else {
                        assert(mid.options(j) == before.options(j));
                    }
                }
                assert forall|opts: spec_fn(int) -> Set<usize>| #[trigger] self.admissible(before.base_after(i as int, t), i as int, opts)
                    implies forall|j: int| 0 <= j < self.size() ==> (#[trigger] opts(j)).subset_of(self.options(j)) by {
                    let b = before.base_after(i as int, t);
                    assert forall|c: int, d: Direction| 0 <= c < mid.size() && (c == i || opts(c) != b(c))
                        implies (mid.resolved(#[trigger] mid.neighbor(c, d)) is Some
                        || opts(mid.neighbor(c, d)).subset_of(mid.allowed(opts(c), d))) by {
                        let m = mid.neighbor(c, d);
                        mid.lemma_neighbor_in_grid(c, d);
                        assert(self.neighbor(c, d) == m);
                        assert(self.resolved(m) == mid.resolved(m));
                    }
                    assert(mid.admissible(mid.options_fn(), i as int, opts));
                }
                if self.failed() is None {
                    assert forall|c: int, d: Direction|
                        0 <= c < self.size() && (c == i || self.options(c) != before.options(c)) implies #[trigger] self.supports(c, d) by {
                        if c != i {
                            assert(mid.options(c) == before.options(c));
                        }
                    }
                }
                assert(self.resolved(i as int) == mid.resolved(i as int));
            }
        }
        match res {
            Some(c) => StepResult::Contradiction(c),
            None => StepResult::Advanced,
        }
    }

    /// One collapse step whose random input is drawn from `rng`: below the
    /// total frequency of the chosen cell's options, so every option can be
    /// drawn with a chance proportional to its frequency.
    pub fn step(&mut self, rng: &mut StdRng) -> (r: StepResult)
        requires
            old(self).wf(),
        ensures
            final(self).wf(),
            final(self).model() == old(self).model(),
            final(self).width_spec() == old(self).width_spec(),
            final(self).height_spec() == old(self).height_spec(),
            old(self).failed() is Some ==> r == StepResult::Contradiction(old(self).failed()->Some_0)
                && *final(self) == *old(self),
            old(self).failed() is None && old(self).unresolved_set() == Set::<usize>::empty()
                ==> r == StepResult::Complete && *final(self) == *old(self),
            old(self).failed() is None && old(self).unresolved_set() != Set::<usize>::empty()
                ==> forall|i: int| #[trigger] old(self).is_min_cell(i) ==> final(self).collapsed_from(*old(self), i, r),
    {
        let w: usize = match self.min_cell() {
            Some(i) => self.option_weight(i),
            None => 0,
        };
        let draw: usize = if w > 0 {
            draw_below(rng, w)
        } else {
            0
        };
        self.step_with(draw)
    }
}

impl Grid {
    pub fn width(&self) -> (r: usize)
        ensures
            r == self.width_spec(),
    {
        self.width
    }

    pub fn height(&self) -> (r: usize)
        ensures
            r == self.height_spec(),
    {
        self.height
    }

    /// The adjacency model the grid was built over.
    pub fn tileset(&self) -> (r: &TileSet)
        ensures
            *r == self.model(),
    {
        &self.tileset
    }
}

/// A cell is left without options only when the step that emptied it
/// reported a contradiction naming that very cell.
pub proof fn lemma_empty_cell_reported(before: Grid, after: Grid, i: int, k: int, r: StepResult)
    requires
        after.wf(),
        after.collapsed_from(before, k, r),
        0 <= i < after.size(),
        after.options(i).len() == 0,
    ensures
        r == StepResult::Contradiction(i as usize),
{
}

/// Every cell holds at least one option unless the grid halted on it, and a
/// resolved cell holds exactly its own tile.
pub proof fn lemma_cell_invariants(g: Grid, i: int)
    requires
        g.wf(),
        0 <= i < g.size(),
    ensures
        g.options(i).len() > 0 || g.failed() == Some(i as usize),
        match g.resolved(i) {
            Some(t) => g.options(i).len() == 1 && g.options(i).contains(t),
            None => true,
        },
{
    if let Some(t) = g.resolved(i) {
        assert(g.options(i) == Set::<usize>::empty().insert(t));
    }
}

/// A propagation never widens a cell: each cell's option count after it is at
/// most its count before.
pub proof fn lemma_propagation_monotone(before: Grid, after: Grid, i: int)
    requires
        after.narrowed_from(before),
        0 <= i < after.size(),
    ensures
        after.options(i).len() <= before.options(i).len(),
        after.options(i).subset_of(before.options(i)),
{
}

proof fn lemma_chosen_unique(freqs: Seq<usize>, opts: Set<usize>, r: nat, t1: usize, t2: usize)
    requires
        chosen(freqs, opts, r, t1),
        chosen(freqs, opts, r, t2),
    ensures
        t1 == t2,
{
    if t1 < t2 {
        lemma_weight_mono(freqs, opts, (t1 + 1) as nat, t2 as nat);
    } else if t2 < t1 {
        lemma_weight_mono(freqs, opts, (t2 + 1) as nat, t1 as nat);
    }
}

/// Generation is deterministic: two grids that hold the same cells, stepped
/// with the same draw, resolve the same cell to the same tile; either both
/// steps advance, and the grids again hold the same cells, or neither does.
pub proof fn lemma_step_deterministic(
    g1: Grid, g2: Grid, a1: Grid, a2: Grid, i: int, draw: nat, r1: StepResult, r2: StepResult,
)
    requires
        g1.wf(),
        g2.wf(),
        g1.same_cells(g2),
        g1.is_min_cell(i),
        a1.wf(),
        a2.wf(),
        a1.collapsed_from(g1, i, r1),
        a2.collapsed_from(g2, i, r2),
        g1.drawn(i, a1.resolved(i)->Some_0, draw),
        g2.drawn(i, a2.resolved(i)->Some_0, draw),
    ensures
        forall|j: int| 0 <= j < g1.size() ==> #[trigger] a1.resolved(j) == a2.resolved(j),
        (r1 == StepResult::Advanced) == (r2 == StepResult::Advanced),
        r1 == StepResult::Advanced ==> a1.same_cells(a2),
{
    let t = a1.resolved(i)->Some_0;
    lemma_chosen_unique(g1.model().frequencies(), g1.options(i), draw % g1.weight(i), t, a2.resolved(i)->Some_0);
    assert forall|j: int| 0 <= j < g1.size() implies #[trigger] a1.resolved(j) == a2.resolved(j) by {
        if j != i {
            assert(g1.resolved(j) == g2.resolved(j));
        }
    }
    lemma_settled_admissible(g1, a1, a2, i, t, g2.base_after(i, t));
    lemma_settled_admissible(g2, a2, a1, i, t, g1.base_after(i, t));
    if r1 == StepResult::Advanced {
        assert(a2.failed() is None) by {
            if let Some(c) = a2.failed() {
                assert(a1.options_fn()(c as int).subset_of(a2.options(c as int)));
                assert(a2.options(c as int) =~= Set::<usize>::empty());
                assert(a1.options(c as int) =~= Set::<usize>::empty());
            }
        }
    }
    if r2 == StepResult::Advanced {
        assert(a1.failed() is None) by {
            if let Some(c) = a1.failed() {
                assert(a2.options_fn()(c as int).subset_of(a1.options(c as int)));
                assert(a1.options(c as int) =~= Set::<usize>::empty());
                assert(a2.options(c as int) =~= Set::<usize>::empty());
            }
        }
    }
    if r1 == StepResult::Advanced {
        assert forall|j: int| 0 <= j < a1.size() implies #[trigger] a1.options(j) == a2.options(j) by {
            assert(a1.options_fn()(j).subset_of(a2.options(j)));
            assert(a2.options_fn()(j).subset_of(a1.options(j)));
            assert(a1.options(j) =~= a2.options(j));
        }
    }
}

/// A grid that advanced from `g` by collapsing cell `i` to `t` is, in the
/// frame of any other such grid `other`, an admissible narrowing; so when
/// it advanced, its options lie within those of `other`.
proof fn lemma_settled_admissible(g: Grid, a: Grid, other: Grid, i: int, t: usize, b: spec_fn(int) -> Set<usize>)
    requires
        g.wf(),
        0 <= i < g.size(),
        forall|j: int| 0 <= j < g.size() ==> #[trigger] b(j) == g.base_after(i, t)(j),
        a.wf(),
        other.wf(),
        a.collapsed_from(g, i, if a.failed() is None { StepResult::Advanced } else { StepResult::Contradiction(a.failed()->Some_0) }),
        a.resolved(i) == Some(t),
        other.model() == a.model(),
        other.width_spec() == a.width_spec(),
        other.height_spec() == a.height_spec(),
        forall|j: int| 0 <= j < a.size() ==> #[trigger] a.resolved(j) == other.resolved(j),
        forall|opts: spec_fn(int) -> Set<usize>| #[trigger] other.admissible(b, i, opts)
            ==> forall|j: int| 0 <= j < other.size() ==> (#[trigger] opts(j)).subset_of(other.options(j)),
    ensures
        a.failed() is None ==> forall|j: int| 0 <= j < a.size() ==> (#[trigger] a.options_fn()(j)).subset_of(other.options(j)),
{
    if a.failed() is None {
        let opts = a.options_fn();
        assert forall|j: int| 0 <= j < other.size() implies (#[trigger] opts(j)).subset_of(b(j)) by {
            assert(b(j) == g.base_after(i, t)(j));
            if j == i {
                assert(a.options(i) == Set::<usize>::empty().insert(t));
            }
        }
        assert forall|c: int, d: Direction| 0 <= c < other.size() && (c == i || opts(c) != b(c))
            implies (other.resolved(#[trigger] other.neighbor(c, d)) is Some
            || opts(other.neighbor(c, d)).subset_of(other.allowed(opts(c), d))) by {
            assert(b(c) == g.base_after(i, t)(c));
            assert(a.supports(c, d));
            a.lemma_neighbor_in_grid(c, d);
        }
        assert(other.admissible(b, i, opts));
    }
}

} // verus!
