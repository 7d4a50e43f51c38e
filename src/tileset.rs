//! The adjacency model: tiles cut from a source raster and, for each tile and
//! direction, the set of tiles that may sit next to it.
use vstd::prelude::*;
use vstd::arithmetic::div_mod::lemma_fundamental_div_mod;
use bittyset::BitSet;
use crate::bitset::{members, set_contains, set_elements, set_empty, set_insert};

verus! {

/// One of the four grid directions.
#[derive(Clone, Copy, PartialEq, Eq, Structural, Debug)]
pub enum Direction {
    North,
    East,
    South,
    West,
}

impl Direction {
    /// Position of the direction in the order North, East, South, West.
    pub open spec fn ord(self) -> int {
        match self {
            Direction::North => 0,
            Direction::East => 1,
            Direction::South => 2,
            Direction::West => 3,
        }
    }

    /// Column offset of the neighbour that lies in this direction.
    pub open spec fn dx(self) -> int {
        match self {
            Direction::East => 1,
            Direction::West => -1,
            _ => 0,
        }
    }

    /// Row offset of the neighbour that lies in this direction (rows grow southwards).
    pub open spec fn dy(self) -> int {
        match self {
            Direction::North => -1,
            Direction::South => 1,
            _ => 0,
        }
    }

    pub open spec fn from_ord(i: int) -> Direction {
        if i == 0 {
            Direction::North
        } else if i == 1 {
            Direction::East
        } else if i == 2 {
            Direction::South
        } else {
            Direction::West
        }
    }

    pub fn index(self) -> (r: usize)
        ensures
            r == self.ord(),
    {
        match self {
            Direction::North => 0,
            Direction::East => 1,
            Direction::South => 2,
            Direction::West => 3,
        }
    }

    pub fn from_index(i: usize) -> (d: Direction)
        requires
            i < 4,
        ensures
            d.ord() == i,
            d == Direction::from_ord(i as int),
    {
        if i == 0 {
            Direction::North
        } else if i == 1 {
            Direction::East
        } else if i == 2 {
            Direction::South
        } else {
            Direction::West
        }
    }
}

/// A source image as packed pixel values, row by row.
pub struct Raster {
    pub width: usize,
    pub height: usize,
    pub pixels: Vec<u32>,
}

impl Raster {
    /// The pixel at column `x`, row `y`.
    pub open spec fn pixel(&self, x: int, y: int) -> u32 {
        self.pixels@[x + y * self.width]
    }

    /// The `tw` by `th` window whose top left corner is at offset `(ox, oy)`,
    /// row by row, wrapping around both edges of the image.
    pub open spec fn window(&self, tw: nat, th: nat, ox: int, oy: int) -> Seq<u32> {
        Seq::new(
            tw * th,
            |i: int| self.pixel((ox + i % (tw as int)) % (self.width as int), (oy + i / (tw as int)) % (self.height as int)),
        )
    }

    /// The window at the `k`-th offset, offsets counted row by row.
    pub open spec fn window_at(&self, tw: nat, th: nat, k: int) -> Seq<u32> {
        self.window(tw, th, k % (self.width as int), k / (self.width as int))
    }
}

/// Why an adjacency model could not be built.
#[derive(Clone, Copy, PartialEq, Eq, Structural, Debug)]
pub enum ConstructionError {
    /// The pixel buffer does not hold `width * height` values.
    PixelCountMismatch,
    /// The tile window has no pixels.
    EmptyTileWindow,
    /// The image is not larger than the tile window along some axis.
    TileWindowTooLarge,
    /// The model would hold no tile.
    EmptyTileSet,
    /// An adjacency rule names a tile id beyond the tile count.
    UnknownTile,
}

/// Whether column `x`, row `y` of a `tw` by `th` tile lies in the band that
/// overlaps a neighbour shifted one pixel in direction `d`.
pub open spec fn in_band(x: int, y: int, tw: nat, th: nat, d: Direction) -> bool {
    0 <= x - d.dx() < tw && 0 <= y - d.dy() < th
}

/// `b` may sit next to `a` in direction `d`: once `b` is shifted one pixel in
/// `d`, every pixel of `a` that it covers matches.
pub open spec fn compatible(a: Seq<u32>, b: Seq<u32>, tw: nat, th: nat, d: Direction) -> bool {
    forall|i: int|
        0 <= i < tw * th && #[trigger] in_band(i % (tw as int), i / (tw as int), tw, th, d) ==> a[i] == b[(
        i % (tw as int) - d.dx()) + (i / (tw as int) - d.dy()) * tw]
}

/// A block of pixels cut out of the source image, with the number of offsets
/// at which it occurs.
pub struct Tile {
    pixels: Vec<u32>,
    frequency: usize,
}

impl Tile {
    fn new(pixels: Vec<u32>) -> (r: Tile)
        ensures
            r.pixels@ == pixels@,
            r.frequency == 1,
    {
        Tile { pixels, frequency: 1 }
    }

    /// Pixel-for-pixel equality.
    fn eq(&self, other: &Vec<u32>) -> (r: bool)
        ensures
            r == (self.pixels@ == other@),
    {
        if self.pixels.len() != other.len() {
            return false;
        }
        let mut i: usize = 0;
        while i < other.len()
            invariant
                self.pixels@.len() == other@.len(),
                i <= other@.len(),
                forall|j: int| 0 <= j < i ==> self.pixels@[j] == other@[j],
            decreases other@.len() - i,
        {
            if self.pixels[i] != other[i] {
                return false;
            }
            i += 1;
        }
        assert(self.pixels@ =~= other@);
        true
    }

    /// Whether `other` may sit next to this tile in direction `d`.
    fn cmp_adjacent(&self, other: &Tile, tw: usize, th: usize, d: Direction) -> (r: bool)
        requires
            tw > 0,
            th > 0,
            tw * th <= usize::MAX,
            self.pixels@.len() == tw * th,
            other.pixels@.len() == tw * th,
        ensures
            r == compatible(self.pixels@, other.pixels@, tw as nat, th as nat, d),
    {
        let n: usize = tw * th;
        let mut i: usize = 0;
        while i < n
            invariant
                n == tw * th,
                tw > 0,
                th > 0,
                i <= n,
                self.pixels@.len() == n,
                other.pixels@.len() == n,
                forall|j: int|
                    0 <= j < i && #[trigger] in_band(j % (tw as int), j / (tw as int), tw as nat, th as nat, d)
                        ==> self.pixels@[j] == other.pixels@[(j % (tw as int) - d.dx()) + (j / (tw as int) - d.dy()) * tw],
            decreases n - i,
        {
            let x: usize = i % tw;
            let y: usize = i / tw;
            proof {
                lemma_fundamental_div_mod(i as int, tw as int);
                assert(y * tw <= i) by (nonlinear_arith)
                    requires i == tw * y + x, x < tw;
                assert(y < th) by (nonlinear_arith)
                    requires i == tw * y + x, i < tw * th, x >= 0, tw > 0;
            }
            let inside: bool = match d {
                Direction::North => y + 1 < th,
                Direction::East => x >= 1,
                Direction::South => y >= 1,
                Direction::West => x + 1 < tw,
            };
            if inside {
                proof {
                    if d == Direction::North {
                        assert(i + tw == (y + 1) * tw + x && (y + 1) * tw + x < tw * th) by (nonlinear_arith)
                            requires y + 1 < th, x < tw, i == tw * y + x;
                    }
                    if d == Direction::West {
                        assert(i + 1 < tw * th) by (nonlinear_arith)
                            requires x + 1 < tw, i == tw * y + x, y < th;
                    }
                    if d == Direction::South {
                        assert(i - tw == (y - 1) * tw + x) by (nonlinear_arith)
                            requires y >= 1, i == tw * y + x;
                    }
                }
                let k: usize = match d {
                    Direction::North => i + tw,
                    Direction::East => i - 1,
                    Direction::South => i - tw,
                    Direction::West => i + 1,
                };
                proof {
                    assert((y - d.dy()) * tw == y * tw - d.dy() * tw) by (nonlinear_arith);
                    assert(y + 1 < th ==> (y + 1) * tw + x < tw * th) by (nonlinear_arith)
                        requires x < tw, tw > 0;
                    assert(k == (x - d.dx()) + (y - d.dy()) * tw);
                    assert(k < n);
                }
                if self.pixels[i] != other.pixels[k] {
                    assert(in_band((i as int) % (tw as int), (i as int) / (tw as int), tw as nat, th as nat, d));
                    return false;
                }
            }
            i += 1;
        }
        true
    }
}

/// Sum of a sequence of counts.
pub open spec fn sum(s: Seq<usize>) -> nat
    decreases s.len(),
{
    if s.len() == 0 {
        0
    } else {
        sum(s.drop_last()) + s.last() as nat
    }
}

proof fn lemma_sum_update(s: Seq<usize>, i: int, v: usize)
    requires
        0 <= i < s.len(),
    ensures
        sum(s.update(i, v)) + s[i] == sum(s) + v,
    decreases s.len(),
{
    if i < s.len() - 1 {
        lemma_sum_update(s.drop_last(), i, v);
        assert(s.update(i, v).drop_last() =~= s.drop_last().update(i, v));
    } else {
        assert(s.update(i, v).drop_last() =~= s.drop_last());
    }
}

pub(crate) proof fn lemma_sum_take(s: Seq<usize>, t: nat)
    requires
        t <= s.len(),
    ensures
        sum(s.take(t as int)) <= sum(s),
    decreases s.len(),
{
    if t < s.len() {
        lemma_sum_take(s.drop_last(), t);
        assert(s.drop_last().take(t as int) =~= s.take(t as int));
    } else {
        assert(s.take(t as int) =~= s);
    }
}

/// Number of offsets below `n` whose window is `p`.
pub open spec fn occurrences(img: Raster, tw: nat, th: nat, n: nat, p: Seq<u32>) -> nat
    decreases n,
{
    if n == 0 {
        0
    } else {
        occurrences(img, tw, th, (n - 1) as nat, p) + if img.window_at(tw, th, n - 1) == p {
            1nat
        } else {
            0nat
        }
    }
}

proof fn lemma_occurrences_none(img: Raster, tw: nat, th: nat, n: nat, p: Seq<u32>)
    requires
        forall|k: int| 0 <= k < n ==> img.window_at(tw, th, k) != p,
    ensures
        occurrences(img, tw, th, n, p) == 0,
    decreases n,
{
    if n > 0 {
        lemma_occurrences_none(img, tw, th, (n - 1) as nat, p);
    }
}

proof fn lemma_occurrences_some(img: Raster, tw: nat, th: nat, n: nat, p: Seq<u32>, j: int)
    requires
        0 <= j < n,
        img.window_at(tw, th, j) == p,
    ensures
        occurrences(img, tw, th, n, p) >= 1,
    decreases n,
{
    if j < n - 1 {
        lemma_occurrences_some(img, tw, th, (n - 1) as nat, p, j);
    }
}

proof fn lemma_occurrences_bound(img: Raster, tw: nat, th: nat, n: nat, p: Seq<u32>)
    ensures
        occurrences(img, tw, th, n, p) <= n,
    decreases n,
{
    if n > 0 {
        lemma_occurrences_bound(img, tw, th, (n - 1) as nat, p);
    }
}

/// The window at offset `(ox, oy)` of the image.
fn extract(image: &Raster, tw: usize, th: usize, ox: usize, oy: usize) -> (r: Vec<u32>)
    requires
        image.pixels@.len() == image.width * image.height,
        0 < tw < image.width,
        0 < th < image.height,
        ox < image.width,
        oy < image.height,
    ensures
        r@ == image.window(tw as nat, th as nat, ox as int, oy as int),
{
    let w: usize = image.width;
    let h: usize = image.height;
    let total: usize = image.pixels.len();
    proof {
        assert(tw * th < w * h) by (nonlinear_arith)
            requires 0 < tw < w, 0 < th < h;
        assert(2 * w <= w * h && 2 * h <= w * h) by (nonlinear_arith)
            requires 1 < w, 1 < h;
    }
    let n: usize = tw * th;
    let mut r: Vec<u32> = Vec::new();
    let mut i: usize = 0;
    while i < n
        invariant
            w == image.width,
            h == image.height,
            image.pixels@.len() == w * h,
            n == tw * th,
            n < w * h,
            w * h == total,
            2 * w <= w * h,
            2 * h <= w * h,
            0 < tw < w,
            0 < th < h,
            ox < w,
            oy < h,
            i <= n,
            r@.len() == i,
            forall|j: int| 0 <= j < i ==> r@[j] == image.window(tw as nat, th as nat, ox as int, oy as int)[j],
        decreases n - i,
    {
        let dx: usize = i % tw;
        let dy: usize = i / tw;
        proof {
            lemma_fundamental_div_mod(i as int, tw as int);
            assert(dy < th) by (nonlinear_arith)
                requires i == tw * dy + dx, i < tw * th, dx >= 0, tw > 0;
        }
        let x: usize = (ox + dx) % w;
        let y: usize = (oy + dy) % h;
        proof {
            assert(x + y * w < w * h) by (nonlinear_arith)
                requires x < w, y < h;
        }
        r.push(image.pixels[x + y * w]);
        i += 1;
    }
    assert(r@ =~= image.window(tw as nat, th as nat, ox as int, oy as int));
    r
}

/// The adjacency model: the distinct tiles of a source image, with their
/// frequencies, and for each tile and direction the tiles that may neighbour it.
pub struct TileSet {
    tile_width: usize,
    tile_height: usize,
    tiles: Vec<Tile>,
    neighbors: Vec<Vec<BitSet>>,
}

impl TileSet {
    /// Number of tiles.
    pub closed spec fn count(&self) -> nat {
        self.tiles@.len()
    }

    pub closed spec fn tile_width_spec(&self) -> nat {
        self.tile_width as nat
    }

    pub closed spec fn tile_height_spec(&self) -> nat {
        self.tile_height as nat
    }

    /// The pixels of tile `t`, row by row.
    pub closed spec fn pattern(&self, t: int) -> Seq<u32> {
        self.tiles@[t].pixels@
    }

    /// How many offsets of the source image produce tile `t`.
    pub closed spec fn frequencies(&self) -> Seq<usize> {
        self.tiles@.map_values(|tile: Tile| tile.frequency)
    }

    /// The tiles that may sit next to tile `t` in direction `d`.
    pub closed spec fn adjacent(&self, t: int, d: Direction) -> Set<usize> {
        members(self.neighbors@[t]@[d.ord()])
    }

    pub closed spec fn layout(&self) -> bool {
        &&& self.neighbors@.len() == self.tiles@.len()
        &&& forall|t: int| 0 <= t < self.neighbors@.len() ==> (#[trigger] self.neighbors@[t])@.len() == 4
    }

    /// At least one tile, every tile occurring, frequencies whose sum fits a
    /// machine word, and adjacency sets that name known tiles only.
    pub open spec fn wf(&self) -> bool {
        &&& self.layout()
        &&& self.count() >= 1
        &&& self.frequencies().len() == self.count()
        &&& forall|t: int| 0 <= t < self.count() ==> #[trigger] self.frequencies()[t] >= 1
        &&& sum(self.frequencies()) <= usize::MAX
        &&& forall|t: int, d: Direction, u: usize|
            0 <= t < self.count() && #[trigger] self.adjacent(t, d).contains(u) ==> u < self.count()
    }

    /// The tiles are the distinct windows of `img`, each listed once in the
    /// order of its first offset, with the number of offsets that produce it;
    /// a tile may neighbour another exactly where their pixels agree.
    pub open spec fn built_from(&self, img: Raster, tw: nat, th: nat) -> bool {
        let n = img.width * img.height;
        &&& self.tile_width_spec() == tw
        &&& self.tile_height_spec() == th
        &&& forall|t: int| 0 <= t < self.count() ==> occurrences(img, tw, th, n as nat, #[trigger] self.pattern(t)) >= 1
        &&& forall|k: int| #![trigger img.window_at(tw, th, k)] 0 <= k < n ==> exists|t: int| 0 <= t < self.count() && #[trigger] self.pattern(t) == img.window_at(tw, th, k)
        &&& forall|t1: int, t2: int| 0 <= t1 < self.count() && 0 <= t2 < self.count() && t1 != t2
            ==> self.pattern(t1) != self.pattern(t2)
        &&& forall|t1: int, t2: int, k: int|
            #![trigger self.pattern(t1), self.pattern(t2), img.window_at(tw, th, k)]
            0 <= t1 < t2 < self.count() && 0 <= k < n && img.window_at(tw, th, k) == self.pattern(t2)
            ==> occurrences(img, tw, th, k as nat, self.pattern(t1)) >= 1
        &&& forall|t: int| 0 <= t < self.count() ==> #[trigger] self.frequencies()[t] == occurrences(img, tw, th, n as nat, self.pattern(t))
        &&& forall|t: int, d: Direction, u: usize| 0 <= t < self.count() ==>
            (#[trigger] self.adjacent(t, d).contains(u) <==> (u < self.count() && compatible(self.pattern(t), self.pattern(u as int), tw, th, d)))
    }
}

/// Index of the tile whose pixels are `pixels`, if there is one.
fn find_tile(tiles: &Vec<Tile>, pixels: &Vec<u32>) -> (r: Option<usize>)
    ensures
        match r {
            Some(j) => j < tiles@.len() && tiles@[j as int].pixels@ == pixels@,
            None => forall|t: int| 0 <= t < tiles@.len() ==> (#[trigger] tiles@[t]).pixels@ != pixels@,
        },
{
    let mut j: usize = 0;
    while j < tiles.len()
        invariant
            j <= tiles@.len(),
            forall|t: int| 0 <= t < j ==> (#[trigger] tiles@[t]).pixels@ != pixels@,
        decreases tiles@.len() - j,
    {
        if tiles[j].eq(pixels) {
            return Some(j);
        }
        j += 1;
    }
    None
}

spec fn tile_frequencies(tiles: Seq<Tile>) -> Seq<usize> {
    tiles.map_values(|tile: Tile| tile.frequency)
}

/// What `collect_tiles` establishes of the tiles of `img`.
spec fn distinct_windows(img: Raster, tw: nat, th: nat, tiles: Seq<Tile>) -> bool {
    let n = img.width * img.height;
    &&& tiles.len() >= 1
    &&& forall|t: int| 0 <= t < tiles.len() ==> occurrences(img, tw, th, n as nat, (#[trigger] tiles[t]).pixels@) >= 1
    &&& forall|k: int| #![trigger img.window_at(tw, th, k)] 0 <= k < n ==> exists|t: int| 0 <= t < tiles.len() && #[trigger] tiles[t].pixels@ == img.window_at(tw, th, k)
    &&& forall|t1: int, t2: int| 0 <= t1 < tiles.len() && 0 <= t2 < tiles.len() && t1 != t2
        ==> tiles[t1].pixels@ != tiles[t2].pixels@
    &&& forall|t1: int, t2: int, k: int|
        #![trigger tiles[t1], tiles[t2], img.window_at(tw, th, k)]
        0 <= t1 < t2 < tiles.len() && 0 <= k < n && img.window_at(tw, th, k) == tiles[t2].pixels@
        ==> occurrences(img, tw, th, k as nat, tiles[t1].pixels@) >= 1
    &&& forall|t: int| 0 <= t < tiles.len() ==> (#[trigger] tiles[t]).frequency == occurrences(img, tw, th, n as nat, tiles[t].pixels@)
    &&& forall|t: int| 0 <= t < tiles.len() ==> (#[trigger] tiles[t]).frequency >= 1
    &&& forall|t: int| 0 <= t < tiles.len() ==> (#[trigger] tiles[t]).pixels@.len() == tw * th
    &&& sum(tile_frequencies(tiles)) == n
}

/// The state of the scan over the offsets below `k`: `first[t]` is the first
/// offset of tile `t`, `which[j]` the tile of offset `j`.
spec fn scanned(img: Raster, tw: nat, th: nat, k: nat, tiles: Seq<Tile>, first: Seq<int>, which: Seq<int>) -> bool {
    &&& tiles.len() <= k
    &&& tiles.len() == first.len()
    &&& which.len() == k
    &&& forall|t: int| 0 <= t < tiles.len() ==> 0 <= #[trigger] first[t] < k
    &&& forall|t: int| 0 <= t < tiles.len() ==> (#[trigger] tiles[t]).pixels@ == img.window_at(tw, th, first[t])
    &&& forall|t1: int, t2: int| 0 <= t1 < t2 < tiles.len() ==> first[t1] < first[t2]
    &&& forall|t: int, j: int| 0 <= t < tiles.len() && 0 <= j < first[t]
        ==> #[trigger] img.window_at(tw, th, j) != (#[trigger] tiles[t]).pixels@
    &&& forall|j: int| 0 <= j < k ==> 0 <= #[trigger] which[j] < tiles.len()
    &&& forall|j: int| 0 <= j < k ==> tiles[#[trigger] which[j]].pixels@ == img.window_at(tw, th, j)
    &&& forall|t1: int, t2: int| 0 <= t1 < tiles.len() && 0 <= t2 < tiles.len() && t1 != t2
        ==> tiles[t1].pixels@ != tiles[t2].pixels@
    &&& forall|t: int| 0 <= t < tiles.len()
        ==> (#[trigger] tiles[t]).frequency == occurrences(img, tw, th, k, tiles[t].pixels@)
    &&& forall|t: int| 0 <= t < tiles.len() ==> (#[trigger] tiles[t]).frequency >= 1
    &&& forall|t: int| 0 <= t < tiles.len() ==> (#[trigger] tiles[t]).pixels@.len() == tw * th
    &&& sum(tile_frequencies(tiles)) == k
}

proof fn lemma_scan_found(
    img: Raster, tw: nat, th: nat, k: nat, before: Seq<Tile>, after: Seq<Tile>, first: Seq<int>, which: Seq<int>, j: int,
)
    requires
        scanned(img, tw, th, k, before, first, which),
        0 <= j < before.len(),
        before[j].pixels@ == img.window_at(tw, th, k as int),
        before[j].frequency < usize::MAX,
        after == before.update(j, Tile { pixels: before[j].pixels, frequency: (before[j].frequency + 1) as usize }),
    ensures
        scanned(img, tw, th, k + 1, after, first, which.push(j)),
{
    let f = before[j].frequency;
    assert(tile_frequencies(after) =~= tile_frequencies(before).update(j, (f + 1) as usize));
    lemma_sum_update(tile_frequencies(before), j, (f + 1) as usize);
    assert forall|t: int| 0 <= t < after.len() implies (#[trigger] after[t]).frequency
        == occurrences(img, tw, th, k + 1, after[t].pixels@) by {
        assert(after[t].pixels@ == before[t].pixels@);
    }
    let w2 = which.push(j);
    assert forall|i: int| 0 <= i < k + 1 implies after[#[trigger] w2[i]].pixels@ == img.window_at(tw, th, i) by {
        if i < k {
            assert(w2[i] == which[i]);
        }
    }
}

proof fn lemma_scan_new(
    img: Raster, tw: nat, th: nat, k: nat, before: Seq<Tile>, after: Seq<Tile>, first: Seq<int>, which: Seq<int>,
)
    requires
        scanned(img, tw, th, k, before, first, which),
        forall|t: int| 0 <= t < before.len() ==> (#[trigger] before[t]).pixels@ != img.window_at(tw, th, k as int),
        after.len() == before.len() + 1,
        after.drop_last() == before,
        after.last().pixels@ == img.window_at(tw, th, k as int),
        after.last().frequency == 1,
        img.window_at(tw, th, k as int).len() == tw * th,
    ensures
        scanned(img, tw, th, k + 1, after, first.push(k as int), which.push(before.len() as int)),
{
    let p = img.window_at(tw, th, k as int);
    assert forall|j: int| 0 <= j < k implies img.window_at(tw, th, j) != p by {
        assert(before[which[j]].pixels@ == img.window_at(tw, th, j));
    }
    lemma_occurrences_none(img, tw, th, k, p);
    assert(tile_frequencies(after).drop_last() =~= tile_frequencies(before));
    assert forall|t: int| 0 <= t < after.len() implies (#[trigger] after[t]).frequency
        == occurrences(img, tw, th, k + 1, after[t].pixels@) by {
        if t < before.len() {
            assert(after[t] == before[t]);
        }
    }
    let f2 = first.push(k as int);
    let w2 = which.push(before.len() as int);
    assert forall|t: int| 0 <= t < after.len() implies (#[trigger] after[t]).frequency >= 1 by {
        if t < before.len() {
            assert(after[t] == before[t]);
        }
    }
    assert forall|t: int, j: int| 0 <= t < after.len() && 0 <= j < f2[t]
        implies #[trigger] img.window_at(tw, th, j) != (#[trigger] after[t]).pixels@ by {
        if t < before.len() {
            assert(after[t] == before[t]);
        } else {
            assert(before[which[j]].pixels@ == img.window_at(tw, th, j));
        }
    }
    assert forall|i: int| 0 <= i < k + 1 implies after[#[trigger] w2[i]].pixels@ == img.window_at(tw, th, i) by {
        if i < k {
            assert(w2[i] == which[i]);
            assert(after[which[i]] == before[which[i]]);
        }
    }
    assert forall|t: int| 0 <= t < after.len() implies (#[trigger] after[t]).pixels@ == img.window_at(tw, th, f2[t]) by {
        if t < before.len() {
            assert(after[t] == before[t]);
        }
    }
}

proof fn lemma_scan_covers(img: Raster, tw: nat, th: nat, n: nat, tiles: Seq<Tile>, first: Seq<int>, which: Seq<int>)
    requires
        scanned(img, tw, th, n, tiles, first, which),
    ensures

        forall|k: int| #![trigger img.window_at(tw, th, k)] 0 <= k < n ==> exists|t: int| 0 <= t < tiles.len() && #[trigger] tiles[t].pixels@ == img.window_at(tw, th, k),
{
    assert forall|j: int| #![trigger img.window_at(tw, th, j)] 0 <= j < n implies exists|t: int| 0 <= t < tiles.len() && #[trigger] tiles[t].pixels@ == img.window_at(tw, th, j) by {
        assert(tiles[which[j]].pixels@ == img.window_at(tw, th, j));
    }
}

proof fn lemma_scan_order(img: Raster, tw: nat, th: nat, n: nat, tiles: Seq<Tile>, first: Seq<int>, which: Seq<int>)
    requires
        scanned(img, tw, th, n, tiles, first, which),
    ensures
        forall|t1: int, t2: int, k: int|
            #![trigger tiles[t1], tiles[t2], img.window_at(tw, th, k)]
            0 <= t1 < t2 < tiles.len() && 0 <= k < n && img.window_at(tw, th, k) == tiles[t2].pixels@
            ==> occurrences(img, tw, th, k as nat, tiles[t1].pixels@) >= 1,
{
    assert forall|t1: int, t2: int, j: int|
        #![trigger tiles[t1], tiles[t2], img.window_at(tw, th, j)]
        0 <= t1 < t2 < tiles.len() && 0 <= j < n && img.window_at(tw, th, j) == tiles[t2].pixels@
        implies occurrences(img, tw, th, j as nat, tiles[t1].pixels@) >= 1 by {
        assert(first[t1] < first[t2]);
        if j < first[t2] {
            assert(img.window_at(tw, th, j) != tiles[t2].pixels@);
        }
        assert(img.window_at(tw, th, first[t1]) == tiles[t1].pixels@);
        lemma_occurrences_some(img, tw, th, j as nat, tiles[t1].pixels@, first[t1]);
    }
}

proof fn lemma_scan_done(img: Raster, tw: nat, th: nat, tiles: Seq<Tile>, first: Seq<int>, which: Seq<int>)
    requires
        img.width * img.height > 0,
        scanned(img, tw, th, (img.width * img.height) as nat, tiles, first, which),
    ensures
        distinct_windows(img, tw, th, tiles),
{
    let n = (img.width * img.height) as nat;
    assert(0 <= which[0] < tiles.len());
    lemma_scan_covers(img, tw, th, n, tiles, first, which);
    lemma_scan_order(img, tw, th, n, tiles, first, which);
}

/// The distinct windows of the image in order of first offset, with their counts.
fn collect_tiles(image: &Raster, tw: usize, th: usize) -> (r: Vec<Tile>)
    requires
        image.pixels@.len() == image.width * image.height,
        0 < tw < image.width,
        0 < th < image.height,
    ensures
        distinct_windows(*image, tw as nat, th as nat, r@),
{
    let w: usize = image.width;
    let h: usize = image.height;
    let total: usize = image.pixels.len();
    let mut tiles: Vec<Tile> = Vec::new();
    let ghost mut first: Seq<int> = Seq::empty();
    let ghost mut which: Seq<int> = Seq::empty();
    let mut k: usize = 0;
    assert(tile_frequencies(tiles@) =~= Seq::<usize>::empty());
    while k < total
        invariant
            w == image.width,
            h == image.height,
            total == w * h,
            image.pixels@.len() == total,
            0 < tw < w,
            0 < th < h,
            k <= total,
            scanned(*image, tw as nat, th as nat, k as nat, tiles@, first, which),
        decreases total - k,
    {
        let x: usize = k % w;
        let y: usize = k / w;
        proof {
            lemma_fundamental_div_mod(k as int, w as int);
            assert(y < h) by (nonlinear_arith)
                requires k == w * y + x, k < w * h, x >= 0, w > 0;
        }
        let pixels: Vec<u32> = extract(image, tw, th, x, y);
        assert(pixels@ == image.window_at(tw as nat, th as nat, k as int));
        let ghost before = tiles@;
        match find_tile(&tiles, &pixels) {
            Some(j) => {
                proof {
                    lemma_occurrences_bound(*image, tw as nat, th as nat, k as nat, tiles@[j as int].pixels@);
                }
                let f: usize = tiles[j].frequency;
                tiles[j].frequency = f + 1;
                proof {
                    lemma_scan_found(*image, tw as nat, th as nat, k as nat, before, tiles@, first, which, j as int);
                    which = which.push(j as int);
                }
            },
            None => {
                tiles.push(Tile::new(pixels));
                proof {
                    assert(tiles@.drop_last() =~= before);
                    lemma_scan_new(*image, tw as nat, th as nat, k as nat, before, tiles@, first, which);
                    first = first.push(k as int);
                    which = which.push(before.len() as int);
                }
            },
        }
        k += 1;
    }
    proof {
        assert(w * h > 0) by (nonlinear_arith)
            requires w > 0, h > 0;
        lemma_scan_done(*image, tw as nat, th as nat, tiles@, first, which);
    }
    tiles
}

/// The tiles that may sit next to tile `a` in direction `d`.
spec fn compatible_set(tiles: Seq<Tile>, tw: nat, th: nat, a: int, d: Direction) -> Set<usize> {
    Set::new(|u: usize| u < tiles.len() && compatible(tiles[a].pixels@, tiles[u as int].pixels@, tw, th, d))
}

/// For each tile and direction, the set of tiles whose pixels agree with it.
fn link_tiles(tiles: &Vec<Tile>, tw: usize, th: usize) -> (r: Vec<Vec<BitSet>>)
    requires
        tw > 0,
        th > 0,
        tw * th <= usize::MAX,
        forall|t: int| 0 <= t < tiles@.len() ==> (#[trigger] tiles@[t]).pixels@.len() == tw * th,
    ensures
        r@.len() == tiles@.len(),
        forall|a: int| 0 <= a < r@.len() ==> (#[trigger] r@[a])@.len() == 4,
        forall|a: int, d: Direction| 0 <= a < r@.len() ==>
            #[trigger] members(r@[a]@[d.ord()]) == compatible_set(tiles@, tw as nat, th as nat, a, d),
{
    let n: usize = tiles.len();
    let mut r: Vec<Vec<BitSet>> = Vec::new();
    let mut a: usize = 0;
    while a < n
        invariant
            n == tiles@.len(),
            a <= n,
            tw > 0,
            th > 0,
            tw * th <= usize::MAX,
            forall|t: int| 0 <= t < tiles@.len() ==> (#[trigger] tiles@[t]).pixels@.len() == tw * th,
            r@.len() == a,
            forall|i: int| 0 <= i < a ==> (#[trigger] r@[i])@.len() == 4,
            forall|i: int, d: Direction| 0 <= i < a ==>
                #[trigger] members(r@[i]@[d.ord()]) == compatible_set(tiles@, tw as nat, th as nat, i, d),
        decreases n - a,
    {
        let mut row: Vec<BitSet> = Vec::new();
        let mut di: usize = 0;
        while di < 4
            invariant
                n == tiles@.len(),
                a < n,
                tw > 0,
                th > 0,
                tw * th <= usize::MAX,
                forall|t: int| 0 <= t < tiles@.len() ==> (#[trigger] tiles@[t]).pixels@.len() == tw * th,
                di <= 4,
                row@.len() == di,
                forall|i: int| 0 <= i < di ==>
                    #[trigger] members(row@[i]) == compatible_set(tiles@, tw as nat, th as nat, a as int, Direction::from_ord(i)),
            decreases 4 - di,
        {
            let d: Direction = Direction::from_index(di);
            let mut set: BitSet = set_empty();
            let mut b: usize = 0;
            while b < n
                invariant
                    n == tiles@.len(),
                    a < n,
                    b <= n,
                    tw > 0,
                    th > 0,
                    tw * th <= usize::MAX,
                    forall|t: int| 0 <= t < tiles@.len() ==> (#[trigger] tiles@[t]).pixels@.len() == tw * th,
                    members(set) == Set::new(
                        |u: usize| u < b && compatible(tiles@[a as int].pixels@, tiles@[u as int].pixels@, tw as nat, th as nat, d),
                    ),
                decreases n - b,
            {
                let fits: bool = tiles[a].cmp_adjacent(&tiles[b], tw, th, d);
                if fits {
                    set_insert(&mut set, b);
                }
                assert(members(set) =~= Set::new(
                    |u: usize| u < b + 1 && compatible(tiles@[a as int].pixels@, tiles@[u as int].pixels@, tw as nat, th as nat, d),
                ));
                b += 1;
            }
            assert(members(set) =~= compatible_set(tiles@, tw as nat, th as nat, a as int, d));
            row.push(set);
            di += 1;
        }
        proof {
            assert forall|d: Direction| #[trigger] members(row@[d.ord()]) == compatible_set(tiles@, tw as nat, th as nat, a as int, d) by {
                assert(Direction::from_ord(d.ord()) == d);
            }
        }
        r.push(row);
        a += 1;
    }
    r
}

/// Whether `rules` holds the rule that `u` may sit next to `t` in direction `d`.
pub open spec fn has_rule(rules: Seq<(usize, Direction, usize)>, t: usize, d: Direction, u: usize) -> bool {
    exists|i: int| 0 <= i < rules.len() && #[trigger] rules[i] == (t, d, u)
}

impl TileSet {
    /// Cuts the distinct `tile_width` by `tile_height` windows out of `image`
    /// (one at each pixel offset, wrapping around the edges) and relates each
    /// pair of tiles whose pixels agree when shifted one step apart.
    pub fn new(image: &Raster, tile_width: usize, tile_height: usize) -> (r: Result<TileSet, ConstructionError>)
        ensures
            image.pixels@.len() != image.width * image.height
                ==> r == Err::<TileSet, ConstructionError>(ConstructionError::PixelCountMismatch),
            image.pixels@.len() == image.width * image.height && (tile_width == 0 || tile_height == 0)
                ==> r == Err::<TileSet, ConstructionError>(ConstructionError::EmptyTileWindow),
            image.pixels@.len() == image.width * image.height && tile_width > 0 && tile_height > 0
                && (image.width <= tile_width || image.height <= tile_height)
                ==> r == Err::<TileSet, ConstructionError>(ConstructionError::TileWindowTooLarge),
            image.pixels@.len() == image.width * image.height && 0 < tile_width < image.width
                && 0 < tile_height < image.height ==> match r {
                    Ok(ts) => ts.wf() && ts.built_from(*image, tile_width as nat, tile_height as nat),
                    Err(_) => false,
                },
    {
        let len: usize = image.pixels.len();
        match image.width.checked_mul(image.height) {
            None => {
                return Err(ConstructionError::PixelCountMismatch);
            },
            Some(n) => {
                if n != image.pixels.len() {
                    return Err(ConstructionError::PixelCountMismatch);
                }
            },
        }
        if tile_width == 0 || tile_height == 0 {
            return Err(ConstructionError::EmptyTileWindow);
        }
        if image.width <= tile_width || image.height <= tile_height {
            return Err(ConstructionError::TileWindowTooLarge);
        }
        let total: usize = image.pixels.len();
        proof {
            assert(tile_width * tile_height < image.width * image.height) by (nonlinear_arith)
                requires 0 < tile_width < image.width, 0 < tile_height < image.height;
        }
        let tiles: Vec<Tile> = collect_tiles(image, tile_width, tile_height);
        let neighbors: Vec<Vec<BitSet>> = link_tiles(&tiles, tile_width, tile_height);
        let ts = TileSet { tile_width, tile_height, tiles, neighbors };
        proof {
            assert(ts.frequencies() == tile_frequencies(ts.tiles@));
            assert forall|t: int, d: Direction, u: usize| 0 <= t < ts.count() implies
                (#[trigger] ts.adjacent(t, d).contains(u) <==> (u < ts.count()
                    && compatible(ts.pattern(t), ts.pattern(u as int), tile_width as nat, tile_height as nat, d))) by {
                assert(members(ts.neighbors@[t]@[d.ord()]) == compatible_set(ts.tiles@, tile_width as nat, tile_height as nat, t, d));
            }
            let tw = tile_width as nat;
            let th = tile_height as nat;
            assert forall|k: int| #![trigger image.window_at(tw, th, k)] 0 <= k < total implies
                exists|t: int| 0 <= t < ts.count() && #[trigger] ts.pattern(t) == image.window_at(tw, th, k) by {
                let t = choose|t: int| 0 <= t < ts.tiles@.len() && #[trigger] ts.tiles@[t].pixels@ == image.window_at(tw, th, k);
                assert(ts.pattern(t) == image.window_at(tw, th, k));
            }
        }
        Ok(ts)
    }

    /// A model given by its rules: `tile_count` tiles without pixels, each of
    /// frequency one, where `u` may sit next to `t` in direction `d` exactly
    /// when `rules` holds `(t, d, u)`.
    pub fn from_adjacency(tile_count: usize, rules: &Vec<(usize, Direction, usize)>) -> (r: Result<TileSet, ConstructionError>)
        ensures
            tile_count == 0 ==> r == Err::<TileSet, ConstructionError>(ConstructionError::EmptyTileSet),
            tile_count > 0 && (exists|i: int| 0 <= i < rules@.len() && (#[trigger] rules@[i].0 >= tile_count || rules@[i].2 >= tile_count))
                ==> r == Err::<TileSet, ConstructionError>(ConstructionError::UnknownTile),
            tile_count > 0 && (forall|i: int| 0 <= i < rules@.len() ==> #[trigger] rules@[i].0 < tile_count && rules@[i].2 < tile_count)
                ==> match r {
                    Ok(ts) => {
                        &&& ts.wf()
                        &&& ts.count() == tile_count
                        &&& forall|t: int| 0 <= t < ts.count() ==> #[trigger] ts.frequencies()[t] == 1
                        &&& forall|t: int, d: Direction, u: usize| 0 <= t < ts.count() ==>
                            (#[trigger] ts.adjacent(t, d).contains(u) <==> has_rule(rules@, t as usize, d, u))
                    },
                    Err(_) => false,
                },
    {
        if tile_count == 0 {
            return Err(ConstructionError::EmptyTileSet);
        }
        let mut i: usize = 0;
        while i < rules.len()
            invariant
                tile_count > 0,
                i <= rules@.len(),
                forall|j: int| 0 <= j < i ==> #[trigger] rules@[j].0 < tile_count && rules@[j].2 < tile_count,
            decreases rules@.len() - i,
        {
            if rules[i].0 >= tile_count || rules[i].2 >= tile_count {
                return Err(ConstructionError::UnknownTile);
            }
            i += 1;
        }
        let mut tiles: Vec<Tile> = Vec::new();
        let mut neighbors: Vec<Vec<BitSet>> = Vec::new();
        let mut t: usize = 0;
        assert(tile_frequencies(tiles@) =~= Seq::<usize>::empty());
        while t < tile_count
            invariant
                tile_count > 0,
                t <= tile_count,
                forall|j: int| 0 <= j < rules@.len() ==> #[trigger] rules@[j].0 < tile_count && rules@[j].2 < tile_count,
                tiles@.len() == t,
                neighbors@.len() == t,
                forall|a: int| 0 <= a < t ==> (#[trigger] tiles@[a]).frequency == 1,
                sum(tile_frequencies(tiles@)) == t,
                forall|a: int| 0 <= a < t ==> (#[trigger] neighbors@[a])@.len() == 4,
                forall|a: int, d: Direction, u: usize| 0 <= a < t ==>
                    (#[trigger] members(neighbors@[a]@[d.ord()]).contains(u) <==> has_rule(rules@, a as usize, d, u)),
            decreases tile_count - t,
        {
            let mut row: Vec<BitSet> = Vec::new();
            let mut di: usize = 0;
            while di < 4
                invariant
                    t < tile_count,
                    forall|j: int| 0 <= j < rules@.len() ==> #[trigger] rules@[j].0 < tile_count && rules@[j].2 < tile_count,
                    di <= 4,
                    row@.len() == di,
                    forall|k: int, u: usize| 0 <= k < di ==>
                        (#[trigger] members(row@[k]).contains(u) <==> has_rule(rules@, t, Direction::from_ord(k), u)),
                decreases 4 - di,
            {
                let d: Direction = Direction::from_index(di);
                let mut set: BitSet = set_empty();
                let mut j: usize = 0;
                while j < rules.len()
                    invariant
                        j <= rules@.len(),
                        forall|k: int| 0 <= k < rules@.len() ==> #[trigger] rules@[k].0 < tile_count && rules@[k].2 < tile_count,
                        forall|u: usize| #[trigger] members(set).contains(u) <==>
                            exists|k: int| 0 <= k < j && #[trigger] rules@[k] == (t, d, u),
                    decreases rules@.len() - j,
                {
                    let (a, e, b) = rules[j];
                    if a == t && e == d {
                        set_insert(&mut set, b);
                    }
                    proof {
                        assert forall|u: usize| #[trigger] members(set).contains(u) <==>
                            exists|k: int| 0 <= k < j + 1 && #[trigger] rules@[k] == (t, d, u) by {
                            if exists|k: int| 0 <= k < j + 1 && #[trigger] rules@[k] == (t, d, u) {
                                let k = choose|k: int| 0 <= k < j + 1 && #[trigger] rules@[k] == (t, d, u);
                                if k < j {
                                    assert(members(set).contains(u));
                                }
                            }
                        }
                    }
                    j += 1;
                }
                row.push(set);
                di += 1;
            }
            proof {
                assert forall|d: Direction, u: usize| #[trigger] members(row@[d.ord()]).contains(u) <==> has_rule(rules@, t, d, u) by {
                    assert(Direction::from_ord(d.ord()) == d);
                }
            }
            let ghost before = tiles@;
            tiles.push(Tile { pixels: Vec::new(), frequency: 1 });
            neighbors.push(row);
            assert(tile_frequencies(tiles@).drop_last() =~= tile_frequencies(before));
            t += 1;
        }
        let ts = TileSet { tile_width: 0, tile_height: 0, tiles, neighbors };
        assert(ts.frequencies() == tile_frequencies(ts.tiles@));
        assert forall|a: int, d: Direction, u: usize| 0 <= a < ts.count() && #[trigger] ts.adjacent(a, d).contains(u) implies u < ts.count() by {
            let k = choose|k: int| 0 <= k < rules@.len() && #[trigger] rules@[k] == (a as usize, d, u);
            assert(rules@[k].0 < tile_count && rules@[k].2 < tile_count);
        }
        Ok(ts)
    }
}

impl TileSet {
    /// Number of tiles.
    pub fn len(&self) -> (r: usize)
        ensures
            r == self.count(),
    {
        self.tiles.len()
    }

    pub fn tile_width(&self) -> (r: usize)
        ensures
            r == self.tile_width_spec(),
    {
        self.tile_width
    }

    pub fn tile_height(&self) -> (r: usize)
        ensures
            r == self.tile_height_spec(),
    {
        self.tile_height
    }

    /// The pixels of tile `t`, row by row.
    pub fn pixels(&self, t: usize) -> (r: &Vec<u32>)
        requires
            t < self.count(),
        ensures
            r@ == self.pattern(t as int),
    {
        &self.tiles[t].pixels
    }

    /// How many offsets of the source produce tile `t`.
    pub fn frequency(&self, t: usize) -> (r: usize)
        requires
            t < self.count(),
        ensures
            r == self.frequencies()[t as int],
    {
        self.tiles[t].frequency
    }

    pub(crate) fn adjacency(&self, t: usize, d: Direction) -> (r: &BitSet)
        requires
            self.wf(),
            t < self.count(),
        ensures
            members(*r) == self.adjacent(t as int, d),
    {
        &self.neighbors[t][d.index()]
    }

    /// The tiles that may sit next to tile `t` in direction `d`, in ascending order.
    pub fn neighbors(&self, t: usize, d: Direction) -> (r: Vec<usize>)
        requires
            self.wf(),
            t < self.count(),
        ensures
            r@.to_set() == self.adjacent(t as int, d),
            forall|i: int, j: int| 0 <= i < j < r@.len() ==> r@[i] < r@[j],
    {
        set_elements(self.adjacency(t, d))
    }

    /// Whether `u` may sit next to tile `t` in direction `d`.
    pub fn allows(&self, t: usize, d: Direction, u: usize) -> (r: bool)
        requires
            self.wf(),
            t < self.count(),
        ensures
            r == self.adjacent(t as int, d).contains(u),
    {
        set_contains(self.adjacency(t, d), u)
    }
}

} // verus!
