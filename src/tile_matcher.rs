use crate::ac3::IdentifierType;
use vstd::prelude::*;
use vstd::string::StringExecFns;

verus! {

/// Direction tracks relationships between tiles.
#[derive(Debug, Eq, PartialEq, Copy, Clone, Structural)]
pub enum Direction {
    Down,
    Left,
    Right,
    Up,
}

impl Direction {
    pub open spec fn spec_reverse(self) -> Direction {
        match self {
            Direction::Down => Direction::Up,
            Direction::Up => Direction::Down,
            Direction::Left => Direction::Right,
            Direction::Right => Direction::Left,
        }
    }

    /// The opposite direction.
    pub fn reverse(self) -> (r: Direction)
        ensures
            r == self.spec_reverse(),
    {
        match self {
            Direction::Down => Direction::Up,
            Direction::Up => Direction::Down,
            Direction::Left => Direction::Right,
            Direction::Right => Direction::Left,
        }
    }

    /// The slot of this direction in a relation table: up, down, left, right.
    pub open spec fn slot(self) -> int {
        match self {
            Direction::Up => 0,
            Direction::Down => 1,
            Direction::Left => 2,
            Direction::Right => 3,
        }
    }
}

/// Utility for indexing into relations.
pub fn get_relation_index(dir: Direction) -> (r: usize)
    ensures
        r == dir.slot(),
{
    match dir {
        Direction::Up => 0,
        Direction::Down => 1,
        Direction::Left => 2,
        Direction::Right => 3,
    }
}

/// Define a position on the 2d map.
/// Assume that **Down the screen** is lower Y -- The bottom of the screen y = 0.
/// Coordinates are ordered by `x`, then by `y`.
#[derive(Debug, Eq, PartialEq, Copy, Clone, Hash, PartialOrd, Ord, Structural)]
pub struct Coordinate {
    pub x: usize,
    pub y: usize,
}

/// The decimal digits of `n`, most significant first.
pub open spec fn decimal(n: nat) -> Seq<char>
    decreases n,
{
    if n < 10 {
        seq![digit_char(n)]
    } else {
        decimal(n / 10) + seq![digit_char(n % 10)]
    }
}

/// The character of the decimal digit `d`.
pub open spec fn digit_char(d: nat) -> char {
    if d == 0 { '0' } else if d == 1 { '1' } else if d == 2 { '2' } else if d == 3 { '3' }
    else if d == 4 { '4' } else if d == 5 { '5' } else if d == 6 { '6' } else if d == 7 { '7' }
    else if d == 8 { '8' } else { '9' }
}

/// The text of the decimal digit `d`.
fn digit_text(d: usize) -> (r: &'static str)
    requires
        d < 10,
    ensures
        r@ == seq![digit_char(d as nat)],
{
    let r = if d == 0 {
        "0"
    } else if d == 1 {
        "1"
    } else if d == 2 {
        "2"
    } else if d == 3 {
        "3"
    } else if d == 4 {
        "4"
    } else if d == 5 {
        "5"
    } else if d == 6 {
        "6"
    } else if d == 7 {
        "7"
    } else if d == 8 {
        "8"
    } else {
        "9"
    };
    proof {
        reveal_strlit("0");
        reveal_strlit("1");
        reveal_strlit("2");
        reveal_strlit("3");
        reveal_strlit("4");
        reveal_strlit("5");
        reveal_strlit("6");
        reveal_strlit("7");
        reveal_strlit("8");
        reveal_strlit("9");
    }
    r
}

/// The decimal digits of `n`, with no sign or padding.
fn decimal_text(n: usize) -> (r: String)
    ensures
        r@ == decimal(n as nat),
{
    // The digits below the leading one, least significant first.
    let mut low: Vec<usize> = Vec::new();
    let mut m = n;
    let ghost mut tail: Seq<char> = Seq::empty();
    while m >= 10
        invariant
            decimal(n as nat) == decimal(m as nat) + tail,
            tail == Seq::new(low@.len(), |i: int| digit_char(low@[low@.len() - 1 - i] as nat)),
            forall|i: int| 0 <= i < low@.len() ==> #[trigger] low@[i] < 10,
        decreases m,
    {
        let d = m % 10;
        let ghost old_low = low@;
        low.push(d);
        proof {
            assert(decimal(m as nat) == decimal((m / 10) as nat) + seq![digit_char(d as nat)]);
            let new_tail = seq![digit_char(d as nat)] + tail;
            assert(new_tail =~= Seq::new(low@.len(), |i: int| digit_char(low@[low@.len() - 1 - i] as nat))) by {
                assert forall|i: int| 0 < i < low@.len() implies #[trigger] low@[low@.len() - 1 - i] == old_low[old_low.len() - 1 - (i - 1)] by {}
            }
            assert(decimal(n as nat) == decimal((m / 10) as nat) + new_tail) by {
                assert(decimal((m / 10) as nat) + seq![digit_char(d as nat)] + tail =~= decimal((m / 10) as nat) + new_tail);
            }
            tail = new_tail;
        }
        m = m / 10;
    }
    let mut s = String::from_str(digit_text(m));
    let mut j = low.len();
    while j > 0
        invariant
            j <= low@.len(),
            decimal(n as nat) == decimal(m as nat) + tail,
            m < 10,
            tail == Seq::new(low@.len(), |i: int| digit_char(low@[low@.len() - 1 - i] as nat)),
            forall|i: int| 0 <= i < low@.len() ==> #[trigger] low@[i] < 10,
            s@ == decimal(m as nat) + tail.take(low@.len() - j),
        decreases j,
    {
        let ghost before = s@;
        s.append(digit_text(low[j - 1]));
        assert(tail[low@.len() - j] == digit_char(low@[j - 1] as nat));
        assert(tail.take(low@.len() - j + 1) =~= tail.take(low@.len() - j).push(tail[low@.len() - j]));
        assert(s@ =~= decimal(m as nat) + tail.take(low@.len() - j + 1));
        j = j - 1;
    }
    assert(tail.take(low@.len() as int) =~= tail);
    s
}

impl Coordinate {
    /// Make a coordinate
    #[must_use]
    pub fn new(x: usize, y: usize) -> (r: Self)
        ensures
            r == (Coordinate { x, y }),
    {
        Self { x, y }
    }

    /// The direction in which `other` lies as a grid neighbour of `self`.
    pub open spec fn spec_adjacent(self, other: Coordinate) -> Option<Direction> {
        if self.y == other.y && other.x == self.x + 1 {
            Some(Direction::Right)
        } else if self.y == other.y && self.x == other.x + 1 {
            Some(Direction::Left)
        } else if self.x == other.x && other.y == self.y + 1 {
            Some(Direction::Up)
        } else if self.x == other.x && self.y == other.y + 1 {
            Some(Direction::Down)
        } else {
            None
        }
    }

    /// Returns the direction `other` is in relation to `self`, `None` when the
    /// two are not neighbours on the grid.
    #[must_use]
    pub fn is_adjacent(&self, other: &Self) -> (r: Option<Direction>)
        ensures
            r == self.spec_adjacent(*other),
    {
        if self.y == other.y && other.x > self.x && other.x - self.x == 1 {
            Some(Direction::Right)
        } else if self.y == other.y && self.x > other.x && self.x - other.x == 1 {
            Some(Direction::Left)
        } else if self.x == other.x && other.y > self.y && other.y - self.y == 1 {
            Some(Direction::Up)
        } else if self.x == other.x && self.y > other.y && self.y - other.y == 1 {
            Some(Direction::Down)
        } else {
            None
        }
    }

    /// The coordinate written as `(x, y)`.
    pub fn text(&self) -> (r: String)
        ensures
            r@ == seq!['('] + decimal(self.x as nat) + seq![',', ' '] + decimal(self.y as nat)
                + seq![')'],
    {
        let mut s = String::from_str("(");
        let xs = decimal_text(self.x);
        let ys = decimal_text(self.y);
        s.append(xs.as_str());
        s.append(", ");
        s.append(ys.as_str());
        s.append(")");
        proof {
            reveal_strlit("(");
            reveal_strlit(", ");
            reveal_strlit(")");
        }
        assert(s@ =~= seq!['('] + decimal(self.x as nat) + seq![',', ' '] + decimal(self.y as nat)
            + seq![')']);
        s
    }
}

impl IdentifierType for Coordinate {
    open spec fn rank(&self) -> int {
        self.x * 0x1_0000_0000_0000_0000 + self.y
    }

    proof fn lemma_rank_injective(&self, other: &Self) {
        let (x, y, ox, oy) = (self.x as int, self.y as int, other.x as int, other.y as int);
        if x < ox {
            assert(x * 0x1_0000_0000_0000_0000 + y < ox * 0x1_0000_0000_0000_0000 + oy) by (nonlinear_arith)
                requires x < ox, 0 <= y < 0x1_0000_0000_0000_0000, 0 <= oy;
        } else if x > ox {
            assert(ox * 0x1_0000_0000_0000_0000 + oy < x * 0x1_0000_0000_0000_0000 + y) by (nonlinear_arith)
                requires ox < x, 0 <= oy < 0x1_0000_0000_0000_0000, 0 <= y;
        }
    }

    fn same(&self, other: &Coordinate) -> (r: bool) {
        self.x == other.x && self.y == other.y
    }

    fn precedes(&self, other: &Coordinate) -> (r: bool) {
        let r = self.x < other.x || (self.x == other.x && self.y < other.y);
        proof {
            let (x, y, ox, oy) = (self.x as int, self.y as int, other.x as int, other.y as int);
            if x < ox {
                assert(x * 0x1_0000_0000_0000_0000 + y < ox * 0x1_0000_0000_0000_0000 + oy) by (nonlinear_arith)
                    requires x < ox, 0 <= y < 0x1_0000_0000_0000_0000, 0 <= oy;
            } else if x > ox {
                assert(ox * 0x1_0000_0000_0000_0000 + oy < x * 0x1_0000_0000_0000_0000 + y) by (nonlinear_arith)
                    requires ox < x, 0 <= oy < 0x1_0000_0000_0000_0000, 0 <= y;
            }
        }
        r
    }
}

/// Whether the arc joins two neighbouring cells of the `x_lim` by `y_lim` grid.
pub open spec fn grid_arc(x_lim: usize, y_lim: usize, arc: (Coordinate, Coordinate)) -> bool {
    &&& arc.0.x < x_lim && arc.0.y < y_lim
    &&& arc.1.x < x_lim && arc.1.y < y_lim
    &&& arc.0.spec_adjacent(arc.1) is Some
}

/// The endpoint of a grid arc that lies below or left of the other.
pub open spec fn lower_end(arc: (Coordinate, Coordinate)) -> Coordinate {
    if arc.0.x <= arc.1.x && arc.0.y <= arc.1.y {
        arc.0
    } else {
        arc.1
    }
}

/// Builds a list of bidirectional arcs between coordinates in a 2d grid:
/// each pair of neighbouring cells appears once in each direction.
#[must_use]
pub fn build_arcs(x_lim: usize, y_lim: usize) -> (r: Vec<(Coordinate, Coordinate)>)
    ensures
        forall|k: int| 0 <= k < r@.len() ==> grid_arc(x_lim, y_lim, #[trigger] r@[k]),
        forall|a: Coordinate, b: Coordinate|
            grid_arc(x_lim, y_lim, (a, b)) ==> #[trigger] r@.contains((a, b)),
        r@.no_duplicates(),
{
    let mut arcs: Vec<(Coordinate, Coordinate)> = Vec::new();
    let mut x: usize = 0;
    while x < x_lim
        invariant
            x <= x_lim,
            forall|k: int| 0 <= k < arcs@.len() ==> grid_arc(x_lim, y_lim, #[trigger] arcs@[k]),
            forall|k: int| 0 <= k < arcs@.len() ==> lower_end(#[trigger] arcs@[k]).x < x,
            arcs@.no_duplicates(),
            forall|a: Coordinate, b: Coordinate|
                grid_arc(x_lim, y_lim, (a, b)) && (a.x < x && a.x <= b.x && a.y <= b.y) ==> #[trigger] arcs@.contains((a, b)) && arcs@.contains((b, a)),
        decreases x_lim - x,
    {
        let mut y: usize = 0;
        while y < y_lim
            invariant
                x < x_lim,
                y <= y_lim,
                forall|k: int| 0 <= k < arcs@.len() ==> grid_arc(x_lim, y_lim, #[trigger] arcs@[k]),
                forall|k: int|
                    0 <= k < arcs@.len() ==> lower_end(#[trigger] arcs@[k]).x < x || (lower_end(arcs@[k]).x == x
                        && lower_end(arcs@[k]).y < y),
                arcs@.no_duplicates(),
                forall|a: Coordinate, b: Coordinate|
                    grid_arc(x_lim, y_lim, (a, b)) && (a.x < x || (a.x == x && a.y < y)) && a.x <= b.x && a.y <= b.y ==> #[trigger] arcs@.contains((a, b)) && arcs@.contains((b, a)),
            decreases y_lim - y,
        {
            let ghost prev = arcs@;
            assert(forall|a: Coordinate, b: Coordinate|
                grid_arc(x_lim, y_lim, (a, b)) && (a.x < x || (a.x == x && a.y < y)) && a.x <= b.x && a.y <= b.y ==> #[trigger] prev.contains((a, b)) && prev.contains((b, a)));
            let base = Coordinate::new(x, y);
            if x < x_lim - 1 {
                arcs.push((base, Coordinate::new(x + 1, y)));
                arcs.push((Coordinate::new(x + 1, y), base));
            }
            if y < y_lim - 1 {
                arcs.push((base, Coordinate::new(x, y + 1)));
                arcs.push((Coordinate::new(x, y + 1), base));
            }
            assert forall|k: int| prev.len() <= k < arcs@.len() implies lower_end(#[trigger] arcs@[k]) == base by {}
            assert forall|i: int, j: int| 0 <= i < j < arcs@.len() implies arcs@[i] != arcs@[j] by {
                if j < prev.len() {
                    assert(prev[i] != prev[j]);
                } else if i < prev.len() {
                    assert(lower_end(arcs@[j]) == base);
                    assert(lower_end(prev[i]).x < x || (lower_end(prev[i]).x == x && lower_end(prev[i]).y < y));
                }
            }
            assert forall|a: Coordinate, b: Coordinate|
                grid_arc(x_lim, y_lim, (a, b)) && (a.x < x || (a.x == x && a.y < y + 1)) && a.x <= b.x && a.y <= b.y implies #[trigger] arcs@.contains((a, b)) && arcs@.contains((b, a)) by {
                if a.x < x || (a.x == x && a.y < y) {
                    assert(prev.contains((a, b)) && prev.contains((b, a)));
                    let i = choose|i: int| 0 <= i < prev.len() && prev[i] == (a, b);
                    let j = choose|j: int| 0 <= j < prev.len() && prev[j] == (b, a);
                    assert(arcs@[i] == (a, b));
                    assert(arcs@[j] == (b, a));
                } else {
                    let n = arcs@.len() as int;
                    if b.x == x + 1 {
                        if y < y_lim - 1 {
                            assert(arcs@[n - 4] == (a, b));
                            assert(arcs@[n - 3] == (b, a));
                        } else {
                            assert(arcs@[n - 2] == (a, b));
                            assert(arcs@[n - 1] == (b, a));
                        }
                    } else {
                        assert(arcs@[n - 2] == (a, b));
                        assert(arcs@[n - 1] == (b, a));
                    }
                }
            }
            y = y + 1;
        }
        x = x + 1;
    }
    assert forall|a: Coordinate, b: Coordinate|
        grid_arc(x_lim, y_lim, (a, b)) implies #[trigger] arcs@.contains((a, b)) by {
        if !(a.x <= b.x && a.y <= b.y) {
            assert(grid_arc(x_lim, y_lim, (b, a)));
            assert(arcs@.contains((b, a)));
        }
    }
    arcs
}

/// Where the relation "`to` may lie in direction `slot` of `from`" is kept
/// in a table over ten tiles.
pub open spec fn glyph_slot(from: int, slot: int, to: int) -> int {
    from * 40 + slot * 10 + to
}

/// Whether position `i` of the table is one of the entries that relate
/// `from` to a tile of `to` (in direction `slot`) or back (in direction `back`).
pub open spec fn links(from: int, slot: int, back: int, to: Seq<usize>, i: int) -> bool {
    exists|k: int|
        0 <= k < to.len() && (i == glyph_slot(from, slot, #[trigger] to[k] as int) || i == glyph_slot(
            to[k] as int,
            back,
            from,
        ))
}

/// Whether position `i` of the table is set by the box drawing rules.
pub open spec fn box_only_rule(i: int) -> bool {
    links(0, Direction::Up.slot(), Direction::Down.slot(), seq![0usize, 8usize, 6usize, 7usize], i)
    || links(0, Direction::Left.slot(), Direction::Right.slot(), seq![0usize, 3usize, 9usize, 7usize], i)
    || links(1, Direction::Up.slot(), Direction::Down.slot(), seq![0usize, 6usize, 7usize, 8usize], i)
    || links(1, Direction::Left.slot(), Direction::Right.slot(), seq![0usize, 3usize, 9usize, 7usize], i)
    || links(2, Direction::Up.slot(), Direction::Down.slot(), seq![0usize, 6usize, 7usize, 8usize], i)
    || links(2, Direction::Left.slot(), Direction::Right.slot(), seq![1usize, 2usize], i)
    || links(3, Direction::Up.slot(), Direction::Down.slot(), seq![0usize, 6usize, 7usize, 8usize], i)
    || links(3, Direction::Left.slot(), Direction::Right.slot(), seq![2usize], i)
    || links(4, Direction::Up.slot(), Direction::Down.slot(), seq![1usize, 4usize], i)
    || links(4, Direction::Left.slot(), Direction::Right.slot(), seq![0usize, 3usize, 9usize, 7usize], i)
    || links(5, Direction::Up.slot(), Direction::Down.slot(), seq![5usize, 2usize], i)
    || links(5, Direction::Left.slot(), Direction::Right.slot(), seq![5usize, 4usize], i)
    || links(6, Direction::Up.slot(), Direction::Down.slot(), seq![4usize], i)
    || links(6, Direction::Left.slot(), Direction::Right.slot(), seq![0usize, 3usize, 9usize, 7usize], i)
    || links(7, Direction::Up.slot(), Direction::Down.slot(), seq![9usize], i)
    || links(7, Direction::Left.slot(), Direction::Right.slot(), seq![8usize], i)
    || links(8, Direction::Up.slot(), Direction::Down.slot(), seq![5usize], i)
    || links(8, Direction::Left.slot(), Direction::Right.slot(), seq![8usize, 6usize], i)
    || links(9, Direction::Up.slot(), Direction::Down.slot(), seq![9usize, 3usize], i)
    || links(9, Direction::Left.slot(), Direction::Right.slot(), seq![5usize], i)
}

/// Collection of tiles and valid relationships to each other.
pub struct TileSet {
    /// Visual reference for what each tile is.
    pub tiles: Vec<char>,
    /// For each tile, direction (up, down, left, right) and tile: whether the
    /// second tile may lie in that direction of the first.
    pub relations: Vec<bool>,
}

impl TileSet {
    /// The table has one entry per tile, direction and tile.
    pub open spec fn wf(&self) -> bool {
        &&& self.tiles@.len() == 10
        &&& self.relations@.len() == 400
    }

    /// Whether tile `to` may lie in direction `slot` of tile `from`.
    pub open spec fn allowed(&self, from: int, slot: int, to: int) -> bool {
        self.relations@[glyph_slot(from, slot, to)]
    }

    #[must_use]
    pub fn new() -> (r: Self)
        ensures
            r.wf(),
            r.tiles@ == seq!['░', '┌', '─', '┐', '│', '▓', '└', '┘', '─', '│'],
            forall|i: int| 0 <= i < 400 ==> #[trigger] r.relations@[i] == box_only_rule(i),
    {
        // Tiles:
        // ░
        // ┌─┐
        // │▓│
        // └─┘
        let tiles: Vec<char> = vec!['░', '┌', '─', '┐', '│', '▓', '└', '┘', '─', '│'];
        let mut relations: Vec<bool> = Vec::new();
        let mut i: usize = 0;
        while i < 400
            invariant
                i <= 400,
                relations@.len() == i,
                forall|k: int| 0 <= k < i ==> !(#[trigger] relations@[k]),
            decreases 400 - i,
        {
            relations.push(false);
            i = i + 1;
        }
        let mut new_tileset = Self { tiles, relations };
        new_tileset.make_box_only();
        new_tileset
    }

    /// Add a bi-directional relationship between from and to elements.
    fn add_relation(&mut self, dir: Direction, from: usize, to: &[usize])
        requires
            old(self).wf(),
            from < 10,
            forall|k: int| 0 <= k < to@.len() ==> #[trigger] to@[k] < 10,
        ensures
            final(self).wf(),
            final(self).tiles == old(self).tiles,
            forall|i: int|
                0 <= i < 400 ==> #[trigger] final(self).relations@[i] == (old(self).relations@[i]
                    || links(from as int, dir.slot(), dir.spec_reverse().slot(), to@, i)),
    {
        let reverse = dir.reverse();
        let slot = get_relation_index(dir);
        let back = get_relation_index(reverse);
        let mut j: usize = 0;
        while j < to.len()
            invariant
                self.wf(),
                self.tiles == old(self).tiles,
                from < 10,
                slot == dir.slot(),
                back == dir.spec_reverse().slot(),
                j <= to@.len(),
                forall|k: int| 0 <= k < to@.len() ==> #[trigger] to@[k] < 10,
                forall|i: int|
                    0 <= i < 400 ==> #[trigger] self.relations@[i] == (old(self).relations@[i]
                        || links(from as int, slot as int, back as int, to@.subrange(0, j as int), i)),
            decreases to.len() - j,
        {
            let t = to[j];
            let ghost prev = self.relations@;
            self.relations.set(from * 40 + slot * 10 + t, true);
            self.relations.set(t * 40 + back * 10 + from, true);
            assert forall|i: int| 0 <= i < 400 implies #[trigger] self.relations@[i] == (
            old(self).relations@[i] || links(from as int, slot as int, back as int, to@.subrange(0, j + 1), i)) by {
                let lo = to@.subrange(0, j as int);
                let hi = to@.subrange(0, j + 1);
                if links(from as int, slot as int, back as int, lo, i) {
                    let k = choose|k: int|
                        0 <= k < lo.len() && (i == glyph_slot(from as int, slot as int, #[trigger] lo[k] as int) || i == glyph_slot(
                            lo[k] as int,
                            back as int,
                            from as int,
                        ));
                    assert(hi[k] == lo[k]);
                }
                if links(from as int, slot as int, back as int, hi, i) {
                    let k = choose|k: int|
                        0 <= k < hi.len() && (i == glyph_slot(from as int, slot as int, #[trigger] hi[k] as int) || i == glyph_slot(
                            hi[k] as int,
                            back as int,
                            from as int,
                        ));
                    if k < j {
                        assert(lo[k] == hi[k]);
                    }
                }
                if i == glyph_slot(from as int, slot as int, t as int) || i == glyph_slot(t as int, back as int, from as int) {
                    assert(hi[j as int] == t);
                }
            }
            j = j + 1;
        }
        assert(to@.subrange(0, to@.len() as int) =~= to@);
    }

    /// Set the tileset with box drawing relationships.
    fn make_box_only(&mut self)
        requires
            old(self).wf(),
        ensures
            final(self).wf(),
            final(self).tiles == old(self).tiles,
            forall|i: int|
                0 <= i < 400 ==> #[trigger] final(self).relations@[i] == (old(self).relations@[i]
                    || box_only_rule(i)),
    {
        let to: [usize; 4] = [0, 8, 6, 7];
        assert(to@ =~= seq![0usize, 8usize, 6usize, 7usize]);
        self.add_relation(Direction::Up, 0, &to);
        let to: [usize; 4] = [0, 3, 9, 7];
        assert(to@ =~= seq![0usize, 3usize, 9usize, 7usize]);
        self.add_relation(Direction::Left, 0, &to);
        let to: [usize; 4] = [0, 6, 7, 8];
        assert(to@ =~= seq![0usize, 6usize, 7usize, 8usize]);
        self.add_relation(Direction::Up, 1, &to);
        let to: [usize; 4] = [0, 3, 9, 7];
        assert(to@ =~= seq![0usize, 3usize, 9usize, 7usize]);
        self.add_relation(Direction::Left, 1, &to);
        let to: [usize; 4] = [0, 6, 7, 8];
        assert(to@ =~= seq![0usize, 6usize, 7usize, 8usize]);
        self.add_relation(Direction::Up, 2, &to);
        let to: [usize; 2] = [1, 2];
        assert(to@ =~= seq![1usize, 2usize]);
        self.add_relation(Direction::Left, 2, &to);
        let to: [usize; 4] = [0, 6, 7, 8];
        assert(to@ =~= seq![0usize, 6usize, 7usize, 8usize]);
        self.add_relation(Direction::Up, 3, &to);
        let to: [usize; 1] = [2];
        assert(to@ =~= seq![2usize]);
        self.add_relation(Direction::Left, 3, &to);
        let to: [usize; 2] = [1, 4];
        assert(to@ =~= seq![1usize, 4usize]);
        self.add_relation(Direction::Up, 4, &to);
        let to: [usize; 4] = [0, 3, 9, 7];
        assert(to@ =~= seq![0usize, 3usize, 9usize, 7usize]);
        self.add_relation(Direction::Left, 4, &to);
        let to: [usize; 2] = [5, 2];
        assert(to@ =~= seq![5usize, 2usize]);
        self.add_relation(Direction::Up, 5, &to);
        let to: [usize; 2] = [5, 4];
        assert(to@ =~= seq![5usize, 4usize]);
        self.add_relation(Direction::Left, 5, &to);
        let to: [usize; 1] = [4];
        assert(to@ =~= seq![4usize]);
        self.add_relation(Direction::Up, 6, &to);
        let to: [usize; 4] = [0, 3, 9, 7];
        assert(to@ =~= seq![0usize, 3usize, 9usize, 7usize]);
        self.add_relation(Direction::Left, 6, &to);
        let to: [usize; 1] = [9];
        assert(to@ =~= seq![9usize]);
        self.add_relation(Direction::Up, 7, &to);
        let to: [usize; 1] = [8];
        assert(to@ =~= seq![8usize]);
        self.add_relation(Direction::Left, 7, &to);
        let to: [usize; 1] = [5];
        assert(to@ =~= seq![5usize]);
        self.add_relation(Direction::Up, 8, &to);
        let to: [usize; 2] = [8, 6];
        assert(to@ =~= seq![8usize, 6usize]);
        self.add_relation(Direction::Left, 8, &to);
        let to: [usize; 2] = [9, 3];
        assert(to@ =~= seq![9usize, 3usize]);
        self.add_relation(Direction::Up, 9, &to);
        let to: [usize; 1] = [5];
        assert(to@ =~= seq![5usize]);
        self.add_relation(Direction::Left, 9, &to);
    }

    /// Whether tile `av` at `a` and tile `bv` at `b` may stand side by side;
    /// cells that are not neighbours never may.
    pub fn check(&self, a: Coordinate, av: &usize, b: Coordinate, bv: &usize) -> (r: bool)
        requires
            self.wf(),
            *av < 10,
        ensures
            r == match a.spec_adjacent(b) {
                None => false,
                Some(dir) => *bv < 10 && self.allowed(*av as int, dir.slot(), *bv as int),
            },
    {
        match a.is_adjacent(&b) {
            Some(dir) => {
                if *bv < 10 {
                    self.relations[*av * 40 + get_relation_index(dir) * 10 + *bv]
                } else {
                    false
                }
            },
            None => false,
        }
    }
}

impl Default for TileSet {
    fn default() -> (r: Self)
        ensures
            r.wf(),
            r.tiles@ == seq!['░', '┌', '─', '┐', '│', '▓', '└', '┘', '─', '│'],
            forall|i: int| 0 <= i < 400 ==> #[trigger] r.relations@[i] == box_only_rule(i),
    {
        Self::new()
    }
}

} // verus!
