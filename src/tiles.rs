use crate::ac3::{Arc, ConstraintProvider, DomainType, IdentifierType};
use crate::tile_matcher::{get_relation_index, grid_arc, Coordinate, Direction};
use crate::variable_provider::{Variable, VariableID, VariableProvider};
use vstd::prelude::*;
use vstd::string::StringExecFns;

verus! {

/// The shapes a cell of a box drawing can take.
#[derive(Copy, Clone, PartialEq, Eq, Debug, Structural)]
pub enum Tile {
    Inside,
    Outside,
    VWall,
    HWall,
    BLCorner,
    BRCorner,
    TLCorner,
    TRCorner,
}

impl DomainType for Tile {
    fn same_value(&self, other: &Tile) -> (r: bool) {
        *self == *other
    }
}

impl Tile {
    pub open spec fn spec_ch(self) -> char {
        match self {
            Tile::Inside => '▓',
            Tile::Outside => '░',
            Tile::HWall => '─',
            Tile::VWall => '│',
            Tile::BLCorner => '└',
            Tile::BRCorner => '┘',
            Tile::TLCorner => '┌',
            Tile::TRCorner => '┐',
        }
    }

    pub open spec fn spec_idx(self) -> int {
        match self {
            Tile::Outside => 0,
            Tile::TLCorner => 1,
            Tile::HWall => 2,
            Tile::TRCorner => 3,
            Tile::VWall => 4,
            Tile::Inside => 5,
            Tile::BLCorner => 6,
            Tile::BRCorner => 7,
        }
    }

    /// The box drawing character of the tile.
    pub fn ch(&self) -> (r: char)
        ensures
            r == self.spec_ch(),
    {
        match self {
            Tile::Inside => '▓',
            Tile::Outside => '░',
            Tile::HWall => '─',
            Tile::VWall => '│',
            Tile::BLCorner => '└',
            Tile::BRCorner => '┘',
            Tile::TLCorner => '┌',
            Tile::TRCorner => '┐',
        }
    }

    /// The number of tiles.
    pub fn len() -> (r: usize)
        ensures
            r == 8,
    {
        8
    }

    /// The position of the tile in [`TileSet::new`]'s list.
    pub fn idx(self) -> (r: usize)
        ensures
            r == self.spec_idx(),
    {
        match self {
            Tile::Outside => 0,
            Tile::TLCorner => 1,
            Tile::HWall => 2,
            Tile::TRCorner => 3,
            Tile::VWall => 4,
            Tile::Inside => 5,
            Tile::BLCorner => 6,
            Tile::BRCorner => 7,
        }
    }

    /// The tile's character as text.
    pub fn text(&self) -> (r: String)
        ensures
            r@ == seq![self.spec_ch()],
    {
        let r = match self {
            Tile::Inside => String::from_str("▓"),
            Tile::Outside => String::from_str("░"),
            Tile::HWall => String::from_str("─"),
            Tile::VWall => String::from_str("│"),
            Tile::BLCorner => String::from_str("└"),
            Tile::BRCorner => String::from_str("┘"),
            Tile::TLCorner => String::from_str("┌"),
            Tile::TRCorner => String::from_str("┐"),
        };
        proof {
            reveal_strlit("▓");
            reveal_strlit("░");
            reveal_strlit("─");
            reveal_strlit("│");
            reveal_strlit("└");
            reveal_strlit("┘");
            reveal_strlit("┌");
            reveal_strlit("┐");
        }
        assert(r@ =~= seq![self.spec_ch()]);
        r
    }
}

/// Where the relation "`to` may lie in direction `slot` of `from`" is kept
/// in a table over eight tiles.
pub open spec fn tile_slot(from: int, slot: int, to: int) -> int {
    from * 32 + slot * 8 + to
}

/// Whether position `i` of the table is one of the entries that relate
/// `from` to a tile of `to` (in direction `slot`) or back (in direction `back`).
pub open spec fn tile_links(from: int, slot: int, back: int, to: Seq<Tile>, i: int) -> bool {
    exists|k: int|
        0 <= k < to.len() && (i == tile_slot(from, slot, (#[trigger] to[k]).spec_idx()) || i
            == tile_slot(to[k].spec_idx(), back, from))
}

/// Whether position `i` of the table is set by the box drawing rules.
pub open spec fn box_drawing_rule(i: int) -> bool {
    tile_links(Tile::BLCorner.spec_idx(), Direction::Left.slot(), Direction::Right.slot(), seq![Tile::Outside, Tile::Inside], i)
    || tile_links(Tile::BRCorner.spec_idx(), Direction::Left.slot(), Direction::Right.slot(), seq![Tile::HWall, Tile::TLCorner], i)
    || tile_links(Tile::HWall.spec_idx(), Direction::Left.slot(), Direction::Right.slot(), seq![Tile::HWall, Tile::BLCorner, Tile::TLCorner, Tile::HWall], i)
    || tile_links(Tile::Inside.spec_idx(), Direction::Left.slot(), Direction::Right.slot(), seq![Tile::Inside, Tile::VWall, Tile::TRCorner, Tile::BRCorner], i)
    || tile_links(Tile::Outside.spec_idx(), Direction::Left.slot(), Direction::Right.slot(), seq![Tile::Outside, Tile::TRCorner, Tile::VWall, Tile::BRCorner], i)
    || tile_links(Tile::TLCorner.spec_idx(), Direction::Left.slot(), Direction::Right.slot(), seq![Tile::Outside, Tile::Inside], i)
    || tile_links(Tile::TRCorner.spec_idx(), Direction::Left.slot(), Direction::Right.slot(), seq![Tile::HWall], i)
    || tile_links(Tile::VWall.spec_idx(), Direction::Left.slot(), Direction::Right.slot(), seq![Tile::Inside, Tile::Outside], i)
    || tile_links(Tile::BLCorner.spec_idx(), Direction::Up.slot(), Direction::Down.slot(), seq![Tile::VWall, Tile::TRCorner], i)
    || tile_links(Tile::BRCorner.spec_idx(), Direction::Up.slot(), Direction::Down.slot(), seq![Tile::VWall], i)
    || tile_links(Tile::HWall.spec_idx(), Direction::Up.slot(), Direction::Down.slot(), seq![Tile::Inside, Tile::Outside], i)
    || tile_links(Tile::Inside.spec_idx(), Direction::Up.slot(), Direction::Down.slot(), seq![Tile::Inside, Tile::HWall], i)
    || tile_links(Tile::Outside.spec_idx(), Direction::Up.slot(), Direction::Down.slot(), seq![Tile::Outside, Tile::HWall, Tile::BLCorner, Tile::BRCorner], i)
    || tile_links(Tile::TLCorner.spec_idx(), Direction::Up.slot(), Direction::Down.slot(), seq![Tile::Outside, Tile::Inside], i)
    || tile_links(Tile::TRCorner.spec_idx(), Direction::Up.slot(), Direction::Down.slot(), seq![Tile::Outside, Tile::Inside], i)
    || tile_links(Tile::VWall.spec_idx(), Direction::Up.slot(), Direction::Down.slot(), seq![Tile::TLCorner, Tile::VWall, Tile::TRCorner], i)
}

/// Collection of tiles and valid relationships to each other.
pub struct TileSet {
    /// The tiles, in the order of their index.
    pub tiles: Vec<Tile>,
    /// For each tile, direction (up, down, left, right) and tile: whether the
    /// second tile may lie in that direction of the first.
    pub relations: Vec<bool>,
}

impl TileSet {
    /// The table has one entry per tile, direction and tile.
    pub open spec fn wf(&self) -> bool {
        &&& self.tiles@.len() == 8
        &&& self.relations@.len() == 256
    }

    /// Whether tile `to` may lie in direction `slot` of tile `from`.
    pub open spec fn allowed(&self, from: Tile, slot: int, to: Tile) -> bool {
        self.relations@[tile_slot(from.spec_idx(), slot, to.spec_idx())]
    }

    #[must_use]
    pub fn new() -> (r: Self)
        ensures
            r.wf(),
            r.tiles@ == seq![
                Tile::Outside,
                Tile::TLCorner,
                Tile::HWall,
                Tile::TRCorner,
                Tile::VWall,
                Tile::Inside,
                Tile::BLCorner,
                Tile::BRCorner,
            ],
            forall|i: int| 0 <= i < 256 ==> #[trigger] r.relations@[i] == box_drawing_rule(i),
    {
        let tiles = vec![
            Tile::Outside,
            Tile::TLCorner,
            Tile::HWall,
            Tile::TRCorner,
            Tile::VWall,
            Tile::Inside,
            Tile::BLCorner,
            Tile::BRCorner,
        ];
        let mut relations: Vec<bool> = Vec::new();
        let mut i: usize = 0;
        while i < 256
            invariant
                i <= 256,
                relations@.len() == i,
                forall|k: int| 0 <= k < i ==> !(#[trigger] relations@[k]),
            decreases 256 - i,
        {
            relations.push(false);
            i = i + 1;
        }
        let mut new_tileset = Self { tiles, relations };
        new_tileset.add_relations();
        new_tileset
    }

    /// Add a bi-directional relationship between from and to elements.
    fn add_relation(&mut self, dir: Direction, from: Tile, to: &[Tile])
        requires
            old(self).wf(),
        ensures
            final(self).wf(),
            final(self).tiles == old(self).tiles,
            forall|i: int|
                0 <= i < 256 ==> #[trigger] final(self).relations@[i] == (old(self).relations@[i]
                    || tile_links(from.spec_idx(), dir.slot(), dir.spec_reverse().slot(), to@, i)),
    {
        let reverse = dir.reverse();
        let slot = get_relation_index(dir);
        let back = get_relation_index(reverse);
        let f = from.idx();
        let mut j: usize = 0;
        while j < to.len()
            invariant
                self.wf(),
                self.tiles == old(self).tiles,
                f == from.spec_idx(),
                slot == dir.slot(),
                back == dir.spec_reverse().slot(),
                j <= to@.len(),
                forall|i: int|
                    0 <= i < 256 ==> #[trigger] self.relations@[i] == (old(self).relations@[i]
                        || tile_links(f as int, slot as int, back as int, to@.subrange(0, j as int), i)),
            decreases to.len() - j,
        {
            let t = to[j].idx();
            self.relations.set(f * 32 + slot * 8 + t, true);
            self.relations.set(t * 32 + back * 8 + f, true);
            assert forall|i: int| 0 <= i < 256 implies #[trigger] self.relations@[i] == (
            old(self).relations@[i] || tile_links(f as int, slot as int, back as int, to@.subrange(0, j + 1), i)) by {
                let lo = to@.subrange(0, j as int);
                let hi = to@.subrange(0, j + 1);
                if tile_links(f as int, slot as int, back as int, lo, i) {
                    let k = choose|k: int|
                        0 <= k < lo.len() && (i == tile_slot(f as int, slot as int, (#[trigger] lo[k]).spec_idx()) || i
                            == tile_slot(lo[k].spec_idx(), back as int, f as int));
                    assert(hi[k] == lo[k]);
                }
                if tile_links(f as int, slot as int, back as int, hi, i) {
                    let k = choose|k: int|
                        0 <= k < hi.len() && (i == tile_slot(f as int, slot as int, (#[trigger] hi[k]).spec_idx()) || i
                            == tile_slot(hi[k].spec_idx(), back as int, f as int));
                    if k < j {
                        assert(lo[k] == hi[k]);
                    }
                }
                if i == tile_slot(f as int, slot as int, t as int) || i == tile_slot(t as int, back as int, f as int) {
                    assert(hi[j as int] == to@[j as int]);
                }
            }
            j = j + 1;
        }
        assert(to@.subrange(0, to@.len() as int) =~= to@);
    }

    /// Set the tileset with box drawing relationships.
    fn add_relations(&mut self)
        requires
            old(self).wf(),
        ensures
            final(self).wf(),
            final(self).tiles == old(self).tiles,
            forall|i: int|
                0 <= i < 256 ==> #[trigger] final(self).relations@[i] == (old(self).relations@[i]
                    || box_drawing_rule(i)),
    {
        let to: [Tile; 2] = [Tile::Outside, Tile::Inside];
        assert(to@ =~= seq![Tile::Outside, Tile::Inside]);
        self.add_relation(Direction::Left, Tile::BLCorner, &to);
        let to: [Tile; 2] = [Tile::HWall, Tile::TLCorner];
        assert(to@ =~= seq![Tile::HWall, Tile::TLCorner]);
        self.add_relation(Direction::Left, Tile::BRCorner, &to);
        let to: [Tile; 4] = [Tile::HWall, Tile::BLCorner, Tile::TLCorner, Tile::HWall];
        assert(to@ =~= seq![Tile::HWall, Tile::BLCorner, Tile::TLCorner, Tile::HWall]);
        self.add_relation(Direction::Left, Tile::HWall, &to);
        let to: [Tile; 4] = [Tile::Inside, Tile::VWall, Tile::TRCorner, Tile::BRCorner];
        assert(to@ =~= seq![Tile::Inside, Tile::VWall, Tile::TRCorner, Tile::BRCorner]);
        self.add_relation(Direction::Left, Tile::Inside, &to);
        let to: [Tile; 4] = [Tile::Outside, Tile::TRCorner, Tile::VWall, Tile::BRCorner];
        assert(to@ =~= seq![Tile::Outside, Tile::TRCorner, Tile::VWall, Tile::BRCorner]);
        self.add_relation(Direction::Left, Tile::Outside, &to);
        let to: [Tile; 2] = [Tile::Outside, Tile::Inside];
        assert(to@ =~= seq![Tile::Outside, Tile::Inside]);
        self.add_relation(Direction::Left, Tile::TLCorner, &to);
        let to: [Tile; 1] = [Tile::HWall];
        assert(to@ =~= seq![Tile::HWall]);
        self.add_relation(Direction::Left, Tile::TRCorner, &to);
        let to: [Tile; 2] = [Tile::Inside, Tile::Outside];
        assert(to@ =~= seq![Tile::Inside, Tile::Outside]);
        self.add_relation(Direction::Left, Tile::VWall, &to);
        let to: [Tile; 2] = [Tile::VWall, Tile::TRCorner];
        assert(to@ =~= seq![Tile::VWall, Tile::TRCorner]);
        self.add_relation(Direction::Up, Tile::BLCorner, &to);
        let to: [Tile; 1] = [Tile::VWall];
        assert(to@ =~= seq![Tile::VWall]);
        self.add_relation(Direction::Up, Tile::BRCorner, &to);
        let to: [Tile; 2] = [Tile::Inside, Tile::Outside];
        assert(to@ =~= seq![Tile::Inside, Tile::Outside]);
        self.add_relation(Direction::Up, Tile::HWall, &to);
        let to: [Tile; 2] = [Tile::Inside, Tile::HWall];
        assert(to@ =~= seq![Tile::Inside, Tile::HWall]);
        self.add_relation(Direction::Up, Tile::Inside, &to);
        let to: [Tile; 4] = [Tile::Outside, Tile::HWall, Tile::BLCorner, Tile::BRCorner];
        assert(to@ =~= seq![Tile::Outside, Tile::HWall, Tile::BLCorner, Tile::BRCorner]);
        self.add_relation(Direction::Up, Tile::Outside, &to);
        let to: [Tile; 2] = [Tile::Outside, Tile::Inside];
        assert(to@ =~= seq![Tile::Outside, Tile::Inside]);
        self.add_relation(Direction::Up, Tile::TLCorner, &to);
        let to: [Tile; 2] = [Tile::Outside, Tile::Inside];
        assert(to@ =~= seq![Tile::Outside, Tile::Inside]);
        self.add_relation(Direction::Up, Tile::TRCorner, &to);
        let to: [Tile; 3] = [Tile::TLCorner, Tile::VWall, Tile::TRCorner];
        assert(to@ =~= seq![Tile::TLCorner, Tile::VWall, Tile::TRCorner]);
        self.add_relation(Direction::Up, Tile::VWall, &to);
    }
}

impl Default for TileSet {
    fn default() -> (r: Self)
        ensures
            r.wf(),
            forall|i: int| 0 <= i < 256 ==> #[trigger] r.relations@[i] == box_drawing_rule(i),
    {
        Self::new()
    }
}

impl ConstraintProvider<Tile, Coordinate> for TileSet {
    open spec fn valid(&self) -> bool {
        self.wf()
    }

    open spec fn allows(
        &self,
        a: VariableID,
        a_key: Coordinate,
        a_value: Tile,
        b: VariableID,
        b_key: Coordinate,
        b_value: Tile,
    ) -> bool {
        match a_key.spec_adjacent(b_key) {
            None => false,
            Some(dir) => self.allowed(a_value, dir.slot(), b_value),
        }
    }

    fn check(
        &self,
        a: &Variable<Tile, Coordinate>,
        av: &Tile,
        b: &Variable<Tile, Coordinate>,
        bv: &Tile,
    ) -> (r: bool) {
        let ak = a.get_identifier();
        let bk = b.get_identifier();
        match ak.is_adjacent(&bk) {
            Some(dir) => self.relations[av.idx() * 32 + get_relation_index(dir) * 8 + bv.idx()],
            None => false,
        }
    }
}

/// Builds a list of bidirectional arcs between the variables of a 2d grid,
/// each named by its coordinate: each pair of neighbouring cells appears once
/// in each direction.
#[must_use]
pub fn build_arcs(
    variables: &VariableProvider<Tile, Coordinate>,
    x_lim: usize,
    y_lim: usize,
) -> (r: Vec<Arc>)
    requires
        variables.wf(),
        forall|c: Coordinate| c.x < x_lim && c.y < y_lim ==> #[trigger] variables.keys().contains(c),
    ensures
        forall|k: int|
            0 <= k < r@.len() ==> variables.contains_id((#[trigger] r@[k]).0) && variables.contains_id(
                r@[k].1,
            ) && grid_arc(
                x_lim,
                y_lim,
                (variables.keys()[r@[k].0.id()], variables.keys()[r@[k].1.id()]),
            ),
        forall|a: Coordinate, b: Coordinate|
            #[trigger] grid_arc(x_lim, y_lim, (a, b)) ==> exists|k: int|
                0 <= k < r@.len() && variables.keys()[(#[trigger] r@[k]).0.id()] == a
                    && variables.keys()[r@[k].1.id()] == b,        r@.no_duplicates(),
{
    let coords = crate::tile_matcher::build_arcs(x_lim, y_lim);
    let mut arcs: Vec<Arc> = Vec::new();
    let mut k: usize = 0;
    while k < coords.len()
        invariant
            variables.wf(),
            forall|c: Coordinate| c.x < x_lim && c.y < y_lim ==> #[trigger] variables.keys().contains(c),
            forall|q: int| 0 <= q < coords@.len() ==> grid_arc(x_lim, y_lim, #[trigger] coords@[q]),
            k <= coords@.len(),
            arcs@.len() == k,
            forall|q: int|
                0 <= q < k ==> variables.contains_id((#[trigger] arcs@[q]).0) && variables.contains_id(
                    arcs@[q].1,
                ) && variables.keys()[arcs@[q].0.id()] == coords@[q].0 && variables.keys()[arcs@[q].1.id()]
                    == coords@[q].1,
        decreases coords.len() - k,
    {
        let (a, b) = coords[k];
        assert(grid_arc(x_lim, y_lim, coords@[k as int]));
        assert(variables.keys().contains(a));
        assert(variables.keys().contains(b));
        let ia = variables.find_id(a).unwrap();
        let ib = variables.find_id(b).unwrap();
        arcs.push((ia, ib));
        k = k + 1;
    }
    assert forall|i: int, j: int| 0 <= i < j < arcs@.len() implies arcs@[i] != arcs@[j] by {
        assert(coords@[i] != coords@[j]);
    }
    assert forall|a: Coordinate, b: Coordinate|
        #[trigger] grid_arc(x_lim, y_lim, (a, b)) implies exists|k: int|
            0 <= k < arcs@.len() && variables.keys()[(#[trigger] arcs@[k]).0.id()] == a
                && variables.keys()[arcs@[k].1.id()] == b by {
        assert(coords@.contains((a, b)));
        let q = choose|q: int| 0 <= q < coords@.len() && coords@[q] == (a, b);
        assert(variables.keys()[arcs@[q].0.id()] == a);
    }
    arcs
}

/// The tile that `tiles` (rows upward from `bottom_left`, cells rightward)
/// places at `c`, if any.
pub open spec fn placed_tile(bottom_left: Coordinate, tiles: Seq<Vec<Tile>>, c: Coordinate) -> Option<
    Tile,
> {
    if bottom_left.x <= c.x && bottom_left.y <= c.y && c.y - bottom_left.y < tiles.len() && c.x
        - bottom_left.x < tiles[c.y - bottom_left.y]@.len() {
        Some(tiles[c.y - bottom_left.y]@[c.x - bottom_left.x])
    } else {
        None
    }
}

/// The domain of the variable at `i` once the cells of `tiles` before row
/// `done_y`, and those of that row before column `done_x`, are placed.
pub open spec fn partly_placed(
    bottom_left: Coordinate,
    tiles: Seq<Vec<Tile>>,
    before: Seq<Seq<Tile>>,
    keys: Seq<Coordinate>,
    done_y: int,
    done_x: int,
    i: int,
) -> Seq<Tile> {
    let c = keys[i];
    match placed_tile(bottom_left, tiles, c) {
        Some(t) => if c.y - bottom_left.y < done_y || (c.y - bottom_left.y == done_y && c.x
            - bottom_left.x < done_x) {
            seq![t]
        } else {
            before[i]
        },
        None => before[i],
    }
}

/// Inserts some data into the map to pre-seed some interesting shapes: each
/// variable whose coordinate is covered by `tiles` is fixed to that tile.
pub fn insert(
    variables: &mut VariableProvider<Tile, Coordinate>,
    bottom_left: Coordinate,
    tiles: Vec<Vec<Tile>>,
)
    requires
        old(variables).wf(),
        bottom_left.y + tiles@.len() <= usize::MAX + 1,
        forall|r: int|
            0 <= r < tiles@.len() ==> bottom_left.x + (#[trigger] tiles@[r]).len() <= usize::MAX + 1,
    ensures
        final(variables).wf(),
        final(variables).keys() == old(variables).keys(),
        forall|i: int|
            0 <= i < final(variables).size() ==> #[trigger] final(variables).domains()[i] == match placed_tile(
                bottom_left,
                tiles@,
                old(variables).keys()[i],
            ) {
                Some(t) => seq![t],
                None => old(variables).domains()[i],
            },
{
    let ghost keys = variables.keys();
    let ghost before = variables.domains();
    let mut iy: usize = 0;
    while iy < tiles.len()
        invariant
            variables.wf(),
            variables.keys() == keys,
            keys == old(variables).keys(),
            before == old(variables).domains(),
            variables.size() == before.len(),
            iy <= tiles@.len(),
            bottom_left.y + tiles@.len() <= usize::MAX + 1,
            forall|r: int|
                0 <= r < tiles@.len() ==> bottom_left.x + (#[trigger] tiles@[r]).len() <= usize::MAX + 1,
            forall|i: int|
                0 <= i < before.len() ==> #[trigger] variables.domains()[i] == partly_placed(
                    bottom_left,
                    tiles@,
                    before,
                    keys,
                    iy as int,
                    0,
                    i,
                ),
        decreases tiles.len() - iy,
    {
        let row = &tiles[iy];
        assert(bottom_left.x + row@.len() <= usize::MAX + 1);
        let mut ix: usize = 0;
        while ix < row.len()
            invariant
                variables.wf(),
                variables.keys() == keys,
                variables.size() == before.len(),
                iy < tiles@.len(),
                *row == tiles@[iy as int],
                bottom_left.y + iy <= usize::MAX,
                bottom_left.x + row@.len() <= usize::MAX + 1,
                ix <= row@.len(),
                forall|i: int|
                    0 <= i < before.len() ==> #[trigger] variables.domains()[i] == partly_placed(
                        bottom_left,
                        tiles@,
                        before,
                        keys,
                        iy as int,
                        ix as int,
                        i,
                    ),
            decreases row.len() - ix,
        {
            let c = Coordinate::new(bottom_left.x + ix, bottom_left.y + iy);
            let ghost cur = variables.domains();
            match variables.find_id(c) {
                Some(id) => {
                    let single = vec![row[ix]];
                    assert(single@ =~= seq![row@[ix as int]]);
                    variables.update_var(id, single);
                    assert forall|i: int| 0 <= i < before.len() implies #[trigger] variables.domains()[i]
                        == partly_placed(bottom_left, tiles@, before, keys, iy as int, ix + 1, i) by {
                        if i != id.id() {
                            assert(keys[i] != c);
                            assert(cur[i] == partly_placed(bottom_left, tiles@, before, keys, iy as int, ix as int, i));
                        }
                    }
                },
                None => {
                    assert forall|i: int| 0 <= i < before.len() implies #[trigger] variables.domains()[i]
                        == partly_placed(bottom_left, tiles@, before, keys, iy as int, ix + 1, i) by {
                        assert(keys[i] != c);
                        assert(cur[i] == partly_placed(bottom_left, tiles@, before, keys, iy as int, ix as int, i));
                    }
                },
            }
            ix = ix + 1;
        }
        assert forall|i: int| 0 <= i < before.len() implies #[trigger] variables.domains()[i]
            == partly_placed(bottom_left, tiles@, before, keys, iy + 1, 0, i) by {
            assert(variables.domains()[i] == partly_placed(bottom_left, tiles@, before, keys, iy as int, ix as int, i));
        }
        iy = iy + 1;
    }
    assert forall|i: int| 0 <= i < before.len() implies #[trigger] variables.domains()[i] == match placed_tile(
        bottom_left,
        tiles@,
        keys[i],
    ) {
        Some(t) => seq![t],
        None => before[i],
    } by {
        assert(variables.domains()[i] == partly_placed(bottom_left, tiles@, before, keys, iy as int, 0, i));
    }
}

} // verus!
