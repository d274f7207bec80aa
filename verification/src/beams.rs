//! A contraption of mirrors and splitters, and the tiles that a beam of
//! light energizes in it.

use crate::galaxies::{flat, lemma_flat_prefix};
use crate::text::{lines_of, split_lines, to_chars, views};
use vstd::prelude::*;

verus! {

/// The four directions in which a beam travels.
#[derive(Debug, Clone, Copy, PartialEq, Eq, Structural)]
pub enum Direction {
    North,
    East,
    South,
    West,
}

/// A beam: where its head is and where it is heading.
#[derive(Debug, Clone, Copy, PartialEq, Eq, Structural)]
pub struct Beam {
    pub x: i32,
    pub y: i32,
    pub d: Direction,
}

/// What stands on a tile.
#[derive(Debug, Clone, Copy, PartialEq, Eq, Structural)]
pub enum Space {
    Empty,
    /// A mirror `/`.
    LeanRight,
    /// A mirror `\`.
    LeanLeft,
    /// A splitter `|`.
    Vertical,
    /// A splitter `-`.
    Horizontal,
}

/// A tile, and for each direction whether a beam heading that way has
/// passed through it.
#[derive(Debug, Clone, Copy, PartialEq, Eq, Structural)]
pub struct Tile {
    pub space: Space,
    pub north: bool,
    pub east: bool,
    pub south: bool,
    pub west: bool,
}

impl Tile {
    /// Whether a beam heading in direction `d` has passed through the tile.
    pub open spec fn passed(&self, d: Direction) -> bool {
        match d {
            Direction::North => self.north,
            Direction::East => self.east,
            Direction::South => self.south,
            Direction::West => self.west,
        }
    }

    /// Whether any beam has passed through the tile.
    pub open spec fn lit(&self) -> bool {
        self.north || self.east || self.south || self.west
    }

    /// A tile through which no beam has passed.
    pub fn new(space: Space) -> (tile: Tile)
        ensures
            tile.space == space,
            !tile.lit(),
    {
        Tile { space, north: false, east: false, south: false, west: false }
    }

    /// Whether any beam has passed through the tile.
    pub fn energized(&self) -> (b: bool)
        ensures
            b == self.lit(),
    {
        self.north || self.east || self.south || self.west
    }

    /// Forgets the beams that have passed through the tile.
    pub fn reset(&mut self)
        ensures
            final(self).space == old(self).space,
            !final(self).lit(),
    {
        self.north = false;
        self.east = false;
        self.south = false;
        self.west = false;
    }
}

impl Direction {
    /// Change of `x` by one step.
    pub open spec fn dx(self) -> int {
        match self {
            Direction::East => 1,
            Direction::West => -1,
            _ => 0,
        }
    }

    /// Change of `y` by one step; `y` grows southwards.
    pub open spec fn dy(self) -> int {
        match self {
            Direction::South => 1,
            Direction::North => -1,
            _ => 0,
        }
    }
}

/// Whether a beam that enters a tile with `space` heading `d` leaves it
/// heading `out`: an empty tile lets it pass, a mirror turns it, and a
/// splitter that it meets side on sends it both ways.
pub open spec fn leaves(space: Space, d: Direction, out: Direction) -> bool {
    match space {
        Space::Empty => out == d,
        Space::LeanRight => out == match d {
            Direction::North => Direction::East,
            Direction::East => Direction::North,
            Direction::South => Direction::West,
            Direction::West => Direction::South,
        },
        Space::LeanLeft => out == match d {
            Direction::North => Direction::West,
            Direction::East => Direction::South,
            Direction::South => Direction::East,
            Direction::West => Direction::North,
        },
        Space::Vertical => if d == Direction::East || d == Direction::West {
            out == Direction::North || out == Direction::South
        } else {
            out == d
        },
        Space::Horizontal => if d == Direction::North || d == Direction::South {
            out == Direction::East || out == Direction::West
        } else {
            out == d
        },
    }
}

/// The directions in which a beam leaves a tile with `space` that it enters
/// heading `d`.
pub fn exits(space: Space, d: Direction) -> (out: (Direction, Option<Direction>))
    ensures
        forall|o: Direction| leaves(space, d, o) <==> (o == out.0 || out.1 == Some(o)),
{
    match space {
        Space::Empty => (d, None),
        Space::LeanRight => match d {
            Direction::North => (Direction::East, None),
            Direction::East => (Direction::North, None),
            Direction::South => (Direction::West, None),
            Direction::West => (Direction::South, None),
        },
        Space::LeanLeft => match d {
            Direction::North => (Direction::West, None),
            Direction::East => (Direction::South, None),
            Direction::South => (Direction::East, None),
            Direction::West => (Direction::North, None),
        },
        Space::Vertical => match d {
            Direction::East => (Direction::North, Some(Direction::South)),
            Direction::West => (Direction::North, Some(Direction::South)),
            _ => (d, None),
        },
        Space::Horizontal => match d {
            Direction::North => (Direction::East, Some(Direction::West)),
            Direction::South => (Direction::East, Some(Direction::West)),
            _ => (d, None),
        },
    }
}

/// The number of directions in which no beam has passed through the tiles.
pub open spec fn dark(tiles: Seq<Tile>) -> nat
    decreases tiles.len(),
{
    if tiles.len() == 0 {
        0
    } else {
        let t = tiles.last();
        dark(tiles.drop_last()) + (if t.north {
            0nat
        } else {
            1nat
        }) + (if t.east {
            0nat
        } else {
            1nat
        }) + (if t.south {
            0nat
        } else {
            1nat
        }) + (if t.west {
            0nat
        } else {
            1nat
        })
    }
}

/// The number of tiles through which a beam has passed.
pub open spec fn lit_count(tiles: Seq<Tile>) -> nat
    decreases tiles.len(),
{
    if tiles.len() == 0 {
        0
    } else {
        lit_count(tiles.drop_last()) + if tiles.last().lit() {
            1nat
        } else {
            0nat
        }
    }
}

/// No more tiles are lit than there are.
pub proof fn lemma_lit_count_bound(tiles: Seq<Tile>)
    ensures
        lit_count(tiles) <= tiles.len(),
    decreases tiles.len(),
{
    if tiles.len() > 0 {
        lemma_lit_count_bound(tiles.drop_last());
    }
}

/// Marking one more direction of one tile leaves one direction less dark.
pub proof fn lemma_dark_update(tiles: Seq<Tile>, i: int, t: Tile, d: Direction)
    requires
        0 <= i < tiles.len(),
        !tiles[i].passed(d),
        t.passed(d),
        t.space == tiles[i].space,
        forall|o: Direction| o != d ==> t.passed(o) == tiles[i].passed(o),
    ensures
        dark(tiles.update(i, t)) + 1 == dark(tiles),
    decreases tiles.len(),
{
    let updated = tiles.update(i, t);
    if i == tiles.len() - 1 {
        assert(updated.drop_last() =~= tiles.drop_last());
        assert(t.passed(Direction::North) == t.north);
        assert(t.passed(Direction::East) == t.east);
        assert(t.passed(Direction::South) == t.south);
        assert(t.passed(Direction::West) == t.west);
        assert(tiles[i].passed(Direction::North) == tiles[i].north);
        assert(tiles[i].passed(Direction::East) == tiles[i].east);
        assert(tiles[i].passed(Direction::South) == tiles[i].south);
        assert(tiles[i].passed(Direction::West) == tiles[i].west);
    } else {
        assert(updated.drop_last() =~= tiles.drop_last().update(i, t));
        lemma_dark_update(tiles.drop_last(), i, t, d);
    }
}

/// A contraption: `w` by `h` tiles, stored row by row.
#[derive(Debug)]
pub struct Contraption {
    pub w: i32,
    pub h: i32,
    pub tiles: Vec<Tile>,
}

impl Contraption {
    /// The contraption holds exactly `w * h` tiles.
    pub open spec fn wf(&self) -> bool {
        &&& 0 <= self.w
        &&& 0 <= self.h
        &&& self.tiles.len() == self.w * self.h
        &&& self.w * self.h <= i32::MAX
    }

    /// Whether `(x, y)` is a place of the contraption.
    pub open spec fn contains(&self, x: int, y: int) -> bool {
        0 <= x < self.w && 0 <= y < self.h
    }

    /// Whether the head of `b` is on the contraption.
    pub open spec fn holds(&self, b: Beam) -> bool {
        self.contains(b.x as int, b.y as int)
    }

    /// The tile at `(x, y)`.
    pub open spec fn at(&self, x: int, y: int) -> Tile {
        self.tiles@[y * self.w + x]
    }

    /// Whether a beam like `b` has passed through the tile at its head.
    pub open spec fn flagged(&self, b: Beam) -> bool {
        self.at(b.x as int, b.y as int).passed(b.d)
    }

    /// Whether the two contraptions have the same size and the same things
    /// standing on their tiles.
    pub open spec fn same_layout(&self, other: &Contraption) -> bool {
        &&& self.w == other.w
        &&& self.h == other.h
        &&& self.tiles@.len() == other.tiles@.len()
        &&& forall|i: int|
            0 <= i < self.tiles@.len() ==> (#[trigger] self.tiles@[i]).space
                == other.tiles@[i].space
    }

    /// Whether the beam `b`, with its head on the contraption, goes on as
    /// the beam `c`, whose head may be off it.
    pub open spec fn follows(&self, b: Beam, c: Beam) -> bool {
        &&& self.holds(b)
        &&& leaves(self.at(b.x as int, b.y as int).space, b.d, c.d)
        &&& c.x == b.x + c.d.dx()
        &&& c.y == b.y + c.d.dy()
    }

    /// Whether the beam at place `i` of `trail` follows the one before it.
    pub open spec fn linked(&self, trail: Seq<Beam>, i: int) -> bool {
        self.follows(trail[i - 1], trail[i])
    }

    /// Whether each beam of `trail` follows the one before it.
    pub open spec fn is_trail(&self, trail: Seq<Beam>) -> bool {
        &&& trail.len() >= 1
        &&& forall|i: int| 1 <= i < trail.len() ==> #[trigger] self.linked(trail, i)
    }

    /// Whether `trail` leads from the beam `start` to the beam `b`.
    pub open spec fn leads(&self, trail: Seq<Beam>, start: Beam, b: Beam) -> bool {
        self.is_trail(trail) && trail[0] == start && trail.last() == b
    }

    /// Whether the beam `start` becomes the beam `b` on the contraption.
    pub open spec fn reaches(&self, start: Beam, b: Beam) -> bool {
        self.holds(b) && exists|trail: Seq<Beam>| #[trigger] self.leads(trail, start, b)
    }

    /// The places of the tiles are inside `tiles`, each at a place of its
    /// own.
    pub proof fn lemma_index(&self, x: int, y: int)
        requires
            self.wf(),
            self.contains(x, y),
        ensures
            0 <= y * self.w <= y * self.w + x < self.tiles@.len(),
            y * self.w + x <= i32::MAX,
    {
        assert(0 <= y * self.w && y * self.w + self.w <= self.h * self.w) by (nonlinear_arith)
            requires
                0 <= y < self.h,
                0 <= self.w,
        ;
        assert(self.h * self.w == self.w * self.h) by (nonlinear_arith);
    }

    /// Tiles at different places are stored at different places.
    pub proof fn lemma_index_unique(&self, x1: int, y1: int, x2: int, y2: int)
        requires
            self.wf(),
            self.contains(x1, y1),
            self.contains(x2, y2),
            y1 * self.w + x1 == y2 * self.w + x2,
        ensures
            x1 == x2,
            y1 == y2,
    {
        crate::heat::tree::lemma_mixed_radix(self.w as int, y1, x1, y2, x2);
    }

    /// The tile at `(x, y)`, to write to.
    pub fn get_mut(&mut self, x: i32, y: i32) -> (tile: &mut Tile)
        requires
            old(self).wf(),
            old(self).contains(x as int, y as int),
        ensures
            *tile == old(self).at(x as int, y as int),
            final(self).w == old(self).w,
            final(self).h == old(self).h,
            final(self).tiles@ == old(self).tiles@.update(y * old(self).w + x, *final(tile)),
    {
        proof {
            self.lemma_index(x as int, y as int);
        }
        let index = y * self.w + x;
        &mut self.tiles[index as usize]
    }

    /// Forgets all beams.
    pub fn reset(&mut self)
        ensures
            final(self).same_layout(old(self)),
            forall|i: int| 0 <= i < final(self).tiles@.len() ==> !(#[trigger] final(self).tiles@[i]).lit(),
    {
        let ghost before = self.tiles@;
        let ghost size = (self.w, self.h);
        let mut i: usize = 0;
        while i < self.tiles.len()
            invariant
                i <= self.tiles@.len(),
                self.w == size.0,
                self.h == size.1,
                self.tiles@.len() == before.len(),
                forall|k: int|
                    0 <= k < self.tiles@.len() ==> (#[trigger] self.tiles@[k]).space
                        == before[k].space,
                forall|k: int| 0 <= k < i ==> !(#[trigger] self.tiles@[k]).lit(),
            decreases self.tiles@.len() - i,
        {
            let space = self.tiles[i].space;
            self.tiles.set(i, Tile::new(space));
            i += 1;
        }
    }

    /// What holds while the beams are followed: every beam that is marked
    /// on a tile or waits in `waiting` comes from `start`; every beam that
    /// follows a marked beam is marked or waits; and so does `start`.
    #[verifier::opaque]
    pub open spec fn sweeping(&self, start: Beam, waiting: Seq<Beam>) -> bool {
        &&& self.wf()
        &&& forall|b: Beam| #[trigger] self.holds(b) && self.flagged(b) ==> self.reaches(start, b)
        &&& forall|i: int|
            0 <= i < waiting.len() && self.holds(#[trigger] waiting[i]) ==> self.reaches(
                start,
                waiting[i],
            )
        &&& forall|b: Beam, c: Beam|
            self.flagged(b) && #[trigger] self.follows(b, c) && self.holds(c) ==> self.flagged(c)
                || waiting.contains(c)
        &&& self.holds(start) ==> self.flagged(start) || waiting.contains(start)
    }

    /// Before any beam is followed, with `start` alone waiting.
    pub proof fn lemma_sweep_begins(&self, start: Beam)
        requires
            self.wf(),
            forall|i: int| 0 <= i < self.tiles@.len() ==> !(#[trigger] self.tiles@[i]).lit(),
        ensures
            self.sweeping(start, seq![start]),
    {
        reveal(Contraption::sweeping);
        let waiting = seq![start];
        assert forall|b: Beam| #[trigger] self.holds(b) implies !self.flagged(b) by {
            self.lemma_index(b.x as int, b.y as int);
            assert(!self.tiles@[b.y * self.w + b.x].lit());
        }
        assert(self.leads(seq![start], start, start));
        assert(waiting[0] == start);
        assert forall|b: Beam, c: Beam|
            self.flagged(b) && #[trigger] self.follows(b, c) && self.holds(
                c,
            ) implies self.flagged(c) || waiting.contains(c) by {
            assert(self.holds(b));
        }
    }

    /// A waiting beam whose head is off the contraption, or which is marked
    /// already, can be dropped.
    pub proof fn lemma_sweep_drops(&self, start: Beam, waiting: Seq<Beam>)
        requires
            waiting.len() > 0,
            self.sweeping(start, waiting),
            !self.holds(waiting.last()) || self.flagged(waiting.last()),
        ensures
            self.sweeping(start, waiting.drop_last()),
    {
        reveal(Contraption::sweeping);
        let rest = waiting.drop_last();
        let b0 = waiting.last();
        assert forall|i: int| 0 <= i < rest.len() && self.holds(
            #[trigger] rest[i],
        ) implies self.reaches(start, rest[i]) by {
            assert(rest[i] == waiting[i]);
        }
        assert forall|c: Beam| waiting.contains(c) && self.holds(c) implies self.flagged(c)
            || rest.contains(c) by {
            let i = choose|i: int| 0 <= i < waiting.len() && waiting[i] == c;
            if i < rest.len() {
                assert(rest[i] == c);
            }
        }
        assert forall|b: Beam, c: Beam|
            self.flagged(b) && #[trigger] self.follows(b, c) && self.holds(
                c,
            ) implies self.flagged(c) || rest.contains(c) by {
        }
    }

    /// Marking the waiting beam `b` on its tile and letting the beams that
    /// follow it wait in its place.
    pub proof fn lemma_sweep_marks(
        &self,
        after: &Contraption,
        start: Beam,
        waiting: Seq<Beam>,
        later: Seq<Beam>,
    )
        requires
            waiting.len() > 0,
            self.sweeping(start, waiting),
            self.holds(waiting.last()),
            !self.flagged(waiting.last()),
            after.w == self.w,
            after.h == self.h,
            after.tiles@ == self.tiles@.update(
                waiting.last().y * self.w + waiting.last().x,
                after.at(waiting.last().x as int, waiting.last().y as int),
            ),
            after.flagged(waiting.last()),
            after.at(waiting.last().x as int, waiting.last().y as int).space == self.at(
                waiting.last().x as int,
                waiting.last().y as int,
            ).space,
            forall|o: Direction|
                o != waiting.last().d ==> after.at(
                    waiting.last().x as int,
                    waiting.last().y as int,
                ).passed(o) == self.at(waiting.last().x as int, waiting.last().y as int).passed(o),
            forall|i: int| 0 <= i < waiting.len() - 1 ==> later.contains(#[trigger] waiting[i]),
            forall|c: Beam| #[trigger] self.follows(waiting.last(), c) ==> later.contains(c),
            forall|i: int|
                0 <= i < later.len() ==> waiting.drop_last().contains(#[trigger] later[i])
                    || self.follows(waiting.last(), later[i]),
        ensures
            after.sweeping(start, later),
            after.same_layout(self),
            dark(after.tiles@) + 1 == dark(self.tiles@),
    {
        reveal(Contraption::sweeping);
        let b0 = waiting.last();
        let at0 = b0.y * self.w + b0.x;
        self.lemma_index(b0.x as int, b0.y as int);
        lemma_dark_update(
            self.tiles@,
            at0,
            after.at(b0.x as int, b0.y as int),
            b0.d,
        );
        assert forall|i: int| 0 <= i < after.tiles@.len() implies (#[trigger] after.tiles@[i]).space
            == self.tiles@[i].space by {
        }
        // Every beam marked before is marked still; the one new mark is `b0`.
        assert forall|b: Beam| #[trigger] self.holds(b) implies (after.flagged(b) <==> self.flagged(
            b,
        ) || b == b0) && after.at(b.x as int, b.y as int).space == self.at(
            b.x as int,
            b.y as int,
        ).space by {
            self.lemma_index(b.x as int, b.y as int);
            if b.y * self.w + b.x == at0 {
                self.lemma_index_unique(b.x as int, b.y as int, b0.x as int, b0.y as int);
            }
        }
        assert forall|p: Beam, c: Beam| after.follows(p, c) <==> self.follows(p, c) by {
            if self.holds(p) {
                assert(after.at(p.x as int, p.y as int).space == self.at(
                    p.x as int,
                    p.y as int,
                ).space);
            }
        }
        assert forall|trail: Seq<Beam>| self.is_trail(trail) implies after.is_trail(trail) by {
            assert forall|i: int| 1 <= i < trail.len() implies #[trigger] after.linked(
                trail,
                i,
            ) by {
                assert(self.linked(trail, i));
            }
        }
        assert(self.reaches(start, b0)) by {
            assert(waiting[waiting.len() - 1] == b0);
        }
        assert forall|b: Beam| #[trigger] after.holds(b) && after.flagged(
            b,
        ) implies after.reaches(start, b) by {
            assert(self.holds(b));
            assert(self.reaches(start, b));
            let trail = choose|trail: Seq<Beam>| #[trigger] self.leads(trail, start, b);
            assert(after.leads(trail, start, b));
        }
        assert forall|i: int| 0 <= i < later.len() && after.holds(
            #[trigger] later[i],
        ) implies after.reaches(start, later[i]) by {
            let c = later[i];
            if waiting.drop_last().contains(c) {
                let k = choose|k: int| 0 <= k < waiting.drop_last().len() && waiting.drop_last()[k]
                    == c;
                assert(waiting[k] == c);
                assert(self.reaches(start, c));
                let trail = choose|trail: Seq<Beam>| #[trigger] self.leads(trail, start, c);
                assert(after.leads(trail, start, c));
            } else {
                let trail = choose|trail: Seq<Beam>| #[trigger] self.leads(trail, start, b0);
                let longer = trail.push(c);
                assert(after.follows(b0, c));
                assert forall|i: int| 1 <= i < longer.len() implies #[trigger] after.linked(
                    longer,
                    i,
                ) by {
                    if i < trail.len() {
                        assert(self.linked(trail, i));
                        assert(longer[i] == trail[i] && longer[i - 1] == trail[i - 1]);
                    }
                }
                assert(after.leads(longer, start, c));
            }
        }
        assert forall|c: Beam| waiting.contains(c) implies later.contains(c) || c == b0 by {
            let i = choose|i: int| 0 <= i < waiting.len() && waiting[i] == c;
            if i < waiting.len() - 1 {
                assert(later.contains(waiting[i]));
            }
        }
        assert forall|b: Beam, c: Beam|
            after.flagged(b) && #[trigger] after.follows(b, c) && after.holds(
                c,
            ) implies after.flagged(c) || later.contains(c) by {
            assert(self.follows(b, c));
            assert(self.holds(b));
            assert(self.holds(c));
            if b == b0 {
            } else {
                assert(self.flagged(b));
            }
        }
    }

    /// Once no beam waits, every beam on a trail from `start` whose head is
    /// on the contraption is marked.
    pub proof fn lemma_sweep_complete(&self, start: Beam, trail: Seq<Beam>, k: int)
        requires
            self.sweeping(start, Seq::<Beam>::empty()),
            self.is_trail(trail),
            trail[0] == start,
            0 <= k < trail.len(),
            self.holds(trail[k]),
        ensures
            self.flagged(trail[k]),
        decreases k,
    {
        reveal(Contraption::sweeping);
        let none = Seq::<Beam>::empty();
        if k > 0 {
            assert(self.linked(trail, k));
            self.lemma_sweep_complete(start, trail, k - 1);
            assert(self.follows(trail[k - 1], trail[k]));
            assert(!none.contains(trail[k]));
        } else {
            assert(!none.contains(start));
        }
    }

    /// Once no beam waits, exactly the beams that `start` becomes are
    /// marked.
    pub proof fn lemma_sweep_ends(&self, start: Beam)
        requires
            self.sweeping(start, Seq::<Beam>::empty()),
        ensures
            forall|b: Beam| #[trigger] self.holds(b) ==> (self.flagged(b) <==> self.reaches(start, b)),
    {
        assert forall|b: Beam| #[trigger] self.holds(b) implies (self.flagged(b) <==> self.reaches(
            start,
            b,
        )) by {
            if self.flagged(b) {
                reveal(Contraption::sweeping);
            }
            if self.reaches(start, b) {
                let trail = choose|trail: Seq<Beam>| #[trigger] self.leads(trail, start, b);
                self.lemma_sweep_complete(start, trail, trail.len() - 1);
            }
        }
    }

    /// Whether `(x, y)` is a place of the contraption.
    fn on_board(&self, x: i32, y: i32) -> (b: bool)
        ensures
            b == self.contains(x as int, y as int),
    {
        0 <= x && x < self.w && 0 <= y && y < self.h
    }

    /// The beam that goes on from the beam `b`, whose head is on the
    /// contraption, in direction `d`.
    fn ahead(&self, b: &Beam, d: Direction) -> (c: Beam)
        requires
            self.holds(*b),
        ensures
            c.d == d,
            c.x == b.x + d.dx(),
            c.y == b.y + d.dy(),
    {
        let (x, y) = (b.x, b.y);
        let (x, y) = match d {
            Direction::North => (x, y - 1),
            Direction::East => (x + 1, y),
            Direction::South => (x, y + 1),
            Direction::West => (x - 1, y),
        };
        Beam { x, y, d }
    }

    /// Lets the beam `beam` into the contraption, from which all earlier
    /// beams are forgotten, marks on every tile the beams that pass through
    /// it, and counts the tiles through which one passes.
    pub fn energized(&mut self, beam: Beam) -> (energized: i32)
        requires
            old(self).wf(),
        ensures
            final(self).wf(),
            final(self).same_layout(old(self)),
            forall|b: Beam|
                #[trigger] final(self).holds(b) ==> (final(self).flagged(b)
                    <==> final(self).reaches(beam, b)),
            energized == lit_count(final(self).tiles@),
            final(self).tiles@ == old(self).swept(beam),
            energized == old(self).energy(beam),
    {
        let ghost entry = *self;
        self.reset();
        let mut beams: Vec<Beam> = Vec::new();
        beams.push(beam);
        proof {
            self.lemma_sweep_begins(beam);
            assert(beams@ =~= seq![beam]);
        }
        while beams.len() > 0
            invariant
                self.sweeping(beam, beams@),
                self.wf(),
                self.same_layout(&entry),
            decreases 3 * dark(self.tiles@) + beams@.len(),
        {
            let ghost waiting = beams@;
            let ghost before = *self;
            let b = beams.pop().unwrap();
            proof {
                assert(beams@ =~= waiting.drop_last());
                assert(b == waiting.last());
            }
            if !self.on_board(b.x, b.y) {
                proof {
                    before.lemma_sweep_drops(beam, waiting);
                }
                continue ;
            }
            proof {
                self.lemma_index(b.x as int, b.y as int);
            }
            let index = (b.y * self.w + b.x) as usize;
            let tile = self.tiles[index];
            let repetition = match b.d {
                Direction::North => tile.north,
                Direction::East => tile.east,
                Direction::South => tile.south,
                Direction::West => tile.west,
            };
            if repetition {
                proof {
                    before.lemma_sweep_drops(beam, waiting);
                }
                continue ;
            }
            let marked = match b.d {
                Direction::North => Tile { north: true, ..tile },
                Direction::East => Tile { east: true, ..tile },
                Direction::South => Tile { south: true, ..tile },
                Direction::West => Tile { west: true, ..tile },
            };
            self.tiles.set(index, marked);
            let (first, second) = exits(tile.space, b.d);
            let c1 = self.ahead(&b, first);
            let ghost rest = beams@;
            beams.push(c1);
            match second {
                Some(d2) => {
                    let c2 = self.ahead(&b, d2);
                    beams.push(c2);
                    proof {
                        assert(beams@[rest.len() as int] == c1);
                        assert(beams@[rest.len() as int + 1] == c2);
                    }
                },
                None => {
                    proof {
                        assert(beams@[rest.len() as int] == c1);
                    }
                },
            }
            proof {
                let later = beams@;
                assert forall|i: int| 0 <= i < waiting.len() - 1 implies later.contains(
                    #[trigger] waiting[i],
                ) by {
                    assert(later[i] == waiting[i]);
                }
                assert forall|c: Beam| #[trigger] before.follows(b, c) implies later.contains(
                    c,
                ) by {
                    assert(leaves(tile.space, b.d, c.d));
                    if c.d == first {
                        assert(c == c1);
                        assert(later[rest.len() as int] == c);
                    } else {
                        assert(second == Some(c.d));
                        assert(later[rest.len() as int + 1] == c);
                    }
                }
                assert forall|i: int| 0 <= i < later.len() implies waiting.drop_last().contains(
                    #[trigger] later[i],
                ) || before.follows(b, later[i]) by {
                    if i < rest.len() {
                        assert(rest[i] == later[i]);
                    } else if i == rest.len() {
                        assert(leaves(tile.space, b.d, first));
                    } else {
                        assert(leaves(tile.space, b.d, second.unwrap()));
                    }
                }
                before.lemma_sweep_marks(self, beam, waiting, later);
                assert forall|i: int| 0 <= i < self.tiles@.len() implies (#[trigger] self.tiles@[i]).space
                    == entry.tiles@[i].space by {
                    assert(before.tiles@[i].space == entry.tiles@[i].space);
                }
            }
        }
        proof {
            assert(beams@ =~= Seq::<Beam>::empty());
            self.lemma_sweep_ends(beam);
            lemma_lit_count_bound(self.tiles@);
        }
        let mut energized: i32 = 0;
        let mut i: usize = 0;
        while i < self.tiles.len()
            invariant
                i <= self.tiles@.len(),
                self.tiles@.len() <= i32::MAX,
                energized == lit_count(self.tiles@.take(i as int)),
                energized <= i,
            decreases self.tiles@.len() - i,
        {
            proof {
                assert(self.tiles@.take(i + 1).drop_last() =~= self.tiles@.take(i as int));
            }
            if self.tiles[i].energized() {
                energized += 1;
            }
            i += 1;
        }
        proof {
            assert(self.tiles@.take(i as int) =~= self.tiles@);
            self.lemma_swept(&entry, beam);
        }
        energized
    }

    /// The beam with its head at `(x, y)` that is heading `d`.
    pub open spec fn beam_at(i: int, w: int, d: Direction) -> Beam {
        Beam { x: (i % w) as i32, y: (i / w) as i32, d }
    }

    /// The tiles of the contraption with the marks of exactly the beams
    /// that `start` becomes.
    pub open spec fn swept(&self, start: Beam) -> Seq<Tile> {
        Seq::new(
            self.tiles@.len(),
            |i: int|
                Tile {
                    space: self.tiles@[i].space,
                    north: self.reaches(start, Self::beam_at(i, self.w as int, Direction::North)),
                    east: self.reaches(start, Self::beam_at(i, self.w as int, Direction::East)),
                    south: self.reaches(start, Self::beam_at(i, self.w as int, Direction::South)),
                    west: self.reaches(start, Self::beam_at(i, self.w as int, Direction::West)),
                },
        )
    }

    /// The number of tiles through which a beam passes when `start` is let
    /// in.
    pub open spec fn energy(&self, start: Beam) -> nat {
        lit_count(self.swept(start))
    }

    /// What beams a beam becomes depends on the layout alone.
    pub proof fn lemma_reaches_same(&self, other: &Contraption, start: Beam, b: Beam)
        requires
            self.wf(),
            self.same_layout(other),
        ensures
            self.reaches(start, b) == other.reaches(start, b),
    {
        assert forall|p: Beam, c: Beam| self.follows(p, c) == other.follows(p, c) by {
            if self.holds(p) {
                self.lemma_index(p.x as int, p.y as int);
                assert(self.tiles@[p.y * self.w + p.x].space == other.tiles@[p.y * self.w
                    + p.x].space);
            }
        }
        assert forall|trail: Seq<Beam>| self.is_trail(trail) == other.is_trail(trail) by {
            if self.is_trail(trail) {
                assert forall|i: int| 1 <= i < trail.len() implies #[trigger] other.linked(
                    trail,
                    i,
                ) by {
                    assert(self.linked(trail, i));
                }
            }
            if other.is_trail(trail) {
                assert forall|i: int| 1 <= i < trail.len() implies #[trigger] self.linked(
                    trail,
                    i,
                ) by {
                    assert(other.linked(trail, i));
                }
            }
        }
        if self.reaches(start, b) {
            let trail = choose|trail: Seq<Beam>| #[trigger] self.leads(trail, start, b);
            assert(other.leads(trail, start, b));
        }
        if other.reaches(start, b) {
            let trail = choose|trail: Seq<Beam>| #[trigger] other.leads(trail, start, b);
            assert(self.leads(trail, start, b));
        }
    }

    /// Tiles that carry the marks of exactly the beams that `start` becomes
    /// are the swept tiles of any contraption of the same layout.
    pub proof fn lemma_swept(&self, entry: &Contraption, start: Beam)
        requires
            self.wf(),
            self.same_layout(entry),
            forall|b: Beam| #[trigger] self.holds(b) ==> (self.flagged(b) <==> self.reaches(start, b)),
        ensures
            self.tiles@ == entry.swept(start),
    {
        let w = self.w as int;
        assert forall|i: int| 0 <= i < self.tiles@.len() implies self.tiles@[i] == entry.swept(
            start,
        )[i] by {
            assert(w > 0) by {
                if w == 0 {
                    assert(self.w * self.h == 0) by (nonlinear_arith)
                        requires
                            self.w == 0,
                    ;
                }
            }
            let x = i % w;
            let y = i / w;
            vstd::arithmetic::div_mod::lemma_fundamental_div_mod(i, w);
            vstd::arithmetic::div_mod::lemma_div_pos_is_pos(i, w);
            assert(0 <= x < w);
            assert(i == w * y + x);
            assert(w * y == y * w) by (nonlinear_arith);
            assert(y < self.h) by {
                if y >= self.h {
                    assert(y * w >= self.h * w) by (nonlinear_arith)
                        requires
                            y >= self.h,
                            w > 0,
                    ;
                    assert(self.h * w == self.w * self.h) by (nonlinear_arith)
                        requires
                            w == self.w,
                    ;
                }
            }
            let t = self.tiles@[i];
            let north = Self::beam_at(i, w, Direction::North);
            let east = Self::beam_at(i, w, Direction::East);
            let south = Self::beam_at(i, w, Direction::South);
            let west = Self::beam_at(i, w, Direction::West);
            assert(self.holds(north) && self.holds(east) && self.holds(south) && self.holds(west));
            assert(self.flagged(north) == t.north);
            assert(self.flagged(east) == t.east);
            assert(self.flagged(south) == t.south);
            assert(self.flagged(west) == t.west);
            self.lemma_reaches_same(entry, start, north);
            self.lemma_reaches_same(entry, start, east);
            self.lemma_reaches_same(entry, start, south);
            self.lemma_reaches_same(entry, start, west);
        }
        assert(self.tiles@ =~= entry.swept(start));
    }

    /// The beams that can be let in at the edge: down into every column,
    /// up into every column, right into every row, left into every row.
    pub open spec fn edge_beams(&self) -> Seq<Beam> {
        let w = self.w as int;
        let h = self.h as int;
        Seq::new(w as nat, |x: int| Beam { x: x as i32, y: 0, d: Direction::South }) + Seq::new(
            w as nat,
            |x: int| Beam { x: x as i32, y: (h - 1) as i32, d: Direction::North },
        ) + Seq::new(h as nat, |y: int| Beam { x: 0, y: y as i32, d: Direction::East }) + Seq::new(
            h as nat,
            |y: int| Beam { x: (w - 1) as i32, y: y as i32, d: Direction::West },
        )
    }

    /// The largest number of tiles that any of the first `k` of `starts`
    /// energizes; 0 for none.
    pub open spec fn best_energy(&self, starts: Seq<Beam>, k: int) -> nat
        decreases k,
    {
        if k <= 0 {
            0
        } else {
            let before = self.best_energy(starts, k - 1);
            let this = self.energy(starts[k - 1]);
            if this > before {
                this
            } else {
                before
            }
        }
    }

    /// Energy depends on the layout alone.
    pub proof fn lemma_energy_same(&self, other: &Contraption, start: Beam)
        requires
            self.wf(),
            self.same_layout(other),
        ensures
            self.energy(start) == other.energy(start),
    {
        assert forall|i: int| 0 <= i < self.tiles@.len() implies self.swept(start)[i]
            == other.swept(start)[i] by {
            self.lemma_reaches_same(other, start, Self::beam_at(i, self.w as int, Direction::North));
            self.lemma_reaches_same(other, start, Self::beam_at(i, self.w as int, Direction::East));
            self.lemma_reaches_same(other, start, Self::beam_at(i, self.w as int, Direction::South));
            self.lemma_reaches_same(other, start, Self::beam_at(i, self.w as int, Direction::West));
        }
        assert(self.swept(start) =~= other.swept(start));
    }

    /// The largest number of tiles that a beam let in at the edge
    /// energizes.
    pub fn max_energized(&mut self) -> (best: i32)
        requires
            old(self).wf(),
        ensures
            final(self).wf(),
            final(self).same_layout(old(self)),
            best == old(self).best_energy(old(self).edge_beams(), old(self).edge_beams().len() as int),
    {
        let ghost entry = *self;
        let ghost starts = self.edge_beams();
        let w = self.w;
        let h = self.h;
        let mut best: i32 = 0;
        let mut side: usize = 0;
        while side < 4
            invariant
                side <= 4,
                self.wf(),
                entry.wf(),
                self.same_layout(&entry),
                entry == *old(self),
                w == entry.w,
                h == entry.h,
                starts == entry.edge_beams(),
                starts.len() == 2 * w + 2 * h,
                best == entry.best_energy(
                    starts,
                    if side == 0 {
                        0int
                    } else if side == 1 {
                        w as int
                    } else if side == 2 {
                        2 * w
                    } else if side == 3 {
                        2 * w + h
                    } else {
                        2 * w + 2 * h
                    },
                ),
            decreases 4 - side,
        {
            let count = if side < 2 {
                w
            } else {
                h
            };
            let ghost base: int = if side == 0 {
                0int
            } else if side == 1 {
                w as int
            } else if side == 2 {
                2 * w
            } else {
                2 * w + h
            };
            let mut k: i32 = 0;
            while k < count
                invariant
                    0 <= k <= count,
                    side < 4,
                    count == if side < 2 {
                        w
                    } else {
                        h
                    },
                    base == if side == 0 {
                        0int
                    } else if side == 1 {
                        w as int
                    } else if side == 2 {
                        2 * w
                    } else {
                        2 * w + h
                    },
                    self.wf(),
                    entry.wf(),
                    self.same_layout(&entry),
                    entry == *old(self),
                    w == entry.w,
                    h == entry.h,
                    starts == entry.edge_beams(),
                    starts.len() == 2 * w + 2 * h,
                    best == entry.best_energy(starts, base + k),
                decreases count - k,
            {
                let beam = if side == 0 {
                    Beam { x: k, y: 0, d: Direction::South }
                } else if side == 1 {
                    Beam { x: k, y: h - 1, d: Direction::North }
                } else if side == 2 {
                    Beam { x: 0, y: k, d: Direction::East }
                } else {
                    Beam { x: w - 1, y: k, d: Direction::West }
                };
                proof {
                    assert(starts[base + k] == beam);
                    self.lemma_energy_same(&entry, beam);
                }
                let ghost before = *self;
                let energized = self.energized(beam);
                proof {
                    assert forall|i: int| 0 <= i < self.tiles@.len() implies (
                    #[trigger] self.tiles@[i]).space == entry.tiles@[i].space by {
                        assert(before.tiles@[i].space == entry.tiles@[i].space);
                    }
                }
                if energized > best {
                    best = energized;
                }
                k += 1;
            }
            side += 1;
        }
        best
    }
}

/// What the character `c` puts on a tile.
pub open spec fn space_of(c: char) -> Option<Space> {
    if c == '.' {
        Some(Space::Empty)
    } else if c == '/' {
        Some(Space::LeanRight)
    } else if c == '\\' {
        Some(Space::LeanLeft)
    } else if c == '|' {
        Some(Space::Vertical)
    } else if c == '-' {
        Some(Space::Horizontal)
    } else {
        None
    }
}

/// Whether `s` reads as a contraption: at least one line, nothing but
/// characters that put something on a tile, and no more tiles or lines
/// than a 32-bit number counts.
pub open spec fn is_contraption_text(s: Seq<char>) -> bool {
    &&& 1 <= lines_of(s).len() <= i32::MAX
    &&& flat(lines_of(s)).len() <= i32::MAX
    &&& forall|i: int|
        0 <= i < flat(lines_of(s)).len() ==> space_of(#[trigger] flat(lines_of(s))[i]) is Some
}

impl Contraption {
    /// Reads a contraption, one row of tiles from each line. The width is
    /// the number of tiles by the number of lines.
    pub fn parse(s: &str) -> (c: Contraption)
        requires
            is_contraption_text(s@),
        ensures
            c.h == lines_of(s@).len(),
            c.w == flat(lines_of(s@)).len() / lines_of(s@).len(),
            c.tiles@.len() == flat(lines_of(s@)).len(),
            forall|i: int|
                0 <= i < c.tiles@.len() ==> Some((#[trigger] c.tiles@[i]).space) == space_of(
                    flat(lines_of(s@))[i],
                ) && !c.tiles@[i].lit(),
    {
        let chars = to_chars(s);
        let lines = split_lines(&chars);
        let ghost rows = lines_of(s@);
        let mut tiles: Vec<Tile> = Vec::new();
        let mut y: usize = 0;
        while y < lines.len()
            invariant
                y <= lines@.len(),
                rows == lines_of(s@),
                views(lines@) == rows,
                is_contraption_text(s@),
                tiles@.len() == flat(rows.take(y as int)).len(),
                forall|i: int|
                    0 <= i < tiles@.len() ==> Some((#[trigger] tiles@[i]).space) == space_of(
                        flat(rows.take(y as int))[i],
                    ) && !tiles@[i].lit(),
            decreases lines@.len() - y,
        {
            let line = &lines[y];
            let ghost before = flat(rows.take(y as int));
            proof {
                assert(views(lines@)[y as int] == line@);
                assert(rows.take(y + 1).drop_last() =~= rows.take(y as int));
                assert(rows.take(y + 1).last() == line@);
                lemma_flat_prefix(rows, y + 1);
            }
            let mut x: usize = 0;
            while x < line.len()
                invariant
                    x <= line@.len(),
                    flat(rows) =~= flat(rows.take(y + 1)) + flat(rows).skip(
                        flat(rows.take(y + 1)).len() as int,
                    ),
                    flat(rows.take(y + 1)) == before + line@,
                    rows == lines_of(s@),
                    is_contraption_text(s@),
                    tiles@.len() == before.len() + x,
                    forall|i: int|
                        0 <= i < tiles@.len() ==> Some((#[trigger] tiles@[i]).space) == space_of(
                            (before + line@)[i],
                        ) && !tiles@[i].lit(),
                decreases line@.len() - x,
            {
                let c = line[x];
                proof {
                    let all = flat(rows);
                    let at = before.len() + x;
                    assert(all[at] == (before + line@)[at]);
                    assert(space_of(all[at]) is Some);
                }
                let space = if c == '.' {
                    Space::Empty
                } else if c == '/' {
                    Space::LeanRight
                } else if c == '\\' {
                    Space::LeanLeft
                } else if c == '|' {
                    Space::Vertical
                } else {
                    Space::Horizontal
                };
                tiles.push(Tile::new(space));
                x += 1;
            }
            y += 1;
        }
        proof {
            assert(rows.take(y as int) =~= rows);
        }
        let h = lines.len() as i32;
        let w = tiles.len() as i32 / h;
        Contraption { w, h, tiles }
    }
}

} // verus!
