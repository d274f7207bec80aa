//! A sketch of pipes: the loop that runs through the start, and the tiles
//! that the loop encloses.

use crate::text::{lines_of, split_lines, to_chars, views};
use vstd::prelude::*;

verus! {

/// The kinds of tiles. A bend is named after the two directions it joins.
#[derive(Debug, PartialEq, Eq, Clone, Copy, Structural)]
pub enum Kind {
    Vertical,
    Horizontal,
    NorthEast,
    NorthWest,
    SouthWest,
    SouthEast,
    Ground,
    Start,
}

/// Where a tile lies with respect to the loop.
#[derive(Debug, PartialEq, Eq, Clone, Copy, Structural)]
pub enum Topology {
    Boundary,
    Inside,
    Outside,
    Unknown,
}

/// A tile of the sketch.
#[derive(Debug, Clone, Copy, PartialEq, Eq, Structural)]
pub struct Tile {
    pub kind: Kind,
    pub topology: Topology,
}

/// The four directions in which the loop is walked.
#[derive(Debug, PartialEq, Eq, Clone, Copy, Structural)]
pub enum Direction {
    North,
    South,
    West,
    East,
}

/// The kind of tile that the character `c` draws, if it draws one.
pub open spec fn kind_of(c: char) -> Option<Kind> {
    if c == '|' {
        Some(Kind::Vertical)
    } else if c == '-' {
        Some(Kind::Horizontal)
    } else if c == 'L' {
        Some(Kind::NorthEast)
    } else if c == 'J' {
        Some(Kind::NorthWest)
    } else if c == '7' {
        Some(Kind::SouthWest)
    } else if c == 'F' {
        Some(Kind::SouthEast)
    } else if c == '.' {
        Some(Kind::Ground)
    } else if c == 'S' {
        Some(Kind::Start)
    } else {
        None
    }
}

impl Kind {
    /// Whether the tile is a pipe with two ends.
    pub open spec fn is_pipe(&self) -> bool {
        !(self is Ground) && !(self is Start)
    }

    /// The turn that a walker makes on a tile of this kind when walking in
    /// direction `dir`: 1 for a turn to the right, -1 for one to the left,
    /// 0 for none. A bend entered the one way turns right; entered any
    /// other way it counts as a turn to the left.
    pub open spec fn turn(&self, dir: Direction) -> int {
        match self {
            Kind::NorthEast => if dir == Direction::West {
                1
            } else {
                -1
            },
            Kind::NorthWest => if dir == Direction::South {
                1
            } else {
                -1
            },
            Kind::SouthWest => if dir == Direction::East {
                1
            } else {
                -1
            },
            Kind::SouthEast => if dir == Direction::North {
                1
            } else {
                -1
            },
            _ => 0,
        }
    }

    /// The direction in which a walker leaves a pipe of this kind after
    /// walking onto it in direction `dir`.
    pub open spec fn leads(&self, dir: Direction) -> Direction {
        match self {
            Kind::Vertical => if dir == Direction::North {
                Direction::North
            } else {
                Direction::South
            },
            Kind::Horizontal => if dir == Direction::East {
                Direction::East
            } else {
                Direction::West
            },
            Kind::NorthEast => if dir == Direction::West {
                Direction::North
            } else {
                Direction::East
            },
            Kind::NorthWest => if dir == Direction::East {
                Direction::North
            } else {
                Direction::West
            },
            Kind::SouthWest => if dir == Direction::East {
                Direction::South
            } else {
                Direction::West
            },
            Kind::SouthEast => if dir == Direction::West {
                Direction::South
            } else {
                Direction::East
            },
            _ => dir,
        }
    }

    /// The kind of tile that `c` draws.
    pub fn parse(c: char) -> (kind: Kind)
        requires
            kind_of(c) is Some,
        ensures
            Some(kind) == kind_of(c),
    {
        if c == '|' {
            Kind::Vertical
        } else if c == '-' {
            Kind::Horizontal
        } else if c == 'L' {
            Kind::NorthEast
        } else if c == 'J' {
            Kind::NorthWest
        } else if c == '7' {
            Kind::SouthWest
        } else if c == 'F' {
            Kind::SouthEast
        } else if c == '.' {
            Kind::Ground
        } else {
            Kind::Start
        }
    }

    /// The turn that a walker makes on a tile of this kind when walking in
    /// direction `dir`.
    pub fn orientation(&self, dir: &Direction) -> (turn: i32)
        ensures
            turn == self.turn(*dir),
    {
        match self {
            Kind::Vertical => 0,
            Kind::Horizontal => 0,
            Kind::NorthEast => if *dir == Direction::West {
                1
            } else {
                -1
            },
            Kind::NorthWest => if *dir == Direction::South {
                1
            } else {
                -1
            },
            Kind::SouthWest => if *dir == Direction::East {
                1
            } else {
                -1
            },
            Kind::SouthEast => if *dir == Direction::North {
                1
            } else {
                -1
            },
            Kind::Ground => 0,
            Kind::Start => 0,
        }
    }
}

impl Tile {
    /// The tile that `c` draws, of which nothing is known yet.
    pub fn parse(c: char) -> (tile: Tile)
        requires
            kind_of(c) is Some,
        ensures
            Some(tile.kind) == kind_of(c),
            tile.topology is Unknown,
    {
        Tile { kind: Kind::parse(c), topology: Topology::Unknown }
    }
}

/// A sketch: rows of tiles, all of one width, and the place of the start.
#[derive(Debug)]
pub struct Sketch {
    pub tiles: Vec<Vec<Tile>>,
    pub width: i32,
    pub height: i32,
    pub start: (i32, i32),
}

impl Sketch {
    /// The sketch has `height` rows of `width` tiles each.
    pub open spec fn wf(&self) -> bool {
        &&& 0 <= self.width
        &&& 0 <= self.height
        &&& self.tiles@.len() == self.height
        &&& forall|y: int| 0 <= y < self.height ==> (#[trigger] self.tiles@[y])@.len() == self.width
    }

    /// Whether `(x, y)` is a place of the sketch.
    pub open spec fn contains(&self, x: int, y: int) -> bool {
        0 <= x < self.width && 0 <= y < self.height
    }

    /// The tile at `(x, y)`.
    pub open spec fn at(&self, x: int, y: int) -> Tile {
        self.tiles@[y]@[x]
    }

    /// The tile at `(x, y)`.
    pub fn get(&self, x: i32, y: i32) -> (tile: &Tile)
        requires
            self.wf(),
            self.contains(x as int, y as int),
        ensures
            *tile == self.at(x as int, y as int),
    {
        &self.tiles[y as usize][x as usize]
    }

    /// The direction in which the loop goes on after a walker has walked
    /// onto the pipe `tile` in direction `dir`.
    pub fn next_loop_direction(&self, tile: Tile, dir: Direction) -> (next: Direction)
        requires
            tile.kind.is_pipe(),
        ensures
            next == tile.kind.leads(dir),
    {
        match tile.kind {
            Kind::Vertical => if dir == Direction::North {
                Direction::North
            } else {
                Direction::South
            },
            Kind::Horizontal => if dir == Direction::East {
                Direction::East
            } else {
                Direction::West
            },
            Kind::NorthEast => if dir == Direction::West {
                Direction::North
            } else {
                Direction::East
            },
            Kind::NorthWest => if dir == Direction::East {
                Direction::North
            } else {
                Direction::West
            },
            Kind::SouthWest => if dir == Direction::East {
                Direction::South
            } else {
                Direction::West
            },
            Kind::SouthEast => if dir == Direction::West {
                Direction::South
            } else {
                Direction::East
            },
            Kind::Ground => dir,
            Kind::Start => dir,
        }
    }
}

/// The loop through the start: its tiles in the order in which they are
/// walked, each with the direction in which the walker came to walk onto
/// it, and whether the loop was walked clockwise.
#[derive(Debug)]
pub struct Path {
    pub links: Vec<(i32, i32, Direction)>,
    pub oriented_right: bool,
}

impl Direction {
    /// Change of `x` by one step.
    pub open spec fn dx(self) -> int {
        match self {
            Direction::East => 1,
            Direction::West => -1,
            _ => 0,
        }
    }

    /// Change of `y` by one step; `y` grows southwards.
    pub open spec fn dy(self) -> int {
        match self {
            Direction::South => 1,
            Direction::North => -1,
            _ => 0,
        }
    }
}

impl Sketch {
    /// Whether `self` and `other` have the same size, the same start and
    /// tiles of the same kinds.
    pub open spec fn same_pipes(&self, other: &Sketch) -> bool {
        &&& self.width == other.width
        &&& self.height == other.height
        &&& self.start == other.start
        &&& forall|x: int, y: int|
            self.contains(x, y) ==> (#[trigger] self.at(x, y)).kind == other.at(x, y).kind
    }

    /// The direction in which the walker leaves the start: west, where
    /// the tile to the west opens to the east; else east, where the tile to
    /// the east opens to the west; else north.
    pub open spec fn first_direction(&self) -> Direction {
        let (x, y) = (self.start.0 as int, self.start.1 as int);
        if x > 0 && (self.at(x - 1, y).kind is Horizontal || self.at(x - 1, y).kind is NorthEast
            || self.at(x - 1, y).kind is SouthEast) {
            Direction::West
        } else if x < self.width - 1 && (self.at(x + 1, y).kind is Horizontal || self.at(
            x + 1,
            y,
        ).kind is NorthWest || self.at(x + 1, y).kind is SouthWest) {
            Direction::East
        } else {
            Direction::North
        }
    }

    /// Where the walker is after `k + 1` steps from the start, and the
    /// direction of the last step.
    pub open spec fn walk(&self, k: nat) -> (int, int, Direction)
        decreases k,
    {
        if k == 0 {
            let d = self.first_direction();
            (self.start.0 + d.dx(), self.start.1 + d.dy(), d)
        } else {
            let (x, y, d) = self.walk((k - 1) as nat);
            let next = self.at(x, y).kind.leads(d);
            (x + next.dx(), y + next.dy(), next)
        }
    }

    /// Whether the walker is on a pipe of the sketch, away from the start,
    /// after each of the first `k` steps.
    pub open spec fn on_pipes(&self, k: nat) -> bool {
        forall|i: nat|
            i < k ==> {
                let (x, y, d) = #[trigger] self.walk(i);
                &&& self.contains(x, y)
                &&& self.at(x, y).kind.is_pipe()
                &&& (x, y) != (self.start.0 as int, self.start.1 as int)
            }
    }

    /// The sum of the turns that the walker makes on the tiles reached by
    /// the first `k` steps.
    pub open spec fn turns(&self, k: nat) -> int
        decreases k,
    {
        if k == 0 {
            0
        } else {
            let (x, y, d) = self.walk((k - 1) as nat);
            self.turns((k - 1) as nat) + self.at(x, y).kind.turn(d)
        }
    }

    /// Whether the walker is on the tile at `(x, y)` after one of the first
    /// `k` steps.
    pub open spec fn walked(&self, k: nat, x: int, y: int) -> bool {
        exists|i: nat| i < k && (#[trigger] self.walk(i)).0 == x && self.walk(i).1 == y
    }

    /// Whether `(x, y)` is a tile of the loop that takes `n` steps: the
    /// start, or a tile that the walker walks on.
    pub open spec fn on_loop(&self, n: nat, x: int, y: int) -> bool {
        (x, y) == (self.start.0 as int, self.start.1 as int) || self.walked(n, x, y)
    }

    /// Sets the topology of the tile at `(x, y)`.
    pub fn set_topology(&mut self, x: i32, y: i32, topology: Topology)
        requires
            old(self).wf(),
            old(self).contains(x as int, y as int),
        ensures
            final(self).wf(),
            final(self).same_pipes(old(self)),
            final(self).at(x as int, y as int).topology == topology,
            forall|a: int, b: int|
                old(self).contains(a, b) && (a, b) != (x as int, y as int) ==> #[trigger] final(self).at(a, b)
                    == old(self).at(a, b),
    {
        let kind = self.tiles[y as usize][x as usize].kind;
        let ghost before = self.tiles@;
        self.tiles[y as usize].set(x as usize, Tile { kind, topology });
        proof {
            assert forall|b: int| 0 <= b < self.height implies (#[trigger] self.tiles@[b])@.len()
                == self.width by {
                if b != y {
                    assert(self.tiles@[b] == before[b]);
                }
            }
        }
    }

    /// Walks the loop from the start back to the start and marks its tiles
    /// as boundary. Returns the loop, or `None` where the walker leaves
    /// the sketch, meets a tile that is no pipe, or is not back at the
    /// start after as many steps as the sketch has tiles.
    pub fn mark_loop(&mut self) -> (path: Option<Path>)
        requires
            old(self).wf(),
            old(self).contains(old(self).start.0 as int, old(self).start.1 as int),
        ensures
            final(self).wf(),
            final(self).same_pipes(old(self)),
            match path {
                Some(p) => {
                    let n = (p.links@.len() - 1) as nat;
                    &&& p.links@.len() >= 1
                    &&& old(self).on_pipes(n)
                    &&& old(self).walk(n).0 == old(self).start.0
                    &&& old(self).walk(n).1 == old(self).start.1
                    &&& p.links@[0] == (
                        old(self).start.0,
                        old(self).start.1,
                        old(self).first_direction(),
                    )
                    &&& forall|k: int|
                        0 <= k < n ==> (
                            (#[trigger] p.links@[k + 1]).0 as int,
                            p.links@[k + 1].1 as int,
                            p.links@[k + 1].2,
                        ) == old(self).walk(k as nat)
                    &&& p.oriented_right == (old(self).turns(n) >= 0)
                    &&& forall|x: int, y: int|
                        old(self).contains(x, y) ==> #[trigger] final(self).at(x, y).topology == if old(
                            self,
                        ).on_loop(n, x, y) {
                            Topology::Boundary
                        } else {
                            old(self).at(x, y).topology
                        }
                },
                None => exists|k: nat|
                    {
                        &&& k <= old(self).width * old(self).height
                        &&& old(self).on_pipes(k)
                        &&& {
                            let (x, y, d) = #[trigger] old(self).walk(k);
                            ||| !old(self).contains(x, y)
                            ||| !old(self).at(x, y).kind.is_pipe() && (x, y) != (
                                old(self).start.0 as int,
                                old(self).start.1 as int,
                            )
                            ||| k == old(self).width * old(self).height
                        }
                    },
            },
    {
        let ghost entry = *self;
        let (sx, sy) = (self.start.0, self.start.1);
        let west_opens = if sx > 0 {
            match self.get(sx - 1, sy).kind {
                Kind::Horizontal => true,
                Kind::NorthEast => true,
                Kind::SouthEast => true,
                _ => false,
            }
        } else {
            false
        };
        let east_opens = if !west_opens && sx < self.width - 1 {
            match self.get(sx + 1, sy).kind {
                Kind::Horizontal => true,
                Kind::NorthWest => true,
                Kind::SouthWest => true,
                _ => false,
            }
        } else {
            false
        };
        let mut current: (i32, i32);
        let mut dir: Direction;
        if west_opens {
            current = (sx - 1, sy);
            dir = Direction::West;
        } else if east_opens {
            current = (sx + 1, sy);
            dir = Direction::East;
        } else {
            current = (sx, sy - 1);
            dir = Direction::North;
        }
        let mut links: Vec<(i32, i32, Direction)> = Vec::new();
        links.push((sx, sy, dir));
        self.set_topology(sx, sy, Topology::Boundary);
        let mut orientation: i64 = 0;
        proof {
            assert(0 <= self.width * self.height <= 0x7fff_ffff * 0x7fff_ffff) by (nonlinear_arith)
                requires
                    0 <= self.width <= 0x7fff_ffff,
                    0 <= self.height <= 0x7fff_ffff,
            ;
        }
        let limit: i64 = self.width as i64 * self.height as i64;
        let mut steps: i64 = 0;
        loop
            invariant
                self.wf(),
                entry.wf(),
                entry == *old(self),
                self.same_pipes(&entry),
                entry.contains(sx as int, sy as int),
                (sx, sy) == entry.start,
                limit == entry.width * entry.height,
                0 <= steps <= limit,
                -steps <= orientation <= steps,
                entry.on_pipes(steps as nat),
                (current.0 as int, current.1 as int, dir) == entry.walk(steps as nat),
                orientation == entry.turns(steps as nat),
                links@.len() == steps + 1,
                links@[0] == (sx, sy, entry.first_direction()),
                forall|k: int|
                    0 <= k < steps ==> (
                        (#[trigger] links@[k + 1]).0 as int,
                        links@[k + 1].1 as int,
                        links@[k + 1].2,
                    ) == entry.walk(k as nat),
                forall|x: int, y: int|
                    entry.contains(x, y) ==> #[trigger] self.at(x, y).topology == if entry.on_loop(
                        steps as nat,
                        x,
                        y,
                    ) {
                        Topology::Boundary
                    } else {
                        entry.at(x, y).topology
                    },
            decreases limit - steps,
        {
            if current.0 == sx && current.1 == sy {
                return Some(Path { links, oriented_right: orientation >= 0 });
            }
            if steps >= limit {
                proof {
                    let (x, y, d) = entry.walk(steps as nat);
                    assert(steps == entry.width * entry.height);
                }
                return None;
            }
            if !(0 <= current.0 && current.0 < self.width && 0 <= current.1 && current.1
                < self.height) {
                proof {
                    let (x, y, d) = entry.walk(steps as nat);
                    assert(!entry.contains(x, y));
                }
                return None;
            }
            let tile = *self.get(current.0, current.1);
            proof {
                assert(self.at(current.0 as int, current.1 as int).kind == entry.at(
                    current.0 as int,
                    current.1 as int,
                ).kind);
            }
            let is_pipe = match tile.kind {
                Kind::Ground => false,
                Kind::Start => false,
                _ => true,
            };
            if !is_pipe {
                proof {
                    let (x, y, d) = entry.walk(steps as nat);
                    assert(!entry.at(x, y).kind.is_pipe());
                }
                return None;
            }
            let ghost before = *self;
            self.set_topology(current.0, current.1, Topology::Boundary);
            orientation += tile.kind.orientation(&dir) as i64;
            links.push((current.0, current.1, dir));
            let ghost here = (current.0 as int, current.1 as int);
            dir = self.next_loop_direction(tile, dir);
            match dir {
                Direction::North => {
                    current.1 -= 1
                },
                Direction::South => {
                    current.1 += 1
                },
                Direction::East => {
                    current.0 += 1
                },
                Direction::West => {
                    current.0 -= 1
                },
            }
            proof {
                let k = steps as nat;
                assert forall|i: nat| i < k + 1 implies {
                    let (x, y, d) = #[trigger] entry.walk(i);
                    &&& entry.contains(x, y)
                    &&& entry.at(x, y).kind.is_pipe()
                    &&& (x, y) != (sx as int, sy as int)
                } by {
                    if i < k {
                        assert(entry.on_pipes(k));
                    }
                }
                assert forall|x: int, y: int| entry.contains(x, y) implies #[trigger] self.at(
                    x,
                    y,
                ).topology == if entry.on_loop((k + 1) as nat, x, y) {
                    Topology::Boundary
                } else {
                    entry.at(x, y).topology
                } by {
                    if (x, y) == here {
                        assert(entry.walk(k).0 == x && entry.walk(k).1 == y);
                        assert(entry.walked((k + 1) as nat, x, y));
                    } else {
                        assert(self.at(x, y) == before.at(x, y));
                        if entry.walked((k + 1) as nat, x, y) {
                            let i = choose|i: nat|
                                i < k + 1 && (#[trigger] entry.walk(i)).0 == x && entry.walk(
                                    i,
                                ).1 == y;
                            assert(i < k);
                            assert(entry.walked(k, x, y));
                        }
                        if entry.walked(k, x, y) {
                            let i = choose|i: nat|
                                i < k && (#[trigger] entry.walk(i)).0 == x && entry.walk(i).1
                                    == y;
                            assert(i < k + 1);
                            assert(entry.walked((k + 1) as nat, x, y));
                        }
                    }
                }
            }
            steps += 1;
        }
    }
}

/// Whether the neighbour at `(dx, dy)` of a pipe of kind `kind` lies to the
/// right of a walker who walked onto the pipe in direction `dir`.
pub open spec fn to_the_right(kind: Kind, dir: Direction, dx: int, dy: int) -> bool {
    match (kind, dir) {
        (Kind::Vertical, Direction::North) => dx > 0,
        (Kind::Vertical, Direction::South) => dx < 0,
        (Kind::Horizontal, Direction::West) => dy < 0,
        (Kind::Horizontal, Direction::East) => dy > 0,
        (Kind::NorthEast, Direction::South) => (dx, dy) != (1int, -1int),
        (Kind::NorthEast, Direction::West) => (dx, dy) == (1int, -1int),
        (Kind::NorthWest, Direction::South) => (dx, dy) == (-1int, -1int),
        (Kind::NorthWest, Direction::East) => (dx, dy) != (-1int, -1int),
        (Kind::SouthEast, Direction::North) => (dx, dy) == (1int, 1int),
        (Kind::SouthEast, Direction::West) => (dx, dy) != (1int, 1int),
        (Kind::SouthWest, Direction::North) => (dx, dy) != (-1int, 1int),
        (Kind::SouthWest, Direction::East) => (dx, dy) == (-1int, 1int),
        _ => false,
    }
}

/// What becomes of the topology `before` of the tile at `(a, b)` when the
/// neighbours of the pipe at `(x, y)` are marked: a tile next to the pipe
/// of which nothing is known is inside if it lies on the side of the walker
/// that the loop turns to, else outside. The tile at `(0, 0)` is never
/// marked.
pub open spec fn locally_marked(
    before: Topology,
    a: int,
    b: int,
    x: int,
    y: int,
    kind: Kind,
    dir: Direction,
    oriented_right: bool,
) -> Topology {
    if kind.is_pipe() && x - 1 <= a <= x + 1 && y - 1 <= b <= y + 1 && (a, b) != (0int, 0int)
        && before is Unknown {
        if to_the_right(kind, dir, a - x, b - y) == oriented_right {
            Topology::Inside
        } else {
            Topology::Outside
        }
    } else {
        before
    }
}

impl Sketch {
    /// What becomes of the topology `before` of the tile at `(a, b)` when
    /// the neighbours of the pipes of `links` are marked one after the
    /// other.
    pub open spec fn marked_along(
        &self,
        links: Seq<(i32, i32, Direction)>,
        oriented_right: bool,
        a: int,
        b: int,
        before: Topology,
    ) -> Topology
        decreases links.len(),
    {
        if links.len() == 0 {
            before
        } else {
            let (x, y, dir) = links.last();
            locally_marked(
                self.marked_along(links.drop_last(), oriented_right, a, b, before),
                a,
                b,
                x as int,
                y as int,
                self.at(x as int, y as int).kind,
                dir,
                oriented_right,
            )
        }
    }

    /// What is known of the tile left of `(x, y)` in its row, or of the
    /// nearest tile further left of which something is known; outside at
    /// the left end.
    pub open spec fn mode_at(&self, x: int, y: int) -> Topology
        decreases x,
    {
        if x <= 0 {
            Topology::Outside
        } else if self.at(x - 1, y).topology is Unknown {
            self.mode_at(x - 1, y)
        } else {
            self.at(x - 1, y).topology
        }
    }

    /// What becomes of the tile at `(x, y)` when the rows are filled in: a
    /// tile of which nothing is known is what the tiles to its left are.
    pub open spec fn filled(&self, x: int, y: int) -> Topology {
        if self.at(x, y).topology is Unknown {
            self.mode_at(x, y)
        } else {
            self.at(x, y).topology
        }
    }

    /// The number of inside tiles among the first `x` tiles of row `y`
    /// when the rows are filled in.
    pub open spec fn inside_in_row(&self, y: int, x: int) -> int
        decreases x,
    {
        if x <= 0 {
            0
        } else {
            self.inside_in_row(y, x - 1) + if self.filled(x - 1, y) is Inside {
                1int
            } else {
                0int
            }
        }
    }

    /// The number of inside tiles in the first `y` rows when the rows are
    /// filled in.
    pub open spec fn inside_in_rows(&self, y: int) -> int
        decreases y,
    {
        if y <= 0 {
            0
        } else {
            self.inside_in_rows(y - 1) + self.inside_in_row(y - 1, self.width as int)
        }
    }

    /// The numbers of inside tiles are not negative, and no more than
    /// there are tiles.
    pub proof fn lemma_inside_bounds(&self, y: int, x: int)
        requires
            0 <= x <= self.width,
            0 <= y,
        ensures
            0 <= self.inside_in_row(y, x) <= x,
            0 <= self.inside_in_rows(y) <= y * self.width,
        decreases y, x,
    {
        if x > 0 {
            self.lemma_inside_bounds(y, x - 1);
        } else if y > 0 {
            self.lemma_inside_bounds(y - 1, self.width as int);
            self.lemma_inside_bounds(y - 1, 0);
            assert(y * self.width == (y - 1) * self.width + self.width) by (nonlinear_arith);
        } else {
            assert(y * self.width == 0) by (nonlinear_arith)
                requires
                    y == 0,
            ;
        }
        if y > 0 {
            self.lemma_inside_bounds(y - 1, self.width as int);
            assert(y * self.width == (y - 1) * self.width + self.width) by (nonlinear_arith);
        } else {
            assert(y * self.width == 0) by (nonlinear_arith)
                requires
                    y == 0,
            ;
        }
    }

    /// The tile at `(x, y)`, to write to.
    pub fn get_mut(&mut self, x: i32, y: i32) -> (tile: &mut Tile)
        requires
            old(self).wf(),
            old(self).contains(x as int, y as int),
        ensures
            *tile == old(self).at(x as int, y as int),
            final(self).width == old(self).width,
            final(self).height == old(self).height,
            final(self).start == old(self).start,
            final(self).tiles@.len() == old(self).tiles@.len(),
            final(self).at(x as int, y as int) == *final(tile),
            final(self).wf(),
            forall|a: int, b: int|
                old(self).contains(a, b) && (a, b) != (x as int, y as int) ==> #[trigger] final(self).at(a, b)
                    == old(self).at(a, b),
    {
        &mut self.tiles[y as usize][x as usize]
    }

    /// Marks the neighbours of the pipe of kind `kind` at `(x, y)`, onto
    /// which the walker walked in direction `dir`, as inside or outside,
    /// as far as nothing is known of them.
    pub fn mark_local(&mut self, x: i32, y: i32, kind: Kind, dir: Direction, oriented_right: bool)
        requires
            old(self).wf(),
            old(self).contains(x as int, y as int),
        ensures
            final(self).wf(),
            final(self).same_pipes(old(self)),
            forall|a: int, b: int|
                old(self).contains(a, b) ==> #[trigger] final(self).at(a, b).topology
                    == locally_marked(
                    old(self).at(a, b).topology,
                    a,
                    b,
                    x as int,
                    y as int,
                    kind,
                    dir,
                    oriented_right,
                ),
    {
        let is_pipe = match kind {
            Kind::Start => false,
            Kind::Ground => false,
            _ => true,
        };
        if !is_pipe {
            return ;
        }
        let ghost entry = *self;
        let mut dy: i32 = -1;
        while dy <= 1
            invariant
                -1 <= dy <= 2,
                self.wf(),
                entry.wf(),
                entry == *old(self),
                kind.is_pipe(),
                self.same_pipes(&entry),
                entry.contains(x as int, y as int),
                forall|a: int, b: int|
                    entry.contains(a, b) ==> #[trigger] self.at(a, b).topology == if b < y + dy {
                        locally_marked(
                            entry.at(a, b).topology,
                            a,
                            b,
                            x as int,
                            y as int,
                            kind,
                            dir,
                            oriented_right,
                        )
                    } else {
                        entry.at(a, b).topology
                    },
            decreases 2 - dy,
        {
            let mut dx: i32 = -1;
            while dx <= 1
                invariant
                    -1 <= dx <= 2,
                    -1 <= dy <= 1,
                    self.wf(),
                    entry.wf(),
                    entry == *old(self),
                    kind.is_pipe(),
                    self.same_pipes(&entry),
                    entry.contains(x as int, y as int),
                    forall|a: int, b: int|
                        entry.contains(a, b) ==> #[trigger] self.at(a, b).topology == if b < y
                            + dy || (b == y + dy && a < x + dx) {
                            locally_marked(
                                entry.at(a, b).topology,
                                a,
                                b,
                                x as int,
                                y as int,
                                kind,
                                dir,
                                oriented_right,
                            )
                        } else {
                            entry.at(a, b).topology
                        },
                decreases 2 - dx,
            {
                let a = x + dx;
                let b = y + dy;
                let skip = (a == 0 && b == 0) || !(0 <= a && a < self.width) || !(0 <= b && b
                    < self.height);
                if !skip {
                    let mut inside = match (kind, dir) {
                        (Kind::Vertical, Direction::North) => dx > 0,
                        (Kind::Vertical, Direction::South) => dx < 0,
                        (Kind::Horizontal, Direction::West) => dy < 0,
                        (Kind::Horizontal, Direction::East) => dy > 0,
                        (Kind::NorthEast, Direction::South) => !(dx == 1 && dy == -1),
                        (Kind::NorthEast, Direction::West) => dx == 1 && dy == -1,
                        (Kind::NorthWest, Direction::South) => dx == -1 && dy == -1,
                        (Kind::NorthWest, Direction::East) => !(dx == -1 && dy == -1),
                        (Kind::SouthEast, Direction::North) => dx == 1 && dy == 1,
                        (Kind::SouthEast, Direction::West) => !(dx == 1 && dy == 1),
                        (Kind::SouthWest, Direction::North) => !(dx == -1 && dy == 1),
                        (Kind::SouthWest, Direction::East) => dx == -1 && dy == 1,
                        _ => false,
                    };
                    proof {
                        assert(inside == to_the_right(kind, dir, dx as int, dy as int));
                    }
                    let unknown = match self.get(a, b).topology {
                        Topology::Unknown => true,
                        _ => false,
                    };
                    if unknown {
                        if !oriented_right {
                            inside = !inside;
                        }
                        let ghost before = *self;
                        self.set_topology(
                            a,
                            b,
                            if inside {
                                Topology::Inside
                            } else {
                                Topology::Outside
                            },
                        );
                        proof {
                            assert forall|p: int, q: int|
                                entry.contains(p, q) && (p, q) != (
                                    a as int,
                                    b as int,
                                ) implies #[trigger] self.at(p, q).topology == before.at(
                                p,
                                q,
                            ).topology by {
                                assert(self.at(p, q) == before.at(p, q));
                            }
                        }
                    }
                }
                dx += 1;
            }
            dy += 1;
        }
    }

    /// Marks the neighbours of every pipe of the loop `path`.
    pub fn mark_small(&mut self, path: &Path)
        requires
            old(self).wf(),
            forall|i: int|
                0 <= i < path.links@.len() ==> old(self).contains(
                    (#[trigger] path.links@[i]).0 as int,
                    path.links@[i].1 as int,
                ),
        ensures
            final(self).wf(),
            final(self).same_pipes(old(self)),
            forall|a: int, b: int|
                old(self).contains(a, b) ==> #[trigger] final(self).at(a, b).topology == old(
                    self,
                ).marked_along(
                    path.links@,
                    path.oriented_right,
                    a,
                    b,
                    old(self).at(a, b).topology,
                ),
    {
        let ghost entry = *self;
        let mut i: usize = 0;
        while i < path.links.len()
            invariant
                i <= path.links@.len(),
                self.wf(),
                entry.wf(),
                entry == *old(self),
                self.same_pipes(&entry),
                forall|k: int|
                    0 <= k < path.links@.len() ==> entry.contains(
                        (#[trigger] path.links@[k]).0 as int,
                        path.links@[k].1 as int,
                    ),
                forall|a: int, b: int|
                    entry.contains(a, b) ==> #[trigger] self.at(a, b).topology
                        == entry.marked_along(
                        path.links@.take(i as int),
                        path.oriented_right,
                        a,
                        b,
                        entry.at(a, b).topology,
                    ),
            decreases path.links@.len() - i,
        {
            let (x, y, dir) = path.links[i];
            proof {
                assert(entry.contains(path.links@[i as int].0 as int, path.links@[i as int].1 as int));
                assert(path.links@.take(i + 1).drop_last() =~= path.links@.take(i as int));
                assert(path.links@.take(i + 1).last() == path.links@[i as int]);
                assert(self.at(x as int, y as int).kind == entry.at(x as int, y as int).kind);
            }
            let kind = self.get(x, y).kind;
            self.mark_local(x, y, kind, dir, path.oriented_right);
            i += 1;
        }
        proof {
            assert(path.links@.take(i as int) =~= path.links@);
        }
    }

    /// Fills in every row from the left: a tile of which nothing is known
    /// becomes what the tiles to its left are. Returns the number of tiles
    /// that are inside then.
    pub fn mark_big(&mut self) -> (counter: i32)
        requires
            old(self).wf(),
            old(self).width * old(self).height <= i32::MAX,
        ensures
            final(self).wf(),
            final(self).same_pipes(old(self)),
            forall|x: int, y: int|
                old(self).contains(x, y) ==> #[trigger] final(self).at(x, y).topology == old(
                    self,
                ).filled(x, y),
            counter == old(self).inside_in_rows(old(self).height as int),
    {
        let ghost entry = *self;
        let mut counter: i32 = 0;
        let mut y: i32 = 0;
        while y < self.height
            invariant
                0 <= y <= self.height,
                self.wf(),
                entry.wf(),
                entry == *old(self),
                self.same_pipes(&entry),
                entry.width * entry.height <= i32::MAX,
                counter == entry.inside_in_rows(y as int),
                forall|a: int, b: int|
                    entry.contains(a, b) ==> #[trigger] self.at(a, b).topology == if b < y {
                        entry.filled(a, b)
                    } else {
                        entry.at(a, b).topology
                    },
            decreases self.height - y,
        {
            let mut mode = Topology::Outside;
            let mut x: i32 = 0;
            let ghost before_row = counter as int;
            while x < self.width
                invariant
                    0 <= x <= self.width,
                    0 <= y < self.height,
                    self.wf(),
                    entry.wf(),
                    entry == *old(self),
                    self.same_pipes(&entry),
                    entry.width * entry.height <= i32::MAX,
                    mode == entry.mode_at(x as int, y as int),
                    before_row == entry.inside_in_rows(y as int),
                    counter == before_row + entry.inside_in_row(y as int, x as int),
                    forall|a: int, b: int|
                        entry.contains(a, b) ==> #[trigger] self.at(a, b).topology == if b < y
                            || (b == y && a < x) {
                            entry.filled(a, b)
                        } else {
                            entry.at(a, b).topology
                        },
                decreases self.width - x,
            {
                proof {
                    entry.lemma_inside_bounds(y as int, x + 1);
                    entry.lemma_inside_bounds(y + 1, 0);
                    entry.lemma_inside_bounds(entry.height as int, 0);
                    assert((y + 1) * entry.width <= entry.height * entry.width)
                        by (nonlinear_arith)
                        requires
                            y + 1 <= entry.height,
                            0 <= entry.width,
                    ;
                    assert(entry.height * entry.width == entry.width * entry.height)
                        by (nonlinear_arith);
                    assert((y + 1) * entry.width == y * entry.width + entry.width)
                        by (nonlinear_arith);
                    assert(self.at(x as int, y as int).topology == entry.at(
                        x as int,
                        y as int,
                    ).topology);
                }
                let known = self.get(x, y).topology;
                let now = match known {
                    Topology::Unknown => mode,
                    _ => known,
                };
                match known {
                    Topology::Unknown => {
                        let ghost before = *self;
                        self.set_topology(x, y, mode);
                        proof {
                            assert forall|p: int, q: int|
                                entry.contains(p, q) && (p, q) != (
                                    x as int,
                                    y as int,
                                ) implies #[trigger] self.at(p, q).topology == before.at(
                                p,
                                q,
                            ).topology by {
                                assert(self.at(p, q) == before.at(p, q));
                            }
                        }
                    },
                    _ => {
                        mode = known;
                    },
                }
                match now {
                    Topology::Inside => {
                        counter += 1;
                    },
                    _ => {},
                }
                x += 1;
            }
            y += 1;
        }
        counter
    }
}

/// The place of the last start among the first `x` characters of `row`.
pub open spec fn last_start_in(row: Seq<char>, x: int) -> Option<int>
    decreases x,
{
    if x <= 0 {
        None
    } else if row[x - 1] == 'S' {
        Some(x - 1)
    } else {
        last_start_in(row, x - 1)
    }
}

/// The place of the last start in the first `y` of `rows`; `(0, 0)` where
/// there is none.
pub open spec fn last_start(rows: Seq<Seq<char>>, y: int) -> (int, int)
    decreases y,
{
    if y <= 0 {
        (0, 0)
    } else {
        match last_start_in(rows[y - 1], rows[y - 1].len() as int) {
            Some(x) => (x, y - 1),
            None => last_start(rows, y - 1),
        }
    }
}

/// Whether `s` reads as a sketch: at least one line, no more lines and no
/// longer lines than a 32-bit number counts, and nothing but characters
/// that draw tiles.
pub open spec fn is_sketch_text(s: Seq<char>) -> bool {
    let rows = lines_of(s);
    &&& 1 <= rows.len() <= i32::MAX
    &&& forall|y: int| 0 <= y < rows.len() ==> (#[trigger] rows[y]).len() <= i32::MAX
    &&& forall|y: int, x: int|
        0 <= y < rows.len() && 0 <= x < rows[y].len() ==> kind_of(#[trigger] rows[y][x]) is Some
}

impl Sketch {
    /// Reads a sketch, one row of tiles from each line. The width is that
    /// of the first row; the start is the last tile that is drawn as one.
    pub fn parse(s: &str) -> (sketch: Sketch)
        requires
            is_sketch_text(s@),
        ensures
            sketch.height == lines_of(s@).len(),
            sketch.width == lines_of(s@)[0].len(),
            sketch.tiles@.len() == lines_of(s@).len(),
            forall|y: int|
                0 <= y < lines_of(s@).len() ==> (#[trigger] sketch.tiles@[y])@.len() == lines_of(
                    s@,
                )[y].len(),
            forall|y: int, x: int|
                0 <= y < lines_of(s@).len() && 0 <= x < lines_of(s@)[y].len() ==> {
                    &&& Some((#[trigger] sketch.tiles@[y]@[x]).kind) == kind_of(lines_of(s@)[y][x])
                    &&& sketch.tiles@[y]@[x].topology is Unknown
                },
            (sketch.start.0 as int, sketch.start.1 as int) == last_start(
                lines_of(s@),
                lines_of(s@).len() as int,
            ),
    {
        let chars = to_chars(s);
        let lines = split_lines(&chars);
        let ghost rows = lines_of(s@);
        let mut tiles: Vec<Vec<Tile>> = Vec::new();
        let mut start: (i32, i32) = (0, 0);
        let mut y: usize = 0;
        while y < lines.len()
            invariant
                y <= lines@.len(),
                rows == lines_of(s@),
                views(lines@) == rows,
                is_sketch_text(s@),
                tiles@.len() == y,
                forall|k: int| 0 <= k < y ==> (#[trigger] tiles@[k])@.len() == rows[k].len(),
                forall|k: int, x: int|
                    0 <= k < y && 0 <= x < rows[k].len() ==> {
                        &&& Some((#[trigger] tiles@[k]@[x]).kind) == kind_of(rows[k][x])
                        &&& tiles@[k]@[x].topology is Unknown
                    },
                (start.0 as int, start.1 as int) == last_start(rows, y as int),
            decreases lines@.len() - y,
        {
            let line = &lines[y];
            proof {
                assert(views(lines@)[y as int] == line@);
                assert(rows[y as int].len() <= i32::MAX);
            }
            let mut row: Vec<Tile> = Vec::new();
            let mut found: Option<i32> = None;
            let mut x: usize = 0;
            while x < line.len()
                invariant
                    x <= line@.len(),
                    y < lines@.len(),
                    rows.len() == lines@.len(),
                    line@ == rows[y as int],
                    line@.len() <= i32::MAX,
                    rows == lines_of(s@),
                    is_sketch_text(s@),
                    row@.len() == x,
                    forall|k: int|
                        0 <= k < x ==> {
                            &&& Some((#[trigger] row@[k]).kind) == kind_of(line@[k])
                            &&& row@[k].topology is Unknown
                        },
                    match found {
                        Some(p) => Some(p as int) == last_start_in(line@, x as int),
                        None => last_start_in(line@, x as int) is None,
                    },
                decreases line@.len() - x,
            {
                let c = line[x];
                proof {
                    assert(kind_of(rows[y as int][x as int]) is Some);
                }
                let tile = Tile::parse(c);
                if c == 'S' {
                    found = Some(x as i32);
                }
                row.push(tile);
                x += 1;
            }
            match found {
                Some(p) => {
                    start = (p, y as i32);
                },
                None => {},
            }
            let ghost before = tiles@;
            tiles.push(row);
            proof {
                assert forall|k: int, x: int| 0 <= k < y + 1 && 0 <= x < rows[k].len() implies {
                    &&& Some((#[trigger] tiles@[k]@[x]).kind) == kind_of(rows[k][x])
                    &&& tiles@[k]@[x].topology is Unknown
                } by {
                    if k < y {
                        assert(tiles@[k] == before[k]);
                    }
                }
            }
            y += 1;
        }
        let width = tiles[0].len() as i32;
        let height = tiles.len() as i32;
        Sketch { tiles, width, height, start }
    }
}

} // verus!
