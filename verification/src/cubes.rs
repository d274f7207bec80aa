//! Games of cubes drawn from a bag: which games a given bag allows, and the
//! smallest bag that allows each game.

use crate::text::{
    fields_of, lines_of, parse_u32, same_chars, split_at_char, split_char, split_fields,
    split_lines, to_chars, unsigned_of, views,
};
use vstd::prelude::*;

verus! {

/// Numbers of red, green and blue cubes.
#[derive(Debug, Clone, Copy, PartialEq, Eq, Structural)]
pub struct CubeSet {
    pub red: u32,
    pub green: u32,
    pub blue: u32,
}

/// One game: its number and the sets of cubes that were shown.
#[derive(Debug)]
pub struct Game {
    pub id: u32,
    pub sets: Vec<CubeSet>,
}

/// A list of games and the bag they are held against.
#[derive(Debug)]
pub struct Record {
    pub expectation: CubeSet,
    pub games: Vec<Game>,
}

impl CubeSet {
    /// Whether `self` has no more cubes of any colour than `other`.
    pub open spec fn within(&self, other: &CubeSet) -> bool {
        self.red <= other.red && self.green <= other.green && self.blue <= other.blue
    }

    /// The product of the three numbers.
    pub open spec fn power_of(&self) -> int {
        self.red * self.green * self.blue
    }

    /// Whether `self` has no more cubes of any colour than `other`.
    pub fn subset(&self, other: &CubeSet) -> (b: bool)
        ensures
            b == self.within(other),
    {
        return self.red <= other.red && self.green <= other.green && self.blue <= other.blue;
    }

    /// The two sets taken together.
    pub fn add(&self, other: &CubeSet) -> (sum: CubeSet)
        requires
            self.red + other.red <= u32::MAX,
            self.green + other.green <= u32::MAX,
            self.blue + other.blue <= u32::MAX,
        ensures
            sum.red == self.red + other.red,
            sum.green == self.green + other.green,
            sum.blue == self.blue + other.blue,
    {
        CubeSet {
            red: self.red + other.red,
            green: self.green + other.green,
            blue: self.blue + other.blue,
        }
    }

    /// The product of the three numbers.
    pub fn power(&self) -> (p: u32)
        requires
            self.power_of() <= u32::MAX,
        ensures
            p == self.power_of(),
    {
        assert(self.red * self.green <= self.red * self.green * self.blue || self.blue == 0)
            by (nonlinear_arith);
        if self.blue == 0 {
            assert(self.red * self.green * self.blue == 0) by (nonlinear_arith)
                requires
                    self.blue == 0,
            ;
            return 0;
        }
        self.red * self.green * self.blue
    }
}

/// The largest number in `values`, 0 where there is none.
pub open spec fn largest(values: Seq<u32>) -> u32
    decreases values.len(),
{
    if values.len() == 0 {
        0
    } else if values.last() > largest(values.drop_last()) {
        values.last()
    } else {
        largest(values.drop_last())
    }
}

/// The smallest bag that allows every set of `sets`: colour by colour the
/// largest number shown.
pub open spec fn smallest_bag(sets: Seq<CubeSet>) -> CubeSet {
    CubeSet {
        red: largest(sets.map_values(|s: CubeSet| s.red)),
        green: largest(sets.map_values(|s: CubeSet| s.green)),
        blue: largest(sets.map_values(|s: CubeSet| s.blue)),
    }
}

impl Game {
    /// Whether the bag `expectation` allows every set of the game.
    pub open spec fn allowed_by(&self, expectation: &CubeSet) -> bool {
        forall|i: int| 0 <= i < self.sets@.len() ==> (#[trigger] self.sets@[i]).within(expectation)
    }

    /// Whether the bag `expectation` allows every set of the game.
    pub fn check_game(&self, expectation: &CubeSet) -> (b: bool)
        ensures
            b == self.allowed_by(expectation),
    {
        let mut i: usize = 0;
        while i < self.sets.len()
            invariant
                i <= self.sets@.len(),
                forall|j: int| 0 <= j < i ==> (#[trigger] self.sets@[j]).within(expectation),
            decreases self.sets@.len() - i,
        {
            if !self.sets[i].subset(expectation) {
                return false;
            }
            i += 1;
        }
        true
    }

    /// The smallest bag that allows the game.
    pub fn calc_max(&self) -> (max: CubeSet)
        ensures
            max == smallest_bag(self.sets@),
    {
        let mut max = CubeSet { red: 0, green: 0, blue: 0 };
        let mut i: usize = 0;
        let ghost reds = self.sets@.map_values(|s: CubeSet| s.red);
        let ghost greens = self.sets@.map_values(|s: CubeSet| s.green);
        let ghost blues = self.sets@.map_values(|s: CubeSet| s.blue);
        while i < self.sets.len()
            invariant
                i <= self.sets@.len(),
                reds == self.sets@.map_values(|s: CubeSet| s.red),
                greens == self.sets@.map_values(|s: CubeSet| s.green),
                blues == self.sets@.map_values(|s: CubeSet| s.blue),
                max.red == largest(reds.take(i as int)),
                max.green == largest(greens.take(i as int)),
                max.blue == largest(blues.take(i as int)),
            decreases self.sets@.len() - i,
        {
            let set = &self.sets[i];
            proof {
                assert(reds.take(i + 1).drop_last() =~= reds.take(i as int));
                assert(greens.take(i + 1).drop_last() =~= greens.take(i as int));
                assert(blues.take(i + 1).drop_last() =~= blues.take(i as int));
            }
            if set.red > max.red {
                max.red = set.red;
            }
            if set.green > max.green {
                max.green = set.green;
            }
            if set.blue > max.blue {
                max.blue = set.blue;
            }
            i += 1;
        }
        proof {
            assert(reds.take(i as int) =~= reds);
            assert(greens.take(i as int) =~= greens);
            assert(blues.take(i as int) =~= blues);
        }
        return max;
    }
}

/// The sum of the numbers of those games of `games` that the bag
/// `expectation` allows.
pub open spec fn allowed_sum(games: Seq<Game>, expectation: &CubeSet) -> int
    decreases games.len(),
{
    if games.len() == 0 {
        0
    } else {
        allowed_sum(games.drop_last(), expectation) + if games.last().allowed_by(expectation) {
            games.last().id as int
        } else {
            0
        }
    }
}

/// The sum, over `games`, of the power of the smallest bag that allows the
/// game.
pub open spec fn power_sum(games: Seq<Game>) -> int
    decreases games.len(),
{
    if games.len() == 0 {
        0
    } else {
        power_sum(games.drop_last()) + smallest_bag(games.last().sets@).power_of()
    }
}

/// Sums of allowed games grow with the list of games.
pub proof fn lemma_allowed_sum_grows(games: Seq<Game>, expectation: &CubeSet, k: int)
    requires
        0 <= k <= games.len(),
    ensures
        0 <= allowed_sum(games.take(k), expectation) <= allowed_sum(games, expectation),
    decreases games.len() - k,
{
    if k == games.len() {
        assert(games.take(k) =~= games);
        lemma_allowed_sum_nonnegative(games, expectation);
    } else {
        lemma_allowed_sum_grows(games, expectation, k + 1);
        assert(games.take(k + 1).drop_last() =~= games.take(k));
        lemma_allowed_sum_nonnegative(games.take(k), expectation);
    }
}

/// Sums of allowed games are not negative.
pub proof fn lemma_allowed_sum_nonnegative(games: Seq<Game>, expectation: &CubeSet)
    ensures
        0 <= allowed_sum(games, expectation),
    decreases games.len(),
{
    if games.len() > 0 {
        lemma_allowed_sum_nonnegative(games.drop_last(), expectation);
    }
}

/// Sums of powers are not negative and grow with the list of games.
pub proof fn lemma_power_sum_grows(games: Seq<Game>, k: int)
    requires
        0 <= k <= games.len(),
    ensures
        0 <= power_sum(games.take(k)) <= power_sum(games),
    decreases games.len() - k,
{
    if k == games.len() {
        assert(games.take(k) =~= games);
        lemma_power_sum_nonnegative(games);
    } else {
        lemma_power_sum_grows(games, k + 1);
        assert(games.take(k + 1).drop_last() =~= games.take(k));
        lemma_power_sum_nonnegative(games.take(k));
        let bag = smallest_bag(games[k].sets@);
        assert(0 <= bag.power_of()) by (nonlinear_arith)
            requires
                bag.power_of() == bag.red * bag.green * bag.blue,
                0 <= bag.red,
                0 <= bag.green,
                0 <= bag.blue,
        ;
    }
}

/// Sums of powers are not negative.
pub proof fn lemma_power_sum_nonnegative(games: Seq<Game>)
    ensures
        0 <= power_sum(games),
    decreases games.len(),
{
    if games.len() > 0 {
        lemma_power_sum_nonnegative(games.drop_last());
        let bag = smallest_bag(games.last().sets@);
        assert(0 <= bag.power_of()) by (nonlinear_arith)
            requires
                bag.power_of() == bag.red * bag.green * bag.blue,
                0 <= bag.red,
                0 <= bag.green,
                0 <= bag.blue,
        ;
    }
}

impl Record {
    /// The sum of the numbers of the games that the record's bag allows.
    pub fn calc_sum(&self) -> (sum: u32)
        requires
            allowed_sum(self.games@, &self.expectation) <= u32::MAX,
        ensures
            sum == allowed_sum(self.games@, &self.expectation),
    {
        let mut sum: u32 = 0;
        let mut i: usize = 0;
        while i < self.games.len()
            invariant
                i <= self.games@.len(),
                allowed_sum(self.games@, &self.expectation) <= u32::MAX,
                sum == allowed_sum(self.games@.take(i as int), &self.expectation),
            decreases self.games@.len() - i,
        {
            let game = &self.games[i];
            proof {
                assert(self.games@.take(i + 1).drop_last() =~= self.games@.take(i as int));
                lemma_allowed_sum_grows(self.games@, &self.expectation, i + 1);
            }
            if game.check_game(&self.expectation) {
                sum += game.id;
            }
            i += 1;
        }
        proof {
            assert(self.games@.take(i as int) =~= self.games@);
        }
        return sum;
    }

    /// The sum, over the games, of the power of the smallest bag that
    /// allows the game.
    pub fn sum_power_max(&self) -> (sum: u32)
        requires
            power_sum(self.games@) <= u32::MAX,
        ensures
            sum == power_sum(self.games@),
    {
        let mut sum: u32 = 0;
        let mut i: usize = 0;
        while i < self.games.len()
            invariant
                i <= self.games@.len(),
                power_sum(self.games@) <= u32::MAX,
                sum == power_sum(self.games@.take(i as int)),
            decreases self.games@.len() - i,
        {
            let game = &self.games[i];
            proof {
                assert(self.games@.take(i + 1).drop_last() =~= self.games@.take(i as int));
                lemma_power_sum_grows(self.games@, i + 1);
                lemma_power_sum_nonnegative(self.games@.take(i as int));
            }
            sum += game.calc_max().power();
            i += 1;
        }
        proof {
            assert(self.games@.take(i as int) =~= self.games@);
        }
        return sum;
    }
}

/// The set that `text` names: a number and a colour, which makes a set of
/// that many cubes of that colour.
pub open spec fn color_of(text: Seq<char>) -> Option<CubeSet> {
    let parts = fields_of(text);
    if parts.len() != 2 {
        None
    } else {
        match unsigned_of(parts[0], u32::MAX as int) {
            None => None,
            Some(n) => if parts[1] == seq!['r', 'e', 'd'] {
                Some(CubeSet { red: n as u32, green: 0, blue: 0 })
            } else if parts[1] == seq!['g', 'r', 'e', 'e', 'n'] {
                Some(CubeSet { red: 0, green: n as u32, blue: 0 })
            } else if parts[1] == seq!['b', 'l', 'u', 'e'] {
                Some(CubeSet { red: 0, green: 0, blue: n as u32 })
            } else {
                None
            },
        }
    }
}

/// The numbers of red, green and blue cubes that the first `k` of
/// `pieces` name together, if each of them names a set.
pub open spec fn colors_sum(pieces: Seq<Seq<char>>, k: int) -> Option<(int, int, int)>
    decreases k,
{
    if k <= 0 {
        Some((0, 0, 0))
    } else {
        match (colors_sum(pieces, k - 1), color_of(pieces[k - 1])) {
            (Some(sum), Some(set)) => Some((sum.0 + set.red, sum.1 + set.green, sum.2 + set.blue)),
            _ => None,
        }
    }
}

/// Whether the sums of the beginnings of `pieces` are 32-bit numbers.
pub open spec fn colors_fit(pieces: Seq<Seq<char>>) -> bool {
    forall|k: int|
        0 <= k <= pieces.len() ==> match #[trigger] colors_sum(pieces, k) {
            Some(sum) => sum.0 <= u32::MAX && sum.1 <= u32::MAX && sum.2 <= u32::MAX,
            None => true,
        }
}

/// The set that `text` describes: the sets named between its commas, taken
/// together.
pub open spec fn set_of(text: Seq<char>) -> Option<(int, int, int)> {
    colors_sum(split_at_char(text, ','), split_at_char(text, ',').len() as int)
}

/// The sets that the first `k` of `pieces` describe, if each of them
/// describes one.
pub open spec fn sets_of(pieces: Seq<Seq<char>>, k: int) -> Option<Seq<(int, int, int)>>
    decreases k,
{
    if k <= 0 {
        Some(Seq::empty())
    } else {
        match (sets_of(pieces, k - 1), set_of(pieces[k - 1])) {
            (Some(sets), Some(set)) => Some(sets.push(set)),
            _ => None,
        }
    }
}

/// The number of cubes of each colour of the set `set`.
pub open spec fn counts(set: CubeSet) -> (int, int, int) {
    (set.red as int, set.green as int, set.blue as int)
}

/// The game that `text` describes: before its colon a title whose second
/// field is the number of the game, after it the sets between semicolons.
pub open spec fn game_of(text: Seq<char>) -> Option<(int, Seq<(int, int, int)>)> {
    let parts = split_at_char(text, ':');
    if parts.len() != 2 {
        None
    } else {
        match unsigned_of(fields_of(parts[0])[1], u32::MAX as int) {
            None => None,
            Some(id) => match sets_of(
                split_at_char(parts[1], ';'),
                split_at_char(parts[1], ';').len() as int,
            ) {
                None => None,
                Some(sets) => Some((id, sets)),
            },
        }
    }
}

/// Whether `text` can be read as a game at all: where it has one colon,
/// the title has a second field, and the sums of all sets are 32-bit
/// numbers.
pub open spec fn game_readable(text: Seq<char>) -> bool {
    let parts = split_at_char(text, ':');
    parts.len() == 2 ==> {
        &&& fields_of(parts[0]).len() >= 2
        &&& forall|i: int|
            0 <= i < split_at_char(parts[1], ';').len() ==> colors_fit(
                split_at_char(#[trigger] split_at_char(parts[1], ';')[i], ','),
            )
    }
}

/// Whether `game` is the game `described`.
pub open spec fn is_game(game: Game, described: (int, Seq<(int, int, int)>)) -> bool {
    &&& game.id == described.0
    &&& game.sets@.map_values(|s: CubeSet| counts(s)) == described.1
}

/// The set that `chars` names.
pub fn read_color_chars(chars: &Vec<char>) -> (set: Option<CubeSet>)
    ensures
        set == color_of(chars@),
{
    let parts = split_fields(chars);
    if parts.len() != 2 {
        return None;
    }
    proof {
        assert(views(parts@)[0] == parts@[0]@);
        assert(views(parts@)[1] == parts@[1]@);
    }
    let count = match parse_u32(&parts[0]) {
        Some(v) => v,
        None => {
            return None;
        },
    };
    let second = &parts[1];
    let red = vec!['r', 'e', 'd'];
    let green = vec!['g', 'r', 'e', 'e', 'n'];
    let blue = vec!['b', 'l', 'u', 'e'];
    proof {
        assert(red@ =~= seq!['r', 'e', 'd']);
        assert(green@ =~= seq!['g', 'r', 'e', 'e', 'n']);
        assert(blue@ =~= seq!['b', 'l', 'u', 'e']);
    }
    if same_chars(second, &red) {
        Some(CubeSet { red: count, green: 0, blue: 0 })
    } else if same_chars(second, &green) {
        Some(CubeSet { red: 0, green: count, blue: 0 })
    } else if same_chars(second, &blue) {
        Some(CubeSet { red: 0, green: 0, blue: count })
    } else {
        None
    }
}

/// The set that `color_str` names.
pub fn read_color(color_str: &str) -> (set: Option<CubeSet>)
    ensures
        set == color_of(color_str@),
{
    let chars = to_chars(color_str);
    read_color_chars(&chars)
}

/// The set that `chars` describes.
pub fn read_set_chars(chars: &Vec<char>) -> (set: Option<CubeSet>)
    requires
        colors_fit(split_at_char(chars@, ',')),
    ensures
        match set {
            Some(s) => set_of(chars@) == Some(counts(s)),
            None => set_of(chars@) is None,
        },
{
    let pieces = split_char(chars, ',');
    let ghost texts = split_at_char(chars@, ',');
    let mut acc = CubeSet { red: 0, green: 0, blue: 0 };
    let mut i: usize = 0;
    while i < pieces.len()
        invariant
            i <= pieces@.len(),
            views(pieces@) == texts,
            texts == split_at_char(chars@, ','),
            colors_fit(texts),
            colors_sum(texts, i as int) == Some(counts(acc)),
        decreases pieces@.len() - i,
    {
        proof {
            assert(views(pieces@)[i as int] == pieces@[i as int]@);
            assert(match colors_sum(texts, i + 1) {
                Some(sum) => sum.0 <= u32::MAX && sum.1 <= u32::MAX && sum.2 <= u32::MAX,
                None => true,
            });
        }
        if let Some(set) = read_color_chars(&pieces[i]) {
            acc = acc.add(&set);
        } else {
            proof {
                assert(colors_sum(texts, i + 1) is None);
                lemma_colors_sum_fails(texts, i + 1, texts.len() as int);
            }
            return None;
        }
        i += 1;
    }
    Some(acc)
}

/// Once a beginning of `pieces` names no sets, no longer beginning does.
pub proof fn lemma_colors_sum_fails(pieces: Seq<Seq<char>>, k: int, n: int)
    requires
        0 <= k <= n,
        colors_sum(pieces, k) is None,
    ensures
        colors_sum(pieces, n) is None,
    decreases n - k,
{
    if k < n {
        lemma_colors_sum_fails(pieces, k, n - 1);
    }
}

/// Once a beginning of `pieces` describes no sets, no longer beginning
/// does.
pub proof fn lemma_sets_fail(pieces: Seq<Seq<char>>, k: int, n: int)
    requires
        0 <= k <= n,
        sets_of(pieces, k) is None,
    ensures
        sets_of(pieces, n) is None,
    decreases n - k,
{
    if k < n {
        lemma_sets_fail(pieces, k, n - 1);
    }
}

/// The set that `config_str` describes.
pub fn read_set(config_str: &str) -> (set: Option<CubeSet>)
    requires
        colors_fit(split_at_char(config_str@, ',')),
    ensures
        match set {
            Some(s) => set_of(config_str@) == Some(counts(s)),
            None => set_of(config_str@) is None,
        },
{
    let chars = to_chars(config_str);
    read_set_chars(&chars)
}

/// The game that `chars` describes.
pub fn read_game_chars(chars: &Vec<char>) -> (game: Option<Game>)
    requires
        game_readable(chars@),
    ensures
        match game {
            Some(g) => (game_of(chars@) is Some) && is_game(g, game_of(chars@).unwrap()),
            None => game_of(chars@) is None,
        },
{
    let parts = split_char(chars, ':');
    if parts.len() != 2 {
        return None;
    }
    proof {
        assert(views(parts@)[0] == parts@[0]@);
        assert(views(parts@)[1] == parts@[1]@);
    }
    let mut game = Game { id: 0, sets: Vec::new() };
    let title = split_fields(&parts[0]);
    proof {
        assert(views(title@)[1] == title@[1]@);
    }
    if let Some(number) = parse_u32(&title[1]) {
        game.id = number;
    } else {
        return None;
    }
    let pieces = split_char(&parts[1], ';');
    let ghost texts = split_at_char(parts@[1]@, ';');
    let mut i: usize = 0;
    while i < pieces.len()
        invariant
            i <= pieces@.len(),
            views(pieces@) == texts,
            parts@.len() == 2,
            views(parts@) == split_at_char(chars@, ':'),
            views(parts@)[0] == parts@[0]@,
            views(parts@)[1] == parts@[1]@,
            texts == split_at_char(parts@[1]@, ';'),
            forall|k: int|
                0 <= k < texts.len() ==> colors_fit(split_at_char(#[trigger] texts[k], ',')),
            game.id == unsigned_of(fields_of(parts@[0]@)[1], u32::MAX as int).unwrap(),
            sets_of(texts, i as int) == Some(game.sets@.map_values(|s: CubeSet| counts(s))),
        decreases pieces@.len() - i,
    {
        proof {
            assert(views(pieces@)[i as int] == pieces@[i as int]@);
            assert(colors_fit(split_at_char(texts[i as int], ',')));
        }
        if let Some(set) = read_set_chars(&pieces[i]) {
            let ghost before = game.sets@;
            game.sets.push(set);
            proof {
                assert(game.sets@.map_values(|s: CubeSet| counts(s)) =~= before.map_values(
                    |s: CubeSet| counts(s),
                ).push(counts(set)));
            }
        } else {
            proof {
                assert(sets_of(texts, i + 1) is None);
                lemma_sets_fail(texts, i + 1, texts.len() as int);
            }
            return None;
        }
        i += 1;
    }
    return Some(game);
}

/// The game that `game_str` describes.
pub fn read_game(game_str: &str) -> (game: Option<Game>)
    requires
        game_readable(game_str@),
    ensures
        match game {
            Some(g) => (game_of(game_str@) is Some) && is_game(g, game_of(game_str@).unwrap()),
            None => game_of(game_str@) is None,
        },
{
    let chars = to_chars(game_str);
    read_game_chars(&chars)
}

/// Whether `games` are the games that the lines `texts` describe, one
/// each.
pub open spec fn are_games(games: Seq<Game>, texts: Seq<Seq<char>>) -> bool {
    &&& games.len() == texts.len()
    &&& forall|i: int|
        0 <= i < games.len() ==> (game_of(texts[i]) is Some) && is_game(
            #[trigger] games[i],
            game_of(texts[i]).unwrap(),
        )
}

/// The record that `record_str` describes, one game on each line, held
/// against the bag `expectation`; `None` where some line describes no
/// game.
pub fn read_record(record_str: &str, expectation: CubeSet) -> (record: Option<Record>)
    requires
        forall|i: int|
            0 <= i < lines_of(record_str@).len() ==> game_readable(
                #[trigger] lines_of(record_str@)[i],
            ),
    ensures
        match record {
            Some(r) => r.expectation == expectation && are_games(r.games@, lines_of(record_str@)),
            None => exists|i: int|
                0 <= i < lines_of(record_str@).len() && game_of(
                    #[trigger] lines_of(record_str@)[i],
                ) is None,
        },
{
    let chars = to_chars(record_str);
    let lines = split_lines(&chars);
    let ghost texts = lines_of(record_str@);
    let mut record = Record { expectation: expectation, games: Vec::new() };
    let mut i: usize = 0;
    while i < lines.len()
        invariant
            i <= lines@.len(),
            views(lines@) == texts,
            texts == lines_of(record_str@),
            forall|k: int| 0 <= k < texts.len() ==> game_readable(#[trigger] texts[k]),
            record.expectation == expectation,
            record.games@.len() == i,
            are_games(record.games@, texts.take(i as int)),
        decreases lines@.len() - i,
    {
        proof {
            assert(views(lines@)[i as int] == lines@[i as int]@);
            assert(game_readable(texts[i as int]));
        }
        if let Some(game) = read_game_chars(&lines[i]) {
            let ghost before = record.games@;
            record.games.push(game);
            proof {
                let now = texts.take(i + 1);
                assert forall|k: int| 0 <= k < i + 1 implies (game_of(now[k]) is Some) && is_game(
                    #[trigger] record.games@[k],
                    game_of(now[k]).unwrap(),
                ) by {
                    if k < i {
                        assert(record.games@[k] == before[k]);
                        assert(texts.take(i as int)[k] == now[k]);
                    }
                }
            }
        } else {
            proof {
                assert(game_of(texts[i as int]) is None);
            }
            return None;
        }
        i += 1;
    }
    proof {
        assert(texts.take(i as int) =~= texts);
    }
    return Some(record);
}

} // verus!
