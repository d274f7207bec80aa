//! A network of nodes that is walked by a list of left and right turns:
//! how many steps it takes to reach a node, and after how many steps
//! several walkers are at their ends together.

use crate::text::{code, lines_of, split_lines, to_chars, views};
use vstd::prelude::*;

verus! {

/// A turn at a node.
#[derive(Debug, Clone, Copy, PartialEq, Eq, Structural)]
pub enum Direction {
    Left,
    Right,
}

/// Whether a walk may begin or end at a node.
#[derive(PartialEq, Eq, Debug, Clone, Copy, Structural)]
pub enum NodeType {
    /// The name ends in `A`.
    First,
    /// The name ends in `Z`.
    Last,
    Normal,
}

/// A node: its own number and the numbers of the nodes to its left and to
/// its right.
#[derive(Debug, Clone, Copy, PartialEq, Eq, Structural)]
pub struct Node {
    pub current: u64,
    pub left: u64,
    pub right: u64,
    pub node_type: NodeType,
}

/// Whether `s` is the name of a node: three characters from `0` up to the
/// end of ASCII.
pub open spec fn is_name(s: Seq<char>) -> bool {
    &&& s.len() == 3
    &&& forall|i: int| 0 <= i < s.len() ==> '0' <= #[trigger] s[i] <= '\x7f'
}

/// The number of the name `s`: its characters, counted from `0`, as the
/// digits of a number to the base 62.
pub open spec fn name_number(s: Seq<char>) -> int
    decreases s.len(),
{
    if s.len() == 0 {
        0
    } else {
        name_number(s.drop_last()) * 62 + (s.last() as int - '0' as int)
    }
}

/// The type of the node with the name `s`.
pub open spec fn name_type(s: Seq<char>) -> NodeType {
    if s[2] == 'A' {
        NodeType::First
    } else if s[2] == 'Z' {
        NodeType::Last
    } else {
        NodeType::Normal
    }
}

/// The number of the name that stands in `chars` from place `at`.
pub fn name_number_at(chars: &Vec<char>, at: usize) -> (id: u64)
    requires
        at + 3 <= chars@.len(),
        is_name(chars@.subrange(at as int, at + 3)),
    ensures
        id == name_number(chars@.subrange(at as int, at + 3)),
{
    let ghost name = chars@.subrange(at as int, at + 3);
    proof {
        assert(name[0] == chars@[at as int] && name[1] == chars@[at + 1] && name[2] == chars@[at
            + 2]);
        assert('0' <= name[0] <= '\x7f' && '0' <= name[1] <= '\x7f' && '0' <= name[2] <= '\x7f');
        let one = name.take(1);
        let two = name.take(2);
        assert(one.drop_last() =~= name.take(0));
        assert(two.drop_last() =~= one);
        assert(name.drop_last() =~= two);
        assert(name_number(name.take(0)) == 0);
        assert(name_number(one) == name[0] as int - '0' as int);
        assert(name_number(two) == name_number(one) * 62 + (name[1] as int - '0' as int));
    }
    let n = chars.len();
    assert(at + 3 <= n);
    let first = code(chars[at]) as u64 - 48;
    let second = code(chars[at + 1]) as u64 - 48;
    let third = code(chars[at + 2]) as u64 - 48;
    (first * 62 + second) * 62 + third
}

/// The number of the name `s`.
pub fn parse_node_id(s: &str) -> (id: u64)
    requires
        is_name(s@),
    ensures
        id == name_number(s@),
{
    let chars = to_chars(s);
    proof {
        assert(chars@.subrange(0, 3) =~= s@);
    }
    name_number_at(&chars, 0)
}

impl Node {
    /// The node with the name `current_str` whose neighbours have the names
    /// `left_str` and `right_str`.
    pub fn parse(current_str: &str, left_str: &str, right_str: &str) -> (node: Node)
        requires
            is_name(current_str@),
            is_name(left_str@),
            is_name(right_str@),
        ensures
            node.current == name_number(current_str@),
            node.left == name_number(left_str@),
            node.right == name_number(right_str@),
            node.node_type == name_type(current_str@),
    {
        let current = parse_node_id(current_str);
        let left = parse_node_id(left_str);
        let right = parse_node_id(right_str);
        let name = to_chars(current_str);
        let last = name[2];
        let node_type = if last == 'A' {
            NodeType::First
        } else if last == 'Z' {
            NodeType::Last
        } else {
            NodeType::Normal
        };
        Node { current, left, right, node_type }
    }

    /// The node that the line `line` describes: its name in the first
    /// three places, those of its neighbours from places 7 and 12.
    pub fn parse_line(line: &Vec<char>) -> (node: Node)
        requires
            is_node_line(line@),
        ensures
            node == node_of(line@),
    {
        let current = name_number_at(line, 0);
        let left = name_number_at(line, 7);
        let right = name_number_at(line, 12);
        let last = line[2];
        proof {
            assert(line@.subrange(0, 3)[2] == line@[2]);
        }
        let node_type = if last == 'A' {
            NodeType::First
        } else if last == 'Z' {
            NodeType::Last
        } else {
            NodeType::Normal
        };
        Node { current, left, right, node_type }
    }
}

/// Whether `line` describes a node.
pub open spec fn is_node_line(line: Seq<char>) -> bool {
    &&& line.len() >= 15
    &&& is_name(line.subrange(0, 3))
    &&& is_name(line.subrange(7, 10))
    &&& is_name(line.subrange(12, 15))
}

/// The node that `line` describes.
pub open spec fn node_of(line: Seq<char>) -> Node {
    Node {
        current: name_number(line.subrange(0, 3)) as u64,
        left: name_number(line.subrange(7, 10)) as u64,
        right: name_number(line.subrange(12, 15)) as u64,
        node_type: name_type(line.subrange(0, 3)),
    }
}

/// The turn that `c` stands for.
pub open spec fn turn_of(c: char) -> Option<Direction> {
    if c == 'L' {
        Some(Direction::Left)
    } else if c == 'R' {
        Some(Direction::Right)
    } else {
        None
    }
}

/// Whether `text` describes a network: a line of turns, a line that is
/// passed over, and a line for each node.
pub open spec fn is_network_text(text: Seq<char>) -> bool {
    let lines = lines_of(text);
    &&& lines.len() >= 1
    &&& forall|i: int| 0 <= i < lines[0].len() ==> turn_of(#[trigger] lines[0][i]) is Some
    &&& forall|i: int| 2 <= i < lines.len() ==> is_node_line(#[trigger] lines[i])
}

/// The turns and the nodes that `input` describes, the nodes in the order
/// of their lines.
pub fn read_network(input: &str) -> (network: (Vec<Direction>, Vec<Node>))
    requires
        is_network_text(input@),
    ensures
        network.0@.len() == lines_of(input@)[0].len(),
        forall|i: int|
            0 <= i < network.0@.len() ==> Some(#[trigger] network.0@[i]) == turn_of(
                lines_of(input@)[0][i],
            ),
        network.1@.len() == if lines_of(input@).len() >= 2 {
            lines_of(input@).len() - 2
        } else {
            0
        },
        forall|i: int|
            0 <= i < network.1@.len() ==> #[trigger] network.1@[i] == node_of(
                lines_of(input@)[i + 2],
            ),
{
    let chars = to_chars(input);
    let lines = split_lines(&chars);
    let ghost rows = lines_of(input@);
    proof {
        assert(views(lines@)[0] == lines@[0]@);
    }
    let head = &lines[0];
    let mut directions: Vec<Direction> = Vec::new();
    let mut i: usize = 0;
    while i < head.len()
        invariant
            i <= head@.len(),
            head@ == rows[0],
            forall|k: int| 0 <= k < rows[0].len() ==> turn_of(#[trigger] rows[0][k]) is Some,
            directions@.len() == i,
            forall|k: int| 0 <= k < i ==> Some(#[trigger] directions@[k]) == turn_of(rows[0][k]),
        decreases head@.len() - i,
    {
        proof {
            assert(turn_of(rows[0][i as int]) is Some);
        }
        let dir = if head[i] == 'L' {
            Direction::Left
        } else {
            Direction::Right
        };
        directions.push(dir);
        i += 1;
    }
    let mut nodes: Vec<Node> = Vec::new();
    let mut r: usize = 2;
    while r < lines.len()
        invariant
            2 <= r,
            r <= lines@.len() || lines@.len() < 2,
            views(lines@) == rows,
            forall|k: int| 2 <= k < rows.len() ==> is_node_line(#[trigger] rows[k]),
            nodes@.len() == if r <= lines@.len() {
                r - 2
            } else {
                0
            },
            forall|k: int| 0 <= k < nodes@.len() ==> #[trigger] nodes@[k] == node_of(rows[k + 2]),
        decreases lines@.len() - r,
    {
        proof {
            assert(views(lines@)[r as int] == lines@[r as int]@);
            assert(is_node_line(rows[r as int]));
        }
        let node = Node::parse_line(&lines[r]);
        nodes.push(node);
        r += 1;
    }
    (directions, nodes)
}

/// `sorted` with the node `x` put in after all nodes whose number is no
/// larger.
pub open spec fn insert_node(sorted: Seq<Node>, x: Node) -> Seq<Node>
    decreases sorted.len(),
{
    if sorted.len() == 0 {
        seq![x]
    } else if sorted.last().current <= x.current {
        sorted.push(x)
    } else {
        insert_node(sorted.drop_last(), x).push(sorted.last())
    }
}

/// `nodes` in the order of their numbers.
pub open spec fn sort_nodes(nodes: Seq<Node>) -> Seq<Node>
    decreases nodes.len(),
{
    if nodes.len() == 0 {
        Seq::empty()
    } else {
        insert_node(sort_nodes(nodes.drop_last()), nodes.last())
    }
}

/// `nodes` in the order of their numbers.
pub fn sorted_nodes(nodes: &Vec<Node>) -> (sorted: Vec<Node>)
    ensures
        sorted@ == sort_nodes(nodes@),
{
    let mut sorted: Vec<Node> = Vec::new();
    let mut i: usize = 0;
    while i < nodes.len()
        invariant
            i <= nodes@.len(),
            sorted@ == sort_nodes(nodes@.take(i as int)),
        decreases nodes@.len() - i,
    {
        let x = nodes[i];
        let ghost before = sorted@;
        proof {
            assert(nodes@.take(i + 1).drop_last() =~= nodes@.take(i as int));
        }
        sorted.push(x);
        let mut k: usize = sorted.len() - 1;
        proof {
            assert(before.take(k as int) =~= before);
            assert(sorted@.take(k as int) =~= before);
            assert(insert_node(before, x) + sorted@.skip(k + 1) =~= insert_node(before, x));
        }
        while k > 0 && sorted[k - 1].current > x.current
            invariant
                k < sorted@.len(),
                sorted@.len() == before.len() + 1,
                sorted@.take(k as int) == before.take(k as int),
                sorted@[k as int] == x,
                insert_node(before, x) == insert_node(before.take(k as int), x) + sorted@.skip(
                    k + 1,
                ),
            decreases k,
        {
            let moved = sorted[k - 1];
            proof {
                let head = before.take(k as int);
                assert(head.last() == moved);
                assert(head.drop_last() =~= before.take(k - 1));
            }
            let ghost was = sorted@;
            sorted.set(k, moved);
            sorted.set(k - 1, x);
            proof {
                assert(sorted@.take(k - 1) =~= before.take(k - 1));
                assert(sorted@.skip(k as int) =~= seq![moved] + was.skip(k + 1));
                assert(insert_node(before.take(k as int), x) == insert_node(
                    before.take(k - 1),
                    x,
                ).push(moved));
                assert(insert_node(before.take(k - 1), x).push(moved) + was.skip(k + 1)
                    =~= insert_node(before.take(k - 1), x) + sorted@.skip(k as int));
            }
            k -= 1;
        }
        proof {
            let head = before.take(k as int);
            if k > 0 {
                assert(head.last() == sorted@[k - 1]);
            }
            assert(insert_node(head, x) == head.push(x));
            assert(head.push(x) + sorted@.skip(k + 1) =~= sorted@);
        }
        i += 1;
    }
    proof {
        assert(nodes@.take(i as int) =~= nodes@);
    }
    sorted
}

/// Whether the nodes are in rising order of their numbers and every
/// neighbour of every node is a node: what a walk needs.
pub fn check_network(nodes: &Vec<Node>) -> (sound: bool)
    ensures
        sound == (is_ordered(nodes@) && is_closed(nodes@)),
{
    let mut i: usize = 1;
    while i < nodes.len()
        invariant
            1 <= i,
            i <= nodes@.len() || nodes@.len() == 0,
            forall|k: int| 1 <= k < i ==> (#[trigger] nodes@[k - 1]).current < nodes@[k].current,
        decreases nodes@.len() - i,
    {
        if nodes[i - 1].current >= nodes[i].current {
            proof {
                assert(!(nodes@[i - 1].current < nodes@[i as int].current));
            }
            return false;
        }
        i += 1;
    }
    proof {
        lemma_steps_ordered(nodes@);
    }
    let mut k: usize = 0;
    while k < nodes.len()
        invariant
            k <= nodes@.len(),
            is_ordered(nodes@),
            forall|j: int| 0 <= j < k ==> #[trigger] has_neighbours(nodes@, j),
        decreases nodes@.len() - k,
    {
        let left = find_node(nodes, nodes[k].left);
        let right = find_node(nodes, nodes[k].right);
        if left.is_none() || right.is_none() {
            proof {
                assert(!has_neighbours(nodes@, k as int));
            }
            return false;
        }
        proof {
            assert(nodes@[left.unwrap() as int].current == nodes@[k as int].left);
            assert(nodes@[right.unwrap() as int].current == nodes@[k as int].right);
        }
        k += 1;
    }
    true
}

/// Nodes of which each has a larger number than the one before it are in
/// rising order.
pub proof fn lemma_steps_ordered(nodes: Seq<Node>)
    requires
        forall|k: int| 1 <= k < nodes.len() ==> (#[trigger] nodes[k - 1]).current < nodes[k].current,
    ensures
        is_ordered(nodes),
{
    assert forall|i: int, j: int| 0 <= i < j < nodes.len() implies nodes[i].current
        < nodes[j].current by {
        lemma_steps_between(nodes, i, j);
    }
}

/// Between two places of nodes that rise step by step the numbers rise.
pub proof fn lemma_steps_between(nodes: Seq<Node>, i: int, j: int)
    requires
        forall|k: int| 1 <= k < nodes.len() ==> (#[trigger] nodes[k - 1]).current < nodes[k].current,
        0 <= i < j < nodes.len(),
    ensures
        nodes[i].current < nodes[j].current,
    decreases j - i,
{
    assert(nodes[j - 1].current < nodes[j].current);
    if i < j - 1 {
        lemma_steps_between(nodes, i, j - 1);
    }
}

/// Whether the nodes are in rising order of their numbers, each number
/// once.
pub open spec fn is_ordered(nodes: Seq<Node>) -> bool {
    forall|i: int, j: int| 0 <= i < j < nodes.len() ==> nodes[i].current < nodes[j].current
}

/// Whether some node has the number `id`.
pub open spec fn has_node(nodes: Seq<Node>, id: u64) -> bool {
    exists|i: int| 0 <= i < nodes.len() && (#[trigger] nodes[i]).current == id
}

/// Where among the ordered `nodes` the node with the number `id` is, if it
/// is there.
pub fn find_node(nodes: &Vec<Node>, id: u64) -> (place: Option<usize>)
    requires
        is_ordered(nodes@),
    ensures
        match place {
            Some(i) => i < nodes@.len() && nodes@[i as int].current == id,
            None => !has_node(nodes@, id),
        },
{
    let mut low: usize = 0;
    let mut high: usize = nodes.len();
    while low < high
        invariant
            low <= high <= nodes@.len(),
            is_ordered(nodes@),
            forall|i: int| 0 <= i < low ==> (#[trigger] nodes@[i]).current < id,
            forall|i: int| high <= i < nodes@.len() ==> (#[trigger] nodes@[i]).current > id,
        decreases high - low,
    {
        let mid = low + (high - low) / 2;
        let v = nodes[mid].current;
        if v == id {
            return Some(mid);
        } else if v < id {
            low = mid + 1;
        } else {
            high = mid;
        }
    }
    None
}

/// Both neighbours of the node at place `i` are nodes.
pub open spec fn has_neighbours(nodes: Seq<Node>, i: int) -> bool {
    has_node(nodes, nodes[i].left) && has_node(nodes, nodes[i].right)
}

/// Every neighbour of every node is a node.
pub open spec fn is_closed(nodes: Seq<Node>) -> bool {
    forall|i: int| 0 <= i < nodes.len() ==> #[trigger] has_neighbours(nodes, i)
}

/// The place of the node with the number `id`.
pub open spec fn place_of(nodes: Seq<Node>, id: u64) -> int {
    choose|i: int| 0 <= i < nodes.len() && (#[trigger] nodes[i]).current == id
}

/// The place at which a walker is after `steps` steps from place `from`,
/// when the turns are read round and round.
pub open spec fn walk(nodes: Seq<Node>, turns: Seq<Direction>, from: int, steps: nat) -> int
    decreases steps,
{
    if steps == 0 {
        from
    } else {
        let before = walk(nodes, turns, from, (steps - 1) as nat);
        let turn = turns[(steps - 1) % (turns.len() as int)];
        place_of(
            nodes,
            match turn {
                Direction::Left => nodes[before].left,
                Direction::Right => nodes[before].right,
            },
        )
    }
}

/// Whether the node `node` ends a walk: with a `goal`, the node of that
/// number does; without one, every node of type `Last` does.
pub open spec fn ends_walk(node: Node, goal: Option<u64>) -> bool {
    match goal {
        Some(id) => node.current == id,
        None => node.node_type is Last,
    }
}

/// The number of steps after which a walker who starts at place `from`
/// first is at a node that ends the walk, or `None` where no such node
/// comes within `limit` steps.
pub fn count_steps(
    nodes: &Vec<Node>,
    turns: &Vec<Direction>,
    from: usize,
    goal: Option<u64>,
    limit: u64,
) -> (steps: Option<u64>)
    requires
        is_ordered(nodes@),
        is_closed(nodes@),
        from < nodes@.len(),
        turns@.len() > 0,
    ensures
        match steps {
            Some(n) => {
                &&& n <= limit
                &&& ends_walk(nodes@[walk(nodes@, turns@, from as int, n as nat)], goal)
                &&& forall|k: nat|
                    k < n ==> !ends_walk(
                        nodes@[#[trigger] walk(nodes@, turns@, from as int, k)],
                        goal,
                    )
            },
            None => forall|k: nat|
                k <= limit ==> !ends_walk(
                    nodes@[#[trigger] walk(nodes@, turns@, from as int, k)],
                    goal,
                ),
        },
{
    let mut place: usize = from;
    let mut pos: usize = 0;
    let mut steps: u64 = 0;
    loop
        invariant
            is_ordered(nodes@),
            is_closed(nodes@),
            from < nodes@.len(),
            turns@.len() > 0,
            steps <= limit || steps == 0,
            place == walk(nodes@, turns@, from as int, steps as nat),
            place < nodes@.len(),
            pos < turns@.len(),
            pos == steps as int % (turns@.len() as int),
            forall|k: nat|
                k < steps ==> !ends_walk(
                    nodes@[#[trigger] walk(nodes@, turns@, from as int, k)],
                    goal,
                ),
        decreases limit - steps,
    {
        let node = nodes[place];
        let done = match goal {
            Some(id) => node.current == id,
            None => node.node_type == NodeType::Last,
        };
        if done {
            if steps > limit {
                return None;
            }
            return Some(steps);
        }
        if steps >= limit {
            return None;
        }
        let next_id = match turns[pos] {
            Direction::Left => node.left,
            Direction::Right => node.right,
        };
        proof {
            assert(has_neighbours(nodes@, place as int));
        }
        match find_node(nodes, next_id) {
            Some(next) => {
                proof {
                    let chosen = place_of(nodes@, next_id);
                    assert(nodes@[chosen].current == next_id);
                    if chosen < next {
                        assert(nodes@[chosen].current < nodes@[next as int].current);
                    }
                    if next < chosen {
                        assert(nodes@[next as int].current < nodes@[chosen].current);
                    }
                    let t = turns@.len() as int;
                    assert((steps + 1) % t == if pos + 1 == t {
                        0
                    } else {
                        pos + 1
                    }) by (nonlinear_arith)
                        requires
                            pos == steps as int % t,
                            0 <= pos < t,
                            0 <= steps,
                    ;
                }
                place = next;
            },
            None => {
                return None;
            },
        }
        pos = if pos == turns.len() - 1 {
            0
        } else {
            pos + 1
        };
        steps += 1;
    }
}

/// Whether `d` divides both `a` and `b`.
pub open spec fn divides_both(d: nat, a: nat, b: nat) -> bool {
    d > 0 && a % d == 0 && b % d == 0
}

/// Whether `g` is the greatest common divisor of `a` and `b`: it divides
/// both, and no larger number does. That of 0 and 0 is 0.
pub open spec fn is_gcd(a: nat, b: nat, g: nat) -> bool {
    if a == 0 && b == 0 {
        g == 0
    } else {
        divides_both(g, a, b) && forall|d: nat| #[trigger] divides_both(d, a, b) ==> d <= g
    }
}

/// The greatest common divisor of `a` and `b`.
pub open spec fn gcd_of(a: nat, b: nat) -> nat {
    choose|g: nat| is_gcd(a, b, g)
}

/// Two numbers have one greatest common divisor only.
pub proof fn lemma_gcd_is(a: nat, b: nat, g: nat)
    requires
        is_gcd(a, b, g),
    ensures
        gcd_of(a, b) == g,
        a > 0 || b > 0 ==> g > 0,
{
    let other = gcd_of(a, b);
    assert(is_gcd(a, b, other));
    if a > 0 || b > 0 {
        assert(divides_both(g, a, b));
        assert(divides_both(other, a, b));
    }
}

/// The least common multiple of `a` and `b`; that of 0 and 0 is 0.
pub open spec fn lcm_of(a: nat, b: nat) -> nat {
    if a == 0 && b == 0 {
        0
    } else {
        a * (b / gcd_of(a, b))
    }
}

/// The least common multiple of all of `values`; that of none is 1.
pub open spec fn lcm_of_all(values: Seq<u64>) -> nat
    decreases values.len(),
{
    if values.len() == 0 {
        1
    } else {
        lcm_of(lcm_of_all(values.drop_last()), values.last() as nat)
    }
}

/// Whether the least common multiple of every beginning of `values` is a
/// 64-bit number.
pub open spec fn lcm_fits(values: Seq<u64>) -> bool
    decreases values.len(),
{
    values.len() == 0 || (lcm_fits(values.drop_last()) && lcm_of_all(values) <= u64::MAX)
}

/// `num_integer::gcd` on two `u64`: the greatest common divisor of the two
/// numbers, 0 for 0 and 0. The crate computes it by Stein's algorithm,
/// which fails on no input.
#[verifier::external_body]
fn gcd_u64(a: u64, b: u64) -> (g: u64)
    ensures
        is_gcd(a as nat, b as nat, g as nat),
{
    num_integer::gcd(a, b)
}

/// `num_integer::lcm` on two `u64`: 0 for 0 and 0, else the first number
/// times the quotient of the second by the greatest common divisor. The
/// crate multiplies without a check, so the product has to fit.
#[verifier::external_body]
fn lcm_u64(a: u64, b: u64) -> (l: u64)
    requires
        lcm_of(a as nat, b as nat) <= u64::MAX,
    ensures
        l == lcm_of(a as nat, b as nat),
{
    num_integer::lcm(a, b)
}

/// The least common multiple of `a` and `b`, or `None` where it is no
/// 64-bit number.
pub fn checked_lcm(a: u64, b: u64) -> (l: Option<u64>)
    ensures
        match l {
            Some(v) => v == lcm_of(a as nat, b as nat),
            None => lcm_of(a as nat, b as nat) > u64::MAX,
        },
{
    if a == 0 && b == 0 {
        return Some(lcm_u64(a, b));
    }
    let g = gcd_u64(a, b);
    proof {
        lemma_gcd_is(a as nat, b as nat, g as nat);
    }
    let q = b / g;
    match a.checked_mul(q) {
        Some(_) => Some(lcm_u64(a, b)),
        None => None,
    }
}

/// The least common multiple of all of `values`, or `None` where that of
/// some beginning of `values` is no 64-bit number.
pub fn lcm_all(values: &Vec<u64>) -> (l: Option<u64>)
    ensures
        match l {
            Some(v) => lcm_fits(values@) && v == lcm_of_all(values@),
            None => !lcm_fits(values@),
        },
{
    let mut acc: u64 = 1;
    let mut i: usize = 0;
    while i < values.len()
        invariant
            i <= values@.len(),
            lcm_fits(values@.take(i as int)),
            acc == lcm_of_all(values@.take(i as int)),
        decreases values@.len() - i,
    {
        proof {
            assert(values@.take(i + 1).drop_last() =~= values@.take(i as int));
        }
        match checked_lcm(acc, values[i]) {
            Some(next) => {
                acc = next;
            },
            None => {
                proof {
                    if lcm_fits(values@) {
                        lemma_lcm_fits_prefix(values@, i + 1);
                    }
                }
                return None;
            },
        }
        i += 1;
    }
    proof {
        assert(values@.take(i as int) =~= values@);
    }
    Some(acc)
}

/// Where the least common multiples of all beginnings of `values` fit, so
/// do those of the beginnings of every beginning.
pub proof fn lemma_lcm_fits_prefix(values: Seq<u64>, k: int)
    requires
        0 <= k <= values.len(),
        lcm_fits(values),
    ensures
        lcm_fits(values.take(k)),
    decreases values.len(),
{
    if k == values.len() {
        assert(values.take(k) =~= values);
    } else {
        lemma_lcm_fits_prefix(values.drop_last(), k);
        assert(values.drop_last().take(k) =~= values.take(k));
    }
}

} // verus!
