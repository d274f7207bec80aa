//! The hash of a step of the lens installation, and the boxes of lenses
//! that the steps fill.

use crate::text::{
    code, copy_range, parse_i64, same_chars, signed_of, split_at_char, split_char, to_chars,
    views,
};
use vstd::prelude::*;

verus! {

/// The hash of `s`: from 0, for each character add its code, multiply by
/// 17 and keep the remainder of the division by 256.
pub open spec fn hash_of(s: Seq<char>) -> int
    decreases s.len(),
{
    if s.len() == 0 {
        0
    } else {
        ((hash_of(s.drop_last()) + s.last() as int) * 17) % 256
    }
}

/// The hash of `chars`.
pub fn hash_chars(chars: &Vec<char>) -> (h: i64)
    ensures
        h == hash_of(chars@),
        0 <= h < 256,
{
    let mut h: u64 = 0;
    let mut i: usize = 0;
    while i < chars.len()
        invariant
            i <= chars@.len(),
            h == hash_of(chars@.take(i as int)),
            0 <= h < 256,
        decreases chars@.len() - i,
    {
        proof {
            assert(chars@.take(i + 1).drop_last() =~= chars@.take(i as int));
        }
        let v = code(chars[i]) as u64;
        h += v;
        h *= 17;
        h %= 256;
        i += 1;
    }
    proof {
        assert(chars@.take(i as int) =~= chars@);
    }
    h as i64
}

/// The hash of `s`.
pub fn hash(s: &str) -> (h: i64)
    ensures
        h == hash_of(s@),
        0 <= h < 256,
{
    let chars = to_chars(s);
    hash_chars(&chars)
}

/// A lens: its label and its focal length.
#[derive(Debug, Clone)]
pub struct Lens {
    pub label: Vec<char>,
    pub focal_length: i64,
}

impl Lens {
    /// Whether the two lenses have the same label; lenses are told apart
    /// by their labels alone.
    pub fn same_label(&self, other: &Lens) -> (same: bool)
        ensures
            same == (self.label@ == other.label@),
    {
        same_chars(&self.label, &other.label)
    }
}

/// A box of lenses, in the order in which they were put in.
#[derive(Debug, Clone)]
pub struct LensBox {
    pub lenses: Vec<Lens>,
}

/// A lens as its label and its focal length.
pub type Slot = (Seq<char>, i64);

/// The lenses as labels and focal lengths.
pub open spec fn slots(lenses: Seq<Lens>) -> Seq<Slot> {
    lenses.map_values(|l: Lens| (l.label@, l.focal_length))
}

/// The boxes as lists of labels and focal lengths.
pub open spec fn shelves(boxes: Seq<LensBox>) -> Seq<Seq<Slot>> {
    boxes.map_values(|b: LensBox| slots(b.lenses@))
}

/// Whether a lens with the label `label` is among `lenses`.
pub open spec fn has_label(lenses: Seq<Slot>, label: Seq<char>) -> bool {
    exists|i: int| 0 <= i < lenses.len() && (#[trigger] lenses[i]).0 == label
}

/// `lenses` with the focal length `focal_length` for every lens with the
/// label `label`.
pub open spec fn refocused(lenses: Seq<Slot>, label: Seq<char>, focal_length: i64) -> Seq<Slot> {
    lenses.map_values(
        |l: Slot|
            if l.0 == label {
                (l.0, focal_length)
            } else {
                l
            },
    )
}

/// `lenses` without the lenses with the label `label`.
pub open spec fn removed(lenses: Seq<Slot>, label: Seq<char>) -> Seq<Slot>
    decreases lenses.len(),
{
    if lenses.len() == 0 {
        Seq::empty()
    } else if lenses.last().0 == label {
        removed(lenses.drop_last(), label)
    } else {
        removed(lenses.drop_last(), label).push(lenses.last())
    }
}

/// What a step asks for.
pub enum Step {
    /// Put a lens with this label and focal length into its box.
    Put(Seq<char>, i64),
    /// Take the lenses with this label out of their box.
    Take(Seq<char>),
}

/// What the step `s` asks for: with an equals sign, to put in the lens
/// whose label stands before the first equals sign and whose focal length
/// stands after it; else with a dash, to take out the lenses with the label
/// that is the step without its last character.
pub open spec fn step_of(s: Seq<char>) -> Option<Step> {
    if s.contains('=') {
        match signed_of(split_at_char(s, '=')[1], i64::MIN as int, i64::MAX as int) {
            Some(f) => Some(Step::Put(split_at_char(s, '=')[0], f as i64)),
            None => None,
        }
    } else if s.contains('-') {
        Some(Step::Take(s.drop_last()))
    } else {
        None
    }
}

/// The boxes after the step `step`: the lens goes into, or out of, the box
/// whose number is the hash of the label. A lens whose label is in the box
/// already only changes the focal length there.
pub open spec fn stepped(boxes: Seq<Seq<Slot>>, step: Step) -> Seq<Seq<Slot>> {
    match step {
        Step::Put(label, f) => {
            let at = hash_of(label);
            if has_label(boxes[at], label) {
                boxes.update(at, refocused(boxes[at], label, f))
            } else {
                boxes.update(at, boxes[at].push((label, f)))
            }
        },
        Step::Take(label) => {
            let at = hash_of(label);
            boxes.update(at, removed(boxes[at], label))
        },
    }
}

/// Whether `c` is among `chars`.
pub fn holds_char(chars: &Vec<char>, c: char) -> (found: bool)
    ensures
        found == chars@.contains(c),
{
    let mut i: usize = 0;
    while i < chars.len()
        invariant
            i <= chars@.len(),
            forall|k: int| 0 <= k < i ==> chars@[k] != c,
        decreases chars@.len() - i,
    {
        if chars[i] == c {
            return true;
        }
        i += 1;
    }
    false
}

impl LensBox {
    /// An empty box.
    pub fn new() -> (b: LensBox)
        ensures
            b.lenses@.len() == 0,
    {
        LensBox { lenses: Vec::new() }
    }

    /// Whether a lens with the label `label` is in the box.
    pub fn holds_label(&self, label: &Vec<char>) -> (found: bool)
        ensures
            found == has_label(slots(self.lenses@), label@),
    {
        let mut i: usize = 0;
        while i < self.lenses.len()
            invariant
                i <= self.lenses@.len(),
                forall|k: int| 0 <= k < i ==> (#[trigger] slots(self.lenses@)[k]).0 != label@,
            decreases self.lenses@.len() - i,
        {
            if same_chars(&self.lenses[i].label, label) {
                assert(slots(self.lenses@)[i as int].0 == label@);
                return true;
            }
            i += 1;
        }
        false
    }

    /// Gives every lens with the label `label` the focal length
    /// `focal_length`.
    pub fn refocus(&mut self, label: &Vec<char>, focal_length: i64)
        ensures
            slots(final(self).lenses@) == refocused(slots(old(self).lenses@), label@, focal_length),
    {
        let ghost before = slots(self.lenses@);
        let mut i: usize = 0;
        while i < self.lenses.len()
            invariant
                i <= self.lenses@.len(),
                self.lenses@.len() == before.len(),
                forall|k: int|
                    0 <= k < self.lenses@.len() ==> #[trigger] slots(self.lenses@)[k] == if k < i {
                        refocused(before, label@, focal_length)[k]
                    } else {
                        before[k]
                    },
            decreases self.lenses@.len() - i,
        {
            proof {
                assert(slots(self.lenses@)[i as int] == before[i as int]);
            }
            if same_chars(&self.lenses[i].label, label) {
                let ghost was = self.lenses@;
                self.lenses[i].focal_length = focal_length;
                proof {
                    assert forall|k: int| 0 <= k < self.lenses@.len() implies #[trigger] slots(
                        self.lenses@,
                    )[k] == if k < i + 1 {
                        refocused(before, label@, focal_length)[k]
                    } else {
                        before[k]
                    } by {
                        if k != i {
                            assert(self.lenses@[k] == was[k]);
                            assert(slots(was)[k] == slots(self.lenses@)[k]);
                        }
                    }
                }
            }
            i += 1;
        }
        proof {
            assert(slots(self.lenses@) =~= refocused(before, label@, focal_length));
        }
    }

    /// Takes the lenses with the label `label` out of the box.
    pub fn take_out(&mut self, label: &Vec<char>)
        ensures
            slots(final(self).lenses@) == removed(slots(old(self).lenses@), label@),
    {
        let ghost before = slots(self.lenses@);
        let mut kept: Vec<Lens> = Vec::new();
        let mut i: usize = 0;
        while i < self.lenses.len()
            invariant
                i <= self.lenses@.len(),
                slots(self.lenses@) == before,
                slots(kept@) == removed(before.take(i as int), label@),
            decreases self.lenses@.len() - i,
        {
            proof {
                assert(before.take(i + 1).drop_last() =~= before.take(i as int));
                assert(before.take(i + 1).last() == before[i as int]);
                assert(slots(self.lenses@)[i as int] == before[i as int]);
            }
            if !same_chars(&self.lenses[i].label, label) {
                let ghost was = kept@;
                let copy = Lens {
                    label: copy_range(&self.lenses[i].label, 0, self.lenses[i].label.len()),
                    focal_length: self.lenses[i].focal_length,
                };
                proof {
                    assert(copy.label@ =~= self.lenses@[i as int].label@);
                }
                kept.push(copy);
                proof {
                    assert(slots(kept@) =~= slots(was).push(before[i as int]));
                }
            }
            i += 1;
        }
        proof {
            assert(before.take(i as int) =~= before);
        }
        self.lenses = kept;
    }
}

/// The 256 empty boxes.
pub fn empty_boxes() -> (boxes: Vec<LensBox>)
    ensures
        boxes@.len() == 256,
        forall|i: int| 0 <= i < 256 ==> (#[trigger] boxes@[i]).lenses@.len() == 0,
{
    let mut boxes: Vec<LensBox> = Vec::new();
    let mut i: usize = 0;
    while i < 256
        invariant
            i <= 256,
            boxes@.len() == i,
            forall|k: int| 0 <= k < i ==> (#[trigger] boxes@[k]).lenses@.len() == 0,
        decreases 256 - i,
    {
        boxes.push(LensBox::new());
        i += 1;
    }
    boxes
}

/// Does what the step `step` asks for.
pub fn install(boxes: &mut Vec<LensBox>, step: &Vec<char>)
    requires
        old(boxes)@.len() == 256,
        step_of(step@) is Some,
    ensures
        final(boxes)@.len() == 256,
        shelves(final(boxes)@) == stepped(shelves(old(boxes)@), step_of(step@).unwrap()),
{
    let ghost before = boxes@;
    if holds_char(step, '=') {
        let parts = split_char(step, '=');
        proof {
            assert(step@.contains('='));
            lemma_split_has_two(step@, '=');
            assert(views(parts@).len() >= 2);
            assert(views(parts@)[0] == parts@[0]@);
            assert(views(parts@)[1] == parts@[1]@);
        }
        let focal_length = match parse_i64(&parts[1]) {
            Some(f) => f,
            None => 0,
        };
        let label = &parts[0];
        let at = hash_chars(label) as usize;
        if boxes[at].holds_label(label) {
            boxes[at].refocus(label, focal_length);
        } else {
            let copy = Lens { label: copy_range(label, 0, label.len()), focal_length };
            proof {
                assert(copy.label@ =~= label@);
            }
            let ghost was = boxes@[at as int].lenses@;
            boxes[at].lenses.push(copy);
            proof {
                assert(slots(boxes@[at as int].lenses@) =~= slots(was).push(
                    (label@, focal_length),
                ));
            }
        }
        proof {
            assert forall|k: int| 0 <= k < 256 && k != at implies boxes@[k] == before[k] by {
            }
            assert(shelves(boxes@) =~= stepped(shelves(before), step_of(step@).unwrap()));
        }
    } else {
        proof {
            assert(step@.contains('-'));
        }
        let label = copy_range(step, 0, step.len() - 1);
        proof {
            assert(label@ =~= step@.drop_last());
        }
        let at = hash_chars(&label) as usize;
        boxes[at].take_out(&label);
        proof {
            assert forall|k: int| 0 <= k < 256 && k != at implies boxes@[k] == before[k] by {
            }
            assert(shelves(boxes@) =~= stepped(shelves(before), step_of(step@).unwrap()));
        }
    }
}

/// A text that holds the separator has at least two pieces.
pub proof fn lemma_split_has_two(s: Seq<char>, sep: char)
    requires
        s.contains(sep),
    ensures
        split_at_char(s, sep).len() >= 2,
{
    let k = crate::text::run_len(s, crate::text::is_char(sep));
    crate::text::lemma_run_len_bounds(s, crate::text::is_char(sep));
    let i = choose|i: int| 0 <= i < s.len() && s[i] == sep;
    if k == s.len() {
        assert(!crate::text::is_char(sep)(s[i]));
    }
    assert(split_at_char(s.skip(k + 1), sep).len() >= 1) by {
        lemma_split_nonempty(s.skip(k + 1), sep);
    }
}

/// Every text has at least one piece.
pub proof fn lemma_split_nonempty(s: Seq<char>, sep: char)
    ensures
        split_at_char(s, sep).len() >= 1,
{
}

/// The focusing power of the lenses of box number `number`: for each lens
/// the number of the box and the place of the lens, both counted from 1,
/// times the focal length.
pub open spec fn box_power(lenses: Seq<Slot>, number: int) -> int
    decreases lenses.len(),
{
    if lenses.len() == 0 {
        0
    } else {
        box_power(lenses.drop_last(), number) + (number + 1) * lenses.len() * lenses.last().1
    }
}

/// The focusing power of all lenses of the first `k` boxes.
pub open spec fn total_power(boxes: Seq<Seq<Slot>>, k: int) -> int
    decreases k,
{
    if k <= 0 {
        0
    } else {
        total_power(boxes, k - 1) + box_power(boxes[k - 1], k - 1)
    }
}

/// Whether every sum on the way to the focusing power of `boxes` is a
/// 64-bit number.
pub open spec fn power_fits(boxes: Seq<Seq<Slot>>) -> bool {
    forall|k: int, j: int|
        0 <= k < boxes.len() && 0 <= j <= boxes[k].len() ==> {
            &&& i64::MIN <= total_power(boxes, k) + #[trigger] box_power(boxes[k].take(j), k)
                <= i64::MAX
            &&& j < boxes[k].len() ==> i64::MIN <= (k + 1) * (j + 1) * boxes[k][j].1 <= i64::MAX
            &&& j < boxes[k].len() ==> i64::MIN <= (k + 1) * (j + 1) <= i64::MAX
        }
}

/// The focusing power of all lenses of the boxes.
pub fn focusing_power(boxes: &Vec<LensBox>) -> (sum_power: i64)
    requires
        power_fits(shelves(boxes@)),
        boxes@.len() <= i64::MAX,
    ensures
        sum_power == total_power(shelves(boxes@), boxes@.len() as int),
{
    let ghost all = shelves(boxes@);
    let mut sum_power: i64 = 0;
    let mut i: usize = 0;
    while i < boxes.len()
        invariant
            i <= boxes@.len(),
            all == shelves(boxes@),
            power_fits(all),
            boxes@.len() <= i64::MAX,
            sum_power == total_power(all, i as int),
        decreases boxes@.len() - i,
    {
        let b = &boxes[i];
        let ghost lenses = all[i as int];
        let ghost base = sum_power as int;
        let mut j: usize = 0;
        proof {
            assert(lenses == slots(b.lenses@));
            assert(lenses.take(0).len() == 0);
        }
        while j < b.lenses.len()
            invariant
                j <= b.lenses@.len(),
                i < boxes@.len(),
                all == shelves(boxes@),
                lenses == all[i as int],
                lenses == slots(b.lenses@),
                power_fits(all),
                boxes@.len() <= i64::MAX,
                base == total_power(all, i as int),
                sum_power == base + box_power(lenses.take(j as int), i as int),
            decreases b.lenses@.len() - j,
        {
            proof {
                assert(lenses.take(j + 1).drop_last() =~= lenses.take(j as int));
                assert(lenses.take(j + 1).last() == lenses[j as int]);
                assert(lenses[j as int].1 == b.lenses@[j as int].focal_length);
                assert(i64::MIN <= total_power(all, i as int) + box_power(
                    all[i as int].take(j + 1),
                    i as int,
                ) <= i64::MAX);
                assert(i64::MIN <= (i + 1) * (j + 1) * all[i as int][j as int].1 <= i64::MAX);
                assert(i64::MIN <= (i + 1) * (j + 1) <= i64::MAX);
                assert(j + 1 <= (i + 1) * (j + 1)) by (nonlinear_arith)
                    requires
                        0 <= i,
                        0 <= j,
                ;
                assert(b.lenses@.len() == lenses.len());
            }
            let mut power: i64 = i as i64 + 1;
            power *= j as i64 + 1;
            power *= b.lenses[j].focal_length;
            sum_power += power;
            j += 1;
        }
        proof {
            assert(lenses.take(j as int) =~= lenses);
        }
        i += 1;
    }
    sum_power
}

/// The sum of the hashes of the first `k` of `steps`.
pub open spec fn hash_total(steps: Seq<Seq<char>>, k: int) -> int
    decreases k,
{
    if k <= 0 {
        0
    } else {
        hash_total(steps, k - 1) + hash_of(steps[k - 1])
    }
}

/// The boxes after the first `k` of `steps`, beginning with 256 empty
/// boxes.
pub open spec fn boxes_after(steps: Seq<Seq<char>>, k: int) -> Seq<Seq<Slot>>
    decreases k,
{
    if k <= 0 {
        Seq::new(256, |i: int| Seq::<Slot>::empty())
    } else {
        stepped(boxes_after(steps, k - 1), step_of(steps[k - 1]).unwrap())
    }
}

/// Follows the steps of `input`, which stand between commas: returns the
/// sum of their hashes and the boxes as the steps leave them.
pub fn initialize(input: &str) -> (done: (i64, Vec<LensBox>))
    requires
        forall|i: int|
            0 <= i < split_at_char(input@, ',').len() ==> step_of(
                #[trigger] split_at_char(input@, ',')[i],
            ) is Some,
        split_at_char(input@, ',').len() * 255 <= i64::MAX,
    ensures
        done.0 == hash_total(split_at_char(input@, ','), split_at_char(input@, ',').len() as int),
        done.1@.len() == 256,
        shelves(done.1@) == boxes_after(
            split_at_char(input@, ','),
            split_at_char(input@, ',').len() as int,
        ),
{
    let chars = to_chars(input);
    let steps = split_char(&chars, ',');
    let ghost texts = split_at_char(input@, ',');
    let mut boxes = empty_boxes();
    let mut sum: i64 = 0;
    let mut i: usize = 0;
    proof {
        assert forall|k: int| 0 <= k < 256 implies #[trigger] shelves(boxes@)[k]
            == Seq::<Slot>::empty() by {
            assert(slots(boxes@[k].lenses@) =~= Seq::<Slot>::empty());
        }
        assert(shelves(boxes@) =~= boxes_after(texts, 0));
    }
    while i < steps.len()
        invariant
            i <= steps@.len(),
            views(steps@) == texts,
            forall|k: int| 0 <= k < texts.len() ==> step_of(#[trigger] texts[k]) is Some,
            texts.len() * 255 <= i64::MAX,
            boxes@.len() == 256,
            sum == hash_total(texts, i as int),
            0 <= sum <= i * 255,
            shelves(boxes@) == boxes_after(texts, i as int),
        decreases steps@.len() - i,
    {
        proof {
            assert(views(steps@)[i as int] == steps@[i as int]@);
            assert(step_of(texts[i as int]) is Some);
        }
        let h = hash_chars(&steps[i]);
        sum += h;
        install(&mut boxes, &steps[i]);
        i += 1;
    }
    (sum, boxes)
}

} // verus!
