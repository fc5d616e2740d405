use vstd::prelude::*;

verus! {

broadcast use vstd::array::group_array_axioms;

/// The six mana categories: five colours plus one generic/colorless slot.
#[derive(Clone, Copy, PartialEq, Eq, Structural)]
pub enum ManaType {
    W,
    U,
    B,
    R,
    G,
    C,
}

impl ManaType {
    /// The slot this mana type occupies in the six-slot vectors.
    pub open spec fn index(self) -> int {
        match self {
            ManaType::W => 0,
            ManaType::U => 1,
            ManaType::B => 2,
            ManaType::R => 3,
            ManaType::G => 4,
            ManaType::C => 5,
        }
    }

    pub fn usize(self) -> (r: usize)
        ensures
            r as int == self.index(),
    {
        match self {
            ManaType::W => 0,
            ManaType::U => 1,
            ManaType::B => 2,
            ManaType::R => 3,
            ManaType::G => 4,
            ManaType::C => 5,
        }
    }
}

/// A mana requirement: per-slot minimums, where the generic slot (index 5)
/// only contributes to the total that must be met.
#[derive(Clone, Copy)]
pub struct ManaCost(pub [usize; 6]);

/// An amount of available mana, one count per slot.
#[derive(Clone, Copy)]
pub struct ManaSet(pub [usize; 6]);

impl View for ManaCost {
    type V = Seq<int>;

    open spec fn view(&self) -> Seq<int> {
        seq![
            self.0[0] as int,
            self.0[1] as int,
            self.0[2] as int,
            self.0[3] as int,
            self.0[4] as int,
            self.0[5] as int,
        ]
    }
}

impl View for ManaSet {
    type V = Seq<int>;

    open spec fn view(&self) -> Seq<int> {
        seq![
            self.0[0] as int,
            self.0[1] as int,
            self.0[2] as int,
            self.0[3] as int,
            self.0[4] as int,
            self.0[5] as int,
        ]
    }
}

/// Total mana across all six slots.
pub open spec fn slots_total(v: Seq<int>) -> int {
    v[0] + v[1] + v[2] + v[3] + v[4] + v[5]
}

/// Whether available mana `have` covers requirement `need`: each of the five
/// coloured slots is met exactly, and the overall total (which lets any
/// leftover colour pay the generic slot) is met as well.
pub open spec fn spec_covers(have: Seq<int>, need: Seq<int>) -> bool {
    &&& have[0] >= need[0]
    &&& have[1] >= need[1]
    &&& have[2] >= need[2]
    &&& have[3] >= need[3]
    &&& have[4] >= need[4]
    &&& slots_total(have) >= slots_total(need)
}

/// Pointwise sum of two six-slot vectors.
pub open spec fn spec_add(a: Seq<int>, b: Seq<int>) -> Seq<int> {
    seq![a[0] + b[0], a[1] + b[1], a[2] + b[2], a[3] + b[3], a[4] + b[4], a[5] + b[5]]
}

impl ManaSet {
    /// The all-zero mana set.
    pub fn empty() -> (r: ManaSet)
        ensures
            r@ == seq![0int, 0int, 0int, 0int, 0int, 0int],
    {
        let r = ManaSet([0; 6]);
        proof {
            assert(r@ =~= seq![0int, 0int, 0int, 0int, 0int, 0int]);
        }
        r
    }

    /// A set holding exactly one unit of the given mana type.
    pub fn s(t: ManaType) -> (r: ManaSet)
        ensures
            r@.len() == 6,
            forall|j: int| 0 <= j < 6 ==> r@[j] == if j == t.index() { 1int } else { 0int },
    {
        match t {
            ManaType::W => ManaSet([1, 0, 0, 0, 0, 0]),
            ManaType::U => ManaSet([0, 1, 0, 0, 0, 0]),
            ManaType::B => ManaSet([0, 0, 1, 0, 0, 0]),
            ManaType::R => ManaSet([0, 0, 0, 1, 0, 0]),
            ManaType::G => ManaSet([0, 0, 0, 0, 1, 0]),
            ManaType::C => ManaSet([0, 0, 0, 0, 0, 1]),
        }
    }

    /// Pointwise addition.
    pub fn add(self, rhs: ManaSet) -> (r: ManaSet)
        requires
            self@[0] + rhs@[0] <= usize::MAX,
            self@[1] + rhs@[1] <= usize::MAX,
            self@[2] + rhs@[2] <= usize::MAX,
            self@[3] + rhs@[3] <= usize::MAX,
            self@[4] + rhs@[4] <= usize::MAX,
            self@[5] + rhs@[5] <= usize::MAX,
        ensures
            r@ == spec_add(self@, rhs@),
    {
        let r = ManaSet(
            [
                self.0[0] + rhs.0[0],
                self.0[1] + rhs.0[1],
                self.0[2] + rhs.0[2],
                self.0[3] + rhs.0[3],
                self.0[4] + rhs.0[4],
                self.0[5] + rhs.0[5],
            ],
        );
        proof {
            assert(r@ =~= spec_add(self@, rhs@));
        }
        r
    }

    /// Whether this set covers the requirement `o`.
    pub fn contains(&self, o: &ManaCost) -> (r: bool)
        ensures
            r == spec_covers(self@, o@),
    {
        let have_total: u128 = self.0[0] as u128 + self.0[1] as u128 + self.0[2] as u128
            + self.0[3] as u128 + self.0[4] as u128 + self.0[5] as u128;
        let need_total: u128 = o.0[0] as u128 + o.0[1] as u128 + o.0[2] as u128 + o.0[3] as u128
            + o.0[4] as u128 + o.0[5] as u128;
        self.0[0] >= o.0[0] && self.0[1] >= o.0[1] && self.0[2] >= o.0[2] && self.0[3] >= o.0[3]
            && self.0[4] >= o.0[4] && have_total >= need_total
    }
}

} // verus!
