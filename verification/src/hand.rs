use vstd::prelude::*;
use crate::card::CardDef;
use crate::card::CardShape;
use crate::card::sets_view;
use crate::mana::ManaCost;
use crate::mana::ManaSet;
use crate::mana::slots_total;
use crate::mana::spec_add;
use crate::mana::spec_covers;

verus! {

/// The all-zero mana vector the search starts from.
pub open spec fn zero_mana() -> Seq<int> {
    seq![0int, 0int, 0int, 0int, 0int, 0int]
}

/// A six-slot vector with non-negative entries.
pub open spec fn set_wf(s: Seq<int>) -> bool {
    s.len() == 6 && forall|j: int| 0 <= j < 6 ==> s[j] >= 0
}

pub open spec fn list_wf(sets: Seq<Seq<int>>) -> bool {
    forall|i: int| 0 <= i < sets.len() ==> set_wf(#[trigger] sets[i])
}

pub open spec fn card_wf(c: CardShape) -> bool {
    list_wf(c.slow) && list_wf(c.fast)
}

pub open spec fn hand_wf(h: Seq<CardShape>) -> bool {
    forall|i: int| 0 <= i < h.len() ==> card_wf(#[trigger] h[i])
}

/// Total mana over a whole list of alternatives.
pub open spec fn set_list_total(sets: Seq<Seq<int>>) -> int
    decreases sets.len(),
{
    if sets.len() == 0 {
        0
    } else {
        slots_total(sets[0]) + set_list_total(sets.skip(1))
    }
}

/// Everything a card could contribute, over both paths and all alternatives.
pub open spec fn card_budget(c: CardShape) -> int {
    set_list_total(c.slow) + set_list_total(c.fast)
}

/// Everything the cards at positions idx.. could contribute; this bounds the
/// accumulated mana of the search, which keeps the pointwise sums in usize.
pub open spec fn budget_from(h: Seq<CardShape>, idx: int) -> int
    decreases h.len() - idx,
{
    if idx < 0 || idx >= h.len() {
        0
    } else {
        card_budget(h[idx]) + budget_from(h, idx + 1)
    }
}

/// Some card at a position in ni.. can take `sum` (already holding one
/// alternative of an earlier card) on to success.
pub open spec fn later_succeeds(
    h: Seq<CardShape>,
    goal: Seq<int>,
    sum: Seq<int>,
    ni: int,
    next_land: bool,
) -> bool
    decreases h.len() - ni, 3int, 0int,
{
    if ni < 0 || ni >= h.len() {
        false
    } else {
        feasible_from(h, goal, sum, ni, next_land) || later_succeeds(h, goal, sum, ni + 1,
            next_land)
    }
}

/// Some alternative in sets[j..], added into `curr` as the contribution of
/// the card at `idx`, covers the goal at once or can be finished by a
/// strictly later card.
pub open spec fn alt_succeeds(
    h: Seq<CardShape>,
    goal: Seq<int>,
    curr: Seq<int>,
    idx: int,
    sets: Seq<Seq<int>>,
    j: int,
    next_land: bool,
) -> bool
    decreases h.len() - idx, 1int, sets.len() - j,
{
    if j < 0 || j >= sets.len() || idx < 0 || idx >= h.len() {
        false
    } else {
        spec_covers(spec_add(curr, sets[j]), goal) || later_succeeds(
            h,
            goal,
            spec_add(curr, sets[j]),
            idx + 1,
            next_land,
        ) || alt_succeeds(h, goal, curr, idx, sets, j + 1, next_land)
    }
}

/// The feasibility search from position idx with accumulated mana `curr`:
/// the card at idx must contribute one of its alternatives, through the slow
/// path only while `can_land` still holds (and turning it off below), or
/// through the fast path with the flag carried through.
pub open spec fn feasible_from(
    h: Seq<CardShape>,
    goal: Seq<int>,
    curr: Seq<int>,
    idx: int,
    can_land: bool,
) -> bool
    decreases h.len() - idx, 2int, 0int,
{
    if idx < 0 || idx >= h.len() {
        false
    } else {
        (can_land && alt_succeeds(h, goal, curr, idx, h[idx].slow, 0, false)) || alt_succeeds(
            h,
            goal,
            curr,
            idx,
            h[idx].fast,
            0,
            can_land,
        )
    }
}

/// Whether some subset of the hand's cards can jointly produce mana covering
/// `goal`: the all-zero starting set may already cover it, or a branch may
/// begin at any position, with the slow-source budget available.
pub open spec fn spec_can_produce(h: Seq<CardShape>, goal: Seq<int>) -> bool {
    spec_covers(zero_mana(), goal) || later_succeeds(h, goal, zero_mana(), 0, true)
}

/// How many cards of the hand carry exactly this name.
pub open spec fn spec_count_name(h: Seq<CardShape>, name: Seq<char>) -> int
    decreases h.len(),
{
    if h.len() == 0 {
        0
    } else {
        spec_count_name(h.drop_last(), name) + if h.last().name == name {
            1int
        } else {
            0int
        }
    }
}

/// The view of a presence-requirement list: pairs of name and minimum count.
pub open spec fn name_reqs(names: Seq<(&str, usize)>) -> Seq<(Seq<char>, int)> {
    names.map_values(|p: (&str, usize)| (p.0@, p.1 as int))
}

/// The hand holds, for every pair, at least the required number of cards of
/// that name.
pub open spec fn spec_has_cards(h: Seq<CardShape>, reqs: Seq<(Seq<char>, int)>) -> bool {
    forall|i: int| 0 <= i < reqs.len() ==> spec_count_name(h, (#[trigger] reqs[i]).0) >= reqs[i].1
}

pub proof fn lemma_list_wf_skip(sets: Seq<Seq<int>>)
    requires
        list_wf(sets),
        sets.len() > 0,
    ensures
        list_wf(sets.skip(1)),
{
    assert forall|i: int| 0 <= i < sets.skip(1).len() implies set_wf(#[trigger] sets.skip(1)[i]) by {
        assert(sets.skip(1)[i] == sets[i + 1]);
    }
}

pub proof fn lemma_set_list_nonneg(sets: Seq<Seq<int>>)
    requires
        list_wf(sets),
    ensures
        set_list_total(sets) >= 0,
    decreases sets.len(),
{
    if sets.len() > 0 {
        assert(set_wf(sets[0]));
        lemma_list_wf_skip(sets);
        lemma_set_list_nonneg(sets.skip(1));
    }
}

pub proof fn lemma_slots_member(sets: Seq<Seq<int>>, j: int)
    requires
        list_wf(sets),
        0 <= j < sets.len(),
    ensures
        0 <= slots_total(sets[j]),
        slots_total(sets[j]) <= set_list_total(sets),
    decreases j,
{
    assert(set_wf(sets[j]));
    lemma_list_wf_skip(sets);
    if j == 0 {
        lemma_set_list_nonneg(sets.skip(1));
    } else {
        lemma_slots_member(sets.skip(1), j - 1);
        assert(sets.skip(1)[j - 1] == sets[j]);
        assert(set_wf(sets[0]));
    }
}

pub proof fn lemma_card_wf(c: CardDef)
    ensures
        card_wf(c@),
{
    match c {
        CardDef::Land(l) => {
            lemma_sets_view_wf(l.types@);
        },
        CardDef::Mox(m) => {
            lemma_sets_view_wf(m.types@);
        },
        CardDef::Dud(_) => {
        },
        CardDef::BlackLotus(_) => {
            assert(list_wf(crate::card::lotus_sets())) by {
                assert forall|i: int| 0 <= i < crate::card::lotus_sets().len() implies set_wf(
                    #[trigger] crate::card::lotus_sets()[i],
                ) by {
                    if i == 0 {
                    } else if i == 1 {
                    } else if i == 2 {
                    } else if i == 3 {
                    } else {
                        assert(i == 4);
                    }
                }
            }
        },
        CardDef::NonMana(_) => {
        },
    }
}

pub proof fn lemma_sets_view_wf(v: Seq<ManaSet>)
    ensures
        list_wf(sets_view(v)),
{
    assert forall|i: int| 0 <= i < sets_view(v).len() implies set_wf(#[trigger] sets_view(v)[i]) by {
        assert(sets_view(v)[i] == v[i]@);
    }
}

pub proof fn lemma_hand_wf(cards: Seq<CardDef>)
    ensures
        hand_wf(crate::card::cards_view(cards)),
{
    let h = crate::card::cards_view(cards);
    assert forall|i: int| 0 <= i < h.len() implies card_wf(#[trigger] h[i]) by {
        lemma_card_wf(cards[i]);
    }
}

pub proof fn lemma_budget_nonneg(h: Seq<CardShape>, idx: int)
    requires
        hand_wf(h),
        0 <= idx,
    ensures
        budget_from(h, idx) >= 0,
    decreases h.len() - idx,
{
    if idx < h.len() {
        assert(card_wf(h[idx]));
        lemma_set_list_nonneg(h[idx].slow);
        lemma_set_list_nonneg(h[idx].fast);
        lemma_budget_nonneg(h, idx + 1);
    }
}

pub proof fn lemma_budget_mono(h: Seq<CardShape>, i1: int, i2: int)
    requires
        hand_wf(h),
        0 <= i1 <= i2,
    ensures
        budget_from(h, i2) <= budget_from(h, i1),
    decreases i2 - i1,
{
    if i1 < i2 {
        lemma_budget_mono(h, i1 + 1, i2);
        if i1 < h.len() {
            assert(card_wf(h[i1]));
            lemma_set_list_nonneg(h[i1].slow);
            lemma_set_list_nonneg(h[i1].fast);
        } else {
            lemma_budget_nonneg(h, i2);
        }
    }
}

/// One drawn hand: an ordered list of cards, read-only once built.
pub struct Hand {
    pub cards: Vec<CardDef>,
}

impl View for Hand {
    type V = Seq<CardShape>;

    open spec fn view(&self) -> Seq<CardShape> {
        crate::card::cards_view(self.cards@)
    }
}

impl Hand {
    /// For every (name, minimum) pair the hand holds at least that many
    /// cards of that name.
    pub fn has_cards(&self, names: &[(&str, usize)]) -> (r: bool)
        ensures
            r == spec_has_cards(self@, name_reqs(names@)),
    {
        let mut pi: usize = 0;
        while pi < names.len()
            invariant
                pi <= names@.len(),
                forall|i: int|
                    0 <= i < pi ==> spec_count_name(self@, (#[trigger] name_reqs(names@)[i]).0)
                        >= name_reqs(names@)[i].1,
            decreases names@.len() - pi,
        {
            let pair: (&str, usize) = names[pi];
            let mut ct: usize = 0;
            let mut k: usize = 0;
            while k < self.cards.len()
                invariant
                    k <= self.cards@.len(),
                    ct <= k,
                    ct as int == spec_count_name(self@.take(k as int), pair.0@),
                decreases self.cards@.len() - k,
            {
                proof {
                    assert(self@.take(k + 1).drop_last() =~= self@.take(k as int));
                    assert(self@.take(k + 1).last() == self@[k as int]);
                }
                if self.cards[k].is(pair.0) {
                    ct = ct + 1;
                }
                k = k + 1;
            }
            proof {
                assert(self@.take(self@.len() as int) =~= self@);
            }
            if ct < pair.1 {
                proof {
                    assert(name_reqs(names@)[pi as int] == (pair.0@, pair.1 as int));
                }
                return false;
            }
            pi = pi + 1;
        }
        true
    }

    /// Whether some subset of the hand's cards can jointly produce mana
    /// covering the requirement. An all-zero requirement is covered outright
    /// by the empty set; otherwise the search tries every position as the
    /// first contributor.
    pub fn can_produce(&self, mana: &ManaCost) -> (r: bool)
        requires
            budget_from(self@, 0) <= usize::MAX,
        ensures
            r == spec_can_produce(self@, mana@),
    {
        let z = ManaSet::empty();
        proof {
            assert(z@ =~= zero_mana());
        }
        if z.contains(mana) {
            return true;
        }
        let mut ni: usize = 0;
        while ni < self.cards.len()
            invariant
                ni <= self@.len(),
                z@ == zero_mana(),
                budget_from(self@, 0) <= usize::MAX,
                later_succeeds(self@, mana@, zero_mana(), 0, true) == later_succeeds(
                    self@,
                    mana@,
                    zero_mana(),
                    ni as int,
                    true,
                ),
            decreases self@.len() - ni,
        {
            proof {
                lemma_hand_wf(self.cards@);
                lemma_budget_mono(self@, 0, ni as int);
                lemma_budget_nonneg(self@, ni as int);
                assert(slots_total(zero_mana()) == 0);
            }
            if self.can_produce_rec(mana, z, ni, true) {
                proof {
                    assert(later_succeeds(self@, mana@, zero_mana(), ni as int, true));
                }
                return true;
            }
            ni = ni + 1;
        }
        proof {
            assert(!later_succeeds(self@, mana@, zero_mana(), self@.len() as int, true));
        }
        false
    }

    /// One step of the search: the card at `idx` contributes one alternative
    /// through a path it offers, then strictly later cards continue.
    pub fn can_produce_rec(&self, goal: &ManaCost, curr: ManaSet, idx: usize, can_land: bool) -> (r:
        bool)
        requires
            slots_total(curr@) + budget_from(self@, idx as int) <= usize::MAX,
        ensures
            r == feasible_from(self@, goal@, curr@, idx as int, can_land),
        decreases self@.len() - idx, 1int,
    {
        if idx >= self.cards.len() {
            return false;
        }
        proof {
            lemma_hand_wf(self.cards@);
            assert(card_wf(self@[idx as int]));
            lemma_set_list_nonneg(self@[idx as int].slow);
            lemma_set_list_nonneg(self@[idx as int].fast);
            lemma_budget_nonneg(self@, idx + 1);
        }
        if can_land {
            let slow = self.cards[idx].mana_gen();
            if self.try_sets(goal, curr, idx, &slow, false) {
                return true;
            }
        }
        let fast = self.cards[idx].mana_gen_fast();
        if self.try_sets(goal, curr, idx, &fast, can_land) {
            return true;
        }
        false
    }

    /// Try every alternative in `sets` as the contribution of the card at
    /// `idx`, continuing with `next_land` as the slow-source flag.
    fn try_sets(&self, goal: &ManaCost, curr: ManaSet, idx: usize, sets: &Vec<ManaSet>, next_land:
        bool) -> (r: bool)
        requires
            idx < self@.len(),
            slots_total(curr@) + set_list_total(sets_view(sets@)) + budget_from(self@, idx + 1)
                <= usize::MAX,
        ensures
            r == alt_succeeds(self@, goal@, curr@, idx as int, sets_view(sets@), 0, next_land),
        decreases self@.len() - idx, 0int,
    {
        let ghost sv = sets_view(sets@);
        proof {
            lemma_sets_view_wf(sets@);
            lemma_hand_wf(self.cards@);
            lemma_budget_nonneg(self@, idx + 1);
            lemma_set_list_nonneg(sv);
        }
        let mut j: usize = 0;
        while j < sets.len()
            invariant
                j <= sets@.len(),
                sv == sets_view(sets@),
                list_wf(sv),
                idx < self@.len(),
                slots_total(curr@) + set_list_total(sv) + budget_from(self@, idx + 1)
                    <= usize::MAX,
                budget_from(self@, idx + 1) >= 0,
                hand_wf(self@),
                alt_succeeds(self@, goal@, curr@, idx as int, sv, 0, next_land) == alt_succeeds(
                    self@,
                    goal@,
                    curr@,
                    idx as int,
                    sv,
                    j as int,
                    next_land,
                ),
            decreases sets@.len() - j,
        {
            proof {
                lemma_slots_member(sv, j as int);
                assert(sets@[j as int]@ == sv[j as int]);
                assert(set_wf(sv[j as int]));
            }
            let sum = curr.add(sets[j]);
            proof {
                assert(slots_total(sum@) == slots_total(curr@) + slots_total(sv[j as int]));
            }
            if sum.contains(goal) {
                proof {
                    assert(alt_succeeds(self@, goal@, curr@, idx as int, sv, j as int, next_land));
                }
                return true;
            }
            let hn = self.cards.len();
            proof {
                assert(idx < hn);
            }
            let mut ni: usize = idx + 1;
            while ni < self.cards.len()
                invariant
                    idx < ni,
                    ni <= self@.len(),
                    idx < self@.len(),
                    j < sets@.len(),
                    sv == sets_view(sets@),
                    hand_wf(self@),
                    sum@ == spec_add(curr@, sv[j as int]),
                    slots_total(sum@) + budget_from(self@, idx + 1) <= usize::MAX,
                    alt_succeeds(self@, goal@, curr@, idx as int, sv, 0, next_land)
                        == alt_succeeds(self@, goal@, curr@, idx as int, sv, j as int, next_land),
                    later_succeeds(self@, goal@, sum@, idx + 1, next_land) == later_succeeds(
                        self@,
                        goal@,
                        sum@,
                        ni as int,
                        next_land,
                    ),
                decreases self@.len() - ni,
            {
                proof {
                    lemma_budget_mono(self@, idx + 1, ni as int);
                    lemma_budget_nonneg(self@, ni as int);
                }
                if self.can_produce_rec(goal, sum, ni, next_land) {
                    proof {
                        assert(later_succeeds(self@, goal@, sum@, ni as int, next_land));
                        assert(alt_succeeds(self@, goal@, curr@, idx as int, sv, j as int,
                            next_land));
                    }
                    return true;
                }
                ni = ni + 1;
            }
            proof {
                assert(!later_succeeds(self@, goal@, sum@, ni as int, next_land));
            }
            j = j + 1;
        }
        false
    }
}


pub proof fn lemma_zero_add(s: Seq<int>)
    requires
        set_wf(s),
    ensures
        spec_add(zero_mana(), s) == s,
{
    assert(spec_add(zero_mana(), s) =~= s);
}

/// When no later card can ever finish a branch, trying the alternatives of
/// the card at idx reduces to asking whether one of them covers the goal on
/// its own.
pub proof fn lemma_alt_scan(
    h: Seq<CardShape>,
    goal: Seq<int>,
    curr: Seq<int>,
    idx: int,
    sets: Seq<Seq<int>>,
    j: int,
    nl: bool,
)
    requires
        0 <= j,
        0 <= idx < h.len(),
        forall|s: Seq<int>| !(#[trigger] later_succeeds(h, goal, s, idx + 1, nl)),
    ensures
        alt_succeeds(h, goal, curr, idx, sets, j, nl) <==> exists|j2: int|
            j <= j2 < sets.len() && spec_covers(spec_add(curr, #[trigger] sets[j2]), goal),
    decreases sets.len() - j,
{
    if j >= sets.len() {
    } else {
        lemma_alt_scan(h, goal, curr, idx, sets, j + 1, nl);
        assert(!later_succeeds(h, goal, spec_add(curr, sets[j]), idx + 1, nl));
        if spec_covers(spec_add(curr, sets[j]), goal) {
            assert(j <= j < sets.len() && spec_covers(spec_add(curr, sets[j]), goal));
        } else {
            assert(alt_succeeds(h, goal, curr, idx, sets, j, nl) == alt_succeeds(h, goal, curr,
                idx, sets, j + 1, nl));
            if exists|j2: int|
                j <= j2 < sets.len() && spec_covers(spec_add(curr, #[trigger] sets[j2]), goal) {
                let w = choose|j2: int|
                    j <= j2 < sets.len() && spec_covers(spec_add(curr, #[trigger] sets[j2]),
                    goal);
                assert(w != j);
                assert(j + 1 <= w < sets.len() && spec_covers(spec_add(curr, sets[w]), goal));
            }
        }
    }
}

/// Scanning the starting positions is an existential over positions.
pub proof fn lemma_later_scan(h: Seq<CardShape>, goal: Seq<int>, sum: Seq<int>, ni: int, nl: bool)
    requires
        0 <= ni,
    ensures
        later_succeeds(h, goal, sum, ni, nl) <==> exists|i: int|
            ni <= i < h.len() && #[trigger] feasible_from(h, goal, sum, i, nl),
    decreases h.len() - ni + 1,
{
    if ni >= h.len() {
    } else {
        lemma_later_scan(h, goal, sum, ni + 1, nl);
        if feasible_from(h, goal, sum, ni, nl) {
            assert(ni <= ni < h.len() && feasible_from(h, goal, sum, ni, nl));
        } else {
            assert(later_succeeds(h, goal, sum, ni, nl) == later_succeeds(h, goal, sum, ni + 1,
                nl));
            if exists|i: int| ni <= i < h.len() && #[trigger] feasible_from(h, goal, sum, i, nl) {
                let w = choose|i: int|
                    ni <= i < h.len() && #[trigger] feasible_from(h, goal, sum, i, nl);
                assert(w != ni);
                assert(ni + 1 <= w < h.len() && feasible_from(h, goal, sum, w, nl));
            }
        }
    }
}

/// A hand of one card can meet a requirement exactly when the requirement is
/// nothing at all, or one of that card's alternatives covers it on its own,
/// whichever path offers it.
pub proof fn lemma_single_card_hand(h: Seq<CardShape>, goal: Seq<int>)
    requires
        h.len() == 1,
        card_wf(h[0]),
    ensures
        spec_can_produce(h, goal) <==> (spec_covers(zero_mana(), goal) || (exists|j: int|
            0 <= j < h[0].slow.len() && spec_covers(#[trigger] h[0].slow[j], goal)) || (exists|
            j: int|
            0 <= j < h[0].fast.len() && spec_covers(#[trigger] h[0].fast[j], goal))),
{
    lemma_later_scan(h, goal, zero_mana(), 0, true);
    if later_succeeds(h, goal, zero_mana(), 0, true) {
        let w = choose|i: int|
            0 <= i < h.len() && #[trigger] feasible_from(h, goal, zero_mana(), i, true);
        assert(w == 0);
    }
    if feasible_from(h, goal, zero_mana(), 0, true) {
        assert(0 <= 0 < h.len() && feasible_from(h, goal, zero_mana(), 0, true));
    }
    assert forall|s: Seq<int>| !(#[trigger] later_succeeds(h, goal, s, 1, false)) by {
        assert(1 >= h.len());
    }
    assert forall|s: Seq<int>| !(#[trigger] later_succeeds(h, goal, s, 1, true)) by {
        assert(1 >= h.len());
    }
    lemma_alt_scan(h, goal, zero_mana(), 0, h[0].slow, 0, false);
    lemma_alt_scan(h, goal, zero_mana(), 0, h[0].fast, 0, true);
    assert forall|j: int| 0 <= j < h[0].slow.len() implies spec_add(
        zero_mana(),
        #[trigger] h[0].slow[j],
    ) == h[0].slow[j] by {
        assert(set_wf(h[0].slow[j]));
        lemma_zero_add(h[0].slow[j]);
    }
    assert forall|j: int| 0 <= j < h[0].fast.len() implies spec_add(
        zero_mana(),
        #[trigger] h[0].fast[j],
    ) == h[0].fast[j] by {
        assert(set_wf(h[0].fast[j]));
        lemma_zero_add(h[0].fast[j]);
    }
}

/// Once the one slow use is spent, a hand whose cards all produce only
/// through the slow path has nothing more to give: no later card succeeds.
pub proof fn lemma_later_all_slow(h: Seq<CardShape>, goal: Seq<int>, sum: Seq<int>, ni: int)
    requires
        forall|i: int| 0 <= i < h.len() ==> (#[trigger] h[i]).fast.len() == 0,
    ensures
        !later_succeeds(h, goal, sum, ni, false),
    decreases h.len() - ni,
{
    if ni < 0 || ni >= h.len() {
    } else {
        assert(h[ni].fast.len() == 0);
        assert(!alt_succeeds(h, goal, sum, ni, h[ni].fast, 0, false));
        assert(!feasible_from(h, goal, sum, ni, false));
        lemma_later_all_slow(h, goal, sum, ni + 1);
    }
}

/// In an all-slow hand, the card starting a branch is the only one that can
/// ever contribute, so a start at position i succeeds exactly when one of
/// that card's alternatives covers the goal alone.
pub proof fn lemma_all_slow_position(h: Seq<CardShape>, goal: Seq<int>, i: int)
    requires
        forall|k: int| 0 <= k < h.len() ==> card_wf(#[trigger] h[k]) && h[k].fast.len() == 0,
        0 <= i < h.len(),
    ensures
        feasible_from(h, goal, zero_mana(), i, true) <==> (exists|j: int|
            0 <= j < h[i].slow.len() && spec_covers(#[trigger] h[i].slow[j], goal)),
{
    assert forall|s: Seq<int>| !(#[trigger] later_succeeds(h, goal, s, i + 1, false)) by {
        lemma_later_all_slow(h, goal, s, i + 1);
    }
    lemma_alt_scan(h, goal, zero_mana(), i, h[i].slow, 0, false);
    assert(h[i].fast.len() == 0);
    assert(!alt_succeeds(h, goal, zero_mana(), i, h[i].fast, 0, true));
    assert forall|j: int| 0 <= j < h[i].slow.len() implies spec_add(
        zero_mana(),
        #[trigger] h[i].slow[j],
    ) == h[i].slow[j] by {
        assert(card_wf(h[i]));
        assert(set_wf(h[i].slow[j]));
        lemma_zero_add(h[i].slow[j]);
    }
}

/// The slow-source cap: in a hand whose cards all produce only through the
/// slow path, at most one card's contribution is ever usable, so the hand
/// covers a requirement exactly when the requirement is nothing at all or
/// some single card's alternative covers it alone.
pub proof fn lemma_all_slow_hand(h: Seq<CardShape>, goal: Seq<int>)
    requires
        forall|i: int| 0 <= i < h.len() ==> card_wf(#[trigger] h[i]) && h[i].fast.len() == 0,
    ensures
        spec_can_produce(h, goal) <==> (spec_covers(zero_mana(), goal) || (exists|i: int, j: int|
            0 <= i < h.len() && 0 <= j < h[i].slow.len() && spec_covers(
                #[trigger] h[i].slow[j],
                goal,
            ))),
{
    lemma_later_scan(h, goal, zero_mana(), 0, true);
    if later_succeeds(h, goal, zero_mana(), 0, true) {
        let wi = choose|i: int|
            0 <= i < h.len() && #[trigger] feasible_from(h, goal, zero_mana(), i, true);
        lemma_all_slow_position(h, goal, wi);
        let wj = choose|j: int|
            0 <= j < h[wi].slow.len() && spec_covers(#[trigger] h[wi].slow[j], goal);
        assert(0 <= wi < h.len() && 0 <= wj < h[wi].slow.len() && spec_covers(h[wi].slow[wj],
            goal));
    }
    if exists|i: int, j: int|
        0 <= i < h.len() && 0 <= j < h[i].slow.len() && spec_covers(#[trigger] h[i].slow[j],
        goal) {
        let (wi, wj) = choose|i: int, j: int|
            0 <= i < h.len() && 0 <= j < h[i].slow.len() && spec_covers(
                #[trigger] h[i].slow[j],
                goal,
            );
        lemma_all_slow_position(h, goal, wi);
        assert(exists|j: int| 0 <= j < h[wi].slow.len() && spec_covers(#[trigger] h[wi].slow[j],
            goal));
        assert(0 <= wi < h.len() && feasible_from(h, goal, zero_mana(), wi, true));
    }
}

/// An empty requirement list asks nothing of a hand.
pub proof fn lemma_has_cards_empty(h: Seq<CardShape>)
    ensures
        spec_has_cards(h, Seq::<(Seq<char>, int)>::empty()),
{
}


/// A weaker requirement stays covered.
pub proof fn lemma_covers_weaken(s: Seq<int>, goal1: Seq<int>, goal2: Seq<int>)
    requires
        spec_covers(s, goal1),
        goal2.len() == 6,
        goal1.len() == 6,
        forall|i: int| 0 <= i < 6 ==> goal2[i] <= goal1[i],
    ensures
        spec_covers(s, goal2),
{
}

/// A successful branch also meets any pointwise-weaker requirement.
pub proof fn lemma_feasible_weaken(
    h: Seq<CardShape>,
    goal1: Seq<int>,
    goal2: Seq<int>,
    curr: Seq<int>,
    idx: int,
    nl: bool,
)
    requires
        0 <= idx,
        goal1.len() == 6,
        goal2.len() == 6,
        forall|i: int| 0 <= i < 6 ==> goal2[i] <= goal1[i],
        feasible_from(h, goal1, curr, idx, nl),
    ensures
        feasible_from(h, goal2, curr, idx, nl),
    decreases h.len() - idx, 2int, 0int,
{
    if nl && alt_succeeds(h, goal1, curr, idx, h[idx].slow, 0, false) {
        lemma_alt_weaken(h, goal1, goal2, curr, idx, h[idx].slow, 0, false);
    } else {
        lemma_alt_weaken(h, goal1, goal2, curr, idx, h[idx].fast, 0, nl);
    }
}

pub proof fn lemma_alt_weaken(
    h: Seq<CardShape>,
    goal1: Seq<int>,
    goal2: Seq<int>,
    curr: Seq<int>,
    idx: int,
    sets: Seq<Seq<int>>,
    j: int,
    nl: bool,
)
    requires
        0 <= idx,
        0 <= j,
        goal1.len() == 6,
        goal2.len() == 6,
        forall|i: int| 0 <= i < 6 ==> goal2[i] <= goal1[i],
        alt_succeeds(h, goal1, curr, idx, sets, j, nl),
    ensures
        alt_succeeds(h, goal2, curr, idx, sets, j, nl),
    decreases h.len() - idx, 1int, sets.len() - j,
{
    if spec_covers(spec_add(curr, sets[j]), goal1) {
        lemma_covers_weaken(spec_add(curr, sets[j]), goal1, goal2);
    } else if later_succeeds(h, goal1, spec_add(curr, sets[j]), idx + 1, nl) {
        lemma_later_weaken(h, goal1, goal2, spec_add(curr, sets[j]), idx + 1, nl);
    } else {
        lemma_alt_weaken(h, goal1, goal2, curr, idx, sets, j + 1, nl);
    }
}

pub proof fn lemma_later_weaken(
    h: Seq<CardShape>,
    goal1: Seq<int>,
    goal2: Seq<int>,
    sum: Seq<int>,
    ni: int,
    nl: bool,
)
    requires
        0 <= ni,
        goal1.len() == 6,
        goal2.len() == 6,
        forall|i: int| 0 <= i < 6 ==> goal2[i] <= goal1[i],
        later_succeeds(h, goal1, sum, ni, nl),
    ensures
        later_succeeds(h, goal2, sum, ni, nl),
    decreases h.len() - ni, 3int, 0int,
{
    assert(ni < h.len());
    if feasible_from(h, goal1, sum, ni, nl) {
        lemma_feasible_weaken(h, goal1, goal2, sum, ni, nl);
    } else {
        lemma_later_weaken(h, goal1, goal2, sum, ni + 1, nl);
    }
}

/// The cards of s from position i on appear, in order, among the cards of t
/// from position k on.
pub open spec fn embeds(s: Seq<CardShape>, i: int, t: Seq<CardShape>, k: int) -> bool
    decreases t.len() - k,
{
    if i >= s.len() {
        true
    } else if k >= t.len() {
        false
    } else {
        (t[k] == s[i] && embeds(s, i + 1, t, k + 1)) || embeds(s, i, t, k + 1)
    }
}

/// A successful start in a hand transfers to any hand that embeds it.
pub proof fn lemma_embed_later(
    s: Seq<CardShape>,
    t: Seq<CardShape>,
    goal: Seq<int>,
    sum: Seq<int>,
    i: int,
    k: int,
    nl: bool,
)
    requires
        0 <= i,
        0 <= k,
        embeds(s, i, t, k),
        later_succeeds(s, goal, sum, i, nl),
    ensures
        later_succeeds(t, goal, sum, k, nl),
    decreases t.len() - k, 2int, 0int,
{
    assert(i < s.len());
    assert(k < t.len());
    if t[k] == s[i] && embeds(s, i + 1, t, k + 1) {
        if feasible_from(s, goal, sum, i, nl) {
            lemma_embed_feasible(s, t, goal, sum, i, k, nl);
        } else {
            lemma_embed_later(s, t, goal, sum, i + 1, k + 1, nl);
        }
    } else {
        lemma_embed_later(s, t, goal, sum, i, k + 1, nl);
    }
}

pub proof fn lemma_embed_feasible(
    s: Seq<CardShape>,
    t: Seq<CardShape>,
    goal: Seq<int>,
    curr: Seq<int>,
    i: int,
    k: int,
    nl: bool,
)
    requires
        0 <= i < s.len(),
        0 <= k < t.len(),
        t[k] == s[i],
        embeds(s, i + 1, t, k + 1),
        feasible_from(s, goal, curr, i, nl),
    ensures
        feasible_from(t, goal, curr, k, nl),
    decreases t.len() - k, 1int, 0int,
{
    if nl && alt_succeeds(s, goal, curr, i, s[i].slow, 0, false) {
        lemma_embed_alt(s, t, goal, curr, i, k, s[i].slow, 0, false);
    } else {
        lemma_embed_alt(s, t, goal, curr, i, k, s[i].fast, 0, nl);
    }
}

pub proof fn lemma_embed_alt(
    s: Seq<CardShape>,
    t: Seq<CardShape>,
    goal: Seq<int>,
    curr: Seq<int>,
    i: int,
    k: int,
    sets: Seq<Seq<int>>,
    j: int,
    nl: bool,
)
    requires
        0 <= i < s.len(),
        0 <= k < t.len(),
        0 <= j,
        t[k] == s[i],
        embeds(s, i + 1, t, k + 1),
        alt_succeeds(s, goal, curr, i, sets, j, nl),
    ensures
        alt_succeeds(t, goal, curr, k, sets, j, nl),
    decreases t.len() - k, 0int, sets.len() - j,
{
    assert(j < sets.len());
    if spec_covers(spec_add(curr, sets[j]), goal) {
    } else if later_succeeds(s, goal, spec_add(curr, sets[j]), i + 1, nl) {
        lemma_embed_later(s, t, goal, spec_add(curr, sets[j]), i + 1, k + 1, nl);
    } else {
        lemma_embed_alt(s, t, goal, curr, i, k, sets, j + 1, nl);
    }
}

/// Full monotonicity of feasibility: a hand whose cards appear, in order,
/// within a larger hand can never do more than the larger hand, and a
/// pointwise-weaker requirement stays satisfiable.
pub proof fn lemma_can_produce_monotone(
    s: Seq<CardShape>,
    t: Seq<CardShape>,
    goal1: Seq<int>,
    goal2: Seq<int>,
)
    requires
        embeds(s, 0, t, 0),
        spec_can_produce(s, goal1),
        goal1.len() == 6,
        goal2.len() == 6,
        forall|i: int| 0 <= i < 6 ==> goal2[i] <= goal1[i],
    ensures
        spec_can_produce(t, goal2),
{
    if spec_covers(zero_mana(), goal1) {
        lemma_covers_weaken(zero_mana(), goal1, goal2);
    } else {
        lemma_later_weaken(s, goal1, goal2, zero_mana(), 0, true);
        lemma_embed_later(s, t, goal2, zero_mana(), 0, 0, true);
    }
}

} // verus!
