use vstd::prelude::*;
use vstd::string::StringExecFns;
use crate::mana::ManaSet;

verus! {

/// The ghost shape of a card: its name and the alternative mana sets it can
/// contribute along the slow path (capped at one use per hand evaluation) and
/// the fast path (uncapped). An empty list means the path produces nothing.
pub ghost struct CardShape {
    pub name: Seq<char>,
    pub slow: Seq<Seq<int>>,
    pub fast: Seq<Seq<int>>,
}

/// A land-like card: its alternatives come through the slow path.
pub struct Land {
    pub name: String,
    pub types: Vec<ManaSet>,
}

/// A mox-like card: its alternatives come through the fast path.
pub struct Mox {
    pub name: String,
    pub types: Vec<ManaSet>,
}

/// A card that produces no mana and has no identity worth matching.
pub struct Dud {}

/// The one card with a built-in identity: three units of any one of the five
/// colours, through the fast path.
pub struct BlackLotus {}

/// A named card that produces no mana.
pub struct NonMana {
    pub name: String,
}

/// A card is one of the five kinds above, dispatched by value.
pub enum CardDef {
    Land(Land),
    Mox(Mox),
    Dud(Dud),
    BlackLotus(BlackLotus),
    NonMana(NonMana),
}

/// The alternatives of the built-in lotus: three units of one colour, for
/// each of the five colours.
pub open spec fn lotus_sets() -> Seq<Seq<int>> {
    seq![
        seq![3int, 0int, 0int, 0int, 0int, 0int],
        seq![0int, 3int, 0int, 0int, 0int, 0int],
        seq![0int, 0int, 3int, 0int, 0int, 0int],
        seq![0int, 0int, 0int, 3int, 0int, 0int],
        seq![0int, 0int, 0int, 0int, 3int, 0int],
    ]
}

pub open spec fn sets_view(v: Seq<ManaSet>) -> Seq<Seq<int>> {
    v.map_values(|m: ManaSet| m@)
}

/// The shapes of a list of cards, in order.
pub open spec fn cards_view(s: Seq<CardDef>) -> Seq<CardShape> {
    s.map_values(|c: CardDef| c@)
}

impl View for CardDef {
    type V = CardShape;

    open spec fn view(&self) -> CardShape {
        match self {
            CardDef::Land(l) => CardShape {
                name: l.name@,
                slow: sets_view(l.types@),
                fast: Seq::empty(),
            },
            CardDef::Mox(m) => CardShape {
                name: m.name@,
                slow: Seq::empty(),
                fast: sets_view(m.types@),
            },
            CardDef::Dud(_) => CardShape { name: "Dud"@, slow: Seq::empty(), fast: Seq::empty() },
            CardDef::BlackLotus(_) => CardShape {
                name: "Black Lotus"@,
                slow: Seq::empty(),
                fast: lotus_sets(),
            },
            CardDef::NonMana(nm) => CardShape {
                name: nm.name@,
                slow: Seq::empty(),
                fast: Seq::empty(),
            },
        }
    }
}

/// An owned copy of a list of mana sets.
fn copy_sets(v: &Vec<ManaSet>) -> (r: Vec<ManaSet>)
    ensures
        r@ == v@,
{
    let mut r: Vec<ManaSet> = Vec::new();
    let mut i: usize = 0;
    while i < v.len()
        invariant
            i <= v@.len(),
            r@ == v@.take(i as int),
        decreases v@.len() - i,
    {
        r.push(v[i]);
        proof {
            assert(r@ =~= v@.take(i + 1));
        }
        i = i + 1;
    }
    proof {
        assert(v@.take(v@.len() as int) =~= v@);
    }
    r
}

/// The five alternatives of the lotus as an owned list.
fn lotus_types() -> (r: Vec<ManaSet>)
    ensures
        sets_view(r@) == lotus_sets(),
{
    let mut r: Vec<ManaSet> = Vec::new();
    r.push(ManaSet([3, 0, 0, 0, 0, 0]));
    r.push(ManaSet([0, 3, 0, 0, 0, 0]));
    r.push(ManaSet([0, 0, 3, 0, 0, 0]));
    r.push(ManaSet([0, 0, 0, 3, 0, 0]));
    r.push(ManaSet([0, 0, 0, 0, 3, 0]));
    proof {
        assert(sets_view(r@) =~= lotus_sets());
        assert(sets_view(r@)[0] =~= lotus_sets()[0]);
        assert(sets_view(r@)[1] =~= lotus_sets()[1]);
        assert(sets_view(r@)[2] =~= lotus_sets()[2]);
        assert(sets_view(r@)[3] =~= lotus_sets()[3]);
        assert(sets_view(r@)[4] =~= lotus_sets()[4]);
    }
    r
}

impl CardDef {
    /// The alternative sets this card offers along the slow path.
    pub fn mana_gen(&self) -> (r: Vec<ManaSet>)
        ensures
            sets_view(r@) == self@.slow,
    {
        match self {
            CardDef::Land(l) => copy_sets(&l.types),
            _ => Vec::new(),
        }
    }

    /// The alternative sets this card offers along the fast path.
    pub fn mana_gen_fast(&self) -> (r: Vec<ManaSet>)
        ensures
            sets_view(r@) == self@.fast,
    {
        match self {
            CardDef::Mox(m) => copy_sets(&m.types),
            CardDef::BlackLotus(_) => lotus_types(),
            _ => Vec::new(),
        }
    }

    /// The card's name.
    pub fn name(&self) -> (r: &str)
        ensures
            r@ == self@.name,
    {
        match self {
            CardDef::Land(l) => l.name.as_str(),
            CardDef::Mox(m) => m.name.as_str(),
            CardDef::Dud(_) => "Dud",
            CardDef::BlackLotus(_) => "Black Lotus",
            CardDef::NonMana(nm) => nm.name.as_str(),
        }
    }

    /// Identity matching: exact name equality.
    pub fn is(&self, name: &str) -> (r: bool)
        ensures
            r == (self@.name == name@),
    {
        let q = String::from_str(name);
        let own = String::from_str(self.name());
        own == q
    }

    /// An owned copy of this card.
    pub fn duplicate(&self) -> (r: CardDef)
        ensures
            r@ == self@,
    {
        match self {
            CardDef::Land(l) => CardDef::Land(
                Land { name: l.name.clone(), types: copy_sets(&l.types) },
            ),
            CardDef::Mox(m) => CardDef::Mox(Mox { name: m.name.clone(), types: copy_sets(&m.types) }),
            CardDef::Dud(_) => CardDef::Dud(Dud {}),
            CardDef::BlackLotus(_) => CardDef::BlackLotus(BlackLotus {}),
            CardDef::NonMana(nm) => CardDef::NonMana(NonMana { name: nm.name.clone() }),
        }
    }
}

} // verus!
