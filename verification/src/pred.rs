use vstd::prelude::*;
use crate::card::CardShape;
use crate::hand::Hand;
use crate::hand::budget_from;
use crate::hand::name_reqs;
use crate::hand::spec_can_produce;
use crate::hand::spec_has_cards;
use crate::mana::ManaCost;

verus! {

/// The ghost shape of a hand predicate.
pub ghost enum PredShape {
    Always,
    HasCards(Seq<(Seq<char>, int)>),
    CanProduce(Seq<int>),
    Not(Box<PredShape>),
    Both(Box<PredShape>, Box<PredShape>),
    Either(Box<PredShape>, Box<PredShape>),
}

/// What a predicate says of a hand.
pub open spec fn pred_holds(p: PredShape, h: Seq<CardShape>) -> bool
    decreases p,
{
    match p {
        PredShape::Always => true,
        PredShape::HasCards(reqs) => spec_has_cards(h, reqs),
        PredShape::CanProduce(goal) => spec_can_produce(h, goal),
        PredShape::Not(b) => !pred_holds(*b, h),
        PredShape::Both(a, b) => pred_holds(*a, h) && pred_holds(*b, h),
        PredShape::Either(a, b) => pred_holds(*a, h) || pred_holds(*b, h),
    }
}

/// A hand predicate, composed from card-presence checks and mana-feasibility
/// checks with the usual connectives.
pub enum HandPred {
    Always,
    HasCards(Vec<(String, usize)>),
    CanProduce(ManaCost),
    Not(Box<HandPred>),
    Both(Box<HandPred>, Box<HandPred>),
    Either(Box<HandPred>, Box<HandPred>),
}

pub open spec fn reqs_view(reqs: Seq<(String, usize)>) -> Seq<(Seq<char>, int)> {
    reqs.map_values(|q: (String, usize)| (q.0@, q.1 as int))
}

pub open spec fn pred_view(p: HandPred) -> PredShape
    decreases p,
{
    match p {
        HandPred::Always => PredShape::Always,
        HandPred::HasCards(reqs) => PredShape::HasCards(reqs_view(reqs@)),
        HandPred::CanProduce(c) => PredShape::CanProduce(c@),
        HandPred::Not(b) => PredShape::Not(Box::new(pred_view(*b))),
        HandPred::Both(a, b) => PredShape::Both(
            Box::new(pred_view(*a)),
            Box::new(pred_view(*b)),
        ),
        HandPred::Either(a, b) => PredShape::Either(
            Box::new(pred_view(*a)),
            Box::new(pred_view(*b)),
        ),
    }
}

impl View for HandPred {
    type V = PredShape;

    open spec fn view(&self) -> PredShape {
        pred_view(*self)
    }
}

impl HandPred {
    /// Evaluate this predicate on a hand.
    pub fn eval(&self, h: &Hand) -> (r: bool)
        requires
            budget_from(h@, 0) <= usize::MAX,
        ensures
            r == pred_holds(self@, h@),
        decreases *self,
    {
        match self {
            HandPred::Always => true,
            HandPred::HasCards(reqs) => {
                let mut v: Vec<(&str, usize)> = Vec::new();
                let mut i: usize = 0;
                while i < reqs.len()
                    invariant
                        i <= reqs@.len(),
                        v@.len() == i,
                        forall|k: int|
                            0 <= k < i ==> (#[trigger] v@[k]).0@ == reqs@[k].0@ && v@[k].1
                                == reqs@[k].1,
                    decreases reqs@.len() - i,
                {
                    let name: &str = reqs[i].0.as_str();
                    let ct: usize = reqs[i].1;
                    v.push((name, ct));
                    i = i + 1;
                }
                let r = h.has_cards(v.as_slice());
                proof {
                    assert(name_reqs(v@) =~= reqs_view(reqs@));
                }
                r
            },
            HandPred::CanProduce(c) => h.can_produce(c),
            HandPred::Not(b) => !b.eval(h),
            HandPred::Both(a, b) => {
                let ra = a.eval(h);
                let rb = b.eval(h);
                ra && rb
            },
            HandPred::Either(a, b) => {
                let ra = a.eval(h);
                let rb = b.eval(h);
                ra || rb
            },
        }
    }
}

} // verus!
