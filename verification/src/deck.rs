use vstd::prelude::*;
use crate::binomial::binom;
use crate::binomial::lemma_binom_le_pow;
use crate::binomial::lemma_pow_base_mono;
use crate::binomial::lemma_range_prod_le_pow;
use vstd::arithmetic::power::pow;
use vstd::arithmetic::power::lemma_pow_increases;
use crate::binomial::lemma_binom_nonneg;
use crate::binomial::lemma_binom_pos;
use crate::binomial::ncr;
use crate::binomial::spec_ncr;
use crate::card::CardDef;
use crate::card::CardShape;
use crate::hand::Hand;
use crate::hand::budget_from;
use crate::hand::card_budget;
use crate::card::sets_view;
use crate::hand::set_list_total;
use crate::mana::slots_total;
use crate::mana::ManaSet;
use crate::pred::HandPred;
use crate::pred::PredShape;
use crate::pred::pred_holds;
use crate::pred::pred_view;

verus! {

/// A deck: a catalog of distinct card types and, for each, how many physical
/// copies it holds.
pub struct Deck {
    cards: Vec<CardDef>,
    counts: Vec<usize>,
}

/// The number of distinct physical selections a canonical index sequence
/// stands for: the product, over each maximal run of a repeated index, of
/// "copies choose run length". `mult` starts a run; `mult_run` extends it.
pub open spec fn mult(counts: Seq<usize>, s: Seq<usize>) -> int
    decreases s.len(), 0int,
{
    if s.len() == 0 {
        1
    } else {
        mult_run(counts, s.skip(1), s[0], 1)
    }
}

pub open spec fn mult_run(counts: Seq<usize>, rest: Seq<usize>, cur: usize, ct: int) -> int
    decreases rest.len(), 1int,
{
    if rest.len() > 0 && rest[0] == cur {
        mult_run(counts, rest.skip(1), cur, ct + 1)
    } else {
        spec_ncr(counts[cur as int] as int, ct) * mult(counts, rest)
    }
}

/// A canonical index sequence: indices in range, runs of equal indices no
/// longer than the copies held, and strictly increasing across runs.
pub open spec fn runs_ok(counts: Seq<usize>, s: Seq<usize>) -> bool
    decreases s.len(), 0int,
{
    if s.len() == 0 {
        true
    } else {
        (s[0] as int) < counts.len() && runs_ok_run(counts, s.skip(1), s[0], 1)
    }
}

pub open spec fn runs_ok_run(counts: Seq<usize>, rest: Seq<usize>, cur: usize, ct: int) -> bool
    decreases rest.len(), 1int,
{
    if rest.len() > 0 && rest[0] == cur {
        runs_ok_run(counts, rest.skip(1), cur, ct + 1)
    } else {
        ct <= counts[cur as int] && (rest.len() == 0 || cur < rest[0]) && runs_ok(counts, rest)
    }
}

/// The factorial product `ncr` computes for one run fits the machine.
pub open spec fn run_ncr_fits(counts: Seq<usize>, c: int, k: int) -> bool {
    crate::binomial::range_prod(
        if k > counts[c] - k {
            k
        } else {
            counts[c] - k
        },
        counts[c] as int,
    ) <= usize::MAX
}

/// The products `ncr` is asked for stay within the machine: for every index
/// and every run length up to the hand size, the partial factorial product
/// fits.
pub open spec fn ncr_fits(counts: Seq<usize>, n: int) -> bool {
    forall|c: int, k: int|
        0 <= c < counts.len() && 0 < k && k < counts[c] && k <= n ==> #[trigger] run_ncr_fits(
            counts,
            c,
            k,
        )
}

pub proof fn lemma_mult_nonneg(counts: Seq<usize>, s: Seq<usize>)
    ensures
        mult(counts, s) >= 0,
    decreases s.len(), 0int,
{
    if s.len() > 0 {
        lemma_mult_run_nonneg(counts, s.skip(1), s[0], 1);
    }
}

pub proof fn lemma_mult_run_nonneg(counts: Seq<usize>, rest: Seq<usize>, cur: usize, ct: int)
    ensures
        mult_run(counts, rest, cur, ct) >= 0,
    decreases rest.len(), 1int,
{
    if rest.len() > 0 && rest[0] == cur {
        lemma_mult_run_nonneg(counts, rest.skip(1), cur, ct + 1);
    } else {
        lemma_binom_nonneg(counts[cur as int] as int, ct);
        lemma_mult_nonneg(counts, rest);
        assert(spec_ncr(counts[cur as int] as int, ct) * mult(counts, rest) >= 0)
            by (nonlinear_arith)
        requires
            spec_ncr(counts[cur as int] as int, ct) >= 0,
            mult(counts, rest) >= 0,
        ;
    }
}

pub proof fn lemma_mult_pos(counts: Seq<usize>, s: Seq<usize>)
    requires
        runs_ok(counts, s),
    ensures
        mult(counts, s) >= 1,
    decreases s.len(), 0int,
{
    if s.len() > 0 {
        lemma_mult_run_pos(counts, s.skip(1), s[0], 1);
    }
}

pub proof fn lemma_mult_run_pos(counts: Seq<usize>, rest: Seq<usize>, cur: usize, ct: int)
    requires
        runs_ok_run(counts, rest, cur, ct),
        ct >= 1,
    ensures
        mult_run(counts, rest, cur, ct) >= 1,
    decreases rest.len(), 1int,
{
    if rest.len() > 0 && rest[0] == cur {
        lemma_mult_run_pos(counts, rest.skip(1), cur, ct + 1);
    } else {
        lemma_binom_pos(counts[cur as int] as int, ct);
        lemma_mult_pos(counts, rest);
        assert(spec_ncr(counts[cur as int] as int, ct) * mult(counts, rest) >= 1)
            by (nonlinear_arith)
        requires
            spec_ncr(counts[cur as int] as int, ct) >= 1,
            mult(counts, rest) >= 1,
        ;
    }
}

/// Total number of physical cards over a list of copy counts.
pub open spec fn counts_total(s: Seq<usize>) -> int
    decreases s.len(),
{
    if s.len() == 0 {
        0
    } else {
        counts_total(s.drop_last()) + s.last()
    }
}

pub proof fn lemma_counts_prefix(s: Seq<usize>, k: int)
    requires
        0 <= k <= s.len(),
    ensures
        counts_total(s.take(k)) <= counts_total(s),
        counts_total(s.take(k)) >= 0,
    decreases s.len() - k,
{
    if k == s.len() {
        assert(s.take(k) =~= s);
        lemma_counts_nonneg(s);
    } else {
        lemma_counts_prefix(s, k + 1);
        assert(s.take(k + 1).drop_last() =~= s.take(k));
        lemma_counts_nonneg(s.take(k));
    }
}

pub proof fn lemma_counts_nonneg(s: Seq<usize>)
    ensures
        counts_total(s) >= 0,
    decreases s.len(),
{
    if s.len() > 0 {
        lemma_counts_nonneg(s.drop_last());
    }
}

/// The cards a sequence of deck indices names, in order.
pub open spec fn hand_of(cat: Seq<CardShape>, idxs: Seq<usize>) -> Seq<CardShape> {
    idxs.map_values(|i: usize| cat[i as int])
}

impl Deck {
    pub closed spec fn wf(&self) -> bool {
        self.counts@.len() == self.cards@.len()
    }

    /// The views of the card types, by deck index.
    pub closed spec fn catalog(&self) -> Seq<CardShape> {
        crate::card::cards_view(self.cards@)
    }

    /// The copy counts, by deck index.
    pub closed spec fn copies(&self) -> Seq<usize> {
        self.counts@
    }

    /// A deck with no cards.
    pub fn empty() -> (d: Deck)
        ensures
            d.wf(),
            d.catalog() == Seq::<CardShape>::empty(),
            d.copies() == Seq::<usize>::empty(),
    {
        let d = Deck { cards: Vec::new(), counts: Vec::new() };
        proof {
            assert(d.catalog() =~= Seq::<CardShape>::empty());
        }
        d
    }

    /// Register a card type with its copy count.
    pub fn add(&mut self, c: CardDef, ct: usize)
        requires
            old(self).wf(),
        ensures
            final(self).wf(),
            final(self).catalog() == old(self).catalog().push(c@),
            final(self).copies() == old(self).copies().push(ct),
    {
        let ghost cv = c@;
        self.cards.push(c);
        self.counts.push(ct);
        proof {
            assert(self.catalog() =~= old(self).catalog().push(cv));
        }
    }

    /// The total number of physical cards in the deck.
    pub fn num_cards(&self) -> (r: usize)
        requires
            counts_total(self.copies()) <= usize::MAX,
        ensures
            r as int == counts_total(self.copies()),
    {
        let mut acc: usize = 0;
        let mut k: usize = 0;
        while k < self.counts.len()
            invariant
                k <= self.counts@.len(),
                acc as int == counts_total(self.counts@.take(k as int)),
                counts_total(self.counts@) <= usize::MAX,
            decreases self.counts@.len() - k,
        {
            proof {
                lemma_counts_prefix(self.counts@, k + 1);
                assert(self.counts@.take(k + 1).drop_last() =~= self.counts@.take(k as int));
            }
            acc = acc + self.counts[k];
            k = k + 1;
        }
        proof {
            assert(self.counts@.take(self.counts@.len() as int) =~= self.counts@);
        }
        acc
    }

    /// The name of the card type at a deck index.
    pub fn name_by_idx(&self, idx: usize) -> (r: &str)
        requires
            (idx as int) < self.catalog().len(),
        ensures
            r@ == self.catalog()[idx as int].name,
    {
        self.cards[idx].name()
    }

    /// Build a hand from a sequence of deck indices.
    pub fn deal_hand(&self, cards: &[usize]) -> (h: Hand)
        requires
            forall|i: int| 0 <= i < cards@.len() ==> (#[trigger] cards@[i] as int)
                < self.catalog().len(),
        ensures
            h@ == hand_of(self.catalog(), cards@),
    {
        let mut out: Vec<CardDef> = Vec::new();
        let mut k: usize = 0;
        while k < cards.len()
            invariant
                k <= cards@.len(),
                out@.len() == k,
                forall|i: int| 0 <= i < cards@.len() ==> (#[trigger] cards@[i] as int)
                    < self.catalog().len(),
                forall|i: int| 0 <= i < k ==> (#[trigger] out@[i])@ == self.catalog()[cards@[i]
                    as int],
            decreases cards@.len() - k,
        {
            let ci = cards[k];
            out.push(self.cards[ci].duplicate());
            k = k + 1;
        }
        let h = Hand { cards: out };
        proof {
            assert(h@ =~= hand_of(self.catalog(), cards@));
        }
        h
    }

    /// The multiplicity of a complete canonical sequence: the product over
    /// its maximal runs of "copies choose run length".
    pub fn count(&self, cards: &Vec<usize>) -> (r: usize)
        requires
            self.wf(),
            runs_ok(self.copies(), cards@),
            mult(self.copies(), cards@) <= usize::MAX,
            ncr_fits(self.copies(), cards@.len() as int),
        ensures
            r as int == mult(self.copies(), cards@),
    {
        let ghost s = cards@;
        let ghost cc = self.copies();
        let n = cards.len();
        proof {
            assert(s.skip(0) =~= s);
        }
        let mut acc: usize = 1;
        let mut idx: usize = 0;
        while idx < n
            invariant
                idx <= n,
                n == s.len(),
                s == cards@,
                cc == self.copies(),
                self.wf(),
                runs_ok(cc, s.skip(idx as int)),
                acc as int * mult(cc, s.skip(idx as int)) == mult(cc, s),
                mult(cc, s) <= usize::MAX,
                ncr_fits(cc, n as int),
                acc >= 1,
            decreases n - idx,
        {
            let ghost idx0 = idx as int;
            let card = cards[idx];
            let mut ct: usize = 1;
            proof {
                assert(s.skip(idx0)[0] == s[idx0]);
                assert(s.skip(idx0).skip(1) =~= s.skip(idx0 + 1));
            }
            while idx < n - 1 && cards[idx + 1] == card
                invariant
                    0 <= idx0 <= idx < n,
                    1 <= ct,
                    ct as int == idx - idx0 + 1,
                    n == s.len(),
                    s == cards@,
                    cc == self.copies(),
                    self.wf(),
                    card == s[idx0],
                    mult(cc, s.skip(idx0)) == mult_run(cc, s.skip(idx + 1), card, ct as int),
                    runs_ok_run(cc, s.skip(idx + 1), card, ct as int),
                    (card as int) < cc.len(),
                    acc as int * mult(cc, s.skip(idx0)) == mult(cc, s),
                    mult(cc, s) <= usize::MAX,
                    ncr_fits(cc, n as int),
                    acc >= 1,
                decreases n - idx,
            {
                proof {
                    assert(s.skip(idx + 1)[0] == s[idx + 1]);
                    assert(s.skip(idx + 1).skip(1) =~= s.skip(idx + 2));
                }
                proof {
                    assert((ct as int) < n as int);
                }
                idx = idx + 1;
                ct = ct + 1;
            }
            // the run is maximal here: either the buffer ends or the next
            // index differs, so the recursion's else branch applies
            proof {
                if idx < n - 1 {
                    assert(s.skip(idx + 1)[0] == s[idx + 1]);
                    assert(s[idx + 1] != card);
                } else {
                    assert(s.skip(idx + 1).len() == 0);
                }
                assert(mult_run(cc, s.skip(idx + 1), card, ct as int) == spec_ncr(
                    cc[card as int] as int,
                    ct as int,
                ) * mult(cc, s.skip(idx + 1)));
                assert(ct as int <= cc[card as int]);
                assert(runs_ok(cc, s.skip(idx + 1)));
                lemma_mult_pos(cc, s.skip(idx + 1));
            }
            let cardct = self.counts[card];
            proof {
                if 0 < ct && (ct as int) < cardct {
                    assert(run_ncr_fits(cc, card as int, ct as int));
                }
            }
            let b = ncr(cardct, ct);
            proof {
                lemma_binom_pos(cardct as int, ct as int);
                assert(acc as int * (b as int * mult(cc, s.skip(idx + 1))) == mult(cc, s));
                assert(acc as int * b as int <= mult(cc, s)) by (nonlinear_arith)
                requires
                    acc as int * (b as int * mult(cc, s.skip(idx + 1))) == mult(cc, s),
                    mult(cc, s.skip(idx + 1)) >= 1,
                    acc >= 1,
                    b >= 1,
                ;
                assert((acc as int * b as int) * mult(cc, s.skip(idx + 1)) == mult(cc, s))
                    by (nonlinear_arith)
                requires
                    acc as int * (b as int * mult(cc, s.skip(idx + 1))) == mult(cc, s),
                ;
                assert(acc as int * b as int >= 1) by (nonlinear_arith)
                requires
                    acc >= 1,
                    b >= 1,
                ;
            }
            acc = acc * b;
            idx = idx + 1;
        }
        proof {
            assert(s.skip(n as int).len() == 0);
        }
        acc
    }
}


pub open spec fn min_int(a: int, b: int) -> int {
    if a < b {
        a
    } else {
        b
    }
}

/// A run of d copies of one deck index.
pub open spec fn rep_idx(ci: int, d: int) -> Seq<usize> {
    Seq::new(
        if d < 0 {
            0nat
        } else {
            d as nat
        },
        |k: int| ci as usize,
    )
}

/// The exact count the enumeration produces from one node of its recursion:
/// the canonical prefix is fixed, and the next card type is chosen from dk
/// on. At a full prefix the predicate decides whether the multiplicity of
/// that canonical hand is counted.
pub open spec fn scount(
    cat: Seq<CardShape>,
    counts: Seq<usize>,
    n: int,
    prefix: Seq<usize>,
    dk: int,
    p: PredShape,
) -> int
    decreases n - prefix.len(), counts.len() + 2, 0int,
{
    if prefix.len() >= n {
        if pred_holds(p, hand_of(cat, prefix)) {
            mult(counts, prefix)
        } else {
            0
        }
    } else {
        scount_from(
            cat,
            counts,
            n,
            prefix,
            if dk < 0 {
                0int
            } else if dk > counts.len() {
                counts.len() as int
            } else {
                dk
            },
            p,
        )
    }
}

/// The part of the count contributed by card types ci, ci+1, ... .
pub open spec fn scount_from(
    cat: Seq<CardShape>,
    counts: Seq<usize>,
    n: int,
    prefix: Seq<usize>,
    ci: int,
    p: PredShape,
) -> int
    decreases n - prefix.len(), counts.len() - ci, n - prefix.len() + 1,
{
    if ci < 0 || ci >= counts.len() || prefix.len() >= n {
        0
    } else {
        (if counts[ci] > 0 {
            scount_deals(cat, counts, n, prefix, ci, min_int(counts[ci] as int, n - prefix.len()), p)
        } else {
            0
        }) + scount_from(cat, counts, n, prefix, ci + 1, p)
    }
}

/// The part of the count contributed by dealing 1, 2, ..., d copies of card
/// type ci next.
pub open spec fn scount_deals(
    cat: Seq<CardShape>,
    counts: Seq<usize>,
    n: int,
    prefix: Seq<usize>,
    ci: int,
    d: int,
    p: PredShape,
) -> int
    decreases
        n - prefix.len(),
        counts.len() - ci,
        (if d < 0 {
            0int
        } else {
            d
        }),
{
    if d <= 0 || ci < 0 || ci >= counts.len() || prefix.len() + d > n {
        0
    } else {
        scount_deals(cat, counts, n, prefix, ci, d - 1, p) + scount(
            cat,
            counts,
            n,
            prefix + rep_idx(ci, d),
            ci + 1,
            p,
        )
    }
}

pub proof fn lemma_scount_nonneg(
    cat: Seq<CardShape>,
    counts: Seq<usize>,
    n: int,
    prefix: Seq<usize>,
    dk: int,
    p: PredShape,
)
    ensures
        scount(cat, counts, n, prefix, dk, p) >= 0,
    decreases n - prefix.len(), counts.len() + 2, 0int,
{
    if prefix.len() >= n {
        lemma_mult_nonneg(counts, prefix);
    } else {
        let start = if dk < 0 {
            0int
        } else if dk > counts.len() {
            counts.len() as int
        } else {
            dk
        };
        lemma_scount_from_nonneg(cat, counts, n, prefix, start, p);
    }
}

pub proof fn lemma_scount_from_nonneg(
    cat: Seq<CardShape>,
    counts: Seq<usize>,
    n: int,
    prefix: Seq<usize>,
    ci: int,
    p: PredShape,
)
    ensures
        scount_from(cat, counts, n, prefix, ci, p) >= 0,
    decreases n - prefix.len(), counts.len() - ci, n - prefix.len() + 1,
{
    if ci < 0 || ci >= counts.len() || prefix.len() >= n {
    } else {
        if counts[ci] > 0 {
            lemma_scount_deals_nonneg(
                cat,
                counts,
                n,
                prefix,
                ci,
                min_int(counts[ci] as int, n - prefix.len()),
                p,
            );
        }
        lemma_scount_from_nonneg(cat, counts, n, prefix, ci + 1, p);
    }
}

pub proof fn lemma_scount_deals_nonneg(
    cat: Seq<CardShape>,
    counts: Seq<usize>,
    n: int,
    prefix: Seq<usize>,
    ci: int,
    d: int,
    p: PredShape,
)
    ensures
        scount_deals(cat, counts, n, prefix, ci, d, p) >= 0,
    decreases
        n - prefix.len(),
        counts.len() - ci,
        (if d < 0 {
            0int
        } else {
            d
        }),
{
    if d <= 0 || ci < 0 || ci >= counts.len() || prefix.len() + d > n {
    } else {
        lemma_scount_deals_nonneg(cat, counts, n, prefix, ci, d - 1, p);
        lemma_scount_nonneg(cat, counts, n, prefix + rep_idx(ci, d), ci + 1, p);
    }
}

/// Counting the hands a predicate accepts and the hands its negation accepts
/// together counts every hand exactly once.
pub proof fn lemma_scount_split(
    cat: Seq<CardShape>,
    counts: Seq<usize>,
    n: int,
    prefix: Seq<usize>,
    dk: int,
    p: PredShape,
)
    ensures
        scount(cat, counts, n, prefix, dk, p) + scount(
            cat,
            counts,
            n,
            prefix,
            dk,
            PredShape::Not(Box::new(p)),
        ) == scount(cat, counts, n, prefix, dk, PredShape::Always),
    decreases n - prefix.len(), counts.len() + 2, 0int,
{
    if prefix.len() >= n {
        assert(pred_holds(PredShape::Not(Box::new(p)), hand_of(cat, prefix)) == !pred_holds(
            p,
            hand_of(cat, prefix),
        ));
    } else {
        let start = if dk < 0 {
            0int
        } else if dk > counts.len() {
            counts.len() as int
        } else {
            dk
        };
        lemma_scount_from_split(cat, counts, n, prefix, start, p);
    }
}

pub proof fn lemma_scount_from_split(
    cat: Seq<CardShape>,
    counts: Seq<usize>,
    n: int,
    prefix: Seq<usize>,
    ci: int,
    p: PredShape,
)
    ensures
        scount_from(cat, counts, n, prefix, ci, p) + scount_from(
            cat,
            counts,
            n,
            prefix,
            ci,
            PredShape::Not(Box::new(p)),
        ) == scount_from(cat, counts, n, prefix, ci, PredShape::Always),
    decreases n - prefix.len(), counts.len() - ci, n - prefix.len() + 1,
{
    if ci < 0 || ci >= counts.len() || prefix.len() >= n {
    } else {
        if counts[ci] > 0 {
            lemma_scount_deals_split(
                cat,
                counts,
                n,
                prefix,
                ci,
                min_int(counts[ci] as int, n - prefix.len()),
                p,
            );
        }
        lemma_scount_from_split(cat, counts, n, prefix, ci + 1, p);
    }
}

pub proof fn lemma_scount_deals_split(
    cat: Seq<CardShape>,
    counts: Seq<usize>,
    n: int,
    prefix: Seq<usize>,
    ci: int,
    d: int,
    p: PredShape,
)
    ensures
        scount_deals(cat, counts, n, prefix, ci, d, p) + scount_deals(
            cat,
            counts,
            n,
            prefix,
            ci,
            d,
            PredShape::Not(Box::new(p)),
        ) == scount_deals(cat, counts, n, prefix, ci, d, PredShape::Always),
    decreases
        n - prefix.len(),
        counts.len() - ci,
        (if d < 0 {
            0int
        } else {
            d
        }),
{
    if d <= 0 || ci < 0 || ci >= counts.len() || prefix.len() + d > n {
    } else {
        lemma_scount_deals_split(cat, counts, n, prefix, ci, d - 1, p);
        lemma_scount_split(cat, counts, n, prefix + rep_idx(ci, d), ci + 1, p);
    }
}

pub proof fn lemma_scount_from_le_always(
    cat: Seq<CardShape>,
    counts: Seq<usize>,
    n: int,
    prefix: Seq<usize>,
    ci: int,
    p: PredShape,
)
    ensures
        scount_from(cat, counts, n, prefix, ci, p) <= scount_from(
            cat,
            counts,
            n,
            prefix,
            ci,
            PredShape::Always,
        ),
{
    lemma_scount_from_split(cat, counts, n, prefix, ci, p);
    lemma_scount_from_nonneg(cat, counts, n, prefix, ci, PredShape::Not(Box::new(p)));
}

/// Summing over more run lengths cannot shrink the count.
pub proof fn lemma_scount_deals_le(
    cat: Seq<CardShape>,
    counts: Seq<usize>,
    n: int,
    prefix: Seq<usize>,
    ci: int,
    d1: int,
    d2: int,
    p: PredShape,
)
    requires
        0 <= d1 <= d2,
        0 <= ci < counts.len(),
        prefix.len() + d2 <= n,
    ensures
        scount_deals(cat, counts, n, prefix, ci, d1, p) <= scount_deals(
            cat,
            counts,
            n,
            prefix,
            ci,
            d2,
            p,
        ),
    decreases d2 - d1,
{
    if d1 < d2 {
        lemma_scount_deals_le(cat, counts, n, prefix, ci, d1, d2 - 1, p);
        lemma_scount_nonneg(cat, counts, n, prefix + rep_idx(ci, d2), ci + 1, p);
    }
}


pub proof fn lemma_runs_ok_rep(counts: Seq<usize>, ci: usize, k: int, ct: int)
    requires
        (ci as int) < counts.len(),
        1 <= ct,
        0 <= k,
        ct + k <= counts[ci as int],
    ensures
        runs_ok_run(counts, rep_idx(ci as int, k), ci, ct),
    decreases k,
{
    if k == 0 {
        assert(rep_idx(ci as int, 0).len() == 0);
        assert(runs_ok(counts, rep_idx(ci as int, 0)));
    } else {
        assert(rep_idx(ci as int, k)[0] == ci);
        assert(rep_idx(ci as int, k).skip(1) =~= rep_idx(ci as int, k - 1));
        lemma_runs_ok_rep(counts, ci, k - 1, ct + 1);
    }
}

/// Appending a fresh run of a strictly larger index keeps a canonical
/// sequence canonical.
pub proof fn lemma_runs_ok_append(counts: Seq<usize>, s: Seq<usize>, ci: usize, d: int)
    requires
        runs_ok(counts, s),
        s.len() > 0 ==> s.last() < ci,
        (ci as int) < counts.len(),
        1 <= d && d <= counts[ci as int],
    ensures
        runs_ok(counts, s + rep_idx(ci as int, d)),
    decreases s.len(), 0int,
{
    let t = s + rep_idx(ci as int, d);
    if s.len() == 0 {
        assert(t =~= rep_idx(ci as int, d));
        assert(t[0] == ci);
        assert(t.skip(1) =~= rep_idx(ci as int, d - 1));
        lemma_runs_ok_rep(counts, ci, d - 1, 1);
    } else {
        assert(t[0] == s[0]);
        assert(t.skip(1) =~= s.skip(1) + rep_idx(ci as int, d));
        if s.skip(1).len() > 0 {
            assert(s.skip(1).last() == s.last());
        }
        lemma_runs_ok_run_append(counts, s.skip(1), s[0], 1, ci, d);
    }
}

pub proof fn lemma_runs_ok_run_append(
    counts: Seq<usize>,
    rest: Seq<usize>,
    cur: usize,
    ct: int,
    ci: usize,
    d: int,
)
    requires
        runs_ok_run(counts, rest, cur, ct),
        (if rest.len() > 0 {
            rest.last()
        } else {
            cur
        }) < ci,
        (ci as int) < counts.len(),
        1 <= d && d <= counts[ci as int],
    ensures
        runs_ok_run(counts, rest + rep_idx(ci as int, d), cur, ct),
    decreases rest.len(), 1int,
{
    let t = rest + rep_idx(ci as int, d);
    if rest.len() > 0 && rest[0] == cur {
        assert(t[0] == rest[0]);
        assert(t.skip(1) =~= rest.skip(1) + rep_idx(ci as int, d));
        if rest.skip(1).len() > 0 {
            assert(rest.skip(1).last() == rest.last());
        }
        lemma_runs_ok_run_append(counts, rest.skip(1), cur, ct + 1, ci, d);
    } else if rest.len() == 0 {
        assert(t =~= rep_idx(ci as int, d));
        assert(t[0] == ci);
        assert(cur < ci);
        assert(t.skip(1) =~= rep_idx(ci as int, d - 1));
        lemma_runs_ok_rep(counts, ci, d - 1, 1);
        assert(runs_ok(counts, t));
    } else {
        assert(t[0] == rest[0]);
        lemma_runs_ok_append(counts, rest, ci, d);
    }
}

/// The largest single-card mana budget in the catalog.
pub open spec fn max_budget(cat: Seq<CardShape>) -> int
    decreases cat.len(),
{
    if cat.len() == 0 {
        0
    } else if card_budget(cat[0]) > max_budget(cat.skip(1)) {
        card_budget(cat[0])
    } else {
        max_budget(cat.skip(1))
    }
}

pub proof fn lemma_max_budget_nonneg(cat: Seq<CardShape>)
    ensures
        max_budget(cat) >= 0,
    decreases cat.len(),
{
    if cat.len() > 0 {
        lemma_max_budget_nonneg(cat.skip(1));
    }
}

pub proof fn lemma_max_budget_member(cat: Seq<CardShape>, i: int)
    requires
        0 <= i < cat.len(),
    ensures
        card_budget(cat[i]) <= max_budget(cat),
    decreases cat.len(),
{
    if i > 0 {
        lemma_max_budget_member(cat.skip(1), i - 1);
        assert(cat.skip(1)[i - 1] == cat[i]);
    }
}

/// A hand of k cards drawn by index can never hold more mana potential than
/// k times the largest single-card budget.
pub proof fn lemma_hand_of_budget(cat: Seq<CardShape>, idxs: Seq<usize>, k: int)
    requires
        0 <= k <= idxs.len(),
        forall|i: int| 0 <= i < idxs.len() ==> (#[trigger] idxs[i] as int) < cat.len(),
    ensures
        budget_from(hand_of(cat, idxs), k) <= (idxs.len() - k) * max_budget(cat),
    decreases idxs.len() - k,
{
    let h = hand_of(cat, idxs);
    lemma_max_budget_nonneg(cat);
    if k == idxs.len() {
        assert(budget_from(h, k) == 0);
    } else {
        lemma_hand_of_budget(cat, idxs, k + 1);
        assert(h[k] == cat[idxs[k] as int]);
        lemma_max_budget_member(cat, idxs[k] as int);
        assert(max_budget(cat) + (idxs.len() - k - 1) * max_budget(cat) == (idxs.len() - k)
            * max_budget(cat)) by (nonlinear_arith);
    }
}


impl Deck {
    /// One node of the enumeration: the buffer holds a canonical prefix of
    /// `dealt` indices; every way of extending it to a full hand with card
    /// types from `deck_idx` on is generated, and the multiplicities of the
    /// hands the predicate accepts are summed.
    pub fn count_hands_rec(
        &self,
        cards: &mut Vec<usize>,
        dealt: usize,
        deck_idx: usize,
        pred: &HandPred,
    ) -> (r: usize)
        requires
            self.wf(),
            dealt <= old(cards)@.len(),
            forall|i: int| 0 <= i < dealt ==> (#[trigger] old(cards)@[i] as int)
                < self.catalog().len(),
            runs_ok(self.copies(), old(cards)@.take(dealt as int)),
            dealt > 0 ==> (old(cards)@[dealt - 1] as int) < deck_idx as int,
            scount(
                self.catalog(),
                self.copies(),
                old(cards)@.len() as int,
                old(cards)@.take(dealt as int),
                deck_idx as int,
                PredShape::Always,
            ) <= usize::MAX,
            ncr_fits(self.copies(), old(cards)@.len() as int),
            old(cards)@.len() * max_budget(self.catalog()) <= usize::MAX,
        ensures
            final(cards)@.len() == old(cards)@.len(),
            final(cards)@.take(dealt as int) == old(cards)@.take(dealt as int),
            r as int == scount(
                self.catalog(),
                self.copies(),
                old(cards)@.len() as int,
                old(cards)@.take(dealt as int),
                deck_idx as int,
                pred@,
            ),
        decreases old(cards)@.len() - dealt,
    {
        let ghost cat = self.catalog();
        let ghost cc = self.copies();
        let ghost pv = pred@;
        let n = cards.len();
        let ghost prefix = cards@.take(dealt as int);
        if dealt == n {
            proof {
                assert(prefix =~= cards@);
                lemma_hand_of_budget(cat, cards@, 0);
                lemma_max_budget_nonneg(cat);
            }
            let hand = self.deal_hand(cards.as_slice());
            if !pred.eval(&hand) {
                return 0;
            }
            let r = self.count(cards);
            return r;
        }
        let ncards = self.cards.len();
        let mut card_idx = deck_idx;
        if card_idx > ncards {
            card_idx = ncards;
        }
        let ghost start = card_idx as int;
        proof {
            assert(cc.len() == ncards as int);
            assert(scount(cat, cc, n as int, prefix, deck_idx as int, pv) == scount_from(
                cat, cc, n as int, prefix, start, pv));
            assert(scount(cat, cc, n as int, prefix, deck_idx as int, PredShape::Always)
                == scount_from(cat, cc, n as int, prefix, start, PredShape::Always));
        }
        let mut total: usize = 0;
        while card_idx < ncards
            invariant
                self.wf(),
                cat == self.catalog(),
                cc == self.copies(),
                ncards as int == cc.len(),
                n == cards@.len(),
                n as int == old(cards)@.len(),
                dealt < n,
                prefix == cards@.take(dealt as int),
                prefix == old(cards)@.take(dealt as int),
                runs_ok(cc, prefix),
                forall|i: int| 0 <= i < dealt ==> (#[trigger] cards@[i] as int) < cc.len(),
                dealt > 0 ==> (prefix[dealt - 1] as int) < card_idx as int,
                0 <= start <= card_idx <= ncards,
                total as int + scount_from(cat, cc, n as int, prefix, card_idx as int, pv)
                    == scount_from(cat, cc, n as int, prefix, start, pv),
                scount_from(cat, cc, n as int, prefix, card_idx as int, PredShape::Always)
                    <= scount_from(cat, cc, n as int, prefix, start, PredShape::Always),
                scount_from(cat, cc, n as int, prefix, start, PredShape::Always) <= usize::MAX,
                ncr_fits(cc, n as int),
                n * max_budget(cat) <= usize::MAX,
                pv == pred@,
            decreases ncards - card_idx,
        {
            let ghost ci = card_idx as int;
            let left = self.counts[card_idx];
            if left > 0 {
                let maxdeal = crate::binomial::min(left, n - dealt);
                let ghost base: int = total as int;
                proof {
                    assert(min_int(cc[ci] as int, n - prefix.len()) == maxdeal as int);
                }
                let mut dealm: usize = 0;
                while dealm < maxdeal
                    invariant
                        self.wf(),
                        cat == self.catalog(),
                        cc == self.copies(),
                        ncards as int == cc.len(),
                        n == cards@.len(),
                        n as int == old(cards)@.len(),
                        dealt < n,
                        prefix == cards@.take(dealt as int),
                        prefix == old(cards)@.take(dealt as int),
                        runs_ok(cc, prefix),
                        forall|i: int| 0 <= i < dealt ==> (#[trigger] cards@[i] as int)
                            < cc.len(),
                        dealt > 0 ==> (prefix[dealt - 1] as int) < ci,
                        0 <= start <= ci < ncards,
                        ci == card_idx as int,
                        left == cc[ci],
                        left > 0,
                        maxdeal as int == min_int(cc[ci] as int, n - prefix.len()),
                        0 <= dealm <= maxdeal,
                        forall|i: int| dealt <= i < dealt + dealm ==> (#[trigger] cards@[i])
                            == card_idx,
                        0 <= base,
                        total as int == base + scount_deals(cat, cc, n as int, prefix, ci,
                            dealm as int, pv),
                        base + scount_from(cat, cc, n as int, prefix, ci, pv) == scount_from(
                            cat, cc, n as int, prefix, start, pv),
                        scount_from(cat, cc, n as int, prefix, ci, PredShape::Always)
                            <= scount_from(cat, cc, n as int, prefix, start, PredShape::Always),
                        scount_from(cat, cc, n as int, prefix, start, PredShape::Always)
                            <= usize::MAX,
                        ncr_fits(cc, n as int),
                        n * max_budget(cat) <= usize::MAX,
                        pv == pred@,
                    decreases maxdeal - dealm,
                {
                    let deal = dealm + 1;
                    cards.set(dealt + deal - 1, card_idx);
                    let ghost child_prefix = prefix + rep_idx(ci, deal as int);
                    proof {
                        assert(cards@.take((dealt + deal) as int) =~= child_prefix);
                        assert(cards@.take(dealt as int) =~= prefix);
                        lemma_runs_ok_append(cc, prefix, card_idx, deal as int);
                        assert(child_prefix[dealt + deal - 1] == card_idx);
                        // the child node is one summand of this node, so the
                        // machine bound carries down
                        assert(scount_deals(cat, cc, n as int, prefix, ci, deal as int,
                            PredShape::Always) == scount_deals(cat, cc, n as int, prefix, ci,
                            deal - 1, PredShape::Always) + scount(cat, cc, n as int,
                            child_prefix, ci + 1, PredShape::Always));
                        lemma_scount_deals_nonneg(cat, cc, n as int, prefix, ci, deal - 1,
                            PredShape::Always);
                        lemma_scount_deals_le(cat, cc, n as int, prefix, ci, deal as int,
                            maxdeal as int, PredShape::Always);
                        lemma_scount_from_nonneg(cat, cc, n as int, prefix, ci + 1,
                            PredShape::Always);
                        assert(scount_from(cat, cc, n as int, prefix, ci, PredShape::Always)
                            == scount_deals(cat, cc, n as int, prefix, ci, maxdeal as int,
                            PredShape::Always) + scount_from(cat, cc, n as int, prefix, ci + 1,
                            PredShape::Always));
                    }
                    let sub = self.count_hands_rec(cards, dealt + deal, card_idx + 1, pred);
                    proof {
                        assert(cards@.take(dealt as int) =~= prefix) by {
                            assert forall|i: int| 0 <= i < dealt implies cards@.take(
                                dealt as int)[i] == prefix[i] by {
                                assert(cards@.take((dealt + deal) as int)[i] == child_prefix[i]);
                            }
                        }
                        assert forall|i: int| dealt <= i < dealt + deal implies (#[trigger]
                            cards@[i]) == card_idx by {
                            assert(cards@.take((dealt + deal) as int)[i] == child_prefix[i]);
                            assert(child_prefix[i] == card_idx);
                        }
                        assert forall|i: int| 0 <= i < dealt implies (#[trigger] cards@[i]
                            as int) < cc.len() by {
                            assert(cards@.take(dealt as int)[i] == prefix[i]);
                            assert(old(cards)@.take(dealt as int)[i] == old(cards)@[i]);
                        }
                        assert(sub as int == scount(cat, cc, n as int, child_prefix, ci + 1,
                            pv));
                        assert(scount_deals(cat, cc, n as int, prefix, ci, deal as int, pv)
                            == scount_deals(cat, cc, n as int, prefix, ci, deal - 1, pv)
                            + scount(cat, cc, n as int, child_prefix, ci + 1, pv));
                        lemma_scount_deals_le(cat, cc, n as int, prefix, ci, deal as int,
                            maxdeal as int, pv);
                        lemma_scount_from_nonneg(cat, cc, n as int, prefix, ci + 1, pv);
                        assert(scount_from(cat, cc, n as int, prefix, ci, pv) == scount_deals(
                            cat, cc, n as int, prefix, ci, maxdeal as int, pv) + scount_from(
                            cat, cc, n as int, prefix, ci + 1, pv));
                        lemma_scount_from_le_always(cat, cc, n as int, prefix, start, pv);
                    }
                    total = total + sub;
                    dealm = dealm + 1;
                }
                proof {
                    assert(total as int == base + scount_deals(cat, cc, n as int, prefix, ci,
                        maxdeal as int, pv));
                    assert(scount_from(cat, cc, n as int, prefix, ci, pv) == scount_deals(cat,
                        cc, n as int, prefix, ci, maxdeal as int, pv) + scount_from(cat, cc,
                        n as int, prefix, ci + 1, pv));
                    assert(scount_from(cat, cc, n as int, prefix, ci, PredShape::Always)
                        == scount_deals(cat, cc, n as int, prefix, ci, maxdeal as int,
                        PredShape::Always) + scount_from(cat, cc, n as int, prefix, ci + 1,
                        PredShape::Always));
                    lemma_scount_deals_nonneg(cat, cc, n as int, prefix, ci, maxdeal as int,
                        PredShape::Always);
                }
            } else {
                proof {
                    assert(scount_from(cat, cc, n as int, prefix, ci, pv) == scount_from(cat,
                        cc, n as int, prefix, ci + 1, pv));
                    assert(scount_from(cat, cc, n as int, prefix, ci, PredShape::Always)
                        == scount_from(cat, cc, n as int, prefix, ci + 1, PredShape::Always));
                }
            }
            card_idx = card_idx + 1;
        }
        proof {
            assert(scount_from(cat, cc, n as int, prefix, ncards as int, pv) == 0);
        }
        total
    }

    /// The number of distinct hands of size n drawable from this deck that
    /// satisfy the predicate, counting physically distinct selections once
    /// each.
    pub fn count_hands_if(&self, n: usize, pred: &HandPred) -> (r: usize)
        requires
            self.wf(),
            scount(
                self.catalog(),
                self.copies(),
                n as int,
                Seq::<usize>::empty(),
                0,
                PredShape::Always,
            ) <= usize::MAX,
            ncr_fits(self.copies(), n as int),
            n * max_budget(self.catalog()) <= usize::MAX,
        ensures
            r as int == scount(
                self.catalog(),
                self.copies(),
                n as int,
                Seq::<usize>::empty(),
                0,
                pred@,
            ),
    {
        let mut buf: Vec<usize> = Vec::new();
        let mut k: usize = 0;
        while k < n
            invariant
                k <= n,
                buf@.len() == k,
            decreases n - k,
        {
            buf.push(0);
            k = k + 1;
        }
        proof {
            assert(buf@.take(0) =~= Seq::<usize>::empty());
        }
        let r = self.count_hands_rec(&mut buf, 0, 0, pred);
        r
    }

    /// The number of distinct hands of size n drawable from this deck.
    pub fn count_hands(&self, n: usize) -> (r: usize)
        requires
            self.wf(),
            scount(
                self.catalog(),
                self.copies(),
                n as int,
                Seq::<usize>::empty(),
                0,
                PredShape::Always,
            ) <= usize::MAX,
            ncr_fits(self.copies(), n as int),
            n * max_budget(self.catalog()) <= usize::MAX,
        ensures
            r as int == scount(
                self.catalog(),
                self.copies(),
                n as int,
                Seq::<usize>::empty(),
                0,
                PredShape::Always,
            ),
    {
        let p = HandPred::Always;
        self.count_hands_if(n, &p)
    }
}


/// Total copies held by card types ci, ci+1, ... .
pub open spec fn suffix_total(counts: Seq<usize>, ci: int) -> int
    decreases counts.len() - ci,
{
    if ci < 0 || ci >= counts.len() {
        0
    } else {
        counts[ci] + suffix_total(counts, ci + 1)
    }
}

pub proof fn lemma_suffix_total_nonneg(counts: Seq<usize>, ci: int)
    ensures
        suffix_total(counts, ci) >= 0,
    decreases counts.len() - ci,
{
    if !(ci < 0 || ci >= counts.len()) {
        lemma_suffix_total_nonneg(counts, ci + 1);
    }
}

/// The tail of the Vandermonde sum: binom(c,k)*binom(b,s-k) summed over
/// k, k+1, ..., s.
pub open spec fn vsum(c: int, b: int, s: int, k: int) -> int
    decreases s - k + 1,
{
    if k > s {
        0
    } else {
        binom(c, k) * binom(b, s - k) + vsum(c, b, s, k + 1)
    }
}

/// The head of the same sum: run lengths 1, 2, ..., d.
pub open spec fn wsum(c: int, b: int, s: int, d: int) -> int
    decreases
        (if d < 0 {
            0int
        } else {
            d
        }),
{
    if d <= 0 {
        0
    } else {
        wsum(c, b, s, d - 1) + binom(c, d) * binom(b, s - d)
    }
}

pub proof fn lemma_vsum_tail_zero(c: int, b: int, s: int, k: int)
    requires
        0 <= c,
        c < k,
    ensures
        vsum(c, b, s, k) == 0,
    decreases s - k + 1,
{
    if k <= s {
        crate::binomial::lemma_binom_above(c, k);
        lemma_vsum_tail_zero(c, b, s, k + 1);
    }
}

/// One application of Pascal's rule across the whole sum.
pub proof fn lemma_vsum_pascal(c: int, b: int, s: int, k: int)
    requires
        1 <= c,
        0 <= k,
    ensures
        vsum(c, b, s, k) == vsum(c - 1, b, s, k) + vsum(c - 1, b, s - 1, k - 1),
    decreases s - k + 1,
{
    if k > s {
    } else {
        lemma_vsum_pascal(c, b, s, k + 1);
        assert(binom(c, k) == binom(c - 1, k - 1) + binom(c - 1, k));
        assert(vsum(c - 1, b, s - 1, k - 1) == binom(c - 1, k - 1) * binom(b, s - k) + vsum(
            c - 1, b, s - 1, k));
        assert(binom(c, k) * binom(b, s - k) == binom(c - 1, k - 1) * binom(b, s - k) + binom(
            c - 1, k) * binom(b, s - k)) by (nonlinear_arith)
        requires
            binom(c, k) == binom(c - 1, k - 1) + binom(c - 1, k),
        ;
    }
}

/// Vandermonde's identity, in the form the enumeration needs.
pub proof fn lemma_vandermonde(c: int, b: int, s: int)
    requires
        0 <= c,
        0 <= b,
        0 <= s,
    ensures
        vsum(c, b, s, 0) == binom(c + b, s),
    decreases c,
{
    if c == 0 {
        lemma_vsum_tail_zero(0, b, s, 1);
        assert(vsum(0, b, s, 0) == binom(0, 0) * binom(b, s) + vsum(0, b, s, 1));
    } else {
        lemma_vandermonde(c - 1, b, s);
        if s == 0 {
            assert(vsum(c, b, 0, 1) == 0);
            assert(vsum(c, b, 0, 0) == binom(c, 0) * binom(b, 0) + vsum(c, b, 0, 1));
        } else {
            lemma_vandermonde(c - 1, b, s - 1);
            lemma_vsum_pascal(c, b, s, 0);
            assert(vsum(c - 1, b, s - 1, -1) == binom(c - 1, -1) * binom(b, s + 1) + vsum(
                c - 1, b, s - 1, 0));
            assert(binom(c - 1, -1) * binom(b, s + 1) == 0) by (nonlinear_arith)
            requires
                binom(c - 1, -1) == 0,
            ;
            assert(binom(c + b, s) == binom(c + b - 1, s - 1) + binom(c + b - 1, s));
        }
    }
}

pub proof fn lemma_wsum_vsum(c: int, b: int, s: int, d: int)
    requires
        0 <= d <= s,
    ensures
        wsum(c, b, s, d) + vsum(c, b, s, d + 1) == vsum(c, b, s, 1),
    decreases d,
{
    if d == 0 {
    } else {
        lemma_wsum_vsum(c, b, s, d - 1);
        assert(vsum(c, b, s, d) == binom(c, d) * binom(b, s - d) + vsum(c, b, s, d + 1));
    }
}

pub proof fn lemma_mult_rep_run(counts: Seq<usize>, ci: usize, k: int, ct: int)
    requires
        0 <= k,
    ensures
        mult_run(counts, rep_idx(ci as int, k), ci, ct) == spec_ncr(
            counts[ci as int] as int,
            ct + k,
        ),
    decreases k,
{
    if k == 0 {
        assert(rep_idx(ci as int, 0).len() == 0);
        assert(mult(counts, rep_idx(ci as int, 0)) == 1);
    } else {
        assert(rep_idx(ci as int, k)[0] == ci);
        assert(rep_idx(ci as int, k).skip(1) =~= rep_idx(ci as int, k - 1));
        lemma_mult_rep_run(counts, ci, k - 1, ct + 1);
    }
}

/// Appending a fresh run multiplies the multiplicity by that run's binomial.
pub proof fn lemma_mult_append(counts: Seq<usize>, s: Seq<usize>, ci: usize, d: int)
    requires
        runs_ok(counts, s),
        s.len() > 0 ==> s.last() < ci,
        (ci as int) < counts.len(),
        1 <= d && d <= counts[ci as int],
    ensures
        mult(counts, s + rep_idx(ci as int, d)) == mult(counts, s) * binom(
            counts[ci as int] as int,
            d,
        ),
    decreases s.len(), 0int,
{
    let t = s + rep_idx(ci as int, d);
    if s.len() == 0 {
        assert(t =~= rep_idx(ci as int, d));
        assert(t[0] == ci);
        assert(t.skip(1) =~= rep_idx(ci as int, d - 1));
        lemma_mult_rep_run(counts, ci, d - 1, 1);
        assert(mult(counts, t) == spec_ncr(counts[ci as int] as int, d));
        assert(mult(counts, s) == 1);
    } else {
        assert(t[0] == s[0]);
        assert(t.skip(1) =~= s.skip(1) + rep_idx(ci as int, d));
        if s.skip(1).len() > 0 {
            assert(s.skip(1).last() == s.last());
        }
        lemma_mult_run_append(counts, s.skip(1), s[0], 1, ci, d);
    }
}

pub proof fn lemma_mult_run_append(
    counts: Seq<usize>,
    rest: Seq<usize>,
    cur: usize,
    ct: int,
    ci: usize,
    d: int,
)
    requires
        runs_ok_run(counts, rest, cur, ct),
        (if rest.len() > 0 {
            rest.last()
        } else {
            cur
        }) < ci,
        (ci as int) < counts.len(),
        1 <= d && d <= counts[ci as int],
    ensures
        mult_run(counts, rest + rep_idx(ci as int, d), cur, ct) == mult_run(counts, rest, cur, ct)
            * binom(counts[ci as int] as int, d),
    decreases rest.len(), 1int,
{
    let t = rest + rep_idx(ci as int, d);
    let cb = binom(counts[ci as int] as int, d);
    if rest.len() > 0 && rest[0] == cur {
        assert(t[0] == rest[0]);
        assert(t.skip(1) =~= rest.skip(1) + rep_idx(ci as int, d));
        if rest.skip(1).len() > 0 {
            assert(rest.skip(1).last() == rest.last());
        }
        lemma_mult_run_append(counts, rest.skip(1), cur, ct + 1, ci, d);
    } else if rest.len() == 0 {
        assert(t =~= rep_idx(ci as int, d));
        assert(cur < ci);
        assert(t.len() > 0 && t[0] == ci && ci != cur);
        assert(t.skip(1) =~= rep_idx(ci as int, d - 1));
        lemma_mult_rep_run(counts, ci, d - 1, 1);
        assert(mult(counts, t) == spec_ncr(counts[ci as int] as int, d));
        assert(spec_ncr(counts[ci as int] as int, d) == cb);
        assert(mult_run(counts, t, cur, ct) == spec_ncr(counts[cur as int] as int, ct) * mult(
            counts, t));
        assert(mult(counts, rest) == 1);
        assert(mult_run(counts, rest, cur, ct) == spec_ncr(counts[cur as int] as int, ct) * 1);
        assert(spec_ncr(counts[cur as int] as int, ct) * cb == (spec_ncr(
            counts[cur as int] as int, ct) * 1) * cb) by (nonlinear_arith);
    } else {
        assert(t[0] == rest[0] && rest[0] != cur);
        lemma_mult_append(counts, rest, ci, d);
        let q = spec_ncr(counts[cur as int] as int, ct);
        assert(mult_run(counts, t, cur, ct) == q * mult(counts, t));
        assert(mult(counts, t) == mult(counts, rest) * cb);
        assert(q * (mult(counts, rest) * cb) == (q * mult(counts, rest)) * cb)
            by (nonlinear_arith);
    }
}


/// The closed form of one enumeration node: the hands it counts with no
/// predicate are the prefix's multiplicity times the number of ways to fill
/// the remaining slots from the copies still allowed.
pub proof fn lemma_total_node(
    cat: Seq<CardShape>,
    counts: Seq<usize>,
    n: int,
    prefix: Seq<usize>,
    dk: int,
)
    requires
        counts.len() <= usize::MAX,
        runs_ok(counts, prefix),
        prefix.len() <= n,
        0 <= dk <= counts.len(),
        prefix.len() > 0 ==> (prefix.last() as int) < dk,
    ensures
        scount(cat, counts, n, prefix, dk, PredShape::Always) == mult(counts, prefix) * binom(
            suffix_total(counts, dk),
            n - prefix.len(),
        ),
    decreases n - prefix.len(), counts.len() + 2, 0int,
{
    if prefix.len() >= n {
        assert(scount(cat, counts, n, prefix, dk, PredShape::Always) == mult(counts, prefix));
        assert(binom(suffix_total(counts, dk), 0) == 1);
    } else {
        assert(scount(cat, counts, n, prefix, dk, PredShape::Always) == scount_from(cat, counts,
            n, prefix, dk, PredShape::Always));
        lemma_total_from(cat, counts, n, prefix, dk);
    }
}

pub proof fn lemma_total_from(
    cat: Seq<CardShape>,
    counts: Seq<usize>,
    n: int,
    prefix: Seq<usize>,
    ci: int,
)
    requires
        counts.len() <= usize::MAX,
        runs_ok(counts, prefix),
        prefix.len() < n,
        0 <= ci <= counts.len(),
        prefix.len() > 0 ==> (prefix.last() as int) < ci,
    ensures
        scount_from(cat, counts, n, prefix, ci, PredShape::Always) == mult(counts, prefix)
            * binom(suffix_total(counts, ci), n - prefix.len()),
    decreases n - prefix.len(), counts.len() - ci, n - prefix.len() + 1,
{
    let m = mult(counts, prefix);
    let slots = n - prefix.len();
    if ci == counts.len() {
        assert(scount_from(cat, counts, n, prefix, ci, PredShape::Always) == 0);
        assert(suffix_total(counts, ci) == 0);
        assert(binom(0, slots) == 0);
        assert(m * 0 == 0) by (nonlinear_arith);
    } else {
        let c = counts[ci] as int;
        let rest = suffix_total(counts, ci + 1);
        lemma_total_from(cat, counts, n, prefix, ci + 1);
        lemma_suffix_total_nonneg(counts, ci + 1);
        if counts[ci] > 0 {
            let maxd = min_int(c, slots);
            lemma_total_deals(cat, counts, n, prefix, ci, maxd);
            lemma_wsum_vsum(c, rest, slots, maxd);
            if maxd < slots {
                lemma_vsum_tail_zero(c, rest, slots, maxd + 1);
            } else {
                assert(vsum(c, rest, slots, maxd + 1) == 0);
            }
            assert(vsum(c, rest, slots, 0) == binom(c, 0) * binom(rest, slots) + vsum(c, rest,
                slots, 1));
            lemma_vandermonde(c, rest, slots);
            assert(suffix_total(counts, ci) == c + rest);
            assert(wsum(c, rest, slots, maxd) == vsum(c, rest, slots, 0) - binom(rest, slots));
            assert(scount_from(cat, counts, n, prefix, ci, PredShape::Always) == m * wsum(c,
                rest, slots, maxd) + m * binom(rest, slots));
            assert(m * wsum(c, rest, slots, maxd) + m * binom(rest, slots) == m * binom(c + rest,
                slots)) by (nonlinear_arith)
            requires
                wsum(c, rest, slots, maxd) == binom(c + rest, slots) - binom(rest, slots),
            ;
        } else {
            assert(scount_from(cat, counts, n, prefix, ci, PredShape::Always) == scount_from(
                cat, counts, n, prefix, ci + 1, PredShape::Always));
            assert(suffix_total(counts, ci) == rest);
        }
    }
}

pub proof fn lemma_total_deals(
    cat: Seq<CardShape>,
    counts: Seq<usize>,
    n: int,
    prefix: Seq<usize>,
    ci: int,
    d: int,
)
    requires
        counts.len() <= usize::MAX,
        runs_ok(counts, prefix),
        prefix.len() < n,
        0 <= ci < counts.len(),
        prefix.len() > 0 ==> (prefix.last() as int) < ci,
        0 <= d,
        d <= counts[ci],
        prefix.len() + d <= n,
    ensures
        scount_deals(cat, counts, n, prefix, ci, d, PredShape::Always) == mult(counts, prefix)
            * wsum(counts[ci] as int, suffix_total(counts, ci + 1), n - prefix.len(), d),
    decreases n - prefix.len(), counts.len() - ci, d,
{
    let m = mult(counts, prefix);
    let c = counts[ci] as int;
    let rest = suffix_total(counts, ci + 1);
    let slots = n - prefix.len();
    if d == 0 {
        assert(m * 0 == 0) by (nonlinear_arith);
    } else {
        lemma_total_deals(cat, counts, n, prefix, ci, d - 1);
        let child = prefix + rep_idx(ci, d);
        let cu = ci as usize;
        assert(cu as int == ci);
        lemma_runs_ok_append(counts, prefix, cu, d);
        lemma_mult_append(counts, prefix, cu, d);
        assert(child.len() == prefix.len() + d);
        assert(child.last() == cu);
        lemma_total_node(cat, counts, n, child, ci + 1);
        assert(scount(cat, counts, n, child, ci + 1, PredShape::Always) == mult(counts, child)
            * binom(rest, n - child.len()));
        assert(scount_deals(cat, counts, n, prefix, ci, d, PredShape::Always) == scount_deals(
            cat, counts, n, prefix, ci, d - 1, PredShape::Always) + scount(cat, counts, n,
            child, ci + 1, PredShape::Always));
        assert(wsum(c, rest, slots, d) == wsum(c, rest, slots, d - 1) + binom(c, d) * binom(
            rest, slots - d));
        assert(m * wsum(c, rest, slots, d - 1) + (m * binom(c, d)) * binom(rest, slots - d)
            == m * wsum(c, rest, slots, d)) by (nonlinear_arith)
        requires
            wsum(c, rest, slots, d) == wsum(c, rest, slots, d - 1) + binom(c, d) * binom(rest,
                slots - d),
        ;
    }
}

/// With no predicate, the enumeration reproduces plain combinatorics: the
/// count of distinct hands of size n is "deck size choose n".
pub proof fn lemma_count_hands_total(cat: Seq<CardShape>, counts: Seq<usize>, n: int)
    requires
        0 <= n,
        counts.len() <= usize::MAX,
    ensures
        scount(cat, counts, n, Seq::<usize>::empty(), 0, PredShape::Always) == binom(
            suffix_total(counts, 0),
            n,
        ),
{
    lemma_total_node(cat, counts, n, Seq::<usize>::empty(), 0);
    assert(mult(counts, Seq::<usize>::empty()) == 1);
}


pub proof fn lemma_suffix_drop(s: Seq<usize>, ci: int)
    requires
        0 <= ci < s.len(),
    ensures
        suffix_total(s, ci) == suffix_total(s.drop_last(), ci) + s.last(),
    decreases s.len() - ci,
{
    if ci == s.len() - 1 {
        assert(suffix_total(s, ci + 1) == 0);
        assert(suffix_total(s.drop_last(), ci) == 0);
    } else {
        assert(s.drop_last()[ci] == s[ci]);
        lemma_suffix_drop(s, ci + 1);
    }
}

/// The two ways this module sums copy counts agree, so the closed-form law
/// speaks of the same deck size that `num_cards` reports.
pub proof fn lemma_totals_agree(s: Seq<usize>)
    ensures
        suffix_total(s, 0) == counts_total(s),
    decreases s.len(),
{
    if s.len() > 0 {
        lemma_totals_agree(s.drop_last());
        lemma_suffix_drop(s, 0);
    }
}


pub proof fn lemma_suffix_le(counts: Seq<usize>, a: int, b: int)
    requires
        0 <= a <= b,
    ensures
        suffix_total(counts, b) <= suffix_total(counts, a),
    decreases b - a,
{
    if a < b {
        lemma_suffix_le(counts, a + 1, b);
        if a < counts.len() {
        } else {
            lemma_suffix_total_nonneg(counts, b);
        }
    }
}

/// When the deck size raised to the hand size fits the machine, so does
/// every factorial product `ncr` is asked for.
pub proof fn lemma_ncr_fits_bound(counts: Seq<usize>, n: int)
    requires
        0 <= n,
        pow(suffix_total(counts, 0), n as nat) <= usize::MAX,
    ensures
        ncr_fits(counts, n),
{
    let m = suffix_total(counts, 0);
    assert forall|c: int, k: int|
        0 <= c < counts.len() && 0 < k && k < counts[c] && k <= n implies #[trigger] run_ncr_fits(
        counts,
        c,
        k,
    ) by {
        let cnt = counts[c] as int;
        let big = if k > cnt - k {
            k
        } else {
            cnt - k
        };
        lemma_range_prod_le_pow(big, cnt);
        assert(cnt - big <= k);
        lemma_pow_increases(cnt as nat, (cnt - big) as nat, n as nat);
        lemma_suffix_total_nonneg(counts, c + 1);
        lemma_suffix_le(counts, 0, c);
        assert(counts[c] <= suffix_total(counts, c));
        lemma_pow_base_mono(cnt, m, n as nat);
    }
}

/// An exact total of a list of alternatives, capped at the machine limit;
/// the flag is false when the cap was passed.
fn sets_total(v: &Vec<ManaSet>) -> (r: (bool, u128))
    ensures
        r.0 ==> r.1 as int == set_list_total(sets_view(v@)) && r.1 <= usize::MAX as u128,
{
    let ghost sv = sets_view(v@);
    let mut acc: u128 = 0;
    let mut i: usize = 0;
    proof {
        assert(sv.skip(0) =~= sv);
    }
    while i < v.len()
        invariant
            i <= v@.len(),
            sv == sets_view(v@),
            acc <= usize::MAX as u128,
            acc as int + set_list_total(sv.skip(i as int)) == set_list_total(sv),
        decreases v@.len() - i,
    {
        let m = v[i];
        let st: u128 = m.0[0] as u128 + m.0[1] as u128 + m.0[2] as u128 + m.0[3] as u128
            + m.0[4] as u128 + m.0[5] as u128;
        proof {
            assert(sv.skip(i as int)[0] == sv[i as int]);
            assert(sv[i as int] == v@[i as int]@);
            assert(st as int == slots_total(sv[i as int]));
            assert(sv.skip(i as int).skip(1) =~= sv.skip(i + 1));
        }
        acc = acc + st;
        if acc > usize::MAX as u128 {
            return (false, 0);
        }
        i = i + 1;
    }
    proof {
        assert(sv.skip(v@.len() as int).len() == 0);
    }
    (true, acc)
}

impl Deck {
    /// An executable, verified sufficient test for the machine-limit
    /// preconditions of `count_hands` and `count_hands_if`: when it returns
    /// true, the unfiltered count fits usize, every binomial product fits,
    /// and the mana budget of any hand of size n fits. An unverified caller
    /// can test this before asking for a count.
    pub fn hands_fit(&self, n: usize) -> (r: bool)
        requires
            self.wf(),
        ensures
            r ==> scount(
                self.catalog(),
                self.copies(),
                n as int,
                Seq::<usize>::empty(),
                0,
                PredShape::Always,
            ) <= usize::MAX,
            r ==> ncr_fits(self.copies(), n as int),
            r ==> n * max_budget(self.catalog()) <= usize::MAX,
    {
        let ghost cat = self.catalog();
        let cap: u128 = usize::MAX as u128;
        let mut total: u128 = 0;
        let mut k: usize = 0;
        proof {
            assert(self.counts@.take(0) =~= Seq::<usize>::empty());
        }
        while k < self.counts.len()
            invariant
                k <= self.counts@.len(),
                cap == usize::MAX as u128,
                total <= cap,
                total as int == counts_total(self.counts@.take(k as int)),
            decreases self.counts@.len() - k,
        {
            proof {
                assert(self.counts@.take(k + 1).drop_last() =~= self.counts@.take(k as int));
            }
            total = total + self.counts[k] as u128;
            if total > cap {
                return false;
            }
            k = k + 1;
        }
        proof {
            assert(self.counts@.take(self.counts@.len() as int) =~= self.counts@);
            lemma_totals_agree(self.counts@);
            lemma_counts_nonneg(self.counts@);
        }
        let ghost m: int = counts_total(self.counts@);
        let mut p: u128 = 1;
        let mut e: usize = 0;
        proof {
            reveal(pow);
        }
        while e < n
            invariant
                e <= n,
                cap == usize::MAX as u128,
                p <= cap,
                total <= cap,
                total as int == m,
                0 <= m,
                p as int == pow(m, e as nat),
            decreases n - e,
        {
            proof {
                reveal(pow);
                assert(pow(m, (e + 1) as nat) == m * pow(m, e as nat));
                vstd::arithmetic::mul::lemma_mul_is_commutative(p as int, m);
                assert(p as int * total as int <= u128::MAX as int) by (nonlinear_arith)
                requires
                    0 <= p as int <= usize::MAX as int,
                    0 <= total as int <= usize::MAX as int,
                ;
            }
            p = p * total;
            if p > cap {
                return false;
            }
            e = e + 1;
        }
        proof {
            lemma_count_hands_total(cat, self.copies(), n as int);
            lemma_binom_le_pow(m, n as int);
            lemma_ncr_fits_bound(self.copies(), n as int);
        }
        let mut maxb: u128 = 0;
        let mut i: usize = 0;
        proof {
            assert(cat.skip(0) =~= cat);
            lemma_max_budget_nonneg(cat);
        }
        while i < self.cards.len()
            invariant
                i <= self.cards@.len(),
                cat == self.catalog(),
                cap == usize::MAX as u128,
                maxb <= cap,
                (if maxb as int > max_budget(cat.skip(i as int)) {
                    maxb as int
                } else {
                    max_budget(cat.skip(i as int))
                }) == max_budget(cat),
            decreases self.cards@.len() - i,
        {
            let slow = self.cards[i].mana_gen();
            let fast = self.cards[i].mana_gen_fast();
            let (ok1, t1) = sets_total(&slow);
            if !ok1 {
                return false;
            }
            let (ok2, t2) = sets_total(&fast);
            if !ok2 {
                return false;
            }
            let cb = t1 + t2;
            if cb > cap {
                return false;
            }
            proof {
                assert(cat[i as int] == self.cards@[i as int]@);
                assert(cb as int == card_budget(cat[i as int]));
                assert(cat.skip(i as int)[0] == cat[i as int]);
                assert(cat.skip(i as int).skip(1) =~= cat.skip(i + 1));
            }
            if cb > maxb {
                maxb = cb;
            }
            i = i + 1;
        }
        proof {
            assert(cat.skip(self.cards@.len() as int).len() == 0);
            assert(max_budget(cat.skip(self.cards@.len() as int)) == 0);
            assert(maxb as int == max_budget(cat));
        }
        let nn = n as u128;
        proof {
            assert(nn as int * maxb as int <= u128::MAX as int) by (nonlinear_arith)
            requires
                0 <= nn as int <= usize::MAX as int,
                0 <= maxb as int <= usize::MAX as int,
            ;
        }
        if nn * maxb > cap {
            return false;
        }
        true
    }
}


/// A weaker predicate never counts fewer hands: the filtered count is
/// monotone in the predicate.
pub proof fn lemma_scount_mono(
    cat: Seq<CardShape>,
    counts: Seq<usize>,
    n: int,
    prefix: Seq<usize>,
    dk: int,
    p1: PredShape,
    p2: PredShape,
)
    requires
        forall|hv: Seq<CardShape>| #[trigger] pred_holds(p1, hv) ==> pred_holds(p2, hv),
    ensures
        scount(cat, counts, n, prefix, dk, p1) <= scount(cat, counts, n, prefix, dk, p2),
    decreases n - prefix.len(), counts.len() + 2, 0int,
{
    if prefix.len() >= n {
        lemma_mult_nonneg(counts, prefix);
    } else {
        let start = if dk < 0 {
            0int
        } else if dk > counts.len() {
            counts.len() as int
        } else {
            dk
        };
        lemma_scount_from_mono(cat, counts, n, prefix, start, p1, p2);
    }
}

pub proof fn lemma_scount_from_mono(
    cat: Seq<CardShape>,
    counts: Seq<usize>,
    n: int,
    prefix: Seq<usize>,
    ci: int,
    p1: PredShape,
    p2: PredShape,
)
    requires
        forall|hv: Seq<CardShape>| #[trigger] pred_holds(p1, hv) ==> pred_holds(p2, hv),
    ensures
        scount_from(cat, counts, n, prefix, ci, p1) <= scount_from(cat, counts, n, prefix, ci, p2),
    decreases n - prefix.len(), counts.len() - ci, n - prefix.len() + 1,
{
    if ci < 0 || ci >= counts.len() || prefix.len() >= n {
    } else {
        if counts[ci] > 0 {
            lemma_scount_deals_mono(
                cat,
                counts,
                n,
                prefix,
                ci,
                min_int(counts[ci] as int, n - prefix.len()),
                p1,
                p2,
            );
        }
        lemma_scount_from_mono(cat, counts, n, prefix, ci + 1, p1, p2);
    }
}

pub proof fn lemma_scount_deals_mono(
    cat: Seq<CardShape>,
    counts: Seq<usize>,
    n: int,
    prefix: Seq<usize>,
    ci: int,
    d: int,
    p1: PredShape,
    p2: PredShape,
)
    requires
        forall|hv: Seq<CardShape>| #[trigger] pred_holds(p1, hv) ==> pred_holds(p2, hv),
    ensures
        scount_deals(cat, counts, n, prefix, ci, d, p1) <= scount_deals(
            cat,
            counts,
            n,
            prefix,
            ci,
            d,
            p2,
        ),
    decreases
        n - prefix.len(),
        counts.len() - ci,
        (if d < 0 {
            0int
        } else {
            d
        }),
{
    if d <= 0 || ci < 0 || ci >= counts.len() || prefix.len() + d > n {
    } else {
        lemma_scount_deals_mono(cat, counts, n, prefix, ci, d - 1, p1, p2);
        lemma_scount_mono(cat, counts, n, prefix + rep_idx(ci, d), ci + 1, p1, p2);
    }
}

} // verus!
