use mana_hands::BlackLotus;
use mana_hands::CardDef;
use mana_hands::Deck;
use mana_hands::Dud;
use mana_hands::Hand;
use mana_hands::HandPred;
use mana_hands::Land;
use mana_hands::ManaCost;
use mana_hands::ManaSet;
use mana_hands::ManaType;
use mana_hands::Mox;
use mana_hands::NonMana;
use mana_hands::fac;
use mana_hands::max;
use mana_hands::min;
use mana_hands::ncr;

fn lotus() -> CardDef {
    CardDef::BlackLotus(BlackLotus {})
}

fn city() -> CardDef {
    CardDef::Land(Land {
        name: "City of Brass".to_string(),
        types: vec![
            ManaSet::s(ManaType::W),
            ManaSet::s(ManaType::B),
            ManaSet::s(ManaType::U),
            ManaSet::s(ManaType::R),
            ManaSet::s(ManaType::G),
        ],
    })
}

fn taiga() -> CardDef {
    CardDef::Land(Land {
        name: "Taiga".to_string(),
        types: vec![ManaSet::s(ManaType::R), ManaSet::s(ManaType::G)],
    })
}

fn mox_r() -> CardDef {
    CardDef::Mox(Mox { name: "Mox Ruby".to_string(), types: vec![ManaSet::s(ManaType::R)] })
}

fn mox_g() -> CardDef {
    CardDef::Mox(Mox { name: "Mox Emerald".to_string(), types: vec![ManaSet::s(ManaType::G)] })
}

fn ball() -> CardDef {
    CardDef::NonMana(NonMana { name: "Ball Lightning".to_string() })
}

fn berserk() -> CardDef {
    CardDef::NonMana(NonMana { name: "Berserk".to_string() })
}

fn bloodlust() -> CardDef {
    CardDef::NonMana(NonMana { name: "Bloodlust".to_string() })
}

#[test]
fn hand_tests() {
    let hand = Hand { cards: vec![lotus()] };
    assert!(hand.can_produce(&ManaCost([2, 0, 0, 0, 0, 0])));
    assert!(hand.can_produce(&ManaCost([0, 3, 0, 0, 0, 0])));
    assert!(hand.can_produce(&ManaCost([0, 0, 1, 0, 0, 0])));
    assert!(hand.can_produce(&ManaCost([0, 0, 0, 2, 0, 1])));
    assert!(!hand.can_produce(&ManaCost([1, 1, 0, 0, 0, 0])));
    assert!(!hand.can_produce(&ManaCost([1, 0, 0, 0, 0, 3])));
    let hand = Hand { cards: vec![lotus(), city()] };
    assert!(hand.has_cards(&[("Black Lotus", 1), ("City of Brass", 1)]));
    assert!(!hand.has_cards(&[("Black Lotus", 2), ("City of Brass", 1)]));
    assert!(hand.has_cards(&[("City of Brass", 1)]));
    assert!(!hand.has_cards(&[("Mountain", 1)]));
    assert!(hand.can_produce(&ManaCost([4, 0, 0, 0, 0, 0])));
    assert!(hand.can_produce(&ManaCost([1, 0, 0, 3, 0, 0])));
    assert!(hand.can_produce(&ManaCost([0, 1, 0, 1, 0, 2])));
    assert!(!hand.can_produce(&ManaCost([1, 0, 0, 0, 1, 3])));
    assert!(!hand.can_produce(&ManaCost([0, 0, 0, 0, 0, 5])));
    assert!(!hand.can_produce(&ManaCost([1, 1, 1, 0, 0, 0])));
    let hand = Hand { cards: vec![taiga(), taiga(), taiga()] };
    assert!(hand.can_produce(&ManaCost([0, 0, 0, 1, 0, 0])));
    assert!(!hand.can_produce(&ManaCost([0, 0, 0, 3, 0, 0])));
    let hand = Hand { cards: vec![mox_r(), mox_r(), mox_r()] };
    assert!(hand.can_produce(&ManaCost([0, 0, 0, 3, 0, 0])));
    let hand = Hand { cards: vec![lotus(), mox_g(), taiga()] };
    assert!(hand.can_produce(&ManaCost([0, 0, 0, 3, 2, 0])));
}

#[test]
fn deck_tests() {
    let mut d = Deck::empty();
    d.add(lotus(), 1);
    d.add(city(), 4);
    d.add(taiga(), 4);
    let val = d.count_hands(3);
    assert!(val == ncr(9, 3));
    let val = d.count_hands_if(1, &HandPred::CanProduce(ManaCost([3, 0, 0, 0, 0, 0])));
    assert!(val == 1);
    let val = d.count_hands_if(3, &HandPred::CanProduce(ManaCost([0, 0, 0, 1, 0, 0])));
    assert!(val == ncr(9, 3));
    let val = d.count_hands_if(3, &HandPred::CanProduce(ManaCost([1, 0, 0, 0, 0, 0])));
    assert!(val == ncr(9, 3) - ncr(4, 3));
    let mut d = Deck::empty();
    d.add(lotus(), 1);
    d.add(city(), 4);
    d.add(taiga(), 4);
    d.add(ball(), 4);
    d.add(berserk(), 4);
    d.add(bloodlust(), 4);
    assert!(d.count_hands(7) == ncr(21, 7));
    assert!(ncr(60, 7) > 2);
}

#[test]
fn binomial_values() {
    assert_eq!(ncr(9, 3), 84);
    assert_eq!(ncr(4, 3), 4);
    assert_eq!(ncr(21, 7), 116280);
    assert_eq!(ncr(60, 7), 386206920);
    assert_eq!(ncr(5, 5), 1);
    assert_eq!(ncr(0, 3), 0);
    assert_eq!(ncr(3, 0), 0);
    assert_eq!(ncr(3, 5), 0);
    assert_eq!(fac(1), 1);
    assert_eq!(fac(5), 120);
    assert_eq!(min(3, 5), 3);
    assert_eq!(min(5, 3), 3);
    assert_eq!(max(3, 5), 5);
    assert_eq!(max(5, 3), 5);
}

#[test]
fn mana_set_covers() {
    let zero = ManaSet::empty();
    assert!(zero.contains(&ManaCost([0, 0, 0, 0, 0, 0])));
    assert!(!zero.contains(&ManaCost([0, 0, 0, 0, 0, 1])));
    let r = ManaSet::s(ManaType::R);
    let g = ManaSet::s(ManaType::G);
    let rg = r.add(g);
    assert!(rg.contains(&ManaCost([0, 0, 0, 1, 1, 0])));
    assert!(rg.contains(&ManaCost([0, 0, 0, 1, 0, 1])));
    assert!(!rg.contains(&ManaCost([0, 0, 0, 2, 0, 0])));
    assert!(!rg.contains(&ManaCost([0, 0, 0, 1, 1, 1])));
    assert_eq!(ManaType::W.usize(), 0);
    assert_eq!(ManaType::U.usize(), 1);
    assert_eq!(ManaType::B.usize(), 2);
    assert_eq!(ManaType::R.usize(), 3);
    assert_eq!(ManaType::G.usize(), 4);
    assert_eq!(ManaType::C.usize(), 5);
}

#[test]
fn has_cards_empty_requirement() {
    let hand = Hand { cards: vec![lotus(), city()] };
    assert!(hand.has_cards(&[]));
    let empty = Hand { cards: vec![] };
    assert!(empty.has_cards(&[]));
}

#[test]
fn predicate_combinators() {
    let hand = Hand { cards: vec![lotus(), city()] };
    let has_lotus = HandPred::HasCards(vec![("Black Lotus".to_string(), 1)]);
    let has_mountain = HandPred::HasCards(vec![("Mountain".to_string(), 1)]);
    assert!(has_lotus.eval(&hand));
    assert!(!has_mountain.eval(&hand));
    let both = HandPred::Both(
        Box::new(HandPred::HasCards(vec![("Black Lotus".to_string(), 1)])),
        Box::new(HandPred::CanProduce(ManaCost([4, 0, 0, 0, 0, 0]))),
    );
    assert!(both.eval(&hand));
    let either = HandPred::Either(
        Box::new(HandPred::HasCards(vec![("Mountain".to_string(), 1)])),
        Box::new(HandPred::CanProduce(ManaCost([4, 0, 0, 0, 0, 0]))),
    );
    assert!(either.eval(&hand));
    let neither = HandPred::Not(Box::new(HandPred::Always));
    assert!(!neither.eval(&hand));
}

#[test]
fn filtered_counts_split_by_negation() {
    let mut d = Deck::empty();
    d.add(lotus(), 1);
    d.add(city(), 4);
    d.add(taiga(), 4);
    let pred = HandPred::CanProduce(ManaCost([1, 0, 0, 0, 0, 0]));
    let negated = HandPred::Not(Box::new(HandPred::CanProduce(ManaCost([1, 0, 0, 0, 0, 0]))));
    let yes = d.count_hands_if(3, &pred);
    let no = d.count_hands_if(3, &negated);
    assert_eq!(yes + no, d.count_hands(3));
    assert_eq!(no, ncr(4, 3));
}

#[test]
fn deck_queries() {
    let mut d = Deck::empty();
    d.add(lotus(), 1);
    d.add(city(), 4);
    d.add(taiga(), 4);
    assert_eq!(d.num_cards(), 9);
    assert_eq!(d.name_by_idx(0), "Black Lotus");
    assert_eq!(d.name_by_idx(1), "City of Brass");
    assert_eq!(d.name_by_idx(2), "Taiga");
    let h = d.deal_hand(&[0, 1, 2]);
    assert!(h.has_cards(&[("Black Lotus", 1), ("City of Brass", 1), ("Taiga", 1)]));
    let dud = CardDef::Dud(Dud {});
    let nm = CardDef::NonMana(NonMana { name: "Ball Lightning".to_string() });
    let single = Hand { cards: vec![dud, nm] };
    assert!(!single.can_produce(&ManaCost([0, 0, 0, 1, 0, 0])));
    assert!(single.has_cards(&[("Dud", 1), ("Ball Lightning", 1)]));
}

#[test]
fn subset_feasibility() {
    // the all-zero requirement is free, whatever the hand holds
    let empty = Hand { cards: vec![] };
    assert!(empty.can_produce(&ManaCost([0, 0, 0, 0, 0, 0])));
    let duds = Hand {
        cards: vec![
            CardDef::Dud(Dud {}),
            CardDef::NonMana(NonMana { name: "Ball Lightning".to_string() }),
        ],
    };
    assert!(duds.can_produce(&ManaCost([0, 0, 0, 0, 0, 0])));
    assert!(!duds.can_produce(&ManaCost([0, 0, 0, 0, 0, 1])));
    // a later card may start the branch even when earlier cards cannot
    let forest = CardDef::Land(Land {
        name: "Forest".to_string(),
        types: vec![ManaSet::s(ManaType::G)],
    });
    let mountain = CardDef::Land(Land {
        name: "Mountain".to_string(),
        types: vec![ManaSet::s(ManaType::R)],
    });
    let hand = Hand { cards: vec![forest, mountain] };
    assert!(hand.can_produce(&ManaCost([0, 0, 0, 1, 0, 0])));
    assert!(hand.can_produce(&ManaCost([0, 0, 0, 0, 1, 0])));
    // but still only one slow source per branch
    assert!(!hand.can_produce(&ManaCost([0, 0, 0, 1, 1, 0])));
    let lead = CardDef::NonMana(NonMana { name: "Berserk".to_string() });
    let taiga2 = CardDef::Land(Land {
        name: "Taiga".to_string(),
        types: vec![ManaSet::s(ManaType::R), ManaSet::s(ManaType::G)],
    });
    let hand = Hand { cards: vec![lead, taiga2] };
    assert!(hand.can_produce(&ManaCost([0, 0, 0, 1, 0, 0])));
}

#[test]
fn limits_check() {
    let mut d = Deck::empty();
    d.add(lotus(), 1);
    d.add(city(), 4);
    d.add(taiga(), 4);
    assert!(d.hands_fit(3));
    assert!(d.hands_fit(9));
    let empty = Deck::empty();
    assert!(empty.hands_fit(0));
}
