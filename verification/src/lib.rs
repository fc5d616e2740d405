pub mod binomial;
pub mod card;
pub mod deck;
pub mod hand;
pub mod mana;
pub mod pred;

pub use binomial::fac;
pub use binomial::max;
pub use binomial::min;
pub use binomial::ncr;
pub use card::BlackLotus;
pub use card::CardDef;
pub use card::Dud;
pub use card::Land;
pub use card::Mox;
pub use card::NonMana;
pub use deck::Deck;
pub use hand::Hand;
pub use mana::ManaCost;
pub use mana::ManaSet;
pub use mana::ManaType;
pub use pred::HandPred;
