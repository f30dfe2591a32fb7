use vstd::prelude::*;
use vstd::string::StringExecFns;

verus! {

/// The four suits.
#[derive(Debug, Clone, Copy, PartialEq, Eq, Hash, Structural)]
pub enum Suit {
    Hearts,
    Diamonds,
    Clubs,
    Spades,
}

/// Card ranks. Ace is high only: it ranks above the King.
#[derive(Debug, Clone, Copy, PartialEq, Eq, PartialOrd, Ord, Hash, Structural)]
pub enum Value {
    Two,
    Three,
    Four,
    Five,
    Six,
    Seven,
    Eight,
    Nine,
    Ten,
    Jack,
    Queen,
    King,
    Ace,
}

/// A card: a standard card of a suit and value, or a joker.
#[derive(Debug, Clone, Copy, PartialEq, Eq, Hash, Structural)]
pub enum Card {
    Standard { suit: Suit, value: Value },
    Joker,
}

/// Numeric rank of a value: 2..=10 for the number cards, then
/// Jack 11, Queen 12, King 13, Ace 14.
pub open spec fn rank_of(v: Value) -> int {
    match v {
        Value::Two => 2,
        Value::Three => 3,
        Value::Four => 4,
        Value::Five => 5,
        Value::Six => 6,
        Value::Seven => 7,
        Value::Eight => 8,
        Value::Nine => 9,
        Value::Ten => 10,
        Value::Jack => 11,
        Value::Queen => 12,
        Value::King => 13,
        Value::Ace => 14,
    }
}

/// Points a value is worth when left in hand.
pub open spec fn value_points(v: Value) -> int {
    match v {
        Value::Jack | Value::Queen | Value::King => 10,
        Value::Ace => 20,
        _ => rank_of(v),
    }
}

/// Points a card is worth when left in hand; a joker is worth 50.
pub open spec fn card_points(c: Card) -> int {
    match c {
        Card::Standard { value, .. } => value_points(value),
        Card::Joker => 50,
    }
}

/// Rank of a standard card; a joker has none and reads as 0.
pub open spec fn card_rank(c: Card) -> int {
    match c {
        Card::Standard { value, .. } => rank_of(value),
        Card::Joker => 0,
    }
}

/// Suit of a standard card (only meaningful for standard cards).
pub open spec fn card_suit(c: Card) -> Suit {
    match c {
        Card::Standard { suit, .. } => suit,
        Card::Joker => Suit::Hearts,
    }
}

pub proof fn lemma_rank_injective(a: Value, b: Value)
    ensures
        rank_of(a) == rank_of(b) <==> a == b,
        2 <= rank_of(a) <= 14,
{
}

/// The symbol of a suit.
pub open spec fn suit_symbol(s: Suit) -> &'static str {
    match s {
        Suit::Hearts => "♥",
        Suit::Diamonds => "♦",
        Suit::Clubs => "♣",
        Suit::Spades => "♠",
    }
}

/// The short name of a value: its number, or J, Q, K, A.
pub open spec fn value_symbol(v: Value) -> &'static str {
    match v {
        Value::Two => "2",
        Value::Three => "3",
        Value::Four => "4",
        Value::Five => "5",
        Value::Six => "6",
        Value::Seven => "7",
        Value::Eight => "8",
        Value::Nine => "9",
        Value::Ten => "10",
        Value::Jack => "J",
        Value::Queen => "Q",
        Value::King => "K",
        Value::Ace => "A",
    }
}

impl Suit {
    /// The suit's symbol (♥ ♦ ♣ ♠).
    pub fn symbol(&self) -> (r: &'static str)
        ensures
            r == suit_symbol(*self),
    {
        match self {
            Suit::Hearts => "♥",
            Suit::Diamonds => "♦",
            Suit::Clubs => "♣",
            Suit::Spades => "♠",
        }
    }
}

impl Value {
    /// The value's short name (2..10, J, Q, K, A).
    pub fn symbol(&self) -> (r: &'static str)
        ensures
            r == value_symbol(*self),
    {
        match self {
            Value::Two => "2",
            Value::Three => "3",
            Value::Four => "4",
            Value::Five => "5",
            Value::Six => "6",
            Value::Seven => "7",
            Value::Eight => "8",
            Value::Nine => "9",
            Value::Ten => "10",
            Value::Jack => "J",
            Value::Queen => "Q",
            Value::King => "K",
            Value::Ace => "A",
        }
    }

    /// The numeric rank (2..=14).
    pub fn rank(&self) -> (r: u8)
        ensures
            r as int == rank_of(*self),
    {
        match self {
            Value::Two => 2,
            Value::Three => 3,
            Value::Four => 4,
            Value::Five => 5,
            Value::Six => 6,
            Value::Seven => 7,
            Value::Eight => 8,
            Value::Nine => 9,
            Value::Ten => 10,
            Value::Jack => 11,
            Value::Queen => 12,
            Value::King => 13,
            Value::Ace => 14,
        }
    }

    /// Values mapped to their points when left in hand.
    pub fn points(&self) -> (r: u32)
        ensures
            r as int == value_points(*self),
    {
        match self {
            Value::Two => 2,
            Value::Three => 3,
            Value::Four => 4,
            Value::Five => 5,
            Value::Six => 6,
            Value::Seven => 7,
            Value::Eight => 8,
            Value::Nine => 9,
            Value::Ten => 10,
            Value::Jack => 10,
            Value::Queen => 10,
            Value::King => 10,
            Value::Ace => 20,
        }
    }
}

impl Card {
    /// Points the card is worth when left in hand.
    pub fn points(&self) -> (r: u32)
        ensures
            r as int == card_points(*self),
            r <= 50,
    {
        match self {
            Card::Standard { value, .. } => value.points(),
            Card::Joker => 50,
        }
    }

    /// How the card is written: value then suit (`7♦`), or 🃏 for a joker.
    pub fn label(&self) -> (r: String)
        ensures
            *self matches Card::Standard { suit, value } ==> r@ == value_symbol(value)@ + suit_symbol(suit)@,
            *self is Joker ==> r@ == "🃏"@,
    {
        match self {
            Card::Standard { suit, value } => {
                let mut r = String::from_str(value.symbol());
                r.append(suit.symbol());
                r
            },
            Card::Joker => String::from_str("🃏"),
        }
    }

    /// Whether the card is a joker.
    pub fn is_joker(&self) -> (r: bool)
        ensures
            r == (*self is Joker),
    {
        match self {
            Card::Joker => true,
            _ => false,
        }
    }
}

} // verus!
