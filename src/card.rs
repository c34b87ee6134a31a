//! Purchased-card records and the builder that accumulates their fields.
use crate::number::Decimal;
use vstd::prelude::*;

verus! {

/// What a card holds, as plain values.
pub struct CardModel {
    pub name: Seq<char>,
    pub edition: Seq<char>,
    pub vendor: Seq<char>,
    pub rarity: Seq<char>,
    pub condition: Seq<char>,
    pub price: Decimal,
    pub quantity: i32,
}

/// One purchased line item.
#[derive(Clone, Debug)]
pub struct Card {
    pub name: String,
    pub edition: String,
    pub vendor: String,
    pub rarity: String,
    pub condition: String,
    pub price: Decimal,
    pub quantity: i32,
}

impl View for Card {
    type V = CardModel;

    open spec fn view(&self) -> CardModel {
        CardModel {
            name: self.name@,
            edition: self.edition@,
            vendor: self.vendor@,
            rarity: self.rarity@,
            condition: self.condition@,
            price: self.price,
            quantity: self.quantity,
        }
    }
}

/// The slots of a builder: each field set or not.
pub struct BuilderModel {
    pub name: Option<Seq<char>>,
    pub edition: Option<Seq<char>>,
    pub vendor: Option<Seq<char>>,
    pub rarity: Option<Seq<char>>,
    pub condition: Option<Seq<char>>,
    pub price: Option<Decimal>,
    pub quantity: Option<i32>,
}

/// A builder with no field set.
pub open spec fn empty_builder() -> BuilderModel {
    BuilderModel {
        name: None,
        edition: None,
        vendor: None,
        rarity: None,
        condition: None,
        price: None,
        quantity: None,
    }
}

pub open spec fn text_or_empty(o: Option<Seq<char>>) -> Seq<char> {
    match o {
        Some(s) => s,
        None => Seq::empty(),
    }
}

/// The card a builder yields: unset text is empty, an unset price or
/// quantity is zero.
pub open spec fn built(b: BuilderModel) -> CardModel {
    CardModel {
        name: text_or_empty(b.name),
        edition: text_or_empty(b.edition),
        vendor: text_or_empty(b.vendor),
        rarity: text_or_empty(b.rarity),
        condition: text_or_empty(b.condition),
        price: match b.price {
            Some(p) => p,
            None => Decimal { mantissa: 0, scale: 0 },
        },
        quantity: match b.quantity {
            Some(q) => q,
            None => 0,
        },
    }
}

pub open spec fn opt_text(o: Option<String>) -> Option<Seq<char>> {
    match o {
        Some(s) => Some(s@),
        None => None,
    }
}

/// Accumulates the fields of one card; each setter yields the updated builder.
pub struct CardBuilder {
    name: Option<String>,
    edition: Option<String>,
    vendor: Option<String>,
    rarity: Option<String>,
    condition: Option<String>,
    price: Option<Decimal>,
    quantity: Option<i32>,
}

impl View for CardBuilder {
    type V = BuilderModel;

    closed spec fn view(&self) -> BuilderModel {
        BuilderModel {
            name: opt_text(self.name),
            edition: opt_text(self.edition),
            vendor: opt_text(self.vendor),
            rarity: opt_text(self.rarity),
            condition: opt_text(self.condition),
            price: self.price,
            quantity: self.quantity,
        }
    }
}

fn text_or_default(o: Option<String>) -> (r: String)
    ensures
        r@ == text_or_empty(opt_text(o)),
{
    match o {
        Some(s) => s,
        None => String::new(),
    }
}

impl CardBuilder {
    pub fn new() -> (r: CardBuilder)
        ensures
            r@ == empty_builder(),
    {
        CardBuilder {
            name: None,
            edition: None,
            vendor: None,
            rarity: None,
            condition: None,
            price: None,
            quantity: None,
        }
    }

    pub fn name(self, name: &str) -> (r: CardBuilder)
        ensures
            r@ == (BuilderModel { name: Some(name@), ..self@ }),
    {
        CardBuilder { name: Some(name.to_owned()), ..self }
    }

    pub fn edition(self, edition: &str) -> (r: CardBuilder)
        ensures
            r@ == (BuilderModel { edition: Some(edition@), ..self@ }),
    {
        CardBuilder { edition: Some(edition.to_owned()), ..self }
    }

    pub fn vendor(self, vendor: &str) -> (r: CardBuilder)
        ensures
            r@ == (BuilderModel { vendor: Some(vendor@), ..self@ }),
    {
        CardBuilder { vendor: Some(vendor.to_owned()), ..self }
    }

    pub fn rarity(self, rarity: &str) -> (r: CardBuilder)
        ensures
            r@ == (BuilderModel { rarity: Some(rarity@), ..self@ }),
    {
        CardBuilder { rarity: Some(rarity.to_owned()), ..self }
    }

    pub fn condition(self, condition: &str) -> (r: CardBuilder)
        ensures
            r@ == (BuilderModel { condition: Some(condition@), ..self@ }),
    {
        CardBuilder { condition: Some(condition.to_owned()), ..self }
    }

    pub fn price(self, price: Decimal) -> (r: CardBuilder)
        ensures
            r@ == (BuilderModel { price: Some(price), ..self@ }),
    {
        CardBuilder { price: Some(price), ..self }
    }

    pub fn quantity(self, quantity: i32) -> (r: CardBuilder)
        ensures
            r@ == (BuilderModel { quantity: Some(quantity), ..self@ }),
    {
        CardBuilder { quantity: Some(quantity), ..self }
    }

    /// The card with every field set so far, and the defaults of `built` for the rest.
    pub fn build(self) -> (r: Card)
        ensures
            r@ == built(self@),
    {
        Card {
            name: text_or_default(self.name),
            edition: text_or_default(self.edition),
            vendor: text_or_default(self.vendor),
            rarity: text_or_default(self.rarity),
            condition: text_or_default(self.condition),
            price: match self.price {
                Some(p) => p,
                None => Decimal { mantissa: 0, scale: 0 },
            },
            quantity: match self.quantity {
                Some(q) => q,
                None => 0,
            },
        }
    }
}

} // verus!
