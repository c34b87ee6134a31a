//! The terminal-line tokenizer and the line-oriented record recognizer.
use crate::card::{
    built, empty_builder, BuilderModel, Card, CardBuilder, CardModel,
};
use crate::number::{decimal_of, int_of, parse_decimal_chars, parse_int_chars, pow10, Decimal};
use crate::text::{chars_of, contains, contains_chars, split_chars, split_on, string_of};
use vstd::prelude::*;

verus! {

/// Text of the invoice table header that opens the item region.
pub const OPEN_MARKER: &'static str = "ITEMS DET";

/// Letter-spaced phrase that closes the item region.
pub const CLOSE_MARKER: &'static str = "C o m m u n i t y   f o r  A l l";

/// Tokens `0 .. n` of a terminal line, each preceded by one space.
pub open spec fn joined_tokens(toks: Seq<Seq<char>>, n: int) -> Seq<char>
    decreases n,
{
    if n <= 0 {
        Seq::empty()
    } else {
        joined_tokens(toks, n - 1) + seq![' '] + toks[n - 1]
    }
}

/// `s` with every `c` taken out.
pub open spec fn without_char(s: Seq<char>, c: char) -> Seq<char>
    decreases s.len(),
{
    if s.len() == 0 {
        Seq::empty()
    } else {
        let p = without_char(s.drop_last(), c);
        if s.last() == c {
            p
        } else {
            p.push(s.last())
        }
    }
}

/// Index of the price token among `n` tokens: the second to last, or the
/// first when there are at most two.
pub open spec fn price_index(n: int) -> int {
    if n > 2 {
        n - 2
    } else {
        0
    }
}

/// Index of the quantity token among `n` tokens: the last, or the first when
/// there are at most two.
pub open spec fn quantity_index(n: int) -> int {
    if n > 2 {
        n - 1
    } else {
        0
    }
}

/// What a terminal line yields: the condition (the tokens before the price,
/// each after one space), the price without `$` signs, and the quantity.
pub open spec fn tokenize(line: Seq<char>) -> (Seq<char>, Option<Decimal>, Option<i32>) {
    let toks = split_on(line, ' ');
    let n = toks.len() as int;
    (
        joined_tokens(toks, price_index(n)),
        decimal_of(without_char(toks[price_index(n)], '$')),
        int_of(toks[quantity_index(n)]),
    )
}

fn remove_char(s: &Vec<char>, c: char) -> (r: Vec<char>)
    ensures
        r@ == without_char(s@, c),
{
    let mut r: Vec<char> = Vec::new();
    let mut i: usize = 0;
    while i < s.len()
        invariant
            i <= s@.len(),
            r@ == without_char(s@.take(i as int), c),
        decreases s@.len() - i,
    {
        assert(s@.take(i + 1).drop_last() =~= s@.take(i as int));
        if s[i] != c {
            r.push(s[i]);
        }
        i += 1;
    }
    assert(s@.take(s@.len() as int) =~= s@);
    r
}

/// Splits a terminal line into condition, price and quantity, as `tokenize`
/// states. With at most two tokens, the first serves as both price and
/// quantity, and the condition is empty.
pub fn parse_final_line(line: &str) -> (r: (String, Option<Decimal>, Option<i32>))
    ensures
        r.0@ == tokenize(line@).0,
        r.1 == tokenize(line@).1,
        r.2 == tokenize(line@).2,
        r.1 matches Some(d) ==> d.wf(),
{
    let chars = chars_of(line);
    let toks = split_chars(&chars, ' ');
    let ghost model = split_on(line@, ' ');
    proof {
        crate::text::lemma_split_nonempty(line@, ' ');
    }
    let n = toks.len();
    let price_at: usize = if n > 2 {
        n - 2
    } else {
        0
    };
    let quantity_at: usize = if n > 2 {
        n - 1
    } else {
        0
    };
    let price_token = remove_char(&toks[price_at], '$');
    let price = parse_decimal_chars(&price_token);
    let quantity = parse_int_chars(&toks[quantity_at]);
    let mut condition: Vec<char> = Vec::new();
    let mut i: usize = 0;
    while i < price_at
        invariant
            price_at < n == toks@.len() == model.len(),
            forall|k: int| 0 <= k < toks@.len() ==> #[trigger] toks@[k]@ == model[k],
            i <= price_at,
            condition@ == joined_tokens(model, i as int),
        decreases price_at - i,
    {
        condition.push(' ');
        let tok = &toks[i];
        let mut j: usize = 0;
        let ghost before = condition@;
        while j < tok.len()
            invariant
                j <= tok@.len(),
                condition@ == before + tok@.take(j as int),
            decreases tok@.len() - j,
        {
            condition.push(tok[j]);
            j += 1;
            assert(condition@ =~= before + tok@.take(j as int));
        }
        assert(tok@.take(tok@.len() as int) =~= tok@);
        i += 1;
        assert(condition@ =~= joined_tokens(model, i as int));
    }
    (string_of(&condition), price, quantity)
}

/// The value that marks a price or a quantity that could not be read.
pub const FAILED: i64 = -999;

/// A price whose value is `FAILED`, at whatever scale.
pub open spec fn is_failed_price(d: Decimal) -> bool {
    d.mantissa == FAILED * pow10(d.scale as nat)
}

/// A tokenized terminal line completes a card: both price and quantity were
/// read, and neither is `FAILED`.
pub open spec fn terminal_accepted(t: (Seq<char>, Option<Decimal>, Option<i32>)) -> bool {
    &&& t.1 is Some
    &&& t.2 is Some
    &&& !is_failed_price(t.1->0)
    &&& t.2->0 != FAILED
}

/// The recognizer's state: whether the item region is open, the line's
/// position within the current block (1 to 9), and the fields seen so far.
pub struct StateModel {
    pub active: bool,
    pub position: int,
    pub builder: BuilderModel,
}

pub open spec fn initial_state() -> StateModel {
    StateModel { active: false, position: 1, builder: empty_builder() }
}

/// What the markers do after a line's own work: the open marker opens the
/// region; otherwise the close marker closes it.
pub open spec fn after_markers(s: StateModel, line: Seq<char>) -> StateModel {
    if contains(line, OPEN_MARKER@) {
        StateModel { active: true, ..s }
    } else if contains(line, CLOSE_MARKER@) {
        StateModel { active: false, ..s }
    } else {
        s
    }
}

/// The field that a line at `position` fills: name at 2, edition at 4,
/// vendor at 6, rarity at 7; the other positions fill none.
pub open spec fn fill(b: BuilderModel, position: int, line: Seq<char>) -> BuilderModel {
    if position == 2 {
        BuilderModel { name: Some(line), ..b }
    } else if position == 4 {
        BuilderModel { edition: Some(line), ..b }
    } else if position == 6 {
        BuilderModel { vendor: Some(line), ..b }
    } else if position == 7 {
        BuilderModel { rarity: Some(line), ..b }
    } else {
        b
    }
}

/// One line's transition, and the card that it completes, if any.
pub open spec fn step(s: StateModel, line: Seq<char>) -> (StateModel, Option<CardModel>) {
    if !s.active {
        (after_markers(s, line), None)
    } else if s.position >= 9 {
        let t = tokenize(line);
        if terminal_accepted(t) {
            (
                after_markers(
                    StateModel { active: true, position: 1, builder: empty_builder() },
                    line,
                ),
                Some(
                    built(
                        BuilderModel {
                            condition: Some(t.0),
                            price: Some(t.1->0),
                            quantity: Some(t.2->0),
                            ..s.builder
                        },
                    ),
                ),
            )
        } else {
            (StateModel { active: false, position: 1, builder: empty_builder() }, None)
        }
    } else {
        (
            after_markers(
                StateModel {
                    active: true,
                    position: s.position + 1,
                    builder: fill(s.builder, s.position, line),
                },
                line,
            ),
            None,
        )
    }
}

/// The state after `lines` from `s`, and the cards completed on the way, in order.
pub open spec fn run_from(s: StateModel, lines: Seq<Seq<char>>) -> (StateModel, Seq<CardModel>)
    decreases lines.len(),
{
    if lines.len() == 0 {
        (s, Seq::empty())
    } else {
        let prev = run_from(s, lines.drop_last());
        let next = step(prev.0, lines.last());
        (
            next.0,
            match next.1 {
                Some(c) => prev.1.push(c),
                None => prev.1,
            },
        )
    }
}

/// The cards recognized in a sequence of lines.
pub open spec fn parse_lines(lines: Seq<Seq<char>>) -> Seq<CardModel> {
    run_from(initial_state(), lines).1
}

/// The cards recognized in a document, split into lines at `\n`.
pub open spec fn parse_text(text: Seq<char>) -> Seq<CardModel> {
    parse_lines(split_on(text, '\n'))
}

pub open spec fn opt_card(o: Option<Card>) -> Option<CardModel> {
    match o {
        Some(c) => Some(c@),
        None => None,
    }
}

pub open spec fn card_models(cards: Seq<Card>) -> Seq<CardModel> {
    cards.map_values(|c: Card| c@)
}

/// The recognizer, advanced one line at a time.
pub struct ParserState {
    active: bool,
    position: u8,
    builder: CardBuilder,
}

impl View for ParserState {
    type V = StateModel;

    closed spec fn view(&self) -> StateModel {
        StateModel {
            active: self.active,
            position: self.position as int,
            builder: self.builder@,
        }
    }
}

impl ParserState {
    pub fn new() -> (r: ParserState)
        ensures
            r@ == initial_state(),
    {
        ParserState { active: false, position: 1, builder: CardBuilder::new() }
    }

    /// Feeds one line; returns the card that it completes, if any.
    pub fn step(&mut self, line: &str) -> (r: Option<Card>)
        requires
            1 <= old(self)@.position <= 9,
        ensures
            1 <= final(self)@.position <= 9,
            final(self)@ == step(old(self)@, line@).0,
            opt_card(r) == step(old(self)@, line@).1,
            r matches Some(c) ==> c.price.wf() && !is_failed_price(c.price) && c.quantity
                != FAILED,
    {
        let mut card: Option<Card> = None;
        if self.active {
            let mut b = CardBuilder::new();
            std::mem::swap(&mut self.builder, &mut b);
            if self.position >= 9 {
                let (condition, price, quantity) = parse_final_line(line);
                let accepted = match (price, quantity) {
                    (Some(p), Some(q)) => !p.equals_int(FAILED) && q as i64 != FAILED,
                    _ => false,
                };
                if !accepted {
                    self.active = false;
                    self.position = 1;
                    return None;
                }
                let p = price.unwrap();
                let q = quantity.unwrap();
                card = Some(b.condition(condition.as_str()).price(p).quantity(q).build());
                self.position = 1;
            } else {
                if self.position == 2 {
                    b = b.name(line);
                } else if self.position == 4 {
                    b = b.edition(line);
                } else if self.position == 6 {
                    b = b.vendor(line);
                } else if self.position == 7 {
                    b = b.rarity(line);
                }
                self.builder = b;
                self.position = self.position + 1;
            }
        }
        let chars = chars_of(line);
        if contains_chars(&chars, &chars_of(OPEN_MARKER)) {
            self.active = true;
        } else if contains_chars(&chars, &chars_of(CLOSE_MARKER)) {
            self.active = false;
        }
        card
    }
}

/// Recognizes the cards of a document's text, in the order of their blocks.
pub fn parse_pdf(file_text: &str) -> (r: Vec<Card>)
    ensures
        card_models(r@) == parse_text(file_text@),
        forall|k: int|
            0 <= k < r@.len() ==> (#[trigger] r@[k]).price.wf() && !is_failed_price(r@[k].price)
                && r@[k].quantity != FAILED,
{
    let chars = chars_of(file_text);
    let lines = split_chars(&chars, '\n');
    let ghost model = split_on(file_text@, '\n');
    let mut state = ParserState::new();
    let mut cards: Vec<Card> = Vec::new();
    let mut i: usize = 0;
    proof {
        assert(model.take(0) =~= Seq::<Seq<char>>::empty());
        assert(card_models(cards@) =~= Seq::<CardModel>::empty());
    }
    while i < lines.len()
        invariant
            i <= lines@.len() == model.len(),
            forall|k: int| 0 <= k < lines@.len() ==> #[trigger] lines@[k]@ == model[k],
            1 <= state@.position <= 9,
            state@ == run_from(initial_state(), model.take(i as int)).0,
            card_models(cards@) == run_from(initial_state(), model.take(i as int)).1,
            forall|k: int|
                0 <= k < cards@.len() ==> (#[trigger] cards@[k]).price.wf() && !is_failed_price(
                    cards@[k].price,
                ) && cards@[k].quantity != FAILED,
        decreases lines@.len() - i,
    {
        let line = string_of(&lines[i]);
        let ghost before = cards@;
        let found = state.step(line.as_str());
        match found {
            Some(c) => {
                cards.push(c);
            },
            None => {},
        }
        proof {
            assert(model.take(i + 1).drop_last() =~= model.take(i as int));
            assert(model.take(i + 1).last() == model[i as int]);
            assert(card_models(cards@) =~= run_from(initial_state(), model.take(i + 1)).1);
        }
        i += 1;
    }
    assert(model.take(model.len() as int) =~= model);
    cards
}

} // verus!
