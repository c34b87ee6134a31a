use card_order::card::{Card, CardBuilder};
use card_order::number::{parse_decimal, Decimal};
use card_order::parser::{parse_final_line, parse_pdf, ParserState};

fn dec(mantissa: i64, scale: u32) -> Decimal {
    Decimal { mantissa, scale }
}

fn block(name: &str, edition: &str, vendor: &str, rarity: &str, last: &str) -> String {
    format!("filler\n{}\nfiller\n{}\nfiller\n{}\n{}\nfiller\n{}\n", name, edition, vendor, rarity, last)
}

#[test]
fn no_open_marker_gives_no_cards() {
    let text = format!("Invoice 42\n{}", block("Foo", "Set X", "StoreY", "Rare", "NM $1.00 1"));
    assert!(parse_pdf(&text).is_empty());
    assert!(parse_pdf("").is_empty());
}

#[test]
fn one_block_gives_one_card() {
    let text = format!(
        "Invoice\nITEMS DETAILS\n{}",
        block("Black Lotus ", " Alpha ", " StoreY", "Rare", "Near Mint $12.50 2")
    );
    let cards = parse_pdf(&text);
    assert_eq!(cards.len(), 1);
    let c = &cards[0];
    assert_eq!(c.name, "Black Lotus ");
    assert_eq!(c.edition, " Alpha ");
    assert_eq!(c.vendor, " StoreY");
    assert_eq!(c.rarity, "Rare");
    assert_eq!(c.condition, " Near Mint");
    assert_eq!(c.price, dec(1250, 2));
    assert_eq!(c.quantity, 2);
}

#[test]
fn blocks_between_markers_keep_their_order() {
    let text = format!(
        "ITEMS DET\n{}{}{}C o m m u n i t y   f o r  A l l\n{}",
        block("A", "E1", "V1", "Common", "NM $1.00 1"),
        block("B", "E2", "V2", "Uncommon", "LP $2.25 3"),
        block("C", "E3", "V3", "Mythic", "MP $10 4"),
        block("D", "E4", "V4", "Rare", "NM $5.00 1"),
    );
    let cards = parse_pdf(&text);
    let names: Vec<&str> = cards.iter().map(|c| c.name.as_str()).collect();
    assert_eq!(names, vec!["A", "B", "C"]);
    assert_eq!(cards[1].price, dec(225, 2));
    assert_eq!(cards[2].price, dec(10, 0));
    assert_eq!(cards[2].quantity, 4);
}

#[test]
fn malformed_terminal_line_closes_region() {
    let text = format!(
        "ITEMS DET\n{}{}",
        block("A", "E1", "V1", "Common", "NM $abc 1"),
        block("B", "E2", "V2", "Rare", "NM $1.00 1"),
    );
    assert!(parse_pdf(&text).is_empty());
}

#[test]
fn reopened_region_is_recognized_again() {
    let text = format!(
        "ITEMS DET\n{}ITEMS DET\n{}",
        block("A", "E1", "V1", "Common", "NM $1.00 x"),
        block("B", "E2", "V2", "Rare", "NM $3.10 2"),
    );
    let cards = parse_pdf(&text);
    assert_eq!(cards.len(), 1);
    assert_eq!(cards[0].name, "B");
    assert_eq!(cards[0].price, dec(310, 2));
}

#[test]
fn price_and_quantity_tokens() {
    let (condition, price, quantity) = parse_final_line("NM $12.50 1");
    assert_eq!(condition, " NM");
    assert_eq!(price, Some(dec(1250, 2)));
    assert_eq!(quantity, Some(1));
    let (_, price, quantity) = parse_final_line("NM $12.50 x");
    assert_eq!(price, Some(dec(1250, 2)));
    assert_eq!(quantity, None);
}

#[test]
fn unparsable_quantity_discards_block() {
    let text = format!("ITEMS DET\n{}", block("A", "E", "V", "Rare", "NM $12.50 x"));
    assert!(parse_pdf(&text).is_empty());
}

#[test]
fn short_terminal_line_uses_first_token_twice() {
    let (condition, price, quantity) = parse_final_line("7");
    assert_eq!(condition, "");
    assert_eq!(price, Some(dec(7, 0)));
    assert_eq!(quantity, Some(7));
    let (condition, price, quantity) = parse_final_line("3 4");
    assert_eq!(condition, "");
    assert_eq!(price, Some(dec(3, 0)));
    assert_eq!(quantity, Some(3));
    let (_, price, quantity) = parse_final_line("$5 x");
    assert_eq!(price, Some(dec(5, 0)));
    assert_eq!(quantity, None);
}

#[test]
fn condition_keeps_every_leading_token() {
    let (condition, price, quantity) = parse_final_line("Lightly Played Foil $0.99 12");
    assert_eq!(condition, " Lightly Played Foil");
    assert_eq!(price, Some(dec(99, 2)));
    assert_eq!(quantity, Some(12));
}

#[test]
fn decimal_tokens() {
    assert_eq!(parse_decimal("12.50"), Some(dec(1250, 2)));
    assert_eq!(parse_decimal("-1.5"), Some(dec(-15, 1)));
    assert_eq!(parse_decimal("+2"), Some(dec(2, 0)));
    assert_eq!(parse_decimal(".5"), Some(dec(5, 1)));
    assert_eq!(parse_decimal("5."), Some(dec(5, 0)));
    assert_eq!(parse_decimal("."), None);
    assert_eq!(parse_decimal(""), None);
    assert_eq!(parse_decimal("1.2.3"), None);
    assert_eq!(parse_decimal("1e3"), None);
    assert_eq!(parse_decimal("999999999999999999"), Some(dec(999999999999999999, 0)));
    assert_eq!(parse_decimal("1000000000000000000"), None);
}

#[test]
fn quantity_tokens() {
    let q = |s: &str| parse_final_line(&format!("NM $1 {}", s)).2;
    assert_eq!(q("+7"), Some(7));
    assert_eq!(q("-2147483648"), Some(i32::MIN));
    assert_eq!(q("2147483647"), Some(i32::MAX));
    assert_eq!(q("2147483648"), None);
    assert_eq!(q("0000000000000012"), Some(12));
    assert_eq!(q("-"), None);
    assert_eq!(q("1.0"), None);
}

#[test]
fn parser_steps_line_by_line() {
    let mut state = ParserState::new();
    assert!(state.step("nothing here").is_none());
    assert!(state.step("== ITEMS DETAILS ==").is_none());
    for line in ["f", "Foo", "f", "Set X", "f", "StoreY", "Rare", "f"] {
        assert!(state.step(line).is_none());
    }
    let card = state.step("NM $1.005 3").expect("a card");
    assert_eq!(card.name, "Foo");
    assert_eq!(card.price, dec(1005, 3));
    assert_eq!(card.quantity, 3);
}

#[test]
fn builder_defaults() {
    let card: Card = CardBuilder::new().build();
    assert_eq!(card.name, "");
    assert_eq!(card.edition, "");
    assert_eq!(card.vendor, "");
    assert_eq!(card.rarity, "");
    assert_eq!(card.condition, "");
    assert_eq!(card.price, dec(0, 0));
    assert_eq!(card.quantity, 0);
    let card = CardBuilder::new().name("N").rarity("R").quantity(5).build();
    assert_eq!(card.name, "N");
    assert_eq!(card.rarity, "R");
    assert_eq!(card.edition, "");
    assert_eq!(card.quantity, 5);
}

#[test]
fn failed_value_quantity_drops_block_and_closes_region() {
    let text = format!(
        "ITEMS DET\n{}{}",
        block("A", "E1", "V1", "Common", "NM $1 -999"),
        block("B", "E2", "V2", "Rare", "NM $1.00 1"),
    );
    assert!(parse_pdf(&text).is_empty());
}

#[test]
fn failed_value_price_at_any_scale_drops_block() {
    for last in ["NM $-999 1", "NM $-999.00 1", "NM -999.0 2"] {
        let text = format!("ITEMS DET\n{}", block("A", "E", "V", "Rare", last));
        assert!(parse_pdf(&text).is_empty(), "{}", last);
    }
    let text = format!("ITEMS DET\n{}", block("A", "E", "V", "Rare", "NM $-999.5 -998"));
    let cards = parse_pdf(&text);
    assert_eq!(cards.len(), 1);
    assert_eq!(cards[0].price, dec(-9995, 1));
    assert_eq!(cards[0].quantity, -998);
}
