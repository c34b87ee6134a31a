use card_order::card::{Card, CardBuilder};
use card_order::number::Decimal;
use card_order::rows::{card_row, csv_rows, header_row, read_pdf_path, write_csv_path};

fn foo_card() -> Card {
    CardBuilder::new()
        .name("Foo")
        .edition("Set X")
        .vendor("StoreY")
        .rarity("Rare")
        .condition("NM")
        .price(Decimal { mantissa: 1005, scale: 3 })
        .quantity(3)
        .build()
}

#[test]
fn header_is_fixed() {
    assert_eq!(header_row(), vec!["Card", "Rarity", "Condition", "Price", "Quantity", "Total"]);
}

#[test]
fn row_of_sample_card() {
    let row = card_row(&foo_card());
    assert_eq!(row, vec!["Foo\nSet X\nStoreY", "Rare", "NM", "1.00", "3", "3.02"]);
}

#[test]
fn row_trims_all_but_name() {
    let card = CardBuilder::new()
        .name(" Foo ")
        .edition("  Set X ")
        .vendor(" StoreY\t")
        .rarity(" Rare ")
        .condition(" Near Mint")
        .price(Decimal { mantissa: 1250, scale: 2 })
        .quantity(2)
        .build();
    let row = card_row(&card);
    assert_eq!(row, vec![" Foo \nSet X\nStoreY", "Rare", "Near Mint", "12.50", "2", "25.00"]);
}

#[test]
fn price_rounding_and_signs() {
    let mut card = foo_card();
    card.price = Decimal { mantissa: 5, scale: 0 };
    card.quantity = 0;
    assert_eq!(card_row(&card)[3..], ["5.00", "0", "0.00"]);
    card.price = Decimal { mantissa: 12345, scale: 4 };
    card.quantity = -2;
    assert_eq!(card_row(&card)[3..], ["1.23", "-2", "-2.47"]);
    card.price = Decimal { mantissa: -1005, scale: 3 };
    card.quantity = 1;
    assert_eq!(card_row(&card)[3..], ["-1.00", "1", "-1.00"]);
    card.price = Decimal { mantissa: 1015, scale: 3 };
    assert_eq!(card_row(&card)[3], "1.02");
    card.price = Decimal { mantissa: 10051, scale: 4 };
    assert_eq!(card_row(&card)[3], "1.01");
}

#[test]
fn rows_start_with_header() {
    let rows = csv_rows(&vec![foo_card(), foo_card()]);
    assert_eq!(rows.len(), 3);
    assert_eq!(rows[0], header_row());
    assert_eq!(rows[2], card_row(&foo_card()));
    assert_eq!(csv_rows(&vec![]).len(), 1);
}

#[test]
fn validity_of_prices() {
    assert!(Decimal { mantissa: 999999999999999999, scale: 18 }.is_valid());
    assert!(!Decimal { mantissa: 1000000000000000000, scale: 0 }.is_valid());
    assert!(!Decimal { mantissa: 1, scale: 19 }.is_valid());
}

#[test]
fn file_paths_under_root() {
    assert_eq!(read_pdf_path("/tmp/run"), "/tmp/run/order.pdf");
    assert_eq!(write_csv_path("/tmp/run/"), "/tmp/run/order.csv");
    assert_eq!(read_pdf_path(""), "order.pdf");
}

#[test]
fn row_trims_unicode_white_space() {
    let mut card = foo_card();
    card.rarity = "\u{3000}Rare\u{a0}\n".to_string();
    card.condition = "\u{2003} NM x ".to_string();
    let row = card_row(&card);
    assert_eq!(row[1], "Rare");
    assert_eq!(row[2], "NM x");
}
