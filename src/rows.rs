//! Rendering of cards as table rows, and the names of the files read and written.
use crate::card::{Card, CardModel};
use crate::number::{fixed2_text, int_text, push_fixed2, push_int_text};
use crate::text::{chars_of, string_of, trim_text, trimmed};
use vstd::prelude::*;

verus! {

/// The first cell of a row: the raw name, then the trimmed edition and the
/// trimmed vendor, one per line.
pub open spec fn card_cell(c: CardModel) -> Seq<char> {
    c.name + seq!['\n'] + trimmed(c.edition) + seq!['\n'] + trimmed(c.vendor)
}

/// The cells of a card's row: card, rarity, condition, price, quantity and
/// total, the total being the exact product of price and quantity.
pub open spec fn row_of(c: CardModel) -> Seq<Seq<char>> {
    seq![
        card_cell(c),
        trimmed(c.rarity),
        trimmed(c.condition),
        fixed2_text(c.price.mantissa as int, c.price.scale as nat),
        int_text(c.quantity as int),
        fixed2_text(c.price.mantissa * c.quantity, c.price.scale as nat),
    ]
}

/// The header row.
pub open spec fn header() -> Seq<Seq<char>> {
    seq!["Card"@, "Rarity"@, "Condition"@, "Price"@, "Quantity"@, "Total"@]
}

pub open spec fn texts(v: Seq<String>) -> Seq<Seq<char>> {
    v.map_values(|s: String| s@)
}

fn push_all(out: &mut Vec<char>, s: &str)
    ensures
        final(out)@ == old(out)@ + s@,
{
    let v = chars_of(s);
    let mut i: usize = 0;
    let ghost start = out@;
    while i < v.len()
        invariant
            i <= v@.len(),
            v@ == s@,
            out@ == start + v@.take(i as int),
        decreases v@.len() - i,
    {
        out.push(v[i]);
        i += 1;
        assert(out@ =~= start + v@.take(i as int));
    }
    assert(v@.take(v@.len() as int) =~= v@);
}

/// The header row: `Card, Rarity, Condition, Price, Quantity, Total`.
pub fn header_row() -> (r: Vec<String>)
    ensures
        texts(r@) == header(),
{
    let r = vec![
        "Card".to_owned(),
        "Rarity".to_owned(),
        "Condition".to_owned(),
        "Price".to_owned(),
        "Quantity".to_owned(),
        "Total".to_owned(),
    ];
    assert(texts(r@) =~= header());
    r
}

/// The row of one card, as `row_of` states.
pub fn card_row(card: &Card) -> (r: Vec<String>)
    requires
        card.price.wf(),
    ensures
        texts(r@) == row_of(card@),
{
    let mut cell: Vec<char> = Vec::new();
    push_all(&mut cell, card.name.as_str());
    cell.push('\n');
    push_all(&mut cell, trim_text(card.edition.as_str()).as_str());
    cell.push('\n');
    push_all(&mut cell, trim_text(card.vendor.as_str()).as_str());
    assert(cell@ =~= card_cell(card@));
    let mut price: Vec<char> = Vec::new();
    push_fixed2(&mut price, card.price.mantissa as i128, card.price.scale);
    let mut quantity: Vec<char> = Vec::new();
    push_int_text(&mut quantity, card.quantity as i128);
    let m = card.price.mantissa as i128;
    let q = card.quantity as i128;
    proof {
        assert(-1000000000000000000000000000000 < m * q < 1000000000000000000000000000000)
            by (nonlinear_arith)
            requires
                -1000000000000000000 < m < 1000000000000000000,
                -2147483648 <= q <= 2147483647,
        ;
    }
    let mut total: Vec<char> = Vec::new();
    push_fixed2(&mut total, m * q, card.price.scale);
    let r = vec![
        string_of(&cell),
        trim_text(card.rarity.as_str()),
        trim_text(card.condition.as_str()),
        string_of(&price),
        string_of(&quantity),
        string_of(&total),
    ];
    assert(texts(r@) =~= row_of(card@));
    r
}

/// The header row, then one row per card, in order.
pub fn csv_rows(cards: &Vec<Card>) -> (r: Vec<Vec<String>>)
    requires
        forall|k: int| 0 <= k < cards@.len() ==> (#[trigger] cards@[k]).price.wf(),
    ensures
        r@.len() == cards@.len() + 1,
        texts(r@[0]@) == header(),
        forall|k: int| 0 <= k < cards@.len() ==> texts(#[trigger] r@[k + 1]@) == row_of(cards@[k]@),
{
    let mut r: Vec<Vec<String>> = Vec::new();
    r.push(header_row());
    let mut i: usize = 0;
    while i < cards.len()
        invariant
            i <= cards@.len(),
            forall|k: int| 0 <= k < cards@.len() ==> (#[trigger] cards@[k]).price.wf(),
            r@.len() == i + 1,
            texts(r@[0]@) == header(),
            forall|k: int| 0 <= k < i ==> texts(#[trigger] r@[k + 1]@) == row_of(cards@[k]@),
        decreases cards@.len() - i,
    {
        r.push(card_row(&cards[i]));
        i += 1;
    }
    r
}

/// File name of the invoice that is read.
pub const PDF_FILE: &'static str = "order.pdf";

/// File name of the table that is written.
pub const CSV_FILE: &'static str = "order.csv";

/// A name of letters, digits and dots that holds at least one letter: a
/// single relative component on every platform, never `.` or `..`.
pub open spec fn plain_file_name(f: Seq<char>) -> bool {
    &&& exists|i: int| 0 <= i < f.len() && is_letter(#[trigger] f[i])
    &&& forall|i: int|
        0 <= i < f.len() ==> is_letter(#[trigger] f[i]) || ('0' <= f[i] && f[i] <= '9') || f[i]
            == '.'
}

pub open spec fn is_letter(c: char) -> bool {
    ('a' <= c && c <= 'z') || ('A' <= c && c <= 'Z')
}

/// A root that starts with the verbatim prefix `\\?\`, under which joining
/// rebuilds the whole path.
pub open spec fn is_verbatim(root: Seq<char>) -> bool {
    root.len() >= 4 && root.take(4) == seq!['\\', '\\', '?', '\\']
}

pub open spec fn is_separator(c: char) -> bool {
    c == '/' || c == '\\'
}

/// `r` is `file` under `root`: `file` alone for an empty root, `root` then
/// `file` for a root that ends in `/`, and otherwise `root`, then at most one
/// separator (`/` or `\`, as the platform has it), then `file`.
pub open spec fn joined_under(r: Seq<char>, root: Seq<char>, file: Seq<char>) -> bool {
    if root.len() == 0 {
        r == file
    } else if root.last() == '/' {
        r == root + file
    } else {
        r == root + file || (r.len() == root.len() + 1 + file.len() && is_separator(
            r[root.len() as int],
        ) && r == root + seq![r[root.len() as int]] + file)
    }
}

/// Relies on `Path::join` (through `PathBuf::push`): a relative `file` is
/// appended to `root`, after a separator when `root` is not empty and does not
/// already end in one; a verbatim root is left out, where the path is rebuilt.
#[verifier::external_body]
fn join_path(root: &str, file: &str) -> (r: String)
    requires
        plain_file_name(file@),
    ensures
        !is_verbatim(root@) ==> joined_under(r@, root@, file@),
{
    std::path::Path::new(root).join(file).to_string_lossy().into_owned()
}

/// Path of the invoice under the directory `root`.
pub fn read_pdf_path(root: &str) -> (r: String)
    ensures
        !is_verbatim(root@) ==> joined_under(r@, root@, PDF_FILE@),
{
    proof {
        reveal_strlit("order.pdf");
        assert(is_letter(PDF_FILE@[0]));
    }
    join_path(root, PDF_FILE)
}

/// Path of the table under the directory `root`.
pub fn write_csv_path(root: &str) -> (r: String)
    ensures
        !is_verbatim(root@) ==> joined_under(r@, root@, CSV_FILE@),
{
    proof {
        reveal_strlit("order.csv");
        assert(is_letter(CSV_FILE@[0]));
    }
    join_path(root, CSV_FILE)
}

} // verus!
