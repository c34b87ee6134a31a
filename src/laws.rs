//! Properties of the recognizer over whole line sequences.
use crate::card::{built, empty_builder, BuilderModel, CardModel};
use crate::parser::{
    fill, parse_lines, parse_text, run_from, terminal_accepted, without_char, step, tokenize, initial_state, StateModel, CLOSE_MARKER,
    OPEN_MARKER,
};
use crate::number::{decimal_of, int_of};
use crate::text::{contains, join_on, lemma_split_contains, lemma_split_join, lines_free_of, split_on};
use vstd::prelude::*;

verus! {

/// A line that holds neither marker.
pub open spec fn marker_free(line: Seq<char>) -> bool {
    !contains(line, OPEN_MARKER@) && !contains(line, CLOSE_MARKER@)
}

/// Nine lines without markers whose last one tokenizes to an accepted price
/// and quantity.
pub open spec fn well_formed_block(block: Seq<Seq<char>>) -> bool {
    &&& block.len() == 9
    &&& forall|i: int| 0 <= i < 9 ==> marker_free(#[trigger] block[i])
    &&& terminal_accepted(tokenize(block[8]))
}

/// The card that a well-formed block describes.
pub open spec fn block_card(block: Seq<Seq<char>>) -> CardModel {
    CardModel {
        name: block[1],
        edition: block[3],
        vendor: block[5],
        rarity: block[6],
        condition: tokenize(block[8]).0,
        price: tokenize(block[8]).1->0,
        quantity: tokenize(block[8]).2->0,
    }
}

/// The blocks one after another.
pub open spec fn concat_blocks(blocks: Seq<Seq<Seq<char>>>) -> Seq<Seq<char>>
    decreases blocks.len(),
{
    if blocks.len() == 0 {
        Seq::empty()
    } else {
        concat_blocks(blocks.drop_last()) + blocks.last()
    }
}

/// The builder after the first `k` lines of a block.
pub open spec fn partial(b: BuilderModel, block: Seq<Seq<char>>, k: int) -> BuilderModel
    decreases k,
{
    if k <= 0 {
        b
    } else {
        fill(partial(b, block, k - 1), k, block[k - 1])
    }
}

/// Running over `a + b` is running over `a`, then over `b` from where `a` ended.
pub proof fn lemma_run_append(s: StateModel, a: Seq<Seq<char>>, b: Seq<Seq<char>>)
    ensures
        run_from(s, a + b).0 == run_from(run_from(s, a).0, b).0,
        run_from(s, a + b).1 == run_from(s, a).1 + run_from(run_from(s, a).0, b).1,
    decreases b.len(),
{
    if b.len() == 0 {
        assert(a + b =~= a);
        assert(run_from(s, a).1 + Seq::<CardModel>::empty() =~= run_from(s, a).1);
    } else {
        lemma_run_append(s, a, b.drop_last());
        assert((a + b).drop_last() =~= a + b.drop_last());
        assert((a + b).last() == b.last());
        let mid = run_from(s, a);
        let rest = run_from(mid.0, b.drop_last());
        let nxt = step(rest.0, b.last());
        match nxt.1 {
            Some(c) => {
                assert(mid.1 + rest.1.push(c) =~= (mid.1 + rest.1).push(c));
            },
            None => {},
        }
    }
}

/// From a closed region, lines without the open marker keep it closed and
/// complete no card.
pub proof fn lemma_closed_stays_closed(s: StateModel, lines: Seq<Seq<char>>)
    requires
        !s.active,
        forall|i: int| 0 <= i < lines.len() ==> !contains(#[trigger] lines[i], OPEN_MARKER@),
    ensures
        run_from(s, lines).0 == s,
        run_from(s, lines).1 == Seq::<CardModel>::empty(),
    decreases lines.len(),
{
    if lines.len() > 0 {
        let p = lines.drop_last();
        assert forall|i: int| 0 <= i < p.len() implies !contains(#[trigger] p[i], OPEN_MARKER@) by {
            assert(p[i] == lines[i]);
        }
        lemma_closed_stays_closed(s, p);
        assert(!contains(lines[lines.len() - 1], OPEN_MARKER@));
    }
}

/// A text none of whose lines holds the open marker yields no card.
pub proof fn law_no_open_marker(lines: Seq<Seq<char>>)
    requires
        forall|i: int| 0 <= i < lines.len() ==> !contains(#[trigger] lines[i], OPEN_MARKER@),
    ensures
        parse_lines(lines) == Seq::<CardModel>::empty(),
{
    lemma_closed_stays_closed(initial_state(), lines);
}

/// A document whose text does not hold the open marker yields no card.
pub proof fn law_no_open_marker_text(text: Seq<char>)
    requires
        !contains(text, OPEN_MARKER@),
    ensures
        parse_text(text) == Seq::<CardModel>::empty(),
{
    let lines = split_on(text, '\n');
    assert forall|i: int| 0 <= i < lines.len() implies !contains(
        #[trigger] lines[i],
        OPEN_MARKER@,
    ) by {
        if contains(lines[i], OPEN_MARKER@) {
            lemma_split_contains(text, '\n', OPEN_MARKER@, i);
        }
    }
    law_no_open_marker(lines);
}

proof fn lemma_block_prefix(s: StateModel, block: Seq<Seq<char>>, k: int)
    requires
        s.active,
        s.position == 1,
        block.len() == 9,
        forall|i: int| 0 <= i < 8 ==> marker_free(#[trigger] block[i]),
        0 <= k <= 8,
    ensures
        run_from(s, block.take(k)) == (StateModel {
            active: true,
            position: k + 1,
            builder: partial(s.builder, block, k),
        }, Seq::<CardModel>::empty()),
    decreases k,
{
    if k == 0 {
        assert(block.take(0) =~= Seq::<Seq<char>>::empty());
    } else {
        lemma_block_prefix(s, block, k - 1);
        assert(block.take(k).drop_last() =~= block.take(k - 1));
        assert(block.take(k).last() == block[k - 1]);
        assert(marker_free(block[k - 1]));
    }
}

/// From the start of a block inside an open region, a well-formed block
/// completes exactly its card and leaves the next block's start.
pub proof fn lemma_block(s: StateModel, block: Seq<Seq<char>>)
    requires
        s.active,
        s.position == 1,
        well_formed_block(block),
    ensures
        run_from(s, block) == (StateModel {
            active: true,
            position: 1,
            builder: empty_builder(),
        }, seq![block_card(block)]),
{
    assert forall|i: int| 0 <= i < 8 implies marker_free(#[trigger] block[i]) by {
        assert(marker_free(block[i]));
    }
    lemma_block_prefix(s, block, 8);
    assert(block.drop_last() =~= block.take(8));
    assert(marker_free(block[8]));
    reveal_with_fuel(partial, 9);
    let t = tokenize(block[8]);
    let b = partial(s.builder, block, 8);
    assert(built(
        BuilderModel { condition: Some(t.0), price: Some(t.1->0), quantity: Some(t.2->0), ..b },
    ) == block_card(block));
    assert(Seq::<CardModel>::empty().push(block_card(block)) =~= seq![block_card(block)]);
}

/// Consecutive well-formed blocks, from a block start inside an open region,
/// complete their cards in block order.
pub proof fn lemma_blocks(s: StateModel, blocks: Seq<Seq<Seq<char>>>)
    requires
        s.active,
        s.position == 1,
        forall|i: int| 0 <= i < blocks.len() ==> well_formed_block(#[trigger] blocks[i]),
    ensures
        run_from(s, concat_blocks(blocks)).0.active,
        run_from(s, concat_blocks(blocks)).0.position == 1,
        run_from(s, concat_blocks(blocks)).1 == blocks.map_values(|b: Seq<Seq<char>>| block_card(b)),
    decreases blocks.len(),
{
    if blocks.len() == 0 {
        assert(blocks.map_values(|b: Seq<Seq<char>>| block_card(b)) =~= Seq::<CardModel>::empty());
    } else {
        let p = blocks.drop_last();
        assert forall|i: int| 0 <= i < p.len() implies well_formed_block(#[trigger] p[i]) by {
            assert(p[i] == blocks[i]);
        }
        lemma_blocks(s, p);
        let mid = run_from(s, concat_blocks(p));
        lemma_run_append(s, concat_blocks(p), blocks.last());
        assert(well_formed_block(blocks[blocks.len() - 1]));
        lemma_block(mid.0, blocks.last());
        assert(blocks.map_values(|b: Seq<Seq<char>>| block_card(b)) =~= p.map_values(
            |b: Seq<Seq<char>>| block_card(b),
        ) + seq![block_card(blocks.last())]);
    }
}

/// A line with the open marker, then one well-formed block: exactly one card,
/// whose name, edition, vendor and rarity are the block's second, fourth,
/// sixth and seventh lines, and whose condition, price and quantity are what
/// the block's last line tokenizes to.
pub proof fn law_single_block(open_line: Seq<char>, block: Seq<Seq<char>>)
    requires
        contains(open_line, OPEN_MARKER@),
        well_formed_block(block),
    ensures
        parse_lines(seq![open_line] + block).len() == 1,
        parse_lines(seq![open_line] + block)[0].name == block[1],
        parse_lines(seq![open_line] + block)[0].edition == block[3],
        parse_lines(seq![open_line] + block)[0].vendor == block[5],
        parse_lines(seq![open_line] + block)[0].rarity == block[6],
        parse_lines(seq![open_line] + block)[0].condition == tokenize(block[8]).0,
        Some(parse_lines(seq![open_line] + block)[0].price) == tokenize(block[8]).1,
        Some(parse_lines(seq![open_line] + block)[0].quantity) == tokenize(block[8]).2,
{
    let first = seq![open_line];
    lemma_run_append(initial_state(), first, block);
    assert(first.drop_last() =~= Seq::<Seq<char>>::empty());
    assert(first.last() == open_line);
    assert(run_from(initial_state(), first.drop_last()) == (initial_state(), Seq::<CardModel>::empty()));
    let s = run_from(initial_state(), first);
    assert(s.0.active && s.0.position == 1);
    lemma_block(s.0, block);
    assert(Seq::<CardModel>::empty() + seq![block_card(block)] =~= seq![block_card(block)]);
}

/// Well-formed blocks between a line with the open marker and a line with the
/// close marker yield one card per block, in block order; the region is then
/// closed unless the last line also holds the open marker.
pub proof fn law_blocks_between_markers(
    open_line: Seq<char>,
    blocks: Seq<Seq<Seq<char>>>,
    close_line: Seq<char>,
)
    requires
        contains(open_line, OPEN_MARKER@),
        contains(close_line, CLOSE_MARKER@),
        forall|i: int| 0 <= i < blocks.len() ==> well_formed_block(#[trigger] blocks[i]),
    ensures
        parse_lines(seq![open_line] + concat_blocks(blocks) + seq![close_line])
            == blocks.map_values(|b: Seq<Seq<char>>| block_card(b)),
        !contains(close_line, OPEN_MARKER@) ==> !run_from(
            initial_state(),
            seq![open_line] + concat_blocks(blocks) + seq![close_line],
        ).0.active,
{
    let first = seq![open_line];
    let last = seq![close_line];
    let body = concat_blocks(blocks);
    lemma_run_append(initial_state(), first, body);
    lemma_run_append(initial_state(), first + body, last);
    assert(first.drop_last() =~= Seq::<Seq<char>>::empty());
    assert(first.last() == open_line);
    assert(run_from(initial_state(), first.drop_last()) == (initial_state(), Seq::<CardModel>::empty()));
    let s = run_from(initial_state(), first);
    assert(s.0.active && s.0.position == 1);
    assert(s.1 =~= Seq::<CardModel>::empty());
    lemma_blocks(s.0, blocks);
    assert(last.drop_last() =~= Seq::<Seq<char>>::empty());
    assert(last.last() == close_line);
    let before = run_from(initial_state(), first + body);
    assert(run_from(before.0, last.drop_last()) == (before.0, Seq::<CardModel>::empty()));
    assert(run_from(before.0, last).1 =~= Seq::<CardModel>::empty());
    assert(Seq::<CardModel>::empty() + blocks.map_values(|b: Seq<Seq<char>>| block_card(b))
        =~= blocks.map_values(|b: Seq<Seq<char>>| block_card(b)));
    assert(blocks.map_values(|b: Seq<Seq<char>>| block_card(b)) + Seq::<CardModel>::empty()
        =~= blocks.map_values(|b: Seq<Seq<char>>| block_card(b)));
}

/// Inside an open region, a block whose last line does not tokenize to an
/// accepted price and quantity yields no card and closes the region: later blocks
/// yield nothing until a line holds the open marker again.
pub proof fn law_malformed_block_closes_region(
    s: StateModel,
    block: Seq<Seq<char>>,
    rest: Seq<Seq<char>>,
)
    requires
        s.active,
        s.position == 1,
        block.len() == 9,
        forall|i: int| 0 <= i < 8 ==> marker_free(#[trigger] block[i]),
        !terminal_accepted(tokenize(block[8])),
        forall|i: int| 0 <= i < rest.len() ==> !contains(#[trigger] rest[i], OPEN_MARKER@),
    ensures
        run_from(s, block + rest).1 == Seq::<CardModel>::empty(),
        !run_from(s, block + rest).0.active,
{
    lemma_block_prefix(s, block, 8);
    assert(block.drop_last() =~= block.take(8));
    lemma_run_append(s, block, rest);
    let after = run_from(s, block);
    assert(!after.0.active);
    assert(after.1 =~= Seq::<CardModel>::empty());
    lemma_closed_stays_closed(after.0, rest);
    assert(Seq::<CardModel>::empty() + Seq::<CardModel>::empty() =~= Seq::<CardModel>::empty());
}

/// A terminal line of at most two space-separated tokens takes both its
/// price and its quantity from the first token, and has an empty condition.
pub proof fn law_short_terminal_line(line: Seq<char>)
    requires
        split_on(line, ' ').len() <= 2,
    ensures
        tokenize(line).0 == Seq::<char>::empty(),
        tokenize(line).1 == decimal_of(without_char(split_on(line, ' ')[0], '$')),
        tokenize(line).2 == int_of(split_on(line, ' ')[0]),
{
}

/// Lines without the open marker, a line with it, then one well-formed
/// block, joined by `\n`: exactly the block's card.
pub proof fn law_single_block_text(pre: Seq<Seq<char>>, open_line: Seq<char>, block: Seq<Seq<char>>)
    requires
        lines_free_of(pre + seq![open_line] + block, '\n'),
        forall|i: int| 0 <= i < pre.len() ==> !contains(#[trigger] pre[i], OPEN_MARKER@),
        contains(open_line, OPEN_MARKER@),
        well_formed_block(block),
    ensures
        parse_text(join_on(pre + seq![open_line] + block, '\n')) == seq![block_card(block)],
{
    let all = pre + seq![open_line] + block;
    lemma_split_join(all, '\n');
    let tail = seq![open_line] + block;
    assert(all =~= pre + tail);
    lemma_closed_stays_closed(initial_state(), pre);
    lemma_run_append(initial_state(), pre, tail);
    law_single_block(open_line, block);
    assert(Seq::<CardModel>::empty() + seq![block_card(block)] =~= seq![block_card(block)]);
}

/// A line with the open marker, well-formed blocks, a line with the close
/// marker but not the open one, then lines without the open marker, joined by
/// `\n`: one card per block, in block order, and nothing from the last lines.
pub proof fn law_blocks_text(
    open_line: Seq<char>,
    blocks: Seq<Seq<Seq<char>>>,
    close_line: Seq<char>,
    rest: Seq<Seq<char>>,
)
    requires
        lines_free_of(
            seq![open_line] + concat_blocks(blocks) + seq![close_line] + rest,
            '\n',
        ),
        contains(open_line, OPEN_MARKER@),
        contains(close_line, CLOSE_MARKER@),
        !contains(close_line, OPEN_MARKER@),
        forall|i: int| 0 <= i < blocks.len() ==> well_formed_block(#[trigger] blocks[i]),
        forall|i: int| 0 <= i < rest.len() ==> !contains(#[trigger] rest[i], OPEN_MARKER@),
    ensures
        parse_text(join_on(seq![open_line] + concat_blocks(blocks) + seq![close_line] + rest, '\n'))
            == blocks.map_values(|b: Seq<Seq<char>>| block_card(b)),
{
    let head = seq![open_line] + concat_blocks(blocks) + seq![close_line];
    let all = head + rest;
    assert(all.len() >= 1);
    lemma_split_join(all, '\n');
    law_blocks_between_markers(open_line, blocks, close_line);
    lemma_run_append(initial_state(), head, rest);
    lemma_closed_stays_closed(run_from(initial_state(), head).0, rest);
    assert(blocks.map_values(|b: Seq<Seq<char>>| block_card(b)) + Seq::<CardModel>::empty()
        =~= blocks.map_values(|b: Seq<Seq<char>>| block_card(b)));
}

/// A line with the open marker, well-formed blocks, a block of marker-free
/// lines whose last line is not accepted, then lines without the open marker,
/// joined by `\n`: the cards of the well-formed blocks only; the failed block
/// closes the region, so the last lines add nothing.
pub proof fn law_malformed_block_text(
    open_line: Seq<char>,
    blocks: Seq<Seq<Seq<char>>>,
    bad: Seq<Seq<char>>,
    rest: Seq<Seq<char>>,
)
    requires
        lines_free_of(seq![open_line] + concat_blocks(blocks) + bad + rest, '\n'),
        contains(open_line, OPEN_MARKER@),
        forall|i: int| 0 <= i < blocks.len() ==> well_formed_block(#[trigger] blocks[i]),
        bad.len() == 9,
        forall|i: int| 0 <= i < 8 ==> marker_free(#[trigger] bad[i]),
        !terminal_accepted(tokenize(bad[8])),
        forall|i: int| 0 <= i < rest.len() ==> !contains(#[trigger] rest[i], OPEN_MARKER@),
    ensures
        parse_text(join_on(seq![open_line] + concat_blocks(blocks) + bad + rest, '\n'))
            == blocks.map_values(|b: Seq<Seq<char>>| block_card(b)),
{
    let first = seq![open_line];
    let head = first + concat_blocks(blocks);
    let all = head + bad + rest;
    lemma_split_join(all, '\n');
    assert(all =~= head + (bad + rest));
    lemma_run_append(initial_state(), first, concat_blocks(blocks));
    assert(first.drop_last() =~= Seq::<Seq<char>>::empty());
    assert(first.last() == open_line);
    assert(run_from(initial_state(), first.drop_last()) == (initial_state(), Seq::<CardModel>::empty()));
    let s = run_from(initial_state(), first);
    assert(s.0.active && s.0.position == 1);
    assert(s.1 =~= Seq::<CardModel>::empty());
    lemma_blocks(s.0, blocks);
    let mid = run_from(initial_state(), head);
    law_malformed_block_closes_region(mid.0, bad, rest);
    lemma_run_append(initial_state(), head, bad + rest);
    assert(Seq::<CardModel>::empty() + blocks.map_values(|b: Seq<Seq<char>>| block_card(b))
        =~= blocks.map_values(|b: Seq<Seq<char>>| block_card(b)));
    assert(blocks.map_values(|b: Seq<Seq<char>>| block_card(b)) + Seq::<CardModel>::empty()
        =~= blocks.map_values(|b: Seq<Seq<char>>| block_card(b)));
}

} // verus!
