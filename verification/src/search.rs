//! The search passes over no run.
//!
//! After a unit that fails, the search begins anew one byte behind the start
//! of that unit and does not go back to the places that it has seen before.
//! This module shows that it loses nothing by that: no place within a run
//! starts a longer run than the run itself, so the search finds the first
//! place from which the minimum of units follow one another.

use crate::model::{
    character_len, lemma_run_bounds, lemma_unit_bounds, next_run, run_len, run_start, run_units,
    symbol_len, unit_len,
};
use crate::options::Options;
use crate::source::{composed, lemma_composed_one, symbol_value, window_at};
use crate::utils::{continuation, printable, swapped_16, swapped_32};
use vstd::prelude::*;

verus! {

/// Whether a run of at least `min_length` units starts at `position`.
pub open spec fn qualifies(
    input: Seq<u8>,
    options: Options,
    by_character: bool,
    position: int,
) -> bool {
    run_units(input, options, by_character, position) >= options.min_length
}

/// Two bytes spell the first of them above the second.
proof fn lemma_composed_two(bytes: Seq<u8>)
    requires
        bytes.len() == 2,
    ensures
        composed(bytes) == ((bytes[0] as u32) << 8) | (bytes[1] as u32),
{
    lemma_composed_one(bytes.drop_last());
}

/// Four bytes spell the number whose bytes they are, the first on top.
proof fn lemma_composed_four(bytes: Seq<u8>)
    requires
        bytes.len() == 4,
    ensures
        composed(bytes) == ((((((bytes[0] as u32) << 8) | (bytes[1] as u32)) << 8) | (
        bytes[2] as u32)) << 8) | (bytes[3] as u32),
{
    let three = bytes.drop_last();
    lemma_composed_two(three.drop_last());
    assert(composed(three) == (composed(three.drop_last()) << 8) | (three.last() as u32));
}

/// Of a printable symbol of two bytes, the byte that does not hold its value
/// is zero and the other is not; a window of two bytes that starts with its
/// second byte holds no printable symbol.
proof fn lemma_misaligned_16(b0: u8, b1: u8, x0: u8, options: Options)
    requires
        options.encoding.width() == 2,
        printable(
            symbol_value(seq![b0, b1], options.encoding) as int,
            options.encoding,
            options.include_all_whitespace,
        ),
    ensures
        !printable(
            symbol_value(seq![b1, x0], options.encoding) as int,
            options.encoding,
            options.include_all_whitespace,
        ),
{
    lemma_composed_two(seq![b0, b1]);
    lemma_composed_two(seq![b1, x0]);
    let value = ((b0 as u32) << 8) | (b1 as u32);
    let other = ((b1 as u32) << 8) | (x0 as u32);
    if options.encoding is LittleEndian16 {
        assert(swapped_16(value) <= 0xff && swapped_16(value) != 0 ==> b1 == 0 && b0 != 0)
            by (bit_vector)
            requires
                value == ((b0 as u32) << 8) | (b1 as u32),
        ;
        assert(b1 == 0 ==> swapped_16(other) == 0 || swapped_16(other) > 0xff) by (bit_vector)
            requires
                other == ((b1 as u32) << 8) | (x0 as u32),
        ;
    } else {
        assert(value <= 0xff && value != 0 ==> b1 != 0 && b0 == 0) by (bit_vector)
            requires
                value == ((b0 as u32) << 8) | (b1 as u32),
        ;
        assert(b1 != 0 ==> other > 0xff) by (bit_vector)
            requires
                other == ((b1 as u32) << 8) | (x0 as u32),
        ;
    }
}

/// The number that four bytes spell, the first on top.
spec fn four(b0: u8, b1: u8, b2: u8, b3: u8) -> u32 {
    ((((((b0 as u32) << 8) | (b1 as u32)) << 8) | (b2 as u32)) << 8) | (b3 as u32)
}

/// Of a printable symbol of four bytes, the three bytes that do not hold its
/// value are zero and the fourth is not; a window of four bytes that starts
/// within it holds no printable symbol.
proof fn lemma_misaligned_32(window: Seq<u8>, shift: int, options: Options)
    requires
        options.encoding.width() == 4,
        window.len() == 8,
        1 <= shift <= 3,
        printable(
            symbol_value(window.subrange(0, 4), options.encoding) as int,
            options.encoding,
            options.include_all_whitespace,
        ),
    ensures
        !printable(
            symbol_value(window.subrange(shift, shift + 4), options.encoding) as int,
            options.encoding,
            options.include_all_whitespace,
        ),
{
    let b0 = window[0];
    let b1 = window[1];
    let b2 = window[2];
    let b3 = window[3];
    let x0 = window[4];
    let x1 = window[5];
    let x2 = window[6];
    lemma_composed_four(window.subrange(0, 4));
    lemma_composed_four(window.subrange(shift, shift + 4));
    let value = four(b0, b1, b2, b3);
    assert(composed(window.subrange(0, 4)) == value);
    let one = four(b1, b2, b3, x0);
    let two = four(b2, b3, x0, x1);
    let three = four(b3, x0, x1, x2);
    if options.encoding is LittleEndian32 {
        assert(swapped_32(value) <= 0xff && swapped_32(value) != 0 ==> b1 == 0 && b2 == 0 && b3
            == 0) by (bit_vector)
            requires
                value == four(b0, b1, b2, b3),
        ;
        assert(b1 == 0 && b2 == 0 && b3 == 0 ==> swapped_32(one) == 0 || swapped_32(one) > 0xff)
            by (bit_vector)
            requires
                one == four(b1, b2, b3, x0),
        ;
        assert(b2 == 0 && b3 == 0 ==> swapped_32(two) == 0 || swapped_32(two) > 0xff)
            by (bit_vector)
            requires
                two == four(b2, b3, x0, x1),
        ;
        assert(b3 == 0 ==> swapped_32(three) == 0 || swapped_32(three) > 0xff) by (bit_vector)
            requires
                three == four(b3, x0, x1, x2),
        ;
    } else {
        assert(value <= 0xff && value != 0 ==> b3 != 0) by (bit_vector)
            requires
                value == four(b0, b1, b2, b3),
        ;
        assert(b3 != 0 ==> one > 0xff && two > 0xff && three > 0xff) by (bit_vector)
            requires
                one == four(b1, b2, b3, x0),
                two == four(b2, b3, x0, x1),
                three == four(b3, x0, x1, x2),
        ;
    }
}

/// No printable symbol stands at a place within a printable symbol, where
/// the input holds a whole symbol's width of bytes from that place on.
proof fn lemma_no_symbol_within_symbol(input: Seq<u8>, options: Options, start: int, within: int)
    requires
        symbol_len(input, options, start) == options.encoding.width(),
        start < within < start + options.encoding.width(),
        within + options.encoding.width() <= input.len(),
    ensures
        symbol_len(input, options, within) == 0,
{
    let width = options.encoding.width();
    let shift = within - start;
    let here = input.subrange(start, start + width);
    let there = input.subrange(within, within + width);
    if width == 2 {
        assert(here =~= seq![input[start], input[start + 1]]);
        assert(there =~= seq![input[start + 1], input[start + 2]]);
        lemma_misaligned_16(input[start], input[start + 1], input[start + 2], options);
    } else {
        let window = input.subrange(start, start + 8);
        if start + 8 <= input.len() {
            assert(window.subrange(0, 4) =~= here);
            assert(window.subrange(shift, shift + 4) =~= there);
            lemma_misaligned_32(window, shift, options);
        } else {
            let padded = input.subrange(start, input.len() as int) + Seq::new(
                (start + 8 - input.len()) as nat,
                |i: int| 0u8,
            );
            assert(padded.subrange(0, 4) =~= here);
            assert(padded.subrange(shift, shift + 4) =~= there);
            lemma_misaligned_32(padded, shift, options);
        }
    }
}

/// No character stands at a place within a multi-byte character.
proof fn lemma_no_character_within_character(
    input: Seq<u8>,
    options: Options,
    start: int,
    within: int,
)
    requires
        start < within < start + character_len(input, options, start),
    ensures
        character_len(input, options, within) == 0,
{
    let window = window_at(input, start);
    assert(continuation(window[within - start]));
    assert(window[within - start] == input[within]);
    let inner = window_at(input, within);
    assert(inner[0] == input[within]);
}

/// At most one unit follows a place within a unit: none where the input goes
/// on for the width of a symbol, and else at most the one that ends the
/// input.
proof fn lemma_one_unit_within_unit(
    input: Seq<u8>,
    options: Options,
    by_character: bool,
    start: int,
    within: int,
)
    requires
        start < within < start + unit_len(input, options, by_character, start),
    ensures
        run_units(input, options, by_character, within) <= 1,
{
    lemma_unit_bounds(input, options, by_character, start);
    if by_character {
        lemma_no_character_within_character(input, options, start, within);
    } else {
        let width = options.encoding.width();
        if within + width <= input.len() {
            lemma_no_symbol_within_symbol(input, options, start, within);
        } else {
            let length = symbol_len(input, options, within);
            if length > 0 {
                assert(within + length == input.len());
                assert(run_units(input, options, false, within + length) == 0);
            }
        }
    }
}

/// No place within a run starts a longer run than the run itself.
pub proof fn lemma_no_longer_run_within_run(
    input: Seq<u8>,
    options: Options,
    by_character: bool,
    start: int,
    within: int,
)
    requires
        start <= within <= start + run_len(input, options, by_character, start),
    ensures
        run_units(input, options, by_character, within) <= run_units(
            input,
            options,
            by_character,
            start,
        ),
    decreases input.len() - start,
{
    let length = unit_len(input, options, by_character, start);
    lemma_run_bounds(input, options, by_character, start);
    if within == start {
    } else if within < start + length {
        lemma_one_unit_within_unit(input, options, by_character, start, within);
        lemma_run_bounds(input, options, by_character, start + length);
    } else {
        lemma_run_bounds(input, options, by_character, start + length);
        lemma_no_longer_run_within_run(input, options, by_character, start + length, within);
    }
}

/// A search that has `found` units between `start` and `position`, and that
/// no run of the minimum begins before `start` from `origin` on, ends with
/// the first run of the minimum from `origin` on, or with `None` where there
/// is none.
proof fn lemma_search_finds_first(
    input: Seq<u8>,
    options: Options,
    by_character: bool,
    origin: int,
    start: int,
    position: int,
    found: int,
)
    requires
        0 <= origin <= start <= position,
        0 <= found <= options.min_length,
        position == start + run_len(input, options, by_character, start) - run_len(
            input,
            options,
            by_character,
            position,
        ),
        run_units(input, options, by_character, start) == found + run_units(
            input,
            options,
            by_character,
            position,
        ),
        forall|place: int|
            origin <= place < start ==> !#[trigger] qualifies(
                input,
                options,
                by_character,
                place,
            ),
    ensures
        match run_start(
            input,
            options,
            by_character,
            start,
            position,
            options.min_length - found,
        ) {
            Some(first) => {
                &&& origin <= first
                &&& qualifies(input, options, by_character, first)
                &&& forall|place: int|
                    origin <= place < first ==> !#[trigger] qualifies(
                        input,
                        options,
                        by_character,
                        place,
                    )
            },
            None => forall|place: int|
                origin <= place ==> !#[trigger] qualifies(input, options, by_character, place),
        },
    decreases input.len() - position,
{
    lemma_run_bounds(input, options, by_character, position);
    lemma_unit_bounds(input, options, by_character, position);
    let length = unit_len(input, options, by_character, position);
    if options.min_length - found <= 0 {
    } else if position >= input.len() {
        assert forall|place: int| origin <= place implies !#[trigger] qualifies(
            input,
            options,
            by_character,
            place,
        ) by {
            if place >= start {
                if place <= position {
                    lemma_no_longer_run_within_run(input, options, by_character, start, place);
                } else {
                    lemma_run_bounds(input, options, by_character, place);
                }
            }
        }
    } else if length > 0 {
        lemma_search_finds_first(
            input,
            options,
            by_character,
            origin,
            start,
            position + length,
            found + 1,
        );
    } else {
        assert forall|place: int| origin <= place < position + 1 implies !#[trigger] qualifies(
            input,
            options,
            by_character,
            place,
        ) by {
            if place >= start {
                lemma_no_longer_run_within_run(input, options, by_character, start, place);
            }
        }
        lemma_search_finds_first(
            input,
            options,
            by_character,
            origin,
            position + 1,
            position + 1,
            0,
        );
    }
}

/// Whether `found` is what a search from `origin` on owes: the first place
/// from there on at which a run of at least `min_length` units starts, and
/// `None` only where no such run starts from there on.
pub open spec fn is_first_run(
    input: Seq<u8>,
    options: Options,
    by_character: bool,
    origin: int,
    found: Option<int>,
) -> bool {
    match found {
        Some(first) => {
            &&& origin <= first
            &&& qualifies(input, options, by_character, first)
            &&& forall|place: int|
                origin <= place < first ==> !#[trigger] qualifies(
                    input,
                    options,
                    by_character,
                    place,
                )
        },
        None => forall|place: int|
            origin <= place ==> !#[trigger] qualifies(input, options, by_character, place),
    }
}

/// The search finds the first place from which at least `min_length` units
/// follow one another, and it ends with `None` only where there is no such
/// place: it passes over no run, whatever the width of the symbols.
pub proof fn lemma_search_passes_over_no_run(
    input: Seq<u8>,
    options: Options,
    by_character: bool,
    position: int,
)
    requires
        0 <= position,
    ensures
        is_first_run(
            input,
            options,
            by_character,
            position,
            next_run(input, options, by_character, position),
        ),
{
    lemma_search_finds_first(input, options, by_character, position, position, position, 0);
}

} // verus!
