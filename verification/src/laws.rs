//! What holds of every scan.
//!
//! Every run that a scan writes holds the minimum of units; the scan goes on
//! where a run ends; what it writes is the records of its runs; where the
//! output goes plays a part under one display alone.

use crate::model::{
    lemma_run_bounds, next_run, reads_characters, record_text, run_len, run_text, run_units,
    scan_text, strings_text, unit_len,
};
use crate::options::Options;
use crate::search::{is_first_run, lemma_search_passes_over_no_run};
use crate::source::{lemma_composed_one, symbol_at};
use crate::utils::printable;
use vstd::prelude::*;

verus! {

/// Every run that the scan finds holds at least `min_length` units: symbols
/// where it reads by symbol, characters where it reads by character.
pub proof fn lemma_run_has_minimum(
    input: Seq<u8>,
    options: Options,
    by_character: bool,
    position: int,
)
    requires
        0 <= position,
    ensures
        next_run(input, options, by_character, position) matches Some(start) ==> position
            <= start && run_units(input, options, by_character, start) >= options.min_length,
{
    lemma_search_passes_over_no_run(input, options, by_character, position);
}

/// The starts of the runs that a scan writes which begins at `position`,
/// in the order in which it writes them.
pub open spec fn scan_runs(
    input: Seq<u8>,
    options: Options,
    by_character: bool,
    position: int,
) -> Seq<int>
    decreases input.len() - position,
{
    match next_run(input, options, by_character, position) {
        Some(start) => {
            let end = start + run_len(input, options, by_character, start);
            if position < end <= input.len() {
                seq![start] + scan_runs(input, options, by_character, end)
            } else {
                Seq::empty()
            }
        },
        None => Seq::empty(),
    }
}

/// The records of `runs` one after the other, where `base` is the offset of
/// the first byte of the input.
pub open spec fn records_text(
    input: Seq<u8>,
    options: Options,
    by_character: bool,
    interactive: bool,
    filename: Seq<char>,
    base: int,
    runs: Seq<int>,
) -> Seq<u8>
    decreases runs.len(),
{
    if runs.len() == 0 {
        Seq::empty()
    } else {
        record_text(
            input,
            options,
            by_character,
            interactive,
            filename,
            base + runs[0],
            runs[0],
        ) + records_text(
            input,
            options,
            by_character,
            interactive,
            filename,
            base,
            runs.drop_first(),
        )
    }
}

/// What a scan writes is the records of its runs, in their order, each with
/// the offset of its first byte.
pub proof fn lemma_scan_writes_its_runs(
    input: Seq<u8>,
    options: Options,
    by_character: bool,
    interactive: bool,
    filename: Seq<char>,
    address: int,
    position: int,
)
    ensures
        scan_text(input, options, by_character, interactive, filename, address, position)
            == records_text(
            input,
            options,
            by_character,
            interactive,
            filename,
            address - position,
            scan_runs(input, options, by_character, position),
        ),
    decreases input.len() - position,
{
    if let Some(start) = next_run(input, options, by_character, position) {
        let end = start + run_len(input, options, by_character, start);
        if position < end <= input.len() {
            let rest = scan_runs(input, options, by_character, end);
            assert((seq![start] + rest).drop_first() =~= rest);
            lemma_scan_writes_its_runs(
                input,
                options,
                by_character,
                interactive,
                filename,
                address + (end - position),
                end,
            );
        }
    }
}

/// Every run that a scan writes holds at least `min_length` units, and lies
/// behind the place at which the scan began.
pub proof fn lemma_every_run_has_minimum(
    input: Seq<u8>,
    options: Options,
    by_character: bool,
    position: int,
    index: int,
)
    requires
        0 <= position,
        0 <= index < scan_runs(input, options, by_character, position).len(),
    ensures
        position <= scan_runs(input, options, by_character, position)[index],
        run_units(
            input,
            options,
            by_character,
            scan_runs(input, options, by_character, position)[index],
        ) >= options.min_length,
    decreases input.len() - position,
{
    lemma_run_has_minimum(input, options, by_character, position);
    let start = next_run(input, options, by_character, position)->0;
    let end = start + run_len(input, options, by_character, start);
    if index > 0 {
        lemma_every_run_has_minimum(input, options, by_character, end, index - 1);
    }
}

/// The offset of the start of a run and the number of bytes of its units
/// add up to the place at which the search for the next run begins: the run
/// that a scan writes after another is the first that the search finds from
/// the end of that other on.
pub proof fn lemma_scan_resumes_at_end_of_run(
    input: Seq<u8>,
    options: Options,
    by_character: bool,
    position: int,
    index: int,
)
    requires
        0 <= position,
        0 <= index,
        index + 1 < scan_runs(input, options, by_character, position).len(),
    ensures
        ({
            let runs = scan_runs(input, options, by_character, position);
            next_run(
                input,
                options,
                by_character,
                runs[index] + run_len(input, options, by_character, runs[index]),
            ) == Some(runs[index + 1])
        }),
    decreases input.len() - position,
{
    lemma_run_has_minimum(input, options, by_character, position);
    let start = next_run(input, options, by_character, position)->0;
    let end = start + run_len(input, options, by_character, start);
    if index > 0 {
        lemma_scan_resumes_at_end_of_run(input, options, by_character, end, index - 1);
    } else {
        let rest = scan_runs(input, options, by_character, end);
        assert(rest.len() > 0);
    }
}

/// Whether `runs` are, one after the other, the first run of at least
/// `min_length` units from `position` on, the first such run from the end of
/// that run on, and so forth, with no such run left behind the last of them.
pub open spec fn chained(
    input: Seq<u8>,
    options: Options,
    by_character: bool,
    position: int,
    runs: Seq<int>,
) -> bool
    decreases runs.len(),
{
    if runs.len() == 0 {
        is_first_run(input, options, by_character, position, None)
    } else {
        &&& is_first_run(input, options, by_character, position, Some(runs[0]))
        &&& chained(
            input,
            options,
            by_character,
            runs[0] + run_len(input, options, by_character, runs[0]),
            runs.drop_first(),
        )
    }
}

/// The runs that a scan writes are the first run from where it began, the
/// first run from the end of that run on, and so forth, until none is left:
/// the scan writes every run that it can, each of at least `min_length`
/// units, and goes on where the run before ended.
pub proof fn lemma_scan_runs_are_chained(
    input: Seq<u8>,
    options: Options,
    by_character: bool,
    position: int,
)
    requires
        0 <= position,
        options.min_length >= 1,
    ensures
        chained(
            input,
            options,
            by_character,
            position,
            scan_runs(input, options, by_character, position),
        ),
    decreases input.len() - position,
{
    lemma_search_passes_over_no_run(input, options, by_character, position);
    if let Some(start) = next_run(input, options, by_character, position) {
        let end = start + run_len(input, options, by_character, start);
        lemma_run_bounds(input, options, by_character, start);
        let rest = scan_runs(input, options, by_character, end);
        assert((seq![start] + rest).drop_first() =~= rest);
        lemma_scan_runs_are_chained(input, options, by_character, end);
    }
}

/// Whether `written` is the records of the runs of a scan that began at
/// `position`, of which `address` is the offset, these runs being the chain
/// of first runs from there on.
pub open spec fn scan_written(
    input: Seq<u8>,
    options: Options,
    by_character: bool,
    interactive: bool,
    filename: Seq<char>,
    address: int,
    position: int,
    written: Seq<u8>,
) -> bool {
    let runs = scan_runs(input, options, by_character, position);
    &&& chained(input, options, by_character, position, runs)
    &&& written == records_text(
        input,
        options,
        by_character,
        interactive,
        filename,
        address - position,
        runs,
    )
}

/// What a scan writes is the records of the chain of first runs.
pub proof fn lemma_scan_written(
    input: Seq<u8>,
    options: Options,
    by_character: bool,
    interactive: bool,
    filename: Seq<char>,
    address: int,
    position: int,
)
    requires
        0 <= position,
        options.min_length >= 1,
    ensures
        scan_written(
            input,
            options,
            by_character,
            interactive,
            filename,
            address,
            position,
            scan_text(input, options, by_character, interactive, filename, address, position),
        ),
{
    lemma_scan_runs_are_chained(input, options, by_character, position);
    lemma_scan_writes_its_runs(
        input,
        options,
        by_character,
        interactive,
        filename,
        address,
        position,
    );
}

/// Where the output goes plays a part under `Highlight` alone: under every
/// other display a run is written the same on a terminal and elsewhere.
pub proof fn lemma_run_ignores_terminal(
    input: Seq<u8>,
    options: Options,
    by_character: bool,
    position: int,
)
    requires
        !(options.unicode_display is Highlight),
    ensures
        run_text(input, options, by_character, true, position) == run_text(
            input,
            options,
            by_character,
            false,
            position,
        ),
    decreases input.len() - position,
{
    let length = unit_len(input, options, by_character, position);
    if 0 <= position < input.len() && length > 0 {
        lemma_run_ignores_terminal(input, options, by_character, position + length);
    }
}

/// Under every display but `Highlight` a scan writes the same on a terminal
/// and elsewhere. With that, what `print_strings` writes is fixed by the
/// input and the options under each of these displays, so that two scans of
/// the same bytes under the same options write the same.
pub proof fn lemma_scan_ignores_terminal(
    input: Seq<u8>,
    options: Options,
    filename: Seq<char>,
    address: int,
    position: int,
)
    requires
        !(options.unicode_display is Highlight),
    ensures
        strings_text(input, options, true, filename, address, position) == strings_text(
            input,
            options,
            false,
            filename,
            address,
            position,
        ),
    decreases input.len() - position,
{
    let by_character = reads_characters(options);
    if let Some(start) = next_run(input, options, by_character, position) {
        let end = start + run_len(input, options, by_character, start);
        if position < end <= input.len() {
            lemma_run_ignores_terminal(input, options, by_character, start);
            lemma_scan_ignores_terminal(
                input,
                options,
                filename,
                address + (end - position),
                end,
            );
        }
    }
}

/// A run of symbols is written with one byte for each symbol, and each of
/// these bytes is the value of a printable symbol.
pub proof fn lemma_symbol_run_text(
    input: Seq<u8>,
    options: Options,
    interactive: bool,
    position: int,
)
    ensures
        run_text(input, options, false, interactive, position).len() == run_units(
            input,
            options,
            false,
            position,
        ),
        forall|i: int|
            0 <= i < run_text(input, options, false, interactive, position).len() ==> printable(
                #[trigger] run_text(input, options, false, interactive, position)[i] as int,
                options.encoding,
                options.include_all_whitespace,
            ),
    decreases input.len() - position,
{
    let length = unit_len(input, options, false, position);
    if 0 <= position < input.len() && length > 0 {
        lemma_symbol_run_text(input, options, interactive, position + length);
        let symbol = symbol_at(input, position, options.encoding)->0;
        let value = symbol.0;
        assert(value as u8 == value);
    }
}

/// A run ends at the end of the input or at a place at which no unit stands.
pub proof fn lemma_run_ends_at_gap(
    input: Seq<u8>,
    options: Options,
    by_character: bool,
    position: int,
)
    ensures
        unit_len(
            input,
            options,
            by_character,
            position + run_len(input, options, by_character, position),
        ) == 0 || position + run_len(input, options, by_character, position) >= input.len(),
    decreases input.len() - position,
{
    let length = unit_len(input, options, by_character, position);
    if 0 <= position < input.len() && length > 0 {
        lemma_run_ends_at_gap(input, options, by_character, position + length);
    }
}

/// Under an encoding of one byte a run of symbols is written as it stands in
/// the input: its text is the bytes from its start to its end.
pub proof fn lemma_single_byte_run_is_slice(
    input: Seq<u8>,
    options: Options,
    interactive: bool,
    position: int,
)
    requires
        options.encoding.width() == 1,
        0 <= position <= input.len(),
    ensures
        run_len(input, options, false, position) == run_units(input, options, false, position),
        position + run_len(input, options, false, position) <= input.len(),
        run_text(input, options, false, interactive, position) == input.subrange(
            position,
            position + run_len(input, options, false, position),
        ),
    decreases input.len() - position,
{
    let length = unit_len(input, options, false, position);
    lemma_run_bounds(input, options, false, position);
    if position < input.len() && length > 0 {
        lemma_run_bounds(input, options, false, position + 1);
        lemma_single_byte_run_is_slice(input, options, interactive, position + 1);
        lemma_composed_one(input.subrange(position, position + 1));
        let rest = run_len(input, options, false, position + 1);
        assert(seq![input[position]] + input.subrange(position + 1, position + 1 + rest)
            =~= input.subrange(position, position + 1 + rest));
    } else {
        assert(input.subrange(position, position) =~= Seq::<u8>::empty());
    }
}

} // verus!
