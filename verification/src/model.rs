//! What a scan finds in an input, stated over the bytes of the input.
//!
//! An input is cut into printable units. Read by symbol, a unit is one
//! printable symbol of the configured encoding; read by character, it is one
//! printable byte of the ASCII range or one well-formed multi-byte UTF-8
//! character. A run is a stretch of units that follow one another without a
//! gap and reaches as far as units go on; the scan writes every run that
//! holds the configured minimum of units.

use crate::display::{display_text, prefix_text, separator_text};
use crate::options::Options;
use crate::source::{byte_at, symbol_at, window_at, SourceView};
use crate::utils::{printable, utf8_length};
use vstd::prelude::*;

verus! {

/// The number of bytes of the printable symbol at `position`, and 0 where
/// the symbol there is not printable or the input has ended.
pub open spec fn symbol_len(input: Seq<u8>, options: Options, position: int) -> int {
    match symbol_at(input, position, options.encoding) {
        Some((value, count)) => if printable(
            value as int,
            options.encoding,
            options.include_all_whitespace,
        ) {
            count as int
        } else {
            0
        },
        None => 0,
    }
}

/// What is written for the symbol at `position`: the low byte of its value.
pub open spec fn symbol_text(input: Seq<u8>, options: Options, position: int) -> Seq<u8> {
    match symbol_at(input, position, options.encoding) {
        Some((value, count)) => seq![value as u8],
        None => Seq::empty(),
    }
}

/// The number of bytes of the printable character at `position`: 1 for a
/// printable byte below `0x7f`; the length of the multi-byte character that
/// starts there, unless the display counts such characters as non-printable;
/// 0 where there is neither.
pub open spec fn character_len(input: Seq<u8>, options: Options, position: int) -> int {
    match byte_at(input, position) {
        Some(byte) => if !printable(
            byte as int,
            options.encoding,
            options.include_all_whitespace,
        ) {
            0
        } else if byte < 0x7f {
            1
        } else if options.unicode_display is Invalid {
            0
        } else {
            utf8_length(window_at(input, position))
        },
        None => 0,
    }
}

/// What is written for the character at `position`: the byte itself below
/// `0x7f`, else the rendering of the window of up to four bytes that starts
/// there.
pub open spec fn character_text(
    input: Seq<u8>,
    options: Options,
    interactive: bool,
    position: int,
) -> Seq<u8> {
    match byte_at(input, position) {
        Some(byte) => if byte < 0x7f {
            seq![byte]
        } else {
            display_text(window_at(input, position), options.unicode_display, interactive)
        },
        None => Seq::empty(),
    }
}

/// The number of bytes of the unit at `position`, or 0 where there is none.
pub open spec fn unit_len(
    input: Seq<u8>,
    options: Options,
    by_character: bool,
    position: int,
) -> int {
    if by_character {
        character_len(input, options, position)
    } else {
        symbol_len(input, options, position)
    }
}

/// What is written for the unit at `position`.
pub open spec fn unit_text(
    input: Seq<u8>,
    options: Options,
    by_character: bool,
    interactive: bool,
    position: int,
) -> Seq<u8> {
    if by_character {
        character_text(input, options, interactive, position)
    } else {
        symbol_text(input, options, position)
    }
}

/// The number of bytes from `position` to the first place at which no unit
/// stands, taking one unit after the other.
pub open spec fn run_len(
    input: Seq<u8>,
    options: Options,
    by_character: bool,
    position: int,
) -> int
    decreases input.len() - position,
{
    let length = unit_len(input, options, by_character, position);
    if 0 <= position < input.len() && length > 0 {
        length + run_len(input, options, by_character, position + length)
    } else {
        0
    }
}

/// The number of units from `position` to the first place at which no unit
/// stands.
pub open spec fn run_units(
    input: Seq<u8>,
    options: Options,
    by_character: bool,
    position: int,
) -> int
    decreases input.len() - position,
{
    let length = unit_len(input, options, by_character, position);
    if 0 <= position < input.len() && length > 0 {
        1 + run_units(input, options, by_character, position + length)
    } else {
        0
    }
}

/// What is written for the units from `position` to the first place at which
/// no unit stands.
pub open spec fn run_text(
    input: Seq<u8>,
    options: Options,
    by_character: bool,
    interactive: bool,
    position: int,
) -> Seq<u8>
    decreases input.len() - position,
{
    let length = unit_len(input, options, by_character, position);
    if 0 <= position < input.len() && length > 0 {
        unit_text(input, options, by_character, interactive, position) + run_text(
            input,
            options,
            by_character,
            interactive,
            position + length,
        )
    } else {
        Seq::empty()
    }
}

/// Where the search for a run arrives that has found the units between
/// `start` and `position` and looks for `need` more of them. A unit at
/// `position` is one more found. Where none stands there the search begins
/// anew with the byte behind `position`: one byte behind the start of the
/// unit that failed. It ends with the start of the run once nothing more is
/// needed, and with `None` at the end of the input.
pub open spec fn run_start(
    input: Seq<u8>,
    options: Options,
    by_character: bool,
    start: int,
    position: int,
    need: int,
) -> Option<int>
    decreases input.len() - position,
{
    if need <= 0 {
        Some(start)
    } else if position < 0 || position >= input.len() {
        None
    } else {
        let length = unit_len(input, options, by_character, position);
        if length > 0 {
            run_start(input, options, by_character, start, position + length, need - 1)
        } else {
            run_start(
                input,
                options,
                by_character,
                position + 1,
                position + 1,
                options.min_length as int,
            )
        }
    }
}

/// The start of the run of at least `min_length` units that the search
/// finds from `position` on. It is the first place from there on at which
/// such a run starts, as `search::lemma_search_passes_over_no_run` shows.
pub open spec fn next_run(
    input: Seq<u8>,
    options: Options,
    by_character: bool,
    position: int,
) -> Option<int> {
    run_start(input, options, by_character, position, position, options.min_length as int)
}

/// What is written for the run that starts at `start`, of which `address` is
/// the offset: the prefix, the units of the run, the separator.
pub open spec fn record_text(
    input: Seq<u8>,
    options: Options,
    by_character: bool,
    interactive: bool,
    filename: Seq<char>,
    address: int,
    start: int,
) -> Seq<u8> {
    prefix_text(filename, address, options) + run_text(
        input,
        options,
        by_character,
        interactive,
        start,
    ) + separator_text(options)
}

/// What a scan writes that begins at `position`, the offset of which is
/// `address`: the record of the next run, and then what the scan writes that
/// begins where that run ends.
pub open spec fn scan_text(
    input: Seq<u8>,
    options: Options,
    by_character: bool,
    interactive: bool,
    filename: Seq<char>,
    address: int,
    position: int,
) -> Seq<u8>
    decreases input.len() - position,
{
    match next_run(input, options, by_character, position) {
        Some(start) => {
            let end = start + run_len(input, options, by_character, start);
            if position < end <= input.len() {
                record_text(
                    input,
                    options,
                    by_character,
                    interactive,
                    filename,
                    address + (start - position),
                    start,
                ) + scan_text(
                    input,
                    options,
                    by_character,
                    interactive,
                    filename,
                    address + (end - position),
                    end,
                )
            } else {
                Seq::empty()
            }
        },
        None => Seq::empty(),
    }
}

/// Whether the scan reads by character: it does under every display but the
/// default one.
pub open spec fn reads_characters(options: Options) -> bool {
    !(options.unicode_display is Default)
}

/// What the scan of `input` from `position` on writes under `options`.
/// A scan by character asks for the 8-bit encoding and writes nothing under
/// another one.
pub open spec fn strings_text(
    input: Seq<u8>,
    options: Options,
    interactive: bool,
    filename: Seq<char>,
    address: int,
    position: int,
) -> Seq<u8> {
    if reads_characters(options) && !(options.encoding is Bit8) {
        Seq::empty()
    } else {
        scan_text(
            input,
            options,
            reads_characters(options),
            interactive,
            filename,
            address,
            position,
        )
    }
}

/// What a scan needs of the state of its source and of the offset of the
/// cursor: a minimum of one unit at least, offsets that fit in 64 bits up to
/// the end of the input and, where it reads by character, distances that fit
/// in a `usize` and a source that keeps four bytes for each character of
/// the minimum within reach.
pub open spec fn scannable(view: SourceView, options: Options, address: int) -> bool {
    &&& options.min_length >= 1
    &&& address + (view.limit - view.cursor) <= u64::MAX
    &&& reads_characters(options) ==> {
        &&& view.limit - view.cursor <= usize::MAX
        &&& view.keep matches Some(k) ==> 4 * options.min_length <= k
    }
}

/// Whether the run that starts at `start` goes on at `position`, after
/// `count` units for which `text` is written.
pub open spec fn run_continues(
    input: Seq<u8>,
    options: Options,
    by_character: bool,
    interactive: bool,
    start: int,
    text: Seq<u8>,
    count: int,
    position: int,
) -> bool {
    &&& 0 <= start <= position <= input.len()
    &&& run_len(input, options, by_character, start) == (position - start) + run_len(
        input,
        options,
        by_character,
        position,
    )
    &&& run_units(input, options, by_character, start) == count + run_units(
        input,
        options,
        by_character,
        position,
    )
    &&& run_text(input, options, by_character, interactive, start) == text + run_text(
        input,
        options,
        by_character,
        interactive,
        position,
    )
}

/// Whether a search that began at `origin` finds what the search finds that
/// has `found` units between `start` and `position`.
pub open spec fn search_continues(
    input: Seq<u8>,
    options: Options,
    by_character: bool,
    origin: int,
    start: int,
    position: int,
    found: int,
) -> bool {
    next_run(input, options, by_character, origin) == run_start(
        input,
        options,
        by_character,
        start,
        position,
        options.min_length - found,
    )
}

/// Whether `result`, `after` and `cursor` are what one step of the scan
/// leaves that began at `position` with `before` written: after the record
/// of the next run the scan stands at the end of that run and `result` is
/// the offset of that place; where no run is left nothing is written.
pub open spec fn step_result(
    input: Seq<u8>,
    options: Options,
    by_character: bool,
    interactive: bool,
    filename: Seq<char>,
    address: int,
    position: int,
    result: Option<u64>,
    before: Seq<u8>,
    after: Seq<u8>,
    cursor: int,
) -> bool {
    match next_run(input, options, by_character, position) {
        Some(start) => {
            let end = start + run_len(input, options, by_character, start);
            &&& position <= start <= end <= input.len()
            &&& result == Some((address + (end - position)) as u64)
            &&& cursor == end
            &&& after == before + record_text(
                input,
                options,
                by_character,
                interactive,
                filename,
                address + (start - position),
                start,
            )
        },
        None => result is None && after == before,
    }
}

/// A unit is at most four bytes long and lies within the input.
pub proof fn lemma_unit_bounds(
    input: Seq<u8>,
    options: Options,
    by_character: bool,
    position: int,
)
    ensures
        0 <= unit_len(input, options, by_character, position) <= 4,
        unit_len(input, options, by_character, position) > 0 ==> 0 <= position && position
            + unit_len(input, options, by_character, position) <= input.len(),
{
}

/// A run lies within the input.
pub proof fn lemma_run_bounds(
    input: Seq<u8>,
    options: Options,
    by_character: bool,
    position: int,
)
    ensures
        0 <= run_units(input, options, by_character, position) <= run_len(
            input,
            options,
            by_character,
            position,
        ),
        0 <= position <= input.len() ==> position + run_len(
            input,
            options,
            by_character,
            position,
        ) <= input.len(),
        run_len(input, options, by_character, position) > 0 ==> 0 <= position < input.len(),
    decreases input.len() - position,
{
    let length = unit_len(input, options, by_character, position);
    lemma_unit_bounds(input, options, by_character, position);
    if 0 <= position < input.len() && length > 0 {
        lemma_run_bounds(input, options, by_character, position + length);
    }
}

/// What is written for a run of symbols does not depend on where the
/// output goes.
pub proof fn lemma_symbols_ignore_terminal(
    input: Seq<u8>,
    options: Options,
    interactive: bool,
    position: int,
)
    ensures
        run_text(input, options, false, interactive, position) == run_text(
            input,
            options,
            false,
            false,
            position,
        ),
    decreases input.len() - position,
{
    let length = unit_len(input, options, false, position);
    if 0 <= position < input.len() && length > 0 {
        lemma_symbols_ignore_terminal(input, options, interactive, position + length);
    }
}

/// A run that has gone on to a place at which no unit stands ends there,
/// and what has been written for it is its whole text.
pub proof fn lemma_run_complete(
    input: Seq<u8>,
    options: Options,
    by_character: bool,
    interactive: bool,
    start: int,
    text: Seq<u8>,
    count: int,
    position: int,
)
    requires
        run_continues(input, options, by_character, interactive, start, text, count, position),
        unit_len(input, options, by_character, position) == 0 || position >= input.len(),
    ensures
        start + run_len(input, options, by_character, start) == position,
        run_units(input, options, by_character, start) == count,
        run_text(input, options, by_character, interactive, start) == text,
{
    assert(text + run_text(input, options, by_character, interactive, position) =~= text);
}

/// One step of a scan adds the record of the next run to what the rest of
/// the scan writes.
pub proof fn lemma_scan_step(
    input: Seq<u8>,
    options: Options,
    by_character: bool,
    interactive: bool,
    filename: Seq<char>,
    address: int,
    position: int,
    result: Option<u64>,
    before: Seq<u8>,
    after: Seq<u8>,
    cursor: int,
)
    requires
        step_result(
            input,
            options,
            by_character,
            interactive,
            filename,
            address,
            position,
            result,
            before,
            after,
            cursor,
        ),
        result is Some ==> position < cursor,
    ensures
        before + scan_text(
            input,
            options,
            by_character,
            interactive,
            filename,
            address,
            position,
        ) == after + match result {
            Some(next) => scan_text(
                input,
                options,
                by_character,
                interactive,
                filename,
                address + (cursor - position),
                cursor,
            ),
            None => Seq::empty(),
        },
{
    let whole = scan_text(input, options, by_character, interactive, filename, address, position);
    match next_run(input, options, by_character, position) {
        Some(start) => {
            let rest = scan_text(
                input,
                options,
                by_character,
                interactive,
                filename,
                address + (cursor - position),
                cursor,
            );
            let record = record_text(
                input,
                options,
                by_character,
                interactive,
                filename,
                address + (start - position),
                start,
            );
            assert(whole == record + rest);
            assert(before + (record + rest) =~= (before + record) + rest);
        },
        None => {
            assert(before + whole =~= after + Seq::<u8>::empty());
        },
    }
}

} // verus!
