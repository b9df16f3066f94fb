//! The scan by character: runs of printable bytes and multi-byte UTF-8
//! characters, each of which counts as one unit.

use crate::display::{
    append_separator, display_text, print_filename_and_address, render_utf8_char,
    rendered_length,
};
use crate::laws::{lemma_run_has_minimum, lemma_scan_written, scan_written};
use crate::model::{
    character_len, lemma_run_bounds, lemma_run_complete, lemma_scan_step, next_run,
    record_text, run_continues, run_text, scan_text, search_continues, step_result, unit_len,
    unit_text,
};
use crate::options::{EncodingKind, Options, UnicodeDisplayKind};
use crate::search::{is_first_run, lemma_search_passes_over_no_run};
use crate::source::{
    byte_at, lemma_admits_earlier, lemma_admits_seen, lemma_leads_on, lemma_read_settles,
    window_at, DataSource,
};
use crate::utils::{char_is_printable, declared_length, is_valid_utf8};
use vstd::prelude::*;

verus! {

/// What stands at a place of an input that is read by character.
pub enum Unit {
    /// No printable unit.
    Gap,
    /// A printable byte below `0x7f`.
    Byte(u8),
    /// A multi-byte character of `length` bytes, at the front of the window
    /// of up to four bytes that was read there.
    Character { window: Vec<u8>, length: u8 },
}

impl Unit {
    /// The number of bytes of the unit, and 0 where there is none.
    pub open spec fn len(self) -> int {
        match self {
            Unit::Gap => 0,
            Unit::Byte(_) => 1,
            Unit::Character { window, length } => length as int,
        }
    }

    /// Whether this is what stands at `position` in `input`.
    pub open spec fn stands_at(self, input: Seq<u8>, options: Options, position: int) -> bool {
        &&& character_len(input, options, position) == self.len()
        &&& match self {
            Unit::Gap => true,
            Unit::Byte(byte) => byte < 0x7f && byte_at(input, position) == Some(byte),
            Unit::Character { window, length } => {
                &&& 2 <= length <= window@.len()
                &&& window@ == window_at(input, position)
                &&& window@[0] >= 0x7f
            },
        }
    }
}

/// For a lead byte the formatter takes the length that the byte declares.
pub proof fn lemma_rendered_length(lead: u8)
    requires
        lead >= 0xc0,
    ensures
        rendered_length(lead) == declared_length(lead),
{
    assert(lead >= 0xc0 ==> ((lead & 0x30 == 0x30) <==> lead >= 0xf0)) by (bit_vector);
    assert(lead >= 0xc0 ==> ((lead & 0x30 == 0x20) <==> 0xe0 <= lead < 0xf0)) by (bit_vector);
}

/// Reads what stands at the cursor, and `None` where the input has ended
/// there. The cursor is left behind the unit that was read, and one byte
/// further on where no unit stands there.
pub fn read_character<D: DataSource>(data: &mut D, options: &Options) -> (r: Option<Unit>)
    requires
        old(data).inv(),
    ensures
        final(data).inv(),
        old(data)@.leads_to(final(data)@),
        final(data)@.floor == old(data)@.floor || (old(data)@.keep matches Some(k)
            && final(data)@.floor + k <= old(data)@.cursor + 4),
        match r {
            Some(unit) => {
                &&& old(data)@.cursor < final(data)@.seen.len()
                &&& final(data)@.cursor == old(data)@.cursor + if unit.len() > 0 {
                    unit.len()
                } else {
                    1int
                }
                &&& forall|input: Seq<u8>| #[trigger]
                    final(data)@.admits(input) ==> unit.stands_at(
                        input,
                        *options,
                        old(data)@.cursor,
                    )
            },
            None => final(data)@.ended && final(data)@.cursor == old(data)@.cursor
                == final(data)@.seen.len(),
        },
{
    let ghost before = data@;
    proof {
        data.lemma_inv();
    }
    let c: u8 = match data.read_byte() {
        Some(c) => c,
        None => {
            return None;
        },
    };
    let ghost first = data@;
    proof {
        assert forall|input: Seq<u8>| #[trigger] first.admits(input) implies byte_at(
            input,
            before.cursor,
        ) == Some(c) by {
            lemma_read_settles(before, first, 1, input);
            assert(input.subrange(before.cursor, before.cursor + 1)[0] == first.seen.subrange(
                before.cursor,
                before.cursor + 1,
            )[0]);
        }
    }
    if !char_is_printable(c as char, options.encoding, options.include_all_whitespace) || (0x7f
        <= c && c < 0xc0) {
        return Some(Unit::Gap);
    }
    if c < 0x7f {
        return Some(Unit::Byte(c));
    }
    data.seek_back(1);
    let ghost again = data@;
    let window = data.read_unicode().unwrap();
    let ghost second = data@;
    let length: u8 = is_valid_utf8(window.as_slice());
    let taken: u8 = window.len() as u8;
    let gap: bool = length == 0 || matches!(options.unicode_display, UnicodeDisplayKind::Invalid);
    if gap {
        data.seek_back(taken - 1);
    } else {
        data.seek_back(taken - length);
    }
    proof {
        lemma_leads_on(before, first, second);
        assert forall|input: Seq<u8>| #[trigger] data@.admits(input) implies first.admits(input)
            && window_at(input, before.cursor) == window@ by {
            assert(second.admits(input));
            lemma_read_settles(again, second, 4, input);
            lemma_admits_earlier(first, second, input);
        }
    }
    if gap {
        Some(Unit::Gap)
    } else {
        Some(Unit::Character { window, length })
    }
}

/// Whether `result` and `cursor` are what the search for the next run of
/// characters leaves that began at `origin`: the distance from there to the
/// start of the run, and the source at that start; `None` where no run is
/// left.
pub open spec fn rewind_result(
    input: Seq<u8>,
    options: Options,
    origin: int,
    result: Option<usize>,
    cursor: int,
) -> bool {
    match next_run(input, options, true, origin) {
        Some(start) => origin <= start && result == Some((start - origin) as usize) && cursor
            == start,
        None => result is None,
    }
}

/// The place of the run that `result` reports, for a search that began at
/// `origin`.
pub open spec fn rewind_start(origin: int, result: Option<usize>) -> Option<int> {
    match result {
        Some(distance) => Some(origin + distance),
        None => None,
    }
}

/// Searches for the next `min_length` printable characters in a row, a
/// multi-byte character counting as one. After a byte at which no character
/// stands the search begins anew with the byte that follows. Once the
/// characters are found the source is moved back to the first of them.
/// Returns the distance from where the search began to that character, or
/// `None` where the input ends before that many are found.
///
/// A source that lets go of old bytes has to keep four bytes for each
/// character of the minimum within reach.
pub fn find_matching_unicode_sequence<D: DataSource>(data: &mut D, options: &Options) -> (r:
    Option<usize>)
    requires
        old(data).inv(),
        old(data)@.limit - old(data)@.cursor <= usize::MAX,
        old(data)@.keep matches Some(k) ==> 4 * options.min_length <= k,
    ensures
        final(data).inv(),
        old(data)@.leads_to(final(data)@),
        old(data)@.cursor <= final(data)@.cursor,
        r is None ==> final(data)@.ended && final(data)@.cursor == final(data)@.seen.len(),
        forall|input: Seq<u8>| #[trigger]
            final(data)@.admits(input) ==> rewind_result(
                input,
                *options,
                old(data)@.cursor,
                r,
                final(data)@.cursor,
            ) && is_first_run(
                input,
                *options,
                true,
                old(data)@.cursor,
                rewind_start(old(data)@.cursor, r),
            ),
{
    let ghost origin = data@.cursor;
    let mut sequence_start_address_offset: usize = 0;
    let mut address_offset: usize = 0;
    let mut num_found: u16 = 0;
    proof {
        data.lemma_inv();
    }
    while num_found < options.min_length
        invariant
            data.inv(),
            old(data)@.wf(),
            old(data)@.leads_to(data@),
            origin == old(data)@.cursor,
            old(data)@.limit - origin <= usize::MAX,
            old(data)@.keep matches Some(k) ==> 4 * options.min_length <= k,
            sequence_start_address_offset <= address_offset,
            data@.cursor == origin + address_offset,
            data@.floor <= origin + sequence_start_address_offset,
            address_offset - sequence_start_address_offset <= 4 * num_found,
            num_found <= options.min_length,
            forall|input: Seq<u8>| #[trigger]
                data@.admits(input) ==> search_continues(
                    input,
                    *options,
                    true,
                    origin,
                    origin + sequence_start_address_offset,
                    data@.cursor,
                    num_found as int,
                ),
        decreases data@.limit - data@.cursor,
    {
        let ghost before = data@;
        proof {
            data.lemma_inv();
        }
        match read_character(data, options) {
            None => {
                proof {
                    assert forall|input: Seq<u8>| #[trigger]
                        data@.admits(input) implies rewind_result(
                        input,
                        *options,
                        origin,
                        None,
                        data@.cursor,
                    ) && is_first_run(input, *options, true, origin, None) by {
                        lemma_admits_earlier(before, data@, input);
                        lemma_search_passes_over_no_run(input, *options, true, origin);
                    }
                    lemma_leads_on(old(data)@, before, data@);
                }
                return None;
            },
            Some(unit) => {
                proof {
                    data.lemma_inv();
                    lemma_leads_on(old(data)@, before, data@);
                    assert forall|input: Seq<u8>| #[trigger] data@.admits(input) implies unit_len(
                        input,
                        *options,
                        true,
                        before.cursor,
                    ) == unit.len() && search_continues(
                        input,
                        *options,
                        true,
                        origin,
                        origin + sequence_start_address_offset,
                        before.cursor,
                        num_found as int,
                    ) by {
                        lemma_admits_earlier(before, data@, input);
                        assert(unit.stands_at(input, *options, before.cursor));
                    }
                    lemma_admits_seen(data@);
                    assert(unit.stands_at(data@.seen, *options, before.cursor));
                }
                match unit {
                    Unit::Gap => {
                        num_found = 0;
                        address_offset = address_offset + 1;
                        sequence_start_address_offset = address_offset;
                    },
                    Unit::Byte(_) => {
                        num_found = num_found + 1;
                        address_offset = address_offset + 1;
                    },
                    Unit::Character { window, length } => {
                        num_found = num_found + 1;
                        address_offset = address_offset + length as usize;
                    },
                }
            },
        }
    }
    let mut distance: usize = address_offset - sequence_start_address_offset;
    while distance > 0
        invariant
            data.inv(),
            old(data)@.leads_to(data@),
            data@.cursor == origin + sequence_start_address_offset + distance,
            data@.floor <= origin + sequence_start_address_offset,
            forall|input: Seq<u8>| #[trigger]
                data@.admits(input) ==> next_run(input, *options, true, origin) == Some(
                    origin + sequence_start_address_offset,
                ),
        decreases distance,
    {
        let step: u8 = if distance > 255 {
            255
        } else {
            distance as u8
        };
        proof {
            data.lemma_inv();
        }
        let ghost before = data@;
        data.seek_back(step);
        distance = distance - step as usize;
        proof {
            data.lemma_inv();
            assert forall|input: Seq<u8>| #[trigger] data@.admits(input) implies next_run(
                input,
                *options,
                true,
                origin,
            ) == Some(origin + sequence_start_address_offset) by {
                assert(before.admits(input));
            }
        }
    }
    proof {
        assert forall|input: Seq<u8>| #[trigger] data@.admits(input) implies is_first_run(
            input,
            *options,
            true,
            origin,
            Some(origin + sequence_start_address_offset),
        ) by {
            lemma_search_passes_over_no_run(input, *options, true, origin);
        }
    }
    Some(sequence_start_address_offset)
}

/// Searches for the next run of printable characters and writes its record:
/// the prefix, each byte below `0x7f` as it is and each multi-byte character
/// as the display asks, up to the first byte at which no character stands or
/// to the end of the input, and the separator. The source is left at the end
/// of the run. Returns the offset of that place, or `None`, with nothing
/// written, where no run is left.
pub fn render_character_string<D: DataSource>(
    filename: &str,
    address: u64,
    data: &mut D,
    options: &Options,
    interactive: bool,
    out: &mut Vec<u8>,
) -> (r: Option<u64>)
    requires
        old(data).inv(),
        address + (old(data)@.limit - old(data)@.cursor) <= u64::MAX,
        old(data)@.limit - old(data)@.cursor <= usize::MAX,
        old(data)@.keep matches Some(k) ==> 4 * options.min_length <= k,
    ensures
        final(data).inv(),
        old(data)@.leads_to(final(data)@),
        old(data)@.cursor <= final(data)@.cursor,
        r is None ==> final(data)@.ended && final(data)@.cursor == final(data)@.seen.len(),
        r is Some && options.min_length >= 1 ==> old(data)@.cursor < final(data)@.cursor,
        forall|input: Seq<u8>| #[trigger]
            final(data)@.admits(input) ==> step_result(
                input,
                *options,
                true,
                interactive,
                filename@,
                address as int,
                old(data)@.cursor,
                r,
                old(out)@,
                final(out)@,
                final(data)@.cursor,
            ),
{
    let ghost origin = data@.cursor;
    proof {
        data.lemma_inv();
    }
    match find_matching_unicode_sequence(data, options) {
        None => {
            proof {
                assert forall|input: Seq<u8>| #[trigger] data@.admits(input) implies step_result(
                    input,
                    *options,
                    true,
                    interactive,
                    filename@,
                    address as int,
                    origin,
                    None,
                    old(out)@,
                    out@,
                    data@.cursor,
                ) by {
                    assert(rewind_result(input, *options, origin, None, data@.cursor));
                }
            }
            None
        },
        Some(sequence_start_address_offset) => {
            let ghost found = data@;
            let ghost start = found.cursor;
            proof {
                lemma_admits_seen(found);
                assert(rewind_result(
                    found.seen,
                    *options,
                    origin,
                    Some(sequence_start_address_offset),
                    found.cursor,
                ));
            }
            let start_address: u64 = address + sequence_start_address_offset as u64;
            print_filename_and_address(filename, start_address, options, out);
            let ghost prefixed = out@;
            let ghost mut text: Seq<u8> = Seq::empty();
            let ghost mut count: int = 0;
            let mut current_address: u64 = start_address;
            let mut more: bool = true;
            proof {
                assert(prefixed + text =~= prefixed);
                assert forall|input: Seq<u8>| #[trigger] data@.admits(input) implies run_continues(
                    input,
                    *options,
                    true,
                    interactive,
                    start,
                    text,
                    count,
                    data@.cursor,
                ) by {
                    assert(rewind_result(
                        input,
                        *options,
                        origin,
                        Some(sequence_start_address_offset),
                        found.cursor,
                    ));
                    assert(text + run_text(input, *options, true, interactive, start)
                        =~= run_text(input, *options, true, interactive, start));
                }
            }
            while more
                invariant
                    data.inv(),
                    old(data)@.wf(),
                    old(data)@.leads_to(data@),
                    found.leads_to(data@),
                    origin == old(data)@.cursor,
                    origin <= start == found.cursor <= data@.cursor,
                    address + (old(data)@.limit - origin) <= u64::MAX,
                    current_address == address + (data@.cursor - origin),
                    out@ == prefixed + text,
                    forall|input: Seq<u8>| #[trigger]
                        data@.admits(input) ==> run_continues(
                            input,
                            *options,
                            true,
                            interactive,
                            start,
                            text,
                            count,
                            data@.cursor,
                        ),
                    !more ==> forall|input: Seq<u8>| #[trigger]
                        data@.admits(input) ==> unit_len(input, *options, true, data@.cursor)
                            == 0,
                decreases data@.limit - data@.cursor + if more { 1int } else { 0int },
            {
                let ghost before = data@;
                let ghost written = text;
                proof {
                    data.lemma_inv();
                }
                let next = read_character(data, options);
                proof {
                    data.lemma_inv();
                    lemma_leads_on(found, before, data@);
                    lemma_leads_on(old(data)@, before, data@);
                    assert forall|input: Seq<u8>| #[trigger]
                        data@.admits(input) implies run_continues(
                        input,
                        *options,
                        true,
                        interactive,
                        start,
                        written,
                        count,
                        before.cursor,
                    ) by {
                        lemma_admits_earlier(before, data@, input);
                    }
                }
                match next {
                    None => {
                        more = false;
                    },
                    Some(Unit::Gap) => {
                        let ghost after = data@;
                        data.seek_back(1);
                        more = false;
                        proof {
                            data.lemma_inv();
                            assert forall|input: Seq<u8>| #[trigger]
                                data@.admits(input) implies run_continues(
                                input,
                                *options,
                                true,
                                interactive,
                                start,
                                text,
                                count,
                                data@.cursor,
                            ) && unit_len(input, *options, true, data@.cursor) == 0 by {
                                assert(after.admits(input));
                                assert(Unit::Gap.stands_at(input, *options, before.cursor));
                            }
                        }
                    },
                    Some(Unit::Byte(byte)) => {
                        out.push(byte);
                        current_address = current_address + 1;
                        proof {
                            text = written.push(byte);
                            count = count + 1;
                            assert(out@ =~= prefixed + text);
                            assert forall|input: Seq<u8>| #[trigger]
                                data@.admits(input) implies run_continues(
                                input,
                                *options,
                                true,
                                interactive,
                                start,
                                text,
                                count,
                                data@.cursor,
                            ) by {
                                assert(Unit::Byte(byte).stands_at(input, *options, before.cursor));
                                assert(unit_text(input, *options, true, interactive, before.cursor)
                                    == seq![byte]);
                                assert(written + (seq![byte] + run_text(
                                    input,
                                    *options,
                                    true,
                                    interactive,
                                    data@.cursor,
                                )) =~= text + run_text(
                                    input,
                                    *options,
                                    true,
                                    interactive,
                                    data@.cursor,
                                ));
                            }
                        }
                    },
                    Some(Unit::Character { window, length }) => {
                        let ghost unit = Unit::Character { window, length };
                        proof {
                            lemma_admits_seen(data@);
                            assert(unit.stands_at(data@.seen, *options, before.cursor));
                            lemma_rendered_length(window@[0]);
                        }
                        let char_len: u8 = render_utf8_char(
                            window.as_slice(),
                            options.unicode_display,
                            interactive,
                            out,
                        );
                        current_address = current_address + char_len as u64;
                        proof {
                            let rendered = display_text(
                                window@,
                                options.unicode_display,
                                interactive,
                            );
                            text = written + rendered;
                            count = count + 1;
                            assert(out@ =~= prefixed + text);
                            assert forall|input: Seq<u8>| #[trigger]
                                data@.admits(input) implies run_continues(
                                input,
                                *options,
                                true,
                                interactive,
                                start,
                                text,
                                count,
                                data@.cursor,
                            ) by {
                                assert(unit.stands_at(input, *options, before.cursor));
                                assert(unit_text(input, *options, true, interactive, before.cursor)
                                    == rendered);
                                assert(written + (rendered + run_text(
                                    input,
                                    *options,
                                    true,
                                    interactive,
                                    data@.cursor,
                                )) =~= text + run_text(
                                    input,
                                    *options,
                                    true,
                                    interactive,
                                    data@.cursor,
                                ));
                            }
                        }
                    },
                }
            }
            append_separator(out, options);
            proof {
                assert forall|input: Seq<u8>| #[trigger] data@.admits(input) implies step_result(
                    input,
                    *options,
                    true,
                    interactive,
                    filename@,
                    address as int,
                    origin,
                    Some(current_address),
                    old(out)@,
                    out@,
                    data@.cursor,
                ) by {
                    lemma_admits_earlier(found, data@, input);
                    assert(rewind_result(
                        input,
                        *options,
                        origin,
                        Some(sequence_start_address_offset),
                        found.cursor,
                    ));
                    lemma_run_complete(
                        input,
                        *options,
                        true,
                        interactive,
                        start,
                        text,
                        count,
                        data@.cursor,
                    );
                    assert(out@ =~= old(out)@ + record_text(
                        input,
                        *options,
                        true,
                        interactive,
                        filename@,
                        address + (start - origin),
                        start,
                    ));
                }
                if options.min_length >= 1 {
                    lemma_admits_seen(data@);
                    let seen = data@.seen;
                    assert(step_result(
                        seen,
                        *options,
                        true,
                        interactive,
                        filename@,
                        address as int,
                        origin,
                        Some(current_address),
                        old(out)@,
                        out@,
                        data@.cursor,
                    ));
                    lemma_run_has_minimum(seen, *options, true, origin);
                    lemma_run_bounds(seen, *options, true, start);
                }
            }
            Some(current_address)
        },
    }
}

/// Writes the record of every run of printable characters from the cursor
/// to the end of the input, of which `address` is the offset of the cursor.
/// The scan by character asks for the 8-bit encoding: under another one
/// nothing is read and nothing written.
pub fn print_unicode_buffer<D: DataSource>(
    filename: &str,
    address: u64,
    data: &mut D,
    options: &Options,
    interactive: bool,
    out: &mut Vec<u8>,
)
    requires
        old(data).inv(),
        options.min_length >= 1,
        address + (old(data)@.limit - old(data)@.cursor) <= u64::MAX,
        old(data)@.limit - old(data)@.cursor <= usize::MAX,
        old(data)@.keep matches Some(k) ==> 4 * options.min_length <= k,
    ensures
        final(data).inv(),
        old(data)@.leads_to(final(data)@),
        options.encoding is Bit8 ==> final(data)@.ended && final(out)@ == old(out)@ + scan_text(
            final(data)@.seen,
            *options,
            true,
            interactive,
            filename@,
            address as int,
            old(data)@.cursor,
        ),
        options.encoding is Bit8 ==> scan_written(
            final(data)@.seen,
            *options,
            true,
            interactive,
            filename@,
            address as int,
            old(data)@.cursor,
            scan_text(
                final(data)@.seen,
                *options,
                true,
                interactive,
                filename@,
                address as int,
                old(data)@.cursor,
            ),
        ),
        !(options.encoding is Bit8) ==> final(data)@ == old(data)@ && final(out)@ == old(out)@,
{
    proof {
        data.lemma_inv();
        lemma_admits_seen(data@);
        assert forall|input: Seq<u8>| #[trigger]
            scan_written(
                input,
                *options,
                true,
                interactive,
                filename@,
                address as int,
                data@.cursor,
                scan_text(
                    input,
                    *options,
                    true,
                    interactive,
                    filename@,
                    address as int,
                    data@.cursor,
                ),
            ) by {
            lemma_scan_written(
                input,
                *options,
                true,
                interactive,
                filename@,
                address as int,
                data@.cursor,
            );
        }
    }
    if !matches!(options.encoding, EncodingKind::Bit8) {
        return ;
    }
    let ghost origin = data@.cursor;
    let mut current_address: u64 = address;
    let mut more: bool = true;
    while more
        invariant
            data.inv(),
            old(data)@.wf(),
            old(data)@.leads_to(data@),
            origin == old(data)@.cursor,
            origin <= data@.cursor,
            options.min_length >= 1,
            address + (old(data)@.limit - origin) <= u64::MAX,
            old(data)@.limit - origin <= usize::MAX,
            old(data)@.keep matches Some(k) ==> 4 * options.min_length <= k,
            more ==> current_address == address + (data@.cursor - origin),
            more ==> forall|input: Seq<u8>| #[trigger]
                data@.admits(input) ==> old(out)@ + scan_text(
                    input,
                    *options,
                    true,
                    interactive,
                    filename@,
                    address as int,
                    origin,
                ) == out@ + scan_text(
                    input,
                    *options,
                    true,
                    interactive,
                    filename@,
                    current_address as int,
                    data@.cursor,
                ),
            !more ==> data@.ended && out@ == old(out)@ + scan_text(
                data@.seen,
                *options,
                true,
                interactive,
                filename@,
                address as int,
                origin,
            ),
        decreases data@.limit - data@.cursor + if more { 1int } else { 0int },
    {
        let ghost before = data@;
        let ghost written = out@;
        proof {
            data.lemma_inv();
        }
        let next = render_character_string(
            filename,
            current_address,
            data,
            options,
            interactive,
            out,
        );
        proof {
            data.lemma_inv();
            lemma_leads_on(old(data)@, before, data@);
            assert forall|input: Seq<u8>| #[trigger] data@.admits(input) implies old(out)@
                + scan_text(input, *options, true, interactive, filename@, address as int, origin)
                == out@ + match next {
                Some(follow) => scan_text(
                    input,
                    *options,
                    true,
                    interactive,
                    filename@,
                    current_address + (data@.cursor - before.cursor),
                    data@.cursor,
                ),
                None => Seq::empty(),
            } by {
                lemma_admits_earlier(before, data@, input);
                lemma_scan_step(
                    input,
                    *options,
                    true,
                    interactive,
                    filename@,
                    current_address as int,
                    before.cursor,
                    next,
                    written,
                    out@,
                    data@.cursor,
                );
            }
        }
        match next {
            Some(follow) => {
                proof {
                    lemma_admits_seen(data@);
                    assert(step_result(
                        data@.seen,
                        *options,
                        true,
                        interactive,
                        filename@,
                        current_address as int,
                        before.cursor,
                        next,
                        written,
                        out@,
                        data@.cursor,
                    ));
                }
                current_address = follow;
            },
            None => {
                more = false;
                proof {
                    lemma_admits_seen(data@);
                    let whole = scan_text(
                        data@.seen,
                        *options,
                        true,
                        interactive,
                        filename@,
                        address as int,
                        origin,
                    );
                    assert(old(out)@ + whole == out@ + Seq::<u8>::empty());
                    assert(out@ + Seq::<u8>::empty() =~= out@);
                }
            },
        }
    }
}

} // verus!
