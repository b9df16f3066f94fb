//! The scan by symbol: runs of printable symbols of a fixed width.

use crate::display::{append, append_separator, print_filename_and_address};
use crate::model::{
    lemma_run_bounds, lemma_run_complete, next_run, record_text, run_continues, run_text,
    search_continues, step_result, unit_len, unit_text,
};
use crate::options::Options;
use crate::search::{is_first_run, lemma_search_passes_over_no_run};
use crate::source::{
    lemma_admits_earlier, lemma_admits_seen, lemma_leads_on, lemma_read_settles, symbol_at,
    DataSource,
};
use crate::utils::{char_is_printable, printable};
use vstd::prelude::*;

verus! {

/// Whether `result`, `text` and `cursor` are what the search for the next run
/// of printable symbols leaves that began at `origin`, of which `address` is
/// the offset: the offsets of the start of the run and of the place after its
/// first `min_length` symbols, the low bytes of these symbols, and the source
/// at that place; `None` where no run is left.
pub open spec fn probe_result(
    input: Seq<u8>,
    options: Options,
    origin: int,
    address: int,
    result: Option<(u64, u64)>,
    text: Seq<u8>,
    cursor: int,
) -> bool {
    match next_run(input, options, false, origin) {
        Some(start) => {
            &&& origin <= start
            &&& result == Some(
                ((address + (start - origin)) as u64, (address + (cursor - origin)) as u64),
            )
            &&& run_continues(
                input,
                options,
                false,
                false,
                start,
                text,
                options.min_length as int,
                cursor,
            )
        },
        None => result is None,
    }
}

/// The place of the run that `result` reports, for a search that began at
/// `origin`, of which `address` is the offset.
pub open spec fn probe_start(origin: int, address: int, result: Option<(u64, u64)>) -> Option<
    int,
> {
    match result {
        Some(offsets) => Some(origin + (offsets.0 - address)),
        None => None,
    }
}

/// Searches for the next `min_length` printable symbols in a row. After a
/// symbol that is not printable the search begins anew one byte behind the
/// start of that symbol. Returns the offsets of the first of the symbols
/// found and of the place behind the last, with their low bytes in `buffer`,
/// or `None` where the input ends before that many are found.
pub fn find_matching_ascii_sequence<D: DataSource>(
    start_address: u64,
    data: &mut D,
    buffer: &mut Vec<u8>,
    options: &Options,
) -> (r: Option<(u64, u64)>)
    requires
        old(data).inv(),
        start_address + (old(data)@.limit - old(data)@.cursor) <= u64::MAX,
    ensures
        final(data).inv(),
        old(data)@.leads_to(final(data)@),
        old(data)@.cursor <= final(data)@.cursor,
        r is None ==> final(data)@.ended && final(data)@.cursor == final(data)@.seen.len(),
        r is Some ==> final(buffer)@.len() == options.min_length,
        r is Some ==> forall|i: int|
            0 <= i < final(buffer)@.len() ==> printable(
                #[trigger] final(buffer)@[i] as int,
                options.encoding,
                options.include_all_whitespace,
            ),
        forall|input: Seq<u8>| #[trigger]
            final(data)@.admits(input) ==> probe_result(
                input,
                *options,
                old(data)@.cursor,
                start_address as int,
                r,
                final(buffer)@,
                final(data)@.cursor,
            ) && is_first_run(
                input,
                *options,
                false,
                old(data)@.cursor,
                probe_start(old(data)@.cursor, start_address as int, r),
            ),
{
    let ghost origin = data@.cursor;
    let ghost mut start: int = origin;
    let mut search_start_address: u64 = start_address;
    let mut current_address: u64 = start_address;
    let mut i: u16 = 0;
    buffer.clear();
    proof {
        data.lemma_inv();
        assert forall|input: Seq<u8>| #[trigger] data@.admits(input) implies run_continues(
            input,
            *options,
            false,
            false,
            start,
            buffer@,
            0,
            origin,
        ) by {
            assert(buffer@ + run_text(input, *options, false, false, origin) =~= run_text(
                input,
                *options,
                false,
                false,
                origin,
            ));
        }
    }
    while i < options.min_length
        invariant
            data.inv(),
            old(data)@.wf(),
            old(data)@.leads_to(data@),
            origin == old(data)@.cursor,
            origin <= start <= data@.cursor,
            start_address + (old(data)@.limit - origin) <= u64::MAX,
            search_start_address == start_address + (start - origin),
            current_address == start_address + (data@.cursor - origin),
            i <= options.min_length,
            buffer@.len() == i,
            forall|k: int|
                0 <= k < buffer@.len() ==> printable(
                    #[trigger] buffer@[k] as int,
                    options.encoding,
                    options.include_all_whitespace,
                ),
            forall|input: Seq<u8>| #[trigger]
                data@.admits(input) ==> search_continues(
                    input,
                    *options,
                    false,
                    origin,
                    start,
                    data@.cursor,
                    i as int,
                ) && run_continues(
                    input,
                    *options,
                    false,
                    false,
                    start,
                    buffer@,
                    i as int,
                    data@.cursor,
                ),
        decreases data@.limit - data@.cursor,
    {
        let ghost before = data@;
        let ghost text = buffer@;
        let ghost width = options.encoding.width();
        proof {
            data.lemma_inv();
        }
        match data.read_symbol(&options.encoding) {
            None => {
                proof {
                    assert forall|input: Seq<u8>| #[trigger]
                        data@.admits(input) implies probe_result(
                        input,
                        *options,
                        origin,
                        start_address as int,
                        None,
                        buffer@,
                        data@.cursor,
                    ) && is_first_run(input, *options, false, origin, None) by {
                        lemma_read_settles(before, data@, width, input);
                        assert(before.admits(input));
                        lemma_search_passes_over_no_run(input, *options, false, origin);
                    }
                }
                return None;
            },
            Some((character, read)) => {
                let ghost after = data@;
                current_address = current_address + read as u64;
                if character > 255 || !char_is_printable(
                    character as u8 as char,
                    options.encoding,
                    options.include_all_whitespace,
                ) {
                    data.seek_back(read - 1);
                    current_address = current_address - (read - 1) as u64;
                    search_start_address = current_address;
                    buffer.clear();
                    i = 0;
                    proof {
                        start = before.cursor + 1;
                        assert forall|input: Seq<u8>| #[trigger]
                            data@.admits(input) implies search_continues(
                            input,
                            *options,
                            false,
                            origin,
                            start,
                            data@.cursor,
                            0,
                        ) && run_continues(
                            input,
                            *options,
                            false,
                            false,
                            start,
                            buffer@,
                            0,
                            data@.cursor,
                        ) by {
                            assert(after.admits(input));
                            lemma_read_settles(before, after, width, input);
                            assert(before.admits(input));
                            assert(symbol_at(input, before.cursor, options.encoding) == Some(
                                (character, read),
                            ));
                            assert(unit_len(input, *options, false, before.cursor) == 0);
                            assert(buffer@ + run_text(input, *options, false, false, start)
                                =~= run_text(input, *options, false, false, start));
                        }
                    }
                } else {
                    buffer.push(character as u8);
                    i += 1;
                    proof {
                        assert forall|input: Seq<u8>| #[trigger]
                            data@.admits(input) implies search_continues(
                            input,
                            *options,
                            false,
                            origin,
                            start,
                            data@.cursor,
                            i as int,
                        ) && run_continues(
                            input,
                            *options,
                            false,
                            false,
                            start,
                            buffer@,
                            i as int,
                            data@.cursor,
                        ) by {
                            lemma_read_settles(before, after, width, input);
                            assert(before.admits(input));
                            assert(symbol_at(input, before.cursor, options.encoding) == Some(
                                (character, read),
                            ));
                            assert(unit_len(input, *options, false, before.cursor) == read);
                            assert(unit_text(input, *options, false, false, before.cursor)
                                == seq![character as u8]);
                            assert(text + (seq![character as u8] + run_text(
                                input,
                                *options,
                                false,
                                false,
                                data@.cursor,
                            )) =~= buffer@ + run_text(
                                input,
                                *options,
                                false,
                                false,
                                data@.cursor,
                            ));
                        }
                    }
                }
            },
        }
    }
    proof {
        assert forall|input: Seq<u8>| #[trigger] data@.admits(input) implies is_first_run(
            input,
            *options,
            false,
            origin,
            Some(start),
        ) by {
            lemma_search_passes_over_no_run(input, *options, false, origin);
        }
    }
    Some((search_start_address, current_address))
}

/// Searches for the next run of printable symbols and writes its record:
/// the prefix, the low byte of each symbol up to the first that is not
/// printable or to the end of the input, and the separator. The source is left
/// at the end of the run. Returns the offset of that place, or `None`, with
/// nothing written, where no run is left.
pub fn render_symbol_string<D: DataSource>(
    filename: &str,
    address: u64,
    data: &mut D,
    buffer: &mut Vec<u8>,
    options: &Options,
    out: &mut Vec<u8>,
) -> (r: Option<u64>)
    requires
        old(data).inv(),
        address + (old(data)@.limit - old(data)@.cursor) <= u64::MAX,
    ensures
        final(data).inv(),
        old(data)@.leads_to(final(data)@),
        old(data)@.cursor <= final(data)@.cursor,
        r is None ==> final(data)@.ended && final(data)@.cursor == final(data)@.seen.len(),
        r is Some && options.min_length >= 1 ==> old(data)@.cursor < final(data)@.cursor,
        forall|input: Seq<u8>| #[trigger]
            final(data)@.admits(input) ==> step_result(
                input,
                *options,
                false,
                false,
                filename@,
                address as int,
                old(data)@.cursor,
                r,
                old(out)@,
                final(out)@,
                final(data)@.cursor,
            ),
{
    let ghost origin = data@.cursor;
    proof {
        data.lemma_inv();
    }
    match find_matching_ascii_sequence(address, data, buffer, options) {
        None => {
            proof {
                assert forall|input: Seq<u8>| #[trigger] data@.admits(input) implies step_result(
                    input,
                    *options,
                    false,
                    false,
                    filename@,
                    address as int,
                    origin,
                    None,
                    old(out)@,
                    out@,
                    data@.cursor,
                ) by {
                    assert(probe_result(
                        input,
                        *options,
                        origin,
                        address as int,
                        None,
                        buffer@,
                        data@.cursor,
                    ));
                }
            }
            None
        },
        Some((start_address, probe_end)) => {
            let ghost found = data@;
            let ghost start = origin + (start_address - address);
            proof {
                lemma_admits_seen(found);
                assert(probe_result(
                    found.seen,
                    *options,
                    origin,
                    address as int,
                    Some((start_address, probe_end)),
                    buffer@,
                    found.cursor,
                ));
            }
            print_filename_and_address(filename, start_address, options, out);
            let ghost prefixed = out@;
            let mut current_address: u64 = probe_end;
            let mut more: bool = true;
            let ghost mut count: int = options.min_length as int;
            proof {
                assert forall|input: Seq<u8>| #[trigger] data@.admits(input) implies run_continues(
                    input,
                    *options,
                    false,
                    false,
                    start,
                    buffer@,
                    count,
                    data@.cursor,
                ) && next_run(input, *options, false, origin) == Some(start) by {
                    assert(probe_result(
                        input,
                        *options,
                        origin,
                        address as int,
                        Some((start_address, probe_end)),
                        buffer@,
                        data@.cursor,
                    ));
                }
            }
            while more
                invariant
                    data.inv(),
                    old(data)@.wf(),
                    old(data)@.leads_to(data@),
                    found.leads_to(data@),
                    origin == old(data)@.cursor,
                    origin <= start <= found.cursor <= data@.cursor,
                    address + (old(data)@.limit - origin) <= u64::MAX,
                    current_address == address + (data@.cursor - origin),
                    count >= options.min_length,
                    forall|input: Seq<u8>| #[trigger]
                        data@.admits(input) ==> run_continues(
                            input,
                            *options,
                            false,
                            false,
                            start,
                            buffer@,
                            count,
                            data@.cursor,
                        ),
                    !more ==> forall|input: Seq<u8>| #[trigger]
                        data@.admits(input) ==> unit_len(input, *options, false, data@.cursor)
                            == 0,
                decreases data@.limit - data@.cursor + if more { 1int } else { 0int },
            {
                let ghost before = data@;
                let ghost text = buffer@;
                let ghost width = options.encoding.width();
                proof {
                    data.lemma_inv();
                }
                match data.read_symbol(&options.encoding) {
                    None => {
                        more = false;
                        proof {
                            lemma_leads_on(found, before, data@);
                            lemma_leads_on(old(data)@, before, data@);
                            assert forall|input: Seq<u8>| #[trigger]
                                data@.admits(input) implies run_continues(
                                input,
                                *options,
                                false,
                                false,
                                start,
                                buffer@,
                                count,
                                data@.cursor,
                            ) && unit_len(input, *options, false, data@.cursor) == 0 by {
                                lemma_read_settles(before, data@, width, input);
                                assert(before.admits(input));
                            }
                        }
                    },
                    Some((character, read)) => {
                        let ghost after = data@;
                        proof {
                            lemma_leads_on(found, before, after);
                            lemma_leads_on(old(data)@, before, after);
                        }
                        if character > 255 || !char_is_printable(
                            character as u8 as char,
                            options.encoding,
                            options.include_all_whitespace,
                        ) {
                            data.seek_back(read);
                            more = false;
                            proof {
                                assert forall|input: Seq<u8>| #[trigger]
                                    data@.admits(input) implies run_continues(
                                    input,
                                    *options,
                                    false,
                                    false,
                                    start,
                                    buffer@,
                                    count,
                                    data@.cursor,
                                ) && unit_len(input, *options, false, data@.cursor) == 0 by {
                                    assert(after.admits(input));
                                    lemma_read_settles(before, after, width, input);
                                    assert(before.admits(input));
                                    assert(symbol_at(input, before.cursor, options.encoding)
                                        == Some((character, read)));
                                }
                            }
                        } else {
                            buffer.push(character as u8);
                            current_address = current_address + read as u64;
                            proof {
                                count = count + 1;
                                assert forall|input: Seq<u8>| #[trigger]
                                    data@.admits(input) implies run_continues(
                                    input,
                                    *options,
                                    false,
                                    false,
                                    start,
                                    buffer@,
                                    count,
                                    data@.cursor,
                                ) by {
                                    lemma_read_settles(before, after, width, input);
                                    assert(before.admits(input));
                                    assert(symbol_at(input, before.cursor, options.encoding)
                                        == Some((character, read)));
                                    assert(unit_len(input, *options, false, before.cursor)
                                        == read);
                                    assert(unit_text(input, *options, false, false, before.cursor)
                                        == seq![character as u8]);
                                    assert(text + (seq![character as u8] + run_text(
                                        input,
                                        *options,
                                        false,
                                        false,
                                        data@.cursor,
                                    )) =~= buffer@ + run_text(
                                        input,
                                        *options,
                                        false,
                                        false,
                                        data@.cursor,
                                    ));
                                }
                            }
                        }
                    },
                }
            }
            append(out, buffer.as_slice());
            append_separator(out, options);
            proof {
                assert forall|input: Seq<u8>| #[trigger] data@.admits(input) implies step_result(
                    input,
                    *options,
                    false,
                    false,
                    filename@,
                    address as int,
                    origin,
                    Some(current_address),
                    old(out)@,
                    out@,
                    data@.cursor,
                ) by {
                    lemma_admits_earlier(found, data@, input);
                    assert(next_run(input, *options, false, origin) == Some(start));
                    lemma_run_complete(
                        input,
                        *options,
                        false,
                        false,
                        start,
                        buffer@,
                        count,
                        data@.cursor,
                    );
                    assert(out@ =~= old(out)@ + record_text(
                        input,
                        *options,
                        false,
                        false,
                        filename@,
                        address + (start - origin),
                        start,
                    ));
                }
                lemma_admits_seen(data@);
                lemma_run_bounds(data@.seen, *options, false, start);
                assert(run_continues(
                    data@.seen,
                    *options,
                    false,
                    false,
                    start,
                    buffer@,
                    count,
                    data@.cursor,
                ));
            }
            Some(current_address)
        },
    }
}

} // verus!
