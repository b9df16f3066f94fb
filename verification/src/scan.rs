//! The scan of a whole input, under either way of reading it.

use crate::laws::{lemma_scan_written, scan_written};
use crate::model::{
    lemma_scan_step, lemma_symbols_ignore_terminal, next_run, reads_characters, scan_text,
    scannable, step_result, strings_text,
};
use crate::options::{EncodingKind, Options, UnicodeDisplayKind};
use crate::scanner::render_symbol_string;
use crate::source::{
    lemma_admits_earlier, lemma_admits_seen, lemma_leads_on, DataSource, SourceView,
};
use crate::stream::MAX_KEEP_BACK_SIZE;
use crate::terminal::stdout_is_terminal;
use crate::unicode::{print_unicode_buffer, render_character_string};
use vstd::prelude::*;

verus! {

/// Whether the scan has a way of reading under `options`: it has none by
/// character under another encoding than the 8-bit one.
pub open spec fn readable(options: Options) -> bool {
    reads_characters(options) ==> options.encoding is Bit8
}

/// Searches for the next run and writes its record, reading by symbol under
/// the default display and by character under the others. The source is left
/// at the end of the run. Returns the offset of that place, or `None`, with
/// nothing written, where no run is left or the scan has no way of reading.
pub fn render_next_string<D: DataSource>(
    filename: &str,
    address: u64,
    data: &mut D,
    options: &Options,
    interactive: bool,
    out: &mut Vec<u8>,
) -> (r: Option<u64>)
    requires
        old(data).inv(),
        scannable(old(data)@, *options, address as int),
    ensures
        final(data).inv(),
        old(data)@.leads_to(final(data)@),
        r is Some ==> old(data)@.cursor < final(data)@.cursor,
        !readable(*options) ==> r is None && final(data)@ == old(data)@ && final(out)@ == old(
            out,
        )@,
        readable(*options) ==> {
            &&& r is None ==> final(data)@.ended
            &&& forall|input: Seq<u8>| #[trigger]
                final(data)@.admits(input) ==> step_result(
                    input,
                    *options,
                    reads_characters(*options),
                    interactive,
                    filename@,
                    address as int,
                    old(data)@.cursor,
                    r,
                    old(out)@,
                    final(out)@,
                    final(data)@.cursor,
                )
        },
{
    proof {
        data.lemma_inv();
    }
    if matches!(options.unicode_display, UnicodeDisplayKind::Default) {
        let mut buffer: Vec<u8> = Vec::new();
        let r = render_symbol_string(filename, address, data, &mut buffer, options, out);
        proof {
            assert forall|input: Seq<u8>| #[trigger] data@.admits(input) implies step_result(
                input,
                *options,
                false,
                interactive,
                filename@,
                address as int,
                old(data)@.cursor,
                r,
                old(out)@,
                out@,
                data@.cursor,
            ) by {
                assert(step_result(
                    input,
                    *options,
                    false,
                    false,
                    filename@,
                    address as int,
                    old(data)@.cursor,
                    r,
                    old(out)@,
                    out@,
                    data@.cursor,
                ));
                if let Some(start) = next_run(input, *options, false, old(data)@.cursor) {
                    lemma_symbols_ignore_terminal(input, *options, interactive, start);
                }
            }
        }
        r
    } else if matches!(options.encoding, EncodingKind::Bit8) {
        render_character_string(filename, address, data, options, interactive, out)
    } else {
        None
    }
}

/// Writes the record of every run from the cursor to the end of the input,
/// of which `address` is the offset of the cursor. Escape sequences are
/// coloured only where `interactive` says that the output goes to a terminal.
pub fn render_strings<D: DataSource>(
    filename: &str,
    address: u64,
    data: &mut D,
    options: &Options,
    interactive: bool,
    out: &mut Vec<u8>,
)
    requires
        old(data).inv(),
        scannable(old(data)@, *options, address as int),
    ensures
        final(data).inv(),
        old(data)@.leads_to(final(data)@),
        readable(*options) ==> final(data)@.ended,
        !readable(*options) ==> final(data)@ == old(data)@,
        final(out)@ == old(out)@ + strings_text(
            final(data)@.seen,
            *options,
            interactive,
            filename@,
            address as int,
            old(data)@.cursor,
        ),
        readable(*options) ==> scan_written(
            final(data)@.seen,
            *options,
            reads_characters(*options),
            interactive,
            filename@,
            address as int,
            old(data)@.cursor,
            strings_text(
                final(data)@.seen,
                *options,
                interactive,
                filename@,
                address as int,
                old(data)@.cursor,
            ),
        ),
{
    proof {
        data.lemma_inv();
        assert forall|input: Seq<u8>| readable(*options) implies #[trigger] scan_written(
            input,
            *options,
            reads_characters(*options),
            interactive,
            filename@,
            address as int,
            data@.cursor,
            strings_text(input, *options, interactive, filename@, address as int, data@.cursor),
        ) by {
            lemma_scan_written(
                input,
                *options,
                reads_characters(*options),
                interactive,
                filename@,
                address as int,
                data@.cursor,
            );
        }
    }
    if !matches!(options.unicode_display, UnicodeDisplayKind::Default) {
        print_unicode_buffer(filename, address, data, options, interactive, out);
        assert(out@ =~= old(out)@ + strings_text(
            data@.seen,
            *options,
            interactive,
            filename@,
            address as int,
            old(data)@.cursor,
        ));
        return ;
    }
    let ghost origin = data@.cursor;
    let mut search_start_address: u64 = address;
    let mut buffer: Vec<u8> = Vec::new();
    let mut more: bool = true;
    while more
        invariant
            data.inv(),
            old(data)@.wf(),
            old(data)@.leads_to(data@),
            origin == old(data)@.cursor,
            origin <= data@.cursor,
            options.min_length >= 1,
            options.unicode_display is Default,
            address + (old(data)@.limit - origin) <= u64::MAX,
            more ==> search_start_address == address + (data@.cursor - origin),
            more ==> forall|input: Seq<u8>| #[trigger]
                data@.admits(input) ==> old(out)@ + scan_text(
                    input,
                    *options,
                    false,
                    interactive,
                    filename@,
                    address as int,
                    origin,
                ) == out@ + scan_text(
                    input,
                    *options,
                    false,
                    interactive,
                    filename@,
                    search_start_address as int,
                    data@.cursor,
                ),
            !more ==> data@.ended && out@ == old(out)@ + scan_text(
                data@.seen,
                *options,
                false,
                interactive,
                filename@,
                address as int,
                origin,
            ),
        decreases data@.limit - data@.cursor + if more { 1int } else { 0int },
    {
        let ghost before = data@;
        let ghost written = out@;
        proof {
            data.lemma_inv();
        }
        let next = render_symbol_string(
            filename,
            search_start_address,
            data,
            &mut buffer,
            options,
            out,
        );
        proof {
            data.lemma_inv();
            lemma_leads_on(old(data)@, before, data@);
            assert forall|input: Seq<u8>| #[trigger] data@.admits(input) implies old(out)@
                + scan_text(input, *options, false, interactive, filename@, address as int, origin)
                == out@ + match next {
                Some(follow) => scan_text(
                    input,
                    *options,
                    false,
                    interactive,
                    filename@,
                    search_start_address + (data@.cursor - before.cursor),
                    data@.cursor,
                ),
                None => Seq::empty(),
            } by {
                lemma_admits_earlier(before, data@, input);
                assert(step_result(
                    input,
                    *options,
                    false,
                    false,
                    filename@,
                    search_start_address as int,
                    before.cursor,
                    next,
                    written,
                    out@,
                    data@.cursor,
                ));
                if let Some(start) = next_run(input, *options, false, before.cursor) {
                    lemma_symbols_ignore_terminal(input, *options, interactive, start);
                }
                lemma_scan_step(
                    input,
                    *options,
                    false,
                    interactive,
                    filename@,
                    search_start_address as int,
                    before.cursor,
                    next,
                    written,
                    out@,
                    data@.cursor,
                );
            }
        }
        match next {
            Some(follow) => {
                proof {
                    lemma_admits_seen(data@);
                    assert(step_result(
                        data@.seen,
                        *options,
                        false,
                        false,
                        filename@,
                        search_start_address as int,
                        before.cursor,
                        next,
                        written,
                        out@,
                        data@.cursor,
                    ));
                }
                search_start_address = follow;
            },
            None => {
                more = false;
                proof {
                    lemma_admits_seen(data@);
                    let whole = scan_text(
                        data@.seen,
                        *options,
                        false,
                        interactive,
                        filename@,
                        address as int,
                        origin,
                    );
                    assert(old(out)@ + whole == out@ + Seq::<u8>::empty());
                    assert(out@ + Seq::<u8>::empty() =~= out@);
                }
            },
        }
    }
}

/// Whether a scan under `options` can run on a slice of `length` bytes of
/// which `address` is the offset of the first: the minimum is one unit at
/// least and the offsets fit in 64 bits.
pub fn suits_slice(options: &Options, address: u64, length: usize) -> (r: bool)
    ensures
        r == (options.min_length >= 1 && address + length <= u64::MAX),
        forall|view: SourceView|
            view.cursor == 0 && view.limit == length && view.keep is None ==> r
                == #[trigger] scannable(view, *options, address as int),
{
    options.min_length >= 1 && length as u64 <= u64::MAX - address
}

/// Whether a scan under `options` can run on a stream source from its first
/// byte on: the minimum is one unit at least, and where the scan reads by
/// character a run of that many characters stays within reach of the source.
pub fn suits_stream(options: &Options) -> (r: bool)
    ensures
        r == (options.min_length >= 1 && (reads_characters(*options) ==> 4 * options.min_length
            <= MAX_KEEP_BACK_SIZE / 2 + 1)),
        forall|view: SourceView|
            view.cursor == 0 && view.limit == usize::MAX && view.keep == Some(
                (MAX_KEEP_BACK_SIZE / 2 + 1) as int,
            ) ==> r == #[trigger] scannable(view, *options, 0),
{
    options.min_length >= 1 && (matches!(options.unicode_display, UnicodeDisplayKind::Default)
        || options.min_length as usize <= (MAX_KEEP_BACK_SIZE / 2 + 1) / 4)
}

/// Whether escape sequences are to be coloured: under `Highlight`, where
/// standard output is a terminal.
pub fn highlights(options: &Options) -> (r: bool)
    ensures
        r ==> options.unicode_display is Highlight,
{
    if matches!(options.unicode_display, UnicodeDisplayKind::Highlight) {
        colours(options, stdout_is_terminal())
    } else {
        false
    }
}

/// Whether escape sequences are coloured under `options` where `terminal`
/// says whether the output goes to a terminal: they are under `Highlight`
/// on a terminal, and nowhere else.
pub open spec fn coloured(options: Options, terminal: bool) -> bool {
    options.unicode_display is Highlight && terminal
}

/// Whether escape sequences are to be coloured, given whether the output
/// goes to a terminal.
pub fn colours(options: &Options, terminal: bool) -> (r: bool)
    ensures
        r == coloured(*options, terminal),
{
    matches!(options.unicode_display, UnicodeDisplayKind::Highlight) && terminal
}

/// Writes the record of every run from the cursor to the end of the input,
/// of which `address` is the offset of the cursor. Under `Highlight` the
/// escape sequences are coloured where standard output is a terminal.
pub fn print_strings<D: DataSource>(
    filename: &str,
    address: u64,
    data: &mut D,
    options: &Options,
    out: &mut Vec<u8>,
)
    requires
        old(data).inv(),
        scannable(old(data)@, *options, address as int),
    ensures
        final(data).inv(),
        old(data)@.leads_to(final(data)@),
        readable(*options) ==> final(data)@.ended,
        !readable(*options) ==> final(data)@ == old(data)@,
        final(out)@ == old(out)@ + strings_text(
            final(data)@.seen,
            *options,
            false,
            filename@,
            address as int,
            old(data)@.cursor,
        ) || (options.unicode_display is Highlight && final(out)@ == old(out)@ + strings_text(
            final(data)@.seen,
            *options,
            true,
            filename@,
            address as int,
            old(data)@.cursor,
        )),
{
    let interactive: bool = highlights(options);
    render_strings(filename, address, data, options, interactive, out)
}

} // verus!
