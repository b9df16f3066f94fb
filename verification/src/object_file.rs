//! Scanning the sections of an object file that may hold strings.

use crate::display::append;
use crate::model::strings_text;
use crate::options::Options;
use crate::scan::render_strings;
use crate::source::ByteArrayHolder;
use object::{Object, ObjectSection, SectionFlags, SectionKind};
use vstd::prelude::*;

verus! {

/// The flags of a section as its file format holds them.
#[derive(Copy, Clone, Debug)]
pub enum SectionFlagBits {
    /// The format has no flags.
    Absent,
    /// The `sh_flags` field of an ELF section header.
    Elf(u64),
    /// The `flags` field of a Mach-O section header.
    MachO(u32),
    /// The `Characteristics` field of a COFF section header.
    Coff(u32),
}

/// What a section is for, as far as the choice of sections asks.
#[derive(Copy, Clone, Debug)]
pub enum SectionClass {
    /// Symbols, relocations and the like.
    Metadata,
    /// Data that is only read.
    ReadOnlyData,
    /// Executable code.
    Text,
    /// Anything else.
    Other,
}

/// What the scan reads of one section of an object file.
#[derive(Debug)]
pub struct SectionInfo {
    /// Its flags.
    pub flags: SectionFlagBits,
    /// What it is for.
    pub kind: SectionClass,
    /// Its size in memory.
    pub size: u64,
    /// Its address.
    pub address: u64,
    /// Its contents as they lie in the file, where they can be had.
    pub data: Option<Vec<u8>>,
}

/// A section as contracts speak of it: with its contents as a sequence of
/// bytes.
pub struct SectionView {
    /// Its flags.
    pub flags: SectionFlagBits,
    /// What it is for.
    pub kind: SectionClass,
    /// Its size in memory.
    pub size: u64,
    /// Its address.
    pub address: u64,
    /// Its contents as they lie in the file, where they can be had.
    pub data: Option<Seq<u8>>,
}

impl View for SectionInfo {
    type V = SectionView;

    open spec fn view(&self) -> SectionView {
        SectionView {
            flags: self.flags,
            kind: self.kind,
            size: self.size,
            address: self.address,
            data: match self.data {
                Some(contents) => Some(contents@),
                None => None,
            },
        }
    }
}

/// The views of `sections`, in their order.
pub open spec fn views(sections: Seq<SectionInfo>) -> Seq<SectionView> {
    sections.map_values(|section: SectionInfo| section@)
}

/// The sections of the object file that `data` holds, in the order of the
/// file, and `None` where `data` holds no object file that is understood.
pub uninterp spec fn parsed_sections(data: Seq<u8>) -> Option<Seq<SectionView>>;

/// Parses `data` with `object::File::parse` and lists what
/// `object::Object::sections` yields. Of each section it takes what the
/// methods `flags`, `kind`, `size` and `address` of `object::ObjectSection`
/// return, and a copy of the `data` field of what `compressed_data` returns,
/// which is the contents as they lie in the file; an error of
/// `compressed_data` gives `None` there. The result is `None` where the
/// parser returns an error. All of this depends on the bytes of `data`
/// alone, and that is all that the contract claims: the result is what
/// `parsed_sections` names.
#[verifier::external_body]
fn read_sections(data: &[u8]) -> (r: Option<Vec<SectionInfo>>)
    ensures
        match r {
            Some(sections) => parsed_sections(data@) == Some(views(sections@)),
            None => parsed_sections(data@) is None,
        },
{
    let file = object::File::parse(data).ok()?;
    Some(file.sections().map(|section| SectionInfo {
        flags: match section.flags() {
            SectionFlags::Elf { sh_flags } => SectionFlagBits::Elf(sh_flags),
            SectionFlags::MachO { flags } => SectionFlagBits::MachO(flags),
            SectionFlags::Coff { characteristics } => SectionFlagBits::Coff(characteristics),
            _ => SectionFlagBits::Absent },
        kind: match section.kind() {
            SectionKind::Metadata => SectionClass::Metadata,
            SectionKind::ReadOnlyData => SectionClass::ReadOnlyData,
            SectionKind::Text => SectionClass::Text,
            _ => SectionClass::Other },
        size: section.size(), address: section.address(),
        data: section.compressed_data().ok().map(|found| found.data.to_vec()),
    }).collect())
}

/// The flags of a section as one number; 0 where the format has none.
pub open spec fn flag_value(flags: SectionFlagBits) -> u64 {
    match flags {
        SectionFlagBits::Absent => 0,
        SectionFlagBits::Elf(sh_flags) => sh_flags,
        SectionFlagBits::MachO(flags) => flags as u64,
        SectionFlagBits::Coff(characteristics) => characteristics as u64,
    }
}

/// Whether a section may hold strings: it has some flag set, and it holds
/// metadata, data that is only read, or code.
pub open spec fn data_section(section: SectionView) -> bool {
    &&& flag_value(section.flags) != 0
    &&& (section.kind is Metadata || section.kind is ReadOnlyData || section.kind is Text)
}

/// Whether a section may hold strings.
pub fn is_data_section(section: &SectionInfo) -> (r: bool)
    ensures
        r == data_section(section@),
{
    let flags: u64 = match section.flags {
        SectionFlagBits::Elf(sh_flags) => sh_flags,
        SectionFlagBits::MachO(flags) => flags as u64,
        SectionFlagBits::Coff(characteristics) => characteristics as u64,
        SectionFlagBits::Absent => 0,
    };
    if flags == 0 {
        return false;
    }
    matches!(section.kind, SectionClass::Metadata) || matches!(
        section.kind,
        SectionClass::ReadOnlyData
    ) || matches!(section.kind, SectionClass::Text)
}

/// Whether a section is scanned: it may hold strings, is not empty, and its
/// contents can be had.
pub open spec fn scanned(section: SectionView) -> bool {
    data_section(section) && section.size != 0 && section.data is Some
}

/// Whether the offsets of the contents of a section fit in 64 bits.
pub open spec fn addressable(section: SectionView) -> bool {
    section.data matches Some(contents) ==> section.address + contents.len() <= u64::MAX
}

/// What is written for a section: the strings in its contents, with offsets
/// that start at its address, where it is scanned, and nothing where not.
pub open spec fn section_text(
    section: SectionView,
    options: Options,
    interactive: bool,
    filename: Seq<char>,
) -> Seq<u8> {
    if scanned(section) {
        strings_text(section.data->0, options, interactive, filename, section.address as int, 0)
    } else {
        Seq::empty()
    }
}

/// Scans a section where it may hold strings, is not empty and has contents
/// that can be had, with its address as the offset of its first byte.
/// Returns whether it did.
pub fn print_strings_for_object_section(
    filename: &str,
    section: &SectionInfo,
    options: &Options,
    interactive: bool,
    out: &mut Vec<u8>,
) -> (r: bool)
    requires
        options.min_length >= 1,
        addressable(section@),
    ensures
        r == scanned(section@),
        final(out)@ == old(out)@ + section_text(section@, *options, interactive, filename@),
{
    if !is_data_section(section) || section.size == 0 {
        assert(out@ =~= old(out)@ + section_text(section@, *options, interactive, filename@));
        return false;
    }
    match &section.data {
        Some(contents) => {
            let mut byte_holder = ByteArrayHolder::new(contents.as_slice());
            render_strings(filename, section.address, &mut byte_holder, options, interactive, out);
            true
        },
        None => {
            assert(out@ =~= old(out)@ + section_text(section@, *options, interactive, filename@));
            false
        },
    }
}

/// What is written for the sections of an object file, one after the other;
/// the sections whose offsets do not fit in 64 bits are passed over.
pub open spec fn sections_text(
    sections: Seq<SectionView>,
    options: Options,
    interactive: bool,
    filename: Seq<char>,
) -> Seq<u8>
    decreases sections.len(),
{
    if sections.len() == 0 {
        Seq::empty()
    } else {
        sections_text(sections.drop_last(), options, interactive, filename) + if addressable(
            sections.last(),
        ) {
            section_text(sections.last(), options, interactive, filename)
        } else {
            Seq::empty()
        }
    }
}

/// Whether one of `sections` is scanned.
pub open spec fn any_scanned(sections: Seq<SectionView>) -> bool {
    exists|i: int| 0 <= i < sections.len() && addressable(#[trigger] sections[i]) && scanned(
        sections[i],
    )
}

/// The line that is written of a file that is no object file.
pub open spec fn no_object_text() -> Seq<u8> {
    vstd::utf8::encode_utf8("File is not an object\n"@)
}

/// Scans each of `sections` that may hold strings, in their order. Returns
/// whether one was scanned.
pub fn print_strings_for_sections(
    filename: &str,
    sections: &Vec<SectionInfo>,
    options: &Options,
    interactive: bool,
    out: &mut Vec<u8>,
) -> (r: bool)
    requires
        options.min_length >= 1,
    ensures
        r == any_scanned(views(sections@)),
        final(out)@ == old(out)@ + sections_text(
            views(sections@),
            *options,
            interactive,
            filename@,
        ),
{
    let mut got_section: bool = false;
    let mut i: usize = 0;
    while i < sections.len()
        invariant
            i <= sections@.len(),
            options.min_length >= 1,
            got_section == any_scanned(views(sections@).subrange(0, i as int)),
            out@ == old(out)@ + sections_text(
                views(sections@).subrange(0, i as int),
                *options,
                interactive,
                filename@,
            ),
        decreases sections@.len() - i,
    {
        let section = &sections[i];
        let ghost before = views(sections@).subrange(0, i as int);
        let ghost after = views(sections@).subrange(0, i + 1);
        let ghost written = out@;
        let fits: bool = match &section.data {
            Some(contents) => contents.len() as u64 <= u64::MAX - section.address,
            None => true,
        };
        let mut printed: bool = false;
        if fits {
            printed =
            print_strings_for_object_section(filename, section, options, interactive, out);
        }
        got_section = got_section || printed;
        i += 1;
        proof {
            assert(after.drop_last() =~= before);
            assert(after.last() == section@);
            assert(out@ =~= old(out)@ + sections_text(after, *options, interactive, filename@));
            if any_scanned(before) {
                let k = choose|k: int|
                    0 <= k < before.len() && addressable(#[trigger] before[k]) && scanned(
                        before[k],
                    );
                assert(after[k] == before[k]);
            }
            if printed {
                assert(addressable(after[i - 1]) && scanned(after[i - 1]));
            }
            if any_scanned(after) {
                let k = choose|k: int|
                    0 <= k < after.len() && addressable(#[trigger] after[k]) && scanned(after[k]);
                if k < i - 1 {
                    assert(before[k] == after[k]);
                }
            }
        }
    }
    assert(views(sections@).subrange(0, i as int) =~= views(sections@));
    got_section
}

/// Scans the sections of the object file that `data` holds. Of data that
/// hold no object file it writes a line that says so. Returns whether a
/// section was scanned.
pub fn print_strings_for_object_file(
    filename: &str,
    data: &[u8],
    options: &Options,
    interactive: bool,
    out: &mut Vec<u8>,
) -> (r: bool)
    requires
        options.min_length >= 1,
    ensures
        match parsed_sections(data@) {
            Some(sections) => r == any_scanned(sections) && final(out)@ == old(out)@
                + sections_text(sections, *options, interactive, filename@),
            None => !r && final(out)@ == old(out)@ + no_object_text(),
        },
{
    match read_sections(data) {
        Some(sections) => {
            print_strings_for_sections(filename, &sections, options, interactive, out)
        },
        None => {
            append(out, "File is not an object\n".as_bytes());
            false
        },
    }
}

} // verus!
