//! Where the code lies in a Mach-O binary.

use vstd::prelude::*;
use goblin::container::{Container, Ctx, Endian};
use goblin::mach::load_command::{CommandVariant, LoadCommand};
use goblin::mach::segment::Segment;
use scroll::ctx::SizeWith;
use scroll::Pread;
use crate::error::StegoError;

verus! {

/// The container formats that a host binary can turn out to have.
#[derive(Clone, Copy, Debug, PartialEq, Eq, Structural)]
pub enum ObjectKind {
    Elf,
    PE,
    Coff,
    /// A Mach-O container of several architectures.
    MachFat,
    /// A Mach-O binary of one architecture.
    MachBinary,
    Archive,
    Unknown,
}

/// Where a section of a Mach-O binary lies in the file.
#[derive(Clone, Copy, Debug)]
pub struct SectionLayout {
    /// The section's name, padded with zero bytes.
    pub name: [u8; 16],
    /// The file offset that the section's header gives.
    pub offset: usize,
    /// The number of bytes of the section that the file holds.
    pub len: usize,
}

/// A segment of a Mach-O binary with its sections in header order.
#[derive(Debug)]
pub struct SegmentLayout {
    /// The segment's name, padded with zero bytes.
    pub name: [u8; 16],
    pub sections: Vec<SectionLayout>,
}

/// What the header of a Mach-O binary of one architecture tells of the load
/// commands behind it.
#[derive(Clone, Copy, Debug)]
pub struct MachHeader {
    /// Whether the binary is of the 64-bit kind.
    pub is_64: bool,
    /// Whether its numbers are stored least significant byte first.
    pub little_endian: bool,
    /// The number of bytes of the header itself.
    pub size: usize,
    /// The number of load commands.
    pub ncmds: usize,
    /// The number of bytes that the load commands are said to take.
    pub sizeofcmds: u32,
}

/// `goblin::error::Error`, the error of goblin's parsers. It is handed on
/// unread: every such error means that no code was found.
#[verifier::external_type_specification]
#[verifier::external_body]
pub struct ExGoblinError(goblin::error::Error);

/// The container format that `goblin` tells from the first sixteen bytes of
/// a file, where it can tell one.
pub uninterp spec fn object_kind_of(hint: Seq<u8>) -> Option<ObjectKind>;

/// The header that `goblin` reads at the start of `bytes` taken as a Mach-O
/// binary of one architecture, where it can read one.
pub uninterp spec fn mach_header_of(bytes: Seq<u8>) -> Option<MachHeader>;

/// The load command that `goblin` reads at offset `at` of `bytes`: the
/// offset behind the command and, where the command is a segment, the
/// segment with its sections.
pub uninterp spec fn mach_command_at(bytes: Seq<u8>, at: usize, is_64: bool, little_endian: bool)
    -> Option<(usize, Option<SegmentLayout>)>;

/// Tells the container format from the first sixteen bytes of a file.
///
/// Calls `goblin::peek_bytes`, which compares and reads magic numbers within
/// these bytes and nothing else, and keeps of the hint only which variant it
/// is; a hint of a kind that has no name here counts as `Unknown`.
#[verifier::external_body]
fn peek_object_kind(hint: &[u8; 16]) -> (r: Result<ObjectKind, goblin::error::Error>)
    ensures
        match r {
            Ok(kind) => object_kind_of(hint@) == Some(kind),
            Err(_) => object_kind_of(hint@).is_none(),
        },
{
    Ok(
        match goblin::peek_bytes(hint)? {
            goblin::Hint::Elf(_) => ObjectKind::Elf,
            goblin::Hint::Mach(_) => ObjectKind::MachBinary,
            goblin::Hint::MachFat(_) => ObjectKind::MachFat,
            goblin::Hint::PE => ObjectKind::PE,
            goblin::Hint::COFF => ObjectKind::Coff,
            goblin::Hint::Archive => ObjectKind::Archive,
            _ => ObjectKind::Unknown,
        },
    )
}

/// Reads the header of `bytes` taken as a Mach-O binary of one architecture.
///
/// Calls `goblin::mach::parse_magic_and_ctx` at offset 0 and reads a
/// `goblin::mach::header::Header` there with `scroll::Pread::pread_with`.
/// Both read nothing but `bytes` and check every offset; a magic number
/// that is none of Mach-O's is the error that goblin's own parser gives.
#[verifier::external_body]
fn read_mach_header(bytes: &[u8]) -> (r: Result<MachHeader, goblin::error::Error>)
    ensures
        match r {
            Ok(header) => mach_header_of(bytes@) == Some(header),
            Err(_) => mach_header_of(bytes@).is_none(),
        },
{
    let ctx = match goblin::mach::parse_magic_and_ctx(bytes, 0)? {
        (_, Some(ctx)) => ctx,
        (magic, None) => return Err(goblin::error::Error::BadMagic(u64::from(magic))),
    };
    let header: goblin::mach::header::Header = bytes.pread_with(0, ctx)?;
    let (is_64, little_endian) = (ctx.is_big(), ctx.is_little_endian());
    let size = goblin::mach::header::Header::size_with(&ctx);
    Ok(MachHeader { is_64, little_endian, size, ncmds: header.ncmds, sizeofcmds: header.sizeofcmds })
}

/// Reads the load command at offset `at` of `bytes`.
///
/// Calls `goblin::mach::load_command::LoadCommand::parse`, which fails on an
/// offset or a size outside `bytes`, and on a segment command
/// `Segment::from_32` or `Segment::from_64` and `Segment::sections`. Of a
/// segment it keeps the name; of a section the name, the file offset that
/// its header gives and the length of the data that goblin hands out for it.
/// Nothing is claimed of these values but that the same arguments give the
/// same ones: the caller checks that offset and length lie within the file.
#[verifier::external_body]
fn read_mach_command(bytes: &[u8], at: usize, is_64: bool, little_endian: bool) -> (r: Result<
    (usize, Option<SegmentLayout>),
    goblin::error::Error,
>)
    ensures
        mach_command_at(bytes@, at, is_64, little_endian) == match r {
            Ok(read) => Some(read),
            Err(_) => None,
        },
{
    let container = if is_64 { Container::Big } else { Container::Little };
    let ctx = Ctx::new(container, Endian::from(little_endian));
    let mut next = at;
    let command = LoadCommand::parse(bytes, &mut next, ctx.le)?;
    let segment = match command.command {
        CommandVariant::Segment32(raw) => Segment::from_32(bytes, &raw, command.offset, ctx)?,
        CommandVariant::Segment64(raw) => Segment::from_64(bytes, &raw, command.offset, ctx)?,
        _ => return Ok((next, None)),
    };
    let sections = segment.sections()?.iter().map(
        |(section, data)| section_layout(section.sectname, section.offset, data.len()),
    ).collect();
    Ok((next, Some(SegmentLayout { name: segment.segname, sections })))
}

/// The layout of a section from what its header gives.
fn section_layout(name: [u8; 16], offset: u32, len: usize) -> (r: SectionLayout)
    ensures
        r.name == name,
        r.offset == offset,
        r.len == len,
{
    SectionLayout { name, offset: offset as usize, len }
}

/// The segments among the `count` load commands from offset `at`, in their
/// order; none where one of the commands cannot be read.
pub open spec fn segments_from(bytes: Seq<u8>, header: MachHeader, at: usize, count: nat) -> Option<
    Seq<SegmentLayout>,
>
    decreases count,
{
    if count == 0 {
        Some(Seq::empty())
    } else {
        match mach_command_at(bytes, at, header.is_64, header.little_endian) {
            Some((next, found)) => following(
                match found {
                    Some(segment) => seq![segment],
                    None => Seq::empty(),
                },
                segments_from(bytes, header, next, (count - 1) as nat),
            ),
            None => None,
        }
    }
}

/// `first` followed by `rest`, where there is a rest.
pub open spec fn following(first: Seq<SegmentLayout>, rest: Option<Seq<SegmentLayout>>) -> Option<
    Seq<SegmentLayout>,
> {
    match rest {
        Some(more) => Some(first + more),
        None => None,
    }
}

/// The segments of `bytes` read as a Mach-O binary of one architecture: those
/// among the load commands that the header counts, walked from behind the
/// header. There are none where the header cannot be read, where it counts
/// more commands than fit the bytes it gives them or gives them more bytes
/// than the file has, and where a command cannot be read.
pub open spec fn mach_segments_of(bytes: Seq<u8>) -> Option<Seq<SegmentLayout>> {
    match mach_header_of(bytes) {
        Some(header) => if header.ncmds > header.sizeofcmds / 8 || header.sizeofcmds
            > bytes.len() {
            None
        } else {
            segments_from(bytes, header, header.size, header.ncmds as nat)
        },
        None => None,
    }
}

/// Lists the segments of `bytes` read as a Mach-O binary of one
/// architecture, each with its sections.
pub fn parse_mach_segments(bytes: &[u8]) -> (r: Option<Vec<SegmentLayout>>)
    ensures
        match r {
            Some(segments) => mach_segments_of(bytes@) == Some(segments@),
            None => mach_segments_of(bytes@).is_none(),
        },
{
    let header = match read_mach_header(bytes) {
        Ok(header) => header,
        Err(_) => {
            return None;
        },
    };
    if header.ncmds > (header.sizeofcmds / 8) as usize || header.sizeofcmds as usize > bytes.len() {
        return None;
    }
    let mut segments: Vec<SegmentLayout> = Vec::new();
    let mut at: usize = header.size;
    let mut done: usize = 0;
    proof {
        lemma_following_none(segments_from(bytes@, header, at, header.ncmds as nat));
    }
    while done < header.ncmds
        invariant
            done <= header.ncmds,
            mach_segments_of(bytes@) == segments_from(
                bytes@,
                header,
                header.size,
                header.ncmds as nat,
            ),
            segments_from(bytes@, header, header.size, header.ncmds as nat) == following(
                segments@,
                segments_from(bytes@, header, at, (header.ncmds - done) as nat),
            ),
        decreases header.ncmds - done,
    {
        let ghost before = segments@;
        let ghost rest = segments_from(bytes@, header, at, (header.ncmds - done) as nat);
        match read_mach_command(bytes, at, header.is_64, header.little_endian) {
            Ok((next, found)) => {
                match found {
                    Some(segment) => {
                        segments.push(segment);
                    },
                    None => {},
                }
                proof {
                    let tail = segments_from(bytes@, header, next, (header.ncmds - done - 1) as nat);
                    match tail {
                        Some(more) => {
                            assert(rest->0 =~= (segments@.skip(before.len() as int)) + more);
                            assert(before + rest->0 =~= segments@ + more);
                        },
                        None => {},
                    }
                }
                at = next;
            },
            Err(_) => {
                return None;
            },
        }
        done += 1;
    }
    proof {
        assert(segments@ + Seq::<SegmentLayout>::empty() =~= segments@);
    }
    Some(segments)
}

/// Nothing followed by a rest is that rest.
proof fn lemma_following_none(rest: Option<Seq<SegmentLayout>>)
    ensures
        following(Seq::empty(), rest) == rest,
{
    match rest {
        Some(more) => {
            assert(Seq::<SegmentLayout>::empty() + more =~= more);
        },
        None => {},
    }
}

/// The name of the segment that holds the code: `__TEXT`.
pub open spec fn text_segment_name() -> Seq<u8> {
    seq![0x5fu8, 0x5fu8, 0x54u8, 0x45u8, 0x58u8, 0x54u8]
}

/// The name of the section that holds the code: `__text`.
pub open spec fn text_section_name() -> Seq<u8> {
    seq![0x5fu8, 0x5fu8, 0x74u8, 0x65u8, 0x78u8, 0x74u8]
}

/// Whether the zero-padded `raw` spells `name`.
pub open spec fn name_is(raw: Seq<u8>, name: Seq<u8>) -> bool {
    &&& raw.len() >= name.len()
    &&& raw.take(name.len() as int) == name
    &&& raw.len() == name.len() || raw[name.len() as int] == 0
}

/// The first place at which `found` holds, if it holds at any.
pub open spec fn first_true(found: Seq<bool>) -> Option<int>
    decreases found.len(),
{
    if found.len() == 0 {
        None
    } else {
        match first_true(found.drop_last()) {
            Some(i) => Some(i),
            None => if found.last() {
                Some(found.len() - 1)
            } else {
                None
            },
        }
    }
}

/// The offset and length of the code of a Mach-O binary: of the first
/// section named `__text` in the first segment named `__TEXT`, or in the
/// first segment of all where none has that name.
pub open spec fn located_text(segments: Seq<SegmentLayout>) -> Option<(usize, usize)> {
    if segments.len() == 0 {
        None
    } else {
        let segment = match first_true(
            segments.map_values(|s: SegmentLayout| name_is(s.name@, text_segment_name())),
        ) {
            Some(i) => segments[i],
            None => segments[0],
        };
        match first_true(
            segment.sections@.map_values(|s: SectionLayout| name_is(s.name@, text_section_name())),
        ) {
            Some(j) => Some((segment.sections@[j].offset, segment.sections@[j].len)),
            None => None,
        }
    }
}

/// The code found among `segments`, if it lies within a file of `total`
/// bytes.
pub open spec fn checked_region(total: nat, segments: Option<Seq<SegmentLayout>>) -> Result<
    (usize, usize),
    StegoError,
> {
    match segments {
        Some(list) => match located_text(list) {
            Some((offset, len)) => if offset + len <= total {
                Ok((offset, len))
            } else {
                Err(StegoError::UnsupportedCarrierLayout)
            },
            None => Err(StegoError::UnsupportedCarrierLayout),
        },
        None => Err(StegoError::UnsupportedCarrierLayout),
    }
}

/// The offset and length of the code in a host binary: only a file of at
/// least sixteen bytes that is a Mach-O binary of one architecture has one
/// here.
pub open spec fn code_region(bytes: Seq<u8>) -> Result<(usize, usize), StegoError> {
    if bytes.len() < 16 {
        Err(StegoError::UnsupportedCarrierLayout)
    } else {
        match object_kind_of(bytes.subrange(0, 16)) {
            Some(ObjectKind::MachBinary) => checked_region(bytes.len(), mach_segments_of(bytes)),
            _ => Err(StegoError::UnsupportedCarrierLayout),
        }
    }
}

/// What `first_true` finds is a place where `found` holds with none before
/// it, and it finds none only where there is none.
proof fn lemma_first_true(found: Seq<bool>)
    ensures
        match first_true(found) {
            Some(i) => 0 <= i < found.len() && found[i] && forall|j: int|
                0 <= j < i ==> !#[trigger] found[j],
            None => forall|j: int| 0 <= j < found.len() ==> !#[trigger] found[j],
        },
    decreases found.len(),
{
    if found.len() > 0 {
        lemma_first_true(found.drop_last());
        match first_true(found.drop_last()) {
            Some(i) => {
                assert forall|j: int| 0 <= j < i implies !#[trigger] found[j] by {
                    assert(found[j] == found.drop_last()[j]);
                }
            },
            None => {
                assert forall|j: int| 0 <= j < found.len() - 1 implies !#[trigger] found[j] by {
                    assert(found[j] == found.drop_last()[j]);
                }
            },
        }
    }
}

/// The first place with `found` true is the only one with none before it.
proof fn lemma_first_true_is(found: Seq<bool>, i: int)
    requires
        0 <= i < found.len(),
        found[i],
        forall|j: int| 0 <= j < i ==> !#[trigger] found[j],
    ensures
        first_true(found) == Some(i),
{
    lemma_first_true(found);
}

/// Where `found` holds nowhere, there is no first place.
proof fn lemma_first_true_none(found: Seq<bool>)
    requires
        forall|j: int| 0 <= j < found.len() ==> !#[trigger] found[j],
    ensures
        first_true(found).is_none(),
{
    lemma_first_true(found);
}

/// Whether the zero-padded `raw` spells `name`.
fn name_matches(raw: &[u8; 16], name: &Vec<u8>) -> (r: bool)
    requires
        name@.len() <= 16,
    ensures
        r == name_is(raw@, name@),
{
    let mut i: usize = 0;
    while i < name.len()
        invariant
            i <= name@.len() <= 16,
            raw@.take(i as int) == name@.take(i as int),
        decreases name@.len() - i,
    {
        if raw[i] != name[i] {
            proof {
                assert(raw@.take(name@.len() as int)[i as int] != name@[i as int]);
            }
            return false;
        }
        i += 1;
        proof {
            assert(raw@.take(i as int) =~= name@.take(i as int));
        }
    }
    proof {
        assert(name@.take(i as int) =~= name@);
    }
    name.len() == 16 || raw[name.len()] == 0
}

/// Finds the code of a Mach-O binary among its segments.
pub fn locate_text(segments: &Vec<SegmentLayout>) -> (r: Option<(usize, usize)>)
    ensures
        r == located_text(segments@),
{
    if segments.len() == 0 {
        return None;
    }
    let segment_name: Vec<u8> = vec![0x5fu8, 0x5fu8, 0x54u8, 0x45u8, 0x58u8, 0x54u8];
    let section_name: Vec<u8> = vec![0x5fu8, 0x5fu8, 0x74u8, 0x65u8, 0x78u8, 0x74u8];
    proof {
        assert(segment_name@ =~= text_segment_name());
        assert(section_name@ =~= text_section_name());
    }
    let ghost segment_found = segments@.map_values(
        |s: SegmentLayout| name_is(s.name@, text_segment_name()),
    );
    let mut chosen: usize = 0;
    let mut i: usize = 0;
    let mut found: bool = false;
    while i < segments.len() && !found
        invariant
            i <= segments@.len(),
            segment_name@ == text_segment_name(),
            segment_found == segments@.map_values(
                |s: SegmentLayout| name_is(s.name@, text_segment_name()),
            ),
            found ==> chosen < segments@.len() && first_true(segment_found) == Some(chosen as int),
            !found ==> chosen == 0 && forall|j: int| 0 <= j < i ==> !#[trigger] segment_found[j],
        decreases segments@.len() - i + (if found { 0int } else { 1int }),
    {
        if name_matches(&segments[i].name, &segment_name) {
            proof {
                lemma_first_true_is(segment_found, i as int);
            }
            chosen = i;
            found = true;
        } else {
            i += 1;
        }
    }
    proof {
        if !found {
            lemma_first_true_none(segment_found);
        }
    }
    let sections = &segments[chosen].sections;
    let ghost section_found = sections@.map_values(
        |s: SectionLayout| name_is(s.name@, text_section_name()),
    );
    let mut j: usize = 0;
    while j < sections.len()
        invariant
            j <= sections@.len(),
            segments@.len() > 0,
            sections@ == (match first_true(
                segments@.map_values(|s: SegmentLayout| name_is(s.name@, text_segment_name())),
            ) {
                Some(i) => segments@[i],
                None => segments@[0],
            }).sections@,
            section_name@ == text_section_name(),
            section_found == sections@.map_values(
                |s: SectionLayout| name_is(s.name@, text_section_name()),
            ),
            forall|t: int| 0 <= t < j ==> !#[trigger] section_found[t],
        decreases sections@.len() - j,
    {
        if name_matches(&sections[j].name, &section_name) {
            proof {
                lemma_first_true_is(section_found, j as int);
            }
            return Some((sections[j].offset, sections[j].len));
        }
        j += 1;
    }
    proof {
        lemma_first_true_none(section_found);
    }
    None
}

/// Finds the code among the segments that were parsed from a file of `total`
/// bytes.
pub fn check_region(total: usize, segments: &Vec<SegmentLayout>) -> (r: Result<
    (usize, usize),
    StegoError,
>)
    ensures
        r == checked_region(total as nat, Some(segments@)),
{
    match locate_text(segments) {
        Some((offset, len)) => {
            if offset <= total && len <= total - offset {
                Ok((offset, len))
            } else {
                Err(StegoError::UnsupportedCarrierLayout)
            }
        },
        None => Err(StegoError::UnsupportedCarrierLayout),
    }
}

/// Finds the code in a host binary.
pub(crate) fn locate_code(bytes: &[u8]) -> (r: Result<(usize, usize), StegoError>)
    ensures
        r == code_region(bytes@),
{
    if bytes.len() < 16 {
        return Err(StegoError::UnsupportedCarrierLayout);
    }
    let mut hint: [u8; 16] = [0u8; 16];
    let mut i: usize = 0;
    while i < 16
        invariant
            i <= 16,
            bytes@.len() >= 16,
            forall|j: int| 0 <= j < i ==> hint@[j] == bytes@[j],
        decreases 16 - i,
    {
        hint[i] = bytes[i];
        i += 1;
    }
    proof {
        assert(hint@ =~= bytes@.subrange(0, 16));
    }
    match peek_object_kind(&hint) {
        Ok(ObjectKind::MachBinary) => {},
        _ => {
            return Err(StegoError::UnsupportedCarrierLayout);
        },
    }
    match parse_mach_segments(bytes) {
        Some(segments) => check_region(bytes.len(), &segments),
        None => Err(StegoError::UnsupportedCarrierLayout),
    }
}

} // verus!
