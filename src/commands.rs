//! The load-command dispatcher: reads one command prefix, decodes segment
//! commands with their sections, and skips every other command by its
//! declared size.
use vstd::prelude::*;
use crate::cursor::{ByteCursor, DecodeError, u32_le};
use crate::records::{
    FromRead, LoadCommand, SegmentCommand32, SegmentCommand64, Section32, Section64,
};

verus! {

/// The tag of a 32-bit segment command.
pub const LC_SEGMENT: u32 = 0x1;

/// The tag of a 64-bit segment command.
pub const LC_SEGMENT_64: u32 = 0x19;

/// The bit of a tag that marks a command the loader must understand.
pub const LC_REQ_DYLD: u32 = 0x8000_0000;

/// Whether the loader must understand a command that this decoder skipped.
#[derive(Clone, Copy, Debug, PartialEq, Eq, Structural)]
pub enum Requirement {
    Required,
    Optional,
}

/// A 32-bit segment descriptor and the sections that follow it.
#[derive(Clone, Debug, PartialEq, Eq)]
pub struct Segment32 {
    pub segment: SegmentCommand32,
    pub sections: Vec<Section32>,
}

/// A 64-bit segment descriptor and the sections that follow it.
#[derive(Clone, Debug, PartialEq, Eq)]
pub struct Segment64 {
    pub segment: SegmentCommand64,
    pub sections: Vec<Section64>,
}

/// A command that was skipped, with its prefix and its classification.
#[derive(Clone, Copy, Debug, PartialEq, Eq, Structural)]
pub struct UnknownCommand {
    pub cmd_type: u32,
    pub size: u32,
    pub requirement: Requirement,
}

/// One decoded load command.
#[derive(Clone, Debug, PartialEq, Eq)]
pub enum Command {
    Segment32(Segment32),
    Segment64(Segment64),
    Unknown(UnknownCommand),
}

/// The size of the prefix that starts every load command.
pub open spec fn prefix_size() -> nat {
    8
}

/// The section count stored in a 32-bit segment descriptor at `pos`.
pub open spec fn sections_count32(data: Seq<u8>, pos: int) -> u32 {
    u32_le(data, pos + 40)
}

/// The section count stored in a 64-bit segment descriptor at `pos`.
pub open spec fn sections_count64(data: Seq<u8>, pos: int) -> u32 {
    u32_le(data, pos + 56)
}

/// The bytes a 32-bit segment descriptor at `pos` spans with its sections.
pub open spec fn segment32_span(data: Seq<u8>, pos: int) -> int {
    48 + sections_count32(data, pos) * 68
}

/// The bytes a 64-bit segment descriptor at `pos` spans with its sections.
pub open spec fn segment64_span(data: Seq<u8>, pos: int) -> int {
    64 + sections_count64(data, pos) * 80
}

/// A 32-bit segment descriptor and all its sections are present at `pos`.
pub open spec fn segment32_fits(data: Seq<u8>, pos: int) -> bool {
    pos + 48 <= data.len() && pos + segment32_span(data, pos) <= data.len()
}

/// A 64-bit segment descriptor and all its sections are present at `pos`.
pub open spec fn segment64_fits(data: Seq<u8>, pos: int) -> bool {
    pos + 64 <= data.len() && pos + segment64_span(data, pos) <= data.len()
}

impl Segment32 {
    /// `self` is the descriptor at `pos` followed by its sections in order.
    pub open spec fn decoded_at(self, data: Seq<u8>, pos: int) -> bool {
        &&& self.segment.decoded_at(data, pos)
        &&& self.sections@.len() == self.segment.sections_count
        &&& forall|i: int|
            0 <= i < self.sections@.len() ==> #[trigger] self.sections@[i].decoded_at(
                data,
                pos + 48 + i * 68,
            )
    }
}

impl Segment64 {
    /// `self` is the descriptor at `pos` followed by its sections in order.
    pub open spec fn decoded_at(self, data: Seq<u8>, pos: int) -> bool {
        &&& self.segment.decoded_at(data, pos)
        &&& self.sections@.len() == self.segment.sections_count
        &&& forall|i: int|
            0 <= i < self.sections@.len() ==> #[trigger] self.sections@[i].decoded_at(
                data,
                pos + 64 + i * 80,
            )
    }
}

/// The classification of a tag: required exactly when its top bit is set.
pub open spec fn requirement_of(tag: u32) -> Requirement {
    if tag >= 0x8000_0000 {
        Requirement::Required
    } else {
        Requirement::Optional
    }
}

impl Command {
    /// The number of bytes the command occupies, prefix included.
    pub open spec fn size_spec(self) -> int {
        match self {
            Command::Segment32(s) => (prefix_size() + 48 + s.sections@.len() * 68) as int,
            Command::Segment64(s) => (prefix_size() + 64 + s.sections@.len() * 80) as int,
            Command::Unknown(u) => u.size as int,
        }
    }
}

/// The tag of the command at `pos`.
pub open spec fn tag_at(data: Seq<u8>, pos: int) -> u32 {
    u32_le(data, pos)
}

/// The declared size of the command at `pos`.
pub open spec fn size_at(data: Seq<u8>, pos: int) -> u32 {
    u32_le(data, pos + 4)
}

/// Why the command at `pos` cannot be decoded, if it cannot.
pub open spec fn command_error(data: Seq<u8>, pos: int) -> Option<DecodeError> {
    let tag = tag_at(data, pos);
    let size = size_at(data, pos) as int;
    let body = pos + prefix_size();
    if pos + prefix_size() > data.len() {
        Some(DecodeError::TruncatedInput)
    } else if size < prefix_size() {
        Some(DecodeError::MalformedRecord)
    } else if tag == LC_SEGMENT {
        if !segment32_fits(data, body) {
            Some(DecodeError::TruncatedInput)
        } else if size != prefix_size() + segment32_span(data, body) {
            Some(DecodeError::SizeMismatch)
        } else {
            None
        }
    } else if tag == LC_SEGMENT_64 {
        if !segment64_fits(data, body) {
            Some(DecodeError::TruncatedInput)
        } else if size != prefix_size() + segment64_span(data, body) {
            Some(DecodeError::SizeMismatch)
        } else {
            None
        }
    } else if pos + size > data.len() {
        Some(DecodeError::TruncatedInput)
    } else {
        None
    }
}

/// `c` is the command at `pos`, and it spans its declared size.
pub open spec fn command_decoded_at(c: Command, data: Seq<u8>, pos: int) -> bool {
    let tag = tag_at(data, pos);
    let body = pos + prefix_size();
    &&& c.size_spec() == size_at(data, pos) as int
    &&& match c {
        Command::Segment32(s) => tag == LC_SEGMENT && s.decoded_at(data, body),
        Command::Segment64(s) => tag == LC_SEGMENT_64 && s.decoded_at(data, body),
        Command::Unknown(u) => {
            &&& tag != LC_SEGMENT
            &&& tag != LC_SEGMENT_64
            &&& u.cmd_type == tag
            &&& u.size == size_at(data, pos)
            &&& u.requirement == requirement_of(tag)
        },
    }
}

/// Classifies a tag that no decoder understands: required by the loader
/// exactly when its most significant bit is set.
pub fn classify(tag: u32) -> (r: Requirement)
    ensures
        r == requirement_of(tag),
        (r == Requirement::Required) <==> (tag & 0x8000_0000u32) != 0,
{
    assert((tag & 0x8000_0000u32) != 0 <==> tag >= 0x8000_0000u32) by (bit_vector);
    if tag & LC_REQ_DYLD != 0 {
        Requirement::Required
    } else {
        Requirement::Optional
    }
}

/// Decodes a 32-bit segment descriptor and the sections it declares.
pub fn read_segment32(cursor: &mut ByteCursor) -> (r: Result<Segment32, DecodeError>)
    requires
        old(cursor).wf(),
    ensures
        old(cursor).same_source(final(cursor)),
        r.is_ok() <==> segment32_fits(old(cursor).data@, old(cursor).pos as int),
        match r {
            Ok(s) => s.decoded_at(old(cursor).data@, old(cursor).pos as int) && final(cursor).pos
                == old(cursor).pos + segment32_span(old(cursor).data@, old(cursor).pos as int),
            Err(e) => e == DecodeError::TruncatedInput,
        },
{
    let ghost data = cursor.data@;
    let ghost p = cursor.pos as int;
    let segment = match SegmentCommand32::read(cursor) {
        Ok(s) => s,
        Err(e) => return Err(e),
    };
    let n = segment.sections_count;
    let mut sections: Vec<Section32> = Vec::new();
    let mut i: u32 = 0;
    while i < n
        invariant
            cursor.wf(),
            cursor.data@ == data,
            data == old(cursor).data@,
            p == old(cursor).pos,
            segment.decoded_at(data, p),
            n == segment.sections_count,
            i <= n,
            cursor.pos == p + 48 + i * 68,
            sections@.len() == i,
            forall|j: int|
                0 <= j < i ==> #[trigger] sections@[j].decoded_at(data, p + 48 + j * 68),
        decreases n - i,
    {
        let section = match Section32::read(cursor) {
            Ok(s) => s,
            Err(e) => {
                assert(!segment32_fits(data, p)) by {
                    assert(data.len() < p + 48 + (i + 1) * 68);
                    assert((i + 1) * 68 <= n * 68) by (nonlinear_arith)
                        requires i + 1 <= n;
                }
                return Err(e);
            },
        };
        sections.push(section);
        i += 1;
    }
    Ok(Segment32 { segment, sections })
}

/// Decodes a 64-bit segment descriptor and the sections it declares.
pub fn read_segment64(cursor: &mut ByteCursor) -> (r: Result<Segment64, DecodeError>)
    requires
        old(cursor).wf(),
    ensures
        old(cursor).same_source(final(cursor)),
        r.is_ok() <==> segment64_fits(old(cursor).data@, old(cursor).pos as int),
        match r {
            Ok(s) => s.decoded_at(old(cursor).data@, old(cursor).pos as int) && final(cursor).pos
                == old(cursor).pos + segment64_span(old(cursor).data@, old(cursor).pos as int),
            Err(e) => e == DecodeError::TruncatedInput,
        },
{
    let ghost data = cursor.data@;
    let ghost p = cursor.pos as int;
    let segment = match SegmentCommand64::read(cursor) {
        Ok(s) => s,
        Err(e) => return Err(e),
    };
    let n = segment.sections_count;
    let mut sections: Vec<Section64> = Vec::new();
    let mut i: u32 = 0;
    while i < n
        invariant
            cursor.wf(),
            cursor.data@ == data,
            data == old(cursor).data@,
            p == old(cursor).pos,
            segment.decoded_at(data, p),
            n == segment.sections_count,
            i <= n,
            cursor.pos == p + 64 + i * 80,
            sections@.len() == i,
            forall|j: int|
                0 <= j < i ==> #[trigger] sections@[j].decoded_at(data, p + 64 + j * 80),
        decreases n - i,
    {
        let section = match Section64::read(cursor) {
            Ok(s) => s,
            Err(e) => {
                assert(!segment64_fits(data, p)) by {
                    assert(data.len() < p + 64 + (i + 1) * 80);
                    assert((i + 1) * 80 <= n * 80) by (nonlinear_arith)
                        requires i + 1 <= n;
                }
                return Err(e);
            },
        };
        sections.push(section);
        i += 1;
    }
    Ok(Segment64 { segment, sections })
}

/// Decodes the load command at the cursor.
///
/// Segment commands are decoded with their sections and must span exactly
/// their declared size; any other command is skipped by its declared size,
/// whatever its payload holds, and classified by its tag.
pub fn read_command(cursor: &mut ByteCursor) -> (r: Result<Command, DecodeError>)
    requires
        old(cursor).wf(),
    ensures
        old(cursor).same_source(final(cursor)),
        r.is_err() <==> command_error(old(cursor).data@, old(cursor).pos as int) is Some,
        match r {
            Ok(c) => {
                &&& command_decoded_at(c, old(cursor).data@, old(cursor).pos as int)
                &&& final(cursor).pos == old(cursor).pos + size_at(old(cursor).data@, old(cursor).pos as int)
            },
            Err(e) => command_error(old(cursor).data@, old(cursor).pos as int) == Some(e),
        },
{
    let start = cursor.position();
    let cmd = match LoadCommand::read(cursor) {
        Ok(c) => c,
        Err(e) => return Err(e),
    };
    if cmd.size < 8 {
        return Err(DecodeError::MalformedRecord);
    }
    if cmd.cmd_type == LC_SEGMENT {
        let segment = match read_segment32(cursor) {
            Ok(s) => s,
            Err(e) => return Err(e),
        };
        if cursor.position() - start != cmd.size as usize {
            return Err(DecodeError::SizeMismatch);
        }
        Ok(Command::Segment32(segment))
    } else if cmd.cmd_type == LC_SEGMENT_64 {
        let segment = match read_segment64(cursor) {
            Ok(s) => s,
            Err(e) => return Err(e),
        };
        if cursor.position() - start != cmd.size as usize {
            return Err(DecodeError::SizeMismatch);
        }
        Ok(Command::Segment64(segment))
    } else {
        match cursor.skip((cmd.size - 8) as usize) {
            Ok(()) => {},
            Err(e) => return Err(e),
        }
        Ok(
            Command::Unknown(
                UnknownCommand { cmd_type: cmd.cmd_type, size: cmd.size, requirement: classify(cmd.cmd_type) },
            ),
        )
    }
}

/// The bytes that store `sections` one after another.
pub open spec fn sections32_encoded(sections: Seq<Section32>) -> Seq<u8>
    decreases sections.len(),
{
    if sections.len() == 0 {
        Seq::empty()
    } else {
        sections32_encoded(sections.drop_last()) + sections.last().encoded()
    }
}

/// The bytes that store a 32-bit segment descriptor followed by its sections.
pub open spec fn segment32_encoded(segment: SegmentCommand32, sections: Seq<Section32>) -> Seq<u8> {
    segment.encoded() + sections32_encoded(sections)
}

proof fn lemma_sections32_layout(sections: Seq<Section32>)
    ensures
        sections32_encoded(sections).len() == 68 * sections.len(),
        forall|i: int|
            0 <= i < sections.len() ==> sections32_encoded(sections).subrange(68 * i, 68 * i + 68)
                == (#[trigger] sections[i]).encoded(),
    decreases sections.len(),
{
    if sections.len() > 0 {
        let init = sections.drop_last();
        lemma_sections32_layout(init);
        let enc = sections32_encoded(sections);
        let prev = sections32_encoded(init);
        assert(sections.last().encoded().len() == 68);
        assert forall|i: int| 0 <= i < sections.len() implies enc.subrange(68 * i, 68 * i + 68)
            == (#[trigger] sections[i]).encoded() by {
            if i < sections.len() - 1 {
                assert(init[i] == sections[i]);
                assert(68 * i + 68 <= prev.len()) by (nonlinear_arith)
                    requires
                        i + 1 <= init.len(),
                        prev.len() == 68 * init.len(),
                ;
                assert(enc.subrange(68 * i, 68 * i + 68) =~= prev.subrange(68 * i, 68 * i + 68));
            } else {
                assert(enc.subrange(68 * i, 68 * i + 68) =~= sections.last().encoded());
            }
        }
    }
}

/// Encoding a 32-bit segment descriptor with the sections it declares, then
/// decoding those bytes, gives back every field (names included, whatever
/// bytes they hold) and the sections in order; and the bytes are exactly
/// what the decoder needs, so decoding them succeeds.
pub proof fn lemma_segment32_round_trip(
    segment: SegmentCommand32,
    sections: Seq<Section32>,
    decoded: Segment32,
)
    requires
        sections.len() == segment.sections_count,
        decoded.decoded_at(segment32_encoded(segment, sections), 0),
    ensures
        segment32_fits(segment32_encoded(segment, sections), 0),
        segment32_span(segment32_encoded(segment, sections), 0) == segment32_encoded(
            segment,
            sections,
        ).len(),
        decoded.segment == segment,
        decoded.sections@ == sections,
{
    let enc = segment32_encoded(segment, sections);
    let head = segment.encoded();
    let tail = sections32_encoded(sections);
    lemma_sections32_layout(sections);
    assert(head.len() == 48);
    assert(enc.subrange(0, 48) =~= head);
    segment.lemma_round_trip(enc, 0, decoded.segment);
    assert forall|i: int| 0 <= i < sections.len() implies decoded.sections@[i] == #[trigger] sections[i] by {
        assert(68 * i + 68 <= tail.len()) by (nonlinear_arith)
            requires
                i + 1 <= sections.len(),
                tail.len() == 68 * sections.len(),
        ;
        assert(enc.subrange(48 + 68 * i, 48 + 68 * i + 68) =~= tail.subrange(68 * i, 68 * i + 68));
        assert(decoded.sections@[i].decoded_at(enc, 0 + 48 + i * 68));
        sections[i].lemma_round_trip(enc, 48 + 68 * i, decoded.sections@[i]);
    }
    assert(decoded.sections@ =~= sections);
}

/// Skipping a command that no decoder understands is blind to its payload:
/// two buffers of one length that agree on the command's 8-byte prefix give
/// the same outcome, and the same decoded command, whatever else they hold.
pub proof fn lemma_unknown_skip_content_blind(d1: Seq<u8>, d2: Seq<u8>, pos: int, c: Command)
    requires
        0 <= pos,
        pos + prefix_size() <= d1.len(),
        d1.len() == d2.len(),
        d1.subrange(pos, pos + 8) == d2.subrange(pos, pos + 8),
        tag_at(d1, pos) != LC_SEGMENT,
        tag_at(d1, pos) != LC_SEGMENT_64,
    ensures
        command_error(d1, pos) == command_error(d2, pos),
        command_decoded_at(c, d1, pos) <==> command_decoded_at(c, d2, pos),
{
    assert forall|k: int| 0 <= k < 8 implies #[trigger] d1[pos + k] == d2[pos + k] by {
        assert(d1.subrange(pos, pos + 8)[k] == d1[pos + k]);
        assert(d2.subrange(pos, pos + 8)[k] == d2[pos + k]);
    }
    assert(tag_at(d1, pos) == tag_at(d2, pos)) by {
        assert(d1[pos + 0] == d2[pos + 0]);
        assert(d1[pos + 1] == d2[pos + 1]);
        assert(d1[pos + 2] == d2[pos + 2]);
        assert(d1[pos + 3] == d2[pos + 3]);
    }
    assert(size_at(d1, pos) == size_at(d2, pos)) by {
        assert(d1[pos + 4] == d2[pos + 4]);
        assert(d1[pos + 5] == d2[pos + 5]);
        assert(d1[pos + 6] == d2[pos + 6]);
        assert(d1[pos + 7] == d2[pos + 7]);
    }
}

/// The bytes that store `sections` one after another.
pub open spec fn sections64_encoded(sections: Seq<Section64>) -> Seq<u8>
    decreases sections.len(),
{
    if sections.len() == 0 {
        Seq::empty()
    } else {
        sections64_encoded(sections.drop_last()) + sections.last().encoded()
    }
}

/// The bytes that store a 64-bit segment descriptor followed by its sections.
pub open spec fn segment64_encoded(segment: SegmentCommand64, sections: Seq<Section64>) -> Seq<u8> {
    segment.encoded() + sections64_encoded(sections)
}

proof fn lemma_sections64_layout(sections: Seq<Section64>)
    ensures
        sections64_encoded(sections).len() == 80 * sections.len(),
        forall|i: int|
            0 <= i < sections.len() ==> sections64_encoded(sections).subrange(80 * i, 80 * i + 80)
                == (#[trigger] sections[i]).encoded(),
    decreases sections.len(),
{
    if sections.len() > 0 {
        let init = sections.drop_last();
        lemma_sections64_layout(init);
        let enc = sections64_encoded(sections);
        let prev = sections64_encoded(init);
        assert(sections.last().encoded().len() == 80);
        assert forall|i: int| 0 <= i < sections.len() implies enc.subrange(80 * i, 80 * i + 80)
            == (#[trigger] sections[i]).encoded() by {
            if i < sections.len() - 1 {
                assert(init[i] == sections[i]);
                assert(80 * i + 80 <= prev.len()) by (nonlinear_arith)
                    requires
                        i + 1 <= init.len(),
                        prev.len() == 80 * init.len(),
                ;
                assert(enc.subrange(80 * i, 80 * i + 80) =~= prev.subrange(80 * i, 80 * i + 80));
            } else {
                assert(enc.subrange(80 * i, 80 * i + 80) =~= sections.last().encoded());
            }
        }
    }
}

/// Encoding a 64-bit segment descriptor with the sections it declares, then
/// decoding those bytes, gives back every field (names included, whatever
/// bytes they hold) and the sections in order; and the bytes are exactly
/// what the decoder needs, so decoding them succeeds.
pub proof fn lemma_segment64_round_trip(
    segment: SegmentCommand64,
    sections: Seq<Section64>,
    decoded: Segment64,
)
    requires
        sections.len() == segment.sections_count,
        decoded.decoded_at(segment64_encoded(segment, sections), 0),
    ensures
        segment64_fits(segment64_encoded(segment, sections), 0),
        segment64_span(segment64_encoded(segment, sections), 0) == segment64_encoded(
            segment,
            sections,
        ).len(),
        decoded.segment == segment,
        decoded.sections@ == sections,
{
    let enc = segment64_encoded(segment, sections);
    let head = segment.encoded();
    let tail = sections64_encoded(sections);
    lemma_sections64_layout(sections);
    assert(head.len() == 64);
    assert(enc.subrange(0, 64) =~= head);
    segment.lemma_round_trip(enc, 0, decoded.segment);
    assert forall|i: int| 0 <= i < sections.len() implies decoded.sections@[i] == #[trigger] sections[i] by {
        assert(80 * i + 80 <= tail.len()) by (nonlinear_arith)
            requires
                i + 1 <= sections.len(),
                tail.len() == 80 * sections.len(),
        ;
        assert(enc.subrange(64 + 80 * i, 64 + 80 * i + 80) =~= tail.subrange(80 * i, 80 * i + 80));
        assert(decoded.sections@[i].decoded_at(enc, 0 + 64 + i * 80));
        sections[i].lemma_round_trip(enc, 64 + 80 * i, decoded.sections@[i]);
    }
    assert(decoded.sections@ =~= sections);
}

} // verus!
