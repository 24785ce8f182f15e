//! The fixed-layout records of the load-command region, each decoded field by
//! field in declaration order, with no check on the values themselves.
use vstd::prelude::*;
use crate::cursor::{
    ByteCursor, DecodeError, lemma_u32_round_trip, lemma_u64_round_trip, u32_bytes, u32_le, u64_bytes,
    u64_le,
};

verus! {

/// A record of fixed size that can be decoded from a byte cursor.
pub trait FromRead: Sized {
    /// The number of bytes the record occupies.
    spec fn wire_size() -> nat;

    /// `self` is the record stored at `data[pos..pos + wire_size()]`.
    spec fn decoded_at(self, data: Seq<u8>, pos: int) -> bool;

    /// Decodes the record at the cursor as a whole, or fails with
    /// `TruncatedInput`, without moving, when fewer bytes are left.
    fn read(cursor: &mut ByteCursor) -> (r: Result<Self, DecodeError>)
        requires
            old(cursor).wf(),
        ensures
            old(cursor).same_source(final(cursor)),
            r.is_ok() <==> Self::wire_size() <= old(cursor).remaining_spec(),
            match r {
                Ok(v) => v.decoded_at(old(cursor).data@, old(cursor).pos as int) && final(cursor).pos
                    == old(cursor).pos + Self::wire_size(),
                Err(e) => e == DecodeError::TruncatedInput && final(cursor).pos == old(cursor).pos,
            },
    ;
}

/// The fixed part of a Mach-O header, after the magic number.
#[derive(Clone, Copy, Debug, PartialEq, Eq, Structural)]
pub struct Header {
    pub cpu_type: u32,
    pub cpu_subtype: u32,
    pub file_type: u32,
    pub load_commands_count: u32,
    pub size_load_command: u32,
    pub flags: u32,
}

impl FromRead for Header {
    open spec fn wire_size() -> nat {
        24
    }

    open spec fn decoded_at(self, data: Seq<u8>, pos: int) -> bool {
        &&& self.cpu_type == u32_le(data, pos)
        &&& self.cpu_subtype == u32_le(data, pos + 4)
        &&& self.file_type == u32_le(data, pos + 8)
        &&& self.load_commands_count == u32_le(data, pos + 12)
        &&& self.size_load_command == u32_le(data, pos + 16)
        &&& self.flags == u32_le(data, pos + 20)
    }

    fn read(cursor: &mut ByteCursor) -> (r: Result<Self, DecodeError>) {
        if cursor.remaining() < 24 {
            return Err(DecodeError::TruncatedInput);
        }
        let cpu_type = cursor.take_u32();
        let cpu_subtype = cursor.take_u32();
        let file_type = cursor.take_u32();
        let load_commands_count = cursor.take_u32();
        let size_load_command = cursor.take_u32();
        let flags = cursor.take_u32();
        Ok(Header { cpu_type, cpu_subtype, file_type, load_commands_count, size_load_command, flags })
    }
}

/// The prefix shared by all load commands: its tag and its total size,
/// prefix included.
#[derive(Clone, Copy, Debug, PartialEq, Eq, Structural)]
pub struct LoadCommand {
    pub cmd_type: u32,
    pub size: u32,
}

impl FromRead for LoadCommand {
    open spec fn wire_size() -> nat {
        8
    }

    open spec fn decoded_at(self, data: Seq<u8>, pos: int) -> bool {
        &&& self.cmd_type == u32_le(data, pos)
        &&& self.size == u32_le(data, pos + 4)
    }

    fn read(cursor: &mut ByteCursor) -> (r: Result<Self, DecodeError>) {
        if cursor.remaining() < 8 {
            return Err(DecodeError::TruncatedInput);
        }
        let cmd_type = cursor.take_u32();
        let size = cursor.take_u32();
        Ok(LoadCommand { cmd_type, size })
    }
}

/// The descriptor of a 32-bit segment, after the command prefix.
#[derive(Clone, Copy, Debug, PartialEq, Eq)]
pub struct SegmentCommand32 {
    pub name: [u8; 16],
    pub address: u32,
    pub address_size: u32,
    pub file_offset: u32,
    pub size: u32,
    pub max_protect: u32,
    pub init_protect: u32,
    pub sections_count: u32,
    pub flags: u32,
}

impl FromRead for SegmentCommand32 {
    open spec fn wire_size() -> nat {
        48
    }

    open spec fn decoded_at(self, data: Seq<u8>, pos: int) -> bool {
        &&& self.name@ == data.subrange(pos, pos + 16)
        &&& self.address == u32_le(data, pos + 16)
        &&& self.address_size == u32_le(data, pos + 20)
        &&& self.file_offset == u32_le(data, pos + 24)
        &&& self.size == u32_le(data, pos + 28)
        &&& self.max_protect == u32_le(data, pos + 32)
        &&& self.init_protect == u32_le(data, pos + 36)
        &&& self.sections_count == u32_le(data, pos + 40)
        &&& self.flags == u32_le(data, pos + 44)
    }

    fn read(cursor: &mut ByteCursor) -> (r: Result<Self, DecodeError>) {
        if cursor.remaining() < 48 {
            return Err(DecodeError::TruncatedInput);
        }
        let name = cursor.take_name();
        let address = cursor.take_u32();
        let address_size = cursor.take_u32();
        let file_offset = cursor.take_u32();
        let size = cursor.take_u32();
        let max_protect = cursor.take_u32();
        let init_protect = cursor.take_u32();
        let sections_count = cursor.take_u32();
        let flags = cursor.take_u32();
        Ok(
            SegmentCommand32 {
                name,
                address,
                address_size,
                file_offset,
                size,
                max_protect,
                init_protect,
                sections_count,
                flags,
            },
        )
    }
}

/// The descriptor of a 64-bit segment, after the command prefix.
#[derive(Clone, Copy, Debug, PartialEq, Eq)]
pub struct SegmentCommand64 {
    pub name: [u8; 16],
    pub address: u64,
    pub address_size: u64,
    pub file_offset: u64,
    pub size: u64,
    pub max_protect: u32,
    pub init_protect: u32,
    pub sections_count: u32,
    pub flags: u32,
}

impl FromRead for SegmentCommand64 {
    open spec fn wire_size() -> nat {
        64
    }

    open spec fn decoded_at(self, data: Seq<u8>, pos: int) -> bool {
        &&& self.name@ == data.subrange(pos, pos + 16)
        &&& self.address == u64_le(data, pos + 16)
        &&& self.address_size == u64_le(data, pos + 24)
        &&& self.file_offset == u64_le(data, pos + 32)
        &&& self.size == u64_le(data, pos + 40)
        &&& self.max_protect == u32_le(data, pos + 48)
        &&& self.init_protect == u32_le(data, pos + 52)
        &&& self.sections_count == u32_le(data, pos + 56)
        &&& self.flags == u32_le(data, pos + 60)
    }

    fn read(cursor: &mut ByteCursor) -> (r: Result<Self, DecodeError>) {
        if cursor.remaining() < 64 {
            return Err(DecodeError::TruncatedInput);
        }
        let name = cursor.take_name();
        let address = cursor.take_u64();
        let address_size = cursor.take_u64();
        let file_offset = cursor.take_u64();
        let size = cursor.take_u64();
        let max_protect = cursor.take_u32();
        let init_protect = cursor.take_u32();
        let sections_count = cursor.take_u32();
        let flags = cursor.take_u32();
        Ok(
            SegmentCommand64 {
                name,
                address,
                address_size,
                file_offset,
                size,
                max_protect,
                init_protect,
                sections_count,
                flags,
            },
        )
    }
}

/// A section of a 32-bit segment.
#[derive(Clone, Copy, Debug, PartialEq, Eq)]
pub struct Section32 {
    pub name: [u8; 16],
    pub segment_name: [u8; 16],
    pub section_addr: u32,
    pub section_size: u32,
    pub file_offset: u32,
    pub alignment: u32,
    pub reloc_file_offset: u32,
    pub reloc_count: u32,
    pub flag_type: u32,
    pub reserved: [u32; 2],
}

impl FromRead for Section32 {
    open spec fn wire_size() -> nat {
        68
    }

    open spec fn decoded_at(self, data: Seq<u8>, pos: int) -> bool {
        &&& self.name@ == data.subrange(pos, pos + 16)
        &&& self.segment_name@ == data.subrange(pos + 16, pos + 32)
        &&& self.section_addr == u32_le(data, pos + 32)
        &&& self.section_size == u32_le(data, pos + 36)
        &&& self.file_offset == u32_le(data, pos + 40)
        &&& self.alignment == u32_le(data, pos + 44)
        &&& self.reloc_file_offset == u32_le(data, pos + 48)
        &&& self.reloc_count == u32_le(data, pos + 52)
        &&& self.flag_type == u32_le(data, pos + 56)
        &&& self.reserved@ == seq![u32_le(data, pos + 60), u32_le(data, pos + 64)]
    }

    fn read(cursor: &mut ByteCursor) -> (r: Result<Self, DecodeError>) {
        if cursor.remaining() < 68 {
            return Err(DecodeError::TruncatedInput);
        }
        let name = cursor.take_name();
        let segment_name = cursor.take_name();
        let section_addr = cursor.take_u32();
        let section_size = cursor.take_u32();
        let file_offset = cursor.take_u32();
        let alignment = cursor.take_u32();
        let reloc_file_offset = cursor.take_u32();
        let reloc_count = cursor.take_u32();
        let flag_type = cursor.take_u32();
        let mut reserved: [u32; 2] = [0u32; 2];
        reserved[0] = cursor.take_u32();
        reserved[1] = cursor.take_u32();
        assert(reserved@ =~= seq![reserved@[0], reserved@[1]]);
        Ok(
            Section32 {
                name,
                segment_name,
                section_addr,
                section_size,
                file_offset,
                alignment,
                reloc_file_offset,
                reloc_count,
                flag_type,
                reserved,
            },
        )
    }
}

/// A section of a 64-bit segment.
#[derive(Clone, Copy, Debug, PartialEq, Eq)]
pub struct Section64 {
    pub name: [u8; 16],
    pub segment_name: [u8; 16],
    pub section_addr: u64,
    pub section_size: u64,
    pub file_offset: u32,
    pub alignment: u32,
    pub reloc_file_offset: u32,
    pub reloc_count: u32,
    pub flag_type: u32,
    pub reserved: [u32; 3],
}

impl FromRead for Section64 {
    open spec fn wire_size() -> nat {
        80
    }

    open spec fn decoded_at(self, data: Seq<u8>, pos: int) -> bool {
        &&& self.name@ == data.subrange(pos, pos + 16)
        &&& self.segment_name@ == data.subrange(pos + 16, pos + 32)
        &&& self.section_addr == u64_le(data, pos + 32)
        &&& self.section_size == u64_le(data, pos + 40)
        &&& self.file_offset == u32_le(data, pos + 48)
        &&& self.alignment == u32_le(data, pos + 52)
        &&& self.reloc_file_offset == u32_le(data, pos + 56)
        &&& self.reloc_count == u32_le(data, pos + 60)
        &&& self.flag_type == u32_le(data, pos + 64)
        &&& self.reserved@ == seq![
            u32_le(data, pos + 68),
            u32_le(data, pos + 72),
            u32_le(data, pos + 76),
        ]
    }

    fn read(cursor: &mut ByteCursor) -> (r: Result<Self, DecodeError>) {
        if cursor.remaining() < 80 {
            return Err(DecodeError::TruncatedInput);
        }
        let name = cursor.take_name();
        let segment_name = cursor.take_name();
        let section_addr = cursor.take_u64();
        let section_size = cursor.take_u64();
        let file_offset = cursor.take_u32();
        let alignment = cursor.take_u32();
        let reloc_file_offset = cursor.take_u32();
        let reloc_count = cursor.take_u32();
        let flag_type = cursor.take_u32();
        let mut reserved: [u32; 3] = [0u32; 3];
        reserved[0] = cursor.take_u32();
        reserved[1] = cursor.take_u32();
        reserved[2] = cursor.take_u32();
        assert(reserved@ =~= seq![reserved@[0], reserved@[1], reserved@[2]]);
        Ok(
            Section64 {
                name,
                segment_name,
                section_addr,
                section_size,
                file_offset,
                alignment,
                reloc_file_offset,
                reloc_count,
                flag_type,
                reserved,
            },
        )
    }
}

/// `enc` stands at `data[pos..]`, so any piece of it stands at the same
/// offset there.
proof fn lemma_piece(data: Seq<u8>, pos: int, enc: Seq<u8>, off: int, len: int)
    requires
        0 <= pos,
        pos + enc.len() <= data.len(),
        data.subrange(pos, pos + enc.len()) == enc,
        0 <= off,
        0 <= len,
        off + len <= enc.len(),
    ensures
        data.subrange(pos + off, pos + off + len) == enc.subrange(off, off + len),
{
    assert forall|k: int| 0 <= k < len implies #[trigger] data.subrange(pos + off, pos + off + len)[k]
        == enc.subrange(off, off + len)[k] by {
        assert(data.subrange(pos, pos + enc.len())[off + k] == enc[off + k]);
    }
    assert(data.subrange(pos + off, pos + off + len) =~= enc.subrange(off, off + len));
}

/// A `u32` piece of `enc` at `data[pos..]` reads back as its value.
proof fn lemma_u32_piece(data: Seq<u8>, pos: int, enc: Seq<u8>, off: int, x: u32)
    requires
        0 <= pos,
        pos + enc.len() <= data.len(),
        data.subrange(pos, pos + enc.len()) == enc,
        0 <= off,
        off + 4 <= enc.len(),
        enc.subrange(off, off + 4) == u32_bytes(x),
    ensures
        u32_le(data, pos + off) == x,
{
    lemma_piece(data, pos, enc, off, 4);
    lemma_u32_round_trip(data, pos + off, x);
}

/// A `u64` piece of `enc` at `data[pos..]` reads back as its value.
proof fn lemma_u64_piece(data: Seq<u8>, pos: int, enc: Seq<u8>, off: int, x: u64)
    requires
        0 <= pos,
        pos + enc.len() <= data.len(),
        data.subrange(pos, pos + enc.len()) == enc,
        0 <= off,
        off + 8 <= enc.len(),
        enc.subrange(off, off + 8) == u64_bytes(x),
    ensures
        u64_le(data, pos + off) == x,
{
    lemma_piece(data, pos, enc, off, 8);
    lemma_u64_round_trip(data, pos + off, x);
}

impl SegmentCommand32 {
    /// The bytes that store the descriptor, fields in declaration order.
    pub open spec fn encoded(self) -> Seq<u8> {
        self.name@ + u32_bytes(self.address) + u32_bytes(self.address_size) + u32_bytes(
            self.file_offset,
        ) + u32_bytes(self.size) + u32_bytes(self.max_protect) + u32_bytes(self.init_protect)
            + u32_bytes(self.sections_count) + u32_bytes(self.flags)
    }

    /// Decoding the bytes of a descriptor gives back the descriptor.
    pub proof fn lemma_round_trip(self, data: Seq<u8>, pos: int, decoded: SegmentCommand32)
        requires
            0 <= pos,
            pos + 48 <= data.len(),
            data.subrange(pos, pos + 48) == self.encoded(),
            decoded.decoded_at(data, pos),
        ensures
            decoded == self,
    {
        let enc = self.encoded();
        assert(enc.len() == 48);
        assert(enc.subrange(0, 16) =~= self.name@);
        assert(enc.subrange(16, 20) =~= u32_bytes(self.address));
        assert(enc.subrange(20, 24) =~= u32_bytes(self.address_size));
        assert(enc.subrange(24, 28) =~= u32_bytes(self.file_offset));
        assert(enc.subrange(28, 32) =~= u32_bytes(self.size));
        assert(enc.subrange(32, 36) =~= u32_bytes(self.max_protect));
        assert(enc.subrange(36, 40) =~= u32_bytes(self.init_protect));
        assert(enc.subrange(40, 44) =~= u32_bytes(self.sections_count));
        assert(enc.subrange(44, 48) =~= u32_bytes(self.flags));
        lemma_piece(data, pos, enc, 0, 16);
        lemma_u32_piece(data, pos, enc, 16, self.address);
        lemma_u32_piece(data, pos, enc, 20, self.address_size);
        lemma_u32_piece(data, pos, enc, 24, self.file_offset);
        lemma_u32_piece(data, pos, enc, 28, self.size);
        lemma_u32_piece(data, pos, enc, 32, self.max_protect);
        lemma_u32_piece(data, pos, enc, 36, self.init_protect);
        lemma_u32_piece(data, pos, enc, 40, self.sections_count);
        lemma_u32_piece(data, pos, enc, 44, self.flags);
        assert(decoded.name =~= self.name);
    }
}

impl Section32 {
    /// The bytes that store the section, fields in declaration order.
    pub open spec fn encoded(self) -> Seq<u8> {
        self.name@ + self.segment_name@ + u32_bytes(self.section_addr) + u32_bytes(
            self.section_size,
        ) + u32_bytes(self.file_offset) + u32_bytes(self.alignment) + u32_bytes(
            self.reloc_file_offset,
        ) + u32_bytes(self.reloc_count) + u32_bytes(self.flag_type) + u32_bytes(self.reserved[0])
            + u32_bytes(self.reserved[1])
    }

    /// Decoding the bytes of a section gives back the section.
    pub proof fn lemma_round_trip(self, data: Seq<u8>, pos: int, decoded: Section32)
        requires
            0 <= pos,
            pos + 68 <= data.len(),
            data.subrange(pos, pos + 68) == self.encoded(),
            decoded.decoded_at(data, pos),
        ensures
            decoded == self,
    {
        let enc = self.encoded();
        assert(enc.len() == 68);
        assert(enc.subrange(0, 16) =~= self.name@);
        assert(enc.subrange(16, 32) =~= self.segment_name@);
        assert(enc.subrange(32, 36) =~= u32_bytes(self.section_addr));
        assert(enc.subrange(36, 40) =~= u32_bytes(self.section_size));
        assert(enc.subrange(40, 44) =~= u32_bytes(self.file_offset));
        assert(enc.subrange(44, 48) =~= u32_bytes(self.alignment));
        assert(enc.subrange(48, 52) =~= u32_bytes(self.reloc_file_offset));
        assert(enc.subrange(52, 56) =~= u32_bytes(self.reloc_count));
        assert(enc.subrange(56, 60) =~= u32_bytes(self.flag_type));
        assert(enc.subrange(60, 64) =~= u32_bytes(self.reserved[0]));
        assert(enc.subrange(64, 68) =~= u32_bytes(self.reserved[1]));
        lemma_piece(data, pos, enc, 0, 16);
        lemma_piece(data, pos, enc, 16, 16);
        lemma_u32_piece(data, pos, enc, 32, self.section_addr);
        lemma_u32_piece(data, pos, enc, 36, self.section_size);
        lemma_u32_piece(data, pos, enc, 40, self.file_offset);
        lemma_u32_piece(data, pos, enc, 44, self.alignment);
        lemma_u32_piece(data, pos, enc, 48, self.reloc_file_offset);
        lemma_u32_piece(data, pos, enc, 52, self.reloc_count);
        lemma_u32_piece(data, pos, enc, 56, self.flag_type);
        lemma_u32_piece(data, pos, enc, 60, self.reserved[0]);
        lemma_u32_piece(data, pos, enc, 64, self.reserved[1]);
        assert(decoded.name =~= self.name);
        assert(decoded.segment_name =~= self.segment_name);
        assert(decoded.reserved =~= self.reserved);
    }
}

impl SegmentCommand64 {
    /// The bytes that store the descriptor, fields in declaration order.
    pub open spec fn encoded(self) -> Seq<u8> {
        self.name@ + u64_bytes(self.address) + u64_bytes(self.address_size) + u64_bytes(
            self.file_offset,
        ) + u64_bytes(self.size) + u32_bytes(self.max_protect) + u32_bytes(self.init_protect)
            + u32_bytes(self.sections_count) + u32_bytes(self.flags)
    }

    /// Decoding the bytes of a descriptor gives back the descriptor.
    pub proof fn lemma_round_trip(self, data: Seq<u8>, pos: int, decoded: SegmentCommand64)
        requires
            0 <= pos,
            pos + 64 <= data.len(),
            data.subrange(pos, pos + 64) == self.encoded(),
            decoded.decoded_at(data, pos),
        ensures
            decoded == self,
    {
        let enc = self.encoded();
        assert(enc.len() == 64);
        assert(enc.subrange(0, 16) =~= self.name@);
        assert(enc.subrange(16, 24) =~= u64_bytes(self.address));
        assert(enc.subrange(24, 32) =~= u64_bytes(self.address_size));
        assert(enc.subrange(32, 40) =~= u64_bytes(self.file_offset));
        assert(enc.subrange(40, 48) =~= u64_bytes(self.size));
        assert(enc.subrange(48, 52) =~= u32_bytes(self.max_protect));
        assert(enc.subrange(52, 56) =~= u32_bytes(self.init_protect));
        assert(enc.subrange(56, 60) =~= u32_bytes(self.sections_count));
        assert(enc.subrange(60, 64) =~= u32_bytes(self.flags));
        lemma_piece(data, pos, enc, 0, 16);
        lemma_u64_piece(data, pos, enc, 16, self.address);
        lemma_u64_piece(data, pos, enc, 24, self.address_size);
        lemma_u64_piece(data, pos, enc, 32, self.file_offset);
        lemma_u64_piece(data, pos, enc, 40, self.size);
        lemma_u32_piece(data, pos, enc, 48, self.max_protect);
        lemma_u32_piece(data, pos, enc, 52, self.init_protect);
        lemma_u32_piece(data, pos, enc, 56, self.sections_count);
        lemma_u32_piece(data, pos, enc, 60, self.flags);
        assert(decoded.name =~= self.name);
    }
}

impl Section64 {
    /// The bytes that store the section, fields in declaration order.
    pub open spec fn encoded(self) -> Seq<u8> {
        self.name@ + self.segment_name@ + u64_bytes(self.section_addr) + u64_bytes(
            self.section_size,
        ) + u32_bytes(self.file_offset) + u32_bytes(self.alignment) + u32_bytes(
            self.reloc_file_offset,
        ) + u32_bytes(self.reloc_count) + u32_bytes(self.flag_type) + u32_bytes(self.reserved[0])
            + u32_bytes(self.reserved[1]) + u32_bytes(self.reserved[2])
    }

    /// Decoding the bytes of a section gives back the section.
    pub proof fn lemma_round_trip(self, data: Seq<u8>, pos: int, decoded: Section64)
        requires
            0 <= pos,
            pos + 80 <= data.len(),
            data.subrange(pos, pos + 80) == self.encoded(),
            decoded.decoded_at(data, pos),
        ensures
            decoded == self,
    {
        let enc = self.encoded();
        assert(enc.len() == 80);
        assert(enc.subrange(0, 16) =~= self.name@);
        assert(enc.subrange(16, 32) =~= self.segment_name@);
        assert(enc.subrange(32, 40) =~= u64_bytes(self.section_addr));
        assert(enc.subrange(40, 48) =~= u64_bytes(self.section_size));
        assert(enc.subrange(48, 52) =~= u32_bytes(self.file_offset));
        assert(enc.subrange(52, 56) =~= u32_bytes(self.alignment));
        assert(enc.subrange(56, 60) =~= u32_bytes(self.reloc_file_offset));
        assert(enc.subrange(60, 64) =~= u32_bytes(self.reloc_count));
        assert(enc.subrange(64, 68) =~= u32_bytes(self.flag_type));
        assert(enc.subrange(68, 72) =~= u32_bytes(self.reserved[0]));
        assert(enc.subrange(72, 76) =~= u32_bytes(self.reserved[1]));
        assert(enc.subrange(76, 80) =~= u32_bytes(self.reserved[2]));
        lemma_piece(data, pos, enc, 0, 16);
        lemma_piece(data, pos, enc, 16, 16);
        lemma_u64_piece(data, pos, enc, 32, self.section_addr);
        lemma_u64_piece(data, pos, enc, 40, self.section_size);
        lemma_u32_piece(data, pos, enc, 48, self.file_offset);
        lemma_u32_piece(data, pos, enc, 52, self.alignment);
        lemma_u32_piece(data, pos, enc, 56, self.reloc_file_offset);
        lemma_u32_piece(data, pos, enc, 60, self.reloc_count);
        lemma_u32_piece(data, pos, enc, 64, self.flag_type);
        lemma_u32_piece(data, pos, enc, 68, self.reserved[0]);
        lemma_u32_piece(data, pos, enc, 72, self.reserved[1]);
        lemma_u32_piece(data, pos, enc, 76, self.reserved[2]);
        assert(decoded.name =~= self.name);
        assert(decoded.segment_name =~= self.segment_name);
        assert(decoded.reserved =~= self.reserved);
    }
}

} // verus!
