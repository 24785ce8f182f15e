//! The entry point: the magic number, the header, and the loop over the
//! load commands that the header declares.
use vstd::prelude::*;
use crate::cursor::{ByteCursor, DecodeError, u32_le};
use crate::records::{FromRead, Header};
use crate::commands::{Command, command_decoded_at, command_error, read_command, size_at};

verus! {

/// The magic number of a 32-bit Mach-O file, read little-endian.
pub const MH_MAGIC: u32 = 0xfeed_face;

/// The magic number of a 64-bit Mach-O file, read little-endian.
pub const MH_MAGIC_64: u32 = 0xfeed_facf;

/// A decoded header and its load commands, in file order.
#[derive(Clone, Debug, PartialEq, Eq)]
pub struct MachO {
    pub header: Header,
    pub commands: Vec<Command>,
}

/// The bytes the header occupies after the magic number: the 64-bit layout
/// adds a reserved word.
pub open spec fn header_size(is64: bool) -> int {
    if is64 {
        28
    } else {
        24
    }
}

/// The sum of the declared sizes of `cs`.
pub open spec fn total_size(cs: Seq<Command>) -> int
    decreases cs.len(),
{
    if cs.len() == 0 {
        0
    } else {
        total_size(cs.drop_last()) + cs.last().size_spec()
    }
}

/// The first failure among `count` commands laid end to end from `pos`, if
/// any fails.
pub open spec fn commands_error(data: Seq<u8>, pos: int, count: nat) -> Option<DecodeError>
    decreases count,
{
    if count == 0 {
        None
    } else {
        match command_error(data, pos) {
            Some(e) => Some(e),
            None => commands_error(data, pos + size_at(data, pos), (count - 1) as nat),
        }
    }
}

/// Why the file at `pos` cannot be decoded, if it cannot.
pub open spec fn macho_error(data: Seq<u8>, pos: int, is64: bool) -> Option<DecodeError> {
    if pos + header_size(is64) > data.len() {
        Some(DecodeError::TruncatedInput)
    } else {
        commands_error(data, pos + header_size(is64), u32_le(data, pos + 12) as nat)
    }
}

/// Reads the 4-byte magic number that opens a Mach-O file.
pub fn read_magic(cursor: &mut ByteCursor) -> (r: Result<u32, DecodeError>)
    requires
        old(cursor).wf(),
    ensures
        old(cursor).same_source(final(cursor)),
        r.is_ok() <==> 4 <= old(cursor).remaining_spec(),
        match r {
            Ok(v) => v == u32_le(old(cursor).data@, old(cursor).pos as int) && final(cursor).pos
                == old(cursor).pos + 4,
            Err(e) => e == DecodeError::TruncatedInput && final(cursor).pos == old(cursor).pos,
        },
{
    cursor.read_u32()
}

/// Decodes the header that follows the magic number, then exactly as many
/// load commands as it declares, stopping at the first failure.
///
/// On success the commands lie end to end after the header, their count is
/// the header's, and the cursor stands right after the last of them.
pub fn read_macho(cursor: &mut ByteCursor, is64: bool) -> (r: Result<MachO, DecodeError>)
    requires
        old(cursor).wf(),
    ensures
        old(cursor).same_source(final(cursor)),
        old(cursor).remaining_spec() < header_size(is64) ==> r == Err::<MachO, DecodeError>(
            DecodeError::TruncatedInput,
        ),
        r.is_err() <==> macho_error(old(cursor).data@, old(cursor).pos as int, is64) is Some,
        match r {
            Ok(m) => {
                let body = old(cursor).pos + header_size(is64);
                &&& m.header.decoded_at(old(cursor).data@, old(cursor).pos as int)
                &&& m.commands@.len() == m.header.load_commands_count
                &&& forall|i: int|
                    0 <= i < m.commands@.len() ==> command_decoded_at(
                        #[trigger] m.commands@[i],
                        old(cursor).data@,
                        body + total_size(m.commands@.take(i)),
                    )
                &&& final(cursor).pos == body + total_size(m.commands@)
            },
            Err(e) => macho_error(old(cursor).data@, old(cursor).pos as int, is64) == Some(e),
        },
{
    let ghost data = cursor.data@;
    let ghost p = cursor.pos as int;
    let header = match Header::read(cursor) {
        Ok(h) => h,
        Err(e) => return Err(e),
    };
    if is64 {
        match cursor.skip(4) {
            Ok(()) => {},
            Err(e) => return Err(e),
        }
    }
    let ghost body = cursor.pos as int;
    let count = header.load_commands_count;
    let mut commands: Vec<Command> = Vec::new();
    let mut i: u32 = 0;
    while i < count
        invariant
            cursor.wf(),
            cursor.data@ == data,
            data == old(cursor).data@,
            p == old(cursor).pos,
            body == p + header_size(is64),
            header.decoded_at(data, p),
            count == header.load_commands_count,
            i <= count,
            commands@.len() == i,
            cursor.pos == body + total_size(commands@),
            commands_error(data, body, count as nat) == commands_error(
                data,
                cursor.pos as int,
                (count - i) as nat,
            ),
            forall|j: int|
                0 <= j < commands@.len() ==> command_decoded_at(
                    #[trigger] commands@[j],
                    data,
                    body + total_size(commands@.take(j)),
                ),
        decreases count - i,
    {
        let ghost before = commands@;
        let c = match read_command(cursor) {
            Ok(c) => c,
            Err(e) => return Err(e),
        };
        commands.push(c);
        i += 1;
        proof {
            assert(commands@.drop_last() =~= before);
            assert(commands@.take(i - 1) =~= before);
            assert forall|j: int| 0 <= j < commands@.len() implies command_decoded_at(
                #[trigger] commands@[j],
                data,
                body + total_size(commands@.take(j)),
            ) by {
                if j < i - 1 {
                    assert(commands@.take(j) =~= before.take(j));
                }
            }
        }
    }
    Ok(MachO { header, commands })
}

} // verus!
