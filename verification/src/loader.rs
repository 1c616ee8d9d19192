//! Commands of QEMU's table loader (`etc/table-loader`) and their encoding.
//!
//! The blob is a run of 128-byte commands that tell the firmware how to load and patch the ACPI
//! tables.
use vstd::prelude::*;
use vstd::string::StringSliceAdditionalSpecFns;

use crate::bytes::{
    append_bytes, append_u32, append_zeros, le32_at, le32_bytes, lemma_le32_field, zeros,
};

verus! {

/// The least length of a loader blob.
pub const LDR_LENGTH: usize = 4096;

/// The length of a file name field in a command.
pub const FIXED_STRING_LEN: usize = 56;

/// One loader command.
#[derive(Debug)]
pub enum LoaderCmd<'a> {
    Allocate { file: &'a str, alignment: u32, zone: u8 },
    AddPtr { pointer_file: &'a str, pointee_file: &'a str, pointer_offset: u32, pointer_size: u8 },
    AddChecksum { file: &'a str, result_offset: u32, start: u32, length: u32 },
}

/// What a loader command says, with file names as bytes.
pub enum Command {
    Allocate { file: Seq<u8>, alignment: u32, zone: u8 },
    AddPtr {
        pointer_file: Seq<u8>,
        pointee_file: Seq<u8>,
        pointer_offset: u32,
        pointer_size: u8,
    },
    AddChecksum { file: Seq<u8>, result_offset: u32, start: u32, length: u32 },
}

impl<'a> View for LoaderCmd<'a> {
    type V = Command;

    open spec fn view(&self) -> Command {
        match *self {
            LoaderCmd::Allocate { file, alignment, zone } => Command::Allocate {
                file: file.spec_bytes(),
                alignment,
                zone,
            },
            LoaderCmd::AddPtr { pointer_file, pointee_file, pointer_offset, pointer_size } =>
                Command::AddPtr {
                pointer_file: pointer_file.spec_bytes(),
                pointee_file: pointee_file.spec_bytes(),
                pointer_offset,
                pointer_size,
            },
            LoaderCmd::AddChecksum { file, result_offset, start, length } => Command::AddChecksum {
                file: file.spec_bytes(),
                result_offset,
                start,
                length,
            },
        }
    }
}

/// A name field: the bytes of the name, cut or filled up with zeros to 56.
pub open spec fn fixed_string(name: Seq<u8>) -> Seq<u8> {
    if name.len() >= FIXED_STRING_LEN {
        name.take(FIXED_STRING_LEN as int)
    } else {
        name + zeros((FIXED_STRING_LEN - name.len()) as nat)
    }
}

/// The bytes of one command.
pub open spec fn encode(cmd: Command) -> Seq<u8> {
    match cmd {
        Command::Allocate { file, alignment, zone } => le32_bytes(1) + fixed_string(file)
            + le32_bytes(alignment as int) + seq![zone] + zeros(63),
        Command::AddPtr { pointer_file, pointee_file, pointer_offset, pointer_size } => le32_bytes(
            2,
        ) + fixed_string(pointer_file) + fixed_string(pointee_file) + le32_bytes(
            pointer_offset as int,
        ) + seq![pointer_size] + zeros(7),
        Command::AddChecksum { file, result_offset, start, length } => le32_bytes(3)
            + fixed_string(file) + le32_bytes(result_offset as int) + le32_bytes(start as int)
            + le32_bytes(length as int) + zeros(56),
    }
}

/// The bytes of the commands, one after the other.
pub open spec fn encode_all(cmds: Seq<Command>) -> Seq<u8>
    decreases cmds.len(),
{
    if cmds.len() == 0 {
        Seq::empty()
    } else {
        encode_all(cmds.drop_last()) + encode(cmds.last())
    }
}

/// Builds a loader blob command by command.
pub struct TableLoader {
    /// The commands appended so far, encoded.
    pub buffer: Vec<u8>,
}

impl TableLoader {
    /// A loader without commands.
    pub fn new() -> (r: TableLoader)
        ensures
            r.buffer@ == Seq::<u8>::empty(),
    {
        TableLoader { buffer: Vec::with_capacity(LDR_LENGTH) }
    }

    /// Appends a name field.
    pub fn append_fixed_string(data: &mut Vec<u8>, s: &str)
        ensures
            final(data)@ == old(data)@ + fixed_string(s.spec_bytes()),
    {
        let bytes = s.as_bytes();
        let n = bytes.len();
        if n >= FIXED_STRING_LEN {
            let cut = vstd::slice::slice_subrange(bytes, 0, FIXED_STRING_LEN);
            append_bytes(data, cut);
            assert(cut@ =~= s.spec_bytes().take(FIXED_STRING_LEN as int));
        } else {
            append_bytes(data, bytes);
            append_zeros(data, FIXED_STRING_LEN - n);
            assert(data@ =~= old(data)@ + fixed_string(s.spec_bytes()));
        }
    }

    /// Appends the encoding of `cmd`.
    pub fn append(&mut self, cmd: LoaderCmd)
        ensures
            final(self).buffer@ == old(self).buffer@ + encode(cmd@),
    {
        match cmd {
            LoaderCmd::Allocate { file, alignment, zone } => {
                append_u32(&mut self.buffer, 1);
                Self::append_fixed_string(&mut self.buffer, file);
                append_u32(&mut self.buffer, alignment);
                self.buffer.push(zone);
                append_zeros(&mut self.buffer, 63);
            },
            LoaderCmd::AddPtr { pointer_file, pointee_file, pointer_offset, pointer_size } => {
                append_u32(&mut self.buffer, 2);
                Self::append_fixed_string(&mut self.buffer, pointer_file);
                Self::append_fixed_string(&mut self.buffer, pointee_file);
                append_u32(&mut self.buffer, pointer_offset);
                self.buffer.push(pointer_size);
                append_zeros(&mut self.buffer, 7);
            },
            LoaderCmd::AddChecksum { file, result_offset, start, length } => {
                append_u32(&mut self.buffer, 3);
                Self::append_fixed_string(&mut self.buffer, file);
                append_u32(&mut self.buffer, result_offset);
                append_u32(&mut self.buffer, start);
                append_u32(&mut self.buffer, length);
                append_zeros(&mut self.buffer, 56);
            },
        }
        assert(self.buffer@ =~= old(self).buffer@ + encode(cmd@));
    }
}

/// Every command takes 128 bytes.
pub proof fn law_command_length(cmd: Command)
    ensures
        encode(cmd).len() == 128,
{
}

/// The blob of several commands holds each at its own 128-byte place.
pub proof fn law_command_places(cmds: Seq<Command>, k: int)
    ensures
        encode_all(cmds).len() == 128 * cmds.len(),
        0 <= k < cmds.len() ==> encode_all(cmds).subrange(128 * k, 128 * k + 128) == encode(
            cmds[k],
        ),
    decreases cmds.len(),
{
    if cmds.len() > 0 {
        let front = cmds.drop_last();
        law_command_places(front, k);
        law_command_length(cmds.last());
        if 0 <= k < front.len() {
            assert(encode_all(cmds).subrange(128 * k, 128 * k + 128) =~= encode_all(front).subrange(
                128 * k,
                128 * k + 128,
            ));
        } else if k == front.len() {
            assert(encode_all(cmds).subrange(128 * k, 128 * k + 128) =~= encode(cmds.last()));
        }
    }
}

/// The bytes of `s` before the first zero byte.
pub open spec fn until_zero(s: Seq<u8>) -> Seq<u8>
    decreases s.len(),
{
    if s.len() == 0 || s[0] == 0 {
        Seq::empty()
    } else {
        seq![s[0]] + until_zero(s.drop_first())
    }
}

/// The name in the name field at `off`.
pub open spec fn name_at(s: Seq<u8>, off: int) -> Seq<u8> {
    until_zero(s.subrange(off, off + FIXED_STRING_LEN))
}

/// The command that stands in 128 bytes, by the number it begins with.
pub open spec fn decode(s: Seq<u8>) -> Option<Command> {
    if s.len() != 128 {
        None
    } else if le32_at(s, 0) == 1 {
        Some(
            Command::Allocate {
                file: name_at(s, 4),
                alignment: le32_at(s, 60) as u32,
                zone: s[64],
            },
        )
    } else if le32_at(s, 0) == 2 {
        Some(
            Command::AddPtr {
                pointer_file: name_at(s, 4),
                pointee_file: name_at(s, 60),
                pointer_offset: le32_at(s, 116) as u32,
                pointer_size: s[120],
            },
        )
    } else if le32_at(s, 0) == 3 {
        Some(
            Command::AddChecksum {
                file: name_at(s, 4),
                result_offset: le32_at(s, 60) as u32,
                start: le32_at(s, 64) as u32,
                length: le32_at(s, 68) as u32,
            },
        )
    } else {
        None
    }
}

/// A name that fits its field and holds no zero byte.
pub open spec fn plain_name(name: Seq<u8>) -> bool {
    name.len() <= FIXED_STRING_LEN && !name.contains(0)
}

/// Whether the file names of `cmd` fit their fields.
pub open spec fn plain_names(cmd: Command) -> bool {
    match cmd {
        Command::Allocate { file, .. } => plain_name(file),
        Command::AddPtr { pointer_file, pointee_file, .. } => plain_name(pointer_file)
            && plain_name(pointee_file),
        Command::AddChecksum { file, .. } => plain_name(file),
    }
}

proof fn lemma_until_zero(name: Seq<u8>, n: nat)
    requires
        !name.contains(0),
    ensures
        until_zero(name + zeros(n)) == name,
    decreases name.len(),
{
    let s = name + zeros(n);
    if name.len() == 0 {
        assert(until_zero(s) =~= name);
    } else {
        let rest = name.drop_first();
        assert forall|k: int| 0 <= k < rest.len() implies rest[k] != 0 by {
            assert(name[k + 1] == rest[k]);
        }
        lemma_until_zero(rest, n);
        assert(name[0] != 0);
        assert(s.drop_first() =~= rest + zeros(n));
        assert(until_zero(s) =~= name);
    }
}

proof fn lemma_name_field(s: Seq<u8>, off: int, name: Seq<u8>)
    requires
        plain_name(name),
        0 <= off <= s.len() - FIXED_STRING_LEN,
        s.subrange(off, off + FIXED_STRING_LEN) == fixed_string(name),
    ensures
        name_at(s, off) == name,
{
    lemma_until_zero(name, (FIXED_STRING_LEN - name.len()) as nat);
    assert(fixed_string(name) =~= name + zeros((FIXED_STRING_LEN - name.len()) as nat));
}

/// Reading an encoded command gives the command back.
pub proof fn law_decode_of_encode(cmd: Command)
    requires
        plain_names(cmd),
    ensures
        decode(encode(cmd)) == Some(cmd),
{
    match cmd {
        Command::Allocate { file, alignment, zone } => lemma_decode_allocate(file, alignment, zone),
        Command::AddPtr { pointer_file, pointee_file, pointer_offset, pointer_size } =>
            lemma_decode_add_ptr(pointer_file, pointee_file, pointer_offset, pointer_size),
        Command::AddChecksum { file, result_offset, start, length } => lemma_decode_add_checksum(
            file,
            result_offset,
            start,
            length,
        ),
    }
}

proof fn lemma_decode_allocate(file: Seq<u8>, alignment: u32, zone: u8)
    requires
        plain_name(file),
    ensures
        ({
            let cmd = Command::Allocate { file, alignment, zone };
            decode(encode(cmd)) == Some(cmd)
        }),
{
    let s = encode(Command::Allocate { file, alignment, zone });
    assert(s.subrange(0, 4) =~= le32_bytes(1));
    assert(s.subrange(4, 60) =~= fixed_string(file));
    assert(s.subrange(60, 64) =~= le32_bytes(alignment as int));
    lemma_le32_field(s, 0, 1);
    lemma_name_field(s, 4, file);
    lemma_le32_field(s, 60, alignment);
}

proof fn lemma_decode_add_ptr(
    pointer_file: Seq<u8>,
    pointee_file: Seq<u8>,
    pointer_offset: u32,
    pointer_size: u8,
)
    requires
        plain_name(pointer_file),
        plain_name(pointee_file),
    ensures
        ({
            let cmd = Command::AddPtr { pointer_file, pointee_file, pointer_offset, pointer_size };
            decode(encode(cmd)) == Some(cmd)
        }),
{
    let s = encode(
        Command::AddPtr { pointer_file, pointee_file, pointer_offset, pointer_size },
    );
    assert(s.subrange(0, 4) =~= le32_bytes(2));
    assert(s.subrange(4, 60) =~= fixed_string(pointer_file));
    assert(s.subrange(60, 116) =~= fixed_string(pointee_file));
    assert(s.subrange(116, 120) =~= le32_bytes(pointer_offset as int));
    lemma_le32_field(s, 0, 2);
    lemma_name_field(s, 4, pointer_file);
    lemma_name_field(s, 60, pointee_file);
    lemma_le32_field(s, 116, pointer_offset);
}

proof fn lemma_decode_add_checksum(file: Seq<u8>, result_offset: u32, start: u32, length: u32)
    requires
        plain_name(file),
    ensures
        ({
            let cmd = Command::AddChecksum { file, result_offset, start, length };
            decode(encode(cmd)) == Some(cmd)
        }),
{
    let s = encode(Command::AddChecksum { file, result_offset, start, length });
    assert(s.subrange(0, 4) =~= le32_bytes(3));
    assert(s.subrange(4, 60) =~= fixed_string(file));
    assert(s.subrange(60, 64) =~= le32_bytes(result_offset as int));
    assert(s.subrange(64, 68) =~= le32_bytes(start as int));
    assert(s.subrange(68, 72) =~= le32_bytes(length as int));
    lemma_le32_field(s, 0, 3);
    lemma_name_field(s, 4, file);
    lemma_le32_field(s, 60, result_offset);
    lemma_le32_field(s, 64, start);
    lemma_le32_field(s, 68, length);
}

} // verus!
