//! What holds of listed tables and of loader blobs, byte by byte.
use vstd::prelude::*;
use vstd::string::StringSliceAdditionalSpecFns;

use crate::acpi::{
    checksum_cmd, entries_view, filled, find, find_from, first_with, is_secondary, loader_commands,
    low32, pointer_cmd, printable, rsdt_cmds, secondary_cmds, walk, walk_from, AcpiError,
    RequiredTable, Table, TableEntry,
};
use crate::acpi_laws::{is_table, lemma_parts_of_commands};
use crate::bytes::{
    concat, le32_at, le32_bytes, lemma_concat_place, lemma_le32_field, start_of, zeros,
};
use crate::loader::{encode, encode_all, fixed_string, law_command_places, Command, LoaderCmd};
use crate::machine::derived_loader;

verus! {

/// Whether the four bytes at `off` stand for `x`, the low one first.
pub open spec fn reads_number(s: Seq<u8>, off: int, x: int) -> bool {
    s[off] + 256 * s[off + 1] + 65536 * s[off + 2] + 16777216 * s[off + 3] == x
}

/// Whether the 56 bytes at `off` are the name, cut or filled up with zeros.
pub open spec fn reads_name(s: Seq<u8>, off: int, name: Seq<u8>) -> bool {
    s.subrange(off, off + 56) == Seq::new(
        56,
        |j: int|
            if j < name.len() {
                name[j]
            } else {
                0u8
            },
    )
}

/// Whether all bytes from `from` to `to` are zero.
pub open spec fn is_zero(s: Seq<u8>, from: int, to: int) -> bool {
    forall|j: int| from <= j < to ==> #[trigger] s[j] == 0
}

/// Whether 128 bytes allocate a file.
pub open spec fn allocates(c: Seq<u8>, file: Seq<u8>, alignment: int, zone: int) -> bool {
    &&& c.len() == 128
    &&& reads_number(c, 0, 1)
    &&& reads_name(c, 4, file)
    &&& reads_number(c, 60, alignment)
    &&& c[64] == zone
    &&& is_zero(c, 65, 128)
}

/// Whether 128 bytes patch a pointer.
pub open spec fn patches(
    c: Seq<u8>,
    pointer_file: Seq<u8>,
    pointee_file: Seq<u8>,
    offset: int,
    size: int,
) -> bool {
    &&& c.len() == 128
    &&& reads_number(c, 0, 2)
    &&& reads_name(c, 4, pointer_file)
    &&& reads_name(c, 60, pointee_file)
    &&& reads_number(c, 116, offset)
    &&& c[120] == size
    &&& is_zero(c, 121, 128)
}

/// Whether 128 bytes make a checksum.
pub open spec fn checksums(
    c: Seq<u8>,
    file: Seq<u8>,
    result: int,
    start: int,
    length: int,
) -> bool {
    &&& c.len() == 128
    &&& reads_number(c, 0, 3)
    &&& reads_name(c, 4, file)
    &&& reads_number(c, 60, result)
    &&& reads_number(c, 64, start)
    &&& reads_number(c, 68, length)
    &&& is_zero(c, 72, 128)
}

proof fn lemma_fixed_string(s: Seq<u8>, off: int, name: Seq<u8>)
    requires
        s.subrange(off, off + 56) == fixed_string(name),
    ensures
        reads_name(s, off, name),
{
    assert(fixed_string(name) =~= Seq::new(
        56,
        |j: int|
            if j < name.len() {
                name[j]
            } else {
                0u8
            },
    ));
}

/// An allocation has its number, its file, its alignment and its zone at their places, and zeros
/// behind them.
pub proof fn law_bytes_of_allocate(file: Seq<u8>, alignment: u32, zone: u8)
    ensures
        allocates(
            encode(Command::Allocate { file, alignment, zone }),
            file,
            alignment as int,
            zone as int,
        ),
{
    let s = encode(Command::Allocate { file, alignment, zone });
    assert(s.subrange(0, 4) =~= le32_bytes(1));
    assert(s.subrange(4, 60) =~= fixed_string(file));
    assert(s.subrange(60, 64) =~= le32_bytes(alignment as int));
    lemma_le32_field(s, 0, 1);
    lemma_fixed_string(s, 4, file);
    lemma_le32_field(s, 60, alignment);
}

/// A pointer command has its number, the file of the pointer, the file pointed to, the pointer's
/// offset and its size at their places, and zeros behind them.
pub proof fn law_bytes_of_add_ptr(
    pointer_file: Seq<u8>,
    pointee_file: Seq<u8>,
    pointer_offset: u32,
    pointer_size: u8,
)
    ensures
        patches(
            encode(
                Command::AddPtr { pointer_file, pointee_file, pointer_offset, pointer_size },
            ),
            pointer_file,
            pointee_file,
            pointer_offset as int,
            pointer_size as int,
        ),
{
    let s = encode(Command::AddPtr { pointer_file, pointee_file, pointer_offset, pointer_size });
    assert(s.subrange(0, 4) =~= le32_bytes(2));
    assert(s.subrange(4, 60) =~= fixed_string(pointer_file));
    assert(s.subrange(60, 116) =~= fixed_string(pointee_file));
    assert(s.subrange(116, 120) =~= le32_bytes(pointer_offset as int));
    lemma_le32_field(s, 0, 2);
    lemma_fixed_string(s, 4, pointer_file);
    lemma_fixed_string(s, 60, pointee_file);
    lemma_le32_field(s, 116, pointer_offset);
}

/// A checksum command has its number, its file, the checksum's offset, the start and the length at
/// their places, and zeros behind them.
pub proof fn law_bytes_of_add_checksum(
    file: Seq<u8>,
    result_offset: u32,
    start: u32,
    length: u32,
)
    ensures
        checksums(
            encode(Command::AddChecksum { file, result_offset, start, length }),
            file,
            result_offset as int,
            start as int,
            length as int,
        ),
{
    let s = encode(Command::AddChecksum { file, result_offset, start, length });
    assert(s.subrange(0, 4) =~= le32_bytes(3));
    assert(s.subrange(4, 60) =~= fixed_string(file));
    assert(s.subrange(60, 64) =~= le32_bytes(result_offset as int));
    assert(s.subrange(64, 68) =~= le32_bytes(start as int));
    assert(s.subrange(68, 72) =~= le32_bytes(length as int));
    lemma_le32_field(s, 0, 3);
    lemma_fixed_string(s, 4, file);
    lemma_le32_field(s, 60, result_offset);
    lemma_le32_field(s, 64, start);
    lemma_le32_field(s, 68, length);
}

/// What a command says is its fields, with the names as bytes.
pub proof fn law_command_view(cmd: LoaderCmd)
    ensures
        cmd matches LoaderCmd::Allocate { file, alignment, zone } ==> cmd@ == (Command::Allocate {
            file: file.spec_bytes(),
            alignment,
            zone,
        }),
        cmd matches LoaderCmd::AddPtr { pointer_file, pointee_file, pointer_offset, pointer_size }
            ==> cmd@ == (Command::AddPtr {
            pointer_file: pointer_file.spec_bytes(),
            pointee_file: pointee_file.spec_bytes(),
            pointer_offset,
            pointer_size,
        }),
        cmd matches LoaderCmd::AddChecksum { file, result_offset, start, length } ==> cmd@ == (
        Command::AddChecksum { file: file.spec_bytes(), result_offset, start, length }),
{
}

/// A name field is the name's bytes, cut or filled up with zeros to 56.
pub proof fn law_name_field(name: Seq<u8>)
    ensures
        fixed_string(name).len() == 56,
        reads_name(fixed_string(name), 0, name),
{
    assert(fixed_string(name).subrange(0, 56) =~= fixed_string(name));
    lemma_fixed_string(fixed_string(name), 0, name);
}

/// The first listed table with a signature has it, and none before it does; where there is none,
/// no listed table has it.
pub proof fn law_first_with(list: Seq<Table>, sig: Seq<u8>)
    ensures
        first_with(list, sig) matches Some(t) ==> exists|i: int|
            0 <= i < list.len() && #[trigger] list[i] == t && t.signature == sig && forall|j: int|
                0 <= j < i ==> (#[trigger] list[j]).signature != sig,
        first_with(list, sig) is None ==> forall|j: int|
            0 <= j < list.len() ==> (#[trigger] list[j]).signature != sig,
    decreases list.len(),
{
    if list.len() > 0 {
        let rest = list.drop_first();
        law_first_with(rest, sig);
        if list[0].signature == sig {
            assert(list[0] == first_with(list, sig)->Some_0);
        } else if let Some(t) = first_with(rest, sig) {
            let i = choose|i: int|
                0 <= i < rest.len() && #[trigger] rest[i] == t && t.signature == sig && forall|
                    j: int,
                |
                    0 <= j < i ==> (#[trigger] rest[j]).signature != sig;
            assert(list[i + 1] == t);
            assert forall|j: int| 0 <= j < i + 1 implies (#[trigger] list[j]).signature != sig by {
                if j > 0 {
                    assert(rest[j - 1] == list[j]);
                }
            }
        } else {
            assert forall|j: int| 0 <= j < list.len() implies (#[trigger] list[j]).signature
                != sig by {
                if j > 0 {
                    assert(rest[j - 1] == list[j]);
                }
            }
        }
    }
}

/// The signatures of the tables that a loader blob treats by themselves.
pub open spec fn dsdt_sig() -> Seq<u8> {
    seq![0x44u8, 0x53, 0x44, 0x54]
}

pub open spec fn facp_sig() -> Seq<u8> {
    seq![0x46u8, 0x41, 0x43, 0x50]
}

pub open spec fn rsdt_sig() -> Seq<u8> {
    seq![0x52u8, 0x53, 0x44, 0x54]
}

pub open spec fn facs_sig() -> Seq<u8> {
    seq![0x46u8, 0x41, 0x43, 0x53]
}

/// The listed tables that are none of those, in file order.
pub open spec fn other_tables(list: Seq<Table>) -> Seq<Table> {
    list.filter(
        |t: Table|
            t.signature != dsdt_sig() && t.signature != facp_sig() && t.signature != rsdt_sig()
                && t.signature != facs_sig(),
    )
}

/// The files of a loader blob.
pub open spec fn tables_file() -> Seq<u8> {
    "etc/acpi/tables".spec_bytes()
}

pub open spec fn rsdp_file() -> Seq<u8> {
    "etc/acpi/rsdp".spec_bytes()
}

/// A loader blob cannot be made where the tables cannot be listed, where a DSDT, a FACP or an RSDT
/// is missing, or where the RSDT's length is not that of its 36-byte header and whole 4-byte
/// entries; the first of these is told. Else it can.
pub proof fn law_when_a_loader_is_made(tables: Seq<u8>)
    ensures
        ({
            let r = loader_commands(tables);
            match walk(tables) {
                Err(e) => r == Err::<Seq<Command>, AcpiError>(e),
                Ok(list) => {
                    let rsdt = first_with(list, rsdt_sig());
                    if first_with(list, dsdt_sig()) is None {
                        r == Err::<Seq<Command>, AcpiError>(
                            AcpiError::MissingTable(RequiredTable::Dsdt),
                        )
                    } else if first_with(list, facp_sig()) is None {
                        r == Err::<Seq<Command>, AcpiError>(
                            AcpiError::MissingTable(RequiredTable::Facp),
                        )
                    } else if rsdt is None {
                        r == Err::<Seq<Command>, AcpiError>(
                            AcpiError::MissingTable(RequiredTable::Rsdt),
                        )
                    } else if rsdt->Some_0.length < 36 || rsdt->Some_0.length % 4 != 0 {
                        r == Err::<Seq<Command>, AcpiError>(
                            AcpiError::MalformedRsdt(rsdt->Some_0.length),
                        )
                    } else {
                        r is Ok
                    }
                },
            }
        }),
{
}

/// The blob that is made of the tables.
pub open spec fn loader_blob(tables: Seq<u8>) -> Seq<u8> {
    filled(encode_all(loader_commands(tables)->Ok_0))
}

/// The 128 bytes of the command `k` of a blob.
pub open spec fn command(blob: Seq<u8>, k: int) -> Seq<u8> {
    blob.subrange(128 * k, 128 * k + 128)
}

/// The number of entries of an RSDT.
pub open spec fn entry_count(rsdt: Table) -> int {
    (rsdt.length - 36) / 4
}

proof fn lemma_command_at(tables: Seq<u8>, k: int)
    requires
        loader_commands(tables) is Ok,
        0 <= k < loader_commands(tables)->Ok_0.len(),
    ensures
        command(loader_blob(tables), k) == encode(loader_commands(tables)->Ok_0[k]),
{
    let cmds = loader_commands(tables)->Ok_0;
    law_command_places(cmds, k);
    assert(command(loader_blob(tables), k) =~= encode_all(cmds).subrange(128 * k, 128 * k + 128));
}

proof fn lemma_checksum(tables: Seq<u8>, k: int, t: Table)
    requires
        loader_commands(tables) is Ok,
        0 <= k < loader_commands(tables)->Ok_0.len(),
        loader_commands(tables)->Ok_0[k] == checksum_cmd(t),
    ensures
        checksums(
            command(loader_blob(tables), k),
            tables_file(),
            t.checksum as int,
            t.offset as int,
            t.length as int,
        ),
{
    lemma_command_at(tables, k);
    law_bytes_of_add_checksum(tables_file(), t.checksum, t.offset, t.length);
}

proof fn lemma_pointer(tables: Seq<u8>, k: int, t: Table, field: int, size: u8)
    requires
        loader_commands(tables) is Ok,
        0 <= k < loader_commands(tables)->Ok_0.len(),
        loader_commands(tables)->Ok_0[k] == pointer_cmd(t, field, size),
    ensures
        patches(
            command(loader_blob(tables), k),
            tables_file(),
            tables_file(),
            (t.offset + field) % 4294967296,
            size as int,
        ),
{
    lemma_command_at(tables, k);
    law_bytes_of_add_ptr(tables_file(), tables_file(), low32(t.offset + field), size);
}

proof fn lemma_other_tables(list: Seq<Table>)
    ensures
        secondary_cmds(list) == other_tables(list).map_values(|t: Table| checksum_cmd(t)),
{
    let a = |t: Table| is_secondary(t);
    let b = |t: Table|
        t.signature != dsdt_sig() && t.signature != facp_sig() && t.signature != rsdt_sig()
            && t.signature != facs_sig();
    assert(a =~= b);
}

/// A loader blob is at least 4096 bytes long, and as long as its commands where they take more.
/// There are ten of them, one for each table that is not treated by itself, and one for each entry
/// of the RSDT; behind them everything is zero.
pub proof fn law_blob_length(tables: Seq<u8>, j: int)
    requires
        loader_commands(tables) is Ok,
    ensures
        ({
            let list = walk(tables)->Ok_0;
            let blob = loader_blob(tables);
            let n = 10 + other_tables(list).len() + entry_count(
                first_with(list, rsdt_sig())->Some_0,
            );
            &&& blob.len() == (if 128 * n < 4096 {
                4096
            } else {
                128 * n
            })
            &&& 128 * n <= j < blob.len() ==> blob[j] == 0
        }),
{
    let cmds = loader_commands(tables)->Ok_0;
    lemma_other_tables(walk(tables)->Ok_0);
    law_command_places(cmds, 0);
}

/// A loader blob begins by allocating the RSDP (aligned to 16, in the zone 2) and the tables
/// (aligned to 64, in the zone 1). The first DSDT is checksummed. Of the first FACP the pointers
/// at 36 and 40, of 4 bytes, and at 140, of 8 bytes, are patched, and it is checksummed.
pub proof fn law_blob_begins(tables: Seq<u8>)
    requires
        loader_commands(tables) is Ok,
    ensures
        ({
            let list = walk(tables)->Ok_0;
            let blob = loader_blob(tables);
            let dsdt = first_with(list, dsdt_sig())->Some_0;
            let facp = first_with(list, facp_sig())->Some_0;
            let file = tables_file();
            &&& allocates(command(blob, 0), rsdp_file(), 16, 2)
            &&& allocates(command(blob, 1), file, 64, 1)
            &&& checksums(
                command(blob, 2),
                file,
                dsdt.checksum as int,
                dsdt.offset as int,
                dsdt.length as int,
            )
            &&& patches(command(blob, 3), file, file, (facp.offset + 36) % 4294967296, 4)
            &&& patches(command(blob, 4), file, file, (facp.offset + 40) % 4294967296, 4)
            &&& patches(command(blob, 5), file, file, (facp.offset + 140) % 4294967296, 8)
            &&& checksums(
                command(blob, 6),
                file,
                facp.checksum as int,
                facp.offset as int,
                facp.length as int,
            )
        }),
{
    let list = walk(tables)->Ok_0;
    let cmds = loader_commands(tables)->Ok_0;
    let dsdt = first_with(list, dsdt_sig())->Some_0;
    let facp = first_with(list, facp_sig())->Some_0;
    lemma_parts_of_commands(tables, 0);
    lemma_parts_of_commands(tables, 1);
    lemma_parts_of_commands(tables, 2);
    lemma_parts_of_commands(tables, 3);
    lemma_parts_of_commands(tables, 4);
    lemma_parts_of_commands(tables, 5);
    lemma_parts_of_commands(tables, 6);
    lemma_command_at(tables, 0);
    law_bytes_of_allocate(rsdp_file(), 16, 2);
    lemma_command_at(tables, 1);
    law_bytes_of_allocate(tables_file(), 64, 1);
    lemma_checksum(tables, 2, dsdt);
    lemma_pointer(tables, 3, facp, 36, 4);
    lemma_pointer(tables, 4, facp, 40, 4);
    lemma_pointer(tables, 5, facp, 140, 8);
    lemma_checksum(tables, 6, facp);
}

/// Behind those, every listed table that is not treated by itself is checksummed, in file order.
pub proof fn law_blob_checksums_other_tables(tables: Seq<u8>, i: int)
    requires
        loader_commands(tables) is Ok,
        0 <= i < other_tables(walk(tables)->Ok_0).len(),
    ensures
        ({
            let t = other_tables(walk(tables)->Ok_0)[i];
            checksums(
                command(loader_blob(tables), 7 + i),
                tables_file(),
                t.checksum as int,
                t.offset as int,
                t.length as int,
            )
        }),
{
    let list = walk(tables)->Ok_0;
    lemma_other_tables(list);
    lemma_parts_of_commands(tables, i);
    lemma_checksum(tables, 7 + i, other_tables(list)[i]);
}

/// Behind those, the pointer in each entry of the first RSDT is patched, of 4 bytes each.
pub proof fn law_blob_patches_rsdt_entries(tables: Seq<u8>, i: int)
    requires
        loader_commands(tables) is Ok,
        0 <= i < entry_count(first_with(walk(tables)->Ok_0, rsdt_sig())->Some_0),
    ensures
        ({
            let list = walk(tables)->Ok_0;
            let rsdt = first_with(list, rsdt_sig())->Some_0;
            patches(
                command(loader_blob(tables), 7 + other_tables(list).len() + i),
                tables_file(),
                tables_file(),
                (rsdt.offset + 36 + 4 * i) % 4294967296,
                4,
            )
        }),
{
    let list = walk(tables)->Ok_0;
    let rsdt = first_with(list, rsdt_sig())->Some_0;
    lemma_other_tables(list);
    lemma_parts_of_commands(tables, i);
    assert(rsdt_cmds(rsdt)[i] == pointer_cmd(rsdt, 36 + 4 * i, 4));
    lemma_pointer(tables, 7 + other_tables(list).len() + i, rsdt, 36 + 4 * i, 4);
}

/// A loader blob ends by checksumming the first RSDT, patching the RSDP's pointer at 16, of 4
/// bytes, to the tables, and checksumming the RSDP's 20 bytes at 8.
pub proof fn law_blob_ends(tables: Seq<u8>)
    requires
        loader_commands(tables) is Ok,
    ensures
        ({
            let list = walk(tables)->Ok_0;
            let blob = loader_blob(tables);
            let rsdt = first_with(list, rsdt_sig())->Some_0;
            let k = 7 + other_tables(list).len() + entry_count(rsdt);
            &&& checksums(
                command(blob, k),
                tables_file(),
                rsdt.checksum as int,
                rsdt.offset as int,
                rsdt.length as int,
            )
            &&& patches(command(blob, k + 1), rsdp_file(), tables_file(), 16, 4)
            &&& checksums(command(blob, k + 2), rsdp_file(), 8, 0, 20)
        }),
{
    let list = walk(tables)->Ok_0;
    let rsdt = first_with(list, rsdt_sig())->Some_0;
    let k = 7 + other_tables(list).len() + entry_count(rsdt);
    lemma_other_tables(list);
    lemma_parts_of_commands(tables, 0);
    lemma_parts_of_commands(tables, 1);
    lemma_parts_of_commands(tables, 2);
    lemma_checksum(tables, k, rsdt);
    lemma_command_at(tables, k + 1);
    law_bytes_of_add_ptr(rsdp_file(), tables_file(), 16, 4);
    lemma_command_at(tables, k + 2);
    law_bytes_of_add_checksum(rsdp_file(), 8, 0, 20);
}

proof fn lemma_leading_pointers(tables: Seq<u8>, k: int)
    requires
        loader_commands(tables) is Ok,
        0 <= k < 7,
        reads_number(command(loader_blob(tables), k), 0, 2),
    ensures
        reads_name(command(loader_blob(tables), k), 60, tables_file()),
{
    law_blob_begins(tables);
    let c = command(loader_blob(tables), k);
    if k == 0 || k == 1 {
        assert(reads_number(c, 0, 1));
    } else if k == 2 || k == 6 {
        assert(reads_number(c, 0, 3));
    }
}

/// Whatever pointer a loader blob patches, it is made to point into the tables.
pub proof fn law_pointers_lead_to_tables(tables: Seq<u8>, k: int)
    requires
        loader_commands(tables) is Ok,
        0 <= k < loader_blob(tables).len() / 128,
        reads_number(command(loader_blob(tables), k), 0, 2),
    ensures
        reads_name(command(loader_blob(tables), k), 60, tables_file()),
{
    let list = walk(tables)->Ok_0;
    let rsdt = first_with(list, rsdt_sig())->Some_0;
    let m = other_tables(list).len() as int;
    let n = 10 + m + entry_count(rsdt);
    let blob = loader_blob(tables);
    let c = command(blob, k);
    if k < 7 {
        lemma_leading_pointers(tables, k);
    } else if k < 7 + m {
        law_blob_checksums_other_tables(tables, k - 7);
        assert(reads_number(c, 0, 3));
    } else if k < 7 + m + entry_count(rsdt) {
        law_blob_patches_rsdt_entries(tables, k - 7 - m);
        assert(patches(
            c,
            tables_file(),
            tables_file(),
            (rsdt.offset + 36 + 4 * (k - 7 - m)) % 4294967296,
            4,
        ));
    } else if k < n {
        law_blob_ends(tables);
        if k == n - 2 {
            assert(patches(c, rsdp_file(), tables_file(), 16, 4));
        } else {
            assert(reads_number(c, 0, 3));
        }
    } else {
        law_blob_length(tables, 128 * k);
        law_blob_length(tables, 128 * k + 1);
        law_blob_length(tables, 128 * k + 2);
        law_blob_length(tables, 128 * k + 3);
        assert(c[0] == blob[128 * k] && c[1] == blob[128 * k + 1] && c[2] == blob[128 * k + 2]
            && c[3] == blob[128 * k + 3]);
    }
}

/// The loader that goes with tables is this blob, or what stands against it.
pub proof fn law_derived_loader(tables: Seq<u8>)
    ensures
        loader_commands(tables) is Ok ==> derived_loader(tables) == Ok::<Seq<u8>, AcpiError>(
            loader_blob(tables),
        ),
        loader_commands(tables) matches Err(e) ==> derived_loader(tables) == Err::<
            Seq<u8>,
            AcpiError,
        >(e),
{
}

/// Signatures are made of the characters from the space to the tilde.
pub proof fn law_printable(sig: Seq<u8>)
    ensures
        printable(sig) <==> (forall|i: int| 0 <= i < sig.len() ==> 0x1F < #[trigger] sig[i] < 0x7F),
{
}

proof fn lemma_walk_past_tables(ts: Seq<Seq<u8>>, rest: Seq<u8>, k: int)
    requires
        forall|i: int| 0 <= i < ts.len() ==> is_table(#[trigger] ts[i]),
        0 <= k <= ts.len(),
        walk_from(concat(ts) + rest, concat(ts).len() as int) is Err,
    ensures
        walk_from(concat(ts) + rest, start_of(ts, k)) == walk_from(
            concat(ts) + rest,
            concat(ts).len() as int,
        ),
    decreases ts.len() - k,
{
    let blob = concat(ts) + rest;
    let off = start_of(ts, k);
    if k == ts.len() {
        assert(ts.take(k) =~= ts);
    } else {
        lemma_concat_place(ts, k);
        lemma_walk_past_tables(ts, rest, k + 1);
        let t = ts[k];
        let here = concat(ts).subrange(off, off + t.len());
        assert(here == t);
        assert(blob.subrange(off, off + 4) =~= t.take(4)) by {
            assert forall|j: int| 0 <= j < 4 implies blob[off + j] == t[j] by {
                assert(here[j] == concat(ts)[off + j]);
            }
        }
        assert(le32_at(blob, off + 4) == le32_at(t, 4)) by {
            assert(here[4] == blob[off + 4] && here[5] == blob[off + 5] && here[6] == blob[off + 6]
                && here[7] == blob[off + 7]);
        }
    }
}

/// A signature behind whole tables whose length is shorter than a header or leads past the end is
/// told, with its place and that length.
pub proof fn law_list_rejects(ts: Seq<Seq<u8>>, rest: Seq<u8>, length: int)
    requires
        forall|i: int| 0 <= i < ts.len() ==> is_table(#[trigger] ts[i]),
        rest.len() >= 8,
        forall|j: int| 0 <= j < 4 ==> 0x1F < #[trigger] rest[j] < 0x7F,
        reads_number(rest, 4, length),
        length < 8 || length > rest.len(),
    ensures
        walk(concat(ts) + rest) == Err::<Seq<Table>, AcpiError>(
            AcpiError::InvalidLength {
                offset: concat(ts).len() as usize,
                length: length as usize,
            },
        ),
{
    let blob = concat(ts) + rest;
    let off = concat(ts).len() as int;
    assert(blob.subrange(off, off + 4) =~= rest.take(4));
    assert(le32_at(blob, off + 4) == length);
    assert(printable(rest.take(4)));
    lemma_walk_past_tables(ts, rest, 0);
    assert(ts.take(0) =~= Seq::empty());
}

/// A listed entry says a signature, an offset, a checksum's offset and a length, in this order.
pub proof fn law_entries_view(list: Seq<TableEntry>, i: int)
    ensures
        entries_view(list).len() == list.len(),
        0 <= i < list.len() ==> entries_view(list)[i] == (Table {
            signature: list[i].0@,
            offset: list[i].1,
            checksum: list[i].2,
            length: list[i].3,
        }),
{
}

/// A search is for four bytes. It ends without a table where no header of eight bytes is left,
/// gives the table here where its signature is the one, with its place, that of its tenth byte
/// and the length that it says, and else goes on that length further, which must not be zero.
pub proof fn law_search(tables: Seq<u8>, sig: Seq<u8>, off: int)
    requires
        0 <= off,
        sig.len() == 4,
    ensures
        find(tables, sig) == find_from(tables, sig, 0),
        off + 8 > tables.len() ==> find_from(tables, sig, off) == Err::<Table, AcpiError>(
            AcpiError::TableNotFound,
        ),
        off + 8 <= tables.len() ==> {
            let b = tables.subrange(off, off + 8);
            let length: int = b[4] + 256 * b[5] + 65536 * b[6] + 16777216 * b[7];
            if b.take(4) == sig {
                find_from(tables, sig, off) matches Ok(t) && t.signature == sig && t.offset
                    == off as u32 && t.checksum == (off + 9) as u32 && t.length == length
            } else if length == 0 {
                find_from(tables, sig, off) == Err::<Table, AcpiError>(
                    AcpiError::ZeroLength { offset: off as usize },
                )
            } else {
                find_from(tables, sig, off) == find_from(tables, sig, off + length)
            }
        },
{
    if off + 8 <= tables.len() {
        let b = tables.subrange(off, off + 8);
        assert(b.take(4) =~= tables.subrange(off, off + 4));
        assert(b[4] == tables[off + 4] && b[5] == tables[off + 5] && b[6] == tables[off + 6] && b[7]
            == tables[off + 7]);
    }
}

/// A search for anything but four bytes is refused.
pub proof fn law_search_needs_a_signature(tables: Seq<u8>, sig: Seq<u8>)
    requires
        sig.len() != 4,
    ensures
        find(tables, sig) == Err::<Table, AcpiError>(AcpiError::BadSignature),
{
}

} // verus!
