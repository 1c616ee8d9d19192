//! The concatenated ACPI tables that QEMU exposes as `etc/acpi/tables`: walking them, finding one
//! of them, and deriving the table-loader blob that goes with them.
use vstd::prelude::*;
use vstd::string::StringSliceAdditionalSpecFns;

use crate::bytes::{append_zeros, le32_at, same_bytes, u32_at, zeros};
use crate::loader::{encode, encode_all, Command, LoaderCmd, TableLoader, LDR_LENGTH};

verus! {

pub const TABLES_FILE: &'static str = "etc/acpi/tables";

pub const RSDP_FILE: &'static str = "etc/acpi/rsdp";

/// The length of the header of an RSDT, which its 4-byte entries follow.
pub const RSDT_HEADER_LEN: u32 = 36;

/// A table that a loader blob cannot do without.
#[derive(Debug, Clone, Copy, PartialEq, Eq, Structural)]
pub enum RequiredTable {
    Dsdt,
    Facp,
    Rsdt,
}

/// Why tables could not be walked, found or described.
#[derive(Debug, Clone, Copy, PartialEq, Eq, Structural)]
pub enum AcpiError {
    /// The table at `offset` says a length that it cannot have.
    InvalidLength { offset: usize, length: usize },
    /// The blob lacks a table that the loader needs.
    MissingTable(RequiredTable),
    /// The RSDT's length is not that of a header and whole entries.
    MalformedRsdt(u32),
    /// A signature to look for was not four bytes long.
    BadSignature,
    /// No table with the signature was met.
    TableNotFound,
    /// The search met a table of length zero.
    ZeroLength { offset: usize },
}

/// A table: its signature, the offset of the table and of its checksum, and its length.
pub type TableEntry = ([u8; 4], u32, u32, u32);

/// What a `TableEntry` says.
pub struct Table {
    pub signature: Seq<u8>,
    pub offset: u32,
    pub checksum: u32,
    pub length: u32,
}

/// What an entry says.
pub open spec fn entry_view(e: TableEntry) -> Table {
    Table { signature: e.0@, offset: e.1, checksum: e.2, length: e.3 }
}

/// What the entries of a list say.
pub open spec fn entries_view(list: Seq<TableEntry>) -> Seq<Table> {
    Seq::new(list.len(), |i: int| entry_view(list[i]))
}

/// Whether every byte is a printable ASCII character.
pub open spec fn printable(sig: Seq<u8>) -> bool {
    forall|i: int| 0 <= i < sig.len() ==> 32 <= #[trigger] sig[i] < 127
}

/// The table at `off`: offsets are kept in 32 bits, and the checksum byte is the tenth.
pub open spec fn table_at(tables: Seq<u8>, off: int) -> Table {
    Table {
        signature: tables.subrange(off, off + 4),
        offset: off as u32,
        checksum: (off + 9) as u32,
        length: le32_at(tables, off + 4) as u32,
    }
}

/// The tables from `off` on, one behind the other, up to where no header fits or no signature
/// stands; the error is the first length that is shorter than a header or leads past the end.
pub open spec fn walk_from(tables: Seq<u8>, off: int) -> Result<Seq<Table>, AcpiError>
    decreases tables.len() - off,
{
    if off < 0 || off + 8 > tables.len() || !printable(tables.subrange(off, off + 4)) {
        Ok(Seq::empty())
    } else {
        let len = le32_at(tables, off + 4);
        if len < 8 || off + len > tables.len() {
            Err(AcpiError::InvalidLength { offset: off as usize, length: len as usize })
        } else {
            match walk_from(tables, off + len) {
                Ok(rest) => Ok(seq![table_at(tables, off)] + rest),
                Err(e) => Err(e),
            }
        }
    }
}

/// The tables of a blob, in file order.
pub open spec fn walk(tables: Seq<u8>) -> Result<Seq<Table>, AcpiError> {
    walk_from(tables, 0)
}

fn signature_at(tables: &[u8], off: usize) -> (r: [u8; 4])
    requires
        off + 4 <= tables@.len(),
    ensures
        r@ == tables@.subrange(off as int, off + 4),
{
    let r = [tables[off], tables[off + 1], tables[off + 2], tables[off + 3]];
    assert(r@ =~= tables@.subrange(off as int, off + 4));
    r
}

fn is_printable(sig: &[u8; 4]) -> (r: bool)
    ensures
        r == printable(sig@),
{
    let mut i: usize = 0;
    while i < 4
        invariant
            i <= 4,
            forall|j: int| 0 <= j < i ==> 32 <= #[trigger] sig@[j] < 127,
        decreases 4 - i,
    {
        if sig[i] < 32 || sig[i] >= 127 {
            assert(!(32 <= sig@[i as int] < 127));
            return false;
        }
        i += 1;
    }
    true
}

/// Lists the tables of a blob, in file order.
pub fn list_acpi_tables(tables: &[u8]) -> (r: Result<Vec<TableEntry>, AcpiError>)
    ensures
        match r {
            Ok(list) => walk(tables@) == Ok::<Seq<Table>, AcpiError>(entries_view(list@)),
            Err(e) => walk(tables@) == Err::<Seq<Table>, AcpiError>(e),
        },
{
    let mut out: Vec<TableEntry> = Vec::new();
    let mut off: usize = 0;
    assert(walk(tables@) matches Ok(all) ==> all =~= entries_view(out@) + all);
    while tables.len() - off >= 8
        invariant_except_break
            off <= tables@.len(),
            walk(tables@) == (match walk_from(tables@, off as int) {
                Ok(rest) => Ok::<Seq<Table>, AcpiError>(entries_view(out@) + rest),
                Err(e) => Err(e),
            }),
        ensures
            walk(tables@) == Ok::<Seq<Table>, AcpiError>(entries_view(out@)),
        decreases tables@.len() - off,
    {
        let sig = signature_at(tables, off);
        if !is_printable(&sig) {
            assert(entries_view(out@) + Seq::empty() =~= entries_view(out@));
            break;
        }
        let len = match u32_at(tables, off + 4) {
            Some(len) => len as usize,
            None => 0,
        };
        if len < 8 || len > tables.len() - off {
            return Err(AcpiError::InvalidLength { offset: off, length: len });
        }
        let ghost before = out@;
        out.push((sig, off as u32, (off as u128 + 9) as u32, len as u32));
        proof {
            assert(entry_view(out@.last()) == table_at(tables@, off as int));
            assert(entries_view(out@) =~= entries_view(before).push(table_at(tables@, off as int)));
            if let Ok(rest) = walk_from(tables@, off + len) {
                assert(entries_view(before) + (seq![table_at(tables@, off as int)] + rest)
                    =~= entries_view(out@) + rest);
            }
        }
        off += len;
    }
    Ok(out)
}

/// The place and the length of the first table with signature `sig` that a search from `off` on
/// meets, going from header to header; why it meets none.
pub open spec fn find_from(tables: Seq<u8>, sig: Seq<u8>, off: int) -> Result<Table, AcpiError>
    decreases (if off <= tables.len() { tables.len() + 1 - off } else { 0 }),
{
    if off < 0 || off + 8 > tables.len() {
        Err(AcpiError::TableNotFound)
    } else {
        let len = le32_at(tables, off + 4);
        if tables.subrange(off, off + 4) == sig {
            Ok(table_at(tables, off))
        } else if len <= 0 {
            Err(AcpiError::ZeroLength { offset: off as usize })
        } else {
            find_from(tables, sig, off + len)
        }
    }
}

/// The first table with signature `sig`, or why there is none; a signature has four bytes.
pub open spec fn find(tables: Seq<u8>, sig: Seq<u8>) -> Result<Table, AcpiError> {
    if sig.len() != 4 {
        Err(AcpiError::BadSignature)
    } else {
        find_from(tables, sig, 0)
    }
}

/// Finds the first table with the given signature: its offset, that of its checksum, its length.
pub fn find_acpi_table(tables: &[u8], signature: &str) -> (r: Result<(u32, u32, u32), AcpiError>)
    ensures
        match r {
            Ok((offset, checksum, length)) => find(tables@, signature.spec_bytes()) == Ok::<
                Table,
                AcpiError,
            >(Table { signature: signature.spec_bytes(), offset, checksum, length }),
            Err(e) => find(tables@, signature.spec_bytes()) == Err::<Table, AcpiError>(e),
        },
{
    let sig = signature.as_bytes();
    if sig.len() != 4 {
        return Err(AcpiError::BadSignature);
    }
    let mut off: usize = 0;
    while tables.len() - off >= 8
        invariant
            off <= tables@.len(),
            sig@ == signature.spec_bytes(),
            sig@.len() == 4,
            find_from(tables@, sig@, 0) == find_from(tables@, sig@, off as int),
        decreases tables@.len() - off,
    {
        let here = signature_at(tables, off);
        let len: u32 = match u32_at(tables, off + 4) {
            Some(len) => len,
            None => 0,
        };
        if same_bytes(&here, sig) {
            return Ok((off as u32, (off as u128 + 9) as u32, len));
        }
        if len == 0 {
            return Err(AcpiError::ZeroLength { offset: off });
        }
        if len as usize >= tables.len() - off {
            assert(find_from(tables@, sig@, off + len) == Err::<Table, AcpiError>(
                AcpiError::TableNotFound,
            ));
            return Err(AcpiError::TableNotFound);
        }
        off += len as usize;
    }
    Err(AcpiError::TableNotFound)
}

/// The signature of a required table.
pub open spec fn required_signature(t: RequiredTable) -> Seq<u8> {
    match t {
        RequiredTable::Dsdt => seq![0x44, 0x53, 0x44, 0x54],
        RequiredTable::Facp => seq![0x46, 0x41, 0x43, 0x50],
        RequiredTable::Rsdt => seq![0x52, 0x53, 0x44, 0x54],
    }
}

/// The signature of the FACS, the one table without a checksum.
pub open spec fn facs_signature() -> Seq<u8> {
    seq![0x46, 0x41, 0x43, 0x53]
}

fn signature_of(t: RequiredTable) -> (r: [u8; 4])
    ensures
        r@ == required_signature(t),
{
    let r: [u8; 4] = match t {
        RequiredTable::Dsdt => [0x44, 0x53, 0x44, 0x54],
        RequiredTable::Facp => [0x46, 0x41, 0x43, 0x50],
        RequiredTable::Rsdt => [0x52, 0x53, 0x44, 0x54],
    };
    assert(r@ =~= required_signature(t));
    r
}

/// The first table of a list with signature `sig`.
pub open spec fn first_with(list: Seq<Table>, sig: Seq<u8>) -> Option<Table>
    decreases list.len(),
{
    if list.len() == 0 {
        None
    } else if list[0].signature == sig {
        Some(list[0])
    } else {
        first_with(list.drop_first(), sig)
    }
}

/// The first table of a list that is `which`, or the error that it is missing.
pub open spec fn required(list: Seq<Table>, which: RequiredTable) -> Result<Table, AcpiError> {
    match first_with(list, required_signature(which)) {
        Some(t) => Ok(t),
        None => Err(AcpiError::MissingTable(which)),
    }
}

fn find_required(list: &Vec<TableEntry>, which: RequiredTable) -> (r: Result<
    (u32, u32, u32),
    AcpiError,
>)
    ensures
        match r {
            Ok((offset, checksum, length)) => required(entries_view(list@), which) == Ok::<
                Table,
                AcpiError,
            >(Table { signature: required_signature(which), offset, checksum, length }),
            Err(e) => required(entries_view(list@), which) == Err::<Table, AcpiError>(e),
        },
{
    let sig = signature_of(which);
    let ghost all = entries_view(list@);
    let mut i: usize = 0;
    assert(all.skip(0) =~= all);
    while i < list.len()
        invariant
            i <= list@.len(),
            all == entries_view(list@),
            sig@ == required_signature(which),
            first_with(all, sig@) == first_with(all.skip(i as int), sig@),
        decreases list@.len() - i,
    {
        assert(all.skip(i as int)[0] == entry_view(list@[i as int]));
        assert(all.skip(i as int).drop_first() =~= all.skip(i + 1));
        let e = &list[i];
        if same_bytes(&e.0, &sig) {
            return Ok((e.1, e.2, e.3));
        }
        i += 1;
    }
    Err(AcpiError::MissingTable(which))
}

/// Whether a table is checksummed among the secondary ones: every table but FACS, DSDT, FACP and
/// RSDT.
pub open spec fn is_secondary(t: Table) -> bool {
    &&& t.signature != facs_signature()
    &&& t.signature != required_signature(RequiredTable::Dsdt)
    &&& t.signature != required_signature(RequiredTable::Facp)
    &&& t.signature != required_signature(RequiredTable::Rsdt)
}

/// The low 32 bits of `x`.
pub open spec fn low32(x: int) -> u32 {
    (x % 0x1_0000_0000) as u32
}

/// The command that checksums a table.
pub open spec fn checksum_cmd(t: Table) -> Command {
    Command::AddChecksum {
        file: TABLES_FILE.spec_bytes(),
        result_offset: t.checksum,
        start: t.offset,
        length: t.length,
    }
}

/// The command that patches the pointer at `field` of a table.
pub open spec fn pointer_cmd(t: Table, field: int, size: u8) -> Command {
    Command::AddPtr {
        pointer_file: TABLES_FILE.spec_bytes(),
        pointee_file: TABLES_FILE.spec_bytes(),
        pointer_offset: low32(t.offset + field),
        pointer_size: size,
    }
}

/// The checksum commands of the secondary tables, in file order.
pub open spec fn secondary_cmds(list: Seq<Table>) -> Seq<Command> {
    list.filter(|t: Table| is_secondary(t)).map_values(|t: Table| checksum_cmd(t))
}

/// One pointer command for each 4-byte entry of the RSDT.
pub open spec fn rsdt_cmds(rsdt: Table) -> Seq<Command> {
    Seq::new(
        ((rsdt.length - RSDT_HEADER_LEN) / 4) as nat,
        |i: int| pointer_cmd(rsdt, RSDT_HEADER_LEN + 4 * i, 4),
    )
}

/// The commands before those of the secondary tables: both files are allocated, the DSDT is
/// checksummed, the FACP's pointers to the FACS and (in 4 and 8 bytes) to the DSDT are patched and
/// the FACP is checksummed.
pub open spec fn leading_cmds(dsdt: Table, facp: Table) -> Seq<Command> {
    seq![
        Command::Allocate { file: RSDP_FILE.spec_bytes(), alignment: 16, zone: 2 },
        Command::Allocate { file: TABLES_FILE.spec_bytes(), alignment: 64, zone: 1 },
        checksum_cmd(dsdt),
        pointer_cmd(facp, 36, 4),
        pointer_cmd(facp, 40, 4),
        pointer_cmd(facp, 140, 8),
        checksum_cmd(facp),
    ]
}

/// The commands after those of the RSDT's entries: the RSDT is checksummed, the RSDP's pointer to
/// it is patched and the RSDP is checksummed.
pub open spec fn trailing_cmds(rsdt: Table) -> Seq<Command> {
    seq![
        checksum_cmd(rsdt),
        Command::AddPtr {
            pointer_file: RSDP_FILE.spec_bytes(),
            pointee_file: TABLES_FILE.spec_bytes(),
            pointer_offset: 16,
            pointer_size: 4,
        },
        Command::AddChecksum {
            file: RSDP_FILE.spec_bytes(),
            result_offset: 8,
            start: 0,
            length: 20,
        },
    ]
}

/// The commands for a list of tables, or the first thing that stands against them.
pub open spec fn list_commands(list: Seq<Table>) -> Result<Seq<Command>, AcpiError> {
    match (
        required(list, RequiredTable::Dsdt),
        required(list, RequiredTable::Facp),
        required(list, RequiredTable::Rsdt),
    ) {
        (Err(e), _, _) => Err(e),
        (_, Err(e), _) => Err(e),
        (_, _, Err(e)) => Err(e),
        (Ok(dsdt), Ok(facp), Ok(rsdt)) => if rsdt.length < RSDT_HEADER_LEN || (rsdt.length
            - RSDT_HEADER_LEN) % 4 != 0 {
            Err(AcpiError::MalformedRsdt(rsdt.length))
        } else {
            Ok(
                leading_cmds(dsdt, facp) + secondary_cmds(list) + rsdt_cmds(rsdt)
                    + trailing_cmds(rsdt),
            )
        },
    }
}

/// The loader commands for a blob of tables.
pub open spec fn loader_commands(tables: Seq<u8>) -> Result<Seq<Command>, AcpiError> {
    match walk(tables) {
        Ok(list) => list_commands(list),
        Err(e) => Err(e),
    }
}

/// A loader blob, filled up with zeros to its least length.
pub open spec fn filled(blob: Seq<u8>) -> Seq<u8> {
    if blob.len() < LDR_LENGTH {
        blob + zeros((LDR_LENGTH - blob.len()) as nat)
    } else {
        blob
    }
}

fn is_secondary_table(sig: &[u8; 4]) -> (r: bool)
    ensures
        forall|t: Table| t.signature == sig@ ==> r == #[trigger] is_secondary(t),
{
    let facs: [u8; 4] = [0x46, 0x41, 0x43, 0x53];
    assert(facs@ =~= facs_signature());
    !same_bytes(sig, &facs) && !same_bytes(sig, &signature_of(RequiredTable::Dsdt)) && !same_bytes(
        sig,
        &signature_of(RequiredTable::Facp),
    ) && !same_bytes(sig, &signature_of(RequiredTable::Rsdt))
}

proof fn lemma_secondary_step(list: Seq<Table>, i: int)
    requires
        0 <= i < list.len(),
    ensures
        secondary_cmds(list.take(i + 1)) == (if is_secondary(list[i]) {
            secondary_cmds(list.take(i)).push(checksum_cmd(list[i]))
        } else {
            secondary_cmds(list.take(i))
        }),
{
    reveal(Seq::filter);
    assert(list.take(i + 1).drop_last() =~= list.take(i));
    assert(list.take(i + 1).last() == list[i]);
    let keep = |t: Table| is_secondary(t);
    let cmd = |t: Table| checksum_cmd(t);
    let kept = list.take(i).filter(keep);
    assert(kept.push(list[i]).map_values(cmd) =~= kept.map_values(cmd).push(checksum_cmd(list[i])));
}

proof fn lemma_encode_push(cmds: Seq<Command>, cmd: Command)
    ensures
        encode_all(cmds.push(cmd)) == encode_all(cmds) + encode(cmd),
{
    assert(cmds.push(cmd).drop_last() =~= cmds);
}

/// A table of which the offset, the checksum's offset and the length are known.
spec fn located(sig: Seq<u8>, t: (u32, u32, u32)) -> Table {
    Table { signature: sig, offset: t.0, checksum: t.1, length: t.2 }
}

proof fn lemma_encode_add(a: Seq<Command>, b: Seq<Command>)
    ensures
        encode_all(a + b) == encode_all(a) + encode_all(b),
    decreases b.len(),
{
    if b.len() == 0 {
        assert(a + b =~= a);
        assert(encode_all(a) + encode_all(b) =~= encode_all(a));
    } else {
        lemma_encode_add(a, b.drop_last());
        assert((a + b).drop_last() =~= a + b.drop_last());
        assert(encode_all(a) + encode_all(b) =~= encode_all(a) + encode_all(b.drop_last()) + encode(
            b.last(),
        ));
    }
}

fn append_checksum(loader: &mut TableLoader, t: (u32, u32, u32))
    ensures
        forall|sig: Seq<u8>|
            final(loader).buffer@ == old(loader).buffer@ + encode(
                #[trigger] checksum_cmd(located(sig, t)),
            ),
{
    loader.append(
        LoaderCmd::AddChecksum { file: TABLES_FILE, result_offset: t.1, start: t.0, length: t.2 },
    );
}

fn append_pointer(loader: &mut TableLoader, t: (u32, u32, u32), field: u32, size: u8)
    ensures
        forall|sig: Seq<u8>|
            final(loader).buffer@ == old(loader).buffer@ + encode(
                #[trigger] pointer_cmd(located(sig, t), field as int, size),
            ),
{
    loader.append(
        LoaderCmd::AddPtr {
            pointer_file: TABLES_FILE,
            pointee_file: TABLES_FILE,
            pointer_offset: t.0.wrapping_add(field),
            pointer_size: size,
        },
    );
}

fn append_leading(loader: &mut TableLoader, dsdt: (u32, u32, u32), facp: (u32, u32, u32))
    requires
        old(loader).buffer@.len() == 0,
    ensures
        forall|s: Seq<u8>, t: Seq<u8>|
            final(loader).buffer@ == encode_all(
                #[trigger] leading_cmds(located(s, dsdt), located(t, facp)),
            ),
{
    let ghost d = located(Seq::empty(), dsdt);
    let ghost f = located(Seq::empty(), facp);
    loader.append(LoaderCmd::Allocate { file: RSDP_FILE, alignment: 16, zone: 2 });
    loader.append(LoaderCmd::Allocate { file: TABLES_FILE, alignment: 64, zone: 1 });
    append_checksum(loader, dsdt);
    append_pointer(loader, facp, 36, 4);
    append_pointer(loader, facp, 40, 4);
    append_pointer(loader, facp, 140, 8);
    append_checksum(loader, facp);
    proof {
        let c = leading_cmds(d, f);
        assert(c[2] == checksum_cmd(d));
        assert(c[3] == pointer_cmd(f, 36, 4));
        assert(c[4] == pointer_cmd(f, 40, 4));
        assert(c[5] == pointer_cmd(f, 140, 8));
        assert(c[6] == checksum_cmd(f));
        lemma_encode_push(c.take(0), c[0]);
        lemma_encode_push(c.take(1), c[1]);
        lemma_encode_push(c.take(2), c[2]);
        lemma_encode_push(c.take(3), c[3]);
        lemma_encode_push(c.take(4), c[4]);
        lemma_encode_push(c.take(5), c[5]);
        lemma_encode_push(c.take(6), c[6]);
        assert(c.take(0).push(c[0]) =~= c.take(1));
        assert(c.take(1).push(c[1]) =~= c.take(2));
        assert(c.take(2).push(c[2]) =~= c.take(3));
        assert(c.take(3).push(c[3]) =~= c.take(4));
        assert(c.take(4).push(c[4]) =~= c.take(5));
        assert(c.take(5).push(c[5]) =~= c.take(6));
        assert(c.take(6).push(c[6]) =~= c);
        assert(loader.buffer@ =~= encode_all(c));
        assert forall|s: Seq<u8>, t: Seq<u8>|
            loader.buffer@ == encode_all(
                #[trigger] leading_cmds(located(s, dsdt), located(t, facp)),
            ) by {
            assert(leading_cmds(located(s, dsdt), located(t, facp)) =~= c);
        }
    }
}

fn append_secondary(loader: &mut TableLoader, list: &Vec<TableEntry>)
    ensures
        final(loader).buffer@ == old(loader).buffer@ + encode_all(
            secondary_cmds(entries_view(list@)),
        ),
{
    let ghost all = entries_view(list@);
    let mut i: usize = 0;
    assert(secondary_cmds(all.take(0)) =~= Seq::empty()) by {
        reveal(Seq::filter);
    }
    assert(loader.buffer@ =~= loader.buffer@ + encode_all(secondary_cmds(all.take(0))));
    while i < list.len()
        invariant
            i <= list@.len(),
            all == entries_view(list@),
            loader.buffer@ == old(loader).buffer@ + encode_all(
                secondary_cmds(all.take(i as int)),
            ),
        decreases list@.len() - i,
    {
        let (sig, offset, csum, len) = list[i];
        proof {
            lemma_secondary_step(all, i as int);
            assert(all[i as int] == located(sig@, (offset, csum, len)));
        }
        if is_secondary_table(&sig) {
            append_checksum(loader, (offset, csum, len));
            proof {
                let done = secondary_cmds(all.take(i as int));
                lemma_encode_push(done, checksum_cmd(all[i as int]));
                assert(loader.buffer@ =~= old(loader).buffer@ + encode_all(
                    done.push(checksum_cmd(all[i as int])),
                ));
            }
        }
        i += 1;
    }
    assert(all.take(i as int) =~= all);
}

fn append_rsdt_entries(loader: &mut TableLoader, rsdt: (u32, u32, u32))
    requires
        rsdt.2 >= RSDT_HEADER_LEN,
    ensures
        forall|sig: Seq<u8>|
            final(loader).buffer@ == old(loader).buffer@ + encode_all(
                #[trigger] rsdt_cmds(located(sig, rsdt)),
            ),
{
    let ghost cmds = rsdt_cmds(located(Seq::empty(), rsdt));
    let entries: u32 = (rsdt.2 - RSDT_HEADER_LEN) / 4;
    let mut k: u32 = 0;
    assert(cmds.take(0) =~= Seq::empty());
    assert(loader.buffer@ =~= loader.buffer@ + encode_all(cmds.take(0)));
    while k < entries
        invariant
            k <= entries,
            entries == (rsdt.2 - RSDT_HEADER_LEN) / 4,
            rsdt.2 >= RSDT_HEADER_LEN,
            cmds == rsdt_cmds(located(Seq::empty(), rsdt)),
            loader.buffer@ == old(loader).buffer@ + encode_all(cmds.take(k as int)),
        decreases entries - k,
    {
        append_pointer(loader, rsdt, RSDT_HEADER_LEN + 4 * k, 4);
        proof {
            let cmd = pointer_cmd(located(Seq::empty(), rsdt), RSDT_HEADER_LEN + 4 * k, 4);
            assert(cmds[k as int] == cmd);
            lemma_encode_push(cmds.take(k as int), cmd);
            assert(cmds.take(k as int).push(cmd) =~= cmds.take(k + 1));
            assert(loader.buffer@ =~= old(loader).buffer@ + encode_all(cmds.take(k + 1)));
        }
        k += 1;
    }
    assert(cmds.take(k as int) =~= cmds);
    assert forall|sig: Seq<u8>|
        loader.buffer@ == old(loader).buffer@ + encode_all(
            #[trigger] rsdt_cmds(located(sig, rsdt)),
        ) by {
        assert(rsdt_cmds(located(sig, rsdt)) =~= cmds);
    }
}

fn append_trailing(loader: &mut TableLoader, rsdt: (u32, u32, u32))
    ensures
        forall|sig: Seq<u8>|
            final(loader).buffer@ == old(loader).buffer@ + encode_all(
                #[trigger] trailing_cmds(located(sig, rsdt)),
            ),
{
    let ghost r = located(Seq::empty(), rsdt);
    append_checksum(loader, rsdt);
    loader.append(
        LoaderCmd::AddPtr {
            pointer_file: RSDP_FILE,
            pointee_file: TABLES_FILE,
            pointer_offset: 16,
            pointer_size: 4,
        },
    );
    loader.append(
        LoaderCmd::AddChecksum { file: RSDP_FILE, result_offset: 8, start: 0, length: 20 },
    );
    proof {
        let c = trailing_cmds(r);
        assert(c[0] == checksum_cmd(r));
        lemma_encode_push(c.take(0), c[0]);
        lemma_encode_push(c.take(1), c[1]);
        lemma_encode_push(c.take(2), c[2]);
        assert(c.take(0).push(c[0]) =~= c.take(1));
        assert(c.take(1).push(c[1]) =~= c.take(2));
        assert(c.take(2).push(c[2]) =~= c);
        assert(loader.buffer@ =~= old(loader).buffer@ + encode_all(c));
        assert forall|sig: Seq<u8>|
            loader.buffer@ == old(loader).buffer@ + encode_all(
                #[trigger] trailing_cmds(located(sig, rsdt)),
            ) by {
            assert(trailing_cmds(located(sig, rsdt)) =~= c);
        }
    }
}

/// Derives the table-loader blob from the concatenated tables.
///
/// The commands come in the order in which QEMU emits them: both files are allocated; the DSDT is
/// checksummed; the FACP's pointers are patched and it is checksummed; the secondary tables are
/// checksummed in file order; the RSDT's entries are patched and it is checksummed; the RSDP is
/// patched and checksummed. Offsets are 32-bit fields: where a sum exceeds them, its low 32 bits
/// stand.
pub fn derive_table_loader(tables: &[u8]) -> (r: Result<Vec<u8>, AcpiError>)
    ensures
        match r {
            Ok(blob) => loader_commands(tables@) matches Ok(cmds) && blob@ == filled(
                encode_all(cmds),
            ),
            Err(e) => loader_commands(tables@) == Err::<Seq<Command>, AcpiError>(e),
        },
{
    let list = match list_acpi_tables(tables) {
        Ok(list) => list,
        Err(e) => return Err(e),
    };
    let dsdt = match find_required(&list, RequiredTable::Dsdt) {
        Ok(t) => t,
        Err(e) => return Err(e),
    };
    let facp = match find_required(&list, RequiredTable::Facp) {
        Ok(t) => t,
        Err(e) => return Err(e),
    };
    let rsdt = match find_required(&list, RequiredTable::Rsdt) {
        Ok(t) => t,
        Err(e) => return Err(e),
    };
    if rsdt.2 < RSDT_HEADER_LEN || (rsdt.2 - RSDT_HEADER_LEN) % 4 != 0 {
        return Err(AcpiError::MalformedRsdt(rsdt.2));
    }
    let mut loader = TableLoader::new();
    append_leading(&mut loader, dsdt, facp);
    append_secondary(&mut loader, &list);
    append_rsdt_entries(&mut loader, rsdt);
    append_trailing(&mut loader, rsdt);
    proof {
        let d = located(required_signature(RequiredTable::Dsdt), dsdt);
        let f = located(required_signature(RequiredTable::Facp), facp);
        let t = located(required_signature(RequiredTable::Rsdt), rsdt);
        let leading = leading_cmds(d, f);
        let secondary = secondary_cmds(entries_view(list@));
        lemma_encode_add(leading, secondary);
        lemma_encode_add(leading + secondary, rsdt_cmds(t));
        lemma_encode_add(leading + secondary + rsdt_cmds(t), trailing_cmds(t));
    }
    let mut buffer = loader.buffer;
    let n = buffer.len();
    if n < LDR_LENGTH {
        append_zeros(&mut buffer, LDR_LENGTH - n);
    }
    Ok(buffer)
}

} // verus!
