//! What holds of walking, finding and loading ACPI tables as a whole.
use vstd::prelude::*;
use vstd::string::StringSliceAdditionalSpecFns;

use crate::acpi::{
    checksum_cmd, facs_signature, filled, find, find_from, first_with, is_secondary, leading_cmds,
    loader_commands, printable, required, required_signature, rsdt_cmds, secondary_cmds, table_at,
    trailing_cmds, walk, walk_from, AcpiError, RequiredTable, Table, RSDP_FILE, RSDT_HEADER_LEN,
    TABLES_FILE,
};
use crate::bytes::{concat, le32_at, lemma_concat_place, start_of};
use crate::loader::{
    decode, encode_all, law_command_places, law_decode_of_encode, plain_name, plain_names,
    Command, LDR_LENGTH,
};

verus! {

/// Whether `t` is the bytes of one table: its header says a printable signature and its length.
pub open spec fn is_table(t: Seq<u8>) -> bool {
    &&& 8 <= t.len() <= u32::MAX
    &&& printable(t.take(4))
    &&& le32_at(t, 4) == t.len()
}

/// The entry of the `i`-th of the concatenated tables.
pub open spec fn entry_of(ts: Seq<Seq<u8>>, i: int) -> Table {
    Table {
        signature: ts[i].take(4),
        offset: start_of(ts, i) as u32,
        checksum: (start_of(ts, i) + 9) as u32,
        length: ts[i].len() as u32,
    }
}

/// Whether no table begins `pad`.
pub open spec fn is_padding(pad: Seq<u8>) -> bool {
    pad.len() < 8 || !printable(pad.take(4))
}

proof fn lemma_walk_of_concat(ts: Seq<Seq<u8>>, pad: Seq<u8>, k: int)
    requires
        forall|i: int| 0 <= i < ts.len() ==> is_table(#[trigger] ts[i]),
        is_padding(pad),
        0 <= k <= ts.len(),
    ensures
        walk_from(concat(ts) + pad, start_of(ts, k)) == Ok::<Seq<Table>, AcpiError>(
            Seq::new((ts.len() - k) as nat, |i: int| entry_of(ts, k + i)),
        ),
    decreases ts.len() - k,
{
    let blob = concat(ts) + pad;
    let off = start_of(ts, k);
    let expected = Seq::new((ts.len() - k) as nat, |i: int| entry_of(ts, k + i));
    if k == ts.len() {
        assert(ts.take(k) =~= ts);
        if pad.len() >= 8 {
            assert(blob.subrange(off, off + 4) =~= pad.take(4));
        }
        assert(expected =~= Seq::empty());
    } else {
        lemma_concat_place(ts, k);
        lemma_walk_of_concat(ts, pad, k + 1);
        let t = ts[k];
        let here = concat(ts).subrange(off, off + t.len());
        assert(here == t);
        assert(blob.subrange(off, off + 4) =~= t.take(4)) by {
            assert forall|j: int| 0 <= j < 4 implies blob[off + j] == t[j] by {
                assert(here[j] == concat(ts)[off + j]);
            }
        }
        assert(le32_at(blob, off + 4) == le32_at(t, 4)) by {
            assert(here[4] == blob[off + 4] && here[5] == blob[off + 5] && here[6] == blob[off + 6]
                && here[7] == blob[off + 7]);
        }
        let rest = Seq::new((ts.len() - (k + 1)) as nat, |i: int| entry_of(ts, k + 1 + i));
        assert(table_at(blob, off) == entry_of(ts, k));
        assert(expected =~= seq![entry_of(ts, k)] + rest);
    }
}

/// Tables that stand one behind the other are listed one by one, in file order, each at its
/// offset, and padding behind them ends the list.
pub proof fn law_list_of_tables(ts: Seq<Seq<u8>>, pad: Seq<u8>)
    requires
        forall|i: int| 0 <= i < ts.len() ==> is_table(#[trigger] ts[i]),
        is_padding(pad),
    ensures
        walk(concat(ts) + pad) == Ok::<Seq<Table>, AcpiError>(
            Seq::new(ts.len(), |i: int| entry_of(ts, i)),
        ),
{
    assert(ts.take(0) =~= Seq::empty());
    lemma_walk_of_concat(ts, pad, 0);
    assert(Seq::new((ts.len() - 0) as nat, |i: int| entry_of(ts, 0 + i)) =~= Seq::new(
        ts.len(),
        |i: int| entry_of(ts, i),
    ));
}

/// Whether the tables of a list follow one another from `off` on and stay within `len` bytes.
pub open spec fn contiguous(list: Seq<Table>, off: int, len: int) -> bool
    decreases list.len(),
{
    list.len() > 0 ==> {
        let t = list[0];
        &&& t.offset == off
        &&& t.checksum == off + 9
        &&& t.length >= 8
        &&& off + t.length <= len
        &&& t.signature.len() == 4
        &&& printable(t.signature)
        &&& contiguous(list.drop_first(), off + t.length, len)
    }
}

proof fn lemma_walk_contiguous(tables: Seq<u8>, off: int)
    requires
        tables.len() < u32::MAX,
        0 <= off,
    ensures
        walk_from(tables, off) matches Ok(list) ==> contiguous(list, off, tables.len() as int),
    decreases tables.len() - off,
{
    if let Ok(list) = walk_from(tables, off) {
        if list.len() > 0 {
            let len = le32_at(tables, off + 4);
            lemma_walk_contiguous(tables, off + len);
            let rest = walk_from(tables, off + len)->Ok_0;
            assert(list.drop_first() =~= rest);
        }
    }
}

/// The listed tables cover the blob from its first byte without gaps: each begins where the one
/// before ends, stays within the blob, has a printable signature and its checksum byte at 9.
pub proof fn law_list_is_contiguous(tables: Seq<u8>)
    requires
        tables.len() < u32::MAX,
    ensures
        walk(tables) matches Ok(list) ==> contiguous(list, 0, tables.len() as int),
{
    lemma_walk_contiguous(tables, 0);
}

proof fn lemma_find_agrees(tables: Seq<u8>, sig: Seq<u8>, off: int)
    requires
        0 <= off,
    ensures
        walk_from(tables, off) matches Ok(list) ==> (first_with(list, sig) matches Some(t)
            ==> find_from(tables, sig, off) == Ok::<Table, AcpiError>(t)),
    decreases tables.len() - off,
{
    if let Ok(list) = walk_from(tables, off) {
        if list.len() > 0 {
            let len = le32_at(tables, off + 4);
            lemma_find_agrees(tables, sig, off + len);
            let rest = walk_from(tables, off + len)->Ok_0;
            assert(list.drop_first() =~= rest);
            assert(list[0] == table_at(tables, off));
        }
    }
}

/// A search finds the first listed table with the signature, where one is listed.
pub proof fn law_find_is_first_listed(tables: Seq<u8>, sig: Seq<u8>)
    requires
        sig.len() == 4,
    ensures
        walk(tables) matches Ok(list) ==> (first_with(list, sig) matches Some(t) ==> find(
            tables,
            sig,
        ) == Ok::<Table, AcpiError>(t)),
{
    lemma_find_agrees(tables, sig, 0);
}

/// A loader blob has one command for each file and for the RSDP's two fields, three pointers and
/// three checksums for the fixed tables, one checksum for each secondary table, and one pointer
/// for each entry that the RSDT has room for.
pub proof fn law_command_count(tables: Seq<u8>)
    ensures
        loader_commands(tables) matches Ok(cmds) ==> {
            let list = walk(tables)->Ok_0;
            let rsdt = required(list, RequiredTable::Rsdt)->Ok_0;
            cmds.len() == 10 + secondary_cmds(list).len() + (rsdt.length - RSDT_HEADER_LEN) / 4
        },
{
}

/// The commands of a blob are the leading ones, those of the secondary tables, those of the RSDT's
/// entries and the trailing ones, each at its place.
pub proof fn lemma_parts_of_commands(tables: Seq<u8>, k: int)
    ensures
        loader_commands(tables) matches Ok(cmds) ==> {
            let list = walk(tables)->Ok_0;
            let a = leading_cmds(
                required(list, RequiredTable::Dsdt)->Ok_0,
                required(list, RequiredTable::Facp)->Ok_0,
            );
            let b = secondary_cmds(list);
            let c = rsdt_cmds(required(list, RequiredTable::Rsdt)->Ok_0);
            let d = trailing_cmds(required(list, RequiredTable::Rsdt)->Ok_0);
            &&& cmds == a + b + c + d
            &&& 0 <= k < a.len() ==> cmds[k] == a[k]
            &&& 0 <= k < b.len() ==> cmds[a.len() + k] == b[k]
            &&& 0 <= k < c.len() ==> cmds[a.len() + b.len() + k] == c[k]
            &&& 0 <= k < d.len() ==> cmds[a.len() + b.len() + c.len() + k] == d[k]
        },
{
}

/// Whether a listed table is checksummed: every secondary one, and of the DSDTs, FACPs and RSDTs
/// the first.
pub open spec fn is_checksummed(list: Seq<Table>, t: Table) -> bool {
    ||| list.contains(t) && is_secondary(t)
    ||| required(list, RequiredTable::Dsdt) == Ok::<Table, AcpiError>(t)
    ||| required(list, RequiredTable::Facp) == Ok::<Table, AcpiError>(t)
    ||| required(list, RequiredTable::Rsdt) == Ok::<Table, AcpiError>(t)
}

/// Every table that is to be checksummed has its command.
pub proof fn law_tables_are_checksummed(tables: Seq<u8>, t: Table)
    requires
        loader_commands(tables) is Ok,
        is_checksummed(walk(tables)->Ok_0, t),
    ensures
        loader_commands(tables)->Ok_0.contains(checksum_cmd(t)),
{
    let cmds = loader_commands(tables)->Ok_0;
    let list = walk(tables)->Ok_0;
    let dsdt = required(list, RequiredTable::Dsdt)->Ok_0;
    let facp = required(list, RequiredTable::Facp)->Ok_0;
    let rsdt = required(list, RequiredTable::Rsdt)->Ok_0;
    if list.contains(t) && is_secondary(t) {
        let keep = |t: Table| is_secondary(t);
        let i = choose|i: int| 0 <= i < list.len() && list[i] == t;
        list.lemma_filter_contains(keep, i);
        let kept = list.filter(keep);
        let j = choose|j: int| 0 <= j < kept.len() && kept[j] == t;
        lemma_parts_of_commands(tables, j);
        assert(secondary_cmds(list)[j] == checksum_cmd(t));
        assert(cmds[7 + j] == checksum_cmd(t));
    } else if t == dsdt {
        lemma_parts_of_commands(tables, 2);
        assert(cmds[2] == checksum_cmd(t));
    } else if t == facp {
        lemma_parts_of_commands(tables, 6);
        assert(cmds[6] == checksum_cmd(t));
    } else {
        lemma_parts_of_commands(tables, 0);
        let n = 7 + secondary_cmds(list).len() + rsdt_cmds(rsdt).len();
        assert(cmds[n as int] == checksum_cmd(t));
    }
}

/// No other part of the tables is checksummed; the FACS in particular is not.
pub proof fn law_only_tables_are_checksummed(tables: Seq<u8>, k: int)
    requires
        loader_commands(tables) is Ok,
        0 <= k < loader_commands(tables)->Ok_0.len(),
        loader_commands(tables)->Ok_0[k] matches Command::AddChecksum { file, .. } && file
            == TABLES_FILE.spec_bytes(),
    ensures
        exists|t: Table| #[trigger]
            is_checksummed(walk(tables)->Ok_0, t) && t.signature != facs_signature()
                && loader_commands(tables)->Ok_0[k] == checksum_cmd(t),
{
    let cmds = loader_commands(tables)->Ok_0;
    let list = walk(tables)->Ok_0;
    let dsdt = required(list, RequiredTable::Dsdt)->Ok_0;
    let facp = required(list, RequiredTable::Facp)->Ok_0;
    let rsdt = required(list, RequiredTable::Rsdt)->Ok_0;
    let b = secondary_cmds(list).len();
    let c = rsdt_cmds(rsdt).len();
    lemma_first_with(list, required_signature(RequiredTable::Dsdt));
    lemma_first_with(list, required_signature(RequiredTable::Facp));
    lemma_first_with(list, required_signature(RequiredTable::Rsdt));
    assert(facs_signature()[0] == 0x46 && facs_signature()[3] == 0x53);
    assert(required_signature(RequiredTable::Dsdt)[0] == 0x44);
    assert(required_signature(RequiredTable::Facp)[3] == 0x50);
    assert(required_signature(RequiredTable::Rsdt)[0] == 0x52);
    if k < 7 {
        lemma_parts_of_commands(tables, k);
        assert(k == 2 || k == 6);
        assert(is_checksummed(list, if k == 2 { dsdt } else { facp }));
    } else if k < 7 + b {
        lemma_parts_of_commands(tables, k - 7);
        let keep = |t: Table| is_secondary(t);
        let kept = list.filter(keep);
        let t = kept[k - 7];
        list.lemma_filter_pred(keep, k - 7);
        list.lemma_filter_contains_rev(keep, t);
        assert(is_checksummed(list, t));
    } else if k < 7 + b + c {
        lemma_parts_of_commands(tables, k - 7 - b);
        assert(false);
    } else {
        lemma_parts_of_commands(tables, k - 7 - b - c);
        lemma_file_names();
        assert(k == 7 + b + c);
        assert(is_checksummed(list, rsdt));
    }
}

proof fn lemma_first_with(list: Seq<Table>, sig: Seq<u8>)
    ensures
        first_with(list, sig) matches Some(t) ==> t.signature == sig,
    decreases list.len(),
{
    if list.len() > 0 {
        lemma_first_with(list.drop_first(), sig);
    }
}

proof fn lemma_file_names()
    ensures
        plain_name(TABLES_FILE.spec_bytes()),
        plain_name(RSDP_FILE.spec_bytes()),
        TABLES_FILE.spec_bytes().len() != RSDP_FILE.spec_bytes().len(),
{
    reveal_strlit("etc/acpi/tables");
    reveal_strlit("etc/acpi/rsdp");
    vstd::utf8::is_ascii_chars_encode_utf8(TABLES_FILE@);
    vstd::utf8::is_ascii_chars_encode_utf8(RSDP_FILE@);
}

proof fn lemma_plain_commands(tables: Seq<u8>, k: int)
    ensures
        loader_commands(tables) matches Ok(cmds) ==> (0 <= k < cmds.len() ==> plain_names(cmds[k])),
{
    lemma_file_names();
    if let Ok(cmds) = loader_commands(tables) {
        let list = walk(tables)->Ok_0;
        let dsdt = required(list, RequiredTable::Dsdt)->Ok_0;
        let facp = required(list, RequiredTable::Facp)->Ok_0;
        let rsdt = required(list, RequiredTable::Rsdt)->Ok_0;
        let a = leading_cmds(dsdt, facp);
        let b = secondary_cmds(list);
        let c = rsdt_cmds(rsdt);
        let d = trailing_cmds(rsdt);
        assert(cmds == a + b + c + d);
        if 0 <= k < cmds.len() {
            if k < a.len() {
                assert(cmds[k] == a[k]);
            } else if k < a.len() + b.len() {
                assert(cmds[k] == b[k - a.len()]);
            } else if k < a.len() + b.len() + c.len() {
                assert(cmds[k] == c[k - a.len() - b.len()]);
            } else {
                assert(cmds[k] == d[k - a.len() - b.len() - c.len()]);
            }
        }
    }
}

/// A loader blob is at least 4096 bytes long and a whole number of 128-byte commands; read
/// command by command it gives back the commands that were written, and what follows is zero.
pub proof fn law_loader_read_back(tables: Seq<u8>, k: int)
    ensures
        loader_commands(tables) matches Ok(cmds) ==> {
            let blob = filled(encode_all(cmds));
            &&& blob.len() >= LDR_LENGTH
            &&& blob.len() % 128 == 0
            &&& 0 <= k < cmds.len() ==> decode(blob.subrange(128 * k, 128 * k + 128)) == Some(
                cmds[k],
            )
            &&& 128 * cmds.len() <= k < blob.len() ==> blob[k] == 0
        },
{
    if let Ok(cmds) = loader_commands(tables) {
        let blob = filled(encode_all(cmds));
        law_command_places(cmds, k);
        if 0 <= k < cmds.len() {
            lemma_plain_commands(tables, k);
            law_decode_of_encode(cmds[k]);
            assert(blob.subrange(128 * k, 128 * k + 128) =~= encode_all(cmds).subrange(
                128 * k,
                128 * k + 128,
            ));
        }
    }
}

} // verus!
