use tdx_measure::acpi::{
    derive_table_loader, find_acpi_table, list_acpi_tables, AcpiError, RequiredTable,
};
use tdx_measure::loader::{LoaderCmd, TableLoader, FIXED_STRING_LEN, LDR_LENGTH};

/// An 8-byte ACPI table header with the given signature and length.
fn header(sig: &[u8; 4], len: u32) -> Vec<u8> {
    let mut h = Vec::new();
    h.extend_from_slice(sig);
    h.extend_from_slice(&len.to_le_bytes());
    h
}

/// Concatenated tables: each entry becomes `<8-byte header><(len-8) zeros>`.
fn build_blob(tables: &[(&[u8; 4], u32)]) -> Vec<u8> {
    let mut out = Vec::new();
    for &(sig, len) in tables {
        out.extend(header(sig, len));
        out.resize(out.len() + (len as usize - 8), 0);
    }
    out
}

/// Decodes one 128-byte loader command: its number, its file, the file pointed to, its numbers.
fn decode_loader_cmd(cmd: &[u8]) -> (u32, String, Option<String>, Vec<u32>) {
    assert_eq!(cmd.len(), 128);
    let kind = u32::from_le_bytes(cmd[0..4].try_into().unwrap());
    let read_str = |off: usize| -> String {
        let s = &cmd[off..off + FIXED_STRING_LEN];
        let end = s.iter().position(|b| *b == 0).unwrap_or(s.len());
        std::str::from_utf8(&s[..end]).unwrap().to_string()
    };
    match kind {
        1 => {
            let file = read_str(4);
            let align = u32::from_le_bytes(cmd[60..64].try_into().unwrap());
            let zone = cmd[64] as u32;
            (1, file, None, vec![align, zone])
        }
        2 => {
            let ptr_file = read_str(4);
            let ptee_file = read_str(60);
            let ptr_off = u32::from_le_bytes(cmd[116..120].try_into().unwrap());
            let ptr_size = cmd[120] as u32;
            (2, ptr_file, Some(ptee_file), vec![ptr_off, ptr_size])
        }
        3 => {
            let file = read_str(4);
            let result = u32::from_le_bytes(cmd[60..64].try_into().unwrap());
            let start = u32::from_le_bytes(cmd[64..68].try_into().unwrap());
            let length = u32::from_le_bytes(cmd[68..72].try_into().unwrap());
            (3, file, None, vec![result, start, length])
        }
        other => panic!("unknown loader cmd type {other}"),
    }
}

fn split_cmds(loader: &[u8]) -> Vec<&[u8]> {
    assert!(loader.len() >= LDR_LENGTH);
    loader
        .chunks_exact(128)
        .take_while(|chunk| u32::from_le_bytes(chunk[0..4].try_into().unwrap()) != 0)
        .collect()
}

#[test]
fn find_acpi_table_returns_offsets_and_csum_for_each_table() {
    // Minimal table set, no HPET; 4-entry RSDT (len=36+16).
    let blob = build_blob(&[
        (b"FACS", 64),
        (b"DSDT", 200),
        (b"FACP", 244),
        (b"APIC", 144),
        (b"MCFG", 60),
        (b"WAET", 40),
        (b"RSDT", 52),
    ]);

    // Header layout: 4-byte signature, 4-byte length, 1-byte revision, 1-byte checksum, so the
    // checksum lives at offset+9.
    let (off, csum, len) = find_acpi_table(&blob, "DSDT").unwrap();
    assert_eq!(off, 64);
    assert_eq!(csum, 73);
    assert_eq!(len, 200);

    let (off, _, len) = find_acpi_table(&blob, "FACP").unwrap();
    assert_eq!(off, 264);
    assert_eq!(len, 244);

    let (off, _, _) = find_acpi_table(&blob, "RSDT").unwrap();
    assert_eq!(off, 64 + 200 + 244 + 144 + 60 + 40); // = 752
}

#[test]
fn list_acpi_tables_walks_blob_and_stops_at_padding() {
    let blob = build_blob(&[
        (b"FACS", 64),
        (b"DSDT", 100),
        (b"FACP", 244),
        (b"RSDT", 40),
    ]);
    let list = list_acpi_tables(&blob).unwrap();
    let sigs: Vec<&[u8]> = list.iter().map(|(s, ..)| s.as_slice()).collect();
    assert_eq!(sigs, [b"FACS".as_slice(), b"DSDT", b"FACP", b"RSDT"]);

    // Padding (zeros) after the last table ends the walk and is no malformed table.
    let mut blob_padded = blob.clone();
    blob_padded.resize(blob.len() + 4096, 0);
    let list2 = list_acpi_tables(&blob_padded).unwrap();
    assert_eq!(list2.len(), 4);
}

#[test]
fn derive_table_loader_emits_canonical_no_hpet_layout() {
    let blob = build_blob(&[
        (b"FACS", 64),
        (b"DSDT", 100),
        (b"FACP", 244),
        (b"APIC", 144),
        (b"MCFG", 60),
        (b"WAET", 40),
        (b"RSDT", 52), // header (36) + 4 x 4-byte entries
    ]);
    let loader = derive_table_loader(&blob).unwrap();
    let cmds: Vec<_> = split_cmds(&loader).into_iter().map(decode_loader_cmd).collect();

    // Allocate rsdp + Allocate tables + AddChecksum DSDT + 3 x AddPtr FACP + AddChecksum FACP
    // + AddChecksum APIC + AddChecksum MCFG + AddChecksum WAET + 4 x AddPtr RSDT
    // + AddChecksum RSDT + AddPtr RSDP + AddChecksum RSDP = 17 commands.
    assert_eq!(cmds.len(), 17);
    assert_eq!(cmds[0].0, 1); // Allocate
    assert_eq!(cmds[0].1, "etc/acpi/rsdp");
    assert_eq!(cmds[1].0, 1);
    assert_eq!(cmds[1].1, "etc/acpi/tables");
    assert_eq!(cmds[2].0, 3); // AddChecksum DSDT
    assert_eq!(cmds[2].3, vec![64 + 9, 64, 100]);

    // 3 AddPtr at facp+36, facp+40, facp+140 (offsets from the blob's start)
    let facp_off = 64 + 100;
    for (i, &expected_off) in [36u32, 40, 140].iter().enumerate() {
        let cmd = &cmds[3 + i];
        assert_eq!(cmd.0, 2);
        assert_eq!(cmd.3[0], facp_off + expected_off);
    }
    // 4 RSDT pointers (no HPET) at rsdt+36/+40/+44/+48
    let rsdt_off = 64 + 100 + 244 + 144 + 60 + 40;
    for (i, expected_off) in (36u32..36 + 4 * 4).step_by(4).enumerate() {
        let cmd = &cmds[10 + i];
        assert_eq!(cmd.0, 2);
        assert_eq!(cmd.3[0], rsdt_off + expected_off);
    }
    // RSDT checksum, then the final RSDP wiring + checksum.
    assert_eq!(cmds[14].0, 3); // AddChecksum RSDT
    assert_eq!(cmds[14].1, "etc/acpi/tables");
    assert_eq!(cmds[15].0, 2); // AddPtr rsdp+16 -> tables
    assert_eq!(cmds[15].1, "etc/acpi/rsdp");
    assert_eq!(cmds[15].3, vec![16, 4]);
    assert_eq!(cmds[16].0, 3); // AddChecksum rsdp
    assert_eq!(cmds[16].1, "etc/acpi/rsdp");
    assert_eq!(cmds[16].3, vec![8, 0, 20]);

    // Buffer must be padded to LDR_LENGTH (4096).
    assert_eq!(loader.len(), LDR_LENGTH);
}

#[test]
fn derive_table_loader_with_hpet_adds_an_extra_addchecksum_and_rsdt_ptr() {
    // Same shape with HPET in the mix. RSDT now has 5 entries (FACP, APIC, HPET, MCFG, WAET), so
    // its length is 36 + 5*4 = 56.
    let blob = build_blob(&[
        (b"FACS", 64),
        (b"DSDT", 100),
        (b"FACP", 244),
        (b"APIC", 144),
        (b"HPET", 56),
        (b"MCFG", 60),
        (b"WAET", 40),
        (b"RSDT", 56),
    ]);
    let loader = derive_table_loader(&blob).unwrap();
    let cmds: Vec<_> = split_cmds(&loader).into_iter().map(decode_loader_cmd).collect();

    // 17 + 2 commands now: one more AddChecksum (HPET) and one more AddPtr for an RSDT entry.
    assert_eq!(cmds.len(), 19);
    // AddChecksums in `etc/acpi/tables` (i.e. tables blob, not rsdp).
    let checksum_tables: Vec<_> = cmds
        .iter()
        .filter(|c| c.0 == 3 && c.1 == "etc/acpi/tables")
        .collect();
    // DSDT + FACP + APIC + HPET + MCFG + WAET + RSDT = 7
    assert_eq!(checksum_tables.len(), 7);
    // AddPtrs for RSDT entries.
    let rsdt_off = 64 + 100 + 244 + 144 + 56 + 60 + 40;
    let rsdt_ptrs: Vec<_> = cmds
        .iter()
        .filter(|c| {
            c.0 == 2
                && c.1 == "etc/acpi/tables"
                && c.3[0] >= rsdt_off + 36
                && c.3[0] < rsdt_off + 36 + 5 * 4
        })
        .collect();
    assert_eq!(rsdt_ptrs.len(), 5);
}

#[test]
fn listed_tables_follow_one_another() {
    let blob = build_blob(&[(b"AAAA", 8), (b"BBBB", 20), (b"CCCC", 11)]);
    let list = list_acpi_tables(&blob).unwrap();
    assert_eq!(
        list,
        vec![
            (*b"AAAA", 0, 9, 8),
            (*b"BBBB", 8, 17, 20),
            (*b"CCCC", 28, 37, 11),
        ]
    );
}

#[test]
fn listing_ends_where_no_signature_stands() {
    assert_eq!(list_acpi_tables(&[]).unwrap(), vec![]);
    assert_eq!(list_acpi_tables(b"DSDT").unwrap(), vec![]);
    // 126 is the last printable byte, 127 is none; 32 is the first.
    assert_eq!(list_acpi_tables(&header(b"~~~~", 8)).unwrap().len(), 1);
    assert_eq!(list_acpi_tables(&header(b"   \x20", 8)).unwrap().len(), 1);
    assert_eq!(list_acpi_tables(&header(b"ABC\x7f", 8)).unwrap().len(), 0);
    assert_eq!(list_acpi_tables(&header(b"\x1fABC", 0)).unwrap().len(), 0);
}

#[test]
fn listing_rejects_lengths_that_no_table_has() {
    let mut blob = build_blob(&[(b"FACS", 64)]);
    blob.extend(header(b"DSDT", 7));
    assert_eq!(
        list_acpi_tables(&blob),
        Err(AcpiError::InvalidLength { offset: 64, length: 7 })
    );

    let mut blob = build_blob(&[(b"FACS", 64)]);
    blob.extend(header(b"DSDT", 9));
    assert_eq!(
        list_acpi_tables(&blob),
        Err(AcpiError::InvalidLength { offset: 64, length: 9 })
    );
    assert_eq!(
        derive_table_loader(&blob),
        Err(AcpiError::InvalidLength { offset: 64, length: 9 })
    );
}

#[test]
fn search_finds_the_first_of_several() {
    let blob = build_blob(&[(b"SSDT", 40), (b"APIC", 30), (b"SSDT", 50)]);
    assert_eq!(find_acpi_table(&blob, "SSDT"), Ok((0, 9, 40)));
    assert_eq!(find_acpi_table(&blob, "APIC"), Ok((40, 49, 30)));
}

#[test]
fn search_needs_only_headers() {
    // Neither a printable signature nor a length within the blob is asked of a table on the way.
    let mut blob = header(&[0, 1, 2, 3], 8);
    blob.extend(header(b"RSDT", 4096));
    assert_eq!(find_acpi_table(&blob, "RSDT"), Ok((8, 17, 4096)));
}

#[test]
fn search_says_why_it_found_nothing() {
    let blob = build_blob(&[(b"FACS", 64), (b"DSDT", 100)]);
    assert_eq!(find_acpi_table(&blob, "FACP"), Err(AcpiError::TableNotFound));
    assert_eq!(find_acpi_table(&[], "FACP"), Err(AcpiError::TableNotFound));
    assert_eq!(find_acpi_table(b"FACP\x08\0\0", "FACP"), Err(AcpiError::TableNotFound));
    // A length that leads past the end ends the search.
    assert_eq!(
        find_acpi_table(&header(b"FACS", 1000), "FACP"),
        Err(AcpiError::TableNotFound)
    );

    let mut zero = blob.clone();
    zero.resize(blob.len() + 16, 0);
    assert_eq!(
        find_acpi_table(&zero, "FACP"),
        Err(AcpiError::ZeroLength { offset: 164 })
    );

    assert_eq!(find_acpi_table(&blob, "DSD"), Err(AcpiError::BadSignature));
    assert_eq!(find_acpi_table(&blob, "DSDT2"), Err(AcpiError::BadSignature));
    assert_eq!(find_acpi_table(&blob, ""), Err(AcpiError::BadSignature));
}

#[test]
fn search_agrees_with_the_list() {
    let blob = build_blob(&[(b"FACS", 64), (b"DSDT", 100), (b"DSDT", 36), (b"RSDT", 40)]);
    let list = list_acpi_tables(&blob).unwrap();
    let (_, off, csum, len) = list[1];
    assert_eq!(find_acpi_table(&blob, "DSDT"), Ok((off, csum, len)));
}

#[test]
fn loader_needs_three_tables() {
    let blob = build_blob(&[(b"FACP", 244), (b"RSDT", 40)]);
    assert_eq!(
        derive_table_loader(&blob),
        Err(AcpiError::MissingTable(RequiredTable::Dsdt))
    );
    let blob = build_blob(&[(b"DSDT", 100), (b"RSDT", 40)]);
    assert_eq!(
        derive_table_loader(&blob),
        Err(AcpiError::MissingTable(RequiredTable::Facp))
    );
    let blob = build_blob(&[(b"DSDT", 100), (b"FACP", 244)]);
    assert_eq!(
        derive_table_loader(&blob),
        Err(AcpiError::MissingTable(RequiredTable::Rsdt))
    );
    assert_eq!(
        derive_table_loader(&[]),
        Err(AcpiError::MissingTable(RequiredTable::Dsdt))
    );
}

#[test]
fn loader_rejects_a_malformed_rsdt() {
    for len in [8u32, 35, 37, 39, 41] {
        let blob = build_blob(&[(b"DSDT", 100), (b"FACP", 244), (b"RSDT", len)]);
        assert_eq!(derive_table_loader(&blob), Err(AcpiError::MalformedRsdt(len)));
    }
    let blob = build_blob(&[(b"DSDT", 100), (b"FACP", 244), (b"RSDT", 36)]);
    let loader = derive_table_loader(&blob).unwrap();
    assert_eq!(split_cmds(&loader).len(), 10);
}

#[test]
fn loader_grows_past_its_least_length() {
    // 10 commands for the fixed tables and 40 for the RSDT's entries.
    let blob = build_blob(&[(b"DSDT", 100), (b"FACP", 244), (b"RSDT", 36 + 160)]);
    let loader = derive_table_loader(&blob).unwrap();
    assert_eq!(loader.len(), 50 * 128);
    let cmds: Vec<_> = split_cmds(&loader).into_iter().map(decode_loader_cmd).collect();
    assert_eq!(cmds.len(), 50);
    assert_eq!(cmds[7].3, vec![344 + 36, 4]);
    assert_eq!(cmds[46].3, vec![344 + 36 + 39 * 4, 4]);
    assert_eq!(cmds[47].3, vec![344 + 9, 344, 196]);
}

#[test]
fn secondary_tables_are_checksummed_in_file_order() {
    let blob = build_blob(&[
        (b"WAET", 40),
        (b"RSDT", 36),
        (b"FACS", 64),
        (b"APIC", 50),
        (b"FACP", 244),
        (b"DSDT", 100),
        (b"APIC", 60),
    ]);
    let loader = derive_table_loader(&blob).unwrap();
    let cmds: Vec<_> = split_cmds(&loader).into_iter().map(decode_loader_cmd).collect();
    assert_eq!(cmds.len(), 13);
    assert_eq!(cmds[7].3, vec![9, 0, 40]);
    assert_eq!(cmds[8].3, vec![140 + 9, 140, 50]);
    assert_eq!(cmds[9].3, vec![534 + 9, 534, 60]);
    assert_eq!(cmds[5].3, vec![190 + 140, 8]);
    // Every table but the FACS (at 76) is checksummed once.
    let mut starts: Vec<u32> = cmds
        .iter()
        .filter(|c| c.0 == 3 && c.1 == "etc/acpi/tables")
        .map(|c| c.3[1])
        .collect();
    starts.sort();
    assert_eq!(starts, vec![0, 40, 140, 190, 434, 534]);
}

#[test]
fn commands_take_128_bytes_each() {
    let mut loader = TableLoader::new();
    assert_eq!(loader.buffer.len(), 0);
    loader.append(LoaderCmd::Allocate { file: "a", alignment: 0x0102_0304, zone: 5 });
    loader.append(LoaderCmd::AddPtr {
        pointer_file: "p",
        pointee_file: "q",
        pointer_offset: 0xA0B0_C0D0,
        pointer_size: 8,
    });
    loader.append(LoaderCmd::AddChecksum { file: "c", result_offset: 1, start: 2, length: 3 });
    assert_eq!(loader.buffer.len(), 3 * 128);

    let mut expected = vec![0u8; 3 * 128];
    expected[0] = 1;
    expected[4] = b'a';
    expected[60..64].copy_from_slice(&[4, 3, 2, 1]);
    expected[64] = 5;
    expected[128] = 2;
    expected[128 + 4] = b'p';
    expected[128 + 60] = b'q';
    expected[128 + 116..128 + 120].copy_from_slice(&[0xD0, 0xC0, 0xB0, 0xA0]);
    expected[128 + 120] = 8;
    expected[256] = 3;
    expected[256 + 4] = b'c';
    expected[256 + 60] = 1;
    expected[256 + 64] = 2;
    expected[256 + 68] = 3;
    assert_eq!(loader.buffer, expected);
}

#[test]
fn commands_read_back_as_written() {
    let mut loader = TableLoader::new();
    loader.append(LoaderCmd::AddPtr {
        pointer_file: "etc/acpi/rsdp",
        pointee_file: "etc/acpi/tables",
        pointer_offset: 16,
        pointer_size: 4,
    });
    assert_eq!(
        decode_loader_cmd(&loader.buffer),
        (
            2,
            "etc/acpi/rsdp".to_string(),
            Some("etc/acpi/tables".to_string()),
            vec![16, 4]
        )
    );
}

#[test]
fn names_are_cut_or_filled_to_their_field() {
    let mut data = vec![0xEE];
    TableLoader::append_fixed_string(&mut data, "ab");
    assert_eq!(data.len(), 1 + FIXED_STRING_LEN);
    assert_eq!(&data[..4], &[0xEE, b'a', b'b', 0]);
    assert!(data[3..].iter().all(|b| *b == 0));

    let long = "x".repeat(60);
    let mut data = Vec::new();
    TableLoader::append_fixed_string(&mut data, &long);
    assert_eq!(data, vec![b'x'; 56]);

    let exact = "y".repeat(56);
    let mut data = Vec::new();
    TableLoader::append_fixed_string(&mut data, &exact);
    assert_eq!(data, vec![b'y'; 56]);
}
