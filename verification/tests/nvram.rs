use tdx_measure::nvram::{
    detect_auth, find_store, parse_vars, read_boot_variables, read_efi_variables, var_layout,
    NvramError, GLOBAL_VAR_GUID, VAR_STORE_GUID,
};

const OTHER_GUID: [u8; 16] = [7; 16];

fn utf16(name: &str) -> Vec<u8> {
    let mut out: Vec<u8> = name.encode_utf16().flat_map(|u| u.to_le_bytes()).collect();
    out.extend([0, 0]);
    out
}

fn record(state: u8, guid: [u8; 16], name: &[u8], data: &[u8], auth: bool) -> Vec<u8> {
    let (ns_off, ds_off, guid_off, hdr) = var_layout(auth);
    let mut r = vec![0u8; hdr];
    r[0] = 0xAA;
    r[1] = 0x55;
    r[2] = state;
    r[ns_off..ns_off + 4].copy_from_slice(&(name.len() as u32).to_le_bytes());
    r[ds_off..ds_off + 4].copy_from_slice(&(data.len() as u32).to_le_bytes());
    r[guid_off..guid_off + 16].copy_from_slice(&guid);
    r.extend_from_slice(name);
    r.extend_from_slice(data);
    while r.len() % 4 != 0 {
        r.push(0);
    }
    r
}

fn written(guid: [u8; 16], name: &str, data: &[u8], auth: bool) -> Vec<u8> {
    record(0x3F, guid, &utf16(name), data, auth)
}

fn image_with(region: &[u8], format: u8, state: u8) -> Vec<u8> {
    let mut raw = vec![0x11; 72];
    raw.extend(VAR_STORE_GUID);
    raw.extend(((28 + region.len()) as u32).to_le_bytes());
    raw.extend([format, state, 0, 0, 0, 0, 0, 0]);
    raw.extend(region);
    raw.extend([0x22; 9]);
    raw
}

fn image(records: &[Vec<u8>]) -> Vec<u8> {
    let mut region = records.concat();
    region.extend([0xFF; 64]);
    image_with(&region, 0x5A, 0xFE)
}

fn error(raw: &[u8]) -> NvramError {
    match read_boot_variables(raw) {
        Ok(_) => panic!("boot variables were read"),
        Err(e) => e,
    }
}

#[test]
fn layouts_place_the_fields() {
    assert_eq!(var_layout(true), (36, 40, 44, 60));
    assert_eq!(var_layout(false), (8, 12, 16, 32));
}

#[test]
fn store_is_found_at_its_first_place() {
    assert_eq!(find_store(&[]), None);
    assert_eq!(find_store(&VAR_STORE_GUID[..15]), None);
    assert_eq!(find_store(&VAR_STORE_GUID), Some(0));
    let mut data = vec![0x78, 0x2c];
    data.extend(VAR_STORE_GUID);
    data.extend(VAR_STORE_GUID);
    assert_eq!(find_store(&data), Some(2));
}

#[test]
fn boot_variables_are_read_back() {
    for auth in [true, false] {
        let raw = image(&[
            written(GLOBAL_VAR_GUID, "BootOrder", &[0x01, 0x00, 0xAF, 0x00], auth),
            written(GLOBAL_VAR_GUID, "Boot0001", b"first", auth),
            written(OTHER_GUID, "Boot00AF", b"not global", auth),
            written(GLOBAL_VAR_GUID, "Boot00AF", b"second!", auth),
            written(GLOBAL_VAR_GUID, "Boot0002", b"not listed", auth),
        ]);
        let (order, entries) = read_boot_variables(&raw).unwrap();
        assert_eq!(order, vec![0x01, 0x00, 0xAF, 0x00]);
        assert_eq!(entries.len(), 2);
        assert_eq!(entries[&1], b"first");
        assert_eq!(entries[&0xAF], b"second!");
    }
}

#[test]
fn listed_entries_that_do_not_exist_are_left_out() {
    let raw = image(&[
        written(GLOBAL_VAR_GUID, "BootOrder", &[0x0A, 0xBC, 0x00, 0x00], true),
        written(GLOBAL_VAR_GUID, "BootBC0A", b"x", true),
        written(GLOBAL_VAR_GUID, "boot0000", b"y", true),
    ]);
    let (_, entries) = read_boot_variables(&raw).unwrap();
    assert_eq!(entries.len(), 1);
    assert_eq!(entries[&0xBC0A], b"x");
}

#[test]
fn boot_order_may_be_empty_or_repeat() {
    let raw = image(&[written(GLOBAL_VAR_GUID, "BootOrder", &[], true)]);
    let (order, entries) = read_boot_variables(&raw).unwrap();
    assert!(order.is_empty());
    assert!(entries.is_empty());

    let raw = image(&[
        written(GLOBAL_VAR_GUID, "BootOrder", &[3, 0, 3, 0], true),
        written(GLOBAL_VAR_GUID, "Boot0003", b"e", true),
    ]);
    assert_eq!(read_boot_variables(&raw).unwrap().1.len(), 1);
}

#[test]
fn last_of_several_with_one_key_counts() {
    let raw = image(&[
        written(GLOBAL_VAR_GUID, "Lang", b"one", true),
        written(OTHER_GUID, "Lang", b"two", true),
        written(GLOBAL_VAR_GUID, "Lang", b"three", true),
    ]);
    let vars = match read_efi_variables(&raw) {
        Ok(vars) => vars,
        Err(e) => panic!("{e:?}"),
    };
    assert_eq!(vars.get(&GLOBAL_VAR_GUID, "Lang"), Some(&b"three".to_vec()));
    assert_eq!(vars.get(&OTHER_GUID, "Lang"), Some(&b"two".to_vec()));
    assert_eq!(vars.get(&OTHER_GUID, "lang"), None);
    let entries = vars.into_entries();
    assert_eq!(entries.len(), 2);
    assert!(entries.iter().any(|e| e.guid == OTHER_GUID && e.name == "Lang" && e.data == b"two"));
}

#[test]
fn only_fully_written_variables_are_parsed() {
    let region = [
        record(0x3C, GLOBAL_VAR_GUID, &utf16("Deleted"), b"123", true),
        record(0x3F, OTHER_GUID, &utf16("Kept"), b"12345", true),
        record(0x7F, GLOBAL_VAR_GUID, &utf16("Header"), b"", true),
    ]
    .concat();
    let vars = parse_vars(&region, true);
    assert_eq!(vars, vec![(OTHER_GUID, "Kept".to_string(), b"12345".to_vec())]);
}

#[test]
fn parsing_passes_over_what_is_no_variable() {
    // A stray start marker with impossible sizes, then a variable.
    let mut region = vec![0, 0xAA, 0x55, 1];
    region.extend(vec![0; 60]);
    region.extend(written(OTHER_GUID, "A", b"", true));
    assert_eq!(parse_vars(&region, true).len(), 1);
    // An erased byte ends the store.
    let mut region = written(OTHER_GUID, "A", b"", true);
    region.push(0xFF);
    region.extend(written(OTHER_GUID, "B", b"", true));
    assert_eq!(parse_vars(&region, true).len(), 1);
    assert_eq!(parse_vars(&[0xFF], true), vec![]);
    assert_eq!(parse_vars(&[], false), vec![]);
    assert_eq!(parse_vars(&[0xAA], false), vec![]);
    assert_eq!(parse_vars(&[0xAA, 0x55, 0x3F, 0], false), vec![]);
}

#[test]
fn parsing_leaves_out_names_that_are_no_text_and_data_that_is_cut() {
    let lone = record(0x3F, OTHER_GUID, &[0x00, 0xD8, 0, 0], b"x", true);
    let good = written(OTHER_GUID, "\u{1F600}z", b"y", true);
    let region = [lone, good.clone()].concat();
    assert_eq!(
        parse_vars(&region, true),
        vec![(OTHER_GUID, "\u{1F600}z".to_string(), b"y".to_vec())]
    );
    let end = good.len() - 4;
    assert_eq!(parse_vars(&good[..end], true), vec![]);
}

#[test]
fn sizes_of_variables_are_bounded() {
    let name = vec![0x41; 4096];
    assert_eq!(parse_vars(&record(0x3F, OTHER_GUID, &name, b"", true), true).len(), 1);
    let name = vec![0x41; 4098];
    assert_eq!(parse_vars(&record(0x3F, OTHER_GUID, &name, b"", true), true).len(), 0);
    let data = vec![0x42; 1024 * 1024];
    assert_eq!(parse_vars(&record(0x3F, OTHER_GUID, &utf16("n"), &data, true), true).len(), 1);
    let data = vec![0x42; 1024 * 1024 + 1];
    assert_eq!(parse_vars(&record(0x3F, OTHER_GUID, &utf16("n"), &data, true), true).len(), 0);
    assert_eq!(parse_vars(&record(0x3F, OTHER_GUID, &[], b"", true), true).len(), 0);
    assert_eq!(parse_vars(&record(0x3F, OTHER_GUID, &[0x41, 0, 0], b"", true), true).len(), 0);
}

#[test]
fn layout_is_told_from_the_first_variable() {
    assert!(detect_auth(&written(OTHER_GUID, "Name", b"data", true)));
    assert!(!detect_auth(&written(OTHER_GUID, "Name", b"data", false)));
    // Variables that are not fully written do not tell.
    let mut vars = record(0x3C, OTHER_GUID, &utf16("Name"), b"data", true);
    vars.extend(written(OTHER_GUID, "Name", b"data", false));
    assert!(!detect_auth(&vars));
}

#[test]
fn data_of_a_deleted_variable_does_not_tell() {
    // Erased-looking bytes, the end of a device path, and what looks like the start of a variable.
    for data in [
        &[0xFF, 0xFF, 0xFF, 0xFF][..],
        &[0x7F, 0xFF, 0x04, 0x00],
        &[0xAA, 0x55, 0x3F, 0x00, 7, 0, 0, 0],
    ] {
        for auth in [true, false] {
            let deleted = record(0x3C, OTHER_GUID, &utf16("A"), data, auth);
            let valid = written(GLOBAL_VAR_GUID, "BootOrder", &[], auth);
            let vars = [deleted.clone(), valid.clone()].concat();
            assert_eq!(detect_auth(&vars), auth);
            assert_eq!(parse_vars(&vars, auth).len(), 1);
            assert!(read_boot_variables(&image(&[deleted, valid])).is_ok());
        }
    }
    let mut vars = vec![0xAA, 0x55, 0x3C, 0, 7, 0, 0, 0, 4, 0, 0, 0, 4, 0, 0, 0];
    vars.extend([0; 16]);
    vars.extend([0x41, 0, 0, 0, 0xFF, 0xFF, 0xFF, 0xFF]);
    vars.extend([0xAA, 0x55, 0x3F, 0, 7, 0, 0, 0, 4, 0, 0, 0, 0, 0, 0, 0]);
    vars.extend([0; 16]);
    vars.extend([0x41, 0, 0, 0]);
    assert!(!detect_auth(&vars));
}

#[test]
fn boot_variables_are_read_past_records_in_other_states() {
    for auth in [true, false] {
        let raw = image(&[
            record(0x3C, GLOBAL_VAR_GUID, &utf16("BootOrder"), &[9, 0, 0xFF, 0xFF], auth),
            record(0x7F, GLOBAL_VAR_GUID, &utf16("Boot0001"), &[0xFF; 12], auth),
            written(GLOBAL_VAR_GUID, "BootOrder", &[1, 0], auth),
            record(0x3C, GLOBAL_VAR_GUID, &utf16("Boot0001"), b"old", auth),
            written(GLOBAL_VAR_GUID, "Boot0001", b"new", auth),
        ]);
        let (order, entries) = read_boot_variables(&raw).unwrap();
        assert_eq!(order, vec![1, 0]);
        assert_eq!(entries.len(), 1);
        assert_eq!(entries[&1], b"new");
    }
}

#[test]
fn variables_too_long_to_tell_are_passed_over() {
    let name = vec![0x41; 514];
    for auth in [true, false] {
        let mut vars = record(0x3F, OTHER_GUID, &name, b"", auth);
        vars.extend(written(OTHER_GUID, "Name", b"data", auth));
        assert_eq!(detect_auth(&vars), auth);
    }
}

#[test]
fn name_of_a_long_variable_does_not_tell() {
    // An authenticated variable whose name field holds a plain one behind the null.
    let mut name = vec![0x41, 0, 0, 0];
    name.extend(written(GLOBAL_VAR_GUID, "A", b"", false));
    name.resize(600, 0);
    let vars = record(0x3F, OTHER_GUID, &name, b"", true);
    assert_eq!(vars.len(), 660);
    assert!(detect_auth(&vars));
    assert_eq!(parse_vars(&vars, true).len(), 1);

    // A plain variable whose name field holds an authenticated one, then another plain one.
    let mut name = vec![0x41, 0, 0, 0];
    name.extend(written(GLOBAL_VAR_GUID, "A", b"", true));
    name.resize(600, 0);
    let long = record(0x3F, OTHER_GUID, &name, b"", false);
    let vars = [long.clone(), written(OTHER_GUID, "Name", b"data", false)].concat();
    assert!(!detect_auth(&vars));
    // Alone it is too long to tell.
    assert!(detect_auth(&long));
}

#[test]
fn data_of_a_long_variable_does_not_tell() {
    let mut data = written(GLOBAL_VAR_GUID, "A", b"", false);
    data.resize(256 * 1024, 0);
    let long = record(0x3F, OTHER_GUID, &utf16("Long"), &data, true);
    assert!(detect_auth(&long));
    let vars = [long, written(OTHER_GUID, "Name", b"data", true)].concat();
    assert!(detect_auth(&vars));
    assert_eq!(parse_vars(&vars, true).len(), 2);
}

#[test]
fn plain_variable_that_looks_valid_counts_before_a_long_authenticated_one() {
    // One place that reads as a plain variable named "A" and as a long authenticated one.
    let mut vars = vec![0u8; 60 + 600];
    vars[..4].copy_from_slice(&[0xAA, 0x55, 0x3F, 0]);
    vars[8] = 4; // plain name size
    vars[32] = 0x41;
    vars[36..40].copy_from_slice(&600u32.to_le_bytes());
    assert_eq!(parse_vars(&vars, true).len(), 1);
    assert_eq!(parse_vars(&vars, false).len(), 1);
    assert!(!detect_auth(&vars));
    // Where both look valid, the authenticated one counts.
    vars[36..40].copy_from_slice(&512u32.to_le_bytes());
    assert!(detect_auth(&vars));
}

#[test]
fn layout_is_authenticated_where_nothing_tells() {
    assert!(detect_auth(&[]));
    assert!(detect_auth(&[0xFF; 100]));
    assert!(detect_auth(&[0; 100]));
    assert!(detect_auth(&[0xAA, 0x55, 0x3F, 0]));
    // A plain variable whose name is too long to tell.
    let name = vec![0x41; 514];
    assert!(detect_auth(&record(0x3F, OTHER_GUID, &name, b"", false)));
    // One behind an erased byte.
    let mut vars = vec![0xFF];
    vars.extend(written(OTHER_GUID, "Name", b"data", false));
    assert!(detect_auth(&vars));
}

#[test]
fn each_defect_of_an_image_is_told() {
    assert_eq!(error(&[]), NvramError::StoreNotFound);
    assert_eq!(error(&VAR_STORE_GUID), NvramError::NotFormatted(0));
    let region = written(OTHER_GUID, "A", b"", true);
    assert_eq!(error(&image_with(&region, 0x5B, 0xFE)), NvramError::NotFormatted(0x5B));
    assert_eq!(error(&image_with(&region, 0x5A, 0x7E)), NvramError::NotHealthy(0x7E));
    assert_eq!(error(&image_with(&[], 0x5A, 0xFE)), NvramError::NoSpace);
    assert_eq!(error(&image(&[])), NvramError::NoVariables);
    assert_eq!(error(&image(&[region])), NvramError::NoBootOrder);
    assert_eq!(
        error(&image(&[written(OTHER_GUID, "BootOrder", &[0, 0], true)])),
        NvramError::NoBootOrder
    );
    assert_eq!(
        error(&image(&[written(GLOBAL_VAR_GUID, "BootOrder", &[0, 0, 1], true)])),
        NvramError::OddBootOrder(3)
    );
}

#[test]
fn store_ends_with_the_image_at_the_latest() {
    let mut raw = VAR_STORE_GUID.to_vec();
    raw.extend([0xFF, 0xFF, 0xFF, 0x7F, 0x5A, 0xFE, 0, 0, 0, 0, 0, 0]);
    assert_eq!(error(&raw), NvramError::NoSpace);
    raw.extend(written(GLOBAL_VAR_GUID, "BootOrder", &[], true));
    assert!(read_boot_variables(&raw).is_ok());
}
