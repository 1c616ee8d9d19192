use tdx_measure::acpi::{AcpiError, RequiredTable};
use tdx_measure::machine::{derive_rsdp, BuildError, BuildInputs, BuildPlan, Machine, Tables};

fn table(sig: &[u8; 4], len: u32) -> Vec<u8> {
    let mut t = sig.to_vec();
    t.extend_from_slice(&len.to_le_bytes());
    t.resize(len as usize, 0);
    t
}

/// DSDT at 0, FACP at 100, RSDT at 344.
fn blob() -> Vec<u8> {
    let mut b = table(b"DSDT", 100);
    b.extend(table(b"FACP", 244));
    b.extend(table(b"RSDT", 40));
    b
}

fn machine() -> Machine<'static> {
    Machine {
        create_acpi_table: false,
        direct_boot: true,
        metadata_path: "metadata.json",
        distribution: "ubuntu:26.04",
        qemu_version: None,
        nvram: None,
        acpi_tables: "tables.bin",
        rsdp: "",
        table_loader: "",
    }
}

fn inputs() -> BuildInputs<&'static str> {
    BuildInputs {
        acpi: Ok(()),
        nvram: Ok("out/OVMF_VARS.fd".to_string()),
        tables: Ok(blob()),
        rsdp: Ok(vec![1, 2, 3]),
        loader: Ok(vec![4, 5, 6]),
    }
}

fn outside(r: Result<Tables, BuildError<&'static str>>) -> &'static str {
    match r {
        Err(BuildError::Outside(e)) => e,
        _ => panic!("expected a failed step"),
    }
}

#[test]
fn plan_follows_the_machine() {
    assert_eq!(
        machine().plan(),
        BuildPlan {
            generate_acpi: false,
            generate_nvram: false,
            read_rsdp: false,
            read_loader: false,
        }
    );
    let mut m = machine();
    m.create_acpi_table = true;
    m.rsdp = "rsdp.bin";
    m.table_loader = "loader.bin";
    assert_eq!(
        m.plan(),
        BuildPlan {
            generate_acpi: true,
            generate_nvram: true,
            read_rsdp: true,
            read_loader: true,
        }
    );
    m.direct_boot = false;
    assert!(!m.plan().generate_acpi);
    assert!(m.plan().generate_nvram);
}

#[test]
fn blobs_are_derived_where_no_file_is_named() {
    let t = machine().build_tables(inputs()).unwrap();
    assert_eq!(t.tables, blob());
    assert_eq!(t.rsdp, b"RSD PTR \0BOCHS \0\x58\x01\0\0");
    assert_eq!(t.loader.len(), 4096);
    assert_eq!(t.generated_nvram, None);
}

#[test]
fn blobs_are_taken_from_named_files() {
    let mut m = machine();
    m.rsdp = "rsdp.bin";
    m.table_loader = "loader.bin";
    let mut i = inputs();
    i.tables = Ok(vec![9]);
    let t = m.build_tables(i).unwrap();
    assert_eq!(t.tables, vec![9]);
    assert_eq!(t.rsdp, vec![1, 2, 3]);
    assert_eq!(t.loader, vec![4, 5, 6]);
}

#[test]
fn generated_nvram_is_told_unless_the_caller_named_it() {
    let mut m = machine();
    m.create_acpi_table = true;
    let t = m.build_tables(inputs()).unwrap();
    assert_eq!(t.generated_nvram, Some("out/OVMF_VARS.fd".to_string()));

    m.nvram = Some("mine.fd");
    let t = m.build_tables(inputs()).unwrap();
    assert_eq!(t.generated_nvram, None);
}

#[test]
fn failed_steps_are_told_in_order() {
    let mut m = machine();
    m.create_acpi_table = true;
    m.rsdp = "rsdp.bin";
    m.table_loader = "loader.bin";
    let all_failed = || BuildInputs {
        acpi: Err("acpi"),
        nvram: Err("nvram"),
        tables: Err("tables"),
        rsdp: Err("rsdp"),
        loader: Err("loader"),
    };
    assert_eq!(outside(m.build_tables(all_failed())), "acpi");
    m.direct_boot = false;
    assert_eq!(outside(m.build_tables(all_failed())), "nvram");
    m.create_acpi_table = false;
    assert_eq!(outside(m.build_tables(all_failed())), "tables");
    let mut i = all_failed();
    i.tables = Ok(blob());
    assert_eq!(outside(m.build_tables(i)), "rsdp");
    let mut i = all_failed();
    i.tables = Ok(blob());
    i.rsdp = Ok(vec![]);
    assert_eq!(outside(m.build_tables(i)), "loader");
}

#[test]
fn tables_that_do_not_serve_are_told() {
    let mut i = inputs();
    i.tables = Ok(table(b"DSDT", 100));
    assert!(matches!(
        machine().build_tables(i),
        Err(BuildError::Acpi(AcpiError::TableNotFound))
    ));
    let mut i = inputs();
    i.tables = Ok(table(b"RSDT", 40));
    assert!(matches!(
        machine().build_tables(i),
        Err(BuildError::Acpi(AcpiError::MissingTable(RequiredTable::Dsdt)))
    ));
}

#[test]
fn rsdp_points_to_the_rsdt() {
    let rsdp = derive_rsdp(&blob()).unwrap();
    assert_eq!(rsdp.len(), 20);
    assert_eq!(&rsdp[..8], b"RSD PTR ");
    assert_eq!(rsdp[8], 0);
    assert_eq!(&rsdp[9..15], b"BOCHS ");
    assert_eq!(rsdp[15], 0);
    assert_eq!(u32::from_le_bytes(rsdp[16..20].try_into().unwrap()), 344);
    assert_eq!(derive_rsdp(&[]), Err(AcpiError::TableNotFound));
}

#[test]
fn rsdp_goes_with_the_loader() {
    let t = machine().build_tables(inputs()).unwrap();
    let rsdt = u32::from_le_bytes(t.rsdp[16..20].try_into().unwrap());
    // The command before the last two checksums the RSDT: its start is the RSDT's offset.
    let n = t.loader.chunks_exact(128).take_while(|c| c[0] != 0).count();
    let cmd = &t.loader[128 * (n - 3)..128 * (n - 2)];
    assert_eq!(u32::from_le_bytes(cmd[64..68].try_into().unwrap()), rsdt);
}
