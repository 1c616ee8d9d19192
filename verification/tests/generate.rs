use tdx_measure::docker::qemu_pkg_for;
use tdx_measure::generate::{
    acpi_run, direct_mounts, indirect_mounts, nvram_run, nvram_setup, BootConfig, Destination,
    DirectBoot, GenerateError, ImageConfig, IndirectBoot, NvramFiles,
};
use tdx_measure::qemu::{build_nvram_qemu_args, build_qemu_args, QemuShape};

fn shape(accel: &str) -> QemuShape {
    QemuShape {
        machine: "q35".into(),
        cpu: "host".into(),
        accel: accel.into(),
        globals: vec![],
        objects: vec![],
        netdevs: vec![],
        devices: vec![],
        fw_cfg: vec![],
    }
}

fn boot(qemu: Option<QemuShape>) -> BootConfig {
    BootConfig {
        cpus: 2,
        memory: "2G".into(),
        bios: "OVMF.fd".into(),
        acpi_tables: "acpi/tables.bin".into(),
        qemu,
    }
}

fn direct() -> ImageConfig {
    ImageConfig {
        boot_config: None,
        is_direct_boot: true,
        direct: Some(DirectBoot { kernel: "vmlinuz".into(), initrd: "initrd.img".into() }),
        indirect: None,
        cmdline: "quiet".into(),
    }
}

fn indirect() -> ImageConfig {
    ImageConfig {
        boot_config: None,
        is_direct_boot: false,
        direct: None,
        indirect: Some(IndirectBoot { qcow2: "disk.qcow2".into() }),
        cmdline: "quiet".into(),
    }
}

#[test]
fn boot_configuration_is_required() {
    let mut config = direct();
    assert!(matches!(config.required_boot_config(), Err(GenerateError::NoBootConfig)));
    config.boot_config = Some(boot(None));
    assert_eq!(config.required_boot_config().unwrap().bios, "OVMF.fd");
}

#[test]
fn acpi_run_of_a_default_machine() {
    let run = acpi_run(&boot(None));
    assert_eq!(run.qemu_args, build_qemu_args(None, 2, "2G"));
    assert!(run.need_kvm);
    assert!(!run.need_vhost_vsock);
}

#[test]
fn acpi_run_of_a_described_machine() {
    let run = acpi_run(&boot(Some(shape("tcg"))));
    assert_eq!(run.qemu_args, build_qemu_args(Some(&shape("tcg")), 2, "2G"));
    assert!(!run.need_kvm);
    assert!(run.need_vhost_vsock);
    assert!(acpi_run(&boot(Some(shape("kvm")))).need_kvm);
}

#[test]
fn nvram_goes_where_the_caller_says() {
    let pkg = qemu_pkg_for("ubuntu:25.04", None).unwrap();
    let setup = nvram_setup("ubuntu:25.04", &pkg, Some("mine.fd"), Some("t.bin"));
    assert_eq!(setup.destination, Destination::Given("mine.fd".to_string()));
    assert_eq!(setup.build_args[12], "ACPI_TABLES_NAME=t.bin");

    let setup = nvram_setup("ubuntu:25.04", &pkg, None, None);
    assert_eq!(setup.destination, Destination::BesideTables);
    assert_eq!(setup.build_args[12], "ACPI_TABLES_NAME=acpi_tables.bin");
}

#[test]
fn nvram_run_of_a_direct_boot() {
    let run = match nvram_run(&direct(), &boot(None), true) {
        Ok(run) => run,
        Err(e) => panic!("{e:?}"),
    };
    assert!(run.use_kvm);
    match run.files {
        NvramFiles::Direct { bios, kernel, initrd } => {
            assert_eq!((bios.as_str(), kernel.as_str(), initrd.as_str()), (
                "OVMF.fd",
                "vmlinuz",
                "initrd.img",
            ));
        }
        NvramFiles::Indirect { .. } => panic!("not a direct boot"),
    }
    assert_eq!(run.qemu_args, build_nvram_qemu_args(None, "2G", true, true, "quiet"));
}

#[test]
fn nvram_run_of_an_indirect_boot() {
    let run = match nvram_run(&indirect(), &boot(Some(shape("kvm"))), false) {
        Ok(run) => run,
        Err(e) => panic!("{e:?}"),
    };
    assert!(!run.use_kvm);
    assert!(matches!(run.files, NvramFiles::Indirect { qcow2 } if qcow2 == "disk.qcow2"));
    assert_eq!(
        run.qemu_args,
        build_nvram_qemu_args(Some(&shape("kvm")), "2G", false, false, "quiet")
    );
}

#[test]
fn kvm_is_used_where_the_machine_and_the_host_have_it() {
    let uses = |qemu: Option<QemuShape>, has: bool| match nvram_run(&direct(), &boot(qemu), has) {
        Ok(run) => run.use_kvm,
        Err(_) => panic!("run expected"),
    };
    assert!(uses(None, true));
    assert!(uses(Some(shape("kvm")), true));
    assert!(!uses(Some(shape("tcg")), true));
    assert!(!uses(None, false));
}

#[test]
fn nvram_run_needs_the_files_of_its_mode() {
    let mut config = direct();
    config.direct = None;
    assert!(matches!(
        nvram_run(&config, &boot(None), true),
        Err(GenerateError::NoDirectBoot)
    ));
    let mut config = indirect();
    config.indirect = None;
    config.direct = direct().direct;
    assert!(matches!(
        nvram_run(&config, &boot(None), true),
        Err(GenerateError::NoIndirectBoot)
    ));
}

#[test]
fn mounts_have_their_places() {
    let places: Vec<(String, String)> = direct_mounts("c", "k", "i")
        .into_iter()
        .map(|m| (m.host, m.container))
        .collect();
    let pair = |a: &str, b: &str| (a.to_string(), b.to_string());
    assert_eq!(
        places,
        vec![
            pair("c", "/input/OVMF_CODE.fd"),
            pair("k", "/input/kernel"),
            pair("i", "/input/initrd"),
        ]
    );
    let disk = indirect_mounts("d");
    assert_eq!(disk.len(), 1);
    assert_eq!((disk[0].host.as_str(), disk[0].container.as_str()), ("d", "/input/disk.qcow2"));
}
