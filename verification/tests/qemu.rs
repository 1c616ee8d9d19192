use tdx_measure::qemu::{
    build_nvram_qemu_args, build_qemu_args, find_drive_id, is_nvram_incompatible_device,
    is_tdx_object, strip_machine_params, QemuShape, OVMF_IN_CONTAINER,
};

fn strings(list: &[&str]) -> Vec<String> {
    list.iter().map(|s| s.to_string()).collect()
}

#[test]
fn build_qemu_args_canonical_fallback_matches_dstack_reference() {
    // The order is pinned: the direct-boot defaults depend on it.
    let args = build_qemu_args(None, 4, "2048M");
    let expected: Vec<&str> = vec![
        "-accel", "kvm",
        "-m", "2048M",
        "-smp", "4",
        "-cpu", "host",
        "-machine", "q35,kernel-irqchip=split,hpet=off,smm=off,pic=off",
        "-bios", OVMF_IN_CONTAINER,
        "-nographic",
        "-nodefaults",
        "-serial", "stdio",
    ];
    let got: Vec<&str> = args.iter().map(|s| s.as_str()).collect();
    assert_eq!(got, expected);
}

#[test]
fn build_qemu_args_qemu_block_passes_fields_verbatim_and_in_documented_order() {
    let shape = QemuShape {
        machine: "q35,kernel_irqchip=split,smm=off,pic=off".into(),
        cpu: "Skylake-Server,phys-bits=46".into(),
        accel: "tcg".into(),
        globals: vec!["q35-pcihost.pci-hole64-size=4096G".into()],
        objects: vec!["memory-backend-ram,id=mem0,size=16384M".into()],
        netdevs: vec!["hubport,id=net0,hubid=0".into()],
        devices: vec![
            "e1000,netdev=net0,bus=pcie.0,addr=0x2,romfile=".into(),
            "virtio-rng-pci".into(),
        ],
        fw_cfg: vec!["name=opt/ovmf/X-PciMmio64Mb,string=262144".into()],
    };
    let args = build_qemu_args(Some(&shape), 8, "16384M");

    // Core seven flags first (in a documented order), then -machine, then the lists in
    // -global / -object / -netdev / -device / -fw_cfg order.
    assert_eq!(args, vec![
        "-accel", "tcg",
        "-m", "16384M",
        "-smp", "8,maxcpus=8",
        "-cpu", "Skylake-Server,phys-bits=46",
        "-no-reboot",
        "-nodefaults",
        "-vga", "none",
        "-nographic",
        "-bios", OVMF_IN_CONTAINER,
        "-machine", "q35,kernel_irqchip=split,smm=off,pic=off",
        "-global", "q35-pcihost.pci-hole64-size=4096G",
        "-object", "memory-backend-ram,id=mem0,size=16384M",
        "-netdev", "hubport,id=net0,hubid=0",
        "-device", "e1000,netdev=net0,bus=pcie.0,addr=0x2,romfile=",
        "-device", "virtio-rng-pci",
        "-fw_cfg", "name=opt/ovmf/X-PciMmio64Mb,string=262144",
    ]);
}

#[test]
fn processor_counts_are_decimal() {
    assert_eq!(build_qemu_args(None, 0, "1G")[5], "0");
    assert_eq!(build_qemu_args(None, 255, "1G")[5], "255");
    assert_eq!(build_qemu_args(None, 100, "1G")[5], "100");
    assert_eq!(OVMF_IN_CONTAINER, "/usr/share/ovmf/OVMF.fd");
}

#[test]
fn stripping_takes_out_parameters_by_prefix() {
    let strip = strip_machine_params;
    assert_eq!(strip("q35,a=1,b=2", &["a"]), "q35,b=2");
    assert_eq!(strip("q35,abc=1,b=2,a", &["a", "q"]), "b=2");
    assert_eq!(strip("q35,b=2", &[]), "q35,b=2");
    assert_eq!(strip("", &["a"]), "");
    assert_eq!(strip("a,,b", &["a"]), ",b");
    assert_eq!(strip("a=1", &["a"]), "");
    // The empty prefix begins everything.
    assert_eq!(strip("q35,b=2", &[""]), "");
}

#[test]
fn stripping_what_is_not_there_changes_nothing() {
    let machine = "q35,smm=off,,pic=off";
    assert_eq!(strip_machine_params(machine, &["confidential-guest-support"]), machine);
}

#[test]
fn stripping_twice_is_stripping_once() {
    let once = strip_machine_params("q35,,kernel-irqchip=split,smm=off", &["kernel-irqchip"]);
    assert_eq!(once, "q35,,smm=off");
    assert_eq!(strip_machine_params(&once, &["kernel-irqchip"]), once);
}

#[test]
fn tdx_objects_are_told_by_their_kind() {
    assert!(is_tdx_object("tdx-guest,id=tdx0"));
    assert!(is_tdx_object("tdx-guest"));
    assert!(is_tdx_object("memory-backend-memfd-private,id=ram1"));
    assert!(is_tdx_object("iommufd,id=iommufd0"));
    assert!(!is_tdx_object("memory-backend-ram,id=tdx-guest"));
    assert!(!is_tdx_object("tdx-guest2,id=x"));
    assert!(!is_tdx_object(""));
}

#[test]
fn host_backed_devices_are_told() {
    assert!(is_nvram_incompatible_device("vhost-vsock-pci,guest-cid=3"));
    assert!(is_nvram_incompatible_device("virtio-net-pci,netdev=nic0"));
    assert!(is_nvram_incompatible_device("netdev="));
    assert!(!is_nvram_incompatible_device("virtio-blk-pci,drive=disk0"));
    assert!(!is_nvram_incompatible_device("virtio-rng-pci,id=vhost-1"));
    assert!(!is_nvram_incompatible_device("x,netdev"));
    assert!(!is_nvram_incompatible_device("vhost"));
    assert!(!is_nvram_incompatible_device(""));
}

#[test]
fn drive_is_the_first_that_a_device_refers_to() {
    let find = |list: &[&str]| find_drive_id(&strings(list));
    assert_eq!(find(&[]), None);
    assert_eq!(find(&["virtio-rng-pci"]), None);
    assert_eq!(find(&["virtio-blk-pci,drive=vd0,x=1"]), Some("vd0".to_string()));
    assert_eq!(find(&["a", "b,drive=one,drive=two", "c,drive=three"]), Some("one".to_string()));
    assert_eq!(find(&["a,drive", "b,xdrive=1", "c,drive=a=b"]), Some("a=b".to_string()));
    assert_eq!(find(&["a,drive="]), Some("".to_string()));
}

fn shape() -> QemuShape {
    QemuShape {
        machine: "q35,kernel-irqchip=split,confidential-guest-support=tdx0,smm=off".into(),
        cpu: "host,-kvm-steal-time".into(),
        accel: "kvm".into(),
        globals: vec!["g".into()],
        objects: vec!["tdx-guest,id=tdx0".into(), "memory-backend-ram,id=mem0".into()],
        netdevs: vec!["user,id=nic0".into()],
        devices: vec![
            "virtio-net-pci,netdev=nic0".into(),
            "virtio-blk-pci,drive=vdisk".into(),
            "vhost-vsock-pci,guest-cid=3".into(),
        ],
        fw_cfg: vec!["f".into()],
    }
}

#[test]
fn nvram_of_a_described_machine_direct() {
    assert_eq!(
        build_nvram_qemu_args(Some(&shape()), "4G", true, true, "console=ttyS0"),
        strings(&[
            "nvram",
            "-drive", "if=pflash,format=raw,readonly=on,file=/input/OVMF_CODE.fd",
            "-drive", "if=pflash,format=raw,file=/output/OVMF_VARS.fd",
            "-m", "4G",
            "-accel", "kvm",
            "-nographic",
            "-nodefaults",
            "-serial", "null",
            "-machine", "q35,kernel-irqchip=split,smm=off",
            "-cpu", "host,-kvm-steal-time",
            "-object", "memory-backend-ram,id=mem0",
            "-kernel", "/input/kernel",
            "-initrd", "/input/initrd",
            "-append", "console=ttyS0",
        ])
    );
}

#[test]
fn nvram_of_a_described_machine_indirect() {
    assert_eq!(
        build_nvram_qemu_args(Some(&shape()), "4G", false, false, "console=ttyS0"),
        strings(&[
            "nvram",
            "-drive", "if=pflash,format=raw,readonly=on,file=/usr/share/OVMF/OVMF_CODE.fd",
            "-drive", "if=pflash,format=raw,file=/output/OVMF_VARS.fd",
            "-m", "4G",
            "-accel", "tcg",
            "-nographic",
            "-nodefaults",
            "-serial", "null",
            "-machine", "q35,smm=off",
            "-cpu", "qemu64",
            "-object", "memory-backend-ram,id=mem0",
            "-device", "virtio-blk-pci,drive=vdisk",
            "-drive", "if=none,format=qcow2,file=/input/disk.qcow2,id=vdisk,readonly=on",
        ])
    );
}

#[test]
fn nvram_disk_has_a_default_identifier() {
    let mut q = shape();
    q.devices = vec![];
    let args = build_nvram_qemu_args(Some(&q), "4G", true, false, "");
    assert_eq!(
        args.last().unwrap(),
        "if=none,format=qcow2,file=/input/disk.qcow2,id=disk0,readonly=on"
    );
}

#[test]
fn nvram_of_no_described_machine() {
    let head = [
        "-drive", "if=pflash,format=raw,file=/output/OVMF_VARS.fd",
        "-m", "1G",
        "-accel", "kvm",
        "-nographic",
        "-nodefaults",
        "-serial", "null",
        "-machine", "q35,smm=off",
        "-cpu", "host",
    ];
    let mut direct = vec![
        "nvram",
        "-drive", "if=pflash,format=raw,readonly=on,file=/input/OVMF_CODE.fd",
    ];
    direct.extend(head);
    direct.extend(["-kernel", "/input/kernel", "-initrd", "/input/initrd"]);
    assert_eq!(build_nvram_qemu_args(None, "1G", true, true, ""), direct);

    let mut indirect = vec![
        "nvram",
        "-drive", "if=pflash,format=raw,readonly=on,file=/usr/share/OVMF/OVMF_CODE.fd",
    ];
    indirect.extend(head);
    indirect.extend([
        "-drive", "if=none,format=qcow2,file=/input/disk.qcow2,id=disk0,readonly=on",
        "-device", "virtio-blk-pci,drive=disk0",
    ]);
    assert_eq!(build_nvram_qemu_args(None, "1G", true, false, "ignored"), indirect);

    let slow = build_nvram_qemu_args(None, "1G", false, true, "quiet");
    assert_eq!(slow[8], "tcg");
    assert_eq!(slow[16], "qemu64");
    assert_eq!(slow[slow.len() - 2..], ["-append", "quiet"]);
}
