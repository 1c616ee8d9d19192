use tdx_measure::docker::{
    docker_build_args, docker_nvram_args, docker_run_args, kvm_group_id, qemu_pkg_for, Host,
    KvmMissing, Mount, UnsupportedDistribution,
};

#[test]
fn qemu_pkg_for_known_distros_returns_pinned_defaults() {
    let p = qemu_pkg_for("ubuntu:25.04", None).unwrap();
    assert_eq!(p.source, "ppa");
    assert_eq!(p.version, "1:9.2.1+ds-1ubuntu4+tdx2.0~ppa2");
    assert!(p.image_digest.starts_with("sha256:"));
    assert_eq!(p.image_digest.len(), "sha256:".len() + 64);

    let p = qemu_pkg_for("ubuntu:26.04", None).unwrap();
    assert_eq!(p.source, "main");
    assert_eq!(p.version, "1:10.2.1+ds-1ubuntu4");
    assert!(p.image_digest.starts_with("sha256:"));
    assert_eq!(p.image_digest.len(), "sha256:".len() + 64);
}

#[test]
fn qemu_pkg_for_honors_version_override() {
    let p = qemu_pkg_for("ubuntu:26.04", Some("1:10.3.0-1ubuntu1")).unwrap();
    assert_eq!(p.source, "main");
    assert_eq!(p.version, "1:10.3.0-1ubuntu1");

    // Even an empty override (caller asked for "latest") wins over the pin.
    let p = qemu_pkg_for("ubuntu:26.04", Some("")).unwrap();
    assert_eq!(p.version, "");
}

#[test]
fn qemu_pkg_for_rejects_unknown_distro() {
    assert!(qemu_pkg_for("debian:12", None).is_err());
    assert!(qemu_pkg_for("", None).is_err());
}

#[test]
fn unknown_distribution_is_rejected_with_any_version() {
    assert!(matches!(
        qemu_pkg_for("ubuntu:24.04", Some("1:10.3.0")),
        Err(UnsupportedDistribution)
    ));
    assert!(qemu_pkg_for("ubuntu:25.04 ", None).is_err());
}

fn host(gid: Option<&str>, has_kvm: bool, has_vhost_vsock: bool) -> Host {
    Host { kvm_gid: gid.map(|g| g.to_string()), has_kvm, has_vhost_vsock }
}

fn strings(list: &[&str]) -> Vec<String> {
    list.iter().map(|s| s.to_string()).collect()
}

#[test]
fn build_names_the_image_with_its_digest() {
    let pkg = qemu_pkg_for("ubuntu:26.04", Some("7")).unwrap();
    assert_eq!(
        docker_build_args("ubuntu:26.04", &pkg, "acpi.bin"),
        strings(&[
            "build",
            "--progress",
            "plain",
            "--tag",
            "acpi-tables-generator",
            "--build-arg",
            "DISTRIBUTION=ubuntu:26.04@sha256:f3d28607ddd78734bb7f71f117f3c6706c666b8b76cbff7c9ff6e5718d46ff64",
            "--build-arg",
            "QEMU_SOURCE=main",
            "--build-arg",
            "QEMU_VERSION=7",
            "--build-arg",
            "ACPI_TABLES_NAME=acpi.bin",
            "--file",
        ])
    );
}

#[test]
fn run_with_all_devices() {
    let args = docker_run_args(
        &host(Some("108"), true, true),
        "/b/OVMF.fd",
        "/tmp/o",
        &strings(&["-m", "2G"]),
        true,
        true,
    )
    .unwrap();
    assert_eq!(
        args,
        strings(&[
            "run",
            "--rm",
            "--name",
            "acpi-tables-generator",
            "--group-add",
            "108",
            "--device",
            "/dev/kvm:/dev/kvm",
            "--device",
            "/dev/vhost-vsock:/dev/vhost-vsock",
            "-v",
            "/b/OVMF.fd:/usr/share/ovmf/OVMF.fd:ro",
            "-v",
            "/tmp/o:/output",
            "acpi-tables-generator",
            "-m",
            "2G",
        ])
    );
}

#[test]
fn run_without_devices() {
    let expected = strings(&[
        "run",
        "--rm",
        "--name",
        "acpi-tables-generator",
        "-v",
        "b:/usr/share/ovmf/OVMF.fd:ro",
        "-v",
        "o:/output",
        "acpi-tables-generator",
    ]);
    // vsock is used where it is needed and exists.
    for (has, need) in [(false, false), (true, false), (false, true)] {
        let args = docker_run_args(&host(None, false, has), "b", "o", &vec![], false, need);
        assert_eq!(args, Ok(expected.clone()));
    }
}

#[test]
fn runs_that_need_kvm_fail_without_it() {
    let h = host(None, false, false);
    assert_eq!(docker_run_args(&h, "b", "o", &vec![], true, false), Err(KvmMissing));
    assert_eq!(docker_nvram_args(&h, "o", &vec![], &vec![], true), Err(KvmMissing));
    assert!(docker_nvram_args(&h, "o", &vec![], &vec![], false).is_ok());
}

#[test]
fn nvram_run_mounts_its_inputs() {
    let mounts = vec![
        Mount { host: "/k".to_string(), container: "/input/kernel".to_string() },
        Mount { host: "/i".to_string(), container: "/input/initrd".to_string() },
    ];
    let args = docker_nvram_args(
        &host(Some("5"), true, true),
        "/tmp/o",
        &mounts,
        &strings(&["nvram", "-m"]),
        true,
    )
    .unwrap();
    assert_eq!(
        args,
        strings(&[
            "run",
            "--rm",
            "--name",
            "acpi-tables-generator-nvram",
            "--group-add",
            "5",
            "--device",
            "/dev/kvm:/dev/kvm",
            "-v",
            "/k:/input/kernel:ro",
            "-v",
            "/i:/input/initrd:ro",
            "-v",
            "/tmp/o:/output",
            "acpi-tables-generator",
            "nvram",
            "-m",
        ])
    );
}

#[test]
fn group_number_is_the_third_field_of_the_first_line() {
    let id = |s: &[u8]| kvm_group_id(true, s.to_vec());
    assert_eq!(id(b"kvm:x:108:alice\n"), Some("108".to_string()));
    assert_eq!(id(b"kvm:x:108"), Some("108".to_string()));
    assert_eq!(id(b"kvm:x:108\r\nother:x:9:\n"), Some("108".to_string()));
    // A carriage return alone ends no line.
    assert_eq!(id(b"kvm:x:108\r"), Some("108\r".to_string()));
    assert_eq!(id(b"kvm:x:\n"), Some("".to_string()));
    assert_eq!(id("kvm:x:\u{e9}:\n".as_bytes()), Some("\u{e9}".to_string()));
}

#[test]
fn group_number_is_missing_where_the_lookup_gave_none() {
    assert_eq!(kvm_group_id(false, b"kvm:x:108:\n".to_vec()), None);
    assert_eq!(kvm_group_id(true, vec![]), None);
    assert_eq!(kvm_group_id(true, b"\nkvm:x:108:\n".to_vec()), None);
    assert_eq!(kvm_group_id(true, b"kvm:x\n".to_vec()), None);
    assert_eq!(kvm_group_id(true, b"kvm:x:108:\xff\n".to_vec()), None);
}
