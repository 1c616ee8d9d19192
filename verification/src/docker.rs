//! The container in which QEMU runs: which QEMU is built for which distribution, and the command
//! lines of docker.
use vstd::prelude::*;
use vstd::string::StringExecFns;
use vstd::utf8::{decode_utf8, valid_utf8};

use crate::qemu::{push_arg, push_option, OVMF_IN_CONTAINER};
use crate::text::{
    char_texts, same_text, split_chars, split_on, split_text, string_of, texts, utf8_text,
};

verus! {

pub const CONTAINER_NAME: &'static str = "acpi-tables-generator";

pub const IMAGE_NAME: &'static str = "acpi-tables-generator";

/// How the QEMU source package of a distribution is fetched.
#[derive(Debug)]
pub struct QemuPkg<'a> {
    /// Where from: `ppa`, or `main` for the main archive.
    pub source: &'static str,
    /// Which version; empty for the current one of the main archive.
    pub version: &'a str,
    /// The digest of the base image.
    pub image_digest: &'static str,
}

/// A distribution for which no QEMU package is known.
#[derive(Debug, Clone, Copy, PartialEq, Eq, Structural)]
pub struct UnsupportedDistribution;

/// The source, the version and the image digest that are pinned for a distribution.
pub open spec fn pinned(distribution: Seq<char>) -> Option<(Seq<char>, Seq<char>, Seq<char>)> {
    if distribution == "ubuntu:25.04"@ {
        Some(
            (
                "ppa"@,
                "1:9.2.1+ds-1ubuntu4+tdx2.0~ppa2"@,
                "sha256:27771fb7b40a58237c98e8d3e6b9ecdd9289cec69a857fccfb85ff36294dac20"@,
            ),
        )
    } else if distribution == "ubuntu:26.04"@ {
        Some(
            (
                "main"@,
                "1:10.2.1+ds-1ubuntu4"@,
                "sha256:f3d28607ddd78734bb7f71f117f3c6706c666b8b76cbff7c9ff6e5718d46ff64"@,
            ),
        )
    } else {
        None
    }
}

/// The package for a distribution: what is pinned, with the version that the caller asks for, if
/// any (an empty one too).
pub fn qemu_pkg_for<'a>(distribution: &str, version_override: Option<&'a str>) -> (r: Result<
    QemuPkg<'a>,
    UnsupportedDistribution,
>)
    ensures
        match r {
            Ok(pkg) => pinned(distribution@) matches Some((source, version, digest)) && pkg.source@
                == source && pkg.version@ == (match version_override {
                Some(v) => v@,
                None => version,
            }) && pkg.image_digest@ == digest,
            Err(_) => pinned(distribution@) is None,
        },
{
    let (source, default_version, image_digest): (&'static str, &'static str, &'static str) =
        if same_text(distribution, "ubuntu:25.04") {
        (
            "ppa",
            "1:9.2.1+ds-1ubuntu4+tdx2.0~ppa2",
            "sha256:27771fb7b40a58237c98e8d3e6b9ecdd9289cec69a857fccfb85ff36294dac20",
        )
    } else if same_text(distribution, "ubuntu:26.04") {
        (
            "main",
            "1:10.2.1+ds-1ubuntu4",
            "sha256:f3d28607ddd78734bb7f71f117f3c6706c666b8b76cbff7c9ff6e5718d46ff64",
        )
    } else {
        return Err(UnsupportedDistribution);
    };
    let version: &'a str = match version_override {
        Some(v) => v,
        None => default_version,
    };
    Ok(QemuPkg { source, version, image_digest })
}

/// The text `a`, then `b`.
fn join2(a: &str, b: &str) -> (r: String)
    ensures
        r@ == a@ + b@,
{
    let mut s = a.to_owned();
    s.append(b);
    s
}

/// The arguments of `docker build`, up to the option for the Dockerfile, whose path and the
/// context directory follow. The base image is named with its digest.
pub open spec fn build_args(
    distribution: Seq<char>,
    source: Seq<char>,
    version: Seq<char>,
    digest: Seq<char>,
    acpi_tables_name: Seq<char>,
) -> Seq<Seq<char>> {
    seq![
        "build"@,
        "--progress"@,
        "plain"@,
        "--tag"@,
        IMAGE_NAME@,
        "--build-arg"@,
        "DISTRIBUTION="@ + distribution + "@"@ + digest,
        "--build-arg"@,
        "QEMU_SOURCE="@ + source,
        "--build-arg"@,
        "QEMU_VERSION="@ + version,
        "--build-arg"@,
        "ACPI_TABLES_NAME="@ + acpi_tables_name,
        "--file"@,
    ]
}

/// Builds the arguments of `docker build`, up to the option for the Dockerfile.
pub fn docker_build_args(distribution: &str, pkg: &QemuPkg, acpi_tables_name: &str) -> (r: Vec<
    String,
>)
    ensures
        texts(r@) == build_args(
            distribution@,
            pkg.source@,
            pkg.version@,
            pkg.image_digest@,
            acpi_tables_name@,
        ),
{
    let mut image = join2("DISTRIBUTION=", distribution);
    image.append("@");
    image.append(pkg.image_digest);
    let mut args: Vec<String> = Vec::new();
    push_arg(&mut args, "build");
    push_option(&mut args, "--progress", "plain");
    push_option(&mut args, "--tag", IMAGE_NAME);
    push_option(&mut args, "--build-arg", &image);
    push_option(&mut args, "--build-arg", &join2("QEMU_SOURCE=", pkg.source));
    push_option(&mut args, "--build-arg", &join2("QEMU_VERSION=", pkg.version));
    push_option(&mut args, "--build-arg", &join2("ACPI_TABLES_NAME=", acpi_tables_name));
    push_arg(&mut args, "--file");
    assert(texts(args@) =~= build_args(
        distribution@,
        pkg.source@,
        pkg.version@,
        pkg.image_digest@,
        acpi_tables_name@,
    ));
    args
}

/// KVM is asked for and the host has no `/dev/kvm`.
#[derive(Debug, Clone, Copy, PartialEq, Eq, Structural)]
pub struct KvmMissing;

/// What of the host the container can use.
pub struct Host {
    /// The number of the `kvm` group, if there is one.
    pub kvm_gid: Option<String>,
    /// Whether `/dev/kvm` exists.
    pub has_kvm: bool,
    /// Whether `/dev/vhost-vsock` exists.
    pub has_vhost_vsock: bool,
}

/// The beginning of a `docker run`: a container that is removed when it ends, with the name, in
/// the `kvm` group if there is one.
pub open spec fn run_head(name: Seq<char>, kvm_gid: Option<String>) -> Seq<Seq<char>> {
    seq!["run"@, "--rm"@, "--name"@, name] + match kvm_gid {
        Some(gid) => seq!["--group-add"@, gid@],
        None => Seq::empty(),
    }
}

/// The option for `/dev/kvm`, where it is asked for.
pub open spec fn kvm_device(need_kvm: bool) -> Seq<Seq<char>> {
    if need_kvm {
        seq!["--device"@, "/dev/kvm:/dev/kvm"@]
    } else {
        Seq::empty()
    }
}

/// The option for `/dev/vhost-vsock`, where it is wanted and exists.
pub open spec fn vsock_device(wanted: bool) -> Seq<Seq<char>> {
    if wanted {
        seq!["--device"@, "/dev/vhost-vsock:/dev/vhost-vsock"@]
    } else {
        Seq::empty()
    }
}

/// The arguments of the `docker run` that dumps the ACPI tables.
pub open spec fn run_args(
    host: &Host,
    bios: Seq<char>,
    output_dir: Seq<char>,
    qemu_args: Seq<Seq<char>>,
    need_kvm: bool,
    need_vhost_vsock: bool,
) -> Seq<Seq<char>> {
    run_head(CONTAINER_NAME@, host.kvm_gid) + kvm_device(need_kvm) + vsock_device(
        need_vhost_vsock && host.has_vhost_vsock,
    ) + seq![
        "-v"@,
        bios + ":"@ + OVMF_IN_CONTAINER@ + ":ro"@,
        "-v"@,
        output_dir + ":/output"@,
        IMAGE_NAME@,
    ] + qemu_args
}

fn push_run_head(args: &mut Vec<String>, name: &str, host: &Host)
    ensures
        texts(final(args)@) == texts(old(args)@) + run_head(name@, host.kvm_gid),
{
    push_arg(args, "run");
    push_arg(args, "--rm");
    push_option(args, "--name", name);
    match &host.kvm_gid {
        Some(gid) => push_option(args, "--group-add", gid),
        None => {},
    }
    assert(texts(args@) =~= texts(old(args)@) + run_head(name@, host.kvm_gid));
}

fn push_all(args: &mut Vec<String>, more: &Vec<String>)
    ensures
        texts(final(args)@) == texts(old(args)@) + texts(more@),
{
    let ghost all = texts(more@);
    let mut i: usize = 0;
    assert(texts(args@) =~= texts(args@) + all.take(0));
    while i < more.len()
        invariant
            i <= more@.len(),
            all == texts(more@),
            texts(args@) == texts(old(args)@) + all.take(i as int),
        decreases more@.len() - i,
    {
        push_arg(args, &more[i]);
        i += 1;
        assert(texts(args@) =~= texts(old(args)@) + all.take(i as int));
    }
    assert(all.take(i as int) =~= all);
}

/// Builds the arguments of the `docker run` that dumps the ACPI tables.
pub fn docker_run_args(
    host: &Host,
    bios: &str,
    output_dir: &str,
    qemu_args: &Vec<String>,
    need_kvm: bool,
    need_vhost_vsock: bool,
) -> (r: Result<Vec<String>, KvmMissing>)
    ensures
        match r {
            Ok(args) => !(need_kvm && !host.has_kvm) && texts(args@) == run_args(
                host,
                bios@,
                output_dir@,
                texts(qemu_args@),
                need_kvm,
                need_vhost_vsock,
            ),
            Err(_) => need_kvm && !host.has_kvm,
        },
{
    if need_kvm && !host.has_kvm {
        return Err(KvmMissing);
    }
    let mut args: Vec<String> = Vec::new();
    push_run_head(&mut args, CONTAINER_NAME, host);
    if need_kvm {
        push_option(&mut args, "--device", "/dev/kvm:/dev/kvm");
    }
    if need_vhost_vsock && host.has_vhost_vsock {
        push_option(&mut args, "--device", "/dev/vhost-vsock:/dev/vhost-vsock");
    }
    let mut firmware = join2(bios, ":");
    firmware.append(OVMF_IN_CONTAINER);
    firmware.append(":ro");
    push_option(&mut args, "-v", &firmware);
    push_option(&mut args, "-v", &join2(output_dir, ":/output"));
    push_arg(&mut args, IMAGE_NAME);
    push_all(&mut args, qemu_args);
    assert(texts(args@) =~= run_args(
        host,
        bios@,
        output_dir@,
        texts(qemu_args@),
        need_kvm,
        need_vhost_vsock,
    ));
    Ok(args)
}

/// A file of the host and its place in the container, where it is mounted read-only.
pub struct Mount {
    pub host: String,
    pub container: String,
}

/// The mount option of a file.
pub open spec fn mount_arg(m: Mount) -> Seq<char> {
    m.host@ + ":"@ + m.container@ + ":ro"@
}

/// The mount options of files.
pub open spec fn mount_args(mounts: Seq<Mount>) -> Seq<Seq<char>> {
    crate::qemu::flagged("-v"@, Seq::new(mounts.len(), |i: int| mount_arg(mounts[i])))
}

/// The arguments of the `docker run` that populates NVRAM.
pub open spec fn nvram_run_args(
    host: &Host,
    output_dir: Seq<char>,
    mounts: Seq<Mount>,
    nvram_args: Seq<Seq<char>>,
    use_kvm: bool,
) -> Seq<Seq<char>> {
    run_head(CONTAINER_NAME@ + "-nvram"@, host.kvm_gid) + kvm_device(use_kvm) + mount_args(mounts)
        + seq!["-v"@, output_dir + ":/output"@, IMAGE_NAME@] + nvram_args
}

fn push_mounts(args: &mut Vec<String>, mounts: &Vec<Mount>)
    ensures
        texts(final(args)@) == texts(old(args)@) + mount_args(mounts@),
{
    let mut i: usize = 0;
    assert(texts(args@) =~= texts(args@) + mount_args(mounts@.take(0)));
    while i < mounts.len()
        invariant
            i <= mounts@.len(),
            texts(args@) == texts(old(args)@) + mount_args(mounts@.take(i as int)),
        decreases mounts@.len() - i,
    {
        let m = &mounts[i];
        let mut arg = join2(&m.host, ":");
        arg.append(&m.container);
        arg.append(":ro");
        push_option(args, "-v", &arg);
        i += 1;
        assert(texts(args@) =~= texts(old(args)@) + mount_args(mounts@.take(i as int)));
    }
    assert(mounts@.take(i as int) =~= mounts@);
}

/// Builds the arguments of the `docker run` that populates NVRAM.
pub fn docker_nvram_args(
    host: &Host,
    output_dir: &str,
    mounts: &Vec<Mount>,
    nvram_args: &Vec<String>,
    use_kvm: bool,
) -> (r: Result<Vec<String>, KvmMissing>)
    ensures
        match r {
            Ok(args) => !(use_kvm && !host.has_kvm) && texts(args@) == nvram_run_args(
                host,
                output_dir@,
                mounts@,
                texts(nvram_args@),
                use_kvm,
            ),
            Err(_) => use_kvm && !host.has_kvm,
        },
{
    if use_kvm && !host.has_kvm {
        return Err(KvmMissing);
    }
    let mut args: Vec<String> = Vec::new();
    push_run_head(&mut args, &join2(CONTAINER_NAME, "-nvram"), host);
    if use_kvm {
        push_option(&mut args, "--device", "/dev/kvm:/dev/kvm");
    }
    push_mounts(&mut args, mounts);
    push_option(&mut args, "-v", &join2(output_dir, ":/output"));
    push_arg(&mut args, IMAGE_NAME);
    push_all(&mut args, nvram_args);
    assert(texts(args@) =~= nvram_run_args(
        host,
        output_dir@,
        mounts@,
        texts(nvram_args@),
        use_kvm,
    ));
    Ok(args)
}

/// The first line of a text, without its line ending; a text without characters has none.
pub open spec fn first_line(text: Seq<char>) -> Option<Seq<char>> {
    let lines = split_on(text, '\n');
    if text.len() == 0 {
        None
    } else if lines.len() > 1 && lines[0].len() > 0 && lines[0].last() == '\r' {
        Some(lines[0].drop_last())
    } else {
        Some(lines[0])
    }
}

/// The number in an entry of the group database: the third of its colon-separated fields.
pub open spec fn group_field(line: Seq<char>) -> Option<Seq<char>> {
    let fields = split_on(line, ':');
    if fields.len() >= 3 {
        Some(fields[2])
    } else {
        None
    }
}

/// The number of the group that a lookup printed.
pub open spec fn group_id(found: bool, output: Seq<u8>) -> Option<Seq<char>> {
    if found && valid_utf8(output) {
        match first_line(decode_utf8(output)) {
            Some(line) => group_field(line),
            None => None,
        }
    } else {
        None
    }
}

/// The number of the `kvm` group, from whether looking it up in the group database succeeded and
/// what the lookup printed.
pub fn kvm_group_id(found: bool, output: Vec<u8>) -> (r: Option<String>)
    ensures
        match r {
            Some(id) => group_id(found, output@) == Some(id@),
            None => group_id(found, output@) is None,
        },
{
    if !found {
        return None;
    }
    let text = match utf8_text(output) {
        Some(text) => text,
        None => return None,
    };
    if text.as_str().is_empty() {
        return None;
    }
    let mut lines = split_text(&text, '\n');
    let more = lines.len() > 1;
    assert(char_texts(lines@)[0] == lines@[0]@);
    let mut line = lines.swap_remove(0);
    assert(line@ == split_on(text@, '\n')[0]);
    if more && line.len() > 0 && line[line.len() - 1] == '\r' {
        line.pop();
    }
    let fields = split_chars(&line, ':');
    if fields.len() < 3 {
        return None;
    }
    let id = string_of(&fields[2]);
    assert(id@ == char_texts(fields@)[2]);
    Some(id)
}

} // verus!
