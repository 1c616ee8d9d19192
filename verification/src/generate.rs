//! The decisions of generating ACPI tables and NVRAM: what an image's configuration asks of the
//! container runs.
use vstd::prelude::*;

use crate::docker::{build_args, docker_build_args, Mount, QemuPkg};
use crate::qemu::{
    build_nvram_qemu_args, build_qemu_args, nvram_qemu_args, qemu_args, QemuShape,
};
use crate::text::{same_text, texts};

verus! {

/// The name of the NVRAM file that a run produces.
pub const NVRAM_OUT: &'static str = "OVMF_VARS.fd";

/// The name of the tables file where the configuration's path ends in none.
pub const DEFAULT_TABLES_NAME: &'static str = "acpi_tables.bin";

/// How an image is booted.
pub struct BootConfig {
    pub cpus: u8,
    pub memory: String,
    pub bios: String,
    pub acpi_tables: String,
    /// The machine, where it is described.
    pub qemu: Option<QemuShape>,
}

/// The files of a direct boot.
pub struct DirectBoot {
    pub kernel: String,
    pub initrd: String,
}

/// The disk of an indirect boot.
pub struct IndirectBoot {
    pub qcow2: String,
}

/// What the configuration of an image says.
pub struct ImageConfig {
    pub boot_config: Option<BootConfig>,
    pub is_direct_boot: bool,
    pub direct: Option<DirectBoot>,
    pub indirect: Option<IndirectBoot>,
    pub cmdline: String,
}

/// What a configuration lacks.
#[derive(Debug, Clone, Copy, PartialEq, Eq, Structural)]
pub enum GenerateError {
    NoBootConfig,
    NoDirectBoot,
    NoIndirectBoot,
}

impl ImageConfig {
    /// The boot configuration, without which nothing is generated.
    pub fn required_boot_config(&self) -> (r: Result<&BootConfig, GenerateError>)
        ensures
            match r {
                Ok(boot) => self.boot_config == Some(*boot),
                Err(e) => self.boot_config is None && e == GenerateError::NoBootConfig,
            },
    {
        match &self.boot_config {
            Some(boot) => Ok(boot),
            None => Err(GenerateError::NoBootConfig),
        }
    }
}

/// Whether the machine is accelerated by KVM: as it is described, and where it is not.
pub open spec fn asks_kvm(qemu: Option<QemuShape>) -> bool {
    match qemu {
        Some(q) => q.accel@ == "kvm"@,
        None => true,
    }
}

fn wants_kvm(qemu: &Option<QemuShape>) -> (r: bool)
    ensures
        r == asks_kvm(*qemu),
{
    match qemu {
        Some(q) => same_text(&q.accel, "kvm"),
        None => true,
    }
}

/// The machine of a configuration, if it is described.
pub open spec fn shape_of(boot: &BootConfig) -> Option<&QemuShape> {
    match &boot.qemu {
        Some(q) => Some(q),
        None => None,
    }
}

/// A run that dumps ACPI tables.
pub struct AcpiRun {
    pub qemu_args: Vec<String>,
    pub need_kvm: bool,
    pub need_vhost_vsock: bool,
}

/// What the run that dumps ACPI tables needs: the command line of QEMU, KVM unless the described
/// machine uses another accelerator, and vsock where a machine is described.
pub fn acpi_run(boot: &BootConfig) -> (r: AcpiRun)
    ensures
        texts(r.qemu_args@) == qemu_args(shape_of(boot), boot.cpus, boot.memory@),
        r.need_kvm == asks_kvm(boot.qemu),
        r.need_vhost_vsock == boot.qemu is Some,
{
    AcpiRun {
        qemu_args: build_qemu_args(boot.qemu.as_ref(), boot.cpus, &boot.memory),
        need_kvm: wants_kvm(&boot.qemu),
        need_vhost_vsock: boot.qemu.is_some(),
    }
}

/// Where a generated NVRAM goes.
#[derive(Debug, PartialEq, Eq)]
pub enum Destination {
    /// To the path that the caller gave.
    Given(String),
    /// Beside the ACPI tables, as `OVMF_VARS.fd`.
    BesideTables,
}

/// What is settled before a run that populates NVRAM.
pub struct NvramSetup {
    pub destination: Destination,
    /// The arguments of `docker build`, up to the option for the Dockerfile.
    pub build_args: Vec<String>,
}

/// Settles where the NVRAM goes and how the container's image is built: the same image as for
/// ACPI tables, under the tables' file name or a default.
pub fn nvram_setup(
    distribution: &str,
    pkg: &QemuPkg,
    user_nvram: Option<&str>,
    tables_name: Option<&str>,
) -> (r: NvramSetup)
    ensures
        match user_nvram {
            Some(path) => r.destination matches Destination::Given(p) && p@ == path@,
            None => r.destination is BesideTables,
        },
        texts(r.build_args@) == build_args(
            distribution@,
            pkg.source@,
            pkg.version@,
            pkg.image_digest@,
            (match tables_name {
                Some(name) => name@,
                None => DEFAULT_TABLES_NAME@,
            }),
        ),
{
    let destination = match user_nvram {
        Some(path) => Destination::Given(path.to_owned()),
        None => Destination::BesideTables,
    };
    let name = match tables_name {
        Some(name) => name,
        None => DEFAULT_TABLES_NAME,
    };
    NvramSetup { destination, build_args: docker_build_args(distribution, pkg, name) }
}

/// The files that a run that populates NVRAM takes, as the configuration names them.
pub enum NvramFiles {
    /// The firmware to split, the kernel and the initrd.
    Direct { bios: String, kernel: String, initrd: String },
    /// The disk.
    Indirect { qcow2: String },
}

/// A run that populates NVRAM.
pub struct NvramRun {
    pub use_kvm: bool,
    pub files: NvramFiles,
    pub qemu_args: Vec<String>,
}

/// Which files a configuration names, or which part of it is lacking.
pub open spec fn files_match(
    config: ImageConfig,
    boot: BootConfig,
    files: Result<NvramFiles, GenerateError>,
) -> bool {
    if config.is_direct_boot {
        match config.direct {
            Some(d) => files matches Ok(NvramFiles::Direct { bios, kernel, initrd }) && bios@
                == boot.bios@ && kernel@ == d.kernel@ && initrd@ == d.initrd@,
            None => files matches Err(e) && e == GenerateError::NoDirectBoot,
        }
    } else {
        match config.indirect {
            Some(d) => files matches Ok(NvramFiles::Indirect { qcow2 }) && qcow2@ == d.qcow2@,
            None => files matches Err(e) && e == GenerateError::NoIndirectBoot,
        }
    }
}

fn nvram_files(config: &ImageConfig, boot: &BootConfig) -> (r: Result<NvramFiles, GenerateError>)
    ensures
        files_match(*config, *boot, r),
{
    if config.is_direct_boot {
        match &config.direct {
            Some(d) => Ok(
                NvramFiles::Direct {
                    bios: boot.bios.clone(),
                    kernel: d.kernel.clone(),
                    initrd: d.initrd.clone(),
                },
            ),
            None => Err(GenerateError::NoDirectBoot),
        }
    } else {
        match &config.indirect {
            Some(d) => Ok(NvramFiles::Indirect { qcow2: d.qcow2.clone() }),
            None => Err(GenerateError::NoIndirectBoot),
        }
    }
}

/// Decides how the run that populates NVRAM is done: with KVM where the machine uses it and the
/// host has it, with the files of the boot mode, and with which command line of QEMU.
pub fn nvram_run(config: &ImageConfig, boot: &BootConfig, has_kvm: bool) -> (r: Result<
    NvramRun,
    GenerateError,
>)
    ensures
        match r {
            Ok(run) => {
                &&& files_match(*config, *boot, Ok(run.files))
                &&& run.use_kvm == (asks_kvm(boot.qemu) && has_kvm)
                &&& texts(run.qemu_args@) == nvram_qemu_args(
                    shape_of(boot),
                    boot.memory@,
                    asks_kvm(boot.qemu) && has_kvm,
                    config.is_direct_boot,
                    config.cmdline@,
                )
            },
            Err(e) => files_match(*config, *boot, Err(e)),
        },
{
    let use_kvm = wants_kvm(&boot.qemu) && has_kvm;
    let files = match nvram_files(config, boot) {
        Ok(files) => files,
        Err(e) => return Err(e),
    };
    let qemu_args = build_nvram_qemu_args(
        boot.qemu.as_ref(),
        &boot.memory,
        use_kvm,
        config.is_direct_boot,
        &config.cmdline,
    );
    Ok(NvramRun { use_kvm, files, qemu_args })
}

/// Whether a mount brings the file `host` to the place `container`.
pub open spec fn mounts_at(m: Mount, host: Seq<char>, container: Seq<char>) -> bool {
    m.host@ == host && m.container@ == container
}

fn mount(host: &str, container: &str) -> (r: Mount)
    ensures
        mounts_at(r, host@, container@),
{
    Mount { host: host.to_owned(), container: container.to_owned() }
}

/// The mounts of a direct boot: the firmware's code, the kernel and the initrd.
pub fn direct_mounts(code: &str, kernel: &str, initrd: &str) -> (r: Vec<Mount>)
    ensures
        r@.len() == 3,
        mounts_at(r@[0], code@, "/input/OVMF_CODE.fd"@),
        mounts_at(r@[1], kernel@, "/input/kernel"@),
        mounts_at(r@[2], initrd@, "/input/initrd"@),
{
    let mut mounts: Vec<Mount> = Vec::new();
    mounts.push(mount(code, "/input/OVMF_CODE.fd"));
    mounts.push(mount(kernel, "/input/kernel"));
    mounts.push(mount(initrd, "/input/initrd"));
    mounts
}

/// The mounts of an indirect boot: the disk.
pub fn indirect_mounts(qcow2: &str) -> (r: Vec<Mount>)
    ensures
        r@.len() == 1,
        mounts_at(r@[0], qcow2@, "/input/disk.qcow2"@),
{
    let mut mounts: Vec<Mount> = Vec::new();
    mounts.push(mount(qcow2, "/input/disk.qcow2"));
    mounts
}

} // verus!
