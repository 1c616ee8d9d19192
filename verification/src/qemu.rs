//! The command lines of QEMU: for dumping ACPI tables and for populating NVRAM.
use vstd::prelude::*;
use vstd::string::StringExecFns;

use crate::text::{
    append_decimal, char_texts, chars_of, contains_text, decimal, join_with, occurs_in, same_text,
    slice_from, split_on, split_text, starts_with, string_of, texts,
};

verus! {

/// Where the firmware stands in the container.
pub const OVMF_IN_CONTAINER: &'static str = "/usr/share/ovmf/OVMF.fd";

/// The machine that a caller describes: its QEMU options, taken verbatim.
pub struct QemuShape {
    pub machine: String,
    pub cpu: String,
    pub accel: String,
    pub globals: Vec<String>,
    pub objects: Vec<String>,
    pub netdevs: Vec<String>,
    pub devices: Vec<String>,
    pub fw_cfg: Vec<String>,
}

/// The option `flag` with each of the values in turn.
pub open spec fn flagged(flag: Seq<char>, values: Seq<Seq<char>>) -> Seq<Seq<char>> {
    Seq::new(
        2 * values.len(),
        |i: int|
            if i % 2 == 0 {
                flag
            } else {
                values[i / 2]
            },
    )
}

/// The command line that dumps the ACPI tables: of the described machine, or the direct-boot
/// defaults where none is described.
pub open spec fn qemu_args(qemu: Option<&QemuShape>, cpus: u8, memory: Seq<char>) -> Seq<
    Seq<char>,
> {
    match qemu {
        Some(q) => seq![
            "-accel"@,
            q.accel@,
            "-m"@,
            memory,
            "-smp"@,
            decimal(cpus as nat) + ",maxcpus="@ + decimal(cpus as nat),
            "-cpu"@,
            q.cpu@,
            "-no-reboot"@,
            "-nodefaults"@,
            "-vga"@,
            "none"@,
            "-nographic"@,
            "-bios"@,
            OVMF_IN_CONTAINER@,
            "-machine"@,
            q.machine@,
        ] + flagged("-global"@, texts(q.globals@)) + flagged("-object"@, texts(q.objects@))
            + flagged("-netdev"@, texts(q.netdevs@)) + flagged("-device"@, texts(q.devices@))
            + flagged("-fw_cfg"@, texts(q.fw_cfg@)),
        None => seq![
            "-accel"@,
            "kvm"@,
            "-m"@,
            memory,
            "-smp"@,
            decimal(cpus as nat),
            "-cpu"@,
            "host"@,
            "-machine"@,
            "q35,kernel-irqchip=split,hpet=off,smm=off,pic=off"@,
            "-bios"@,
            OVMF_IN_CONTAINER@,
            "-nographic"@,
            "-nodefaults"@,
            "-serial"@,
            "stdio"@,
        ],
    }
}

/// Appends one argument.
pub fn push_arg(args: &mut Vec<String>, arg: &str)
    ensures
        texts(final(args)@) == texts(old(args)@).push(arg@),
{
    args.push(arg.to_owned());
    assert(texts(args@) =~= texts(old(args)@).push(arg@));
}

/// Appends an option and its value.
pub fn push_option(args: &mut Vec<String>, flag: &str, value: &str)
    ensures
        texts(final(args)@) == texts(old(args)@) + seq![flag@, value@],
{
    push_arg(args, flag);
    push_arg(args, value);
    assert(texts(args@) =~= texts(old(args)@) + seq![flag@, value@]);
}

proof fn lemma_flagged_push(flag: Seq<char>, values: Seq<Seq<char>>, v: Seq<char>)
    ensures
        flagged(flag, values.push(v)) == flagged(flag, values) + seq![flag, v],
{
    assert(flagged(flag, values.push(v)) =~= flagged(flag, values) + seq![flag, v]);
}

fn push_each(args: &mut Vec<String>, flag: &str, values: &Vec<String>)
    ensures
        texts(final(args)@) == texts(old(args)@) + flagged(flag@, texts(values@)),
{
    let ghost all = texts(values@);
    let mut i: usize = 0;
    assert(texts(args@) =~= texts(args@) + flagged(flag@, all.take(0)));
    while i < values.len()
        invariant
            i <= values@.len(),
            all == texts(values@),
            texts(args@) == texts(old(args)@) + flagged(flag@, all.take(i as int)),
        decreases values@.len() - i,
    {
        push_option(args, flag, &values[i]);
        proof {
            lemma_flagged_push(flag@, all.take(i as int), all[i as int]);
            assert(all.take(i as int).push(all[i as int]) =~= all.take(i + 1));
            assert(texts(args@) =~= texts(old(args)@) + flagged(flag@, all.take(i + 1)));
        }
        i += 1;
    }
    assert(all.take(i as int) =~= all);
}

/// Builds the command line that dumps the ACPI tables.
pub fn build_qemu_args(qemu: Option<&QemuShape>, cpus: u8, memory: &str) -> (r: Vec<String>)
    ensures
        texts(r@) == qemu_args(qemu, cpus, memory@),
{
    let mut args: Vec<String> = Vec::new();
    match qemu {
        Some(q) => {
            let mut smp = String::new();
            append_decimal(&mut smp, cpus);
            smp.append(",maxcpus=");
            append_decimal(&mut smp, cpus);
            assert(smp@ =~= decimal(cpus as nat) + ",maxcpus="@ + decimal(cpus as nat));
            push_option(&mut args, "-accel", &q.accel);
            push_option(&mut args, "-m", memory);
            push_option(&mut args, "-smp", &smp);
            push_option(&mut args, "-cpu", &q.cpu);
            push_arg(&mut args, "-no-reboot");
            push_arg(&mut args, "-nodefaults");
            push_option(&mut args, "-vga", "none");
            push_arg(&mut args, "-nographic");
            push_option(&mut args, "-bios", OVMF_IN_CONTAINER);
            push_option(&mut args, "-machine", &q.machine);
            push_each(&mut args, "-global", &q.globals);
            push_each(&mut args, "-object", &q.objects);
            push_each(&mut args, "-netdev", &q.netdevs);
            push_each(&mut args, "-device", &q.devices);
            push_each(&mut args, "-fw_cfg", &q.fw_cfg);
        },
        None => {
            let mut smp = String::new();
            append_decimal(&mut smp, cpus);
            assert(smp@ =~= decimal(cpus as nat));
            push_option(&mut args, "-accel", "kvm");
            push_option(&mut args, "-m", memory);
            push_option(&mut args, "-smp", &smp);
            push_option(&mut args, "-cpu", "host");
            push_option(
                &mut args,
                "-machine",
                "q35,kernel-irqchip=split,hpet=off,smm=off,pic=off",
            );
            push_option(&mut args, "-bios", OVMF_IN_CONTAINER);
            push_arg(&mut args, "-nographic");
            push_arg(&mut args, "-nodefaults");
            push_option(&mut args, "-serial", "stdio");
        },
    }
    assert(texts(args@) =~= qemu_args(qemu, cpus, memory@));
    args
}

/// The texts of a list of string slices.
pub open spec fn slice_texts(list: Seq<&str>) -> Seq<Seq<char>> {
    Seq::new(list.len(), |i: int| list[i]@)
}

/// Whether `part` begins with one of the prefixes.
pub open spec fn begins_with_any(part: Seq<char>, prefixes: Seq<Seq<char>>) -> bool {
    exists|i: int| 0 <= i < prefixes.len() && (#[trigger] prefixes[i]).is_prefix_of(part)
}

/// The comma-separated parts of `machine` that begin with none of the prefixes.
pub open spec fn kept_params(machine: Seq<char>, prefixes: Seq<Seq<char>>) -> Seq<Seq<char>> {
    split_on(machine, ',').filter(|part: Seq<char>| !begins_with_any(part, prefixes))
}

/// A machine option without the parameters that begin with one of the prefixes.
pub open spec fn stripped(machine: Seq<char>, prefixes: Seq<Seq<char>>) -> Seq<char> {
    join_with(kept_params(machine, prefixes), ',')
}

fn has_prefix_in(part: &Vec<char>, prefixes: &[&str]) -> (r: bool)
    ensures
        r == begins_with_any(part@, slice_texts(prefixes@)),
{
    let ghost all = slice_texts(prefixes@);
    let mut i: usize = 0;
    while i < prefixes.len()
        invariant
            i <= prefixes@.len(),
            all == slice_texts(prefixes@),
            forall|j: int| 0 <= j < i ==> !(#[trigger] all[j]).is_prefix_of(part@),
        decreases prefixes@.len() - i,
    {
        let prefix = chars_of(prefixes[i]);
        assert(all[i as int] == prefix@);
        if starts_with(part, &prefix) {
            return true;
        }
        i += 1;
    }
    false
}

proof fn lemma_filter_step<A>(s: Seq<A>, keep: spec_fn(A) -> bool, i: int)
    requires
        0 <= i < s.len(),
    ensures
        s.take(i + 1).filter(keep) == (if keep(s[i]) {
            s.take(i).filter(keep).push(s[i])
        } else {
            s.take(i).filter(keep)
        }),
{
    reveal(Seq::filter);
    assert(s.take(i + 1).drop_last() =~= s.take(i));
    assert(s.take(i + 1).last() == s[i]);
}

proof fn lemma_filter_nothing<A>(s: Seq<A>, keep: spec_fn(A) -> bool)
    ensures
        s.take(0).filter(keep) == Seq::<A>::empty(),
{
    reveal(Seq::filter);
}

/// Takes the parameters that begin with one of the prefixes out of a machine option.
pub fn strip_machine_params(machine: &str, strip_prefixes: &[&str]) -> (r: String)
    ensures
        r@ == stripped(machine@, slice_texts(strip_prefixes@)),
{
    let parts = split_text(machine, ',');
    let ghost all = split_on(machine@, ',');
    let ghost prefixes = slice_texts(strip_prefixes@);
    let ghost keep = |part: Seq<char>| !begins_with_any(part, prefixes);
    let mut out = String::new();
    let mut empty = true;
    let mut i: usize = 0;
    proof {
        lemma_filter_nothing(all, keep);
    }
    while i < parts.len()
        invariant
            i <= parts@.len(),
            char_texts(parts@) == all,
            prefixes == slice_texts(strip_prefixes@),
            keep == (|part: Seq<char>| !begins_with_any(part, prefixes)),
            empty == (all.take(i as int).filter(keep).len() == 0),
            out@ == join_with(all.take(i as int).filter(keep), ','),
        decreases parts@.len() - i,
    {
        let part = &parts[i];
        let ghost done = all.take(i as int).filter(keep);
        assert(part@ == all[i as int]);
        proof {
            lemma_filter_step(all, keep, i as int);
        }
        if !has_prefix_in(part, strip_prefixes) {
            assert(done.push(part@).drop_last() =~= done);
            if !empty {
                out.push(',');
            }
            let text = string_of(part);
            out.append(&text);
            empty = false;
            assert(out@ =~= join_with(done.push(part@), ','));
        }
        i += 1;
    }
    assert(all.take(i as int) =~= all);
    out
}

/// The kind of an object or a device: what stands before the first comma.
pub open spec fn kind_of(option: Seq<char>) -> Seq<char> {
    split_on(option, ',')[0]
}

/// Whether an object only exists in a confidential guest.
pub open spec fn tdx_object(object: Seq<char>) -> bool {
    ||| kind_of(object) == "tdx-guest"@
    ||| kind_of(object) == "memory-backend-memfd-private"@
    ||| kind_of(object) == "iommufd"@
}

/// Whether an object only exists in a confidential guest, and is left out where an ordinary QEMU
/// populates NVRAM.
pub fn is_tdx_object(obj: &str) -> (r: bool)
    ensures
        r == tdx_object(obj@),
{
    let parts = split_text(obj, ',');
    let kind = string_of(&parts[0]);
    assert(kind@ == char_texts(parts@)[0]);
    same_text(&kind, "tdx-guest") || same_text(&kind, "memory-backend-memfd-private") || same_text(
        &kind,
        "iommufd",
    )
}

/// Whether a device needs a host node or a network backend.
pub open spec fn host_backed_device(device: Seq<char>) -> bool {
    "vhost-"@.is_prefix_of(kind_of(device)) || occurs_in("netdev="@, device)
}

/// Whether a device cannot be created where the firmware is booted only to populate NVRAM:
/// `vhost-` devices need host nodes, and those with a `netdev=` need a network backend.
pub fn is_nvram_incompatible_device(dev: &str) -> (r: bool)
    ensures
        r == host_backed_device(dev@),
{
    let parts = split_text(dev, ',');
    let prefix = chars_of("vhost-");
    assert(parts@[0]@ == char_texts(parts@)[0]);
    starts_with(&parts[0], &prefix) || contains_text(dev, "netdev=")
}

/// The identifier in a `drive=` parameter.
pub open spec fn drive_of(part: Seq<char>) -> Option<Seq<char>> {
    if "drive="@.is_prefix_of(part) {
        Some(part.skip("drive="@.len() as int))
    } else {
        None
    }
}

/// The identifier in the first `drive=` parameter.
pub open spec fn first_drive(parts: Seq<Seq<char>>) -> Option<Seq<char>>
    decreases parts.len(),
{
    if parts.len() == 0 {
        None
    } else if drive_of(parts[0]) is Some {
        drive_of(parts[0])
    } else {
        first_drive(parts.drop_first())
    }
}

/// The identifier in the first `drive=` parameter of any device.
pub open spec fn drive_among(devices: Seq<Seq<char>>) -> Option<Seq<char>>
    decreases devices.len(),
{
    if devices.len() == 0 {
        None
    } else if first_drive(split_on(devices[0], ',')) is Some {
        first_drive(split_on(devices[0], ','))
    } else {
        drive_among(devices.drop_first())
    }
}

fn drive_in_device(device: &str) -> (r: Option<String>)
    ensures
        match r {
            Some(id) => first_drive(split_on(device@, ',')) == Some(id@),
            None => first_drive(split_on(device@, ',')) is None,
        },
{
    let parts = split_text(device, ',');
    let prefix = chars_of("drive=");
    let ghost all = split_on(device@, ',');
    let mut i: usize = 0;
    assert(all.skip(0) =~= all);
    while i < parts.len()
        invariant
            i <= parts@.len(),
            char_texts(parts@) == all,
            all == split_on(device@, ','),
            prefix@ == "drive="@,
            first_drive(all) == first_drive(all.skip(i as int)),
        decreases parts@.len() - i,
    {
        let part = &parts[i];
        assert(all.skip(i as int)[0] == part@);
        assert(all.skip(i as int).drop_first() =~= all.skip(i + 1));
        if starts_with(part, &prefix) {
            return Some(string_of(slice_from(part, prefix.len())));
        }
        i += 1;
    }
    None
}

/// Finds the identifier in the first `drive=` parameter of the devices.
pub fn find_drive_id(devices: &[String]) -> (r: Option<String>)
    ensures
        match r {
            Some(id) => drive_among(texts(devices@)) == Some(id@),
            None => drive_among(texts(devices@)) is None,
        },
{
    let ghost all = texts(devices@);
    let mut i: usize = 0;
    assert(all.skip(0) =~= all);
    while i < devices.len()
        invariant
            i <= devices@.len(),
            all == texts(devices@),
            drive_among(all) == drive_among(all.skip(i as int)),
        decreases devices@.len() - i,
    {
        assert(all.skip(i as int)[0] == devices@[i as int]@);
        assert(all.skip(i as int).drop_first() =~= all.skip(i + 1));
        let found = drive_in_device(&devices[i]);
        if found.is_some() {
            return found;
        }
        i += 1;
    }
    None
}

/// Appends the option with each of the values that are kept: as objects or as devices.
fn push_kept(args: &mut Vec<String>, flag: &str, values: &Vec<String>, objects: bool)
    ensures
        objects ==> texts(final(args)@) == texts(old(args)@) + flagged(
            flag@,
            kept_objects(texts(values@)),
        ),
        !objects ==> texts(final(args)@) == texts(old(args)@) + flagged(
            flag@,
            kept_devices(texts(values@)),
        ),
{
    let ghost all = texts(values@);
    let ghost keep = if objects {
        |o: Seq<char>| !tdx_object(o)
    } else {
        |d: Seq<char>| !host_backed_device(d)
    };
    let mut i: usize = 0;
    proof {
        lemma_filter_nothing(all, keep);
        assert(texts(args@) =~= texts(args@) + flagged(flag@, all.take(0).filter(keep)));
    }
    while i < values.len()
        invariant
            i <= values@.len(),
            all == texts(values@),
            keep == (if objects {
                |o: Seq<char>| !tdx_object(o)
            } else {
                |d: Seq<char>| !host_backed_device(d)
            }),
            texts(args@) == texts(old(args)@) + flagged(flag@, all.take(i as int).filter(keep)),
        decreases values@.len() - i,
    {
        let value = &values[i];
        assert(all[i as int] == value@);
        let ghost done = all.take(i as int).filter(keep);
        proof {
            lemma_filter_step(all, keep, i as int);
        }
        let kept = if objects {
            !is_tdx_object(value)
        } else {
            !is_nvram_incompatible_device(value)
        };
        if kept {
            push_option(args, flag, value);
            proof {
                lemma_flagged_push(flag@, done, value@);
                assert(texts(args@) =~= texts(old(args)@) + flagged(flag@, done.push(value@)));
            }
        }
        i += 1;
    }
    assert(all.take(i as int) =~= all);
}

/// The objects that an ordinary QEMU can have.
pub open spec fn kept_objects(objects: Seq<Seq<char>>) -> Seq<Seq<char>> {
    objects.filter(|o: Seq<char>| !tdx_object(o))
}

/// The devices that need nothing of the host.
pub open spec fn kept_devices(devices: Seq<Seq<char>>) -> Seq<Seq<char>> {
    devices.filter(|d: Seq<char>| !host_backed_device(d))
}

/// The machine option for populating NVRAM: without confidential-guest support, and without the
/// interrupt chip of KVM where KVM is not used.
pub open spec fn nvram_machine(machine: Seq<char>, use_kvm: bool) -> Seq<char> {
    let plain = stripped(machine, seq!["confidential-guest-support"@]);
    if use_kvm {
        plain
    } else {
        stripped(plain, seq!["kernel-irqchip"@])
    }
}

/// The options that hand the kernel, the initrd and a command line, if there is one, to the
/// firmware.
pub open spec fn kernel_args(cmdline: Seq<char>) -> Seq<Seq<char>> {
    seq!["-kernel"@, "/input/kernel"@, "-initrd"@, "/input/initrd"@] + if cmdline.len() > 0 {
        seq!["-append"@, cmdline]
    } else {
        Seq::empty()
    }
}

/// The disk option with the given identifier.
pub open spec fn disk_drive(id: Seq<char>) -> Seq<char> {
    "if=none,format=qcow2,file=/input/disk.qcow2,id="@ + id + ",readonly=on"@
}

/// The identifier of the disk: the one that the devices refer to.
pub open spec fn disk_id(devices: Seq<Seq<char>>) -> Seq<char> {
    match drive_among(devices) {
        Some(id) => id,
        None => "disk0"@,
    }
}

/// The beginning of the command line that populates NVRAM: the word that selects this mode, the
/// firmware's code and variables, memory, accelerator and no consoles.
pub open spec fn nvram_head(memory: Seq<char>, use_kvm: bool, direct_boot: bool) -> Seq<Seq<char>> {
    seq![
        "nvram"@,
        "-drive"@,
        if direct_boot {
            "if=pflash,format=raw,readonly=on,file=/input/OVMF_CODE.fd"@
        } else {
            "if=pflash,format=raw,readonly=on,file=/usr/share/OVMF/OVMF_CODE.fd"@
        },
        "-drive"@,
        "if=pflash,format=raw,file=/output/OVMF_VARS.fd"@,
        "-m"@,
        memory,
        "-accel"@,
        if use_kvm {
            "kvm"@
        } else {
            "tcg"@
        },
        "-nographic"@,
        "-nodefaults"@,
        "-serial"@,
        "null"@,
    ]
}

/// The end of the command line that populates NVRAM, for a described machine.
pub open spec fn nvram_shape_args(
    q: &QemuShape,
    use_kvm: bool,
    direct_boot: bool,
    cmdline: Seq<char>,
) -> Seq<Seq<char>> {
    seq![
        "-machine"@,
        nvram_machine(q.machine@, use_kvm),
        "-cpu"@,
        if use_kvm {
            q.cpu@
        } else {
            "qemu64"@
        },
    ] + flagged("-object"@, kept_objects(texts(q.objects@))) + if direct_boot {
        kernel_args(cmdline)
    } else {
        flagged("-device"@, kept_devices(texts(q.devices@))) + seq![
            "-drive"@,
            disk_drive(disk_id(texts(q.devices@))),
        ]
    }
}

/// The end of the command line that populates NVRAM, where no machine is described.
pub open spec fn nvram_default_args(use_kvm: bool, direct_boot: bool, cmdline: Seq<char>) -> Seq<
    Seq<char>,
> {
    seq![
        "-machine"@,
        "q35,smm=off"@,
        "-cpu"@,
        if use_kvm {
            "host"@
        } else {
            "qemu64"@
        },
    ] + if direct_boot {
        kernel_args(cmdline)
    } else {
        seq![
            "-drive"@,
            "if=none,format=qcow2,file=/input/disk.qcow2,id=disk0,readonly=on"@,
            "-device"@,
            "virtio-blk-pci,drive=disk0"@,
        ]
    }
}

/// The command line that boots the firmware in an ordinary QEMU, so that it writes its boot
/// variables.
pub open spec fn nvram_qemu_args(
    qemu: Option<&QemuShape>,
    memory: Seq<char>,
    use_kvm: bool,
    direct_boot: bool,
    cmdline: Seq<char>,
) -> Seq<Seq<char>> {
    nvram_head(memory, use_kvm, direct_boot) + match qemu {
        Some(q) => nvram_shape_args(q, use_kvm, direct_boot, cmdline),
        None => nvram_default_args(use_kvm, direct_boot, cmdline),
    }
}

fn push_kernel(args: &mut Vec<String>, cmdline: &str)
    ensures
        texts(final(args)@) == texts(old(args)@) + kernel_args(cmdline@),
{
    push_option(args, "-kernel", "/input/kernel");
    push_option(args, "-initrd", "/input/initrd");
    if !cmdline.is_empty() {
        push_option(args, "-append", cmdline);
    }
    assert(texts(args@) =~= texts(old(args)@) + kernel_args(cmdline@));
}

fn push_head(args: &mut Vec<String>, memory: &str, use_kvm: bool, is_direct_boot: bool)
    ensures
        texts(final(args)@) == texts(old(args)@) + nvram_head(memory@, use_kvm, is_direct_boot),
{
    push_arg(args, "nvram");
    if is_direct_boot {
        push_option(args, "-drive", "if=pflash,format=raw,readonly=on,file=/input/OVMF_CODE.fd");
    } else {
        push_option(
            args,
            "-drive",
            "if=pflash,format=raw,readonly=on,file=/usr/share/OVMF/OVMF_CODE.fd",
        );
    }
    push_option(args, "-drive", "if=pflash,format=raw,file=/output/OVMF_VARS.fd");
    push_option(args, "-m", memory);
    push_option(
        args,
        "-accel",
        if use_kvm {
            "kvm"
        } else {
            "tcg"
        },
    );
    push_arg(args, "-nographic");
    push_arg(args, "-nodefaults");
    push_option(args, "-serial", "null");
    assert(texts(args@) =~= texts(old(args)@) + nvram_head(memory@, use_kvm, is_direct_boot));
}

fn machine_for_nvram(machine: &str, use_kvm: bool) -> (r: String)
    ensures
        r@ == nvram_machine(machine@, use_kvm),
{
    let confidential: [&str; 1] = ["confidential-guest-support"];
    let chip: [&str; 1] = ["kernel-irqchip"];
    assert(slice_texts(confidential@) =~= seq!["confidential-guest-support"@]);
    assert(slice_texts(chip@) =~= seq!["kernel-irqchip"@]);
    let plain = strip_machine_params(machine, &confidential);
    if use_kvm {
        plain
    } else {
        strip_machine_params(&plain, &chip)
    }
}

/// Builds the command line that populates NVRAM.
///
/// Where the kernel is booted directly, its boot entry does not depend on devices, so none is
/// added; else the devices that need something of the host are left out, and the disk is added
/// under the identifier that the devices refer to.
pub fn build_nvram_qemu_args(
    qemu: Option<&QemuShape>,
    memory: &str,
    use_kvm: bool,
    is_direct_boot: bool,
    cmdline: &str,
) -> (r: Vec<String>)
    ensures
        texts(r@) == nvram_qemu_args(qemu, memory@, use_kvm, is_direct_boot, cmdline@),
{
    let mut args: Vec<String> = Vec::new();
    push_head(&mut args, memory, use_kvm, is_direct_boot);
    match qemu {
        Some(q) => {
            let machine = machine_for_nvram(&q.machine, use_kvm);
            push_option(&mut args, "-machine", &machine);
            if use_kvm {
                push_option(&mut args, "-cpu", &q.cpu);
            } else {
                push_option(&mut args, "-cpu", "qemu64");
            }
            push_kept(&mut args, "-object", &q.objects, true);
            if is_direct_boot {
                push_kernel(&mut args, cmdline);
            } else {
                push_kept(&mut args, "-device", &q.devices, false);
                let id = match find_drive_id(&q.devices) {
                    Some(id) => id,
                    None => "disk0".to_owned(),
                };
                let mut drive = "if=none,format=qcow2,file=/input/disk.qcow2,id=".to_owned();
                drive.append(&id);
                drive.append(",readonly=on");
                push_option(&mut args, "-drive", &drive);
            }
        },
        None => {
            push_option(&mut args, "-machine", "q35,smm=off");
            push_option(
                &mut args,
                "-cpu",
                if use_kvm {
                    "host"
                } else {
                    "qemu64"
                },
            );
            if is_direct_boot {
                push_kernel(&mut args, cmdline);
            } else {
                push_option(
                    &mut args,
                    "-drive",
                    "if=none,format=qcow2,file=/input/disk.qcow2,id=disk0,readonly=on",
                );
                push_option(&mut args, "-device", "virtio-blk-pci,drive=disk0");
            }
        },
    }
    assert(texts(args@) =~= nvram_qemu_args(qemu, memory@, use_kvm, is_direct_boot, cmdline@));
    args
}

} // verus!
