//! What holds of the command lines of QEMU and docker, argument by argument.
use vstd::prelude::*;
use vstd::utf8::{decode_utf8, valid_utf8};

use crate::docker::{
    build_args, first_line, group_field, group_id, kvm_device, mount_arg, mount_args,
    nvram_run_args, pinned, run_args, run_head, Host, Mount, CONTAINER_NAME, IMAGE_NAME,
};
use crate::generate::{
    asks_kvm, files_match, mounts_at, shape_of, BootConfig, GenerateError, ImageConfig, NvramFiles,
    DEFAULT_TABLES_NAME, NVRAM_OUT,
};
use crate::qemu::{
    begins_with_any, disk_id, drive_among, first_drive, flagged, host_backed_device,
    kept_devices, kept_objects, kept_params, kernel_args, kind_of, nvram_machine, nvram_qemu_args,
    qemu_args, slice_texts, stripped, tdx_object, QemuShape,
};
use crate::text::{
    decimal, join_with, law_join_of_split, law_split_of_join, law_split_parts, occurs_at, occurs_in,
    split_on, texts,
};

verus! {

/// The command line for a machine that is not described, argument by argument.
pub proof fn law_default_args(cpus: u8, memory: Seq<char>)
    ensures
        ({
            let a = qemu_args(None, cpus, memory);
            &&& a.len() == 16
            &&& a[0] == "-accel"@ && a[1] == "kvm"@
            &&& a[2] == "-m"@ && a[3] == memory
            &&& a[4] == "-smp"@ && a[5] == decimal(cpus as nat)
            &&& a[6] == "-cpu"@ && a[7] == "host"@
            &&& a[8] == "-machine"@
            &&& a[9] == "q35,kernel-irqchip=split,hpet=off,smm=off,pic=off"@
            &&& a[10] == "-bios"@ && a[11] == "/usr/share/ovmf/OVMF.fd"@
            &&& a[12] == "-nographic"@
            &&& a[13] == "-nodefaults"@
            &&& a[14] == "-serial"@ && a[15] == "stdio"@
        }),
{
}

/// Whether the arguments of `a` from `at` on are `flag` and a value, for each value in turn.
pub open spec fn has_options(
    a: Seq<Seq<char>>,
    at: int,
    flag: Seq<char>,
    values: Seq<Seq<char>>,
) -> bool {
    &&& 0 <= at <= a.len() - 2 * values.len()
    &&& forall|i: int|
        #![trigger values[i]]
        0 <= i < values.len() ==> a[at + 2 * i] == flag && a[at + 2 * i + 1] == values[i]
}

proof fn lemma_has_options(
    before: Seq<Seq<char>>,
    flag: Seq<char>,
    values: Seq<Seq<char>>,
    after: Seq<Seq<char>>,
)
    ensures
        flagged(flag, values).len() == 2 * values.len(),
        has_options(
            before + flagged(flag, values) + after,
            before.len() as int,
            flag,
            values,
        ),
{
    let a = before + flagged(flag, values) + after;
    let at = before.len() as int;
    assert forall|i: int|
        #![trigger values[i]]
        0 <= i < values.len() implies a[at + 2 * i] == flag && a[at + 2 * i + 1] == values[i] by {
        assert(flagged(flag, values)[2 * i] == flag);
        assert(flagged(flag, values)[2 * i + 1] == values[(2 * i + 1) / 2]);
        assert(a[at + 2 * i] == flagged(flag, values)[2 * i]);
        assert(a[at + 2 * i + 1] == flagged(flag, values)[2 * i + 1]);
    }
}

/// The command line for a described machine: its own accelerator, processor and machine, the fixed
/// options, and behind them each value of each list behind its flag, in order and verbatim, and
/// nothing else.
pub proof fn law_described_args(q: &QemuShape, cpus: u8, memory: Seq<char>)
    ensures
        ({
            let a = qemu_args(Some(q), cpus, memory);
            let n = decimal(cpus as nat);
            let g = 17 + 2 * q.globals@.len();
            let o = g + 2 * q.objects@.len();
            let d = o + 2 * q.netdevs@.len();
            let f = d + 2 * q.devices@.len();
            &&& a.len() == f + 2 * q.fw_cfg@.len()
            &&& a[0] == "-accel"@ && a[1] == q.accel@
            &&& a[2] == "-m"@ && a[3] == memory
            &&& a[4] == "-smp"@ && a[5] == n + ",maxcpus="@ + n
            &&& a[6] == "-cpu"@ && a[7] == q.cpu@
            &&& a[8] == "-no-reboot"@
            &&& a[9] == "-nodefaults"@
            &&& a[10] == "-vga"@ && a[11] == "none"@
            &&& a[12] == "-nographic"@
            &&& a[13] == "-bios"@ && a[14] == "/usr/share/ovmf/OVMF.fd"@
            &&& a[15] == "-machine"@ && a[16] == q.machine@
            &&& has_options(a, 17, "-global"@, texts(q.globals@))
            &&& has_options(a, g as int, "-object"@, texts(q.objects@))
            &&& has_options(a, o as int, "-netdev"@, texts(q.netdevs@))
            &&& has_options(a, d as int, "-device"@, texts(q.devices@))
            &&& has_options(a, f as int, "-fw_cfg"@, texts(q.fw_cfg@))
        }),
{
    let a = qemu_args(Some(q), cpus, memory);
    let g = flagged("-global"@, texts(q.globals@));
    let o = flagged("-object"@, texts(q.objects@));
    let n = flagged("-netdev"@, texts(q.netdevs@));
    let d = flagged("-device"@, texts(q.devices@));
    let f = flagged("-fw_cfg"@, texts(q.fw_cfg@));
    let core = a.take(17);
    let end = Seq::<Seq<char>>::empty();
    assert(a =~= core + g + (o + n + d + f));
    lemma_has_options(core, "-global"@, texts(q.globals@), o + n + d + f);
    assert(a =~= core + g + o + (n + d + f));
    lemma_has_options(core + g, "-object"@, texts(q.objects@), n + d + f);
    assert(a =~= core + g + o + n + (d + f));
    lemma_has_options(core + g + o, "-netdev"@, texts(q.netdevs@), d + f);
    assert(a =~= core + g + o + n + d + f);
    lemma_has_options(core + g + o + n, "-device"@, texts(q.devices@), f);
    assert(a =~= core + g + o + n + d + f + end);
    lemma_has_options(core + g + o + n + d, "-fw_cfg"@, texts(q.fw_cfg@), end);
}

proof fn lemma_first_part(s: Seq<char>, sep: char)
    ensures
        split_on(s, sep).len() >= 1,
        !split_on(s, sep)[0].contains(sep),
        s == split_on(s, sep)[0] || split_on(s, sep)[0].push(sep).is_prefix_of(s),
    decreases s.len(),
{
    law_split_parts(s, sep);
    if s.len() > 0 {
        let front = s.drop_last();
        lemma_first_part(front, sep);
        law_split_parts(front, sep);
        let parts = split_on(front, sep);
        let k = split_on(s, sep)[0];
        assert(s =~= front.push(s.last()));
        if s.last() == sep {
            assert(k == parts[0]);
            if front == k {
                assert(k.push(sep) =~= s);
                assert(s.subrange(0, s.len() as int) =~= s);
            } else {
                assert(s.subrange(0, k.push(sep).len() as int) =~= front.subrange(
                    0,
                    k.push(sep).len() as int,
                ));
            }
        } else if parts.len() == 1 {
            law_join_of_split(front, sep);
            assert(k == parts[0].push(s.last()));
            assert(join_with(parts, sep) == parts[0]);
            assert(s == k);
        } else {
            assert(k == parts[0]);
            assert(split_on(s, sep).len() > 1);
            law_join_of_split(front, sep);
            if front == k {
                lemma_first_is_whole(front, sep);
            } else {
                assert(s.subrange(0, k.push(sep).len() as int) =~= front.subrange(
                    0,
                    k.push(sep).len() as int,
                ));
            }
        }
    }
}

proof fn lemma_first_is_whole(s: Seq<char>, sep: char)
    requires
        !s.contains(sep),
    ensures
        split_on(s, sep).len() == 1,
        split_on(s, sep)[0] == s,
    decreases s.len(),
{
    if s.len() > 0 {
        let front = s.drop_last();
        assert forall|k: int| 0 <= k < front.len() implies front[k] != sep by {
            assert(s[k] == front[k]);
        }
        lemma_first_is_whole(front, sep);
        assert(s[s.len() - 1] != sep);
        assert(s =~= front.push(s.last()));
    }
}

proof fn lemma_begins_with_kind(s: Seq<char>, kind: Seq<char>)
    requires
        !kind.contains(','),
    ensures
        kind_of(s) == kind <==> s == kind || kind.push(',').is_prefix_of(s),
        kind.is_prefix_of(kind_of(s)) <==> kind.is_prefix_of(s),
{
    let first = kind_of(s);
    lemma_first_part(s, ',');
    let n = kind.len() as int;
    if s == kind {
        lemma_first_is_whole(s, ',');
        assert(s.subrange(0, n) =~= s);
    }
    if s == first {
        if kind.push(',').is_prefix_of(s) {
            assert(s.subrange(0, n + 1)[n] == ',');
            assert(s[n] == ',');
            assert(false);
        }
    } else {
        let m = first.len() as int;
        assert(s.subrange(0, m + 1) == first.push(','));
        assert(first.push(',')[m] == ',');
        assert(s[m] == s.subrange(0, m + 1)[m]);
        assert forall|j: int| 0 <= j < m implies s[j] == first[j] && s[j] != ',' by {
            assert(s.subrange(0, m + 1)[j] == first.push(',')[j]);
        }
        if kind.push(',').is_prefix_of(s) {
            assert(s.subrange(0, n + 1) == kind.push(','));
            assert(kind.push(',')[n] == ',');
            assert(s[n] == s.subrange(0, n + 1)[n]);
            assert forall|j: int| 0 <= j < n implies s[j] == kind[j] && s[j] != ',' by {
                assert(s.subrange(0, n + 1)[j] == kind.push(',')[j]);
            }
            assert(n == m);
            assert(first =~= kind);
        }
        if kind.is_prefix_of(first) {
            assert(s.subrange(0, n) =~= first.subrange(0, n));
        }
        if kind.is_prefix_of(s) {
            assert forall|j: int| 0 <= j < n implies s[j] == kind[j] && s[j] != ',' by {
                assert(s.subrange(0, n)[j] == kind[j]);
            }
            assert(n <= m);
            assert(first.subrange(0, n) =~= s.subrange(0, n));
        }
    }
}

/// Whether an option is of a kind: it is the kind alone, or the kind and a comma begin it.
pub open spec fn is_of_kind(option: Seq<char>, kind: Seq<char>) -> bool {
    option == kind || kind.push(',').is_prefix_of(option)
}

/// Whether an object is one of a confidential guest.
pub open spec fn is_confidential(o: Seq<char>) -> bool {
    ||| is_of_kind(o, "tdx-guest"@)
    ||| is_of_kind(o, "memory-backend-memfd-private"@)
    ||| is_of_kind(o, "iommufd"@)
}

/// Whether a device needs the host: its text begins with `vhost-` or has `netdev=` in it.
pub open spec fn needs_host(d: Seq<char>) -> bool {
    ||| "vhost-"@.is_prefix_of(d)
    ||| exists|i: int|
        0 <= i <= d.len() - "netdev="@.len() && #[trigger] d.subrange(i, i + "netdev="@.len())
            == "netdev="@
}

/// An object is one of a confidential guest by what stands before its first comma, whole.
pub proof fn law_confidential_objects(o: Seq<char>)
    ensures
        tdx_object(o) <==> is_confidential(o),
{
    reveal_strlit("tdx-guest");
    reveal_strlit("memory-backend-memfd-private");
    reveal_strlit("iommufd");
    lemma_begins_with_kind(o, "tdx-guest"@);
    lemma_begins_with_kind(o, "memory-backend-memfd-private"@);
    lemma_begins_with_kind(o, "iommufd"@);
}

/// A device needs the host where its text begins with `vhost-` or has `netdev=` anywhere in it.
pub proof fn law_devices_that_need_the_host(d: Seq<char>)
    ensures
        host_backed_device(d) <==> needs_host(d),
{
    reveal_strlit("vhost-");
    lemma_begins_with_kind(d, "vhost-"@);
    let sub = "netdev="@;
    if occurs_in(sub, d) {
        let i = choose|i: int| occurs_at(sub, d, i);
        assert(d.subrange(i, i + sub.len()) == sub);
    }
    if exists|i: int|
        0 <= i <= d.len() - sub.len() && #[trigger] d.subrange(i, i + sub.len()) == sub {
        let i = choose|i: int|
            0 <= i <= d.len() - sub.len() && #[trigger] d.subrange(i, i + sub.len()) == sub;
        assert(occurs_at(sub, d, i));
    }
}

/// The objects of a description that are not of a confidential guest, in its order.
pub open spec fn plain_objects(objects: Seq<String>) -> Seq<Seq<char>> {
    texts(objects).filter(|o: Seq<char>| !is_confidential(o))
}

/// The devices of a description that do not need the host, in its order.
pub open spec fn free_devices(devices: Seq<String>) -> Seq<Seq<char>> {
    texts(devices).filter(|d: Seq<char>| !needs_host(d))
}

proof fn lemma_kept(objects: Seq<String>, devices: Seq<String>)
    ensures
        kept_objects(texts(objects)) == plain_objects(objects),
        kept_devices(texts(devices)) == free_devices(devices),
{
    let a = |o: Seq<char>| !tdx_object(o);
    let b = |o: Seq<char>| !is_confidential(o);
    assert forall|o: Seq<char>| #[trigger] a(o) == b(o) by {
        law_confidential_objects(o);
    }
    assert(a =~= b);
    let c = |d: Seq<char>| !host_backed_device(d);
    let e = |d: Seq<char>| !needs_host(d);
    assert forall|d: Seq<char>| #[trigger] c(d) == e(d) by {
        law_devices_that_need_the_host(d);
    }
    assert(c =~= e);
}

/// What every command line that populates NVRAM begins with: the mode, the firmware's code and its
/// variables, the memory, the accelerator, no consoles, the machine and the processor, as the
/// caller describes them or by default.
pub proof fn law_nvram_args_begin(
    qemu: Option<&QemuShape>,
    memory: Seq<char>,
    use_kvm: bool,
    direct_boot: bool,
    cmdline: Seq<char>,
)
    ensures
        ({
            let a = nvram_qemu_args(qemu, memory, use_kvm, direct_boot, cmdline);
            &&& a.len() >= 19
            &&& a[0] == "nvram"@
            &&& a[1] == "-drive"@
            &&& direct_boot ==> a[2] == "if=pflash,format=raw,readonly=on,file=/input/OVMF_CODE.fd"@
            &&& !direct_boot ==> a[2]
                == "if=pflash,format=raw,readonly=on,file=/usr/share/OVMF/OVMF_CODE.fd"@
            &&& a[3] == "-drive"@
            &&& a[4] == "if=pflash,format=raw,file=/output/OVMF_VARS.fd"@
            &&& a[5] == "-m"@ && a[6] == memory
            &&& a[7] == "-accel"@
            &&& use_kvm ==> a[8] == "kvm"@
            &&& !use_kvm ==> a[8] == "tcg"@
            &&& a[9] == "-nographic"@
            &&& a[10] == "-nodefaults"@
            &&& a[11] == "-serial"@ && a[12] == "null"@
            &&& a[13] == "-machine"@
            &&& qemu matches Some(q) ==> a[14] == machine_without(q.machine@, use_kvm)
            &&& qemu is None ==> a[14] == "q35,smm=off"@
            &&& a[15] == "-cpu"@
            &&& qemu matches Some(q) ==> (use_kvm ==> a[16] == q.cpu@)
            &&& qemu is None && use_kvm ==> a[16] == "host"@
            &&& !use_kvm ==> a[16] == "qemu64"@
        }),
{
    if let Some(q) = qemu {
        lemma_machine_without(q.machine@, use_kvm);
    }
}

/// A machine option without the parameters that begin with `confidential-guest-support`, nor,
/// where KVM is not used, with `kernel-irqchip`; the others stay, in order.
pub open spec fn machine_without(machine: Seq<char>, use_kvm: bool) -> Seq<char> {
    join_with(
        split_on(machine, ',').filter(
            |p: Seq<char>|
                !"confidential-guest-support"@.is_prefix_of(p) && (use_kvm
                    || !"kernel-irqchip"@.is_prefix_of(p)),
        ),
        ',',
    )
}

proof fn lemma_filter_twice(
    s: Seq<Seq<char>>,
    p: spec_fn(Seq<char>) -> bool,
    q: spec_fn(Seq<char>) -> bool,
)
    ensures
        s.filter(p).filter(q) == s.filter(|x: Seq<char>| p(x) && q(x)),
    decreases s.len(),
{
    reveal(Seq::filter);
    if s.len() > 0 {
        let front = s.drop_last();
        lemma_filter_twice(front, p, q);
        if p(s.last()) {
            assert(front.filter(p).push(s.last()).drop_last() =~= front.filter(p));
        }
    }
}

proof fn lemma_one_prefix(prefix: Seq<char>, x: Seq<char>)
    ensures
        begins_with_any(x, seq![prefix]) <==> prefix.is_prefix_of(x),
{
    assert(seq![prefix][0] == prefix);
}

proof fn lemma_stripped_one(machine: Seq<char>, prefix: Seq<char>)
    ensures
        stripped(machine, seq![prefix]) == join_with(
            split_on(machine, ',').filter(|x: Seq<char>| !prefix.is_prefix_of(x)),
            ',',
        ),
{
    let a = |x: Seq<char>| !begins_with_any(x, seq![prefix]);
    let b = |x: Seq<char>| !prefix.is_prefix_of(x);
    assert forall|x: Seq<char>| #[trigger] a(x) == b(x) by {
        lemma_one_prefix(prefix, x);
    }
    assert(a =~= b);
}

proof fn lemma_machine_without(machine: Seq<char>, use_kvm: bool)
    ensures
        nvram_machine(machine, use_kvm) == machine_without(machine, use_kvm),
{
    let c = "confidential-guest-support"@;
    let k = "kernel-irqchip"@;
    let parts = split_on(machine, ',');
    let no_c = |x: Seq<char>| !c.is_prefix_of(x);
    let no_k = |x: Seq<char>| !k.is_prefix_of(x);
    let both = |x: Seq<char>| !c.is_prefix_of(x) && (use_kvm || !k.is_prefix_of(x));
    let kept = parts.filter(no_c);
    lemma_stripped_one(machine, c);
    if use_kvm {
        assert(no_c =~= both);
    } else {
        let plain = stripped(machine, seq![c]);
        lemma_stripped_one(plain, k);
        lemma_filter_twice(parts, no_c, no_k);
        assert((|x: Seq<char>| no_c(x) && no_k(x)) =~= both);
        law_split_parts(machine, ',');
        assert forall|i: int| 0 <= i < kept.len() implies !(#[trigger] kept[i]).contains(',') by {
            parts.lemma_filter_contains_rev(no_c, kept[i]);
            let j = choose|j: int| 0 <= j < parts.len() && parts[j] == kept[i];
            assert(!parts[j].contains(','));
        }
        if kept.len() > 0 {
            law_split_of_join(kept, ',');
        } else {
            reveal_strlit("kernel-irqchip");
            reveal(Seq::filter);
            assert(plain =~= Seq::empty());
            assert(split_on(plain, ',') =~= seq![Seq::<char>::empty()]);
            let only = seq![Seq::<char>::empty()];
            assert(only.drop_last() =~= Seq::empty());
            assert(only.filter(no_k) =~= only);
            assert(kept.filter(no_k) =~= Seq::empty());
        }
    }
}

/// The end of the command line for a described machine that is booted directly: each object that
/// is not of a confidential guest behind `-object`, in order, then the kernel, the initrd and the
/// command line, if there is one, and nothing else: no device at all.
pub proof fn law_nvram_args_direct(
    q: &QemuShape,
    memory: Seq<char>,
    use_kvm: bool,
    cmdline: Seq<char>,
)
    ensures
        ({
            let a = nvram_qemu_args(Some(q), memory, use_kvm, true, cmdline);
            let objects = plain_objects(q.objects@);
            let k = 17 + 2 * objects.len() as int;
            &&& has_options(a, 17, "-object"@, objects)
            &&& ends_with_kernel(a, k, cmdline)
        }),
{
    let a = nvram_qemu_args(Some(q), memory, use_kvm, true, cmdline);
    lemma_kept(q.objects@, q.devices@);
    let objects = plain_objects(q.objects@);
    let o = flagged("-object"@, objects);
    let k = 17 + 2 * objects.len() as int;
    lemma_has_options(a.take(17), "-object"@, objects, kernel_args(cmdline));
    assert(a =~= a.take(17) + o + kernel_args(cmdline));
}

/// Whether the arguments from `k` on hand over the kernel, the initrd and a command line that is
/// not empty, and nothing follows.
pub open spec fn ends_with_kernel(a: Seq<Seq<char>>, k: int, cmdline: Seq<char>) -> bool {
    &&& a.len() == k + (if cmdline.len() > 0 {
        6int
    } else {
        4
    })
    &&& a[k] == "-kernel"@ && a[k + 1] == "/input/kernel"@
    &&& a[k + 2] == "-initrd"@ && a[k + 3] == "/input/initrd"@
    &&& cmdline.len() > 0 ==> a[k + 4] == "-append"@ && a[k + 5] == cmdline
}

/// The end of the command line for a described machine that is booted from its disk, with or
/// without KVM: each object that is not of a confidential guest behind `-object`, each device that
/// does not need the host behind `-device`, both in order, then the disk under the identifier that
/// the devices refer to, and nothing else.
pub proof fn law_nvram_args_indirect(
    q: &QemuShape,
    memory: Seq<char>,
    use_kvm: bool,
    cmdline: Seq<char>,
)
    ensures
        ({
            let a = nvram_qemu_args(Some(q), memory, use_kvm, false, cmdline);
            let objects = plain_objects(q.objects@);
            let devices = free_devices(q.devices@);
            let d = 17 + 2 * objects.len() as int;
            let k = d + 2 * devices.len();
            &&& has_options(a, 17, "-object"@, objects)
            &&& has_options(a, d, "-device"@, devices)
            &&& a.len() == k + 2
            &&& a[k] == "-drive"@
            &&& a[k + 1] == "if=none,format=qcow2,file=/input/disk.qcow2,id="@ + disk_id(
                texts(q.devices@),
            ) + ",readonly=on"@
        }),
{
    let a = nvram_qemu_args(Some(q), memory, use_kvm, false, cmdline);
    lemma_kept(q.objects@, q.devices@);
    let objects = plain_objects(q.objects@);
    let devices = free_devices(q.devices@);
    let o = flagged("-object"@, objects);
    let e = flagged("-device"@, devices);
    let d = 17 + 2 * objects.len() as int;
    let k = d + 2 * devices.len();
    let head = a.take(17);
    let disk = a.skip(k);
    lemma_has_options(head, "-object"@, objects, e + disk);
    lemma_has_options(head + o, "-device"@, devices, disk);
    assert(a =~= head + o + (e + disk));
    assert(a =~= head + o + e + disk);
}

/// The end of the command line where no machine is described: the kernel, or the disk and its
/// device, and nothing else.
pub proof fn law_nvram_args_default(memory: Seq<char>, use_kvm: bool, cmdline: Seq<char>)
    ensures
        ends_with_kernel(nvram_qemu_args(None, memory, use_kvm, true, cmdline), 17, cmdline),
        ({
            let a = nvram_qemu_args(None, memory, use_kvm, false, cmdline);
            &&& a.len() == 21
            &&& a[17] == "-drive"@
            &&& a[18] == "if=none,format=qcow2,file=/input/disk.qcow2,id=disk0,readonly=on"@
            &&& a[19] == "-device"@
            &&& a[20] == "virtio-blk-pci,drive=disk0"@
        }),
{
}

/// A machine option without some parameters: those of its comma-separated ones that begin with
/// none of the prefixes, in order and with commas between them.
pub proof fn law_stripped_machine(machine: Seq<char>, prefixes: Seq<Seq<char>>)
    ensures
        stripped(machine, prefixes) == join_with(
            split_on(machine, ',').filter(
                |p: Seq<char>|
                    forall|i: int|
                        0 <= i < prefixes.len() ==> !(#[trigger] prefixes[i]).is_prefix_of(p),
            ),
            ',',
        ),
{
    let a = |p: Seq<char>| !begins_with_any(p, prefixes);
    let b = |p: Seq<char>|
        forall|i: int| 0 <= i < prefixes.len() ==> !(#[trigger] prefixes[i]).is_prefix_of(p);
    assert forall|p: Seq<char>| #[trigger] a(p) == b(p) by {}
    assert(a =~= b);
    assert(kept_params(machine, prefixes) == split_on(machine, ',').filter(a));
}

/// The texts of string slices are theirs, one for one.
pub proof fn law_slice_texts(list: Seq<&str>, i: int)
    ensures
        slice_texts(list).len() == list.len(),
        0 <= i < list.len() ==> slice_texts(list)[i] == list[i]@,
{
}

/// Whether a part of a device refers to a drive.
pub open spec fn refers(part: Seq<char>) -> bool {
    "drive="@.is_prefix_of(part)
}

proof fn lemma_first_drive_at(parts: Seq<Seq<char>>, j: int, id: Seq<char>)
    requires
        0 <= j < parts.len(),
        parts[j] == "drive="@ + id,
        forall|m: int| 0 <= m < j ==> !refers(#[trigger] parts[m]),
    ensures
        first_drive(parts) == Some(id),
    decreases j,
{
    let p = "drive="@ + id;
    let n = "drive="@.len() as int;
    assert(p.subrange(0, n) =~= "drive="@);
    assert(p.skip(n) =~= id);
    if j > 0 {
        assert(!refers(parts[0]));
        let rest = parts.drop_first();
        assert forall|m: int| 0 <= m < j - 1 implies !refers(#[trigger] rest[m]) by {
            assert(rest[m] == parts[m + 1]);
        }
        lemma_first_drive_at(rest, j - 1, id);
    }
}

proof fn lemma_no_drive(parts: Seq<Seq<char>>)
    requires
        forall|m: int| 0 <= m < parts.len() ==> !refers(#[trigger] parts[m]),
    ensures
        first_drive(parts) is None,
    decreases parts.len(),
{
    if parts.len() > 0 {
        assert(!refers(parts[0]));
        let rest = parts.drop_first();
        assert forall|m: int| 0 <= m < rest.len() implies !refers(#[trigger] rest[m]) by {
            assert(rest[m] == parts[m + 1]);
        }
        lemma_no_drive(rest);
    }
}

/// Whether no parameter of a device refers to a drive.
pub open spec fn refers_to_none(device: Seq<char>) -> bool {
    forall|m: int|
        0 <= m < split_on(device, ',').len() ==> !refers(#[trigger] split_on(device, ',')[m])
}

/// The drive is that of the first parameter `drive=` of the first device that has one.
pub proof fn law_drive(devices: Seq<Seq<char>>, i: int, j: int, id: Seq<char>)
    requires
        0 <= i < devices.len(),
        forall|m: int| 0 <= m < i ==> refers_to_none(#[trigger] devices[m]),
        0 <= j < split_on(devices[i], ',').len(),
        split_on(devices[i], ',')[j] == "drive="@ + id,
        forall|m: int| 0 <= m < j ==> !refers(#[trigger] split_on(devices[i], ',')[m]),
    ensures
        drive_among(devices) == Some(id),
        disk_id(devices) == id,
    decreases i,
{
    if i == 0 {
        lemma_first_drive_at(split_on(devices[0], ','), j, id);
    } else {
        assert(refers_to_none(devices[0]));
        lemma_no_drive(split_on(devices[0], ','));
        let rest = devices.drop_first();
        assert forall|m: int| 0 <= m < i - 1 implies refers_to_none(#[trigger] rest[m]) by {
            assert(rest[m] == devices[m + 1]);
        }
        assert(rest[i - 1] == devices[i]);
        law_drive(rest, i - 1, j, id);
    }
}

/// Where no device refers to a drive there is none, and the disk is `disk0`.
pub proof fn law_no_drive(devices: Seq<Seq<char>>)
    requires
        forall|m: int| 0 <= m < devices.len() ==> refers_to_none(#[trigger] devices[m]),
    ensures
        drive_among(devices) is None,
        disk_id(devices) == "disk0"@,
    decreases devices.len(),
{
    if devices.len() > 0 {
        assert(refers_to_none(devices[0]));
        lemma_no_drive(split_on(devices[0], ','));
        let rest = devices.drop_first();
        assert forall|m: int| 0 <= m < rest.len() implies refers_to_none(#[trigger] rest[m]) by {
            assert(rest[m] == devices[m + 1]);
        }
        law_no_drive(rest);
    }
}

/// Two distributions have a package, each from its source, in its version and on its image; no
/// other text names one.
pub proof fn law_packages(distribution: Seq<char>)
    ensures
        distribution == "ubuntu:25.04"@ ==> pinned(distribution) == Some(
            (
                "ppa"@,
                "1:9.2.1+ds-1ubuntu4+tdx2.0~ppa2"@,
                "sha256:27771fb7b40a58237c98e8d3e6b9ecdd9289cec69a857fccfb85ff36294dac20"@,
            ),
        ),
        distribution == "ubuntu:26.04"@ ==> pinned(distribution) == Some(
            (
                "main"@,
                "1:10.2.1+ds-1ubuntu4"@,
                "sha256:f3d28607ddd78734bb7f71f117f3c6706c666b8b76cbff7c9ff6e5718d46ff64"@,
            ),
        ),
        pinned(distribution) is Some ==> distribution == "ubuntu:25.04"@ || distribution
            == "ubuntu:26.04"@,
{
    reveal_strlit("ubuntu:25.04");
    reveal_strlit("ubuntu:26.04");
    assert("ubuntu:25.04"@[8] == '5' && "ubuntu:26.04"@[8] == '6');
}

/// A docker build has the image's name as its tag and hands over the distribution with its digest,
/// the source, the version and the tables' name, each whole; the option for the Dockerfile is last.
pub proof fn law_build_args(
    distribution: Seq<char>,
    source: Seq<char>,
    version: Seq<char>,
    digest: Seq<char>,
    name: Seq<char>,
)
    ensures
        ({
            let a = build_args(distribution, source, version, digest, name);
            &&& a.len() == 14
            &&& a[0] == "build"@
            &&& a[1] == "--progress"@ && a[2] == "plain"@
            &&& a[3] == "--tag"@ && a[4] == "acpi-tables-generator"@
            &&& a[5] == "--build-arg"@
            &&& a[6] == "DISTRIBUTION="@ + distribution + "@"@ + digest
            &&& a[7] == "--build-arg"@ && a[8] == "QEMU_SOURCE="@ + source
            &&& a[9] == "--build-arg"@ && a[10] == "QEMU_VERSION="@ + version
            &&& a[11] == "--build-arg"@ && a[12] == "ACPI_TABLES_NAME="@ + name
            &&& a[13] == "--file"@
        }),
{
}

/// The number of arguments that an option and its value take where they are there.
pub open spec fn two_if(there: bool) -> int {
    if there {
        2
    } else {
        0
    }
}

/// The run that dumps ACPI tables: a container that is removed, with its name; the host's group
/// where it has one; KVM where it is needed; vsock where it is needed and there; the firmware,
/// read-only, and the output directory, mounted; the image; and every argument of QEMU.
pub proof fn law_run_args(
    host: &Host,
    bios: Seq<char>,
    output: Seq<char>,
    args: Seq<Seq<char>>,
    need_kvm: bool,
    need_vsock: bool,
)
    ensures
        ({
            let a = run_args(host, bios, output, args, need_kvm, need_vsock);
            let k = 4 + two_if(host.kvm_gid is Some);
            let v = k + two_if(need_kvm);
            let m = v + two_if(need_vsock && host.has_vhost_vsock);
            &&& a.len() == m + 5 + args.len()
            &&& a[0] == "run"@ && a[1] == "--rm"@
            &&& a[2] == "--name"@ && a[3] == "acpi-tables-generator"@
            &&& host.kvm_gid matches Some(gid) ==> a[4] == "--group-add"@ && a[5] == gid@
            &&& need_kvm ==> a[k] == "--device"@ && a[k + 1] == "/dev/kvm:/dev/kvm"@
            &&& need_vsock && host.has_vhost_vsock ==> a[v] == "--device"@ && a[v + 1]
                == "/dev/vhost-vsock:/dev/vhost-vsock"@
            &&& a[m] == "-v"@
            &&& a[m + 1] == bios + ":"@ + "/usr/share/ovmf/OVMF.fd"@ + ":ro"@
            &&& a[m + 2] == "-v"@ && a[m + 3] == output + ":/output"@
            &&& a[m + 4] == "acpi-tables-generator"@
            &&& a.skip(m + 5) == args
        }),
{
    let a = run_args(host, bios, output, args, need_kvm, need_vsock);
    let m = 4 + two_if(host.kvm_gid is Some) + two_if(need_kvm) + two_if(
        need_vsock && host.has_vhost_vsock,
    );
    assert(a.skip(m + 5) =~= args);
}

proof fn lemma_mounts(
    host: &Host,
    output: Seq<char>,
    mounts: Seq<Mount>,
    args: Seq<Seq<char>>,
    use_kvm: bool,
)
    ensures
        has_options(
            nvram_run_args(host, output, mounts, args, use_kvm),
            4 + two_if(host.kvm_gid is Some) + two_if(use_kvm),
            "-v"@,
            Seq::new(
                mounts.len(),
                |i: int| mounts[i].host@ + ":"@ + mounts[i].container@ + ":ro"@,
            ),
        ),
{
    let a = nvram_run_args(host, output, mounts, args, use_kvm);
    let before = run_head(CONTAINER_NAME@ + "-nvram"@, host.kvm_gid) + kvm_device(use_kvm);
    let after = seq!["-v"@, output + ":/output"@, IMAGE_NAME@] + args;
    let values = Seq::new(
        mounts.len(),
        |i: int| mounts[i].host@ + ":"@ + mounts[i].container@ + ":ro"@,
    );
    assert(values =~= Seq::new(mounts.len(), |i: int| mount_arg(mounts[i])));
    lemma_has_options(before, "-v"@, values, after);
    assert(a =~= before + flagged("-v"@, values) + after);
}

/// The run that populates NVRAM: a container that is removed, with its name; the host's group where
/// it has one; KVM where it is used; every input at its place, read-only and in order, and the
/// output directory, mounted; the image; and every argument of QEMU.
pub proof fn law_nvram_run_args(
    host: &Host,
    output: Seq<char>,
    mounts: Seq<Mount>,
    args: Seq<Seq<char>>,
    use_kvm: bool,
)
    ensures
        ({
            let a = nvram_run_args(host, output, mounts, args, use_kvm);
            let k = 4 + two_if(host.kvm_gid is Some);
            let v = k + two_if(use_kvm);
            let m = v + 2 * mounts.len();
            &&& a.len() == m + 3 + args.len()
            &&& a[0] == "run"@ && a[1] == "--rm"@
            &&& a[2] == "--name"@ && a[3] == "acpi-tables-generator"@ + "-nvram"@
            &&& host.kvm_gid matches Some(gid) ==> a[4] == "--group-add"@ && a[5] == gid@
            &&& use_kvm ==> a[k] == "--device"@ && a[k + 1] == "/dev/kvm:/dev/kvm"@
            &&& has_options(
                a,
                v,
                "-v"@,
                Seq::new(
                    mounts.len(),
                    |i: int| mounts[i].host@ + ":"@ + mounts[i].container@ + ":ro"@,
                ),
            )
            &&& a[m] == "-v"@ && a[m + 1] == output + ":/output"@
            &&& a[m + 2] == "acpi-tables-generator"@
            &&& a.skip(m + 3) == args
        }),
{
    let a = nvram_run_args(host, output, mounts, args, use_kvm);
    let v = 4 + two_if(host.kvm_gid is Some) + two_if(use_kvm);
    let m = v + 2 * mounts.len();
    lemma_mounts(host, output, mounts, args, use_kvm);
    assert(mount_args(mounts).len() == 2 * mounts.len());
    assert(a.skip(m + 3) =~= args);
}

/// Nothing is told of a group that was not found, or where the lookup printed no text.
pub proof fn law_no_group(found: bool, output: Seq<u8>)
    requires
        !found || !valid_utf8(output) || output.len() == 0,
    ensures
        group_id(found, output) is None,
{
    if found && valid_utf8(output) {
        assert(decode_utf8(output).len() == 0);
    }
}

/// The group's number is what stands behind the second colon of the first line, up to the third
/// colon or the line's end; a line feed ends the line, with a carriage return before it or not.
pub proof fn law_group_number(
    name: Seq<char>,
    password: Seq<char>,
    number: Seq<char>,
    members: Option<Seq<char>>,
    more: Option<(bool, Seq<char>)>,
)
    requires
        !name.contains(':') && !name.contains('\n'),
        !password.contains(':') && !password.contains('\n'),
        !number.contains(':') && !number.contains('\n'),
        members matches Some(m) ==> !m.contains('\n') && !ends_with_return(m),
        members is None ==> !ends_with_return(number),
    ensures
        ({
            let line = name.push(':') + password.push(':') + number + match members {
                Some(m) => seq![':'] + m,
                None => Seq::empty(),
            };
            let text = line + match more {
                Some((with_return, rest)) => if with_return {
                    seq!['\r', '\n'] + rest
                } else {
                    seq!['\n'] + rest
                },
                None => Seq::empty(),
            };
            first_line(text) == Some(line) && group_field(line) == Some(number)
        }),
{
    let tail = match members {
        Some(m) => seq![':'] + m,
        None => Seq::empty(),
    };
    let line = name.push(':') + password.push(':') + number + tail;
    let text = line + match more {
        Some((with_return, rest)) => if with_return {
            seq!['\r', '\n'] + rest
        } else {
            seq!['\n'] + rest
        },
        None => Seq::empty(),
    };
    assert(!line.contains('\n')) by {
        assert forall|i: int| 0 <= i < line.len() implies line[i] != '\n' by {
            let a = name.len() as int;
            let b = a + 1 + password.len();
            let c = b + 1 + number.len();
            if i < a {
                assert(line[i] == name[i]);
            } else if i == a {
                assert(line[i] == ':');
            } else if i < b {
                assert(line[i] == password[i - a - 1]);
            } else if i == b {
                assert(line[i] == ':');
            } else if i < c {
                assert(line[i] == number[i - b - 1]);
            } else {
                assert(line[i] == tail[i - c]);
                if i > c {
                    assert(tail[i - c] == members->Some_0[i - c - 1]);
                }
            }
        }
    }
    assert(!ends_with_return(line)) by {
        if members is None {
            if number.len() > 0 {
                assert(line.last() == number.last());
            } else {
                assert(line.last() == ':');
            }
        } else {
            let m = members->Some_0;
            if m.len() > 0 {
                assert(line.last() == m.last());
            } else {
                assert(line.last() == ':');
            }
        }
    }
    lemma_first_line(line, more);
    lemma_third_field(name, password, number, members);
}

/// Whether a text ends with a carriage return.
pub open spec fn ends_with_return(s: Seq<char>) -> bool {
    s.len() > 0 && s.last() == '\r'
}

proof fn lemma_split_at(a: Seq<char>, rest: Seq<char>, sep: char)
    requires
        !a.contains(sep),
    ensures
        split_on(a.push(sep) + rest, sep) == seq![a] + split_on(rest, sep),
    decreases rest.len(),
{
    let s = a.push(sep) + rest;
    law_split_parts(rest, sep);
    if rest.len() == 0 {
        assert(s =~= a.push(sep));
        assert(s.drop_last() =~= a);
        lemma_first_is_whole(a, sep);
        assert(split_on(a, sep) =~= seq![a]);
        assert(split_on(s, sep) =~= seq![a] + split_on(rest, sep));
    } else {
        let front = rest.drop_last();
        lemma_split_at(a, front, sep);
        law_split_parts(front, sep);
        assert(s.drop_last() =~= a.push(sep) + front);
        assert(split_on(s, sep) =~= seq![a] + split_on(rest, sep));
    }
}

proof fn lemma_first_line(line: Seq<char>, more: Option<(bool, Seq<char>)>)
    requires
        !line.contains('\n'),
        !ends_with_return(line),
        line.len() > 0,
    ensures
        first_line(
            line + match more {
                Some((with_return, rest)) => if with_return {
                    seq!['\r', '\n'] + rest
                } else {
                    seq!['\n'] + rest
                },
                None => Seq::empty(),
            },
        ) == Some(line),
{
    match more {
        None => {
            assert(line + Seq::<char>::empty() =~= line);
            lemma_first_is_whole(line, '\n');
        },
        Some((with_return, rest)) => {
            law_split_parts(rest, '\n');
            if with_return {
                let whole = line.push('\r');
                assert forall|i: int| 0 <= i < whole.len() implies whole[i] != '\n' by {
                    if i < line.len() {
                        assert(whole[i] == line[i]);
                    }
                }
                assert(line + (seq!['\r', '\n'] + rest) =~= whole.push('\n') + rest);
                lemma_split_at(whole, rest, '\n');
                assert(whole.drop_last() =~= line);
            } else {
                assert(line + (seq!['\n'] + rest) =~= line.push('\n') + rest);
                lemma_split_at(line, rest, '\n');
            }
        },
    }
}

proof fn lemma_third_field(
    name: Seq<char>,
    password: Seq<char>,
    number: Seq<char>,
    members: Option<Seq<char>>,
)
    requires
        !name.contains(':'),
        !password.contains(':'),
        !number.contains(':'),
    ensures
        group_field(
            name.push(':') + password.push(':') + number + match members {
                Some(m) => seq![':'] + m,
                None => Seq::empty(),
            },
        ) == Some(number),
{
    let tail = match members {
        Some(m) => seq![':'] + m,
        None => Seq::empty(),
    };
    let line = name.push(':') + password.push(':') + number + tail;
    assert(line =~= name.push(':') + (password.push(':') + (number + tail)));
    lemma_split_at(name, password.push(':') + (number + tail), ':');
    lemma_split_at(password, number + tail, ':');
    match members {
        Some(m) => {
            assert(number + tail =~= number.push(':') + m);
            lemma_split_at(number, m, ':');
        },
        None => {
            assert(number + tail =~= number);
            lemma_first_is_whole(number, ':');
        },
    }
}

/// The first line of a text is what stands before its first line feed, without a carriage return
/// directly before that; a text without a line feed is its own first line, whatever it ends with;
/// an empty one has none.
pub proof fn law_first_line(line: Seq<char>, rest: Seq<char>)
    requires
        !line.contains('\n'),
    ensures
        line.len() == 0 ==> first_line(line) is None,
        line.len() > 0 ==> first_line(line) == Some(line),
        first_line(line.push('\n') + rest) == Some(
            if ends_with_return(line) {
                line.drop_last()
            } else {
                line
            },
        ),
{
    lemma_first_is_whole(line, '\n');
    lemma_split_at(line, rest, '\n');
    law_split_parts(rest, '\n');
}

/// The third field of a line is what stands between its second colon and its third, or its end.
pub proof fn law_third_field(
    first: Seq<char>,
    second: Seq<char>,
    third: Seq<char>,
    more: Option<Seq<char>>,
)
    requires
        !first.contains(':'),
        !second.contains(':'),
        !third.contains(':'),
    ensures
        group_field(
            first.push(':') + second.push(':') + third + match more {
                Some(m) => seq![':'] + m,
                None => Seq::empty(),
            },
        ) == Some(third),
{
    lemma_third_field(first, second, third, more);
}

/// A line with fewer than two colons has no group number.
pub proof fn law_too_few_fields(a: Seq<char>, b: Seq<char>)
    requires
        !a.contains(':'),
        !b.contains(':'),
    ensures
        group_field(a) is None,
        group_field(a.push(':') + b) is None,
{
    lemma_first_is_whole(a, ':');
    lemma_first_is_whole(b, ':');
    lemma_split_at(a, b, ':');
}

/// What a lookup that succeeded printed, as text, gives the number in its first line.
pub proof fn law_group_of_output(output: Seq<u8>)
    requires
        valid_utf8(output),
    ensures
        first_line(decode_utf8(output)) matches Some(line) ==> group_id(true, output)
            == group_field(line),
        first_line(decode_utf8(output)) is None ==> group_id(true, output) is None,
{
}

/// KVM is asked for where no machine is described, and where the described one's accelerator is
/// `kvm` and nothing else; the described machine is the configuration's.
pub proof fn law_described_machine(boot: &BootConfig)
    ensures
        boot.qemu is None ==> asks_kvm(boot.qemu) && shape_of(boot) is None,
        boot.qemu matches Some(q) ==> (asks_kvm(boot.qemu) <==> q.accel@ == "kvm"@) && shape_of(
            boot,
        ) == Some(&q),
{
}

/// A direct boot takes the firmware, the kernel and the initrd of the configuration, an indirect
/// one its disk; what the boot mode lacks is told, and nothing of the other mode matters.
pub proof fn law_files(
    config: ImageConfig,
    boot: BootConfig,
    r: Result<NvramFiles, GenerateError>,
)
    requires
        files_match(config, boot, r),
    ensures
        config.is_direct_boot && config.direct is Some ==> (r matches Ok(
            NvramFiles::Direct { bios, kernel, initrd },
        ) && bios@ == boot.bios@ && kernel@ == config.direct->Some_0.kernel@ && initrd@
            == config.direct->Some_0.initrd@),
        config.is_direct_boot && config.direct is None ==> r == Err::<NvramFiles, GenerateError>(
            GenerateError::NoDirectBoot,
        ),
        !config.is_direct_boot && config.indirect is Some ==> (r matches Ok(
            NvramFiles::Indirect { qcow2 },
        ) && qcow2@ == config.indirect->Some_0.qcow2@),
        !config.is_direct_boot && config.indirect is None ==> r == Err::<
            NvramFiles,
            GenerateError,
        >(GenerateError::NoIndirectBoot),
{
}

/// The file that a run leaves behind is `OVMF_VARS.fd`, and tables without a name have a default.
pub proof fn law_file_names()
    ensures
        NVRAM_OUT@ == "OVMF_VARS.fd"@,
        DEFAULT_TABLES_NAME@ == "acpi_tables.bin"@,
{
}

/// A mount brings a file of the host to a place in the container.
pub proof fn law_mount(m: Mount, host: Seq<char>, container: Seq<char>)
    requires
        mounts_at(m, host, container),
    ensures
        m.host@ == host,
        m.container@ == container,
{
}

} // verus!
