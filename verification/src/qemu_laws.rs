//! What holds of the command lines of QEMU as a whole.
use vstd::prelude::*;

use crate::qemu::{
    begins_with_any, disk_id, drive_of, first_drive, host_backed_device, kept_devices,
    kept_objects, kept_params, nvram_head, nvram_machine, nvram_qemu_args, stripped, tdx_object,
    QemuShape,
};
use crate::text::{join_with, law_join_of_split, law_split_of_join, law_split_parts, split_on};

verus! {

proof fn lemma_filter_member(s: Seq<Seq<char>>, keep: spec_fn(Seq<char>) -> bool, x: Seq<char>)
    ensures
        s.filter(keep).contains(x) <==> s.contains(x) && keep(x),
{
    let kept = s.filter(keep);
    if kept.contains(x) {
        let i = choose|i: int| 0 <= i < kept.len() && kept[i] == x;
        s.lemma_filter_pred(keep, i);
        s.lemma_filter_contains_rev(keep, x);
    }
    if s.contains(x) && keep(x) {
        let i = choose|i: int| 0 <= i < s.len() && s[i] == x;
        s.lemma_filter_contains(keep, i);
    }
}

proof fn lemma_kept_params(machine: Seq<char>, prefixes: Seq<Seq<char>>)
    ensures
        forall|i: int|
            0 <= i < kept_params(machine, prefixes).len() ==> {
                &&& !begins_with_any(#[trigger] kept_params(machine, prefixes)[i], prefixes)
                &&& !kept_params(machine, prefixes)[i].contains(',')
                &&& split_on(machine, ',').contains(kept_params(machine, prefixes)[i])
            },
{
    let keep = |part: Seq<char>| !begins_with_any(part, prefixes);
    let parts = split_on(machine, ',');
    law_split_parts(machine, ',');
    assert forall|i: int| 0 <= i < kept_params(machine, prefixes).len() implies {
        &&& !begins_with_any(#[trigger] kept_params(machine, prefixes)[i], prefixes)
        &&& !kept_params(machine, prefixes)[i].contains(',')
        &&& parts.contains(kept_params(machine, prefixes)[i])
    } by {
        let part = parts.filter(keep)[i];
        lemma_filter_member(parts, keep, part);
        let j = choose|j: int| 0 <= j < parts.len() && parts[j] == part;
        assert(!parts[j].contains(','));
    }
}

/// What is left of a machine option are the parameters that begin with none of the prefixes: where
/// one is kept at all, splitting the result gives the kept ones and no others.
pub proof fn law_stripped_params(machine: Seq<char>, prefixes: Seq<Seq<char>>)
    ensures
        kept_params(machine, prefixes).len() > 0 ==> split_on(stripped(machine, prefixes), ',')
            == kept_params(machine, prefixes),
        kept_params(machine, prefixes).len() == 0 ==> stripped(machine, prefixes).len() == 0,
        forall|i: int|
            0 <= i < kept_params(machine, prefixes).len() ==> !begins_with_any(
                #[trigger] kept_params(machine, prefixes)[i],
                prefixes,
            ),
{
    lemma_kept_params(machine, prefixes);
    let kept = kept_params(machine, prefixes);
    if kept.len() > 0 {
        law_split_of_join(kept, ',');
    }
}

proof fn lemma_filter_all(s: Seq<Seq<char>>, keep: spec_fn(Seq<char>) -> bool)
    requires
        forall|i: int| 0 <= i < s.len() ==> keep(#[trigger] s[i]),
    ensures
        s.filter(keep) == s,
    decreases s.len(),
{
    reveal(Seq::filter);
    if s.len() > 0 {
        let front = s.drop_last();
        assert forall|i: int| 0 <= i < front.len() implies keep(#[trigger] front[i]) by {
            assert(front[i] == s[i]);
        }
        lemma_filter_all(front, keep);
        assert(keep(s[s.len() - 1]));
        assert(front.push(s.last()) =~= s);
    }
}

/// A machine option in which no parameter begins with a prefix stays as it is.
pub proof fn law_strip_nothing(machine: Seq<char>, prefixes: Seq<Seq<char>>)
    requires
        forall|i: int|
            0 <= i < split_on(machine, ',').len() ==> !begins_with_any(
                #[trigger] split_on(machine, ',')[i],
                prefixes,
            ),
    ensures
        stripped(machine, prefixes) == machine,
{
    let keep = |part: Seq<char>| !begins_with_any(part, prefixes);
    lemma_filter_all(split_on(machine, ','), keep);
    law_join_of_split(machine, ',');
}

/// Stripping a second time changes nothing.
pub proof fn law_strip_twice(machine: Seq<char>, prefixes: Seq<Seq<char>>)
    ensures
        stripped(stripped(machine, prefixes), prefixes) == stripped(machine, prefixes),
{
    law_stripped_params(machine, prefixes);
    let once = stripped(machine, prefixes);
    let keep = |part: Seq<char>| !begins_with_any(part, prefixes);
    if kept_params(machine, prefixes).len() > 0 {
        law_strip_nothing(once, prefixes);
    } else {
        assert(once =~= Seq::empty());
        assert(split_on(once, ',') =~= seq![Seq::<char>::empty()]);
        law_stripped_params(once, prefixes);
        let again = kept_params(once, prefixes);
        split_on(once, ',').lemma_filter_len(keep);
        if again.len() > 0 {
            lemma_kept_params(once, prefixes);
            assert(again[0] =~= Seq::empty()) by {
                assert(split_on(once, ',').contains(again[0]));
            }
            assert(again =~= seq![Seq::<char>::empty()]);
            assert(join_with(again, ',') =~= once);
        }
    }
}

/// The objects that are left for populating NVRAM are those that are not of a confidential guest,
/// all of them.
pub proof fn law_kept_objects(objects: Seq<Seq<char>>, o: Seq<char>)
    ensures
        kept_objects(objects).contains(o) <==> objects.contains(o) && !tdx_object(o),
{
    lemma_filter_member(objects, |o: Seq<char>| !tdx_object(o), o);
}

/// The devices that are left for populating NVRAM are those that need nothing of the host, all of
/// them.
pub proof fn law_kept_devices(devices: Seq<Seq<char>>, d: Seq<char>)
    ensures
        kept_devices(devices).contains(d) <==> devices.contains(d) && !host_backed_device(d),
{
    lemma_filter_member(devices, |d: Seq<char>| !host_backed_device(d), d);
}

/// Whether a device has the parameter `drive=` with the identifier `id`.
pub open spec fn refers_to(device: Seq<char>, id: Seq<char>) -> bool {
    split_on(device, ',').contains("drive="@ + id)
}

proof fn lemma_first_drive(parts: Seq<Seq<char>>, id: Seq<char>)
    ensures
        first_drive(parts) == Some(id) ==> parts.contains("drive="@ + id),
        parts.contains("drive="@ + id) ==> first_drive(parts) is Some,
    decreases parts.len(),
{
    if parts.len() > 0 {
        let rest = parts.drop_first();
        lemma_first_drive(rest, id);
        let p = "drive="@ + id;
        assert("drive="@.is_prefix_of(p)) by {
            assert(p.subrange(0, "drive="@.len() as int) =~= "drive="@);
        }
        if drive_of(parts[0]) == Some(id) {
            assert(parts[0] =~= p);
        }
        if rest.contains(p) {
            let i = choose|i: int| 0 <= i < rest.len() && rest[i] == p;
            assert(parts[i + 1] == p);
        }
        if parts.contains(p) && parts[0] != p {
            let i = choose|i: int| 0 <= i < parts.len() && parts[i] == p;
            assert(rest[i - 1] == p);
        }
    }
}

/// The disk is added under an identifier that a device refers to, if any device refers to a drive.
pub proof fn law_disk_has_a_device(devices: Seq<Seq<char>>, k: int, id: Seq<char>)
    requires
        0 <= k < devices.len(),
        refers_to(devices[k], id),
    ensures
        exists|i: int|
            0 <= i < devices.len() && refers_to(#[trigger] devices[i], disk_id(devices)),
    decreases devices.len(),
{
    let parts = split_on(devices[0], ',');
    lemma_first_drive(parts, disk_id(devices));
    lemma_first_drive(parts, id);
    if first_drive(parts) is None {
        let rest = devices.drop_first();
        assert(rest[k - 1] == devices[k]);
        law_disk_has_a_device(rest, k - 1, id);
        let i = choose|i: int|
            0 <= i < rest.len() && refers_to(#[trigger] rest[i], disk_id(rest));
        assert(devices[i + 1] == rest[i]);
    } else {
        assert(refers_to(devices[0], disk_id(devices)));
    }
}

/// A command line that populates NVRAM begins with the word that selects this mode.
pub proof fn law_nvram_mode_first(
    qemu: Option<&QemuShape>,
    memory: Seq<char>,
    use_kvm: bool,
    direct_boot: bool,
    cmdline: Seq<char>,
)
    ensures
        nvram_qemu_args(qemu, memory, use_kvm, direct_boot, cmdline).len() > 0,
        nvram_qemu_args(qemu, memory, use_kvm, direct_boot, cmdline)[0] == "nvram"@,
{
    assert(nvram_head(memory, use_kvm, direct_boot)[0] == "nvram"@);
}

/// After stripping, no parameter begins with one of the prefixes that is not empty.
pub proof fn law_no_part_begins(machine: Seq<char>, prefixes: Seq<Seq<char>>, j: int, i: int)
    requires
        0 <= j < prefixes.len(),
        prefixes[j].len() > 0,
        0 <= i < split_on(stripped(machine, prefixes), ',').len(),
    ensures
        !prefixes[j].is_prefix_of(split_on(stripped(machine, prefixes), ',')[i]),
{
    law_stripped_params(machine, prefixes);
}

/// No parameter of the machine option for populating NVRAM asks for confidential-guest support, or
/// for the interrupt chip of KVM where KVM is not used.
pub proof fn law_nvram_machine(machine: Seq<char>, use_kvm: bool, i: int)
    requires
        0 <= i < split_on(nvram_machine(machine, use_kvm), ',').len(),
    ensures
        ({
            let part = split_on(nvram_machine(machine, use_kvm), ',')[i];
            &&& !"confidential-guest-support"@.is_prefix_of(part)
            &&& !use_kvm ==> !"kernel-irqchip"@.is_prefix_of(part)
        }),
{
    let a = seq!["confidential-guest-support"@];
    let b = seq!["kernel-irqchip"@];
    let plain = stripped(machine, a);
    reveal_strlit("confidential-guest-support");
    reveal_strlit("kernel-irqchip");
    if use_kvm {
        law_no_part_begins(machine, a, 0, i);
    } else {
        law_no_part_begins(plain, b, 0, i);
        law_stripped_params(plain, b);
        let part = split_on(stripped(plain, b), ',')[i];
        if kept_params(plain, b).len() > 0 {
            lemma_kept_params(plain, b);
            let before = split_on(plain, ',');
            let j = choose|j: int| 0 <= j < before.len() && before[j] == part;
            law_no_part_begins(machine, a, 0, j);
        } else {
            assert(part.len() == 0);
        }
    }
}

} // verus!
