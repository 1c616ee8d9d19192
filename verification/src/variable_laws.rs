//! What holds of the variables of a store, byte by byte and whatever their headers hold besides.
use vstd::prelude::*;

use crate::bytes::{aligned4, le16_at, le32_at, le32_bytes, lemma_le32_field};
use crate::nvram::{
    authenticated, authenticated_from, boot_name, boot_variables, candidate, collected,
    data_by_key, distinct_keys, end_of, entries_of, first_written, global_key, has_key,
    image_boot_variables, image_variables, is_listed, key_of, layout, lemma_first_written,
    listed_entries, sane_sizes, starts_at, store_at, store_from, var_at, vars_from,
    vars_region, vars_view, written_at, EfiVariable, NvramError, Variable, GLOBAL_VAR_GUID,
    VAR_STORE_GUID,
};
use crate::text::law_hex_digits;
use crate::utf16::decoded;

verus! {

/// The number that four bytes stand for, the low one first.
pub open spec fn number_at(s: Seq<u8>, off: int) -> int {
    s[off] + 256 * s[off + 1] + 65536 * s[off + 2] + 16777216 * s[off + 3]
}

/// The offsets of the name size, of the data size and of the GUID, and the length of a header.
pub open spec fn header_fields(auth: bool) -> (int, int, int, int) {
    if auth {
        (36, 40, 44, 60)
    } else {
        (8, 12, 16, 32)
    }
}

/// The name size that a header says.
pub open spec fn name_size(s: Seq<u8>, auth: bool) -> int {
    number_at(s, header_fields(auth).0)
}

/// The data size that a header says.
pub open spec fn data_size(s: Seq<u8>, auth: bool) -> int {
    number_at(s, header_fields(auth).1)
}

/// The length of a variable without padding.
pub open spec fn total_size(s: Seq<u8>, auth: bool) -> int {
    header_fields(auth).3 + name_size(s, auth) + data_size(s, auth)
}

/// Whether bytes begin with the two bytes that a variable begins with.
pub open spec fn begins_variable(s: Seq<u8>) -> bool {
    s.len() >= 2 && s[0] == 0xAA && s[1] == 0x55
}

/// Whether bytes begin with a whole header whose sizes a variable can have.
pub open spec fn has_header(s: Seq<u8>, auth: bool) -> bool {
    &&& begins_variable(s)
    &&& s.len() >= header_fields(auth).3
    &&& 0 < name_size(s, auth) <= 4096
    &&& name_size(s, auth) % 2 == 0
    &&& data_size(s, auth) <= 1048576
}

/// Whether `step` is the length of the variable that bytes begin with, up to where the next can
/// begin: a multiple of four, and the first.
pub open spec fn is_step(s: Seq<u8>, auth: bool, step: int) -> bool {
    step % 4 == 0 && total_size(s, auth) <= step < total_size(s, auth) + 4
}

proof fn lemma_shifted(s: Seq<u8>, auth: bool, i: int, j: int)
    requires
        0 <= i,
        0 <= j,
        i + j + layout(auth).3 <= s.len(),
    ensures
        ({
            let t = s.skip(i);
            let (ns_off, ds_off, _, _) = layout(auth);
            let ns = le32_at(s, i + j + ns_off);
            let ds = le32_at(s, i + j + ds_off);
            &&& le32_at(t, j + ns_off) == ns
            &&& le32_at(t, j + ds_off) == ds
            &&& candidate(t, auth, j) == candidate(s, auth, i + j)
            &&& sane_sizes(ns, ds) ==> var_at(t, auth, j, ns, ds) == var_at(s, auth, i + j, ns, ds)
            &&& written_at(t, auth, j) == written_at(s, auth, i + j)
        }),
{
    let t = s.skip(i);
    let (ns_off, ds_off, guid_off, hdr) = layout(auth);
    let ns = le32_at(s, i + j + ns_off);
    let ds = le32_at(s, i + j + ds_off);
    assert(le32_at(t, j + ns_off) == ns);
    assert(le32_at(t, j + ds_off) == ds);
    assert(ns >= 0 && ds >= 0);
    if i + j + hdr + ns <= s.len() {
        assert(t.subrange(j + hdr, j + hdr + ns) =~= s.subrange(i + j + hdr, i + j + hdr + ns));
    }
    assert(t.subrange(j + guid_off, j + guid_off + 16) =~= s.subrange(
        i + j + guid_off,
        i + j + guid_off + 16,
    ));
    if i + j + hdr + ns + ds <= s.len() {
        assert(t.subrange(j + hdr + ns, j + hdr + ns + ds) =~= s.subrange(
            i + j + hdr + ns,
            i + j + hdr + ns + ds,
        ));
    }
    assert(t[j + 2] == s[i + j + 2]);
}

proof fn lemma_vars_shifted(s: Seq<u8>, auth: bool, i: int, j: int)
    requires
        0 <= i <= s.len(),
        0 <= j,
    ensures
        vars_from(s, auth, i + j) == vars_from(s.skip(i), auth, j),
    decreases (if i + j <= s.len() { s.len() + 1 - (i + j) } else { 0 }),
{
    let t = s.skip(i);
    let (ns_off, ds_off, _, hdr) = layout(auth);
    if i + j < s.len() {
        assert(t[j] == s[i + j]);
        if s[i + j] != 0xFF {
            if i + j + 2 <= s.len() {
                assert(t[j + 1] == s[i + j + 1]);
            }
            assert(starts_at(t, j) == starts_at(s, i + j));
            if !starts_at(s, i + j) {
                lemma_vars_shifted(s, auth, i, j + 1);
            } else if i + j + hdr <= s.len() {
                lemma_shifted(s, auth, i, j);
                let ns = le32_at(s, i + j + ns_off);
                let ds = le32_at(s, i + j + ds_off);
                if !sane_sizes(ns, ds) {
                    lemma_vars_shifted(s, auth, i, j + 1);
                } else {
                    lemma_vars_shifted(s, auth, i, j + aligned4(hdr + ns + ds));
                }
            }
        }
    }
}

/// A walk ends where there are no more bytes, at an erased byte, and where a variable begins whose
/// header does not fit.
pub proof fn law_walk_ends(s: Seq<u8>, auth: bool)
    requires
        s.len() == 0 || s[0] == 0xFF || begins_variable(s) && s.len() < header_fields(auth).3,
    ensures
        vars_from(s, auth, 0) == Seq::<Variable>::empty(),
{
}

/// A byte with which no variable begins, and which is not erased, is passed over; so is one where
/// the sizes are not those of a variable.
pub proof fn law_walk_passes_over(s: Seq<u8>, auth: bool)
    requires
        s.len() > 0,
        s[0] != 0xFF,
        !begins_variable(s) || s.len() >= header_fields(auth).3 && !has_header(s, auth),
    ensures
        vars_from(s, auth, 0) == vars_from(s.skip(1), auth, 0),
{
    lemma_vars_shifted(s, auth, 1, 0);
}

/// A variable in a state other than fully written is passed over whole, whatever it holds, and so
/// is one whose name is no text.
pub proof fn law_walk_skips_variable(s: Seq<u8>, auth: bool, step: int)
    requires
        has_header(s, auth),
        is_step(s, auth, step),
        s[2] != 0x3F || total_size(s, auth) > s.len() || decoded(
            s.subrange(header_fields(auth).3, header_fields(auth).3 + name_size(s, auth)),
        ) is None,
    ensures
        step <= s.len() ==> vars_from(s, auth, 0) == vars_from(s.skip(step), auth, 0),
        step > s.len() ==> vars_from(s, auth, 0) == Seq::<Variable>::empty(),
{
    let ns = name_size(s, auth);
    let ds = data_size(s, auth);
    assert(step == aligned4(total_size(s, auth)));
    assert(var_at(s, auth, 0, ns, ds) =~= Seq::empty());
    if step <= s.len() {
        lemma_vars_shifted(s, auth, step, 0);
        assert(Seq::<Variable>::empty() + vars_from(s, auth, step) =~= vars_from(s, auth, step));
    } else {
        assert(vars_from(s, auth, step) =~= Seq::empty());
    }
}

/// A fully written variable that fits and whose name is text is given, with the GUID, the name and
/// the data that stand behind its header's fields, whatever else the header holds; the walk goes
/// on behind it.
pub proof fn law_walk_gives_variable(s: Seq<u8>, auth: bool, step: int)
    requires
        has_header(s, auth),
        is_step(s, auth, step),
        s[2] == 0x3F,
        total_size(s, auth) <= s.len(),
        decoded(
            s.subrange(header_fields(auth).3, header_fields(auth).3 + name_size(s, auth)),
        ) is Some,
    ensures
        ({
            let (_, _, guid, hdr) = header_fields(auth);
            let v = Variable {
                guid: s.subrange(guid, guid + 16),
                name: decoded(s.subrange(hdr, hdr + name_size(s, auth)))->Some_0,
                data: s.subrange(hdr + name_size(s, auth), total_size(s, auth)),
            };
            &&& step <= s.len() ==> vars_from(s, auth, 0) == seq![v] + vars_from(
                s.skip(step),
                auth,
                0,
            )
            &&& step > s.len() ==> vars_from(s, auth, 0) == seq![v]
        }),
{
    assert(step == aligned4(total_size(s, auth)));
    let v = var_at(s, auth, 0, name_size(s, auth), data_size(s, auth));
    if step <= s.len() {
        lemma_vars_shifted(s, auth, step, 0);
    } else {
        assert(vars_from(s, auth, step) =~= Seq::empty());
        assert(v + Seq::<Variable>::empty() =~= v);
    }
}

/// The bytes of a variable in any state: `reserved` and `filler` are whatever its header holds
/// between the state and the name size, such as the attributes, the monotonic count, the time and
/// the key's index.
pub open spec fn variable_bytes(
    state: u8,
    reserved: u8,
    filler: Seq<u8>,
    guid: Seq<u8>,
    name: Seq<u8>,
    data: Seq<u8>,
    pad: Seq<u8>,
) -> Seq<u8> {
    seq![0xAAu8, 0x55, state, reserved] + filler + le32_bytes(name.len() as int) + le32_bytes(
        data.len() as int,
    ) + guid + name + data + pad
}

/// A fully written variable is read back from its bytes, and what stands behind it is read as if
/// it stood alone, whatever the rest of the header and the padding hold.
pub proof fn law_variable_with_any_header(
    auth: bool,
    reserved: u8,
    filler: Seq<u8>,
    guid: Seq<u8>,
    name: Seq<u8>,
    data: Seq<u8>,
    pad: Seq<u8>,
    rest: Seq<u8>,
)
    requires
        filler.len() == header_fields(auth).0 - 4,
        guid.len() == 16,
        0 < name.len() <= 4096,
        name.len() % 2 == 0,
        decoded(name) is Some,
        data.len() <= 1048576,
        pad.len() < 4,
        (name.len() + data.len() + pad.len()) % 4 == 0,
    ensures
        vars_from(
            variable_bytes(0x3F, reserved, filler, guid, name, data, pad) + rest,
            auth,
            0,
        ) == seq![Variable { guid, name: decoded(name)->Some_0, data }] + vars_from(rest, auth, 0),
{
    let r = variable_bytes(0x3F, reserved, filler, guid, name, data, pad);
    let s = r + rest;
    lemma_variable_bytes(auth, 0x3F, reserved, filler, guid, name, data, pad, rest);
    law_walk_gives_variable(s, auth, r.len() as int);
    assert(s.skip(r.len() as int) =~= rest);
}

/// A variable that is not fully written is passed over, whatever it holds.
pub proof fn law_other_states_are_passed_over(
    auth: bool,
    state: u8,
    reserved: u8,
    filler: Seq<u8>,
    guid: Seq<u8>,
    name: Seq<u8>,
    data: Seq<u8>,
    pad: Seq<u8>,
    rest: Seq<u8>,
)
    requires
        state != 0x3F,
        filler.len() == header_fields(auth).0 - 4,
        guid.len() == 16,
        0 < name.len() <= 4096,
        name.len() % 2 == 0,
        data.len() <= 1048576,
        pad.len() < 4,
        (name.len() + data.len() + pad.len()) % 4 == 0,
    ensures
        vars_from(
            variable_bytes(state, reserved, filler, guid, name, data, pad) + rest,
            auth,
            0,
        ) == vars_from(rest, auth, 0),
{
    let r = variable_bytes(state, reserved, filler, guid, name, data, pad);
    let s = r + rest;
    lemma_variable_bytes(auth, state, reserved, filler, guid, name, data, pad, rest);
    law_walk_skips_variable(s, auth, r.len() as int);
    assert(s.skip(r.len() as int) =~= rest);
}

proof fn lemma_variable_bytes(
    auth: bool,
    state: u8,
    reserved: u8,
    filler: Seq<u8>,
    guid: Seq<u8>,
    name: Seq<u8>,
    data: Seq<u8>,
    pad: Seq<u8>,
    rest: Seq<u8>,
)
    requires
        filler.len() == header_fields(auth).0 - 4,
        guid.len() == 16,
        0 < name.len() <= 4096,
        name.len() % 2 == 0,
        data.len() <= 1048576,
        pad.len() < 4,
        (name.len() + data.len() + pad.len()) % 4 == 0,
    ensures
        ({
            let r = variable_bytes(state, reserved, filler, guid, name, data, pad);
            let s = r + rest;
            let (_, _, g, hdr) = header_fields(auth);
            &&& has_header(s, auth)
            &&& s[2] == state
            &&& is_step(s, auth, r.len() as int)
            &&& name_size(s, auth) == name.len()
            &&& data_size(s, auth) == data.len()
            &&& s.subrange(g, g + 16) == guid
            &&& s.subrange(hdr, hdr + name.len()) == name
            &&& s.subrange(hdr + name.len(), hdr + name.len() + data.len()) == data
        }),
{
    let r = variable_bytes(state, reserved, filler, guid, name, data, pad);
    let s = r + rest;
    let (ns_off, ds_off, g, hdr) = header_fields(auth);
    assert(s.subrange(ns_off, ns_off + 4) =~= le32_bytes(name.len() as int));
    assert(s.subrange(ds_off, ds_off + 4) =~= le32_bytes(data.len() as int));
    lemma_le32_field(s, ns_off, name.len() as u32);
    lemma_le32_field(s, ds_off, data.len() as u32);
    assert(s.subrange(g, g + 16) =~= guid);
    assert(s.subrange(hdr, hdr + name.len()) =~= name);
    assert(s.subrange(hdr + name.len(), hdr + name.len() + data.len()) =~= data);
    assert(s[0] == 0xAA && s[1] == 0x55 && s[2] == state);
}

/// Whether bytes begin with a variable that looks valid: its header and its name fit, the sizes are
/// small, and the name is text.
pub open spec fn looks_valid(s: Seq<u8>, auth: bool) -> bool {
    let hdr = header_fields(auth).3;
    &&& begins_variable(s)
    &&& s.len() >= hdr
    &&& 0 < name_size(s, auth) <= 512
    &&& name_size(s, auth) % 2 == 0
    &&& data_size(s, auth) < 262144
    &&& hdr + name_size(s, auth) <= s.len()
    &&& decoded(s.subrange(hdr, hdr + name_size(s, auth))) is Some
}

/// Whether bytes begin with a variable that can be read.
pub open spec fn can_be_read(s: Seq<u8>, auth: bool) -> bool {
    let hdr = header_fields(auth).3;
    &&& has_header(s, auth)
    &&& total_size(s, auth) <= s.len()
    &&& decoded(s.subrange(hdr, hdr + name_size(s, auth))) is Some
}

/// Whether bytes begin with a fully written variable.
pub open spec fn is_fully_written(s: Seq<u8>, auth: bool) -> bool {
    s.len() >= 3 && s[2] == 0x3F && (looks_valid(s, auth) || can_be_read(s, auth))
}

proof fn lemma_first_shifted(s: Seq<u8>, auth: bool, i: int, j: int)
    requires
        0 <= i <= s.len(),
        0 <= j,
    ensures
        first_written(s, auth, i + j) == shifted(first_written(s.skip(i), auth, j), i),
    decreases (if i + j <= s.len() { s.len() + 1 - (i + j) } else { 0 }),
{
    let t = s.skip(i);
    let (ns_off, ds_off, _, hdr) = layout(auth);
    if i + j < s.len() {
        assert(t[j] == s[i + j]);
        if s[i + j] != 0xFF {
            if i + j + 2 <= s.len() {
                assert(t[j + 1] == s[i + j + 1]);
            }
            assert(starts_at(t, j) == starts_at(s, i + j));
            if !starts_at(s, i + j) {
                lemma_first_shifted(s, auth, i, j + 1);
            } else if i + j + hdr <= s.len() {
                lemma_shifted(s, auth, i, j);
                let ns = le32_at(s, i + j + ns_off);
                let ds = le32_at(s, i + j + ds_off);
                if !written_at(s, auth, i + j) {
                    if !sane_sizes(ns, ds) {
                        lemma_first_shifted(s, auth, i, j + 1);
                    } else {
                        lemma_first_shifted(s, auth, i, j + aligned4(hdr + ns + ds));
                    }
                }
            }
        }
    }
}

/// A place that was counted from `i` on.
pub open spec fn shifted(p: Option<int>, i: int) -> Option<int> {
    match p {
        Some(p) => Some(i + p),
        None => None,
    }
}

proof fn lemma_written_here(s: Seq<u8>, auth: bool)
    requires
        begins_variable(s),
        s.len() >= header_fields(auth).3,
    ensures
        written_at(s, auth, 0) == is_fully_written(s, auth),
        candidate(s, auth, 0) == looks_valid(s, auth),
{
    let ns = name_size(s, auth);
    let ds = data_size(s, auth);
    assert(ns == le32_at(s, layout(auth).0 as int));
    assert(ds == le32_at(s, layout(auth).1 as int));
}

/// Looking for the first fully written variable in a layout: there is none where the walk ends; it
/// is here where bytes begin with one; else it is looked for behind the byte or the whole variable
/// that is passed over.
pub proof fn law_first_written_place(s: Seq<u8>, auth: bool, step: int)
    ensures
        s.len() == 0 || s[0] == 0xFF || begins_variable(s) && s.len() < header_fields(auth).3
            ==> first_written(s, auth, 0) is None,
        begins_variable(s) && is_fully_written(s, auth) ==> first_written(s, auth, 0) == Some(0int),
        s.len() > 0 && s[0] != 0xFF && (!begins_variable(s) || s.len() >= header_fields(auth).3
            && !is_fully_written(s, auth) && !has_header(s, auth)) ==> first_written(s, auth, 0)
            == shifted(first_written(s.skip(1), auth, 0), 1),
        has_header(s, auth) && !is_fully_written(s, auth) && is_step(s, auth, step) && step
            <= s.len() ==> first_written(s, auth, 0) == shifted(
            first_written(s.skip(step), auth, 0),
            step,
        ),
        has_header(s, auth) && !is_fully_written(s, auth) && is_step(s, auth, step) && step
            > s.len() ==> first_written(s, auth, 0) is None,
{
    if s.len() > 0 {
        lemma_first_shifted(s, auth, 1, 0);
    }
    if begins_variable(s) && s.len() >= header_fields(auth).3 {
        lemma_written_here(s, auth);
    }
    if has_header(s, auth) && is_step(s, auth, step) {
        assert(step == aligned4(total_size(s, auth)));
        if step <= s.len() {
            lemma_first_shifted(s, auth, step, 0);
        } else {
            assert(first_written(s, auth, step) is None);
        }
    }
}

proof fn lemma_authenticated_shifted(s: Seq<u8>, i: int, j: int)
    requires
        0 <= i <= s.len(),
        0 <= j,
    ensures
        authenticated_from(s, i + j) == authenticated_from(s.skip(i), j),
    decreases (if i + j <= s.len() { s.len() + 1 - (i + j) } else { 0 }),
{
    let t = s.skip(i);
    lemma_first_shifted(s, true, i, j);
    lemma_first_shifted(s, false, i, j);
    lemma_first_written(t, false, j);
    lemma_first_written(s, false, i + j);
    if let Some(q) = first_written(t, false, j) {
        lemma_shifted(s, false, i, q);
        if i + q + 60 <= s.len() {
            lemma_shifted(s, true, i, q);
        }
        assert(candidate(t, true, q) == candidate(s, true, i + q));
        assert(written_at(t, true, q) == written_at(s, true, i + q));
        let ns = le32_at(s, i + q + 8);
        let ds = le32_at(s, i + q + 12);
        lemma_authenticated_shifted(s, i, q + aligned4(32 + ns + ds));
    }
}

/// The first fully written variable of either layout tells the layout, whatever its header holds
/// besides: authenticated where one stands before any plain one; at the place of a plain one,
/// authenticated where such a variable looks valid there, plain where only the plain one does,
/// authenticated where such a variable can be read at all; else the plain one is too long to tell
/// and is passed over. Where there is no plain one, headers are authenticated.
pub proof fn law_first_variable_tells(s: Seq<u8>, step: int)
    ensures
        first_written(s, false, 0) is None ==> authenticated(s),
        first_written(s, false, 0) matches Some(p) ==> {
            let here = s.skip(p);
            let a = first_written(s, true, 0);
            &&& a is Some && a->Some_0 < p ==> authenticated(s)
            &&& !(a is Some && a->Some_0 < p) ==> {
                &&& looks_valid(here, true) ==> authenticated(s)
                &&& !looks_valid(here, true) && looks_valid(here, false) ==> !authenticated(s)
                &&& !looks_valid(here, true) && !looks_valid(here, false) && can_be_read(here, true)
                    ==> authenticated(s)
                &&& !looks_valid(here, true) && !looks_valid(here, false) && !can_be_read(here, true)
                    && is_step(here, false, step) ==> authenticated(s) == (if step <= here.len() {
                    authenticated(here.skip(step))
                } else {
                    true
                })
            }
        },
{
    if let Some(p) = first_written(s, false, 0) {
        let here = s.skip(p);
        lemma_first_written(s, false, 0);
        lemma_shifted(s, false, p, 0);
        assert(here[0] == s[p] && here[1] == s[p + 1] && here[2] == s[p + 2]);
        lemma_written_here(here, false);
        if p + 60 <= s.len() {
            lemma_shifted(s, true, p, 0);
            lemma_written_here(here, true);
        }
        assert(candidate(s, true, p) == looks_valid(here, true));
        assert(written_at(s, true, p) == is_fully_written(here, true));
        if is_step(here, false, step) {
            assert(end_of(s, false, p) == p + step);
            if step <= here.len() {
                lemma_authenticated_shifted(s, p + step, 0);
                assert(s.skip(p + step) =~= here.skip(step));
            } else {
                assert(authenticated_from(s, p + step));
            }
        }
    }
}

/// A store that begins with a fully written authenticated variable that looks valid has
/// authenticated headers; one that begins with a fully written variable that looks valid as a
/// plain one and not as an authenticated one has plain headers.
pub proof fn law_leading_variable_tells(s: Seq<u8>)
    requires
        s.len() >= 3,
        s[2] == 0x3F,
    ensures
        looks_valid(s, true) ==> authenticated(s),
        !looks_valid(s, true) && looks_valid(s, false) ==> !authenticated(s),
{
    if looks_valid(s, true) || looks_valid(s, false) {
        law_first_written_place(s, true, 0);
        law_first_written_place(s, false, 0);
        law_first_variable_tells(s, 0);
        lemma_first_written(s, false, 0);
        lemma_first_written(s, true, 0);
        assert(s.skip(0) =~= s);
    }
}

/// The bytes with which a variable store begins.
pub open spec fn store_guid() -> Seq<u8> {
    seq![
        0x78u8, 0x2c, 0xf3, 0xaa, 0x7b, 0x94, 0x9a, 0x43, 0xa1, 0x80, 0x2e, 0x14, 0x4e, 0xc3, 0x77,
        0x92,
    ]
}

/// Whether the bytes of a store begin at `p`, and at no place before.
pub open spec fn is_first_store(raw: Seq<u8>, p: int) -> bool {
    &&& 0 <= p <= raw.len() - 16
    &&& raw.subrange(p, p + 16) == store_guid()
    &&& forall|q: int| 0 <= q < p ==> #[trigger] raw.subrange(q, q + 16) != store_guid()
}

proof fn lemma_store_from_first(raw: Seq<u8>, p: int, q: int)
    requires
        is_first_store(raw, p),
        0 <= q <= p,
    ensures
        store_from(raw, q) == Some(p),
    decreases p - q,
{
    assert(VAR_STORE_GUID@ =~= store_guid());
    if q < p {
        assert(raw.subrange(q, q + 16) != store_guid());
        lemma_store_from_first(raw, p, q + 1);
    }
}

proof fn lemma_no_store(raw: Seq<u8>, q: int)
    requires
        forall|q: int|
            0 <= q <= raw.len() - 16 ==> #[trigger] raw.subrange(q, q + 16) != store_guid(),
    ensures
        store_from(raw, q) is None,
    decreases raw.len() - q,
{
    assert(VAR_STORE_GUID@ =~= store_guid());
    if q >= 0 && q + 16 <= raw.len() {
        assert(raw.subrange(q, q + 16) != store_guid());
        lemma_no_store(raw, q + 1);
    }
}

/// The store is found at its first place, and nowhere where there is none.
pub proof fn law_store_place(raw: Seq<u8>, p: int)
    ensures
        is_first_store(raw, p) ==> store_from(raw, 0) == Some(p) && store_at(raw, p),
        (forall|q: int|
            0 <= q <= raw.len() - 16 ==> #[trigger] raw.subrange(q, q + 16) != store_guid())
            ==> store_from(raw, 0) is None,
{
    assert(VAR_STORE_GUID@ =~= store_guid());
    if is_first_store(raw, p) {
        lemma_store_from_first(raw, p, 0);
    }
    if forall|q: int|
        0 <= q <= raw.len() - 16 ==> #[trigger] raw.subrange(q, q + 16) != store_guid() {
        lemma_no_store(raw, 0);
    }
}

/// The place of each field in a header is that of its layout.
pub proof fn law_layout(auth: bool)
    ensures
        auth ==> layout(auth) == (36usize, 40usize, 44usize, 60usize),
        !auth ==> layout(auth) == (8usize, 12usize, 16usize, 32usize),
{
}

/// An image without a store is told so.
pub proof fn law_image_without_store(raw: Seq<u8>)
    requires
        forall|q: int|
            0 <= q <= raw.len() - 16 ==> #[trigger] raw.subrange(q, q + 16) != store_guid(),
    ensures
        vars_region(raw) == Err::<Seq<u8>, NvramError>(NvramError::StoreNotFound),
{
    lemma_no_store(raw, 0);
}

/// The variables of an image stand in its first store, behind the 28 bytes of the store's header
/// and up to the size that it says or the image's end, whatever the header's reserved bytes hold.
/// A store that is not formatted, not healthy or without room is told, in this order; a byte that
/// the image is too short for counts as zero.
pub proof fn law_region_of_store(raw: Seq<u8>, p: int)
    requires
        is_first_store(raw, p),
    ensures
        ({
            let format = if raw.len() > p + 20 {
                raw[p + 20]
            } else {
                0
            };
            let state = if raw.len() > p + 21 {
                raw[p + 21]
            } else {
                0
            };
            let size = number_at(raw, p + 16);
            let end = if p + size <= raw.len() {
                p + size
            } else {
                raw.len() as int
            };
            if format != 0x5A {
                vars_region(raw) == Err::<Seq<u8>, NvramError>(NvramError::NotFormatted(format))
            } else if state != 0xFE {
                vars_region(raw) == Err::<Seq<u8>, NvramError>(NvramError::NotHealthy(state))
            } else if end <= p + 28 {
                vars_region(raw) == Err::<Seq<u8>, NvramError>(NvramError::NoSpace)
            } else {
                vars_region(raw) == Ok::<Seq<u8>, NvramError>(raw.subrange(p + 28, end))
            }
        }),
{
    lemma_store_from_first(raw, p, 0);
}

/// The variables of an image are those of its region, walked with the layout that the region
/// tells; that there are none is an error.
pub proof fn law_variables_of_region(raw: Seq<u8>)
    ensures
        match vars_region(raw) {
            Err(e) => image_variables(raw) == Err::<Seq<Variable>, NvramError>(e),
            Ok(region) => if vars_from(region, authenticated(region), 0).len() == 0 {
                image_variables(raw) == Err::<Seq<Variable>, NvramError>(NvramError::NoVariables)
            } else {
                image_variables(raw) == Ok::<Seq<Variable>, NvramError>(
                    vars_from(region, authenticated(region), 0),
                )
            },
        },
{
}

/// The vendor GUID of boot variables.
pub open spec fn boot_guid() -> Seq<u8> {
    seq![
        0x61u8, 0xdf, 0xe4, 0x8b, 0xca, 0x93, 0xd2, 0x11, 0xaa, 0x0d, 0x00, 0xe0, 0x98, 0x03, 0x2b,
        0x8c,
    ]
}

/// The key of the boot entry with number `n`: `Boot` and four upper-case hexadecimal digits.
pub open spec fn entry_key(n: u16) -> (Seq<u8>, Seq<char>) {
    let digits = "0123456789ABCDEF"@;
    (
        boot_guid(),
        "Boot"@ + seq![
            digits[n as int / 4096],
            digits[n as int / 256 % 16],
            digits[n as int / 16 % 16],
            digits[n as int % 16],
        ],
    )
}

/// Whether the number `n` stands in a boot order, as two bytes with the low one first.
pub open spec fn order_lists(order: Seq<u8>, n: u16) -> bool {
    exists|i: int|
        0 <= i < order.len() && i % 2 == 0 && #[trigger] order[i] + 256 * order[i + 1] == n
}

proof fn lemma_entry_key(n: u16)
    ensures
        global_key(boot_name(n)) == entry_key(n),
{
    let a = n as int / 4096;
    let b = n as int / 256 % 16;
    let c = n as int / 16 % 16;
    let d = n as int % 16;
    assert(n as int == 4096 * a + 256 * b + 16 * c + d);
    law_hex_digits(a, b, c, d);
    assert(GLOBAL_VAR_GUID@ =~= boot_guid());
}

proof fn lemma_order_lists(order: Seq<u8>, n: u16)
    requires
        order.len() % 2 == 0,
    ensures
        is_listed(order, n) == order_lists(order, n),
{
    if is_listed(order, n) {
        let i = choose|i: int| 0 <= i < order.len() / 2 && #[trigger] le16_at(order, 2 * i) == n;
        assert(order[2 * i] + 256 * order[2 * i + 1] == n);
    }
    if order_lists(order, n) {
        let i = choose|i: int|
            0 <= i < order.len() && i % 2 == 0 && #[trigger] order[i] + 256 * order[i + 1] == n;
        assert(le16_at(order, 2 * (i / 2)) == n);
    }
}

/// Of variables by vendor GUID and name, the boot order is the global variable `BootOrder`, whole;
/// with it come exactly the entries that it lists and that are there, each with its whole data.
/// That there is no boot order, or that it is no list of whole numbers, is an error.
pub proof fn law_boot_variables(vars: Map<(Seq<u8>, Seq<char>), Seq<u8>>, n: u16)
    ensures
        ({
            let key = (boot_guid(), "BootOrder"@);
            let order = vars[key];
            let r = boot_variables(vars);
            if !vars.contains_key(key) {
                r == Err::<(Seq<u8>, Map<u16, Seq<u8>>), NvramError>(NvramError::NoBootOrder)
            } else if order.len() % 2 == 1 {
                r == Err::<(Seq<u8>, Map<u16, Seq<u8>>), NvramError>(
                    NvramError::OddBootOrder(order.len() as usize),
                )
            } else {
                r matches Ok((o, entries)) && o == order && (entries.contains_key(n) <==>
                    order_lists(order, n) && vars.contains_key(entry_key(n))) && (
                entries.contains_key(n) ==> entries[n] == vars[entry_key(n)])
            }
        }),
{
    assert(GLOBAL_VAR_GUID@ =~= boot_guid());
    let key = (boot_guid(), "BootOrder"@);
    assert(global_key("BootOrder"@) == key);
    lemma_entry_key(n);
    if vars.contains_key(key) && vars[key].len() % 2 == 0 {
        lemma_order_lists(vars[key], n);
        assert(listed_entries(vars, vars[key]).contains_key(n) <==> is_listed(vars[key], n)
            && vars.contains_key(global_key(boot_name(n))));
    }
}

/// The boot variables of an image are those among its variables.
pub proof fn law_boot_variables_of_image(raw: Seq<u8>)
    ensures
        match image_variables(raw) {
            Ok(list) => image_boot_variables(raw) == boot_variables(collected(list)),
            Err(e) => image_boot_variables(raw) == Err::<(Seq<u8>, Map<u16, Seq<u8>>), NvramError>(
                e,
            ),
        },
{
}

/// What is handed out holds what was found: the parsed variables one for one, the entries under
/// their numbers, and the data under its key.
pub proof fn law_views(
    list: Seq<([u8; 16], String, Vec<u8>)>,
    map: Map<u16, Vec<u8>>,
    entries: Seq<EfiVariable>,
    i: int,
    n: u16,
)
    ensures
        vars_view(list).len() == list.len(),
        0 <= i < list.len() ==> vars_view(list)[i] == (Variable {
            guid: list[i].0@,
            name: list[i].1@,
            data: list[i].2@,
        }),
        entries_of(map).contains_key(n) <==> map.contains_key(n),
        map.contains_key(n) ==> entries_of(map)[n] == map[n]@,
        distinct_keys(entries) && 0 <= i < entries.len() ==> data_by_key(
            entries,
        ).contains_key((entries[i].guid@, entries[i].name@)) && data_by_key(
            entries,
        )[(entries[i].guid@, entries[i].name@)] == entries[i].data@,
{
    if distinct_keys(entries) && 0 <= i < entries.len() {
        let k = key_of(entries[i]);
        assert(has_key(entries, k));
        let j = choose|j: int| 0 <= j < entries.len() && key_of(#[trigger] entries[j]) == k;
        assert(j == i);
    }
}

/// Two entries with distinct keys differ in their GUID or their name.
pub proof fn law_distinct_keys(entries: Seq<EfiVariable>, i: int, j: int)
    requires
        distinct_keys(entries),
        0 <= i < entries.len(),
        0 <= j < entries.len(),
        i != j,
    ensures
        entries[i].guid@ != entries[j].guid@ || entries[i].name@ != entries[j].name@,
{
    assert(key_of(entries[i]) != key_of(entries[j]));
}

/// Nothing is found but what an entry holds.
pub proof fn law_found_is_an_entry(entries: Seq<EfiVariable>, k: (Seq<u8>, Seq<char>))
    requires
        data_by_key(entries).contains_key(k),
    ensures
        exists|i: int|
            0 <= i < entries.len() && ((#[trigger] entries[i]).guid@, entries[i].name@) == k,
{
    let i = choose|i: int| 0 <= i < entries.len() && key_of(#[trigger] entries[i]) == k;
    assert((entries[i].guid@, entries[i].name@) == k);
}

} // verus!
