//! The EFI variable store of an OVMF image (OVMF_VARS.fd) and the boot variables in it.
//!
//! OVMF keeps EFI variables in a firmware volume whose payload is a variable store. A variable has
//! one of two header layouts: plain, of 32 bytes, or authenticated, of 60 bytes, which is OVMF's
//! default. Which of them a store uses is told from the first fully written variable in it.
use std::collections::HashMap;

use vstd::prelude::*;

use crate::bytes::{align4, aligned4, le16_at, le32_at, same_bytes, u16_le, u32_at};
use crate::text::{append_hex4, hex4, same_text};
use crate::utf16::{decode_utf16, decoded};

verus! {

broadcast use vstd::std_specs::hash::group_hash_axioms;

/// The GUID that a variable store begins with: aaf32c78-947b-439a-a180-2e144ec37792, with its
/// first three fields little-endian.
pub const VAR_STORE_GUID: [u8; 16] = [
    0x78, 0x2c, 0xf3, 0xaa, 0x7b, 0x94, 0x9a, 0x43, 0xa1, 0x80, 0x2e, 0x14, 0x4e, 0xc3, 0x77, 0x92,
];

/// The vendor GUID of the global variables, such as the boot variables:
/// 8be4df61-93ca-11d2-aa0d-00e098032b8c.
pub const GLOBAL_VAR_GUID: [u8; 16] = [
    0x61, 0xdf, 0xe4, 0x8b, 0xca, 0x93, 0xd2, 0x11, 0xaa, 0x0d, 0x00, 0xe0, 0x98, 0x03, 0x2b, 0x8c,
];

/// The state of a variable that is fully written and valid.
pub const VAR_ADDED: u8 = 0x3F;

/// The two bytes that a variable begins with.
pub const START_ID_0: u8 = 0xAA;

pub const START_ID_1: u8 = 0x55;

/// The length of the header of a variable store.
pub const STORE_HDR: usize = 28;

/// The length of a plain variable header.
pub const PLAIN_HDR: usize = 32;

/// The length of an authenticated variable header.
pub const AUTH_HDR: usize = 60;

/// Why boot variables could not be read from an image.
#[derive(Debug, Clone, Copy, PartialEq, Eq, Structural)]
pub enum NvramError {
    /// No variable store stands in the image.
    StoreNotFound,
    /// The store's format byte is not that of a formatted store.
    NotFormatted(u8),
    /// The store's state byte is not that of a healthy store.
    NotHealthy(u8),
    /// The store has no room for variables.
    NoSpace,
    /// The store holds no valid variable.
    NoVariables,
    /// There is no BootOrder variable.
    NoBootOrder,
    /// BootOrder has this odd number of bytes.
    OddBootOrder(usize),
}

/// A variable: its vendor GUID, its name and its data.
pub struct Variable {
    pub guid: Seq<u8>,
    pub name: Seq<char>,
    pub data: Seq<u8>,
}

/// What a parsed variable holds.
pub open spec fn var_view(v: ([u8; 16], String, Vec<u8>)) -> Variable {
    Variable { guid: v.0@, name: v.1@, data: v.2@ }
}

/// What parsed variables hold.
pub open spec fn vars_view(list: Seq<([u8; 16], String, Vec<u8>)>) -> Seq<Variable> {
    Seq::new(list.len(), |i: int| var_view(list[i]))
}

/// The offsets of the name size, the data size and the GUID in a header, and its length.
pub open spec fn layout(auth: bool) -> (usize, usize, usize, usize) {
    if auth {
        (36, 40, 44, AUTH_HDR)
    } else {
        (8, 12, 16, PLAIN_HDR)
    }
}

/// The offsets of the name size, the data size and the GUID in a header, and its length.
pub fn var_layout(auth: bool) -> (r: (usize, usize, usize, usize))
    ensures
        r == layout(auth),
{
    if auth {
        (36, 40, 44, AUTH_HDR)
    } else {
        (8, 12, 16, PLAIN_HDR)
    }
}

/// Whether the store GUID stands at `p`.
pub open spec fn store_at(data: Seq<u8>, p: int) -> bool {
    0 <= p <= data.len() - 16 && data.subrange(p, p + 16) == VAR_STORE_GUID@
}

/// The first place from `p` on where the store GUID stands.
pub open spec fn store_from(data: Seq<u8>, p: int) -> Option<int>
    decreases data.len() - p,
{
    if p < 0 || p + 16 > data.len() {
        None
    } else if store_at(data, p) {
        Some(p)
    } else {
        store_from(data, p + 1)
    }
}

/// Finds the variable store: the first place where its GUID stands.
pub fn find_store(data: &[u8]) -> (r: Option<usize>)
    ensures
        match r {
            Some(p) => store_from(data@, 0) == Some(p as int) && store_at(data@, p as int)
                && forall|q: int| 0 <= q < p ==> !store_at(data@, q),
            None => store_from(data@, 0) is None && forall|q: int| !store_at(data@, q),
        },
{
    let guid = VAR_STORE_GUID;
    let mut p: usize = 0;
    while data.len() - p >= 16
        invariant
            p <= data@.len(),
            guid@ == VAR_STORE_GUID@,
            store_from(data@, 0) == store_from(data@, p as int),
            forall|q: int| 0 <= q < p ==> !store_at(data@, q),
        decreases data@.len() - p,
    {
        let window = vstd::slice::slice_subrange(data, p, p + 16);
        if same_bytes(window, &guid) {
            return Some(p);
        }
        p += 1;
    }
    None
}

/// Whether a variable begins at `i`.
pub open spec fn starts_at(vars: Seq<u8>, i: int) -> bool {
    0 <= i && i + 2 <= vars.len() && vars[i] == START_ID_0 && vars[i + 1] == START_ID_1
}

/// Whether a variable with the given layout can stand at `i`: the header fits, the sizes are
/// small, and the name is text.
pub open spec fn candidate(vars: Seq<u8>, auth: bool, i: int) -> bool {
    let (ns_off, ds_off, _, hdr) = layout(auth);
    let ns = le32_at(vars, i + ns_off);
    let ds = le32_at(vars, i + ds_off);
    &&& i + hdr <= vars.len()
    &&& 0 < ns <= 512
    &&& ns % 2 == 0
    &&& ds < 256 * 1024
    &&& i + hdr + ns <= vars.len()
    &&& decoded(vars.subrange(i + hdr, i + hdr + ns)) is Some
}

/// Whether a variable with the given layout stands fully written at `i`: one that looks valid, or
/// one of any size that can be read.
pub open spec fn written_at(vars: Seq<u8>, auth: bool, i: int) -> bool {
    let (ns_off, ds_off, _, _) = layout(auth);
    let ns = le32_at(vars, i + ns_off);
    let ds = le32_at(vars, i + ds_off);
    &&& vars[i + 2] == VAR_ADDED
    &&& candidate(vars, auth, i) || sane_sizes(ns, ds) && var_at(vars, auth, i, ns, ds).len() > 0
}

/// Where the variable with the given layout that begins at `i` ends.
pub open spec fn end_of(vars: Seq<u8>, auth: bool, i: int) -> int {
    let (ns_off, ds_off, _, hdr) = layout(auth);
    i + aligned4(hdr + le32_at(vars, i + ns_off) + le32_at(vars, i + ds_off))
}

/// The place of the first fully written variable, going from variable to variable in the given
/// layout from `i` on: those in other states are passed over whole.
pub open spec fn first_written(vars: Seq<u8>, auth: bool, i: int) -> Option<int>
    decreases (if i <= vars.len() { vars.len() + 1 - i } else { 0 }),
{
    let (ns_off, ds_off, _, hdr) = layout(auth);
    if i < 0 || i >= vars.len() || vars[i] == 0xFF {
        None
    } else if !starts_at(vars, i) {
        first_written(vars, auth, i + 1)
    } else if i + hdr > vars.len() {
        None
    } else if written_at(vars, auth, i) {
        Some(i)
    } else if !sane_sizes(le32_at(vars, i + ns_off), le32_at(vars, i + ds_off)) {
        first_written(vars, auth, i + 1)
    } else {
        first_written(vars, auth, end_of(vars, auth, i))
    }
}

/// A fully written variable is found at or behind the place from which it is looked for.
pub proof fn lemma_first_written(vars: Seq<u8>, auth: bool, i: int)
    ensures
        first_written(vars, auth, i) matches Some(p) ==> {
            &&& 0 <= i <= p
            &&& p + layout(auth).3 <= vars.len()
            &&& starts_at(vars, p)
            &&& written_at(vars, auth, p)
        },
    decreases (if i <= vars.len() { vars.len() + 1 - i } else { 0 }),
{
    let (ns_off, ds_off, _, hdr) = layout(auth);
    if !(i < 0 || i >= vars.len() || vars[i] == 0xFF) {
        if !starts_at(vars, i) {
            lemma_first_written(vars, auth, i + 1);
        } else if i + hdr <= vars.len() && !written_at(vars, auth, i) {
            if !sane_sizes(le32_at(vars, i + ns_off), le32_at(vars, i + ds_off)) {
                lemma_first_written(vars, auth, i + 1);
            } else {
                lemma_first_written(vars, auth, end_of(vars, auth, i));
            }
        }
    }
}

/// Whether the variables from `i` on have authenticated headers. The first fully written variable
/// of either layout decides; where both layouts fit one place, the authenticated one counts,
/// unless only the plain one looks valid there. A plain variable that is too long to look valid
/// does not tell and is passed over. Where nothing tells, headers are authenticated.
pub open spec fn authenticated_from(vars: Seq<u8>, i: int) -> bool
    decreases (if i <= vars.len() { vars.len() + 1 - i } else { 0 }),
{
    proof {
        lemma_first_written(vars, false, i);
    }
    match (first_written(vars, true, i), first_written(vars, false, i)) {
        (_, None) => true,
        (a, Some(p)) => if a is Some && a->Some_0 < p || candidate(vars, true, p) {
            true
        } else if candidate(vars, false, p) {
            false
        } else if written_at(vars, true, p) {
            true
        } else {
            authenticated_from(vars, end_of(vars, false, p))
        },
    }
}

/// Whether a store has authenticated headers.
pub open spec fn authenticated(vars: Seq<u8>) -> bool {
    authenticated_from(vars, 0)
}

fn is_candidate(vars: &[u8], auth: bool, i: usize) -> (r: bool)
    requires
        i <= vars@.len(),
    ensures
        r == candidate(vars@, auth, i as int),
{
    let (ns_off, ds_off, _, hdr) = var_layout(auth);
    if vars.len() - i < hdr {
        return false;
    }
    match (u32_at(vars, i + ns_off), u32_at(vars, i + ds_off)) {
        (Some(ns), Some(ds)) => {
            if ns == 0 || ns > 512 || ns % 2 != 0 || ds >= 256 * 1024 {
                return false;
            }
            let n = ns as usize;
            if vars.len() - i - hdr < n {
                return false;
            }
            let name = vstd::slice::slice_subrange(vars, i + hdr, i + hdr + n);
            decode_utf16(name).is_some()
        },
        _ => false,
    }
}

/// The sizes of the name and of the data of the variable at `i`.
fn sizes_at(vars: &[u8], auth: bool, i: usize) -> (r: (usize, usize))
    requires
        i + layout(auth).3 <= vars@.len(),
    ensures
        r.0 == le32_at(vars@, i + layout(auth).0),
        r.1 == le32_at(vars@, i + layout(auth).1),
{
    let (ns_off, ds_off, _, _) = var_layout(auth);
    assert(vars@.len() == vars.len());
    let ns = u32_at(vars, i + ns_off).unwrap();
    let ds = u32_at(vars, i + ds_off).unwrap();
    (ns as usize, ds as usize)
}

fn are_sane_sizes(ns: usize, ds: usize) -> (r: bool)
    ensures
        r == sane_sizes(ns as int, ds as int),
{
    ns > 0 && ns <= 4096 && ns % 2 == 0 && ds <= 1024 * 1024
}

fn is_written(vars: &[u8], auth: bool, i: usize) -> (r: bool)
    requires
        i + layout(auth).3 <= vars@.len(),
    ensures
        r == written_at(vars@, auth, i as int),
{
    assert(vars@.len() == vars.len());
    if vars[i + 2] != VAR_ADDED {
        return false;
    }
    if is_candidate(vars, auth, i) {
        return true;
    }
    let (_, _, _, hdr) = var_layout(auth);
    let (ns, ds) = sizes_at(vars, auth, i);
    if !are_sane_sizes(ns, ds) || hdr + ns + ds > vars.len() - i {
        return false;
    }
    let name = vstd::slice::slice_subrange(vars, i + hdr, i + hdr + ns);
    decode_utf16(name).is_some()
}

fn find_written(vars: &[u8], auth: bool, from: usize) -> (r: Option<usize>)
    requires
        from <= vars@.len(),
    ensures
        match r {
            Some(i) => first_written(vars@, auth, from as int) == Some(i as int),
            None => first_written(vars@, auth, from as int) is None,
        },
{
    let (_, _, _, hdr) = var_layout(auth);
    let mut i: usize = from;
    while i < vars.len()
        invariant
            i <= vars@.len(),
            hdr == layout(auth).3,
            first_written(vars@, auth, from as int) == first_written(vars@, auth, i as int),
        decreases vars@.len() - i,
    {
        if vars[i] == 0xFF {
            return None;
        }
        let room = vars.len() - i;
        if room < 2 || vars[i] != START_ID_0 || vars[i + 1] != START_ID_1 {
            i += 1;
            continue ;
        }
        if room < hdr {
            return None;
        }
        if is_written(vars, auth, i) {
            return Some(i);
        }
        let (ns, ds) = sizes_at(vars, auth, i);
        if !are_sane_sizes(ns, ds) {
            i += 1;
            continue ;
        }
        let step = align4(hdr + ns + ds);
        if step >= room {
            assert(first_written(vars@, auth, i + step) is None);
            return None;
        }
        i += step;
    }
    None
}

/// Whether the store uses authenticated headers, by its first fully written variable; variables in
/// other states are passed over.
pub fn detect_auth(vars: &[u8]) -> (r: bool)
    ensures
        r == authenticated(vars@),
{
    let mut i: usize = 0;
    while i < vars.len()
        invariant
            i <= vars@.len(),
            authenticated(vars@) == authenticated_from(vars@, i as int),
        decreases vars@.len() - i,
    {
        let p = match find_written(vars, false, i) {
            Some(p) => p,
            None => return true,
        };
        proof {
            lemma_first_written(vars@, false, i as int);
        }
        match find_written(vars, true, i) {
            Some(a) => if a < p {
                return true;
            },
            None => {},
        }
        if is_candidate(vars, true, p) {
            return true;
        }
        if is_candidate(vars, false, p) {
            return false;
        }
        if vars.len() - p >= AUTH_HDR && is_written(vars, true, p) {
            return true;
        }
        let (ns, ds) = sizes_at(vars, false, p);
        let step = align4(PLAIN_HDR + ns + ds);
        if step >= vars.len() - p {
            assert(authenticated_from(vars@, p + step));
            return true;
        }
        i = p + step;
    }
    true
}

/// Whether the sizes of a name and of data are those of a variable.
pub open spec fn sane_sizes(ns: int, ds: int) -> bool {
    0 < ns <= 4096 && ns % 2 == 0 && ds <= 1024 * 1024
}

/// The variable that begins at `i` with the given sizes; none where it is not fully written, does
/// not end within the store, or has a name that is no text.
pub open spec fn var_at(vars: Seq<u8>, auth: bool, i: int, ns: int, ds: int) -> Seq<Variable> {
    let (_, _, guid_off, hdr) = layout(auth);
    if vars[i + 2] == VAR_ADDED && i + hdr + ns + ds <= vars.len() {
        match decoded(vars.subrange(i + hdr, i + hdr + ns)) {
            Some(name) => seq![
                Variable {
                    guid: vars.subrange(i + guid_off, i + guid_off + 16),
                    name,
                    data: vars.subrange(i + hdr + ns, i + hdr + ns + ds),
                },
            ],
            None => Seq::empty(),
        }
    } else {
        Seq::empty()
    }
}

/// The variables from `i` on, in order: an erased byte where a variable could begin ends the
/// store, and bytes where none begins are passed over.
pub open spec fn vars_from(vars: Seq<u8>, auth: bool, i: int) -> Seq<Variable>
    decreases (if i <= vars.len() { vars.len() + 1 - i } else { 0 }),
{
    let (ns_off, ds_off, _, hdr) = layout(auth);
    if i < 0 || i >= vars.len() || vars[i] == 0xFF {
        Seq::empty()
    } else if !starts_at(vars, i) {
        vars_from(vars, auth, i + 1)
    } else if i + hdr > vars.len() {
        Seq::empty()
    } else {
        let ns = le32_at(vars, i + ns_off);
        let ds = le32_at(vars, i + ds_off);
        if !sane_sizes(ns, ds) {
            vars_from(vars, auth, i + 1)
        } else {
            var_at(vars, auth, i, ns, ds) + vars_from(vars, auth, i + aligned4(hdr + ns + ds))
        }
    }
}

fn guid_at(vars: &[u8], off: usize) -> (r: [u8; 16])
    requires
        off + 16 <= vars@.len(),
    ensures
        r@ == vars@.subrange(off as int, off + 16),
{
    let r = [
        vars[off],
        vars[off + 1],
        vars[off + 2],
        vars[off + 3],
        vars[off + 4],
        vars[off + 5],
        vars[off + 6],
        vars[off + 7],
        vars[off + 8],
        vars[off + 9],
        vars[off + 10],
        vars[off + 11],
        vars[off + 12],
        vars[off + 13],
        vars[off + 14],
        vars[off + 15],
    ];
    assert(r@ =~= vars@.subrange(off as int, off + 16));
    r
}

/// The fully written variables of a store, in order.
pub fn parse_vars(vars: &[u8], auth: bool) -> (r: Vec<([u8; 16], String, Vec<u8>)>)
    ensures
        vars_view(r@) == vars_from(vars@, auth, 0),
{
    let (_, _, guid_off, hdr) = var_layout(auth);
    let mut out: Vec<([u8; 16], String, Vec<u8>)> = Vec::new();
    let mut i: usize = 0;
    assert(vars_view(out@) + vars_from(vars@, auth, 0) =~= vars_from(vars@, auth, 0));
    while i < vars.len()
        invariant_except_break
            i <= vars@.len(),
            guid_off == layout(auth).2,
            hdr == layout(auth).3,
            vars_view(out@) + vars_from(vars@, auth, i as int) == vars_from(vars@, auth, 0),
        ensures
            vars_view(out@) == vars_from(vars@, auth, 0),
        decreases vars@.len() - i,
    {
        if vars[i] == 0xFF {
            assert(vars_view(out@) + vars_from(vars@, auth, i as int) =~= vars_view(out@));
            break;
        }
        if vars.len() - i < 2 || vars[i] != START_ID_0 || vars[i + 1] != START_ID_1 {
            i += 1;
            if i >= vars.len() {
                assert(vars_view(out@) + vars_from(vars@, auth, i as int) =~= vars_view(out@));
            }
            continue ;
        }
        if vars.len() - i < hdr {
            assert(vars_view(out@) + vars_from(vars@, auth, i as int) =~= vars_view(out@));
            break;
        }
        let state = vars[i + 2];
        let (ns, ds) = sizes_at(vars, auth, i);
        if !are_sane_sizes(ns, ds) {
            i += 1;
            continue ;
        }
        let total: usize = hdr + ns + ds;
        let ghost before = vars_view(out@);
        let ghost here = var_at(vars@, auth, i as int, ns as int, ds as int);
        let room = vars.len() - i;
        if state == VAR_ADDED && total <= room {
            let name_bytes = vstd::slice::slice_subrange(vars, i + hdr, i + hdr + ns);
            match decode_utf16(name_bytes) {
                Some(name) => {
                    let guid = guid_at(vars, i + guid_off);
                    let data = vstd::slice::slice_to_vec(
                        vstd::slice::slice_subrange(vars, i + hdr + ns, i + total),
                    );
                    out.push((guid, name, data));
                    assert(var_view(out@.last()) == here[0]);
                },
                None => {},
            }
        }
        assert(vars_view(out@) =~= before + here);
        let step = align4(total);
        let ghost rest = vars_from(vars@, auth, i + step);
        assert(before + (here + rest) =~= vars_view(out@) + rest);
        if step >= room {
            assert(rest =~= Seq::empty());
            assert(vars_view(out@) + rest =~= vars_view(out@));
            break;
        }
        i += step;
    }
    out
}

/// A variable of an image.
pub struct EfiVariable {
    pub guid: [u8; 16],
    pub name: String,
    pub data: Vec<u8>,
}

/// What a variable is found by: its vendor GUID and its name.
pub open spec fn key_of(v: EfiVariable) -> (Seq<u8>, Seq<char>) {
    (v.guid@, v.name@)
}

/// Whether no two entries have the same key.
pub open spec fn distinct_keys(entries: Seq<EfiVariable>) -> bool {
    forall|i: int, j: int|
        0 <= i < j < entries.len() ==> key_of(#[trigger] entries[i]) != key_of(
            #[trigger] entries[j],
        )
}

/// Whether an entry has the key `k`.
pub open spec fn has_key(entries: Seq<EfiVariable>, k: (Seq<u8>, Seq<char>)) -> bool {
    exists|i: int| 0 <= i < entries.len() && key_of(#[trigger] entries[i]) == k
}

/// The data of the entries by their keys.
pub open spec fn data_by_key(entries: Seq<EfiVariable>) -> Map<(Seq<u8>, Seq<char>), Seq<u8>> {
    Map::new(
        |k: (Seq<u8>, Seq<char>)| has_key(entries, k),
        |k: (Seq<u8>, Seq<char>)|
            entries[choose|i: int|
                0 <= i < entries.len() && key_of(#[trigger] entries[i]) == k].data@,
    )
}

/// The data of the variables by vendor GUID and name; of two with the same key the later counts.
pub open spec fn collected(vars: Seq<Variable>) -> Map<(Seq<u8>, Seq<char>), Seq<u8>>
    decreases vars.len(),
{
    if vars.len() == 0 {
        Map::empty()
    } else {
        let v = vars.last();
        collected(vars.drop_last()).insert((v.guid, v.name), v.data)
    }
}

/// The variables of an image, found by vendor GUID and name.
pub struct EfiVariables {
    entries: Vec<EfiVariable>,
}

impl View for EfiVariables {
    type V = Map<(Seq<u8>, Seq<char>), Seq<u8>>;

    closed spec fn view(&self) -> Map<(Seq<u8>, Seq<char>), Seq<u8>> {
        data_by_key(self.entries@)
    }
}

fn position(entries: &Vec<EfiVariable>, guid: &[u8; 16], name: &str) -> (r: Option<usize>)
    ensures
        match r {
            Some(i) => i < entries@.len() && key_of(entries@[i as int]) == (guid@, name@),
            None => !has_key(entries@, (guid@, name@)),
        },
{
    let mut i: usize = 0;
    while i < entries.len()
        invariant
            i <= entries@.len(),
            forall|j: int| 0 <= j < i ==> key_of(#[trigger] entries@[j]) != (guid@, name@),
        decreases entries@.len() - i,
    {
        let e = &entries[i];
        if same_bytes(&e.guid, guid) && same_text(&e.name, name) {
            return Some(i);
        }
        i += 1;
    }
    None
}

/// Where the entry at `i` was set or added under the key `k` and the others were kept, the data
/// by key is as before but for `k`.
proof fn lemma_put(before: Seq<EfiVariable>, after: Seq<EfiVariable>, i: int)
    requires
        distinct_keys(before),
        0 <= i < after.len(),
        after.len() == (if i < before.len() { before.len() } else { before.len() + 1 }),
        i < before.len() ==> key_of(before[i]) == key_of(after[i]),
        i == before.len() ==> !has_key(before, key_of(after[i])),
        forall|j: int| 0 <= j < after.len() && j != i ==> #[trigger] after[j] == before[j],
    ensures
        distinct_keys(after),
        data_by_key(after) == data_by_key(before).insert(key_of(after[i]), after[i].data@),
{
    let k = key_of(after[i]);
    assert forall|q: (Seq<u8>, Seq<char>)| has_key(after, q) == (has_key(before, q) || q == k) by {
        if has_key(before, q) && q != k {
            let j = choose|j: int| 0 <= j < before.len() && key_of(#[trigger] before[j]) == q;
            assert(after[j] == before[j]);
        }
        if has_key(after, q) && q != k {
            let j = choose|j: int| 0 <= j < after.len() && key_of(#[trigger] after[j]) == q;
            assert(after[j] == before[j]);
        }
    }
    assert forall|j: int| 0 <= j < after.len() && j != i implies key_of(#[trigger] after[j])
        != k by {
        assert(after[j] == before[j]);
    }
    assert forall|q: (Seq<u8>, Seq<char>)| has_key(before, q) && q != k implies data_by_key(
        after,
    )[q] == data_by_key(before)[q] by {
        let a = choose|j: int| 0 <= j < after.len() && key_of(#[trigger] after[j]) == q;
        let b = choose|j: int| 0 <= j < before.len() && key_of(#[trigger] before[j]) == q;
        assert(has_key(after, q));
        assert(after[a] == before[a]);
        assert(a == b);
    }
    assert(data_by_key(after)[k] == after[i].data@) by {
        let a = choose|j: int| 0 <= j < after.len() && key_of(#[trigger] after[j]) == k;
        assert(a == i);
    }
    assert(data_by_key(after) =~= data_by_key(before).insert(k, after[i].data@));
}

fn put(entries: &mut Vec<EfiVariable>, v: EfiVariable)
    requires
        distinct_keys(old(entries)@),
    ensures
        distinct_keys(final(entries)@),
        data_by_key(final(entries)@) == data_by_key(old(entries)@).insert(key_of(v), v.data@),
{
    match position(entries, &v.guid, &v.name) {
        Some(i) => {
            entries.set(i, v);
            proof {
                lemma_put(old(entries)@, entries@, i as int);
            }
        },
        None => {
            entries.push(v);
            proof {
                lemma_put(old(entries)@, entries@, old(entries)@.len() as int);
            }
        },
    }
}

impl EfiVariables {
    #[verifier::type_invariant]
    spec fn valid(self) -> bool {
        distinct_keys(self.entries@)
    }

    /// The data of the variable with this vendor GUID and name.
    pub fn get(&self, guid: &[u8; 16], name: &str) -> (r: Option<&Vec<u8>>)
        ensures
            match r {
                Some(data) => self@.contains_key((guid@, name@)) && self@[(guid@, name@)] == data@,
                None => !self@.contains_key((guid@, name@)),
            },
    {
        proof {
            use_type_invariant(self);
        }
        match position(&self.entries, guid, name) {
            Some(i) => {
                proof {
                    let k = (guid@, name@);
                    let a = choose|j: int|
                        0 <= j < self.entries@.len() && key_of(#[trigger] self.entries@[j]) == k;
                    assert(key_of(self.entries@[i as int]) == k);
                    assert(a == i);
                }
                Some(&self.entries[i].data)
            },
            None => None,
        }
    }

    /// The variables, each once.
    pub fn into_entries(self) -> (r: Vec<EfiVariable>)
        ensures
            distinct_keys(r@),
            data_by_key(r@) == self@,
    {
        proof {
            use_type_invariant(&self);
        }
        self.entries
    }

    /// The variables of a list; of two with the same key the later counts.
    pub fn collect(vars: Vec<([u8; 16], String, Vec<u8>)>) -> (r: EfiVariables)
        ensures
            r@ == collected(vars_view(vars@)),
    {
        let mut entries: Vec<EfiVariable> = Vec::new();
        let ghost all = vars_view(vars@);
        assert(data_by_key(entries@) =~= Map::empty());
        assert(all.take(0) =~= Seq::empty());
        for v in it: vars
            invariant
                distinct_keys(entries@),
                all == vars_view(it.seq()),
                data_by_key(entries@) == collected(all.take(it.index())),
        {
            let ghost i = it.index();
            assert(all[i] == var_view(v));
            assert(all.take(i + 1).drop_last() =~= all.take(i));
            assert(all.take(i + 1).last() == all[i]);
            let (guid, name, data) = v;
            put(&mut entries, EfiVariable { guid, name, data });
        }
        assert(all.take(all.len() as int) =~= all);
        EfiVariables { entries }
    }
}

/// The region of a store in which its variables stand, or what is wrong with the store.
pub open spec fn vars_region(raw: Seq<u8>) -> Result<Seq<u8>, NvramError> {
    match store_from(raw, 0) {
        None => Err(NvramError::StoreNotFound),
        Some(p) => {
            let format = if p + 20 < raw.len() { raw[p + 20] } else { 0 };
            let state = if p + 21 < raw.len() { raw[p + 21] } else { 0 };
            let size = le32_at(raw, p + 16);
            let end = if p + size < raw.len() { p + size } else { raw.len() as int };
            if format != 0x5A {
                Err(NvramError::NotFormatted(format))
            } else if state != 0xFE {
                Err(NvramError::NotHealthy(state))
            } else if p + STORE_HDR >= end {
                Err(NvramError::NoSpace)
            } else {
                Ok(raw.subrange(p + STORE_HDR, end))
            }
        },
    }
}

/// The variables of an image in order, or why there are none.
pub open spec fn image_variables(raw: Seq<u8>) -> Result<Seq<Variable>, NvramError> {
    match vars_region(raw) {
        Err(e) => Err(e),
        Ok(region) => {
            let vars = vars_from(region, authenticated(region), 0);
            if vars.len() == 0 {
                Err(NvramError::NoVariables)
            } else {
                Ok(vars)
            }
        },
    }
}

fn find_vars_region(raw: &[u8]) -> (r: Result<&[u8], NvramError>)
    ensures
        match r {
            Ok(region) => vars_region(raw@) == Ok::<Seq<u8>, NvramError>(region@),
            Err(e) => vars_region(raw@) == Err::<Seq<u8>, NvramError>(e),
        },
{
    let store = match find_store(raw) {
        Some(p) => p,
        None => return Err(NvramError::StoreNotFound),
    };
    let room = raw.len() - store;
    let format: u8 = if room > 20 {
        raw[store + 20]
    } else {
        0
    };
    let state: u8 = if room > 21 {
        raw[store + 21]
    } else {
        0
    };
    if format != 0x5A {
        return Err(NvramError::NotFormatted(format));
    }
    if state != 0xFE {
        return Err(NvramError::NotHealthy(state));
    }
    let size = u32_at(raw, store + 16).unwrap() as usize;
    let end = if size < room {
        store + size
    } else {
        raw.len()
    };
    if end - store <= STORE_HDR {
        return Err(NvramError::NoSpace);
    }
    Ok(vstd::slice::slice_subrange(raw, store + STORE_HDR, end))
}

/// Reads the variables of an image (the contents of an OVMF_VARS.fd).
pub fn read_efi_variables(raw: &[u8]) -> (r: Result<EfiVariables, NvramError>)
    ensures
        match r {
            Ok(vars) => image_variables(raw@) matches Ok(list) && vars@ == collected(list),
            Err(e) => image_variables(raw@) == Err::<Seq<Variable>, NvramError>(e),
        },
{
    let region = match find_vars_region(raw) {
        Ok(region) => region,
        Err(e) => return Err(e),
    };
    let auth = detect_auth(region);
    let vars = parse_vars(region, auth);
    if vars.is_empty() {
        return Err(NvramError::NoVariables);
    }
    Ok(EfiVariables::collect(vars))
}

/// The name of the boot entry with number `n`.
pub open spec fn boot_name(n: u16) -> Seq<char> {
    "Boot"@ + hex4(n as int)
}

/// The key of a global variable.
pub open spec fn global_key(name: Seq<char>) -> (Seq<u8>, Seq<char>) {
    (GLOBAL_VAR_GUID@, name)
}

/// Whether `n` is among the 16-bit numbers in `order`.
pub open spec fn is_listed(order: Seq<u8>, n: u16) -> bool {
    exists|i: int| 0 <= i < order.len() / 2 && #[trigger] le16_at(order, 2 * i) == n
}

/// The entries that a boot order lists, by their numbers, as far as they exist.
pub open spec fn listed_entries(
    vars: Map<(Seq<u8>, Seq<char>), Seq<u8>>,
    order: Seq<u8>,
) -> Map<u16, Seq<u8>> {
    Map::new(
        |n: u16| is_listed(order, n) && vars.contains_key(global_key(boot_name(n))),
        |n: u16| vars[global_key(boot_name(n))],
    )
}

/// The boot order among the variables and the entries that it lists, or why there is none.
pub open spec fn boot_variables(vars: Map<(Seq<u8>, Seq<char>), Seq<u8>>) -> Result<
    (Seq<u8>, Map<u16, Seq<u8>>),
    NvramError,
> {
    if !vars.contains_key(global_key("BootOrder"@)) {
        Err(NvramError::NoBootOrder)
    } else {
        let order = vars[global_key("BootOrder"@)];
        if order.len() % 2 != 0 {
            Err(NvramError::OddBootOrder(order.len() as usize))
        } else {
            Ok((order, listed_entries(vars, order)))
        }
    }
}

/// What the entries of a hash map hold.
pub open spec fn entries_of(map: Map<u16, Vec<u8>>) -> Map<u16, Seq<u8>> {
    map.map_values(|v: Vec<u8>| v@)
}

fn boot_entry_name(n: u16) -> (r: String)
    ensures
        r@ == boot_name(n),
{
    let mut name = "Boot".to_owned();
    append_hex4(&mut name, n);
    name
}

/// Selects the boot order and the entries that it lists.
pub fn select_boot_variables(vars: &EfiVariables) -> (r: Result<
    (Vec<u8>, HashMap<u16, Vec<u8>>),
    NvramError,
>)
    ensures
        match r {
            Ok((order, entries)) => boot_variables(vars@) == Ok::<
                (Seq<u8>, Map<u16, Seq<u8>>),
                NvramError,
            >((order@, entries_of(entries@))),
            Err(e) => boot_variables(vars@) == Err::<(Seq<u8>, Map<u16, Seq<u8>>), NvramError>(e),
        },
{
    let guid = GLOBAL_VAR_GUID;
    let order = match vars.get(&guid, "BootOrder") {
        Some(order) => vstd::slice::slice_to_vec(order),
        None => return Err(NvramError::NoBootOrder),
    };
    if order.len() % 2 != 0 {
        return Err(NvramError::OddBootOrder(order.len()));
    }
    let mut entries: HashMap<u16, Vec<u8>> = HashMap::new();
    let mut i: usize = 0;
    assert(entries_of(entries@) =~= listed_entries(vars@, order@.take(0)));
    while i < order.len() / 2
        invariant
            i <= order@.len() / 2,
            guid@ == GLOBAL_VAR_GUID@,
            entries_of(entries@) == listed_entries(vars@, order@.take(2 * i)),
        decreases order@.len() / 2 - i,
    {
        let n = u16_le(order[2 * i], order[2 * i + 1]);
        let ghost before = entries_of(entries@);
        let ghost seen = order@.take(2 * i);
        let ghost next = order@.take(2 * i + 2);
        let name = boot_entry_name(n);
        proof {
            assert forall|m: u16| is_listed(next, m) == (is_listed(seen, m) || m == n) by {
                if is_listed(seen, m) {
                    let j = choose|j: int|
                        0 <= j < seen.len() / 2 && #[trigger] le16_at(seen, 2 * j) == m;
                    assert(le16_at(next, 2 * j) == m);
                }
                if m == n {
                    assert(le16_at(next, 2 * i) == m);
                }
                if is_listed(next, m) && m != n {
                    let j = choose|j: int|
                        0 <= j < next.len() / 2 && #[trigger] le16_at(next, 2 * j) == m;
                    assert(le16_at(next, 2 * i) == n);
                    assert(le16_at(seen, 2 * j) == m);
                }
            }
        }
        match vars.get(&guid, &name) {
            Some(data) => {
                let copy = vstd::slice::slice_to_vec(data);
                entries.insert(n, copy);
                assert(entries_of(entries@) =~= before.insert(n, vars@[global_key(boot_name(n))]));
            },
            None => {},
        }
        assert(entries_of(entries@) =~= listed_entries(vars@, next));
        i += 1;
    }
    assert(order@.take(2 * i) =~= order@);
    Ok((order, entries))
}

/// The boot variables of an image, or why it has none.
pub open spec fn image_boot_variables(raw: Seq<u8>) -> Result<
    (Seq<u8>, Map<u16, Seq<u8>>),
    NvramError,
> {
    match image_variables(raw) {
        Ok(list) => boot_variables(collected(list)),
        Err(e) => Err(e),
    }
}

/// Reads BootOrder and the boot entries that it lists from an image (the contents of an
/// OVMF_VARS.fd). The order is the variable's raw value, a sequence of 16-bit numbers; the entries
/// are found by number.
pub fn read_boot_variables(raw: &[u8]) -> (r: Result<
    (Vec<u8>, HashMap<u16, Vec<u8>>),
    NvramError,
>)
    ensures
        match r {
            Ok((order, entries)) => image_boot_variables(raw@) == Ok::<
                (Seq<u8>, Map<u16, Seq<u8>>),
                NvramError,
            >((order@, entries_of(entries@))),
            Err(e) => image_boot_variables(raw@) == Err::<
                (Seq<u8>, Map<u16, Seq<u8>>),
                NvramError,
            >(e),
        },
{
    match read_efi_variables(raw) {
        Ok(vars) => select_boot_variables(&vars),
        Err(e) => Err(e),
    }
}

} // verus!
