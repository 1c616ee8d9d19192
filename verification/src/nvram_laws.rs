//! What holds of reading EFI variables as a whole.
use vstd::prelude::*;

use crate::bytes::{
    aligned4, concat, le32_at, le32_bytes, lemma_concat_place, lemma_le32_field, start_of, zeros,
};
use crate::nvram::{
    authenticated, authenticated_from, boot_name, candidate, collected, end_of, first_written,
    global_key, image_boot_variables, image_variables, is_listed, layout, lemma_first_written,
    sane_sizes, starts_at, store_at, store_from, var_at, vars_from, vars_region, written_at,
    NvramError, Variable, START_ID_0, START_ID_1, STORE_HDR, VAR_ADDED, VAR_STORE_GUID,
};
use crate::utf16::{law_decode_of_encoded, text_units, unit_bytes};

verus! {

/// Whether `r` is the bytes of one variable, in whatever state, up to where the next one begins.
pub open spec fn is_record(r: Seq<u8>, auth: bool) -> bool {
    let (ns_off, ds_off, _, hdr) = layout(auth);
    let ns = le32_at(r, ns_off as int);
    let ds = le32_at(r, ds_off as int);
    &&& r.len() >= hdr
    &&& r[0] == START_ID_0
    &&& r[1] == START_ID_1
    &&& sane_sizes(ns, ds)
    &&& r.len() == aligned4(hdr + ns + ds)
}

/// The variable that a record holds, if it is fully written and its name is text.
pub open spec fn record_var(r: Seq<u8>, auth: bool) -> Seq<Variable> {
    let (ns_off, ds_off, _, _) = layout(auth);
    var_at(r, auth, 0, le32_at(r, ns_off as int), le32_at(r, ds_off as int))
}

/// The variables that records hold, in order.
pub open spec fn record_vars(rs: Seq<Seq<u8>>, auth: bool) -> Seq<Variable>
    decreases rs.len(),
{
    if rs.len() == 0 {
        Seq::empty()
    } else {
        record_var(rs[0], auth) + record_vars(rs.drop_first(), auth)
    }
}

proof fn lemma_le32_within(s: Seq<u8>, i: int, r: Seq<u8>, off: int)
    requires
        0 <= i <= s.len() - r.len(),
        s.subrange(i, i + r.len()) == r,
        0 <= off <= r.len() - 4,
    ensures
        le32_at(s, i + off) == le32_at(r, off),
{
    let t = s.subrange(i, i + r.len());
    assert(t[off] == s[i + off] && t[off + 1] == s[i + off + 1] && t[off + 2] == s[i + off + 2]
        && t[off + 3] == s[i + off + 3]);
}

proof fn lemma_subrange_within(s: Seq<u8>, i: int, r: Seq<u8>, from: int, to: int)
    requires
        0 <= i <= s.len() - r.len(),
        s.subrange(i, i + r.len()) == r,
        0 <= from <= to <= r.len(),
    ensures
        s.subrange(i + from, i + to) == r.subrange(from, to),
{
    assert(s.subrange(i + from, i + to) =~= s.subrange(i, i + r.len()).subrange(from, to));
}

proof fn lemma_vars_step(region: Seq<u8>, auth: bool, i: int, r: Seq<u8>)
    requires
        is_record(r, auth),
        0 <= i <= region.len() - r.len(),
        region.subrange(i, i + r.len()) == r,
    ensures
        vars_from(region, auth, i) == record_var(r, auth) + vars_from(region, auth, i + r.len()),
{
    let (ns_off, ds_off, guid_off, hdr) = layout(auth);
    let ns = le32_at(r, ns_off as int);
    let ds = le32_at(r, ds_off as int);
    lemma_le32_within(region, i, r, ns_off as int);
    lemma_le32_within(region, i, r, ds_off as int);
    let t = region.subrange(i, i + r.len());
    assert(t[0] == region[i] && t[1] == region[i + 1] && t[2] == region[i + 2]);
    lemma_subrange_within(region, i, r, hdr as int, hdr + ns);
    lemma_subrange_within(region, i, r, guid_off as int, guid_off + 16);
    lemma_subrange_within(region, i, r, hdr + ns, hdr + ns + ds);
    assert(var_at(region, auth, i, ns, ds) == var_at(r, auth, 0, ns, ds));
    assert(starts_at(region, i));
}

proof fn lemma_vars_of_records(rs: Seq<Seq<u8>>, auth: bool, tail: Seq<u8>, k: int)
    requires
        forall|i: int| 0 <= i < rs.len() ==> is_record(#[trigger] rs[i], auth),
        tail.len() > 0 ==> tail[0] == 0xFF,
        0 <= k <= rs.len(),
    ensures
        vars_from(concat(rs) + tail, auth, start_of(rs, k)) == record_vars(rs.skip(k), auth),
    decreases rs.len() - k,
{
    let region = concat(rs) + tail;
    let i = start_of(rs, k);
    if k == rs.len() {
        assert(rs.take(k) =~= rs);
        assert(rs.skip(k) =~= Seq::empty());
    } else {
        lemma_concat_place(rs, k);
        lemma_vars_of_records(rs, auth, tail, k + 1);
        assert(rs.skip(k).drop_first() =~= rs.skip(k + 1));
        let r = rs[k];
        assert(region.subrange(i, i + r.len()) =~= concat(rs).subrange(i, i + r.len()));
        lemma_vars_step(region, auth, i, r);
    }
}

/// Walking records that stand one behind the other gives the variables that are fully written, in
/// order; others are passed over, and an erased byte behind the records ends the walk.
pub proof fn law_vars_of_records(rs: Seq<Seq<u8>>, auth: bool, tail: Seq<u8>)
    requires
        forall|i: int| 0 <= i < rs.len() ==> is_record(#[trigger] rs[i], auth),
        tail.len() > 0 ==> tail[0] == 0xFF,
    ensures
        vars_from(concat(rs) + tail, auth, 0) == record_vars(rs, auth),
{
    lemma_vars_of_records(rs, auth, tail, 0);
    assert(rs.take(0) =~= Seq::empty());
    assert(rs.skip(0) =~= rs);
}

/// The bytes of a name: its UTF-16 units and a null.
pub open spec fn name_bytes(name: Seq<char>) -> Seq<u8> {
    unit_bytes(text_units(name) + seq![0u16])
}

/// Whether a variable can be written: its GUID has 16 bytes, its name has no null character, and
/// neither the name nor the data is too long.
pub open spec fn writable(v: Variable) -> bool {
    &&& v.guid.len() == 16
    &&& !v.name.contains('\0')
    &&& name_bytes(v.name).len() <= 4096
    &&& v.data.len() <= 1024 * 1024
}

/// A fully written variable as it stands in a store.
pub open spec fn written(v: Variable, auth: bool) -> Seq<u8> {
    let (ns_off, _, _, hdr) = layout(auth);
    let ns = name_bytes(v.name).len();
    let ds = v.data.len();
    let total = hdr + ns + ds;
    seq![START_ID_0, START_ID_1, VAR_ADDED, 0u8] + zeros((ns_off - 4) as nat) + le32_bytes(
        ns as int,
    ) + le32_bytes(ds as int) + v.guid + name_bytes(v.name) + v.data + zeros(
        (aligned4(total) - total) as nat,
    )
}

proof fn lemma_written(v: Variable, auth: bool)
    requires
        writable(v),
    ensures
        is_record(written(v, auth), auth),
        record_var(written(v, auth), auth) == seq![v],
        written(v, auth).len() >= layout(auth).3 + name_bytes(v.name).len(),
        written(v, auth)[2] == VAR_ADDED,
        le32_at(written(v, auth), layout(auth).0 as int) == name_bytes(v.name).len(),
        le32_at(written(v, auth), layout(auth).1 as int) == v.data.len(),
        written(v, auth).subrange(
            layout(auth).3 as int,
            layout(auth).3 + name_bytes(v.name).len(),
        ) == name_bytes(v.name),
{
    let r = written(v, auth);
    let (ns_off, ds_off, guid_off, hdr) = layout(auth);
    let ns = name_bytes(v.name).len() as int;
    let ds = v.data.len() as int;
    assert(ns == 2 * (text_units(v.name).len() + 1));
    let head = seq![START_ID_0, START_ID_1, VAR_ADDED, 0u8] + zeros((ns_off - 4) as nat);
    assert(head.len() == ns_off);
    assert(r.subrange(ns_off as int, ns_off + 4) =~= le32_bytes(ns));
    assert(r.subrange(ds_off as int, ds_off + 4) =~= le32_bytes(ds));
    lemma_le32_field(r, ns_off as int, ns as u32);
    lemma_le32_field(r, ds_off as int, ds as u32);
    assert(r[0] == START_ID_0 && r[1] == START_ID_1 && r[2] == VAR_ADDED);
    assert(r.subrange(guid_off as int, guid_off + 16) =~= v.guid);
    assert(r.subrange(hdr as int, hdr + ns) =~= name_bytes(v.name));
    assert(r.subrange(hdr + ns, hdr + ns + ds) =~= v.data);
    law_decode_of_encoded(v.name, seq![0u16]);
    assert(record_var(r, auth) =~= seq![v]);
}

proof fn lemma_record_vars_of_written(vars: Seq<Variable>, auth: bool)
    requires
        forall|i: int| 0 <= i < vars.len() ==> writable(#[trigger] vars[i]),
    ensures
        record_vars(vars.map_values(|v: Variable| written(v, auth)), auth) == vars,
    decreases vars.len(),
{
    let rs = vars.map_values(|v: Variable| written(v, auth));
    if vars.len() > 0 {
        let rest = vars.drop_first();
        assert forall|i: int| 0 <= i < rest.len() implies writable(#[trigger] rest[i]) by {
            assert(rest[i] == vars[i + 1]);
        }
        lemma_record_vars_of_written(rest, auth);
        assert(rs.drop_first() =~= rest.map_values(|v: Variable| written(v, auth)));
        lemma_written(vars[0], auth);
        assert(rs[0] == written(vars[0], auth));
        assert(seq![vars[0]] + rest =~= vars);
    } else {
        assert(record_vars(rs, auth) =~= vars);
    }
}

/// Walking a region into which variables were written gives them back, in order.
pub proof fn law_parse_of_written(vars: Seq<Variable>, auth: bool, tail: Seq<u8>)
    requires
        forall|i: int| 0 <= i < vars.len() ==> writable(#[trigger] vars[i]),
        tail.len() > 0 ==> tail[0] == 0xFF,
    ensures
        vars_from(
            concat(vars.map_values(|v: Variable| written(v, auth))) + tail,
            auth,
            0,
        ) == vars,
{
    let rs = vars.map_values(|v: Variable| written(v, auth));
    assert forall|i: int| 0 <= i < rs.len() implies is_record(#[trigger] rs[i], auth) by {
        lemma_written(vars[i], auth);
    }
    law_vars_of_records(rs, auth, tail);
    lemma_record_vars_of_written(vars, auth);
}

/// Whether a written variable is short enough to tell which headers a store has.
pub open spec fn tells_layout(v: Variable) -> bool {
    writable(v) && name_bytes(v.name).len() <= 512 && v.data.len() < 256 * 1024
}

/// Whether a record holds a fully written variable.
pub open spec fn is_written_record(r: Seq<u8>, auth: bool) -> bool {
    written_at(r, auth, 0)
}

/// The number of the first of the records from `k` on that holds a fully written variable.
pub open spec fn first_written_record(rs: Seq<Seq<u8>>, auth: bool, k: int) -> Option<int>
    decreases rs.len() - k,
{
    if k < 0 || k >= rs.len() {
        None
    } else if is_written_record(rs[k], auth) {
        Some(k)
    } else {
        first_written_record(rs, auth, k + 1)
    }
}

proof fn lemma_record_within(region: Seq<u8>, auth: bool, i: int, r: Seq<u8>)
    requires
        is_record(r, auth),
        0 <= i <= region.len() - r.len(),
        region.subrange(i, i + r.len()) == r,
    ensures
        starts_at(region, i),
        candidate(region, auth, i) == candidate(r, auth, 0),
        written_at(region, auth, i) == is_written_record(r, auth),
        end_of(region, auth, i) == i + r.len(),
        sane_sizes(
            le32_at(region, i + layout(auth).0),
            le32_at(region, i + layout(auth).1),
        ),
{
    let (ns_off, ds_off, _, hdr) = layout(auth);
    let ns = le32_at(r, ns_off as int);
    let ds = le32_at(r, ds_off as int);
    lemma_le32_within(region, i, r, ns_off as int);
    lemma_le32_within(region, i, r, ds_off as int);
    let t = region.subrange(i, i + r.len());
    assert(t[0] == region[i] && t[1] == region[i + 1] && t[2] == region[i + 2]);
    lemma_subrange_within(region, i, r, hdr as int, hdr + ns);
    assert(var_at(region, auth, i, ns, ds).len() == var_at(r, auth, 0, ns, ds).len());
}

proof fn lemma_record_place(rs: Seq<Seq<u8>>, auth: bool, tail: Seq<u8>, k: int)
    requires
        forall|i: int| 0 <= i < rs.len() ==> is_record(#[trigger] rs[i], auth),
        0 <= k < rs.len(),
    ensures
        ({
            let region = concat(rs) + tail;
            let i = start_of(rs, k);
            &&& 0 <= i
            &&& start_of(rs, k + 1) == i + rs[k].len() <= region.len()
            &&& starts_at(region, i)
            &&& candidate(region, auth, i) == candidate(rs[k], auth, 0)
            &&& written_at(region, auth, i) == is_written_record(rs[k], auth)
            &&& end_of(region, auth, i) == start_of(rs, k + 1)
            &&& sane_sizes(
                le32_at(region, i + layout(auth).0),
                le32_at(region, i + layout(auth).1),
            )
        }),
{
    let region = concat(rs) + tail;
    let i = start_of(rs, k);
    let r = rs[k];
    lemma_concat_place(rs, k);
    assert(region.subrange(i, i + r.len()) =~= concat(rs).subrange(i, i + r.len()));
    lemma_record_within(region, auth, i, r);
}

/// Going through records finds the first that holds a fully written variable, whatever the data
/// of the others; an erased byte behind the records ends the search.
pub proof fn law_first_written_of_records(rs: Seq<Seq<u8>>, auth: bool, tail: Seq<u8>, k: int)
    requires
        forall|i: int| 0 <= i < rs.len() ==> is_record(#[trigger] rs[i], auth),
        tail.len() > 0 ==> tail[0] == 0xFF,
        0 <= k <= rs.len(),
    ensures
        first_written(concat(rs) + tail, auth, start_of(rs, k)) == (match first_written_record(
            rs,
            auth,
            k,
        ) {
            Some(m) => Some(start_of(rs, m)),
            None => None,
        }),
        first_written_record(rs, auth, k) matches Some(m) ==> k <= m < rs.len()
            && is_written_record(rs[m], auth) && forall|j: int|
            k <= j < m ==> !is_written_record(#[trigger] rs[j], auth),
        first_written_record(rs, auth, k) is None ==> forall|j: int|
            k <= j < rs.len() ==> !is_written_record(#[trigger] rs[j], auth),
    decreases rs.len() - k,
{
    if k == rs.len() {
        assert(rs.take(k) =~= rs);
    } else {
        lemma_record_place(rs, auth, tail, k);
        law_first_written_of_records(rs, auth, tail, k + 1);
    }
}

/// Records with authenticated headers are told to have them, where nothing stands before the first
/// fully written one of them, `k`, that could be taken for a fully written plain variable, and it
/// could not be taken for a plain one that looks valid while itself being too long.
pub proof fn law_detect_authenticated_records(rs: Seq<Seq<u8>>, tail: Seq<u8>, k: int)
    requires
        forall|i: int| 0 <= i < rs.len() ==> is_record(#[trigger] rs[i], true),
        tail.len() > 0 ==> tail[0] == 0xFF,
        0 <= k < rs.len(),
        is_written_record(rs[k], true),
        forall|j: int| 0 <= j < k ==> !is_written_record(#[trigger] rs[j], true),
        first_written(concat(rs) + tail, false, 0) matches Some(p) ==> start_of(rs, k) <= p,
        candidate(rs[k], true, 0) || !candidate(concat(rs) + tail, false, start_of(rs, k)),
    ensures
        authenticated(concat(rs) + tail),
{
    law_first_written_of_records(rs, true, tail, 0);
    assert(rs.take(0) =~= Seq::empty());
    assert(first_written_record(rs, true, 0) == Some(k));
    lemma_record_place(rs, true, tail, k);
}

proof fn lemma_starts_in_order(rs: Seq<Seq<u8>>, i: int, j: int)
    requires
        0 <= i <= j <= rs.len(),
    ensures
        start_of(rs, i) <= start_of(rs, j),
    decreases j - i,
{
    if i < j {
        lemma_concat_place(rs, i);
        lemma_starts_in_order(rs, i + 1, j);
    }
}

proof fn lemma_detect_plain_records(rs: Seq<Seq<u8>>, tail: Seq<u8>, k: int, from: int)
    requires
        forall|i: int| 0 <= i < rs.len() ==> is_record(#[trigger] rs[i], false),
        tail.len() > 0 ==> tail[0] == 0xFF,
        0 <= from <= k < rs.len(),
        is_written_record(rs[k], false),
        candidate(rs[k], false, 0),
        no_authenticated_up_to(rs, tail, k),
    ensures
        !authenticated_from(concat(rs) + tail, start_of(rs, from)),
    decreases k - from,
{
    let region = concat(rs) + tail;
    law_first_written_of_records(rs, false, tail, from);
    let m = first_written_record(rs, false, from)->Some_0;
    assert(first_written_record(rs, false, from) is Some && m <= k);
    lemma_record_place(rs, false, tail, m);
    lemma_record_place(rs, false, tail, k);
    lemma_starts_in_order(rs, m, k);
    let p = start_of(rs, m);
    assert(authenticated_behind(rs, tail, k, from));
    assert(authenticated_behind(rs, tail, k, m));
    if !candidate(region, false, p) {
        lemma_detect_plain_records(rs, tail, k, m + 1);
    }
}

/// Whether, looking from the record `j` on, nothing that could be taken for a fully written
/// authenticated variable stands before the record `k`, nor one that looks valid at `j`.
pub open spec fn authenticated_behind(
    rs: Seq<Seq<u8>>,
    tail: Seq<u8>,
    k: int,
    j: int,
) -> bool {
    let region = concat(rs) + tail;
    &&& first_written(region, true, start_of(rs, j)) matches Some(a) ==> start_of(rs, k) <= a
    &&& !candidate(region, true, start_of(rs, j))
    &&& j < k ==> !written_at(region, true, start_of(rs, j))
}

/// Whether no record up to `k` leads to something that could be taken for an authenticated
/// variable before `k`.
pub open spec fn no_authenticated_up_to(rs: Seq<Seq<u8>>, tail: Seq<u8>, k: int) -> bool {
    forall|j: int| 0 <= j <= k ==> #[trigger] authenticated_behind(rs, tail, k, j)
}

/// Records with plain headers are told to have them by any fully written one of them, `k`, that
/// looks valid, where nothing up to it could be taken for a fully written authenticated variable.
/// Those before `k` may be in any state and of any size.
pub proof fn law_detect_plain_records(rs: Seq<Seq<u8>>, tail: Seq<u8>, k: int)
    requires
        forall|i: int| 0 <= i < rs.len() ==> is_record(#[trigger] rs[i], false),
        tail.len() > 0 ==> tail[0] == 0xFF,
        0 <= k < rs.len(),
        is_written_record(rs[k], false),
        candidate(rs[k], false, 0),
        no_authenticated_up_to(rs, tail, k),
    ensures
        !authenticated(concat(rs) + tail),
{
    lemma_detect_plain_records(rs, tail, k, 0);
    assert(rs.take(0) =~= Seq::empty());
}

proof fn lemma_written_is_first(v: Variable, auth: bool, rest: Seq<u8>)
    requires
        writable(v),
    ensures
        first_written(written(v, auth) + rest, auth, 0) == Some(0int),
        candidate(written(v, auth) + rest, auth, 0) == tells_layout(v),
{
    let r = written(v, auth);
    let s = r + rest;
    lemma_written(v, auth);
    assert(s.subrange(0, r.len() as int) =~= r);
    lemma_record_within(s, auth, 0, r);
    law_decode_of_encoded(v.name, seq![0u16]);
}

/// A store whose first variable was written with an authenticated header is told to have
/// authenticated headers, whatever the variable's size and whatever follows.
pub proof fn law_detect_authenticated(v: Variable, rest: Seq<u8>)
    requires
        writable(v),
    ensures
        authenticated(written(v, true) + rest),
{
    let s = written(v, true) + rest;
    lemma_written_is_first(v, true, rest);
    lemma_written(v, true);
    lemma_first_written(s, false, 0);
    assert(s[8] == 0 && s[9] == 0 && s[10] == 0 && s[11] == 0);
    assert(!candidate(s, false, 0));
}

/// A store whose first variable was written with a plain header, is not too long and cannot be
/// taken for an authenticated one is told to have plain headers, whatever follows.
pub proof fn law_detect_plain(v: Variable, rest: Seq<u8>)
    requires
        tells_layout(v),
        !candidate(written(v, false) + rest, true, 0),
    ensures
        !authenticated(written(v, false) + rest),
{
    lemma_written_is_first(v, false, rest);
    lemma_first_written(written(v, false) + rest, true, 0);
}

/// A store in which no variable is fully written is told to have authenticated headers.
pub proof fn law_authenticated_by_default(vars: Seq<u8>)
    requires
        forall|k: int| #[trigger]
            starts_at(vars, k) && k + 3 <= vars.len() ==> vars[k + 2] != VAR_ADDED,
    ensures
        authenticated(vars),
{
    lemma_first_written(vars, false, 0);
}

/// An image: a variable store with the given region of variables, behind `before` and before
/// `after`.
pub open spec fn image(before: Seq<u8>, region: Seq<u8>, after: Seq<u8>) -> Seq<u8> {
    before + VAR_STORE_GUID@ + le32_bytes((STORE_HDR + region.len()) as int) + seq![0x5Au8, 0xFE]
        + zeros(6) + region + after
}

proof fn lemma_store_from(data: Seq<u8>, p: int, q: int)
    requires
        0 <= q <= p,
        store_at(data, p),
        forall|j: int| 0 <= j < p ==> !store_at(data, j),
    ensures
        store_from(data, q) == Some(p),
    decreases p - q,
{
    if q < p {
        lemma_store_from(data, p, q + 1);
    }
}

/// The region of variables of an image is found where the store's GUID does not stand before it.
pub proof fn law_region_of_image(before: Seq<u8>, region: Seq<u8>, after: Seq<u8>)
    requires
        region.len() > 0,
        STORE_HDR + region.len() <= u32::MAX,
        forall|p: int| 0 <= p < before.len() ==> !store_at(image(before, region, after), p),
    ensures
        vars_region(image(before, region, after)) == Ok::<Seq<u8>, NvramError>(region),
{
    let raw = image(before, region, after);
    let p = before.len() as int;
    let size = STORE_HDR + region.len();
    assert(VAR_STORE_GUID@.len() == 16);
    assert(raw.subrange(p, p + 16) =~= VAR_STORE_GUID@);
    lemma_store_from(raw, p, 0);
    assert(raw.subrange(p + 16, p + 20) =~= le32_bytes(size as int));
    lemma_le32_field(raw, p + 16, size as u32);
    assert(raw[p + 20] == 0x5A);
    assert(raw[p + 21] == 0xFE);
    let end = if p + size < raw.len() { p + size } else { raw.len() as int };
    assert(raw.subrange(p + STORE_HDR, end) =~= region);
}

/// The region of variables into which `vars` were written, with `tail` behind them.
pub open spec fn written_region(vars: Seq<Variable>, auth: bool, tail: Seq<u8>) -> Seq<u8> {
    concat(vars.map_values(|v: Variable| written(v, auth))) + tail
}

/// Whether the variables of an image can be read, as they stand in the records of its store: a
/// record holds a variable, the layout is told, what follows the records is erased, the region
/// fits, and no store stands before it.
pub open spec fn readable_records(
    rs: Seq<Seq<u8>>,
    auth: bool,
    before: Seq<u8>,
    tail: Seq<u8>,
    after: Seq<u8>,
) -> bool {
    let region = concat(rs) + tail;
    &&& forall|i: int| 0 <= i < rs.len() ==> is_record(#[trigger] rs[i], auth)
    &&& record_vars(rs, auth).len() > 0
    &&& authenticated(region) == auth
    &&& tail.len() > 0 ==> tail[0] == 0xFF
    &&& STORE_HDR + region.len() <= u32::MAX
    &&& forall|p: int| 0 <= p < before.len() ==> !store_at(image(before, region, after), p)
}

/// Reading an image gives the fully written variables of its store, in order; records in other
/// states are passed over.
pub proof fn law_read_of_records(
    rs: Seq<Seq<u8>>,
    auth: bool,
    before: Seq<u8>,
    tail: Seq<u8>,
    after: Seq<u8>,
)
    requires
        readable_records(rs, auth, before, tail, after),
    ensures
        image_variables(image(before, concat(rs) + tail, after)) == Ok::<
            Seq<Variable>,
            NvramError,
        >(record_vars(rs, auth)),
{
    lemma_concat_place(rs, 0);
    law_region_of_image(before, concat(rs) + tail, after);
    law_vars_of_records(rs, auth, tail);
}

/// Whether an image into which `vars` were written can be read back: where headers are plain, they
/// have to be told so.
pub open spec fn readable(
    vars: Seq<Variable>,
    auth: bool,
    before: Seq<u8>,
    tail: Seq<u8>,
    after: Seq<u8>,
) -> bool {
    &&& vars.len() > 0
    &&& forall|i: int| 0 <= i < vars.len() ==> writable(#[trigger] vars[i])
    &&& auth || !authenticated(written_region(vars, auth, tail))
    &&& tail.len() > 0 ==> tail[0] == 0xFF
    &&& STORE_HDR + written_region(vars, auth, tail).len() <= u32::MAX
    &&& forall|p: int|
        0 <= p < before.len() ==> !store_at(
            image(before, written_region(vars, auth, tail), after),
            p,
        )
}

proof fn lemma_readable(
    vars: Seq<Variable>,
    auth: bool,
    before: Seq<u8>,
    tail: Seq<u8>,
    after: Seq<u8>,
)
    requires
        readable(vars, auth, before, tail, after),
    ensures
        ({
            let rs = vars.map_values(|v: Variable| written(v, auth));
            readable_records(rs, auth, before, tail, after) && record_vars(rs, auth) == vars
        }),
{
    let rs = vars.map_values(|v: Variable| written(v, auth));
    assert forall|i: int| 0 <= i < rs.len() implies is_record(#[trigger] rs[i], auth) by {
        lemma_written(vars[i], auth);
    }
    lemma_record_vars_of_written(vars, auth);
    if auth {
        let region = written_region(vars, auth, tail);
        let first = written(vars[0], auth);
        let rest = region.skip(first.len() as int);
        lemma_concat_place(rs, 0);
        assert(rs.take(0) =~= Seq::empty());
        assert(rs[0] == first);
        assert(region =~= first + rest) by {
            let placed = concat(rs).subrange(0, first.len() as int);
            assert forall|j: int| 0 <= j < first.len() implies region[j] == first[j] by {
                assert(placed[j] == concat(rs)[j]);
            }
        }
        law_detect_authenticated(vars[0], rest);
    }
}

/// Reading an image gives back the variables that were written into it, with either layout.
pub proof fn law_read_of_written(
    vars: Seq<Variable>,
    auth: bool,
    before: Seq<u8>,
    tail: Seq<u8>,
    after: Seq<u8>,
)
    requires
        readable(vars, auth, before, tail, after),
    ensures
        image_variables(image(before, written_region(vars, auth, tail), after)) == Ok::<
            Seq<Variable>,
            NvramError,
        >(vars),
{
    lemma_readable(vars, auth, before, tail, after);
    law_read_of_records(
        vars.map_values(|v: Variable| written(v, auth)),
        auth,
        before,
        tail,
        after,
    );
}

/// Whether the variable `i` is the last with its key.
pub open spec fn is_last(vars: Seq<Variable>, i: int) -> bool {
    &&& 0 <= i < vars.len()
    &&& forall|j: int|
        i < j < vars.len() ==> ((#[trigger] vars[j]).guid, vars[j].name) != (
            vars[i].guid,
            vars[i].name,
        )
}

/// Whether `order` is the place of the BootOrder among the variables and `entry` that of the boot
/// entry `n`, which it lists.
pub open spec fn lists_entry(vars: Seq<Variable>, order: int, entry: int, n: u16) -> bool {
    &&& is_last(vars, order)
    &&& (vars[order].guid, vars[order].name) == global_key("BootOrder"@)
    &&& vars[order].data.len() % 2 == 0
    &&& is_last(vars, entry)
    &&& (vars[entry].guid, vars[entry].name) == global_key(boot_name(n))
    &&& is_listed(vars[order].data, n)
}

/// Reading the boot variables of an image gives the fully written BootOrder of its store, and with
/// it each fully written boot entry that it lists, under its number.
pub proof fn law_boot_variables_of_records(
    rs: Seq<Seq<u8>>,
    auth: bool,
    before: Seq<u8>,
    tail: Seq<u8>,
    after: Seq<u8>,
    order: int,
    entry: int,
    n: u16,
)
    requires
        readable_records(rs, auth, before, tail, after),
        lists_entry(record_vars(rs, auth), order, entry, n),
    ensures
        image_boot_variables(image(before, concat(rs) + tail, after)) matches Ok((o, entries)) && o
            == record_vars(rs, auth)[order].data && entries.contains_key(n) && entries[n]
            == record_vars(rs, auth)[entry].data,
{
    law_read_of_records(rs, auth, before, tail, after);
    law_last_variable_counts(record_vars(rs, auth), order);
    law_last_variable_counts(record_vars(rs, auth), entry);
}

/// Reading the boot variables of an image gives back the BootOrder that was written into it, and
/// with it each boot entry that it lists and that was written, under its number.
pub proof fn law_boot_variables_of_written(
    vars: Seq<Variable>,
    auth: bool,
    before: Seq<u8>,
    tail: Seq<u8>,
    after: Seq<u8>,
    order: int,
    entry: int,
    n: u16,
)
    requires
        readable(vars, auth, before, tail, after),
        lists_entry(vars, order, entry, n),
    ensures
        image_boot_variables(image(before, written_region(vars, auth, tail), after)) matches Ok(
            (o, entries),
        ) && o == vars[order].data && entries.contains_key(n) && entries[n] == vars[entry].data,
{
    lemma_readable(vars, auth, before, tail, after);
    law_boot_variables_of_records(
        vars.map_values(|v: Variable| written(v, auth)),
        auth,
        before,
        tail,
        after,
        order,
        entry,
        n,
    );
}

/// Whether the variable `v` stands fully written at `p`.
pub open spec fn stands_at(region: Seq<u8>, auth: bool, p: int, v: Variable) -> bool {
    let (ns_off, ds_off, _, hdr) = layout(auth);
    let ns = le32_at(region, p + ns_off);
    let ds = le32_at(region, p + ds_off);
    &&& starts_at(region, p)
    &&& p + hdr + ns + ds <= region.len()
    &&& region[p + 2] == VAR_ADDED
    &&& sane_sizes(ns, ds)
    &&& var_at(region, auth, p, ns, ds) == seq![v]
}

/// Every variable that the walk gives stands fully written in the store.
pub proof fn law_parsed_stands_in_store(region: Seq<u8>, auth: bool, i: int, k: int)
    requires
        0 <= k < vars_from(region, auth, i).len(),
    ensures
        exists|p: int| #[trigger] stands_at(region, auth, p, vars_from(region, auth, i)[k]),
    decreases (if i <= region.len() { region.len() + 1 - i } else { 0 }),
{
    let (ns_off, ds_off, _, hdr) = layout(auth);
    let v = vars_from(region, auth, i)[k];
    if !starts_at(region, i) {
        law_parsed_stands_in_store(region, auth, i + 1, k);
    } else {
        let ns = le32_at(region, i + ns_off);
        let ds = le32_at(region, i + ds_off);
        if !sane_sizes(ns, ds) {
            law_parsed_stands_in_store(region, auth, i + 1, k);
        } else {
            let here = var_at(region, auth, i, ns, ds);
            if k < here.len() {
                assert(here =~= seq![v]);
                assert(stands_at(region, auth, i, v));
            } else {
                law_parsed_stands_in_store(
                    region,
                    auth,
                    i + aligned4(hdr + ns + ds),
                    k - here.len(),
                );
            }
        }
    }
}

/// Of several variables with one key the last counts.
pub proof fn law_last_variable_counts(vars: Seq<Variable>, i: int)
    requires
        is_last(vars, i),
    ensures
        collected(vars).contains_key((vars[i].guid, vars[i].name)),
        collected(vars)[(vars[i].guid, vars[i].name)] == vars[i].data,
    decreases vars.len(),
{
    if i < vars.len() - 1 {
        let front = vars.drop_last();
        assert forall|j: int| i < j < front.len() implies ((#[trigger] front[j]).guid, front[j].name)
            != (front[i].guid, front[i].name) by {
            assert(front[j] == vars[j]);
        }
        law_last_variable_counts(front, i);
        assert(vars[vars.len() - 1] == vars.last());
    }
}

/// Whatever is found was a variable.
pub proof fn law_found_was_a_variable(vars: Seq<Variable>, k: (Seq<u8>, Seq<char>))
    requires
        collected(vars).contains_key(k),
    ensures
        exists|i: int|
            0 <= i < vars.len() && ((#[trigger] vars[i]).guid, vars[i].name) == k && collected(
                vars,
            )[k] == vars[i].data,
    decreases vars.len(),
{
    if (vars.last().guid, vars.last().name) == k {
        assert(vars[vars.len() - 1] == vars.last());
    } else {
        let front = vars.drop_last();
        law_found_was_a_variable(front, k);
        let i = choose|i: int|
            0 <= i < front.len() && ((#[trigger] front[i]).guid, front[i].name) == k && collected(
                front,
            )[k] == front[i].data;
        assert(vars[i] == front[i]);
    }
}

} // verus!
