//! Reading computer rows: serial number, model and Windows product key out of the
//! fields GLPI returns, and the per-computer summary built from them.
use crate::aggregator::{
    computer_inventory_timestamp, inventory_timestamp, lemma_row_bound, lemma_version_row_bound,
    software_row_upto, software_table, version_row_upto, version_table,
};
use crate::cleanup::{cleanup_publisher, cleanup_publisher_text};
use crate::date_util::opt_view;
use crate::json::JsonValue;
use crate::models::{
    ComputerInfo, GlpiComputer, GlpiItemSoftwareVersion, GlpiSoftware, GlpiSoftwareVersion,
    InventorySnapshot, SnapshotComputer, SnapshotInstallation,
};
use crate::text::{
    char_is_ascii_alnum, chars_of, contains, is_ascii_alnum, is_blank, lowercase, str_contains,
    str_eq, to_lower, trim, trim_str,
};
use vstd::prelude::*;

verus! {

broadcast use vstd::std_specs::hash::group_hash_axioms;

// ---------------------------------------------------------------------------
// Field values
// ---------------------------------------------------------------------------
/// A value that says nothing: blank, "0" or "&nbsp;" once trimmed.
pub open spec fn blank_value(s: Seq<char>) -> bool {
    let v = trim(s);
    v.len() == 0 || v == seq!['0'] || v == "&nbsp;"@
}

pub fn is_blank_value(value: &str) -> (r: bool)
    ensures
        r == blank_value(value@),
{
    proof {
        reveal_strlit("0");
        assert("0"@ =~= seq!['0']);
    }
    let v = trim_str(value);
    proof {
        crate::text::lemma_trim_idempotent(value@);
    }
    is_blank(v.as_str()) || str_eq(v.as_str(), "0") || str_eq(v.as_str(), "&nbsp;")
}

/// How often `c` occurs in `s`.
pub open spec fn count_char(s: Seq<char>, c: char) -> nat
    decreases s.len(),
{
    if s.len() == 0 {
        0
    } else {
        count_char(s.drop_last(), c) + if s.last() == c {
            1nat
        } else {
            0nat
        }
    }
}

pub open spec fn key_char(c: char) -> bool {
    is_ascii_alnum(c) || c == '-'
}

/// Looks like a product key: once trimmed, 15 to 80 characters, all ASCII letters,
/// digits or '-', with at least three '-'. (Such a text has as many bytes as
/// characters, so the length bounds read the same in either unit.)
pub open spec fn windows_key_like(s: Seq<char>) -> bool {
    let v = trim(s);
    &&& 15 <= v.len() <= 80
    &&& forall|i: int| 0 <= i < v.len() ==> #[trigger] key_char(v[i])
    &&& count_char(v, '-') >= 3
}

pub fn is_windows_key_like(value: &str) -> (r: bool)
    ensures
        r == windows_key_like(value@),
{
    let t = trim_str(value);
    let v = chars_of(t.as_str());
    let mut all_ok = true;
    let mut hyphens: usize = 0;
    let mut i: usize = 0;
    while i < v.len()
        invariant
            i <= v@.len(),
            v@ == trim(value@),
            all_ok == (forall|k: int| 0 <= k < i ==> #[trigger] key_char(v@[k])),
            hyphens == count_char(v@.subrange(0, i as int), '-'),
            hyphens <= i,
        decreases v.len() - i,
    {
        let c = v[i];
        assert(v@.subrange(0, i as int + 1).drop_last() =~= v@.subrange(0, i as int));
        let ok = char_is_ascii_alnum(c) || c == '-';
        assert(ok == key_char(v@[i as int]));
        if !ok {
            all_ok = false;
        }
        assert(all_ok == (forall|k: int| 0 <= k < i + 1 ==> #[trigger] key_char(v@[k]))) by {
            if all_ok {
                assert forall|k: int| 0 <= k < i + 1 implies #[trigger] key_char(v@[k]) by {
                    if k < i {
                    }
                }
            }
        }
        if c == '-' {
            hyphens = hyphens + 1;
        }
        i = i + 1;
    }
    assert(v@.subrange(0, v@.len() as int) =~= v@);
    v.len() >= 15 && v.len() <= 80 && all_ok && hyphens >= 3
}

/// The text of a scalar JSON value: a string trimmed, a number as printed,
/// a boolean as "true" / "false"; nothing for the rest.
pub open spec fn scalar_text(v: JsonValue) -> Seq<char> {
    match v {
        JsonValue::String(s) => trim(s@),
        JsonValue::Number(n) => n@,
        JsonValue::Bool(b) => if b {
            "true"@
        } else {
            "false"@
        },
        _ => Seq::empty(),
    }
}

pub fn value_to_string(value: &JsonValue) -> (r: String)
    ensures
        r@ == scalar_text(*value),
{
    match value {
        JsonValue::String(s) => trim_str(s.as_str()),
        JsonValue::Number(n) => n.clone(),
        JsonValue::Bool(b) => if *b {
            "true".to_owned()
        } else {
            "false".to_owned()
        },
        _ => String::new(),
    }
}

// ---------------------------------------------------------------------------
// Picking a field
// ---------------------------------------------------------------------------
/// The field names that hold a serial number.
pub open spec fn serial_field(k: Seq<char>) -> bool {
    contains(k, "serial"@)
}

/// The field names that hold a model.
pub open spec fn model_field(k: Seq<char>) -> bool {
    contains(k, "model"@)
}

/// The field names that may hold a Windows product key.
pub open spec fn product_key_field(k: Seq<char>) -> bool {
    ||| contains(k, "operatingsystems_serial"@)
    ||| contains(k, "operatingsystem_serial"@)
    ||| contains(k, "operatingsystems_productid"@)
    ||| contains(k, "operatingsystem_productid"@)
    ||| contains(k, "windows_product_key"@)
    ||| contains(k, "windows_key"@)
    ||| contains(k, "productkey"@)
    ||| contains(k, "product_key"@)
    ||| contains(k, "productid"@)
}

/// Which search a field pick makes: the names it reads and the values it takes.
#[derive(Debug, Clone, Copy, PartialEq, Eq, Structural)]
pub enum FieldPick {
    /// A non-blank value of a field whose name holds "serial".
    Serial,
    /// A non-blank value of a field whose name holds "model".
    Model,
    /// A key-like value of a product-key field.
    ProductKey,
}

pub open spec fn pick_name_ok(p: FieldPick, k: Seq<char>) -> bool {
    match p {
        FieldPick::Serial => serial_field(k),
        FieldPick::Model => model_field(k),
        FieldPick::ProductKey => product_key_field(k),
    }
}

pub open spec fn pick_value_ok(p: FieldPick, v: Seq<char>) -> bool {
    match p {
        FieldPick::ProductKey => windows_key_like(v),
        _ => !blank_value(v),
    }
}

/// The value of the first field from position `j` on whose lower-cased name and
/// value the pick takes; empty when there is none.
pub open spec fn picked_from(fields: Seq<(String, JsonValue)>, p: FieldPick, j: int) -> Seq<char>
    decreases fields.len() - j,
{
    if j < 0 || j >= fields.len() {
        Seq::empty()
    } else if pick_name_ok(p, to_lower(fields[j].0@)) && pick_value_ok(p, scalar_text(fields[j].1)) {
        scalar_text(fields[j].1)
    } else {
        picked_from(fields, p, j + 1)
    }
}

fn name_ok(p: FieldPick, key: &str) -> (r: bool)
    ensures
        r == pick_name_ok(p, key@),
{
    match p {
        FieldPick::Serial => str_contains(key, "serial"),
        FieldPick::Model => str_contains(key, "model"),
        FieldPick::ProductKey => {
            str_contains(key, "operatingsystems_serial") || str_contains(key, "operatingsystem_serial")
                || str_contains(key, "operatingsystems_productid") || str_contains(
                key,
                "operatingsystem_productid",
            ) || str_contains(key, "windows_product_key") || str_contains(key, "windows_key")
                || str_contains(key, "productkey") || str_contains(key, "product_key") || str_contains(
                key,
                "productid",
            )
        },
    }
}

fn value_ok(p: FieldPick, v: &str) -> (r: bool)
    ensures
        r == pick_value_ok(p, v@),
{
    match p {
        FieldPick::ProductKey => is_windows_key_like(v),
        _ => !is_blank_value(v),
    }
}

/// Scans the extra fields in order for the first one the pick takes.
fn pick_field(fields: &Vec<(String, JsonValue)>, p: FieldPick) -> (r: String)
    ensures
        r@ == picked_from(fields@, p, 0),
{
    let mut j: usize = 0;
    while j < fields.len()
        invariant
            j <= fields@.len(),
            picked_from(fields@, p, 0) == picked_from(fields@, p, j as int),
        decreases fields.len() - j,
    {
        let key = lowercase(fields[j].0.as_str());
        let candidate = value_to_string(&fields[j].1);
        if name_ok(p, key.as_str()) && value_ok(p, candidate.as_str()) {
            return candidate;
        }
        j = j + 1;
    }
    String::new()
}

/// The serial number: the `serial` column trimmed when it says something, else
/// the first extra field that holds one.
pub open spec fn serial_of(c: GlpiComputer) -> Seq<char> {
    if !blank_value(c.serial@) {
        trim(c.serial@)
    } else {
        picked_from(c.extra_fields@, FieldPick::Serial, 0)
    }
}

/// The model: the `computermodels_id` column trimmed when it says something, else
/// the first extra field that holds one.
pub open spec fn model_of(c: GlpiComputer) -> Seq<char> {
    if !blank_value(c.computermodels_id@) {
        trim(c.computermodels_id@)
    } else {
        picked_from(c.extra_fields@, FieldPick::Model, 0)
    }
}

/// The product key read from the row: the first product-key field whose value
/// looks like a key.
pub open spec fn product_key_of(c: GlpiComputer) -> Seq<char> {
    picked_from(c.extra_fields@, FieldPick::ProductKey, 0)
}

pub fn pick_serial_number(c: &GlpiComputer) -> (r: String)
    ensures
        r@ == serial_of(*c),
{
    if !is_blank_value(c.serial.as_str()) {
        return trim_str(c.serial.as_str());
    }
    pick_field(&c.extra_fields, FieldPick::Serial)
}

pub fn pick_model(c: &GlpiComputer) -> (r: String)
    ensures
        r@ == model_of(*c),
{
    if !is_blank_value(c.computermodels_id.as_str()) {
        return trim_str(c.computermodels_id.as_str());
    }
    pick_field(&c.extra_fields, FieldPick::Model)
}

pub fn pick_windows_product_key(c: &GlpiComputer) -> (r: String)
    ensures
        r@ == product_key_of(*c),
{
    pick_field(&c.extra_fields, FieldPick::ProductKey)
}

pub open spec fn text_or_empty(o: Option<Seq<char>>) -> Seq<char> {
    match o {
        Some(s) => s,
        None => Seq::empty(),
    }
}

/// The summary of a computer row; `key` is a product key found elsewhere, used
/// in place of the one read from the row.
pub open spec fn computer_info_ok(c: GlpiComputer, key: Option<Seq<char>>, r: ComputerInfo) -> bool {
    &&& r.name@ == c.name@
    &&& r.contact@ == text_or_empty(opt_view(c.contact))
    &&& r.serial_number@ == serial_of(c)
    &&& r.model@ == model_of(c)
    &&& r.last_inventory@ == text_or_empty(inventory_timestamp(c))
    &&& r.windows_product_key@ == match key {
        Some(k) => k,
        None => product_key_of(c),
    }
}

pub fn computer_to_info(c: &GlpiComputer, windows_product_key: Option<String>) -> (r: ComputerInfo)
    ensures
        computer_info_ok(*c, opt_view(windows_product_key), r),
{
    let contact = match &c.contact {
        Some(s) => s.clone(),
        None => String::new(),
    };
    let last_inventory = match computer_inventory_timestamp(c) {
        Some(t) => t,
        None => String::new(),
    };
    let key = match windows_product_key {
        Some(k) => k,
        None => pick_windows_product_key(c),
    };
    ComputerInfo {
        name: c.name.clone(),
        contact,
        serial_number: pick_serial_number(c),
        model: pick_model(c),
        last_inventory,
        windows_product_key: key,
    }
}

// ---------------------------------------------------------------------------
// Snapshots
// ---------------------------------------------------------------------------
/// An installation as plain values: computer, software id, software name,
/// publisher, version id, version name.
pub type InstallView = (u64, u64, Seq<char>, Seq<char>, u64, Seq<char>);

pub open spec fn install_view(s: SnapshotInstallation) -> InstallView {
    (s.computer_id, s.software_id, s.software_name@, s.publisher@, s.version_id, s.version_name@)
}

pub open spec fn install_views(s: Seq<SnapshotInstallation>) -> Seq<InstallView> {
    s.map_values(|x: SnapshotInstallation| install_view(x))
}

/// The snapshot row of an installation: through the last version row with its
/// version id and the last software row with that version's software id; none
/// when either is missing.
pub open spec fn install_row(sl: Seq<GlpiSoftware>, vs: Seq<GlpiSoftwareVersion>, inst: GlpiItemSoftwareVersion) -> Option<
    InstallView,
> {
    match version_row_upto(vs, inst.softwareversions_id, vs.len() as int) {
        None => None,
        Some(vi) => match software_row_upto(sl, vs[vi].softwares_id, sl.len() as int) {
            None => None,
            Some(si) => Some(
                (
                    inst.items_id,
                    sl[si].id,
                    sl[si].name@,
                    cleanup_publisher(sl[si].manufacturers_id@),
                    vs[vi].id,
                    vs[vi].name@,
                ),
            ),
        },
    }
}

/// The snapshot rows of the first `n` installations, in order.
pub open spec fn install_rows(
    sl: Seq<GlpiSoftware>,
    vs: Seq<GlpiSoftwareVersion>,
    is: Seq<GlpiItemSoftwareVersion>,
    n: int,
) -> Seq<InstallView>
    decreases n,
{
    if n <= 0 {
        Seq::empty()
    } else {
        let prev = install_rows(sl, vs, is, n - 1);
        match install_row(sl, vs, is[n - 1]) {
            Some(row) => prev.push(row),
            None => prev,
        }
    }
}

pub open spec fn snapshot_computer_ok(c: GlpiComputer, s: SnapshotComputer) -> bool {
    &&& s.id == c.id
    &&& s.name@ == c.name@
    &&& s.contact@ == text_or_empty(opt_view(c.contact))
    &&& s.serial_number@ == serial_of(c)
    &&& s.model@ == model_of(c)
    &&& s.last_inventory@ == text_or_empty(inventory_timestamp(c))
}

/// The snapshot of the four tables taken at `captured_at`: one entry per computer
/// row, in order, and the installations that resolve to a version and a software.
pub open spec fn snapshot_ok(
    sl: Seq<GlpiSoftware>,
    vs: Seq<GlpiSoftwareVersion>,
    is: Seq<GlpiItemSoftwareVersion>,
    cs: Seq<GlpiComputer>,
    captured_at: Seq<char>,
    snap: InventorySnapshot,
) -> bool {
    &&& snap.captured_at@ == captured_at
    &&& snap.computers@.len() == cs.len()
    &&& forall|i: int| 0 <= i < cs.len() ==> snapshot_computer_ok(cs[i], #[trigger] snap.computers@[i])
    &&& install_views(snap.installations@) == install_rows(sl, vs, is, is.len() as int)
}

fn snapshot_computer(c: &GlpiComputer) -> (r: SnapshotComputer)
    ensures
        snapshot_computer_ok(*c, r),
{
    let info = computer_to_info(c, None);
    SnapshotComputer {
        id: c.id,
        name: info.name,
        contact: info.contact,
        serial_number: info.serial_number,
        model: info.model,
        last_inventory: info.last_inventory,
    }
}

/// The snapshot of the four tables, stamped `captured_at`.
pub fn build_inventory_snapshot(
    software: &[GlpiSoftware],
    versions: &[GlpiSoftwareVersion],
    installations: &[GlpiItemSoftwareVersion],
    computers: &[GlpiComputer],
    captured_at: String,
) -> (r: InventorySnapshot)
    ensures
        snapshot_ok(software@, versions@, installations@, computers@, captured_at@, r),
{
    let stable = software_table(software);
    let vtable = version_table(versions);
    let mut comps: Vec<SnapshotComputer> = Vec::new();
    let mut k: usize = 0;
    while k < computers.len()
        invariant
            k <= computers@.len(),
            comps@.len() == k,
            forall|i: int| 0 <= i < k ==> snapshot_computer_ok(computers@[i], #[trigger] comps@[i]),
        decreases computers.len() - k,
    {
        comps.push(snapshot_computer(&computers[k]));
        k = k + 1;
    }
    let ghost sl = software@;
    let ghost vs = versions@;
    let ghost is = installations@;
    let mut rows: Vec<SnapshotInstallation> = Vec::new();
    let mut j: usize = 0;
    while j < installations.len()
        invariant
            j <= is.len(),
            sl == software@,
            vs == versions@,
            is == installations@,
            forall|id: u64|
                match software_row_upto(sl, id, sl.len() as int) {
                    Some(r) => #[trigger] stable@.contains_key(id) && stable@[id] == r,
                    None => !stable@.contains_key(id),
                },
            forall|vid: u64|
                match version_row_upto(vs, vid, vs.len() as int) {
                    Some(r) => #[trigger] vtable@.contains_key(vid) && vtable@[vid] == r,
                    None => !vtable@.contains_key(vid),
                },
            install_views(rows@) == install_rows(sl, vs, is, j as int),
        decreases installations.len() - j,
    {
        let inst = &installations[j];
        let ghost before = rows@;
        assert(install_rows(sl, vs, is, j as int + 1) == match install_row(sl, vs, is[j as int]) {
            Some(row) => install_rows(sl, vs, is, j as int).push(row),
            None => install_rows(sl, vs, is, j as int),
        });
        let vid = inst.softwareversions_id;
        assert(match version_row_upto(vs, vid, vs.len() as int) {
            Some(r) => vtable@.contains_key(vid) && vtable@[vid] == r,
            None => !vtable@.contains_key(vid),
        });
        match vtable.get(&vid) {
            None => {},
            Some(vi) => {
                let vi = *vi;
                proof {
                    lemma_version_row_bound(vs, vid, vs.len() as int);
                }
                let v = &versions[vi];
                let sid = v.softwares_id;
                assert(match software_row_upto(sl, sid, sl.len() as int) {
                    Some(r) => stable@.contains_key(sid) && stable@[sid] == r,
                    None => !stable@.contains_key(sid),
                });
                match stable.get(&sid) {
                    None => {},
                    Some(si) => {
                        let si = *si;
                        proof {
                            lemma_row_bound(sl, sid, sl.len() as int);
                        }
                        let s = &software[si];
                        let row = SnapshotInstallation {
                            computer_id: inst.items_id,
                            software_id: s.id,
                            software_name: s.name.clone(),
                            publisher: cleanup_publisher_text(s.manufacturers_id.as_str()),
                            version_id: v.id,
                            version_name: v.name.clone(),
                        };
                        rows.push(row);
                        assert(install_views(rows@) =~= install_views(before).push(install_view(row)));
                    },
                }
            },
        }
        j = j + 1;
    }
    InventorySnapshot { captured_at, computers: comps, installations: rows }
}


} // verus!
