//! The Windows product key shown for the machine selected in the license panel.
use crate::models::{ComputerInfo, LicenseCategory, LicenseKeyRecord, LicenseSource};
use crate::text::{trim, trim_str};
use std::collections::HashMap;
use vstd::prelude::*;

verus! {

broadcast use vstd::std_specs::hash::group_hash_axioms;

/// Record `r` is a Windows key recorded for machine `id`.
pub open spec fn windows_key_of(r: LicenseKeyRecord, id: u64) -> bool {
    r.category == LicenseCategory::Windows && r.computer_id == Some(id)
}

/// A key read from the machine's own inventory is preferred to a GLPI license
/// entry.
pub open spec fn source_priority(s: LicenseSource) -> int {
    match s {
        LicenseSource::ComputerInventory => 0,
        LicenseSource::Glpi => 1,
    }
}

/// The position of the chosen record among the first `n`: the first Windows key
/// of machine `id` of the best priority.
pub open spec fn chosen_record(recs: Seq<LicenseKeyRecord>, id: u64, n: int) -> Option<int>
    decreases n,
{
    if n <= 0 {
        None
    } else {
        let prev = chosen_record(recs, id, n - 1);
        let r = recs[n - 1];
        if !windows_key_of(r, id) {
            prev
        } else {
            match prev {
                Some(b) => if source_priority(recs[b].source) <= source_priority(r.source) {
                    prev
                } else {
                    Some(n - 1)
                },
                None => Some(n - 1),
            }
        }
    }
}

/// The key shown for machine `id`: the trimmed key of its computer entry when
/// not blank; otherwise the key of the chosen license record; otherwise nothing.
pub open spec fn machine_key(cmap: Map<u64, ComputerInfo>, recs: Seq<LicenseKeyRecord>, id: u64) -> Seq<char> {
    if cmap.contains_key(id) && trim(cmap[id].windows_product_key@).len() > 0 {
        trim(cmap[id].windows_product_key@)
    } else {
        match chosen_record(recs, id, recs.len() as int) {
            Some(i) => recs[i].license_key@,
            None => Seq::empty(),
        }
    }
}

/// The chosen record is a Windows key of the machine, and no record of the
/// machine has a better priority.
pub proof fn lemma_chosen_record_is_best(recs: Seq<LicenseKeyRecord>, id: u64, n: int)
    requires
        0 <= n <= recs.len(),
    ensures
        chosen_record(recs, id, n) matches Some(i) ==> 0 <= i < n && windows_key_of(recs[i], id) && forall|j: int|
            0 <= j < n && windows_key_of(#[trigger] recs[j], id) ==> source_priority(recs[i].source) <= source_priority(
                recs[j].source,
            ),
        chosen_record(recs, id, n) is None ==> forall|j: int| 0 <= j < n ==> !windows_key_of(#[trigger] recs[j], id),
    decreases n,
{
    if n > 0 {
        lemma_chosen_record_is_best(recs, id, n - 1);
    }
}

fn is_windows_key_of(r: &LicenseKeyRecord, id: u64) -> (b: bool)
    ensures
        b == windows_key_of(*r, id),
{
    let windows = match r.category {
        LicenseCategory::Windows => true,
        _ => false,
    };
    windows && match r.computer_id {
        Some(c) => c == id,
        None => false,
    }
}

fn priority_of(s: LicenseSource) -> (p: u8)
    ensures
        p as int == source_priority(s),
{
    match s {
        LicenseSource::ComputerInventory => 0,
        LicenseSource::Glpi => 1,
    }
}

/// The Windows product key shown for machine `machine_id` (see `machine_key`).
pub fn selected_machine_windows_key(
    computers: &HashMap<u64, ComputerInfo>,
    license_keys: &[LicenseKeyRecord],
    machine_id: u64,
) -> (r: String)
    ensures
        r@ == machine_key(computers@, license_keys@, machine_id),
{
    if let Some(info) = computers.get(&machine_id) {
        let direct = trim_str(info.windows_product_key.as_str());
        if !direct.as_str().is_empty() {
            return direct;
        }
    }
    let ghost recs = license_keys@;
    let mut best: Option<usize> = None;
    let mut i: usize = 0;
    while i < license_keys.len()
        invariant
            i <= recs.len(),
            recs == license_keys@,
            match best {
                Some(b) => chosen_record(recs, machine_id, i as int) == Some(b as int) && b < i,
                None => chosen_record(recs, machine_id, i as int) is None,
            },
        decreases license_keys.len() - i,
    {
        proof {
            lemma_chosen_record_is_best(recs, machine_id, i as int);
        }
        let rec = &license_keys[i];
        if is_windows_key_of(rec, machine_id) {
            let p = priority_of(rec.source);
            match best {
                Some(b) => {
                    if !(priority_of(license_keys[b].source) <= p) {
                        best = Some(i);
                    }
                },
                None => {
                    best = Some(i);
                },
            }
        }
        i = i + 1;
    }
    proof {
        lemma_chosen_record_is_best(recs, machine_id, i as int);
    }
    match best {
        Some(b) => license_keys[b].license_key.clone(),
        None => String::new(),
    }
}

} // verus!
