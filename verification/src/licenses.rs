//! Windows and Office license keys, from GLPI license rows and from free-form
//! computer fields.
use crate::history_store::append_chars;
use crate::json::JsonValue;
use crate::sorted_texts::texts;
use crate::models::{
    GlpiComputer, GlpiSoftware, GlpiSoftwareLicense, LicenseCategory, LicenseKeyRecord, LicenseSource,
};
use crate::text::{
    chars_of, chars_utf8_len, contains, is_ascii_alnum, is_blank, lowercase, parse_u64, parse_unsigned,
    str_contains, string_from_chars, text_lt, to_lower, trim, trim_chars, trim_str, utf8_len,
};
use vstd::prelude::*;

verus! {

// ---------------------------------------------------------------------------
// Fields, candidates and keys
// ---------------------------------------------------------------------------
/// A field whose name (lowercased) mentions a license, product key, CD key,
/// serial, Office, Windows, activation or key.
pub open spec fn key_field_name(field: Seq<char>) -> bool {
    let f = to_lower(field);
    contains(f, "license"@) || contains(f, "productkey"@) || contains(f, "product_key"@) || contains(f, "cdkey"@)
        || contains(f, "serial"@) || contains(f, "office"@) || contains(f, "windows"@) || contains(
        f,
        "activation"@,
    ) || contains(f, "key"@)
}

pub fn is_key_field_name(field: &str) -> (r: bool)
    ensures
        r == key_field_name(field@),
{
    let f = lowercase(field);
    let f = f.as_str();
    str_contains(f, "license") || str_contains(f, "productkey") || str_contains(f, "product_key") || str_contains(
        f,
        "cdkey",
    ) || str_contains(f, "serial") || str_contains(f, "office") || str_contains(f, "windows") || str_contains(
        f,
        "activation",
    ) || str_contains(f, "key")
}

pub open spec fn alnum_count(s: Seq<char>) -> nat
    decreases s.len(),
{
    if s.len() == 0 {
        0
    } else {
        alnum_count(s.drop_last()) + if is_ascii_alnum(s.last()) {
            1nat
        } else {
            0nat
        }
    }
}

pub open spec fn key_char(c: char) -> bool {
    is_ascii_alnum(c) || c == '-' || c == ' '
}

/// Looks like a license key: trimmed, 10 to 80 bytes of ASCII letters, digits,
/// hyphens and spaces, with at least 10 letters or digits and a hyphen.
pub open spec fn key_like(value: Seq<char>) -> bool {
    let v = trim(value);
    &&& 10 <= utf8_len(v) <= 80
    &&& forall|k: int| 0 <= k < v.len() ==> key_char(#[trigger] v[k])
    &&& alnum_count(v) >= 10
    &&& v.contains('-')
}

pub fn is_license_key_like(value: &str) -> (r: bool)
    ensures
        r == key_like(value@),
{
    let v = trim_chars(chars_of(value).as_slice());
    let n = chars_utf8_len(v.as_slice());
    if n < 10 || n > 80 {
        return false;
    }
    let mut alnum: usize = 0;
    let mut hyphen = false;
    let mut k: usize = 0;
    while k < v.len()
        invariant
            k <= v@.len(),
            v@ == trim(value@),
            forall|j: int| 0 <= j < k ==> key_char(#[trigger] v@[j]),
            alnum == alnum_count(v@.take(k as int)),
            alnum <= k,
            hyphen == v@.take(k as int).contains('-'),
        decreases v.len() - k,
    {
        let c = v[k];
        let ghost pre = v@.take(k as int);
        assert(v@.take(k + 1).drop_last() =~= pre);
        let is_alnum = crate::text::char_is_ascii_alnum(c);
        if !(is_alnum || c == '-' || c == ' ') {
            assert(!key_char(v@[k as int]));
            return false;
        }
        if is_alnum {
            alnum = alnum + 1;
        }
        proof {
            let cur = v@.take(k + 1);
            assert(cur.last() == c);
            if cur.contains('-') {
                let j = choose|j: int| 0 <= j < cur.len() && cur[j] == '-';
                if j < k {
                    assert(pre[j] == '-');
                }
            }
            if pre.contains('-') {
                let j = choose|j: int| 0 <= j < pre.len() && pre[j] == '-';
                assert(cur[j] == '-');
            }
        }
        if c == '-' {
            hyphen = true;
        }
        k = k + 1;
    }
    assert(v@.take(v@.len() as int) =~= v@);
    alnum >= 10 && hyphen
}

/// Windows when the product mentions Windows, Office when it mentions Office or
/// Microsoft 365, else third party (compared lowercased).
pub open spec fn category_of(product: Seq<char>) -> LicenseCategory {
    let p = to_lower(product);
    if contains(p, "windows"@) {
        LicenseCategory::Windows
    } else if contains(p, "office"@) || contains(p, "microsoft 365"@) {
        LicenseCategory::Office
    } else {
        LicenseCategory::ThirdParty
    }
}

pub fn classify_category(product: &str) -> (r: LicenseCategory)
    ensures
        r == category_of(product@),
{
    let p = lowercase(product);
    if str_contains(p.as_str(), "windows") {
        LicenseCategory::Windows
    } else if str_contains(p.as_str(), "office") || str_contains(p.as_str(), "microsoft 365") {
        LicenseCategory::Office
    } else {
        LicenseCategory::ThirdParty
    }
}

/// The product a key-bearing computer field stands for.
pub open spec fn product_of_field(field: Seq<char>) -> Seq<char> {
    let f = to_lower(field);
    if contains(f, "office"@) {
        "Microsoft Office"@
    } else if contains(f, "windows"@) {
        "Microsoft Windows"@
    } else {
        "Field: "@ + field
    }
}

pub fn field_to_product(field: &str) -> (r: String)
    ensures
        r@ == product_of_field(field@),
{
    let f = lowercase(field);
    if str_contains(f.as_str(), "office") {
        "Microsoft Office".to_owned()
    } else if str_contains(f.as_str(), "windows") {
        "Microsoft Windows".to_owned()
    } else {
        let mut v = chars_of("Field: ");
        let w = chars_of(field);
        append_chars(&mut v, &w);
        string_from_chars(v.as_slice())
    }
}

// ---------------------------------------------------------------------------
// Texts inside a JSON value
// ---------------------------------------------------------------------------
/// The texts a JSON value holds, in order: a string trimmed, a number as
/// printed, and those of every element or member value.
pub open spec fn json_texts(v: JsonValue) -> Seq<Seq<char>>
    decreases v, 0nat,
{
    match v {
        JsonValue::String(s) => seq![trim(s@)],
        JsonValue::Number(n) => seq![n@],
        JsonValue::Array(a) => list_texts(a@, a@.len() as int),
        JsonValue::Object(m) => member_texts(m@, m@.len() as int),
        _ => Seq::empty(),
    }
}

/// The texts of the first `k` values of a list.
pub open spec fn list_texts(a: Seq<JsonValue>, k: int) -> Seq<Seq<char>>
    decreases a, k,
{
    if k <= 0 || k > a.len() {
        Seq::empty()
    } else {
        list_texts(a, k - 1) + json_texts(a[k - 1])
    }
}

/// The texts of the values of the first `k` members of an object.
pub open spec fn member_texts(m: Seq<(String, JsonValue)>, k: int) -> Seq<Seq<char>>
    decreases m, k,
{
    if k <= 0 || k > m.len() {
        Seq::empty()
    } else {
        member_texts(m, k - 1) + json_texts(m[k - 1].1)
    }
}

fn append_strings(dst: &mut Vec<String>, src: &Vec<String>)
    ensures
        final(dst)@ == old(dst)@ + src@,
{
    let mut k: usize = 0;
    while k < src.len()
        invariant
            k <= src@.len(),
            dst@ == old(dst)@ + src@.take(k as int),
        decreases src.len() - k,
    {
        dst.push(src[k].clone());
        k = k + 1;
        assert(dst@ =~= old(dst)@ + src@.take(k as int));
    }
    assert(src@.take(src@.len() as int) =~= src@);
}

proof fn lemma_texts_concat(a: Seq<String>, b: Seq<String>)
    ensures
        texts(a + b) == texts(a) + texts(b),
{
    assert(texts(a + b) =~= texts(a) + texts(b));
}

/// The texts a JSON value holds (see `json_texts`).
pub fn extract_string_candidates(value: &JsonValue) -> (r: Vec<String>)
    ensures
        texts(r@) == json_texts(*value),
    decreases value,
{
    match value {
        JsonValue::String(s) => {
            let mut v: Vec<String> = Vec::new();
            v.push(trim_str(s.as_str()));
            assert(texts(v@) =~= seq![trim(s@)]);
            v
        },
        JsonValue::Number(n) => {
            let mut v: Vec<String> = Vec::new();
            v.push(n.clone());
            assert(texts(v@) =~= seq![n@]);
            v
        },
        JsonValue::Array(a) => {
            let mut out: Vec<String> = Vec::new();
            let mut k: usize = 0;
            assert(texts(out@) =~= Seq::<Seq<char>>::empty());
            while k < a.len()
                invariant
                    k <= a@.len(),
                    *value == JsonValue::Array(*a),
                    texts(out@) == list_texts(a@, k as int),
                decreases a.len() - k,
            {
                proof {
                    assert(decreases_to!(*value => (*value)->Array_0));
                    assert((*value)->Array_0 == *a);
                    assert(decreases_to!(*a => a@));
                    assert(decreases_to!(a@ => a@[k as int]));
                    assert(decreases_to!(*value => a@[k as int]));
                }
                let sub = extract_string_candidates(&a[k]);
                let ghost before = out@;
                append_strings(&mut out, &sub);
                proof {
                    lemma_texts_concat(before, sub@);
                }
                k = k + 1;
            }
            out
        },
        JsonValue::Object(m) => {
            let mut out: Vec<String> = Vec::new();
            let mut k: usize = 0;
            assert(texts(out@) =~= Seq::<Seq<char>>::empty());
            while k < m.len()
                invariant
                    k <= m@.len(),
                    *value == JsonValue::Object(*m),
                    texts(out@) == member_texts(m@, k as int),
                decreases m.len() - k,
            {
                proof {
                    assert(decreases_to!(*value => (*value)->Object_0));
                    assert((*value)->Object_0 == *m);
                    assert(decreases_to!(*m => m@));
                    assert(decreases_to!(m@ => m@[k as int]));
                    assert(decreases_to!(m@[k as int] => m@[k as int].1));
                    assert(decreases_to!(*value => m@[k as int].1));
                }
                let sub = extract_string_candidates(&m[k].1);
                let ghost before = out@;
                append_strings(&mut out, &sub);
                proof {
                    lemma_texts_concat(before, sub@);
                }
                k = k + 1;
            }
            out
        },
        _ => {
            let v: Vec<String> = Vec::new();
            assert(texts(v@) =~= Seq::<Seq<char>>::empty());
            v
        },
    }
}

// ---------------------------------------------------------------------------
// Reading a value out of free-form fields
// ---------------------------------------------------------------------------
/// The field's name, lowercased, contains one of `keys`.
pub open spec fn field_named(field: Seq<char>, keys: Seq<&str>) -> bool {
    exists|k: int| 0 <= k < keys.len() && contains(to_lower(field), #[trigger] keys[k]@)
}

fn field_has_name(field: &str, keys: &[&str]) -> (r: bool)
    ensures
        r == field_named(field@, keys@),
{
    let f = lowercase(field);
    let mut k: usize = 0;
    while k < keys.len()
        invariant
            k <= keys@.len(),
            f@ == to_lower(field@),
            forall|j: int| 0 <= j < k ==> !contains(to_lower(field@), #[trigger] keys@[j]@),
        decreases keys.len() - k,
    {
        if str_contains(f.as_str(), keys[k]) {
            return true;
        }
        k = k + 1;
    }
    false
}

/// The first of the texts from position `j` on that is not blank, trimmed.
pub open spec fn first_nonblank(ts: Seq<Seq<char>>, j: int) -> Option<Seq<char>>
    decreases ts.len() - j,
{
    if j < 0 || j >= ts.len() {
        None
    } else if trim(ts[j]).len() > 0 {
        Some(trim(ts[j]))
    } else {
        first_nonblank(ts, j + 1)
    }
}

/// The first of the texts from position `j` on that reads as a `u64` once trimmed.
pub open spec fn first_id(ts: Seq<Seq<char>>, j: int) -> Option<int>
    decreases ts.len() - j,
{
    if j < 0 || j >= ts.len() {
        None
    } else if parse_unsigned(trim(ts[j]), u64::MAX as int) is Some {
        parse_unsigned(trim(ts[j]), u64::MAX as int)
    } else {
        first_id(ts, j + 1)
    }
}

/// The first non-blank text of the first field from position `j` on that is
/// named by `keys` and holds one.
pub open spec fn read_text_from(fields: Seq<(String, JsonValue)>, keys: Seq<&str>, j: int) -> Option<Seq<char>>
    decreases fields.len() - j,
{
    if j < 0 || j >= fields.len() {
        None
    } else if field_named(fields[j].0@, keys) && first_nonblank(json_texts(fields[j].1), 0) is Some {
        first_nonblank(json_texts(fields[j].1), 0)
    } else {
        read_text_from(fields, keys, j + 1)
    }
}

/// The first id of the first field from position `j` on that is named by `keys`
/// and holds one.
pub open spec fn read_id_from(fields: Seq<(String, JsonValue)>, keys: Seq<&str>, j: int) -> Option<int>
    decreases fields.len() - j,
{
    if j < 0 || j >= fields.len() {
        None
    } else if field_named(fields[j].0@, keys) && first_id(json_texts(fields[j].1), 0) is Some {
        first_id(json_texts(fields[j].1), 0)
    } else {
        read_id_from(fields, keys, j + 1)
    }
}

pub fn read_string_field(fields: &Vec<(String, JsonValue)>, keys: &[&str]) -> (r: Option<String>)
    ensures
        opt_text(r) == read_text_from(fields@, keys@, 0),
{
    let mut j: usize = 0;
    while j < fields.len()
        invariant
            j <= fields@.len(),
            read_text_from(fields@, keys@, 0) == read_text_from(fields@, keys@, j as int),
        decreases fields.len() - j,
    {
        if field_has_name(fields[j].0.as_str(), keys) {
            let cands = extract_string_candidates(&fields[j].1);
            let ghost ts = texts(cands@);
            let mut c: usize = 0;
            while c < cands.len()
                invariant
                    c <= cands@.len(),
                    ts == texts(cands@),
                    ts == json_texts(fields@[j as int].1),
                    j < fields@.len(),
                    field_named(fields@[j as int].0@, keys@),
                    read_text_from(fields@, keys@, 0) == read_text_from(fields@, keys@, j as int),
                    first_nonblank(ts, 0) == first_nonblank(ts, c as int),
                decreases cands.len() - c,
            {
                let t = trim_str(cands[c].as_str());
                if !t.as_str().is_empty() {
                    return Some(t);
                }
                c = c + 1;
            }
        }
        j = j + 1;
    }
    None
}

pub fn read_u64_field(fields: &Vec<(String, JsonValue)>, keys: &[&str]) -> (r: Option<u64>)
    ensures
        match r {
            Some(n) => read_id_from(fields@, keys@, 0) == Some(n as int),
            None => read_id_from(fields@, keys@, 0) is None,
        },
{
    let mut j: usize = 0;
    while j < fields.len()
        invariant
            j <= fields@.len(),
            read_id_from(fields@, keys@, 0) == read_id_from(fields@, keys@, j as int),
        decreases fields.len() - j,
    {
        if field_has_name(fields[j].0.as_str(), keys) {
            let cands = extract_string_candidates(&fields[j].1);
            let ghost ts = texts(cands@);
            let mut c: usize = 0;
            while c < cands.len()
                invariant
                    c <= cands@.len(),
                    ts == texts(cands@),
                    ts == json_texts(fields@[j as int].1),
                    j < fields@.len(),
                    field_named(fields@[j as int].0@, keys@),
                    read_id_from(fields@, keys@, 0) == read_id_from(fields@, keys@, j as int),
                    first_id(ts, 0) == first_id(ts, c as int),
                decreases cands.len() - c,
            {
                let t = trim_str(cands[c].as_str());
                match parse_u64(t.as_str()) {
                    Some(id) => {
                        return Some(id);
                    },
                    None => {},
                }
                c = c + 1;
            }
        }
        j = j + 1;
    }
    None
}

pub open spec fn opt_text(o: Option<String>) -> Option<Seq<char>> {
    match o {
        Some(s) => Some(s@),
        None => None,
    }
}

// ---------------------------------------------------------------------------
// Collecting the keys
// ---------------------------------------------------------------------------
/// Field `f` of `fields` is a key field that offers `key`, a key-like text.
pub open spec fn field_offers(fields: Seq<(String, JsonValue)>, f: int, key: Seq<char>) -> bool {
    &&& 0 <= f < fields.len()
    &&& key_field_name(fields[f].0@)
    &&& json_texts(fields[f].1).contains(key)
    &&& key_like(key)
}

/// `key` is one of a license's key candidates: its trimmed serial, or a key-like
/// text of one of its key fields.
pub open spec fn license_has_key(lic: GlpiSoftwareLicense, key: Seq<char>) -> bool {
    (trim(lic.serial@).len() > 0 && key == trim(lic.serial@)) || exists|f: int| #[trigger]
        field_offers(lic.extra_fields@, f, key)
}

/// The fallback name of a license: its own name, or "Unknown software" when blank.
pub open spec fn license_name(lic: GlpiSoftwareLicense) -> Seq<char> {
    if trim(lic.name@).len() == 0 {
        "Unknown software"@
    } else {
        lic.name@
    }
}

/// The product a license is for: the name of the software its `softwares_id`
/// names (last software row with that id), else its fallback name.
pub open spec fn license_product(sl: Seq<GlpiSoftware>, lic: GlpiSoftwareLicense) -> Seq<char> {
    match parse_unsigned(lic.softwares_id@, u64::MAX as int) {
        Some(id) => match crate::aggregator::software_row_upto(sl, id as u64, sl.len() as int) {
            Some(r) => sl[r].name@,
            None => license_name(lic),
        },
        None => license_name(lic),
    }
}

/// The position of the last of the first `n` computer rows with id `id`.
pub open spec fn computer_row_upto(cs: Seq<GlpiComputer>, id: u64, n: int) -> Option<int>
    decreases n,
{
    if n <= 0 {
        None
    } else if cs[n - 1].id == id {
        Some(n - 1)
    } else {
        computer_row_upto(cs, id, n - 1)
    }
}

pub open spec fn computer_keys() -> Seq<&'static str> {
    seq!["computers_id", "computer"]
}

pub open spec fn user_keys() -> Seq<&'static str> {
    seq!["users_id", "contact", "user"]
}

/// A record as plain values: source, category, product, key, computer id,
/// computer name, user contact, notes.
pub type RecordView = (
    LicenseSource,
    LicenseCategory,
    Seq<char>,
    Seq<char>,
    Option<u64>,
    Option<Seq<char>>,
    Option<Seq<char>>,
    Option<Seq<char>>,
);

pub open spec fn record_view(r: LicenseKeyRecord) -> RecordView {
    (
        r.source,
        r.category,
        r.product_name@,
        r.license_key@,
        r.computer_id,
        opt_text(r.computer_name),
        opt_text(r.user_contact),
        opt_text(r.notes),
    )
}

/// A comment kept as a note when it is not blank.
pub open spec fn note_of(comment: Option<String>) -> Option<Seq<char>> {
    match comment {
        Some(c) => if trim(c@).len() > 0 {
            Some(c@)
        } else {
            None
        },
        None => None,
    }
}

pub open spec fn contact_or_empty(c: GlpiComputer) -> Seq<char> {
    match c.contact {
        Some(s) => s@,
        None => Seq::empty(),
    }
}

/// The record of key `key` of license `lic`. The computer comes from the
/// license's computer fields (an id, else a name that reads as an id); when a
/// computer row has that id, its name replaces the field's, and its contact
/// fills a missing user contact.
pub open spec fn glpi_record(
    sl: Seq<GlpiSoftware>,
    cs: Seq<GlpiComputer>,
    lic: GlpiSoftwareLicense,
    key: Seq<char>,
) -> RecordView {
    let product = license_product(sl, lic);
    let fields = lic.extra_fields@;
    let cid0 = read_id_from(fields, computer_keys(), 0);
    let cname0 = read_text_from(fields, computer_keys(), 0);
    let contact0 = read_text_from(fields, user_keys(), 0);
    let id: Option<int> = match cid0 {
        Some(x) => Some(x),
        None => match cname0 {
            Some(n) => parse_unsigned(n, u64::MAX as int),
            None => None,
        },
    };
    let (cid, cname, contact) = match id {
        Some(x) => match computer_row_upto(cs, x as u64, cs.len() as int) {
            Some(r) => (
                Some(x as u64),
                Some(cs[r].name@),
                if contact0 is None && contact_or_empty(cs[r]).len() > 0 {
                    Some(contact_or_empty(cs[r]))
                } else {
                    contact0
                },
            ),
            None => (Some(x as u64), cname0, contact0),
        },
        None => (None, cname0, contact0),
    };
    (LicenseSource::Glpi, category_of(product), product, key, cid, cname, contact, note_of(lic.comment))
}

/// The record of key `key` found in field `f` of computer `c`.
pub open spec fn computer_record(c: GlpiComputer, f: int, key: Seq<char>) -> RecordView {
    let field = c.extra_fields@[f].0@;
    let product = product_of_field(field);
    let contact = match c.contact {
        Some(s) => if trim(s@).len() > 0 {
            Some(s@)
        } else {
            None
        },
        None => None,
    };
    (
        LicenseSource::ComputerInventory,
        category_of(product),
        product,
        key,
        Some(c.id),
        Some(c.name@),
        contact,
        Some("Inventory field: "@ + field),
    )
}

pub open spec fn glpi_dedup(product: Seq<char>, key: Seq<char>) -> Seq<char> {
    "glpi|"@ + to_lower(product) + "|"@ + to_lower(key)
}

pub open spec fn computer_dedup(id: u64, product: Seq<char>, key: Seq<char>) -> Seq<char> {
    "comp|"@ + crate::text::decimal(id as nat) + "|"@ + to_lower(product) + "|"@ + to_lower(key)
}

/// The text under which a record is kept once.
pub open spec fn dedup_of(r: RecordView) -> Seq<char> {
    if r.0 == LicenseSource::Glpi {
        glpi_dedup(r.2, r.3)
    } else {
        computer_dedup(r.4.unwrap(), r.2, r.3)
    }
}

/// A record comes from a Windows or Office license's key, or from a key-like
/// text of a computer's key field whose product is Windows or Office.
pub open spec fn record_sound(
    sl: Seq<GlpiSoftware>,
    ls: Seq<GlpiSoftwareLicense>,
    cs: Seq<GlpiComputer>,
    r: RecordView,
) -> bool {
    ||| exists|j: int|
        0 <= j < ls.len() && license_has_key(#[trigger] ls[j], r.3) && category_of(license_product(sl, ls[j]))
            != LicenseCategory::ThirdParty && r == glpi_record(sl, cs, ls[j], r.3)
    ||| exists|c: int, f: int|
        0 <= c < cs.len() && #[trigger] field_offers(cs[c].extra_fields@, f, r.3) && category_of(
            product_of_field(cs[c].extra_fields@[f].0@),
        ) != LicenseCategory::ThirdParty && r == computer_record(cs[c], f, r.3)
}

pub open spec fn seen_has(seen: Seq<String>, t: Seq<char>) -> bool {
    exists|i: int| 0 <= i < seen.len() && #[trigger] seen[i]@ == t
}

/// Records ordered by product, then key (both lowercased).
pub open spec fn record_before(a: LicenseKeyRecord, b: LicenseKeyRecord) -> bool {
    text_lt(to_lower(a.product_name@), to_lower(b.product_name@)) || (to_lower(a.product_name@) == to_lower(
        b.product_name@,
    ) && text_lt(to_lower(a.license_key@), to_lower(b.license_key@)))
}

/// What `aggregate_license_keys` returns: sound records, one per dedup text,
/// each GLPI record taken from the first license that offers its key, covering
/// every Windows or Office key, ordered by product and key.
pub open spec fn license_keys_ok(
    sl: Seq<GlpiSoftware>,
    ls: Seq<GlpiSoftwareLicense>,
    cs: Seq<GlpiComputer>,
    r: Seq<LicenseKeyRecord>,
) -> bool {
    &&& forall|i: int| 0 <= i < r.len() ==> record_sound(sl, ls, cs, record_view(#[trigger] r[i]))
    &&& forall|i: int| 0 <= i < r.len() ==> glpi_first(sl, ls, cs, record_view(#[trigger] r[i]))
    &&& forall|a: int, b: int|
        0 <= a < b < r.len() ==> dedup_of(record_view(#[trigger] r[a])) != dedup_of(record_view(#[trigger] r[b]))
    &&& forall|j: int, key: Seq<char>|
        0 <= j < ls.len() && #[trigger] license_has_key(ls[j], key) && category_of(license_product(sl, ls[j]))
            != LicenseCategory::ThirdParty ==> exists|i: int|
            0 <= i < r.len() && #[trigger] dedup_of(record_view(r[i])) == glpi_dedup(license_product(sl, ls[j]), key)
    &&& forall|c: int, f: int, key: Seq<char>|
        0 <= c < cs.len() && #[trigger] field_offers(cs[c].extra_fields@, f, key) && category_of(
            product_of_field(cs[c].extra_fields@[f].0@),
        ) != LicenseCategory::ThirdParty ==> exists|i: int|
            0 <= i < r.len() && #[trigger] dedup_of(record_view(r[i])) == computer_dedup(
                cs[c].id,
                product_of_field(cs[c].extra_fields@[f].0@),
                key,
            )
    &&& forall|a: int, b: int| 0 <= a < b < r.len() ==> !record_before(#[trigger] r[b], #[trigger] r[a])
}

fn computer_rows(cs: &[GlpiComputer]) -> (m: std::collections::HashMap<u64, usize>)
    ensures
        forall|id: u64|
            match computer_row_upto(cs@, id, cs@.len() as int) {
                Some(r) => #[trigger] m@.contains_key(id) && m@[id] == r,
                None => !m@.contains_key(id),
            },
{
    let mut m: std::collections::HashMap<u64, usize> = std::collections::HashMap::new();
    let mut k: usize = 0;
    while k < cs.len()
        invariant
            k <= cs@.len(),
            forall|id: u64|
                match computer_row_upto(cs@, id, k as int) {
                    Some(r) => #[trigger] m@.contains_key(id) && m@[id] == r,
                    None => !m@.contains_key(id),
                },
        decreases cs.len() - k,
    {
        m.insert(cs[k].id, k);
        k = k + 1;
    }
    m
}

proof fn lemma_computer_row_bound(cs: Seq<GlpiComputer>, id: u64, n: int)
    ensures
        match computer_row_upto(cs, id, n) {
            Some(r) => 0 <= r < n,
            None => true,
        },
    decreases n,
{
    if n > 0 {
        lemma_computer_row_bound(cs, id, n - 1);
    }
}

proof fn lemma_software_row_bound(sl: Seq<GlpiSoftware>, id: u64, n: int)
    ensures
        match crate::aggregator::software_row_upto(sl, id, n) {
            Some(r) => 0 <= r < n,
            None => true,
        },
    decreases n,
{
    if n > 0 {
        lemma_software_row_bound(sl, id, n - 1);
    }
}

fn license_product_text(
    rows: &std::collections::HashMap<u64, usize>,
    sl: &[GlpiSoftware],
    lic: &GlpiSoftwareLicense,
) -> (r: String)
    requires
        forall|id: u64|
            match crate::aggregator::software_row_upto(sl@, id, sl@.len() as int) {
                Some(r) => #[trigger] rows@.contains_key(id) && rows@[id] == r,
                None => !rows@.contains_key(id),
            },
    ensures
        r@ == license_product(sl@, *lic),
{
    let fallback = if is_blank(lic.name.as_str()) {
        "Unknown software".to_owned()
    } else {
        lic.name.clone()
    };
    match parse_u64(lic.softwares_id.as_str()) {
        Some(id) => {
            proof {
                lemma_software_row_bound(sl@, id, sl@.len() as int);
            }
            match rows.get(&id) {
                Some(r) => sl[*r].name.clone(),
                None => fallback,
            }
        },
        None => fallback,
    }
}

/// The computer id, name and user contact of a license's records.
fn resolve_computer(
    lic: &GlpiSoftwareLicense,
    cs: &[GlpiComputer],
    rows: &std::collections::HashMap<u64, usize>,
) -> (r: (Option<u64>, Option<String>, Option<String>))
    requires
        forall|id: u64|
            match computer_row_upto(cs@, id, cs@.len() as int) {
                Some(r) => #[trigger] rows@.contains_key(id) && rows@[id] == r,
                None => !rows@.contains_key(id),
            },
    ensures
        ({
            let g = glpi_record(Seq::empty(), cs@, *lic, Seq::empty());
            r.0 == g.4 && opt_text(r.1) == g.5 && opt_text(r.2) == g.6
        }),
{
    let mut ck: Vec<&str> = Vec::new();
    ck.push("computers_id");
    ck.push("computer");
    let mut uk: Vec<&str> = Vec::new();
    uk.push("users_id");
    uk.push("contact");
    uk.push("user");
    proof {
        assert(ck@ =~= computer_keys());
        assert(uk@ =~= user_keys());
    }
    let cid0 = read_u64_field(&lic.extra_fields, ck.as_slice());
    let cname0 = read_string_field(&lic.extra_fields, ck.as_slice());
    let contact0 = read_string_field(&lic.extra_fields, uk.as_slice());
    let id: Option<u64> = match cid0 {
        Some(x) => Some(x),
        None => match &cname0 {
            Some(n) => parse_u64(n.as_str()),
            None => None,
        },
    };
    match id {
        Some(x) => {
            proof {
                lemma_computer_row_bound(cs@, x, cs@.len() as int);
            }
            match rows.get(&x) {
                Some(r) => {
                    let c = &cs[*r];
                    let contact_text: String = match &c.contact {
                        Some(s) => s.clone(),
                        None => String::new(),
                    };
                    let contact = if contact0.is_none() && !contact_text.as_str().is_empty() {
                        Some(contact_text)
                    } else {
                        contact0
                    };
                    (Some(x), Some(c.name.clone()), contact)
                },
                None => (Some(x), cname0, contact0),
            }
        },
        None => (None, cname0, contact0),
    }
}

fn glpi_dedup_text(product: &str, key: &str) -> (r: String)
    ensures
        r@ == glpi_dedup(product@, key@),
{
    let mut v = chars_of("glpi|");
    append_chars(&mut v, &chars_of(lowercase(product).as_str()));
    append_chars(&mut v, &chars_of("|"));
    append_chars(&mut v, &chars_of(lowercase(key).as_str()));
    string_from_chars(v.as_slice())
}

fn computer_dedup_text(id: u64, product: &str, key: &str) -> (r: String)
    ensures
        r@ == computer_dedup(id, product@, key@),
{
    let mut v = chars_of("comp|");
    append_chars(&mut v, &crate::text::decimal_chars(id));
    append_chars(&mut v, &chars_of("|"));
    append_chars(&mut v, &chars_of(lowercase(product).as_str()));
    append_chars(&mut v, &chars_of("|"));
    append_chars(&mut v, &chars_of(lowercase(key).as_str()));
    string_from_chars(v.as_slice())
}

fn copy_opt(o: &Option<String>) -> (r: Option<String>)
    ensures
        r == *o,
{
    match o {
        Some(s) => Some(s.clone()),
        None => None,
    }
}

/// The records and their dedup texts, each text once.
pub open spec fn store_ok(records: Seq<LicenseKeyRecord>, seen: Seq<String>) -> bool {
    &&& records.len() == seen.len()
    &&& forall|i: int| 0 <= i < seen.len() ==> #[trigger] seen[i]@ == dedup_of(record_view(records[i]))
    &&& forall|a: int, b: int| 0 <= a < b < seen.len() ==> #[trigger] seen[a]@ != #[trigger] seen[b]@
}

fn seen_contains(seen: &Vec<String>, t: &String) -> (r: bool)
    ensures
        r == seen_has(seen@, t@),
{
    let mut i: usize = 0;
    while i < seen.len()
        invariant
            i <= seen@.len(),
            forall|k: int| 0 <= k < i ==> #[trigger] seen@[k]@ != t@,
        decreases seen.len() - i,
    {
        if crate::text::str_eq(seen[i].as_str(), t.as_str()) {
            return true;
        }
        i = i + 1;
    }
    false
}

/// Keeps `rec` unless a record with the same dedup text is kept already.
fn offer(records: &mut Vec<LicenseKeyRecord>, seen: &mut Vec<String>, rec: LicenseKeyRecord, dk: String)
    requires
        store_ok(old(records)@, old(seen)@),
        dk@ == dedup_of(record_view(rec)),
    ensures
        store_ok(final(records)@, final(seen)@),
        seen_has(final(seen)@, dk@),
        forall|t: Seq<char>| seen_has(old(seen)@, t) ==> seen_has(final(seen)@, t),
        final(records)@.len() >= old(records)@.len(),
        forall|i: int| 0 <= i < old(records)@.len() ==> final(records)@[i] == old(records)@[i],
        forall|i: int| old(records)@.len() <= i < final(records)@.len() ==> final(records)@[i] == rec,
        final(records)@.len() > old(records)@.len() ==> !seen_has(old(seen)@, dk@),
{
    if seen_contains(seen, &dk) {
        return;
    }
    let ghost s0 = seen@;
    let ghost dkv = dk@;
    records.push(rec);
    seen.push(dk);
    proof {
        assert(seen@[s0.len() as int]@ == dkv);
        assert forall|t: Seq<char>| seen_has(s0, t) implies seen_has(seen@, t) by {
            let i = choose|i: int| 0 <= i < s0.len() && #[trigger] s0[i]@ == t;
            assert(seen@[i] == s0[i]);
        }
        assert forall|a: int, b: int| 0 <= a < b < seen@.len() implies #[trigger] seen@[a]@ != #[trigger] seen@[b]@ by {
            if b == s0.len() {
                assert(seen@[a] == s0[a]);
            } else {
                assert(seen@[a] == s0[a] && seen@[b] == s0[b]);
            }
        }
    }
}

pub open spec fn all_sound(
    sl: Seq<GlpiSoftware>,
    ls: Seq<GlpiSoftwareLicense>,
    cs: Seq<GlpiComputer>,
    records: Seq<LicenseKeyRecord>,
) -> bool {
    forall|i: int| 0 <= i < records.len() ==> record_sound(sl, ls, cs, record_view(#[trigger] records[i]))
}

/// A GLPI record comes from the first license, in license order, that offers a
/// Windows or Office key under the record's dedup text: no earlier license
/// offers one.
pub open spec fn glpi_first(
    sl: Seq<GlpiSoftware>,
    ls: Seq<GlpiSoftwareLicense>,
    cs: Seq<GlpiComputer>,
    r: RecordView,
) -> bool {
    r.0 == LicenseSource::Glpi ==> exists|j: int|
        {
            &&& 0 <= j < ls.len()
            &&& #[trigger] license_has_key(ls[j], r.3)
            &&& r == glpi_record(sl, cs, ls[j], r.3)
            &&& forall|j2: int, key: Seq<char>|
                0 <= j2 < j && #[trigger] license_has_key(ls[j2], key) && category_of(license_product(sl, ls[j2]))
                    != LicenseCategory::ThirdParty ==> glpi_dedup(license_product(sl, ls[j2]), key) != dedup_of(r)
        }
}

pub open spec fn all_first(
    sl: Seq<GlpiSoftware>,
    ls: Seq<GlpiSoftwareLicense>,
    cs: Seq<GlpiComputer>,
    records: Seq<LicenseKeyRecord>,
) -> bool {
    forall|i: int| 0 <= i < records.len() ==> glpi_first(sl, ls, cs, record_view(#[trigger] records[i]))
}

/// The coverage of licenses before `j`.
pub open spec fn licenses_covered(
    sl: Seq<GlpiSoftware>,
    ls: Seq<GlpiSoftwareLicense>,
    seen: Seq<String>,
    j: int,
) -> bool {
    forall|j2: int, key: Seq<char>|
        0 <= j2 < j && #[trigger] license_has_key(ls[j2], key) && category_of(license_product(sl, ls[j2]))
            != LicenseCategory::ThirdParty ==> seen_has(seen, glpi_dedup(license_product(sl, ls[j2]), key))
}

/// Offers the record of key `key` of license `j`.
fn offer_license_key(
    records: &mut Vec<LicenseKeyRecord>,
    seen: &mut Vec<String>,
    Ghost(sl): Ghost<Seq<GlpiSoftware>>,
    Ghost(ls): Ghost<Seq<GlpiSoftwareLicense>>,
    Ghost(cs): Ghost<Seq<GlpiComputer>>,
    Ghost(j): Ghost<int>,
    product: &String,
    category: LicenseCategory,
    cid: Option<u64>,
    cname: &Option<String>,
    contact: &Option<String>,
    notes: &Option<String>,
    key: String,
)
    requires
        0 <= j < ls.len(),
        store_ok(old(records)@, old(seen)@),
        all_sound(sl, ls, cs, old(records)@),
        license_has_key(ls[j], key@),
        product@ == license_product(sl, ls[j]),
        category == category_of(product@),
        category != LicenseCategory::ThirdParty,
        ({
            let g = glpi_record(sl, cs, ls[j], key@);
            cid == g.4 && opt_text(*cname) == g.5 && opt_text(*contact) == g.6 && opt_text(*notes) == g.7
        }),
        all_first(sl, ls, cs, old(records)@),
        licenses_covered(sl, ls, old(seen)@, j),
    ensures
        store_ok(final(records)@, final(seen)@),
        all_sound(sl, ls, cs, final(records)@),
        all_first(sl, ls, cs, final(records)@),
        seen_has(final(seen)@, glpi_dedup(product@, key@)),
        forall|t: Seq<char>| seen_has(old(seen)@, t) ==> seen_has(final(seen)@, t),
{
    let dk = glpi_dedup_text(product.as_str(), key.as_str());
    let rec = LicenseKeyRecord {
        source: LicenseSource::Glpi,
        category,
        product_name: product.clone(),
        license_key: key,
        computer_id: cid,
        computer_name: copy_opt(cname),
        user_contact: copy_opt(contact),
        notes: copy_opt(notes),
    };
    proof {
        assert(record_view(rec) == glpi_record(sl, cs, ls[j], rec.license_key@));
        assert(record_sound(sl, ls, cs, record_view(rec)));
    }
    let ghost r0 = records@;
    let ghost s0 = seen@;
    offer(records, seen, rec, dk);
    proof {
        assert forall|i: int| 0 <= i < records@.len() implies record_sound(sl, ls, cs, record_view(#[trigger] records@[i])) by {
            if i < r0.len() {
                assert(records@[i] == r0[i]);
            }
        }
        if records@.len() > r0.len() {
            let rv = record_view(rec);
            assert forall|j2: int, k2: Seq<char>|
                0 <= j2 < j && #[trigger] license_has_key(ls[j2], k2) && category_of(license_product(sl, ls[j2]))
                    != LicenseCategory::ThirdParty implies glpi_dedup(license_product(sl, ls[j2]), k2) != dedup_of(rv) by {
                assert(seen_has(s0, glpi_dedup(license_product(sl, ls[j2]), k2)));
            }
            assert(license_has_key(ls[j], rv.3));
            assert(glpi_first(sl, ls, cs, rv));
        }
        assert forall|i: int| 0 <= i < records@.len() implies glpi_first(sl, ls, cs, record_view(#[trigger] records@[i])) by {
            if i < r0.len() {
                assert(records@[i] == r0[i]);
            }
        }
    }
}

proof fn lemma_covered_grows(
    sl: Seq<GlpiSoftware>,
    ls: Seq<GlpiSoftwareLicense>,
    a: Seq<String>,
    b: Seq<String>,
    j: int,
)
    requires
        licenses_covered(sl, ls, a, j),
        forall|t: Seq<char>| seen_has(a, t) ==> seen_has(b, t),
    ensures
        licenses_covered(sl, ls, b, j),
{
}

/// Offers the records of every Windows or Office license key.
#[verifier::rlimit(60)]
fn collect_license_records(
    sl: &[GlpiSoftware],
    ls: &[GlpiSoftwareLicense],
    cs: &[GlpiComputer],
    records: &mut Vec<LicenseKeyRecord>,
    seen: &mut Vec<String>,
)
    requires
        store_ok(old(records)@, old(seen)@),
        all_sound(sl@, ls@, cs@, old(records)@),
        all_first(sl@, ls@, cs@, old(records)@),
    ensures
        store_ok(final(records)@, final(seen)@),
        all_sound(sl@, ls@, cs@, final(records)@),
        all_first(sl@, ls@, cs@, final(records)@),
        licenses_covered(sl@, ls@, final(seen)@, ls@.len() as int),
{
    let sw_rows = crate::aggregator::software_table(sl);
    let comp_rows = computer_rows(cs);
    let mut j: usize = 0;
    while j < ls.len()
        invariant
            j <= ls@.len(),
            forall|id: u64|
                match crate::aggregator::software_row_upto(sl@, id, sl@.len() as int) {
                    Some(r) => #[trigger] sw_rows@.contains_key(id) && sw_rows@[id] == r,
                    None => !sw_rows@.contains_key(id),
                },
            forall|id: u64|
                match computer_row_upto(cs@, id, cs@.len() as int) {
                    Some(r) => #[trigger] comp_rows@.contains_key(id) && comp_rows@[id] == r,
                    None => !comp_rows@.contains_key(id),
                },
            store_ok(records@, seen@),
            all_sound(sl@, ls@, cs@, records@),
            all_first(sl@, ls@, cs@, records@),
            licenses_covered(sl@, ls@, seen@, j as int),
        decreases ls.len() - j,
    {
        let lic = &ls[j];
        let ghost s_start = seen@;
        let product = license_product_text(&sw_rows, sl, lic);
        let category = classify_category(product.as_str());
        if category != LicenseCategory::ThirdParty {
            let notes: Option<String> = match &lic.comment {
                Some(c) => if is_blank(c.as_str()) {
                    None
                } else {
                    Some(c.clone())
                },
                None => None,
            };
            let (cid, cname, contact) = resolve_computer(lic, cs, &comp_rows);
            let ghost p = product@;
            let serial = trim_str(lic.serial.as_str());
            if !serial.as_str().is_empty() {
                let ghost s_pre = seen@;
                offer_license_key(records, seen, Ghost(sl@), Ghost(ls@), Ghost(cs@), Ghost(j as int), &product,
                    category, cid, &cname, &contact, &notes, serial.clone());
                proof {
                    lemma_covered_grows(sl@, ls@, s_pre, seen@, j as int);
                }
            }
            let fields = &lic.extra_fields;
            let mut f: usize = 0;
            while f < fields.len()
                invariant
                    j < ls@.len(),
                    fields == &ls@[j as int].extra_fields,
                    f <= fields@.len(),
                    p == product@,
                    p == license_product(sl@, ls@[j as int]),
                    category == category_of(p),
                    category != LicenseCategory::ThirdParty,
                    ({
                        let g = glpi_record(sl@, cs@, ls@[j as int], Seq::empty());
                        cid == g.4 && opt_text(cname) == g.5 && opt_text(contact) == g.6 && opt_text(notes) == g.7
                    }),
                    store_ok(records@, seen@),
                    all_sound(sl@, ls@, cs@, records@),
                    all_first(sl@, ls@, cs@, records@),
                    licenses_covered(sl@, ls@, seen@, j as int),
                    forall|t: Seq<char>| seen_has(s_start, t) ==> seen_has(seen@, t),
                    trim(ls@[j as int].serial@).len() > 0 ==> seen_has(seen@, glpi_dedup(p, trim(ls@[j as int].serial@))),
                    forall|f2: int, key: Seq<char>|
                        0 <= f2 < f && #[trigger] field_offers(fields@, f2, key) ==> seen_has(seen@, glpi_dedup(p, key)),
                decreases fields.len() - f,
            {
                if is_key_field_name(fields[f].0.as_str()) {
                    let cands = extract_string_candidates(&fields[f].1);
                    let ghost ts = texts(cands@);
                    let mut c: usize = 0;
                    while c < cands.len()
                        invariant
                            j < ls@.len(),
                            fields == &ls@[j as int].extra_fields,
                            f < fields@.len(),
                            key_field_name(fields@[f as int].0@),
                            ts == texts(cands@),
                            ts == json_texts(fields@[f as int].1),
                            c <= cands@.len(),
                            p == product@,
                            p == license_product(sl@, ls@[j as int]),
                            category == category_of(p),
                            category != LicenseCategory::ThirdParty,
                            ({
                                let g = glpi_record(sl@, cs@, ls@[j as int], Seq::empty());
                                cid == g.4 && opt_text(cname) == g.5 && opt_text(contact) == g.6 && opt_text(notes) == g.7
                            }),
                            store_ok(records@, seen@),
                            all_sound(sl@, ls@, cs@, records@),
                            all_first(sl@, ls@, cs@, records@),
                            licenses_covered(sl@, ls@, seen@, j as int),
                            forall|t: Seq<char>| seen_has(s_start, t) ==> seen_has(seen@, t),
                            trim(ls@[j as int].serial@).len() > 0 ==> seen_has(seen@, glpi_dedup(p, trim(ls@[j as int].serial@))),
                            forall|f2: int, key: Seq<char>|
                                0 <= f2 < f && #[trigger] field_offers(fields@, f2, key) ==> seen_has(seen@, glpi_dedup(p, key)),
                            forall|c2: int| 0 <= c2 < c && key_like(#[trigger] ts[c2]) ==> seen_has(seen@, glpi_dedup(p, ts[c2])),
                        decreases cands.len() - c,
                    {
                        if is_license_key_like(cands[c].as_str()) {
                            proof {
                                assert(ts[c as int] == cands@[c as int]@);
                                assert(field_offers(fields@, f as int, ts[c as int]));
                                assert(license_has_key(ls@[j as int], ts[c as int]));
                            }
                            let ghost s0 = seen@;
                            offer_license_key(records, seen, Ghost(sl@), Ghost(ls@), Ghost(cs@), Ghost(j as int), &product,
                                category, cid, &cname, &contact, &notes, cands[c].clone());
                            proof {
                                lemma_covered_grows(sl@, ls@, s0, seen@, j as int);
                                assert forall|c2: int| 0 <= c2 < c + 1 && key_like(#[trigger] ts[c2]) implies seen_has(
                                    seen@,
                                    glpi_dedup(p, ts[c2]),
                                ) by {
                                    if c2 < c {
                                        assert(seen_has(s0, glpi_dedup(p, ts[c2])));
                                    }
                                }
                                assert forall|f2: int, key: Seq<char>|
                                    0 <= f2 < f && #[trigger] field_offers(fields@, f2, key) implies seen_has(seen@, glpi_dedup(p, key)) by {
                                    assert(seen_has(s0, glpi_dedup(p, key)));
                                }
                                if trim(ls@[j as int].serial@).len() > 0 {
                                    assert(seen_has(s0, glpi_dedup(p, trim(ls@[j as int].serial@))));
                                }
                            }
                        }
                        c = c + 1;
                    }
                    proof {
                        assert forall|f2: int, key: Seq<char>|
                            0 <= f2 < f + 1 && #[trigger] field_offers(fields@, f2, key) implies seen_has(seen@, glpi_dedup(p, key)) by {
                            if f2 == f {
                                let c2 = choose|c2: int| 0 <= c2 < ts.len() && ts[c2] == key;
                                assert(key_like(ts[c2]));
                            }
                        }
                    }
                } else {
                    proof {
                        assert forall|f2: int, key: Seq<char>|
                            0 <= f2 < f + 1 && #[trigger] field_offers(fields@, f2, key) implies seen_has(seen@, glpi_dedup(p, key)) by {
                        }
                    }
                }
                f = f + 1;
            }
            proof {
                assert forall|j2: int, key: Seq<char>|
                    0 <= j2 < j + 1 && #[trigger] license_has_key(ls@[j2], key) && category_of(license_product(sl@, ls@[j2]))
                        != LicenseCategory::ThirdParty implies seen_has(seen@, glpi_dedup(license_product(sl@, ls@[j2]), key)) by {
                    if j2 < j {
                        assert(seen_has(s_start, glpi_dedup(license_product(sl@, ls@[j2]), key)));
                    } else {
                        if !(trim(ls@[j2].serial@).len() > 0 && key == trim(ls@[j2].serial@)) {
                            let f2 = choose|f2: int| #[trigger] field_offers(ls@[j2].extra_fields@, f2, key);
                            assert(field_offers(fields@, f2, key));
                        }
                    }
                }
            }
        } else {
            proof {
                assert forall|j2: int, key: Seq<char>|
                    0 <= j2 < j + 1 && #[trigger] license_has_key(ls@[j2], key) && category_of(license_product(sl@, ls@[j2]))
                        != LicenseCategory::ThirdParty implies seen_has(seen@, glpi_dedup(license_product(sl@, ls@[j2]), key)) by {
                }
            }
        }
        j = j + 1;
    }
}

/// The coverage of computers before `c`.
pub open spec fn computers_covered(cs: Seq<GlpiComputer>, seen: Seq<String>, c: int) -> bool {
    forall|c2: int, f: int, key: Seq<char>|
        0 <= c2 < c && #[trigger] field_offers(cs[c2].extra_fields@, f, key) && category_of(
            product_of_field(cs[c2].extra_fields@[f].0@),
        ) != LicenseCategory::ThirdParty ==> seen_has(
            seen,
            computer_dedup(cs[c2].id, product_of_field(cs[c2].extra_fields@[f].0@), key),
        )
}

/// Offers the record of key `key` found in field `f` of computer `c`.
fn offer_computer_key(
    records: &mut Vec<LicenseKeyRecord>,
    seen: &mut Vec<String>,
    Ghost(sl): Ghost<Seq<GlpiSoftware>>,
    Ghost(ls): Ghost<Seq<GlpiSoftwareLicense>>,
    Ghost(cs): Ghost<Seq<GlpiComputer>>,
    c: usize,
    comp: &GlpiComputer,
    f: usize,
    contact: &Option<String>,
    key: String,
)
    requires
        0 <= c < cs.len(),
        *comp == cs[c as int],
        store_ok(old(records)@, old(seen)@),
        all_sound(sl, ls, cs, old(records)@),
        all_first(sl, ls, cs, old(records)@),
        field_offers(comp.extra_fields@, f as int, key@),
        opt_text(*contact) == computer_record(*comp, f as int, key@).6,
    ensures
        store_ok(final(records)@, final(seen)@),
        all_sound(sl, ls, cs, final(records)@),
        all_first(sl, ls, cs, final(records)@),
        category_of(product_of_field(comp.extra_fields@[f as int].0@)) != LicenseCategory::ThirdParty ==> seen_has(
            final(seen)@,
            computer_dedup(comp.id, product_of_field(comp.extra_fields@[f as int].0@), key@),
        ),
        forall|t: Seq<char>| seen_has(old(seen)@, t) ==> seen_has(final(seen)@, t),
{
    let field = &comp.extra_fields[f].0;
    let product = field_to_product(field.as_str());
    let category = classify_category(product.as_str());
    if category == LicenseCategory::ThirdParty {
        return;
    }
    let dk = computer_dedup_text(comp.id, product.as_str(), key.as_str());
    let mut note = chars_of("Inventory field: ");
    append_chars(&mut note, &chars_of(field.as_str()));
    let rec = LicenseKeyRecord {
        source: LicenseSource::ComputerInventory,
        category,
        product_name: product,
        license_key: key,
        computer_id: Some(comp.id),
        computer_name: Some(comp.name.clone()),
        user_contact: copy_opt(contact),
        notes: Some(string_from_chars(note.as_slice())),
    };
    proof {
        assert(record_view(rec) == computer_record(cs[c as int], f as int, rec.license_key@));
        assert(record_sound(sl, ls, cs, record_view(rec)));
    }
    let ghost r0 = records@;
    offer(records, seen, rec, dk);
    proof {
        assert forall|i: int| 0 <= i < records@.len() implies record_sound(sl, ls, cs, record_view(#[trigger] records@[i])) by {
            if i < r0.len() {
                assert(records@[i] == r0[i]);
            }
        }
        assert forall|i: int| 0 <= i < records@.len() implies glpi_first(sl, ls, cs, record_view(#[trigger] records@[i])) by {
            if i < r0.len() {
                assert(records@[i] == r0[i]);
            }
        }
    }
}

/// Offers the records of every key found in computers' key fields.
#[verifier::rlimit(60)]
fn collect_computer_records(
    sl: &[GlpiSoftware],
    ls: &[GlpiSoftwareLicense],
    cs: &[GlpiComputer],
    records: &mut Vec<LicenseKeyRecord>,
    seen: &mut Vec<String>,
)
    requires
        store_ok(old(records)@, old(seen)@),
        all_sound(sl@, ls@, cs@, old(records)@),
        all_first(sl@, ls@, cs@, old(records)@),
    ensures
        store_ok(final(records)@, final(seen)@),
        all_sound(sl@, ls@, cs@, final(records)@),
        all_first(sl@, ls@, cs@, final(records)@),
        computers_covered(cs@, final(seen)@, cs@.len() as int),
        forall|t: Seq<char>| seen_has(old(seen)@, t) ==> seen_has(final(seen)@, t),
{
    let ghost s_first = seen@;
    let mut c: usize = 0;
    while c < cs.len()
        invariant
            c <= cs@.len(),
            store_ok(records@, seen@),
            all_sound(sl@, ls@, cs@, records@),
            all_first(sl@, ls@, cs@, records@),
            computers_covered(cs@, seen@, c as int),
            forall|t: Seq<char>| seen_has(s_first, t) ==> seen_has(seen@, t),
        decreases cs.len() - c,
    {
        let comp = &cs[c];
        let ghost s_start = seen@;
        let contact: Option<String> = match &comp.contact {
            Some(x) => if is_blank(x.as_str()) {
                None
            } else {
                Some(x.clone())
            },
            None => None,
        };
        let fields = &comp.extra_fields;
        let mut f: usize = 0;
        while f < fields.len()
            invariant
                c < cs@.len(),
                *comp == cs@[c as int],
                fields == &comp.extra_fields,
                f <= fields@.len(),
                opt_text(contact) == computer_record(*comp, 0, Seq::empty()).6,
                store_ok(records@, seen@),
                all_sound(sl@, ls@, cs@, records@),
                all_first(sl@, ls@, cs@, records@),
                forall|t: Seq<char>| seen_has(s_start, t) ==> seen_has(seen@, t),
                forall|f2: int, key: Seq<char>|
                    0 <= f2 < f && #[trigger] field_offers(fields@, f2, key) && category_of(product_of_field(fields@[f2].0@))
                        != LicenseCategory::ThirdParty ==> seen_has(
                        seen@,
                        computer_dedup(comp.id, product_of_field(fields@[f2].0@), key),
                    ),
            decreases fields.len() - f,
        {
            if is_key_field_name(fields[f].0.as_str()) {
                let cands = extract_string_candidates(&fields[f].1);
                let ghost ts = texts(cands@);
                let ghost prod = product_of_field(fields@[f as int].0@);
                let mut k: usize = 0;
                while k < cands.len()
                    invariant
                        c < cs@.len(),
                        *comp == cs@[c as int],
                        fields == &comp.extra_fields,
                        f < fields@.len(),
                        key_field_name(fields@[f as int].0@),
                        prod == product_of_field(fields@[f as int].0@),
                        ts == texts(cands@),
                        ts == json_texts(fields@[f as int].1),
                        k <= cands@.len(),
                        opt_text(contact) == computer_record(*comp, 0, Seq::empty()).6,
                        store_ok(records@, seen@),
                        all_sound(sl@, ls@, cs@, records@),
                        all_first(sl@, ls@, cs@, records@),
                        forall|t: Seq<char>| seen_has(s_start, t) ==> seen_has(seen@, t),
                        forall|f2: int, key: Seq<char>|
                            0 <= f2 < f && #[trigger] field_offers(fields@, f2, key) && category_of(
                                product_of_field(fields@[f2].0@),
                            ) != LicenseCategory::ThirdParty ==> seen_has(
                                seen@,
                                computer_dedup(comp.id, product_of_field(fields@[f2].0@), key),
                            ),
                        forall|k2: int|
                            0 <= k2 < k && key_like(#[trigger] ts[k2]) && category_of(prod) != LicenseCategory::ThirdParty
                                ==> seen_has(seen@, computer_dedup(comp.id, prod, ts[k2])),
                    decreases cands.len() - k,
                {
                    if is_license_key_like(cands[k].as_str()) {
                        proof {
                            assert(ts[k as int] == cands@[k as int]@);
                            assert(field_offers(fields@, f as int, ts[k as int]));
                        }
                        let ghost s0 = seen@;
                        offer_computer_key(records, seen, Ghost(sl@), Ghost(ls@), Ghost(cs@), c, comp, f, &contact, cands[k].clone());
                        proof {
                            assert forall|k2: int|
                                0 <= k2 < k + 1 && key_like(#[trigger] ts[k2]) && category_of(prod) != LicenseCategory::ThirdParty
                                    implies seen_has(seen@, computer_dedup(comp.id, prod, ts[k2])) by {
                                if k2 < k {
                                    assert(seen_has(s0, computer_dedup(comp.id, prod, ts[k2])));
                                }
                            }
                            assert forall|f2: int, key: Seq<char>|
                                0 <= f2 < f && #[trigger] field_offers(fields@, f2, key) && category_of(
                                    product_of_field(fields@[f2].0@),
                                ) != LicenseCategory::ThirdParty implies seen_has(
                                    seen@,
                                    computer_dedup(comp.id, product_of_field(fields@[f2].0@), key),
                                ) by {
                                assert(seen_has(s0, computer_dedup(comp.id, product_of_field(fields@[f2].0@), key)));
                            }
                        }
                    }
                    k = k + 1;
                }
                proof {
                    assert forall|f2: int, key: Seq<char>|
                        0 <= f2 < f + 1 && #[trigger] field_offers(fields@, f2, key) && category_of(
                            product_of_field(fields@[f2].0@),
                        ) != LicenseCategory::ThirdParty implies seen_has(
                            seen@,
                            computer_dedup(comp.id, product_of_field(fields@[f2].0@), key),
                        ) by {
                        if f2 == f {
                            let k2 = choose|k2: int| 0 <= k2 < ts.len() && ts[k2] == key;
                            assert(key_like(ts[k2]));
                        }
                    }
                }
            }
            f = f + 1;
        }
        proof {
            assert forall|c2: int, f2: int, key: Seq<char>|
                0 <= c2 < c + 1 && #[trigger] field_offers(cs@[c2].extra_fields@, f2, key) && category_of(
                    product_of_field(cs@[c2].extra_fields@[f2].0@),
                ) != LicenseCategory::ThirdParty implies seen_has(
                    seen@,
                    computer_dedup(cs@[c2].id, product_of_field(cs@[c2].extra_fields@[f2].0@), key),
                ) by {
                if c2 < c {
                    assert(seen_has(s_start, computer_dedup(cs@[c2].id, product_of_field(cs@[c2].extra_fields@[f2].0@), key)));
                } else {
                    assert(field_offers(fields@, f2, key));
                }
            }
        }
        c = c + 1;
    }
}

fn record_less(a: &LicenseKeyRecord, b: &LicenseKeyRecord) -> (r: bool)
    ensures
        r == record_before(*a, *b),
{
    let pa = lowercase(a.product_name.as_str());
    let pb = lowercase(b.product_name.as_str());
    if crate::text::str_lt(pa.as_str(), pb.as_str()) {
        return true;
    }
    if !crate::text::str_eq(pa.as_str(), pb.as_str()) {
        return false;
    }
    let ka = lowercase(a.license_key.as_str());
    let kb = lowercase(b.license_key.as_str());
    crate::text::str_lt(ka.as_str(), kb.as_str())
}

proof fn lemma_record_before_strict()
    ensures
        crate::sorting::strict_order(|a: LicenseKeyRecord, b: LicenseKeyRecord| record_before(a, b)),
{
    assert forall|a: LicenseKeyRecord, b: LicenseKeyRecord, c: LicenseKeyRecord| #[trigger] record_before(a, b)
        && #[trigger] record_before(b, c) implies record_before(a, c) by {
        let (pa, pb, pc) = (to_lower(a.product_name@), to_lower(b.product_name@), to_lower(c.product_name@));
        if text_lt(pa, pb) && text_lt(pb, pc) {
            crate::text::lemma_text_lt_transitive(pa, pb, pc);
        } else if pa == pb && pb == pc {
            crate::text::lemma_text_lt_transitive(
                to_lower(a.license_key@),
                to_lower(b.license_key@),
                to_lower(c.license_key@),
            );
        }
    }
    assert forall|a: LicenseKeyRecord, b: LicenseKeyRecord| #[trigger] record_before(a, b) implies !record_before(b, a) by {
        let (pa, pb) = (to_lower(a.product_name@), to_lower(b.product_name@));
        if text_lt(pa, pb) {
            crate::text::lemma_text_lt_asymmetric(pa, pb);
        } else {
            crate::text::lemma_text_lt_irreflexive(pa);
            crate::text::lemma_text_lt_asymmetric(to_lower(a.license_key@), to_lower(b.license_key@));
        }
    }
}

/// Windows and Office license keys: those of GLPI license rows (the trimmed
/// serial and key-like texts of key fields) and those found in computers' key
/// fields, each dedup text once, ordered by product and key (see
/// `license_keys_ok`).
pub fn aggregate_license_keys(
    software_list: &[GlpiSoftware],
    licenses: &[GlpiSoftwareLicense],
    computers: &[GlpiComputer],
) -> (r: Vec<LicenseKeyRecord>)
    ensures
        license_keys_ok(software_list@, licenses@, computers@, r@),
{
    let ghost sl = software_list@;
    let ghost ls = licenses@;
    let ghost cs = computers@;
    let mut records: Vec<LicenseKeyRecord> = Vec::new();
    let mut seen: Vec<String> = Vec::new();
    collect_license_records(software_list, licenses, computers, &mut records, &mut seen);
    let ghost s1 = seen@;
    collect_computer_records(software_list, licenses, computers, &mut records, &mut seen);
    proof {
        assert forall|j2: int, key: Seq<char>|
            0 <= j2 < ls.len() && #[trigger] license_has_key(ls[j2], key) && category_of(license_product(sl, ls[j2]))
                != LicenseCategory::ThirdParty implies seen_has(seen@, glpi_dedup(license_product(sl, ls[j2]), key)) by {
            assert(seen_has(s1, glpi_dedup(license_product(sl, ls[j2]), key)));
        }
        lemma_record_before_strict();
    }
    let ghost rv = records@;
    let ghost sv0 = seen@;
    let (sorted, Ghost(p)) = crate::sorting::sort_by_lt(
        records,
        record_less,
        Ghost(|a: LicenseKeyRecord, b: LicenseKeyRecord| record_before(a, b)),
    );
    proof {
        let out = sorted@;
        let sound = |x: LicenseKeyRecord| record_sound(sl, ls, cs, record_view(x));
        assert forall|i: int| 0 <= i < rv.len() implies #[trigger] sound(rv[i]) by {}
        crate::sorting::lemma_rearranged_all(out, rv, p, sound);
        let first = |x: LicenseKeyRecord| glpi_first(sl, ls, cs, record_view(x));
        assert forall|i: int| 0 <= i < rv.len() implies #[trigger] first(rv[i]) by {}
        crate::sorting::lemma_rearranged_all(out, rv, p, first);
        assert forall|i: int| 0 <= i < out.len() implies glpi_first(sl, ls, cs, record_view(#[trigger] out[i])) by {
            assert(first(out[i]));
        }
        assert forall|i: int| 0 <= i < out.len() implies record_sound(sl, ls, cs, record_view(#[trigger] out[i])) by {
            assert(sound(out[i]));
        }
        let dk = |x: LicenseKeyRecord| dedup_of(record_view(x));
        assert forall|a: int, b: int| 0 <= a < b < rv.len() implies #[trigger] dk(rv[a]) != #[trigger] dk(rv[b]) by {
            assert(sv0[a]@ != sv0[b]@);
        }
        crate::sorting::lemma_rearranged_distinct(out, rv, p, dk);
        assert forall|a: int, b: int| 0 <= a < b < out.len() implies dedup_of(record_view(#[trigger] out[a])) != dedup_of(
            record_view(#[trigger] out[b]),
        ) by {
            assert(dk(out[a]) != dk(out[b]));
        }
        assert forall|t: Seq<char>| seen_has(sv0, t) implies exists|i: int|
            0 <= i < out.len() && #[trigger] dedup_of(record_view(out[i])) == t by {
            let i0 = choose|i0: int| 0 <= i0 < sv0.len() && #[trigger] sv0[i0]@ == t;
            crate::sorting::lemma_rearranged_onto(out, rv, p, i0);
            let i1 = choose|i1: int| 0 <= i1 < out.len() && out[i1] == rv[i0];
            assert(dedup_of(record_view(out[i1])) == t);
        }
        assert forall|j: int, key: Seq<char>|
            0 <= j < ls.len() && #[trigger] license_has_key(ls[j], key) && category_of(license_product(sl, ls[j]))
                != LicenseCategory::ThirdParty implies exists|i: int|
                0 <= i < out.len() && #[trigger] dedup_of(record_view(out[i])) == glpi_dedup(license_product(sl, ls[j]), key) by {
            assert(seen_has(sv0, glpi_dedup(license_product(sl, ls[j]), key)));
        }
        assert forall|c: int, f: int, key: Seq<char>|
            0 <= c < cs.len() && #[trigger] field_offers(cs[c].extra_fields@, f, key) && category_of(
                product_of_field(cs[c].extra_fields@[f].0@),
            ) != LicenseCategory::ThirdParty implies exists|i: int|
                0 <= i < out.len() && #[trigger] dedup_of(record_view(out[i])) == computer_dedup(
                    cs[c].id,
                    product_of_field(cs[c].extra_fields@[f].0@),
                    key,
                ) by {
            assert(seen_has(sv0, computer_dedup(cs[c].id, product_of_field(cs[c].extra_fields@[f].0@), key)));
        }
        assert forall|a: int, b: int| 0 <= a < b < out.len() implies !record_before(#[trigger] out[b], #[trigger] out[a]) by {
            assert(!(|x: LicenseKeyRecord, y: LicenseKeyRecord| record_before(x, y))(out[b], out[a]));
        }
    }
    sorted
}

} // verus!
