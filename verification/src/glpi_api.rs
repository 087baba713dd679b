//! What the library reads from the GLPI REST API's replies: the API address,
//! the paging headers and statuses, and Windows product keys in JSON payloads.
use crate::date_util::{chars_trim_end_char, trim_end_char};
use crate::filters::{lemma_skip_ws, lemma_word_end, skip_ws, word_end};
use crate::json::JsonValue;
use crate::text::{
    char_is_ascii_alnum, char_is_whitespace, chars_of, contains, is_ascii_alnum, is_ws, lowercase,
    parse_u64, parse_unsigned, parse_usize, str_contains, string_from_chars, to_lower, trim, trim_str,
};
use vstd::prelude::*;

verus! {

// ---------------------------------------------------------------------------
// The API address
// ---------------------------------------------------------------------------
/// The REST entry point for a server address: trailing '/' dropped, and
/// "/apirest.php" added unless the address already names it.
pub open spec fn api_url(base: Seq<char>) -> Seq<char> {
    let t = trim_end_char(base, '/');
    if contains(t, "/apirest.php"@) {
        t
    } else {
        t + "/apirest.php"@
    }
}

pub fn api_base_url(base_url: &str) -> (r: String)
    ensures
        r@ == api_url(base_url@),
{
    let v = chars_of(base_url);
    let t = chars_trim_end_char(v.as_slice(), '/');
    let ts = string_from_chars(t.as_slice());
    if str_contains(ts.as_str(), "/apirest.php") {
        return ts;
    }
    let mut out = t;
    let suffix = chars_of("/apirest.php");
    crate::history_store::append_chars(&mut out, &suffix);
    string_from_chars(out.as_slice())
}

proof fn lemma_trim_end_char_stops(s: Seq<char>, c: char)
    ensures
        trim_end_char(s, c).len() == 0 || trim_end_char(s, c).last() != c,
        trim_end_char(trim_end_char(s, c), c) == trim_end_char(s, c),
    decreases s.len(),
{
    if s.len() > 0 && s.last() == c {
        lemma_trim_end_char_stops(s.drop_last(), c);
    }
}

/// The API address is settled: working it out again from the address it gave
/// changes nothing.
pub proof fn lemma_api_url_settled(base: Seq<char>)
    ensures
        api_url(api_url(base)) == api_url(base),
{
    reveal_strlit("/apirest.php");
    let t = trim_end_char(base, '/');
    lemma_trim_end_char_stops(base, '/');
    let p = "/apirest.php"@;
    if !contains(t, p) {
        let u = t + p;
        assert(u.last() == 'p');
        assert(trim_end_char(u, '/') == u);
        assert(u.subrange(t.len() as int, (t.len() + p.len()) as int) =~= p);
        assert(crate::text::occurs_at(u, p, t.len() as int));
        assert(contains(u, p));
    }
}

// ---------------------------------------------------------------------------
// Paging
// ---------------------------------------------------------------------------
fn skip_ws_from(v: &Vec<char>, i: usize) -> (r: usize)
    requires
        i <= v@.len(),
    ensures
        r == skip_ws(v@, i as int),
        i <= r <= v@.len(),
{
    proof {
        lemma_skip_ws(v@, i as int);
    }
    let mut a = i;
    while a < v.len() && char_is_whitespace(v[a])
        invariant
            i <= a <= v@.len(),
            skip_ws(v@, i as int) == skip_ws(v@, a as int),
        decreases v.len() - a,
    {
        a = a + 1;
    }
    a
}

fn word_end_from(v: &Vec<char>, i: usize) -> (r: usize)
    requires
        i <= v@.len(),
    ensures
        r == word_end(v@, i as int),
        i <= r <= v@.len(),
{
    proof {
        lemma_word_end(v@, i as int);
    }
    let mut b = i;
    while b < v.len() && !char_is_whitespace(v[b])
        invariant
            i <= b <= v@.len(),
            word_end(v@, i as int) == word_end(v@, b as int),
        decreases v.len() - b,
    {
        b = b + 1;
    }
    b
}

/// The second whitespace-separated word of `s`, when it has one.
pub open spec fn second_word(s: Seq<char>) -> Option<Seq<char>> {
    let a0 = skip_ws(s, 0);
    let a1 = skip_ws(s, word_end(s, a0));
    if a1 < s.len() {
        Some(s.subrange(a1, word_end(s, a1)))
    } else {
        None
    }
}

/// The page size a server allows, from an `Accept-Range` header such as
/// "Software 990": its second word read as a number.
pub open spec fn accept_range_max(header: Seq<char>) -> Option<int> {
    match second_word(header) {
        Some(w) => parse_unsigned(w, usize::MAX as int),
        None => None,
    }
}

pub fn parse_accept_range(header: &str) -> (r: Option<usize>)
    ensures
        match r {
            Some(n) => accept_range_max(header@) == Some(n as int),
            None => accept_range_max(header@) is None,
        },
{
    let v = chars_of(header);
    let a0 = skip_ws_from(&v, 0);
    let e0 = word_end_from(&v, a0);
    let a1 = skip_ws_from(&v, e0);
    if a1 >= v.len() {
        return None;
    }
    let e1 = word_end_from(&v, a1);
    let mut w: Vec<char> = Vec::new();
    let mut k = a1;
    while k < e1
        invariant
            a1 <= k <= e1 <= v@.len(),
            w@ == v@.subrange(a1 as int, k as int),
        decreases e1 - k,
    {
        w.push(v[k]);
        k = k + 1;
        assert(w@ =~= v@.subrange(a1 as int, k as int));
    }
    let ws = string_from_chars(w.as_slice());
    parse_usize(ws.as_str())
}

/// The item count of a `Content-Range` header such as "0-49/200": the text after
/// its first '/' read as a number.
pub open spec fn content_range_total(header: Seq<char>) -> Option<int> {
    if header.contains('/') {
        let i = choose|i: int| 0 <= i < header.len() && header[i] == '/' && forall|j: int| 0 <= j < i ==> header[j] != '/';
        parse_unsigned(header.subrange(i + 1, header.len() as int), usize::MAX as int)
    } else {
        None
    }
}

pub fn parse_content_range(header: &str) -> (r: Option<usize>)
    ensures
        match r {
            Some(n) => content_range_total(header@) == Some(n as int),
            None => content_range_total(header@) is None,
        },
{
    let v = chars_of(header);
    let mut i: usize = 0;
    while i < v.len() && v[i] != '/'
        invariant
            i <= v@.len(),
            forall|j: int| 0 <= j < i ==> v@[j] != '/',
        decreases v.len() - i,
    {
        i = i + 1;
    }
    if i >= v.len() {
        assert(!v@.contains('/'));
        return None;
    }
    assert(v@.contains('/')) by {
        assert(v@[i as int] == '/');
    }
    let ghost c = choose|c: int| 0 <= c < v@.len() && v@[c] == '/' && forall|j: int| 0 <= j < c ==> v@[j] != '/';
    assert(c == i) by {
        if c < i {
            assert(v@[c] != '/');
        } else if c > i {
            assert(v@[i as int] != '/');
        }
    }
    let mut w: Vec<char> = Vec::new();
    let mut k = i + 1;
    while k < v.len()
        invariant
            i + 1 <= k <= v@.len(),
            w@ == v@.subrange(i + 1, k as int),
        decreases v.len() - k,
    {
        w.push(v[k]);
        k = k + 1;
        assert(w@ =~= v@.subrange(i + 1, k as int));
    }
    let ws = string_from_chars(w.as_slice());
    parse_usize(ws.as_str())
}

/// The page size to use once the server has named its limit: the limit when it
/// is smaller and not zero.
pub open spec fn page_size_after(page_size: int, server_max: Option<usize>) -> int {
    match server_max {
        Some(m) => if m > 0 && m < page_size {
            m as int
        } else {
            page_size
        },
        None => page_size,
    }
}

pub fn adjust_page_size(page_size: usize, server_max: Option<usize>) -> (r: usize)
    ensures
        r == page_size_after(page_size as int, server_max),
{
    match server_max {
        Some(m) => if m > 0 && m < page_size {
            m
        } else {
            page_size
        },
        None => page_size,
    }
}

/// What a page's reply means for the paging.
#[derive(Debug, Clone, Copy, PartialEq, Eq, Structural)]
pub enum PageReply {
    /// The reply holds items to read.
    Items,
    /// The range ran past the last item: paging is over.
    Finished,
    /// The server refused the request.
    Failed,
}

/// A page reply by status code and body: 400 with ERROR_RANGE_EXCEED_TOTAL ends
/// the paging, any other 400 or non-2xx status fails, the rest holds items.
pub open spec fn page_reply_of(status: u16, body: Seq<char>) -> PageReply {
    if status == 400 {
        if contains(body, "ERROR_RANGE_EXCEED_TOTAL"@) {
            PageReply::Finished
        } else {
            PageReply::Failed
        }
    } else if !(200 <= status <= 299) && status != 206 {
        PageReply::Failed
    } else {
        PageReply::Items
    }
}

pub fn page_reply(status: u16, body: &str) -> (r: PageReply)
    ensures
        r == page_reply_of(status, body@),
{
    if status == 400 {
        if str_contains(body, "ERROR_RANGE_EXCEED_TOTAL") {
            PageReply::Finished
        } else {
            PageReply::Failed
        }
    } else if !(200 <= status && status <= 299) && status != 206 {
        PageReply::Failed
    } else {
        PageReply::Items
    }
}

/// Another page follows a full one.
pub fn more_pages(count: usize, page_size: usize) -> (r: bool)
    ensures
        r == (count >= page_size),
{
    count >= page_size
}

// ---------------------------------------------------------------------------
// Windows product keys in payloads
// ---------------------------------------------------------------------------
/// How many characters of `s` are ASCII letters or digits.
pub open spec fn alnum_count(s: Seq<char>) -> nat
    decreases s.len(),
{
    if s.len() == 0 {
        0
    } else {
        alnum_count(s.drop_last()) + if is_ascii_alnum(s.last()) {
            1nat
        } else {
            0nat
        }
    }
}

/// A product key as it appears in an OS record: once trimmed, 15 to 80
/// characters, all ASCII letters, digits or '-', at least one '-' and at least
/// 15 letters or digits. (Such a text has as many bytes as characters.)
pub open spec fn key_like(s: Seq<char>) -> bool {
    let v = trim(s);
    &&& 15 <= v.len() <= 80
    &&& v.contains('-')
    &&& forall|i: int| 0 <= i < v.len() ==> #[trigger] crate::inventory::key_char(v[i])
    &&& alnum_count(v) >= 15
}

pub fn looks_like_windows_key(value: &str) -> (r: bool)
    ensures
        r == key_like(value@),
{
    let t = trim_str(value);
    let v = chars_of(t.as_str());
    if v.len() < 15 || v.len() > 80 {
        return false;
    }
    let mut all_ok = true;
    let mut hyphen = false;
    let mut alnum: usize = 0;
    let mut i: usize = 0;
    while i < v.len()
        invariant
            i <= v@.len(),
            v@ == trim(value@),
            all_ok == (forall|k: int| 0 <= k < i ==> #[trigger] crate::inventory::key_char(v@[k])),
            hyphen == v@.subrange(0, i as int).contains('-'),
            alnum == alnum_count(v@.subrange(0, i as int)),
            alnum <= i,
        decreases v.len() - i,
    {
        let c = v[i];
        let ghost pre = v@.subrange(0, i as int);
        assert(v@.subrange(0, i as int + 1) =~= pre.push(c));
        assert(v@.subrange(0, i as int + 1).drop_last() =~= pre);
        let is_an = char_is_ascii_alnum(c);
        let ok = is_an || c == '-';
        assert(ok == crate::inventory::key_char(v@[i as int]));
        if !ok {
            all_ok = false;
        }
        assert(all_ok == (forall|k: int| 0 <= k < i + 1 ==> #[trigger] crate::inventory::key_char(v@[k]))) by {
            if all_ok {
                assert forall|k: int| 0 <= k < i + 1 implies #[trigger] crate::inventory::key_char(v@[k]) by {
                    if k < i {
                    }
                }
            }
        }
        if c == '-' {
            hyphen = true;
        }
        assert(hyphen == pre.push(c).contains('-')) by {
            if pre.push(c).contains('-') && c != '-' {
                let j = choose|j: int| 0 <= j < pre.push(c).len() && pre.push(c)[j] == '-';
                assert(pre[j] == '-');
            }
            if pre.contains('-') {
                let j = choose|j: int| 0 <= j < pre.len() && pre[j] == '-';
                assert(pre.push(c)[j] == '-');
            }
            if c == '-' {
                assert(pre.push(c)[pre.len() as int] == '-');
            }
        }
        if is_an {
            alnum = alnum + 1;
        }
        i = i + 1;
    }
    assert(v@.subrange(0, v@.len() as int) =~= v@);
    hyphen && all_ok && alnum >= 15
}

/// Member names that may carry an activation key, once lower-cased with '_' and
/// ' ' removed.
pub open spec fn key_member_name(k: Seq<char>) -> bool {
    ||| contains(k, "serial"@)
    ||| contains(k, "serialnumber"@)
    ||| contains(k, "productid"@)
    ||| contains(k, "product_id"@)
    ||| contains(k, "productkey"@)
    ||| contains(k, "license"@)
}

/// `s` without its '_' and ' ' characters.
pub open spec fn squeezed(s: Seq<char>) -> Seq<char>
    decreases s.len(),
{
    if s.len() == 0 {
        s
    } else if s.last() == '_' || s.last() == ' ' {
        squeezed(s.drop_last())
    } else {
        squeezed(s.drop_last()).push(s.last())
    }
}

fn squeeze(v: &Vec<char>) -> (r: Vec<char>)
    ensures
        r@ == squeezed(v@),
{
    let mut out: Vec<char> = Vec::new();
    let mut i: usize = 0;
    while i < v.len()
        invariant
            i <= v@.len(),
            out@ == squeezed(v@.subrange(0, i as int)),
        decreases v.len() - i,
    {
        assert(v@.subrange(0, i as int + 1).drop_last() =~= v@.subrange(0, i as int));
        if v[i] != '_' && v[i] != ' ' {
            out.push(v[i]);
        }
        i = i + 1;
    }
    assert(v@.subrange(0, v@.len() as int) =~= v@);
    out
}

fn key_member_exec(name: &str) -> (r: bool)
    ensures
        r == key_member_name(squeezed(to_lower(name@))),
{
    let l = lowercase(name);
    let lv = chars_of(l.as_str());
    let sq = squeeze(&lv);
    let k = string_from_chars(sq.as_slice());
    let ks = k.as_str();
    str_contains(ks, "serial") || str_contains(ks, "serialnumber") || str_contains(ks, "productid")
        || str_contains(ks, "product_id") || str_contains(ks, "productkey") || str_contains(ks, "license")
}

/// The first product key in a payload: a string that looks like one (trimmed);
/// the first found in a list's items in order; in an object, the first found in
/// the values of members whose names may carry one, in member order.
pub open spec fn key_in(v: JsonValue) -> Option<Seq<char>>
    decreases v,
{
    match v {
        JsonValue::String(s) => if key_like(s@) {
            Some(trim(s@))
        } else {
            None
        },
        JsonValue::Array(a) => key_in_list(a@, 0),
        JsonValue::Object(m) => key_in_members(m@, 0),
        _ => None,
    }
}

pub open spec fn key_in_list(a: Seq<JsonValue>, k: int) -> Option<Seq<char>>
    decreases a, a.len() - k,
{
    if k < 0 || k >= a.len() {
        None
    } else {
        match key_in(a[k]) {
            Some(f) => Some(f),
            None => key_in_list(a, k + 1),
        }
    }
}

pub open spec fn key_in_members(m: Seq<(String, JsonValue)>, k: int) -> Option<Seq<char>>
    decreases m, m.len() - k,
{
    if k < 0 || k >= m.len() {
        None
    } else if key_member_name(squeezed(to_lower(m[k].0@))) {
        match key_in(m[k].1) {
            Some(f) => Some(f),
            None => key_in_members(m, k + 1),
        }
    } else {
        key_in_members(m, k + 1)
    }
}

pub fn find_windows_key_in_value(value: &JsonValue) -> (r: Option<String>)
    ensures
        crate::date_util::opt_view(r) == key_in(*value),
    decreases value,
{
    match value {
        JsonValue::String(s) => {
            if looks_like_windows_key(s.as_str()) {
                Some(trim_str(s.as_str()))
            } else {
                None
            }
        },
        JsonValue::Array(a) => {
            let mut k: usize = 0;
            while k < a.len()
                invariant
                    k <= a@.len(),
                    *value == JsonValue::Array(*a),
                    key_in_list(a@, 0) == key_in_list(a@, k as int),
                decreases a.len() - k,
            {
                proof {
                    assert(decreases_to!(*value => (*value)->Array_0));
                    assert((*value)->Array_0 == *a);
                    assert(decreases_to!(*a => a@));
                    assert(decreases_to!(a@ => a@[k as int]));
                    assert(decreases_to!(*value => a@[k as int]));
                }
                match find_windows_key_in_value(&a[k]) {
                    Some(f) => {
                        return Some(f);
                    },
                    None => {},
                }
                k = k + 1;
            }
            None
        },
        JsonValue::Object(m) => {
            let mut k: usize = 0;
            while k < m.len()
                invariant
                    k <= m@.len(),
                    *value == JsonValue::Object(*m),
                    key_in_members(m@, 0) == key_in_members(m@, k as int),
                decreases m.len() - k,
            {
                if key_member_exec(m[k].0.as_str()) {
                    proof {
                        assert(decreases_to!(*value => (*value)->Object_0));
                        assert((*value)->Object_0 == *m);
                        assert(decreases_to!(*m => m@));
                        assert(decreases_to!(m@ => m@[k as int]));
                        assert(decreases_to!(m@[k as int] => m@[k as int].1));
                        assert(decreases_to!(*value => m@[k as int].1));
                    }
                    match find_windows_key_in_value(&m[k].1) {
                        Some(f) => {
                            return Some(f);
                        },
                        None => {},
                    }
                }
                k = k + 1;
            }
            None
        },
        _ => None,
    }
}

/// A JSON value read as an id: a number that is a `u64`, or a string whose
/// trimmed text reads as one.
pub open spec fn id_of(v: JsonValue) -> Option<int> {
    match v {
        JsonValue::Number(n) => parse_unsigned(n@, u64::MAX as int),
        JsonValue::String(s) => parse_unsigned(trim(s@), u64::MAX as int),
        _ => None,
    }
}

pub fn value_as_u64(value: &JsonValue) -> (r: Option<u64>)
    ensures
        match r {
            Some(n) => id_of(*value) == Some(n as int),
            None => id_of(*value) is None,
        },
{
    match value {
        JsonValue::Number(n) => parse_u64(n.as_str()),
        JsonValue::String(s) => {
            let t = trim_str(s.as_str());
            parse_u64(t.as_str())
        },
        _ => None,
    }
}

/// The value of the first member named `name`.
pub open spec fn member(m: Seq<(String, JsonValue)>, name: Seq<char>) -> Option<JsonValue> {
    if exists|i: int| 0 <= i < m.len() && (#[trigger] m[i]).0@ == name {
        let i = choose|i: int|
            0 <= i < m.len() && (#[trigger] m[i]).0@ == name && forall|j: int| 0 <= j < i ==> m[j].0@ != name;
        Some(m[i].1)
    } else {
        None
    }
}

fn member_exec<'a>(m: &'a Vec<(String, JsonValue)>, name: &str) -> (r: Option<&'a JsonValue>)
    ensures
        match r {
            Some(v) => member(m@, name@) == Some(*v),
            None => member(m@, name@) is None,
        },
{
    let mut i: usize = 0;
    while i < m.len()
        invariant
            i <= m@.len(),
            forall|j: int| 0 <= j < i ==> (#[trigger] m@[j]).0@ != name@,
        decreases m.len() - i,
    {
        if crate::text::str_eq(m[i].0.as_str(), name) {
            proof {
                let c = choose|c: int|
                    0 <= c < m@.len() && (#[trigger] m@[c]).0@ == name@ && forall|j: int| 0 <= j < c ==> m@[j].0@ != name@;
                assert(c == i) by {
                    if c < i {
                        assert(m@[c].0@ != name@);
                    } else if c > i {
                        assert(m@[i as int].0@ != name@);
                    }
                }
            }
            return Some(&m[i].1);
        }
        i = i + 1;
    }
    None
}

/// ASCII letters compared without case.
pub open spec fn ascii_fold(c: char) -> u32 {
    if 'A' <= c <= 'Z' {
        (c as u32 + 32) as u32
    } else {
        c as u32
    }
}

pub open spec fn eq_ignore_ascii_case(a: Seq<char>, b: Seq<char>) -> bool {
    a.len() == b.len() && forall|i: int| 0 <= i < a.len() ==> ascii_fold(#[trigger] a[i]) == ascii_fold(b[i])
}

fn fold_exec(c: char) -> (r: u32)
    ensures
        r == ascii_fold(c),
{
    if 'A' <= c && c <= 'Z' {
        c as u32 + 32
    } else {
        c as u32
    }
}

fn eq_ignore_case_exec(a: &str, b: &str) -> (r: bool)
    ensures
        r == eq_ignore_ascii_case(a@, b@),
{
    let av = chars_of(a);
    let bv = chars_of(b);
    if av.len() != bv.len() {
        return false;
    }
    let mut i: usize = 0;
    while i < av.len()
        invariant
            i <= av@.len(),
            av@.len() == bv@.len(),
            av@ == a@,
            bv@ == b@,
            forall|k: int| 0 <= k < i ==> ascii_fold(#[trigger] av@[k]) == ascii_fold(bv@[k]),
        decreases av.len() - i,
    {
        if fold_exec(av[i]) != fold_exec(bv[i]) {
            return false;
        }
        i = i + 1;
    }
    true
}

/// The object is about computer `machine_id`: its "itemtype" member, when it is
/// a string, is "Computer" in any case, and its "items_id" member reads as that id.
pub open spec fn about_machine(m: Seq<(String, JsonValue)>, machine_id: u64) -> bool {
    let type_ok = match member(m, "itemtype"@) {
        Some(JsonValue::String(s)) => eq_ignore_ascii_case(s@, "Computer"@),
        _ => true,
    };
    let id_ok = match member(m, "items_id"@) {
        Some(v) => id_of(v) == Some(machine_id as int),
        None => false,
    };
    type_ok && id_ok
}

/// The first product key of computer `machine_id` in a listing: searched in list
/// items in order; an object about the computer is searched first, then the
/// values of all its members in order.
pub open spec fn machine_key_in(v: JsonValue, machine_id: u64) -> Option<Seq<char>>
    decreases v,
{
    match v {
        JsonValue::Array(a) => machine_key_in_list(a@, machine_id, 0),
        JsonValue::Object(m) => {
            let own = if about_machine(m@, machine_id) {
                key_in(v)
            } else {
                None
            };
            match own {
                Some(f) => Some(f),
                None => machine_key_in_members(m@, machine_id, 0),
            }
        },
        _ => None,
    }
}

pub open spec fn machine_key_in_list(a: Seq<JsonValue>, machine_id: u64, k: int) -> Option<Seq<char>>
    decreases a, a.len() - k,
{
    if k < 0 || k >= a.len() {
        None
    } else {
        match machine_key_in(a[k], machine_id) {
            Some(f) => Some(f),
            None => machine_key_in_list(a, machine_id, k + 1),
        }
    }
}

pub open spec fn machine_key_in_members(m: Seq<(String, JsonValue)>, machine_id: u64, k: int) -> Option<
    Seq<char>,
>
    decreases m, m.len() - k,
{
    if k < 0 || k >= m.len() {
        None
    } else {
        match machine_key_in(m[k].1, machine_id) {
            Some(f) => Some(f),
            None => machine_key_in_members(m, machine_id, k + 1),
        }
    }
}

fn about_machine_exec(m: &Vec<(String, JsonValue)>, machine_id: u64) -> (r: bool)
    ensures
        r == about_machine(m@, machine_id),
{
    proof {
        reveal_strlit("Computer");
    }
    let type_ok = match member_exec(m, "itemtype") {
        Some(JsonValue::String(s)) => eq_ignore_case_exec(s.as_str(), "Computer"),
        _ => true,
    };
    let id_ok = match member_exec(m, "items_id") {
        Some(v) => match value_as_u64(v) {
            Some(id) => id == machine_id,
            None => false,
        },
        None => false,
    };
    type_ok && id_ok
}

pub fn find_windows_key_for_machine(value: &JsonValue, machine_id: u64) -> (r: Option<String>)
    ensures
        crate::date_util::opt_view(r) == machine_key_in(*value, machine_id),
    decreases value,
{
    match value {
        JsonValue::Array(a) => {
            let mut k: usize = 0;
            while k < a.len()
                invariant
                    k <= a@.len(),
                    *value == JsonValue::Array(*a),
                    machine_key_in_list(a@, machine_id, 0) == machine_key_in_list(a@, machine_id, k as int),
                decreases a.len() - k,
            {
                proof {
                    assert(decreases_to!(*value => (*value)->Array_0));
                    assert((*value)->Array_0 == *a);
                    assert(decreases_to!(*a => a@));
                    assert(decreases_to!(a@ => a@[k as int]));
                    assert(decreases_to!(*value => a@[k as int]));
                }
                match find_windows_key_for_machine(&a[k], machine_id) {
                    Some(f) => {
                        return Some(f);
                    },
                    None => {},
                }
                k = k + 1;
            }
            None
        },
        JsonValue::Object(m) => {
            if about_machine_exec(m, machine_id) {
                match find_windows_key_in_value(value) {
                    Some(f) => {
                        return Some(f);
                    },
                    None => {},
                }
            }
            let mut k: usize = 0;
            while k < m.len()
                invariant
                    k <= m@.len(),
                    *value == JsonValue::Object(*m),
                    about_machine(m@, machine_id) ==> key_in(*value) is None,
                    machine_key_in_members(m@, machine_id, 0) == machine_key_in_members(m@, machine_id, k as int),
                decreases m.len() - k,
            {
                proof {
                    assert(decreases_to!(*value => (*value)->Object_0));
                    assert((*value)->Object_0 == *m);
                    assert(decreases_to!(*m => m@));
                    assert(decreases_to!(m@ => m@[k as int]));
                    assert(decreases_to!(m@[k as int] => m@[k as int].1));
                    assert(decreases_to!(*value => m@[k as int].1));
                }
                match find_windows_key_for_machine(&m[k].1, machine_id) {
                    Some(f) => {
                        return Some(f);
                    },
                    None => {},
                }
                k = k + 1;
            }
            None
        },
        _ => None,
    }
}

} // verus!
