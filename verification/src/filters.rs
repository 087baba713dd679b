//! The inventory filters: which software counts as a built-in Windows
//! component, and which rows the filter bar keeps.
use crate::date_util::{date_in_recency_window, date_in_window, opt_view};
use crate::models::{AggregatedSoftware, FilterState, VersionDetail};
use crate::text::{
    char_is_ascii_hex, char_is_whitespace, chars_of, contains, is_ascii_digit, occurs_at, is_ascii_hex, is_ws,
    lowercase, parse_unsigned, parse_usize, starts_with, str_contains, str_eq, str_starts_with, to_lower, trim,
    trim_chars,
};
use std::collections::{HashMap, HashSet};
use vstd::prelude::*;
use vstd::std_specs::hash::spec_hash_keys_iter;
use vstd::std_specs::iter::IteratorSpec;

verus! {

broadcast use vstd::std_specs::hash::group_hash_axioms;

// ---------------------------------------------------------------------------
// Name lists
// ---------------------------------------------------------------------------
/// Names starting with these are Office products (always shown).
pub open spec fn office_prefixes() -> Seq<&'static str> {
    seq![
        "microsoft office",
        "microsoft 365",
        "microsoft word",
        "microsoft excel",
        "microsoft powerpoint",
        "microsoft access",
        "microsoft publisher",
        "microsoft visio",
        "microsoft project",
        "microsoft teams",
        "microsoft outlook",
        "microsoft onenote",
        "microsoft sharepoint",
        "microsoft infopath",
        "microsoft lync",
        "microsoft skype for business",
        "office 16",
        "office 15",
        "office 14",
        "outlook",
        "onenote",
    ]
}

fn office_prefixes_list() -> (r: Vec<&'static str>)
    ensures
        r@ == office_prefixes(),
{
    let mut v: Vec<&'static str> = Vec::new();
    v.push("microsoft office");
    v.push("microsoft 365");
    v.push("microsoft word");
    v.push("microsoft excel");
    v.push("microsoft powerpoint");
    v.push("microsoft access");
    v.push("microsoft publisher");
    v.push("microsoft visio");
    v.push("microsoft project");
    v.push("microsoft teams");
    v.push("microsoft outlook");
    v.push("microsoft onenote");
    v.push("microsoft sharepoint");
    v.push("microsoft infopath");
    v.push("microsoft lync");
    v.push("microsoft skype for business");
    v.push("office 16");
    v.push("office 15");
    v.push("office 14");
    v.push("outlook");
    v.push("onenote");
    assert(v@ =~= office_prefixes());
    v
}

/// Names containing these are Office products (always shown).
pub open spec fn office_phrases() -> Seq<&'static str> {
    seq![
        "office professional",
        "office standard",
        "office home",
        "office business",
        "office proplus",
        "office 365",
        "office ltsc",
        "office mondo",
        "office plus",
    ]
}

fn office_phrases_list() -> (r: Vec<&'static str>)
    ensures
        r@ == office_phrases(),
{
    let mut v: Vec<&'static str> = Vec::new();
    v.push("office professional");
    v.push("office standard");
    v.push("office home");
    v.push("office business");
    v.push("office proplus");
    v.push("office 365");
    v.push("office ltsc");
    v.push("office mondo");
    v.push("office plus");
    assert(v@ =~= office_phrases());
    v
}

/// Names starting with these are Microsoft runtimes and built-in apps.
pub open spec fn microsoft_prefixes() -> Seq<&'static str> {
    seq![
        "microsoft visual c++",
        "microsoft .net",
        "microsoft-windows",
        "microsoft windows",
        "microsoft update",
        "microsoft edge",
        "microsoft onedrive",
        "microsoft policy platform",
        "microsoft report viewer",
        "microsoft silverlight",
        "microsoft sql server",
        "microsoft system clr types",
        "microsoft analysis services",
        "microsoft vsix",
        "microsoft solitaire",
        "microsoft tips",
        "microsoft people",
        "microsoft photos",
        "microsoft store",
        "microsoft to do",
        "microsoft 365 (office)",
        "microsoft sticky notes",
        "microsoft pay",
        "microsoft whiteboard",
        "microsoft your phone",
        "microsoft get help",
        "microsoft feedback hub",
        "microsoft bing",
        "microsoft intune",
        "microsoft sec",
        "microsoft-tartalom",
        "microsoft getstarted",
        "msxml",
        "msmq",
        "vs_",
    ]
}

fn microsoft_prefixes_list() -> (r: Vec<&'static str>)
    ensures
        r@ == microsoft_prefixes(),
{
    let mut v: Vec<&'static str> = Vec::new();
    v.push("microsoft visual c++");
    v.push("microsoft .net");
    v.push("microsoft-windows");
    v.push("microsoft windows");
    v.push("microsoft update");
    v.push("microsoft edge");
    v.push("microsoft onedrive");
    v.push("microsoft policy platform");
    v.push("microsoft report viewer");
    v.push("microsoft silverlight");
    v.push("microsoft sql server");
    v.push("microsoft system clr types");
    v.push("microsoft analysis services");
    v.push("microsoft vsix");
    v.push("microsoft solitaire");
    v.push("microsoft tips");
    v.push("microsoft people");
    v.push("microsoft photos");
    v.push("microsoft store");
    v.push("microsoft to do");
    v.push("microsoft 365 (office)");
    v.push("microsoft sticky notes");
    v.push("microsoft pay");
    v.push("microsoft whiteboard");
    v.push("microsoft your phone");
    v.push("microsoft get help");
    v.push("microsoft feedback hub");
    v.push("microsoft bing");
    v.push("microsoft intune");
    v.push("microsoft sec");
    v.push("microsoft-tartalom");
    v.push("microsoft getstarted");
    v.push("msxml");
    v.push("msmq");
    v.push("vs_");
    assert(v@ =~= microsoft_prefixes());
    v
}

/// Names starting with these are Windows components.
pub open spec fn windows_prefixes() -> Seq<&'static str> {
    seq![
        "windows sdk",
        "windows software development kit",
        "windows app certification kit",
        "windows shell experience",
        "windows defender",
        "windows security",
        "windows terminal",
        "windows calculator",
        "windows camera",
        "windows clock",
        "windows maps",
        "windows media player",
        "windows notepad",
        "windows voice recorder",
        "windows alarms",
        "windows phone",
        "windows mail",
        "windows feedback",
        "windows store",
        "windows package manager",
        "windows rendszerfel",
        "windows web experience",
        "windows subsystem",
        "windows-szolgáltatás",
        "windowsappruntime",
    ]
}

fn windows_prefixes_list() -> (r: Vec<&'static str>)
    ensures
        r@ == windows_prefixes(),
{
    let mut v: Vec<&'static str> = Vec::new();
    v.push("windows sdk");
    v.push("windows software development kit");
    v.push("windows app certification kit");
    v.push("windows shell experience");
    v.push("windows defender");
    v.push("windows security");
    v.push("windows terminal");
    v.push("windows calculator");
    v.push("windows camera");
    v.push("windows clock");
    v.push("windows maps");
    v.push("windows media player");
    v.push("windows notepad");
    v.push("windows voice recorder");
    v.push("windows alarms");
    v.push("windows phone");
    v.push("windows mail");
    v.push("windows feedback");
    v.push("windows store");
    v.push("windows package manager");
    v.push("windows rendszerfel");
    v.push("windows web experience");
    v.push("windows subsystem");
    v.push("windows-szolgáltatás");
    v.push("windowsappruntime");
    assert(v@ =~= windows_prefixes());
    v
}

/// Names starting with these are runtimes and preinstalled apps.
pub open spec fn runtime_prefixes() -> Seq<&'static str> {
    seq![
        "directx",
        "microsoft directx",
        "internet explorer",
        "xbox",
        "cortana",
        "skype",
        "udk package",
        "snipping tool",
        "paint",
        "appup.",
    ]
}

fn runtime_prefixes_list() -> (r: Vec<&'static str>)
    ensures
        r@ == runtime_prefixes(),
{
    let mut v: Vec<&'static str> = Vec::new();
    v.push("directx");
    v.push("microsoft directx");
    v.push("internet explorer");
    v.push("xbox");
    v.push("cortana");
    v.push("skype");
    v.push("udk package");
    v.push("snipping tool");
    v.push("paint");
    v.push("appup.");
    assert(v@ =~= runtime_prefixes());
    v
}

/// Names starting with these are Windows components with Hungarian names.
pub open spec fn localized_prefixes() -> Seq<&'static str> {
    seq![
        "a windows",
        "gépház",
        "fájlkezelő",
        "narrátor",
        "számológép",
        "kamera",
        "képernyővágó",
        "térképek",
        "időjárás",
        "e-mail és fiókok",
        "saját fiók",
        "munkahelyi vagy iskolai fiók",
        "hitelesít",
        "mappajavaslatok",
        "alkalmazásfeloldó",
        "eszköz biztonságos",
        "asztali alkalmazás webes",
        "dedikált hozzáférés",
        "hálózati csatlakozási",
        "vizsga",
        "pinningconfirmationdialog",
        "capturepicker",
        "biorollezés",
        "rendszer-visszaállítás",
        "contactsupport",
        "lockapp",
        "shellexperiencehost",
        "startmenuexperiencehost",
        "searchapp",
        "secureas",
        "win32webviewhost",
        "cbspreview",
        "environmentmanager",
        "assignedaccess",
        "parentalcontrols",
        "fileexplorer",
        "narratorquickstart",
        "oobenetwork",
        "solitaire",
        "adobe refresh manager",
    ]
}

fn localized_prefixes_list() -> (r: Vec<&'static str>)
    ensures
        r@ == localized_prefixes(),
{
    let mut v: Vec<&'static str> = Vec::new();
    v.push("a windows");
    v.push("gépház");
    v.push("fájlkezelő");
    v.push("narrátor");
    v.push("számológép");
    v.push("kamera");
    v.push("képernyővágó");
    v.push("térképek");
    v.push("időjárás");
    v.push("e-mail és fiókok");
    v.push("saját fiók");
    v.push("munkahelyi vagy iskolai fiók");
    v.push("hitelesít");
    v.push("mappajavaslatok");
    v.push("alkalmazásfeloldó");
    v.push("eszköz biztonságos");
    v.push("asztali alkalmazás webes");
    v.push("dedikált hozzáférés");
    v.push("hálózati csatlakozási");
    v.push("vizsga");
    v.push("pinningconfirmationdialog");
    v.push("capturepicker");
    v.push("biorollezés");
    v.push("rendszer-visszaállítás");
    v.push("contactsupport");
    v.push("lockapp");
    v.push("shellexperiencehost");
    v.push("startmenuexperiencehost");
    v.push("searchapp");
    v.push("secureas");
    v.push("win32webviewhost");
    v.push("cbspreview");
    v.push("environmentmanager");
    v.push("assignedaccess");
    v.push("parentalcontrols");
    v.push("fileexplorer");
    v.push("narratorquickstart");
    v.push("oobenetwork");
    v.push("solitaire");
    v.push("adobe refresh manager");
    assert(v@ =~= localized_prefixes());
    v
}

/// Names containing these are Windows components.
pub open spec fn os_default_phrases() -> Seq<&'static str> {
    seq![
        "redistributable",
        "security update for",
        "update for microsoft",
        "hotfix for",
        "definition update for",
        "service pack",
        "nyelvi csomag",
        "language pack",
        "input method",
        "beviteli mód",
        "click-to-run",
        "&#38;",
        "élménycsomag",
    ]
}

fn os_default_phrases_list() -> (r: Vec<&'static str>)
    ensures
        r@ == os_default_phrases(),
{
    let mut v: Vec<&'static str> = Vec::new();
    v.push("redistributable");
    v.push("security update for");
    v.push("update for microsoft");
    v.push("hotfix for");
    v.push("definition update for");
    v.push("service pack");
    v.push("nyelvi csomag");
    v.push("language pack");
    v.push("input method");
    v.push("beviteli mód");
    v.push("click-to-run");
    v.push("&#38;");
    v.push("élménycsomag");
    assert(v@ =~= os_default_phrases());
    v
}

/// These exact names are Windows components.
pub open spec fn os_default_names() -> Seq<&'static str> {
    seq![
        "skype",
        "paint",
        "notepad",
        "calculator",
        "camera",
        "photos",
        "maps",
        "clock",
        "gépház",
        "fájlkezelő",
        "narrátor",
        "vizsga",
        "számológép",
        "kamera",
        "térképek",
        "időjárás",
        "fényképek",
        "riasztók és óra",
        "hangfelvétel",
        "kapcsolatok",
    ]
}

fn os_default_names_list() -> (r: Vec<&'static str>)
    ensures
        r@ == os_default_names(),
{
    let mut v: Vec<&'static str> = Vec::new();
    v.push("skype");
    v.push("paint");
    v.push("notepad");
    v.push("calculator");
    v.push("camera");
    v.push("photos");
    v.push("maps");
    v.push("clock");
    v.push("gépház");
    v.push("fájlkezelő");
    v.push("narrátor");
    v.push("vizsga");
    v.push("számológép");
    v.push("kamera");
    v.push("térképek");
    v.push("időjárás");
    v.push("fényképek");
    v.push("riasztók és óra");
    v.push("hangfelvétel");
    v.push("kapcsolatok");
    assert(v@ =~= os_default_names());
    v
}

/// Name fragments that mark a Windows component when the publisher is Microsoft.
pub open spec fn microsoft_fragments() -> Seq<&'static str> {
    seq![
        "párbeszédpanel",
        "adatfolyam",
        "beállítás",
        "feloldó",
        "zárolás",
        "képernyő",
        "előnézet",
        "rendszerfel",
        "eltávolítás",
        "megjelenítő",
        "csatlakozás",
        "tartalom",
        "smartscreen",
        "experience",
        "webview",
        "confirmation",
        "picker",
        "capture",
        "pinning",
        "resolver",
        "lockscreen",
        "game ui",
        "game bar",
        "game callable",
        "identity provider",
        "speech to text",
        "input app",
        "shellhost",
        "immersive",
        "appinstaller",
        "extensibility component",
        "licensing component",
        "appruntime",
        "sechealth",
        "3dviewer",
        "3d viewer",
        "refresh manager",
    ]
}

fn microsoft_fragments_list() -> (r: Vec<&'static str>)
    ensures
        r@ == microsoft_fragments(),
{
    let mut v: Vec<&'static str> = Vec::new();
    v.push("párbeszédpanel");
    v.push("adatfolyam");
    v.push("beállítás");
    v.push("feloldó");
    v.push("zárolás");
    v.push("képernyő");
    v.push("előnézet");
    v.push("rendszerfel");
    v.push("eltávolítás");
    v.push("megjelenítő");
    v.push("csatlakozás");
    v.push("tartalom");
    v.push("smartscreen");
    v.push("experience");
    v.push("webview");
    v.push("confirmation");
    v.push("picker");
    v.push("capture");
    v.push("pinning");
    v.push("resolver");
    v.push("lockscreen");
    v.push("game ui");
    v.push("game bar");
    v.push("game callable");
    v.push("identity provider");
    v.push("speech to text");
    v.push("input app");
    v.push("shellhost");
    v.push("immersive");
    v.push("appinstaller");
    v.push("extensibility component");
    v.push("licensing component");
    v.push("appruntime");
    v.push("sechealth");
    v.push("3dviewer");
    v.push("3d viewer");
    v.push("refresh manager");
    assert(v@ =~= microsoft_fragments());
    v
}

/// Package-style names starting with these are Store apps.
pub open spec fn uwp_prefixes() -> Seq<&'static str> {
    seq![
        "microsoft.",
        "microsoftcorporationii.",
        "windows",
        "clipchamp.",
        "appup.",
        "realtek.",
        "nvidia.",
        "intel.",
        "dolby.",
        "disney.",
        "amazon.",
        "spotify.",
        "ad2f1837.",
    ]
}

fn uwp_prefixes_list() -> (r: Vec<&'static str>)
    ensures
        r@ == uwp_prefixes(),
{
    let mut v: Vec<&'static str> = Vec::new();
    v.push("microsoft.");
    v.push("microsoftcorporationii.");
    v.push("windows");
    v.push("clipchamp.");
    v.push("appup.");
    v.push("realtek.");
    v.push("nvidia.");
    v.push("intel.");
    v.push("dolby.");
    v.push("disney.");
    v.push("amazon.");
    v.push("spotify.");
    v.push("ad2f1837.");
    assert(v@ =~= uwp_prefixes());
    v
}


pub open spec fn starts_any(s: Seq<char>, l: Seq<&str>) -> bool {
    exists|k: int| 0 <= k < l.len() && starts_with(s, #[trigger] l[k]@)
}

pub open spec fn contains_any(s: Seq<char>, l: Seq<&str>) -> bool {
    exists|k: int| 0 <= k < l.len() && contains(s, #[trigger] l[k]@)
}

pub open spec fn equals_any(s: Seq<char>, l: Seq<&str>) -> bool {
    exists|k: int| 0 <= k < l.len() && s == #[trigger] l[k]@
}

fn starts_with_any(s: &str, l: &Vec<&str>) -> (r: bool)
    ensures
        r == starts_any(s@, l@),
{
    let mut k: usize = 0;
    while k < l.len()
        invariant
            k <= l@.len(),
            forall|j: int| 0 <= j < k ==> !starts_with(s@, #[trigger] l@[j]@),
        decreases l.len() - k,
    {
        if str_starts_with(s, l[k]) {
            return true;
        }
        k = k + 1;
    }
    false
}

fn contains_any_of(s: &str, l: &Vec<&str>) -> (r: bool)
    ensures
        r == contains_any(s@, l@),
{
    let mut k: usize = 0;
    while k < l.len()
        invariant
            k <= l@.len(),
            forall|j: int| 0 <= j < k ==> !contains(s@, #[trigger] l@[j]@),
        decreases l.len() - k,
    {
        if str_contains(s, l[k]) {
            return true;
        }
        k = k + 1;
    }
    false
}

fn equals_any_of(s: &str, l: &Vec<&str>) -> (r: bool)
    ensures
        r == equals_any(s@, l@),
{
    let mut k: usize = 0;
    while k < l.len()
        invariant
            k <= l@.len(),
            forall|j: int| 0 <= j < k ==> s@ != #[trigger] l@[j]@,
        decreases l.len() - k,
    {
        if str_eq(s, l[k]) {
            return true;
        }
        k = k + 1;
    }
    false
}

// ---------------------------------------------------------------------------
// Built-in Windows components
// ---------------------------------------------------------------------------
/// An Office product (by lowercased name), always shown.
pub open spec fn office_product(lower: Seq<char>) -> bool {
    starts_any(lower, office_prefixes()) || contains_any(lower, office_phrases())
}

pub fn is_office_product(lower: &str) -> (r: bool)
    ensures
        r == office_product(lower@),
{
    starts_with_any(lower, &office_prefixes_list()) || contains_any_of(lower, &office_phrases_list())
}

/// A GUID at the start of the trimmed text: 8-4-4-4-12 hexadecimal digits.
pub open spec fn guid_like(s: Seq<char>) -> bool {
    let t = trim(s);
    t.len() >= 36 && forall|k: int|
        0 <= k < 36 ==> if k == 8 || k == 13 || k == 18 || k == 23 {
            #[trigger] t[k] == '-'
        } else {
            is_ascii_hex(t[k])
        }
}

pub fn looks_like_guid(s: &str) -> (r: bool)
    ensures
        r == guid_like(s@),
{
    let t = trim_chars(chars_of(s).as_slice());
    if t.len() < 36 {
        return false;
    }
    let mut k: usize = 0;
    while k < 36
        invariant
            k <= 36 <= t@.len(),
            t@ == trim(s@),
            forall|j: int|
                0 <= j < k ==> if j == 8 || j == 13 || j == 18 || j == 23 {
                    #[trigger] t@[j] == '-'
                } else {
                    is_ascii_hex(t@[j])
                },
        decreases 36 - k,
    {
        let ok = if k == 8 || k == 13 || k == 18 || k == 23 {
            t[k] == '-'
        } else {
            char_is_ascii_hex(t[k])
        };
        if !ok {
            return false;
        }
        k = k + 1;
    }
    true
}

/// What `char::is_alphabetic` says of a character (Unicode `Alphabetic`).
pub uninterp spec fn unicode_alphabetic(c: char) -> bool;

/// What `char::is_alphanumeric` says of a character (Unicode `Alphabetic` or
/// `Numeric`).
pub uninterp spec fn unicode_alphanumeric(c: char) -> bool;

/// Calls `char::is_alphabetic`.
#[verifier::external_body]
fn char_alphabetic(c: char) -> (r: bool)
    ensures
        r == unicode_alphabetic(c),
{
    c.is_alphabetic()
}

/// Calls `char::is_alphanumeric`.
#[verifier::external_body]
fn char_alphanumeric(c: char) -> (r: bool)
    ensures
        r == unicode_alphanumeric(c),
{
    c.is_alphanumeric()
}

/// The position of the first non-whitespace character at or after `i`.
pub open spec fn skip_ws(s: Seq<char>, i: int) -> int
    decreases s.len() - i,
{
    if i < 0 || i >= s.len() || !is_ws(s[i]) {
        i
    } else {
        skip_ws(s, i + 1)
    }
}

/// The position of the first whitespace character at or after `i`.
pub open spec fn word_end(s: Seq<char>, i: int) -> int
    decreases s.len() - i,
{
    if i < 0 || i >= s.len() || is_ws(s[i]) {
        i
    } else {
        word_end(s, i + 1)
    }
}

/// The first whitespace-separated word, or the whole text when it has none.
pub open spec fn first_word_or_all(s: Seq<char>) -> Seq<char> {
    let a = skip_ws(s, 0);
    if a >= s.len() {
        s
    } else {
        s.subrange(a, word_end(s, a))
    }
}

pub(crate) proof fn lemma_skip_ws(s: Seq<char>, i: int)
    requires
        0 <= i <= s.len(),
    ensures
        i <= skip_ws(s, i) <= s.len(),
    decreases s.len() - i,
{
    if i < s.len() && is_ws(s[i]) {
        lemma_skip_ws(s, i + 1);
    }
}

pub(crate) proof fn lemma_word_end(s: Seq<char>, i: int)
    requires
        0 <= i <= s.len(),
    ensures
        i <= word_end(s, i) <= s.len(),
    decreases s.len() - i,
{
    if i < s.len() && !is_ws(s[i]) {
        lemma_word_end(s, i + 1);
    }
}

fn first_word(v: &Vec<char>) -> (r: Vec<char>)
    ensures
        r@ == first_word_or_all(v@),
{
    let mut a: usize = 0;
    while a < v.len() && char_is_whitespace(v[a])
        invariant
            a <= v@.len(),
            skip_ws(v@, 0) == skip_ws(v@, a as int),
        decreases v.len() - a,
    {
        a = a + 1;
    }
    if a >= v.len() {
        let mut r: Vec<char> = Vec::new();
        let mut k: usize = 0;
        while k < v.len()
            invariant
                k <= v@.len(),
                r@ == v@.take(k as int),
            decreases v.len() - k,
        {
            r.push(v[k]);
            k = k + 1;
            assert(r@ =~= v@.take(k as int));
        }
        assert(v@.take(v@.len() as int) =~= v@);
        return r;
    }
    let mut b: usize = a;
    let mut r: Vec<char> = Vec::new();
    while b < v.len() && !char_is_whitespace(v[b])
        invariant
            a <= b <= v@.len(),
            a < v@.len(),
            word_end(v@, a as int) == word_end(v@, b as int),
            r@ == v@.subrange(a as int, b as int),
        decreases v.len() - b,
    {
        r.push(v[b]);
        b = b + 1;
        assert(r@ =~= v@.subrange(a as int, b as int));
    }
    r
}

/// The position of the first `c` in `s`.
pub open spec fn first_index(s: Seq<char>, c: char) -> Option<int> {
    if s.contains(c) {
        Some(choose|d: int| 0 <= d < s.len() && s[d] == c && forall|j: int| 0 <= j < d ==> s[j] != c)
    } else {
        None
    }
}

/// A Store-app package name: the first word is `Word.Word…` (the part before the
/// first dot starts with a letter and holds only letters, digits, `-` and `_`,
/// the part after it starts with a letter or digit) and starts with a known
/// package prefix.
pub open spec fn uwp_like(lower: Seq<char>) -> bool {
    let base = first_word_or_all(lower);
    match first_index(base, '.') {
        Some(d) => 0 < d < base.len() - 1 && unicode_alphabetic(base[0]) && (forall|j: int|
            0 <= j < d ==> unicode_alphanumeric(#[trigger] base[j]) || base[j] == '-' || base[j] == '_')
            && unicode_alphanumeric(base[d + 1]) && starts_any(base, uwp_prefixes()),
        None => false,
    }
}

pub fn is_uwp_package_name(lower: &str) -> (r: bool)
    ensures
        r == uwp_like(lower@),
{
    let v = chars_of(lower);
    let base = first_word(&v);
    let mut d: usize = 0;
    while d < base.len() && base[d] != '.'
        invariant
            d <= base@.len(),
            forall|j: int| 0 <= j < d ==> base@[j] != '.',
        decreases base.len() - d,
    {
        d = d + 1;
    }
    if d >= base.len() {
        proof {
            if base@.contains('.') {
                let j = choose|j: int| 0 <= j < base@.len() && base@[j] == '.';
            }
        }
        return false;
    }
    proof {
        assert(base@.contains('.')) by {
            assert(base@[d as int] == '.');
        }
        let d2 = choose|d2: int| 0 <= d2 < base@.len() && base@[d2] == '.' && forall|j: int| 0 <= j < d2 ==> base@[j] != '.';
        if d2 < d {
            assert(base@[d2] != '.');
        }
        if d2 > d {
            assert(base@[d as int] != '.');
        }
        assert(first_index(base@, '.') == Some(d as int));
    }
    if !(d > 0 && d + 1 < base.len()) {
        return false;
    }
    let mut ok = char_alphabetic(base[0]);
    let mut k: usize = 0;
    while k < d
        invariant
            k <= d < base@.len(),
            ok ==> unicode_alphabetic(base@[0]) && forall|j: int| 0 <= j < k ==> unicode_alphanumeric(#[trigger] base@[j]) || base@[j] == '-' || base@[j] == '_',
            !ok ==> !unicode_alphabetic(base@[0]) || exists|j: int| 0 <= j < k && !(unicode_alphanumeric(#[trigger] base@[j]) || base@[j] == '-' || base@[j] == '_'),
        decreases d - k,
    {
        let c = base[k];
        if !(char_alphanumeric(c) || c == '-' || c == '_') {
            ok = false;
        }
        k = k + 1;
    }
    if ok {
        ok = char_alphanumeric(base[d + 1]);
    }
    let prefixes = uwp_prefixes_list();
    let s = crate::text::string_from_chars(base.as_slice());
    ok && starts_with_any(s.as_str(), &prefixes)
}

/// A `KB…` update: the lowercased name starts with "kb" and a digit.
pub open spec fn kb_update(lower: Seq<char>) -> bool {
    lower.len() >= 3 && lower[0] == 'k' && lower[1] == 'b' && is_ascii_digit(lower[2])
}

/// A built-in Windows component or runtime, by name and publisher (both compared
/// lowercased); Office products never are.
pub open spec fn os_default(name: Seq<char>, publisher: Seq<char>) -> bool {
    let lower = to_lower(name);
    let pl = to_lower(publisher);
    !office_product(lower) && (guid_like(lower) || kb_update(lower) || uwp_like(lower) || starts_any(lower, microsoft_prefixes()) || starts_any(lower, windows_prefixes())
        || starts_any(lower, runtime_prefixes()) || starts_any(lower, localized_prefixes()) || contains_any(lower, os_default_phrases()) || equals_any(lower, os_default_names()) || ((pl
        == "microsoft corporation"@ || pl == "microsoft corp."@) && contains_any(lower, microsoft_fragments())))
}

pub fn is_os_default(name: &str, publisher: &str) -> (r: bool)
    ensures
        r == os_default(name@, publisher@),
{
    let lower = lowercase(name);
    let pub_lower = lowercase(publisher);
    let l = lower.as_str();
    if is_office_product(l) {
        return false;
    }
    if looks_like_guid(l) {
        return true;
    }
    let lv = chars_of(l);
    if lv.len() >= 3 && lv[0] == 'k' && lv[1] == 'b' && crate::text::char_is_ascii_digit(lv[2]) {
        return true;
    }
    if is_uwp_package_name(l) {
        return true;
    }
    if starts_with_any(l, &microsoft_prefixes_list()) || starts_with_any(l, &windows_prefixes_list())
        || starts_with_any(l, &runtime_prefixes_list()) || starts_with_any(l, &localized_prefixes_list()) {
        return true;
    }
    if contains_any_of(l, &os_default_phrases_list()) {
        return true;
    }
    if equals_any_of(l, &os_default_names_list()) {
        return true;
    }
    if str_eq(pub_lower.as_str(), "microsoft corporation") || str_eq(pub_lower.as_str(), "microsoft corp.") {
        return contains_any_of(l, &microsoft_fragments_list());
    }
    false
}

// ---------------------------------------------------------------------------
// Copying rows
// ---------------------------------------------------------------------------
pub open spec fn version_same(a: VersionDetail, b: VersionDetail) -> bool {
    &&& a.version_id == b.version_id
    &&& a.version_name@ == b.version_name@
    &&& a.host_count == b.host_count
    &&& opt_view(a.last_install_date) == opt_view(b.last_install_date)
    &&& a.host_ids@ == b.host_ids@
}

/// Two rows hold the same values.
pub open spec fn software_same(a: AggregatedSoftware, b: AggregatedSoftware) -> bool {
    &&& a.software_id == b.software_id
    &&& a.name@ == b.name@
    &&& a.publisher@ == b.publisher@
    &&& a.name_lower@ == b.name_lower@
    &&& a.publisher_lower@ == b.publisher_lower@
    &&& a.total_host_count == b.total_host_count
    &&& a.latest_version@ == b.latest_version@
    &&& opt_view(a.last_install_date) == opt_view(b.last_install_date)
    &&& opt_view(a.last_updated) == opt_view(b.last_updated)
    &&& opt_view(a.last_agent_pull) == opt_view(b.last_agent_pull)
    &&& opt_view(a.last_host_inventory) == opt_view(b.last_host_inventory)
    &&& opt_view(a.all_hosts_install_floor) == opt_view(b.all_hosts_install_floor)
    &&& a.host_install_best_per_host@ == b.host_install_best_per_host@
    &&& a.host_mod_best_per_host@ == b.host_mod_best_per_host@
    &&& a.versions@.len() == b.versions@.len()
    &&& forall|k: int| 0 <= k < a.versions@.len() ==> version_same(#[trigger] a.versions@[k], b.versions@[k])
    &&& a.host_ids@ == b.host_ids@
}

pub fn copy_id_set(s: &HashSet<u64>) -> (r: HashSet<u64>)
    ensures
        r@ == s@,
{
    let mut r: HashSet<u64> = HashSet::new();
    let ghost keys = spec_hash_keys_iter(s).remaining();
    for h in it: s.iter()
        invariant
            it.seq() == keys,
            keys.unref().to_set() == s@,
            forall|x: u64| #[trigger] r@.contains(x) <==> exists|k: int| 0 <= k < it.index() && *keys[k] == x,
    {
        r.insert(*h);
    }
    proof {
        assert forall|x: u64| #[trigger] r@.contains(x) <==> s@.contains(x) by {
            if s@.contains(x) {
                assert(keys.unref().to_set().contains(x));
                let k = choose|k: int| 0 <= k < keys.unref().len() && keys.unref()[k] == x;
                assert(*keys[k] == x);
            }
            if r@.contains(x) {
                let k = choose|k: int| 0 <= k < keys.len() && *keys[k] == x;
                assert(keys.unref()[k] == x);
                assert(keys.unref().to_set().contains(x));
            }
        }
        assert(r@ =~= s@);
    }
    r
}

fn copy_opt_text(o: &Option<String>) -> (r: Option<String>)
    ensures
        r == *o,
{
    match o {
        Some(x) => Some(x.clone()),
        None => None,
    }
}

pub fn copy_version(v: &VersionDetail) -> (r: VersionDetail)
    ensures
        version_same(r, *v),
{
    VersionDetail {
        version_id: v.version_id,
        version_name: v.version_name.clone(),
        host_count: v.host_count,
        last_install_date: copy_opt_text(&v.last_install_date),
        host_ids: copy_id_set(&v.host_ids),
    }
}

/// A copy of a row.
pub fn copy_software(sw: &AggregatedSoftware) -> (r: AggregatedSoftware)
    ensures
        software_same(r, *sw),
{
    let mut versions: Vec<VersionDetail> = Vec::new();
    let mut k: usize = 0;
    while k < sw.versions.len()
        invariant
            k <= sw.versions@.len(),
            versions@.len() == k,
            forall|j: int| 0 <= j < k ==> version_same(#[trigger] versions@[j], sw.versions@[j]),
        decreases sw.versions.len() - k,
    {
        versions.push(copy_version(&sw.versions[k]));
        k = k + 1;
    }
    AggregatedSoftware {
        software_id: sw.software_id,
        name: sw.name.clone(),
        publisher: sw.publisher.clone(),
        name_lower: sw.name_lower.clone(),
        publisher_lower: sw.publisher_lower.clone(),
        total_host_count: sw.total_host_count,
        latest_version: sw.latest_version.clone(),
        last_install_date: copy_opt_text(&sw.last_install_date),
        last_updated: copy_opt_text(&sw.last_updated),
        last_agent_pull: copy_opt_text(&sw.last_agent_pull),
        last_host_inventory: copy_opt_text(&sw.last_host_inventory),
        all_hosts_install_floor: copy_opt_text(&sw.all_hosts_install_floor),
        host_install_best_per_host: sw.host_install_best_per_host.clone(),
        host_mod_best_per_host: sw.host_mod_best_per_host.clone(),
        versions,
        host_ids: copy_id_set(&sw.host_ids),
    }
}

// ---------------------------------------------------------------------------
// The filter bar
// ---------------------------------------------------------------------------
/// The smallest host count: `min_hosts` read as a number, else 0.
pub open spec fn min_hosts_of(f: FilterState) -> int {
    match parse_unsigned(f.min_hosts@, usize::MAX as int) {
        Some(n) => n,
        None => 0,
    }
}

/// How many rows to keep at most: `top_n` read as a number; none when it is
/// empty or unreadable.
pub open spec fn row_limit(f: FilterState) -> Option<int> {
    if f.top_n@.len() == 0 {
        None
    } else {
        parse_unsigned(f.top_n@, usize::MAX as int)
    }
}

/// Row `sw` passes every active filter, on day `today`.
pub open spec fn row_kept(sw: AggregatedSoftware, f: FilterState, selected: Set<u64>, today: int) -> bool {
    let name_l = to_lower(f.software_name@);
    let pub_l = to_lower(f.publisher@);
    &&& !(f.show_selected_only && !selected.contains(sw.software_id))
    &&& !(f.hide_os_defaults && os_default(sw.name@, sw.publisher@))
    &&& (name_l.len() == 0 || contains(sw.name_lower@, name_l))
    &&& (pub_l.len() == 0 || contains(sw.publisher_lower@, pub_l))
    &&& sw.total_host_count >= min_hosts_of(f)
    &&& (f.recently_updated ==> date_in_window(
        opt_view(
            if f.recent_use_host_inventory {
                sw.last_host_inventory
            } else {
                sw.last_agent_pull
            },
        ),
        today,
        f,
    ))
    &&& (f.recent_install_only ==> date_in_window(opt_view(sw.last_install_date), today, f))
    &&& (f.every_host_install_in_window ==> date_in_window(opt_view(sw.all_hosts_install_floor), today, f))
}

/// The positions of the rows among the first `k` that pass the filters, in order.
pub open spec fn kept_positions(data: Seq<AggregatedSoftware>, f: FilterState, selected: Set<u64>, today: int, k: int) -> Seq<int>
    decreases k,
{
    if k <= 0 {
        Seq::empty()
    } else {
        let prev = kept_positions(data, f, selected, today, k - 1);
        if row_kept(data[k - 1], f, selected, today) {
            prev.push(k - 1)
        } else {
            prev
        }
    }
}

/// What `apply_filters` returns: copies of the rows that pass, in order, at most
/// `row_limit` of them.
pub open spec fn filtered_ok(
    data: Seq<AggregatedSoftware>,
    f: FilterState,
    selected: Set<u64>,
    today: int,
    r: Seq<AggregatedSoftware>,
) -> bool {
    let kp = kept_positions(data, f, selected, today, data.len() as int);
    let n = match row_limit(f) {
        Some(t) => if t < kp.len() {
            t
        } else {
            kp.len() as int
        },
        None => kp.len() as int,
    };
    &&& r.len() == n
    &&& forall|i: int| 0 <= i < n ==> software_same(#[trigger] r[i], data[kp[i]])
}

proof fn lemma_kept_positions(data: Seq<AggregatedSoftware>, f: FilterState, selected: Set<u64>, today: int, k: int)
    requires
        0 <= k <= data.len(),
    ensures
        kept_positions(data, f, selected, today, k).len() <= k,
        forall|i: int|
            0 <= i < kept_positions(data, f, selected, today, k).len() ==> 0 <= #[trigger] kept_positions(
                data,
                f,
                selected,
                today,
                k,
            )[i] < k,
    decreases k,
{
    if k > 0 {
        lemma_kept_positions(data, f, selected, today, k - 1);
    }
}

proof fn lemma_kept_positions_pass(data: Seq<AggregatedSoftware>, f: FilterState, selected: Set<u64>, today: int, k: int)
    requires
        0 <= k <= data.len(),
    ensures
        forall|i: int|
            0 <= i < kept_positions(data, f, selected, today, k).len() ==> row_kept(
                data[#[trigger] kept_positions(data, f, selected, today, k)[i]],
                f,
                selected,
                today,
            ),
        forall|j: int|
            0 <= j < k && row_kept(#[trigger] data[j], f, selected, today) ==> kept_positions(
                data,
                f,
                selected,
                today,
                k,
            ).contains(j),
    decreases k,
{
    if k > 0 {
        lemma_kept_positions_pass(data, f, selected, today, k - 1);
        let prev = kept_positions(data, f, selected, today, k - 1);
        let cur = kept_positions(data, f, selected, today, k);
        assert forall|j: int| 0 <= j < k && row_kept(#[trigger] data[j], f, selected, today) implies cur.contains(j) by {
            if j < k - 1 {
                assert(prev.contains(j));
                let i = choose|i: int| 0 <= i < prev.len() && prev[i] == j;
                if row_kept(data[k - 1], f, selected, today) {
                    assert(cur[i] == prev[i]);
                }
            } else {
                assert(cur[prev.len() as int] == j);
            }
        }
    }
}

/// The publisher filter: a row is kept only when its lower-cased publisher
/// contains the lower-cased filter text; and when no other filter is set, every
/// row whose lower-cased publisher contains it is kept (an empty name filter
/// is one whose lower-cased text is empty).
pub proof fn lemma_publisher_filter(
    data: Seq<AggregatedSoftware>,
    f: FilterState,
    selected: Set<u64>,
    today: int,
    r: Seq<AggregatedSoftware>,
)
    requires
        filtered_ok(data, f, selected, today, r),
    ensures
        forall|i: int| 0 <= i < r.len() ==> contains((#[trigger] r[i]).publisher_lower@, to_lower(f.publisher@)),
        ({
            &&& to_lower(f.software_name@).len() == 0
            &&& !f.show_selected_only
            &&& !f.hide_os_defaults
            &&& min_hosts_of(f) == 0
            &&& !f.recently_updated
            &&& !f.recent_install_only
            &&& !f.every_host_install_in_window
            &&& row_limit(f) is None
        }) ==> forall|j: int|
            0 <= j < data.len() && contains((#[trigger] data[j]).publisher_lower@, to_lower(f.publisher@))
                ==> exists|i: int| 0 <= i < r.len() && r[i].software_id == data[j].software_id
                && r[i].publisher_lower@ == data[j].publisher_lower@,
{
    let n = data.len() as int;
    lemma_kept_positions(data, f, selected, today, n);
    lemma_kept_positions_pass(data, f, selected, today, n);
    let kp = kept_positions(data, f, selected, today, n);
    assert forall|i: int| 0 <= i < r.len() implies contains((#[trigger] r[i]).publisher_lower@, to_lower(f.publisher@)) by {
        assert(software_same(r[i], data[kp[i]]));
        assert(row_kept(data[kp[i]], f, selected, today));
        if to_lower(f.publisher@).len() == 0 {
            let e = to_lower(f.publisher@);
            assert(r[i].publisher_lower@.subrange(0, 0) =~= e);
            assert(occurs_at(r[i].publisher_lower@, e, 0));
        }
    }
    if to_lower(f.software_name@).len() == 0 && !f.show_selected_only && !f.hide_os_defaults && min_hosts_of(f) == 0
        && !f.recently_updated && !f.recent_install_only && !f.every_host_install_in_window && row_limit(f) is None {
        assert forall|j: int|
            0 <= j < data.len() && contains((#[trigger] data[j]).publisher_lower@, to_lower(f.publisher@)) implies exists|i: int|
                0 <= i < r.len() && r[i].software_id == data[j].software_id && r[i].publisher_lower@
                    == data[j].publisher_lower@ by {
            assert(row_kept(data[j], f, selected, today));
            assert(kp.contains(j));
            let i = choose|i: int| 0 <= i < kp.len() && kp[i] == j;
            assert(software_same(r[i], data[kp[i]]));
        }
    }
}

fn row_passes(sw: &AggregatedSoftware, filters: &FilterState, selected: &HashSet<u64>, name_l: &str, pub_l: &str, min_hosts: usize, today: i32) -> (r: bool)
    requires
        name_l@ == to_lower(filters.software_name@),
        pub_l@ == to_lower(filters.publisher@),
        min_hosts as int == min_hosts_of(*filters),
    ensures
        r == row_kept(*sw, *filters, selected@, today as int),
{
    if filters.show_selected_only && !selected.contains(&sw.software_id) {
        return false;
    }
    if filters.hide_os_defaults && is_os_default(sw.name.as_str(), sw.publisher.as_str()) {
        return false;
    }
    if !name_l.is_empty() && !str_contains(sw.name_lower.as_str(), name_l) {
        return false;
    }
    if !pub_l.is_empty() && !str_contains(sw.publisher_lower.as_str(), pub_l) {
        return false;
    }
    if sw.total_host_count < min_hosts {
        return false;
    }
    if filters.recently_updated {
        let recent = if filters.recent_use_host_inventory {
            &sw.last_host_inventory
        } else {
            &sw.last_agent_pull
        };
        if !date_in_recency_window(recent, today, filters) {
            return false;
        }
    }
    if filters.recent_install_only && !date_in_recency_window(&sw.last_install_date, today, filters) {
        return false;
    }
    if filters.every_host_install_in_window && !date_in_recency_window(&sw.all_hosts_install_floor, today, filters) {
        return false;
    }
    true
}

/// The rows of `data` that pass the filter bar on day `today` (see `filtered_ok`).
pub fn apply_filters(
    data: &[AggregatedSoftware],
    filters: &FilterState,
    selected: &HashSet<u64>,
    today: i32,
) -> (r: Vec<AggregatedSoftware>)
    ensures
        filtered_ok(data@, *filters, selected@, today as int, r@),
{
    let name_l = lowercase(filters.software_name.as_str());
    let pub_l = lowercase(filters.publisher.as_str());
    let min_hosts: usize = match parse_usize(filters.min_hosts.as_str()) {
        Some(n) => n,
        None => 0,
    };
    let top_n: Option<usize> = if filters.top_n.as_str().is_empty() {
        None
    } else {
        parse_usize(filters.top_n.as_str())
    };
    let ghost kp_all = kept_positions(data@, *filters, selected@, today as int, data@.len() as int);
    let mut out: Vec<AggregatedSoftware> = Vec::new();
    let mut k: usize = 0;
    while k < data.len()
        invariant
            k <= data@.len(),
            name_l@ == to_lower(filters.software_name@),
            pub_l@ == to_lower(filters.publisher@),
            min_hosts as int == min_hosts_of(*filters),
            out@.len() == kept_positions(data@, *filters, selected@, today as int, k as int).len(),
            forall|i: int|
                0 <= i < out@.len() ==> software_same(
                    #[trigger] out@[i],
                    data@[kept_positions(data@, *filters, selected@, today as int, k as int)[i]],
                ),
        decreases data.len() - k,
    {
        proof {
            lemma_kept_positions(data@, *filters, selected@, today as int, k as int);
        }
        if row_passes(&data[k], filters, selected, name_l.as_str(), pub_l.as_str(), min_hosts, today) {
            out.push(copy_software(&data[k]));
        }
        k = k + 1;
    }
    proof {
        lemma_kept_positions(data@, *filters, selected@, today as int, data@.len() as int);
    }
    match top_n {
        Some(n) => {
            if n < out.len() {
                out.truncate(n);
            }
        },
        None => {},
    }
    out
}


} // verus!
