//! Naming and removing saved inventory snapshots (`history/snapshot-*.json`).
//! The files themselves are read and written by the application; the library
//! decides names and reports.
use crate::text::{
    chars_of, contains, decimal, decimal_chars, ends_with, join, lemma_join_push, occurs_at, str_contains,
    str_ends_with, string_from_chars,
};
use vstd::prelude::*;

verus! {

/// A timestamp character kept in a file name: ASCII letters, digits, `-` and `_`;
/// anything else becomes `-`.
pub open spec fn stamp_char(c: char) -> char {
    if ('0' <= c && c <= '9') || ('a' <= c && c <= 'z') || ('A' <= c && c <= 'Z') || c == '-' || c == '_' {
        c
    } else {
        '-'
    }
}

/// A timestamp made safe for a file name.
pub open spec fn sanitized(s: Seq<char>) -> Seq<char> {
    Seq::new(s.len(), |k: int| stamp_char(s[k]))
}

pub fn sanitize_timestamp(timestamp: &str) -> (r: String)
    ensures
        r@ == sanitized(timestamp@),
{
    let v = chars_of(timestamp);
    let mut out: Vec<char> = Vec::new();
    let mut k: usize = 0;
    while k < v.len()
        invariant
            k <= v@.len(),
            v@ == timestamp@,
            out@ =~= sanitized(timestamp@).take(k as int),
        decreases v.len() - k,
    {
        let c = v[k];
        let d = if ('0' <= c && c <= '9') || ('a' <= c && c <= 'z') || ('A' <= c && c <= 'Z') || c == '-' || c
            == '_' {
            c
        } else {
            '-'
        };
        out.push(d);
        k = k + 1;
    }
    string_from_chars(out.as_slice())
}

/// The file name of a snapshot captured at `captured_at`: `snapshot-{stamp}.json`,
/// or `snapshot-{stamp}-{suffix}.json` when `suffix` is not zero (the names are
/// tried with suffix 0, 1, 2, … until one is free).
pub open spec fn snapshot_file_name_spec(captured_at: Seq<char>, suffix: nat) -> Seq<char> {
    let stem = "snapshot-"@ + sanitized(captured_at);
    if suffix == 0 {
        stem + ".json"@
    } else {
        stem + "-"@ + decimal(suffix) + ".json"@
    }
}

pub fn snapshot_file_name(captured_at: &str, suffix: u64) -> (r: String)
    ensures
        r@ == snapshot_file_name_spec(captured_at@, suffix as nat),
{
    let stamp = sanitize_timestamp(captured_at);
    let mut v = chars_of("snapshot-");
    let s = chars_of(stamp.as_str());
    append_chars(&mut v, &s);
    if suffix != 0 {
        let dash = chars_of("-");
        append_chars(&mut v, &dash);
        let d = decimal_chars(suffix);
        append_chars(&mut v, &d);
    }
    let ext = chars_of(".json");
    append_chars(&mut v, &ext);
    string_from_chars(v.as_slice())
}

pub fn append_chars(v: &mut Vec<char>, w: &Vec<char>)
    ensures
        final(v)@ == old(v)@ + w@,
{
    let mut k: usize = 0;
    while k < w.len()
        invariant
            k <= w@.len(),
            v@ == old(v)@ + w@.take(k as int),
        decreases w.len() - k,
    {
        v.push(w[k]);
        k = k + 1;
        assert(v@ =~= old(v)@ + w@.take(k as int));
    }
    assert(w@.take(w@.len() as int) =~= w@);
}

/// The name starts with a drive letter and a colon (`C:x.json`), which on
/// Windows names a place on that drive rather than in the folder.
pub open spec fn drive_prefixed(name: Seq<char>) -> bool {
    name.len() >= 2 && crate::text::is_ascii_alpha(name[0]) && name[1] == ':'
}

/// A snapshot file name the library accepts: no `..`, `/` or `\`, ending in
/// `.json`, and on Windows (`windows`) no drive prefix.
pub open spec fn snapshot_name_ok(name: Seq<char>, windows: bool) -> bool {
    !contains(name, ".."@) && !contains(name, "/"@) && !contains(name, "\\"@) && !(windows && drive_prefixed(name))
        && ends_with(
        name,
        ".json"@,
    )
}

/// Joined to the history folder, the name stays directly inside it: a single
/// path component that is neither `.` nor `..`, holds no separator of either
/// system and, on Windows, starts with no drive prefix.
pub open spec fn stays_in_folder(name: Seq<char>, windows: bool) -> bool {
    &&& name.len() > 0
    &&& name != "."@
    &&& name != ".."@
    &&& forall|i: int| 0 <= i < name.len() ==> #[trigger] name[i] != '/' && name[i] != '\\'
    &&& !(windows && drive_prefixed(name))
}

/// Every accepted name stays directly inside the history folder.
pub proof fn lemma_accepted_names_stay_in_folder(name: Seq<char>, windows: bool)
    requires
        snapshot_name_ok(name, windows),
    ensures
        stays_in_folder(name, windows),
{
    reveal_strlit(".json");
    reveal_strlit(".");
    reveal_strlit("..");
    reveal_strlit("/");
    reveal_strlit("\\");
    assert(name.len() >= 5);
    assert forall|i: int| 0 <= i < name.len() implies #[trigger] name[i] != '/' && name[i] != '\\' by {
        if name[i] == '/' {
            assert(name.subrange(i, i + 1) =~= "/"@);
            assert(occurs_at(name, "/"@, i));
        }
        if name[i] == '\\' {
            assert(name.subrange(i, i + 1) =~= "\\"@);
            assert(occurs_at(name, "\\"@, i));
        }
    }
}

/// Refuses a file name that could leave the history directory or is not a
/// snapshot (`Invalid snapshot file name`); `windows` says whether paths are
/// read the Windows way, where a drive prefix leaves the folder.
pub fn check_snapshot_name(file_name: &str, windows: bool) -> (r: Result<(), String>)
    ensures
        r is Ok <==> snapshot_name_ok(file_name@, windows),
        r matches Err(e) ==> e@ == "Invalid snapshot file name"@,
{
    if str_contains(file_name, "..") || str_contains(file_name, "/") || str_contains(file_name, "\\") {
        return Err("Invalid snapshot file name".to_owned());
    }
    if !str_ends_with(file_name, ".json") {
        return Err("Invalid snapshot file name".to_owned());
    }
    let v = chars_of(file_name);
    if windows && v.len() >= 2 && crate::text::char_is_ascii_alpha(v[0]) && v[1] == ':' {
        return Err("Invalid snapshot file name".to_owned());
    }
    Ok(())
}

/// The failure lines `"{name}: {error}"` of the first `n` removals, in order.
pub open spec fn failure_lines(names: Seq<String>, outcomes: Seq<Result<(), String>>, n: int) -> Seq<Seq<char>>
    decreases n,
{
    if n <= 0 {
        Seq::empty()
    } else {
        let prev = failure_lines(names, outcomes, n - 1);
        match outcomes[n - 1] {
            Ok(_) => prev,
            Err(e) => prev.push(names[n - 1]@ + ": "@ + e@),
        }
    }
}

/// How many of the first `n` removals succeeded.
pub open spec fn removed_count(outcomes: Seq<Result<(), String>>, n: int) -> nat
    decreases n,
{
    if n <= 0 {
        0
    } else {
        removed_count(outcomes, n - 1) + if outcomes[n - 1] is Ok {
            1nat
        } else {
            0nat
        }
    }
}

/// The report of removing several snapshots, `outcomes[k]` being the result of
/// removing `file_names[k]`: the number removed when at least one was (or when
/// there was nothing to remove); otherwise an error listing the failures, each
/// as "name: reason", joined with "; ".
pub open spec fn delete_report(names: Seq<String>, outcomes: Seq<Result<(), String>>) -> Result<usize, Seq<char>> {
    let n = names.len() as int;
    let deleted = removed_count(outcomes, n);
    if n == 0 || deleted > 0 {
        Ok(deleted as usize)
    } else {
        Err(join(failure_lines(names, outcomes, n), "; "@))
    }
}

proof fn lemma_removed_count_bound(outcomes: Seq<Result<(), String>>, n: int)
    ensures
        removed_count(outcomes, n) <= if n < 0 {
            0
        } else {
            n
        },
    decreases n,
{
    if n > 0 {
        lemma_removed_count_bound(outcomes, n - 1);
    }
}

/// Sums up the removal of several snapshots (see `delete_report`).
pub fn delete_snapshots(file_names: &[String], outcomes: &[Result<(), String>]) -> (r: Result<usize, String>)
    requires
        outcomes@.len() == file_names@.len(),
    ensures
        match delete_report(file_names@, outcomes@) {
            Ok(n) => r == Ok::<usize, String>(n),
            Err(m) => r matches Err(e) && e@ == m,
        },
{
    if file_names.len() == 0 {
        return Ok(0);
    }
    let mut deleted: usize = 0;
    let mut errors: Vec<char> = Vec::new();
    let mut failures: usize = 0;
    let mut k: usize = 0;
    let sep = chars_of("; ");
    let colon = chars_of(": ");
    while k < file_names.len()
        invariant
            k <= file_names@.len(),
            outcomes@.len() == file_names@.len(),
            sep@ == "; "@,
            colon@ == ": "@,
            deleted == removed_count(outcomes@, k as int),
            failures == failure_lines(file_names@, outcomes@, k as int).len(),
            failures <= k,
            errors@ == join(failure_lines(file_names@, outcomes@, k as int), "; "@),
        decreases file_names.len() - k,
    {
        proof {
            lemma_removed_count_bound(outcomes@, k as int);
        }
        match &outcomes[k] {
            Ok(()) => {
                deleted = deleted + 1;
            },
            Err(e) => {
                let ghost lines = failure_lines(file_names@, outcomes@, k as int);
                let ghost line = file_names@[k as int]@ + ": "@ + e@;
                proof {
                    lemma_join_push(lines, "; "@, line);
                }
                if failures > 0 {
                    append_chars(&mut errors, &sep);
                }
                let name = chars_of(file_names[k].as_str());
                append_chars(&mut errors, &name);
                append_chars(&mut errors, &colon);
                let msg = chars_of(e.as_str());
                append_chars(&mut errors, &msg);
                failures = failures + 1;
                proof {
                    assert(errors@ =~= join(lines.push(line), "; "@));
                }
            },
        }
        k = k + 1;
    }
    if deleted == 0 {
        return Err(string_from_chars(errors.as_slice()));
    }
    Ok(deleted)
}

// ---------------------------------------------------------------------------
// Names the store writes are names it accepts
// ---------------------------------------------------------------------------
/// A character of a file name's stem: an ASCII letter or digit, '-' or '_'.
pub open spec fn stem_char(c: char) -> bool {
    ('0' <= c && c <= '9') || ('a' <= c && c <= 'z') || ('A' <= c && c <= 'Z') || c == '-' || c == '_'
}

proof fn lemma_decimal_stem(n: nat)
    ensures
        forall|i: int| 0 <= i < decimal(n).len() ==> stem_char(#[trigger] decimal(n)[i]),
    decreases n,
{
    assert(forall|d: nat| #[trigger] crate::text::digit_char(d) == crate::text::digit_char(d) ==> stem_char(
        crate::text::digit_char(d),
    ));
    if n >= 10 {
        lemma_decimal_stem(n / 10);
        let p = decimal(n / 10);
        assert(decimal(n) == p.push(crate::text::digit_char(n % 10)));
        assert forall|i: int| 0 <= i < decimal(n).len() implies stem_char(#[trigger] decimal(n)[i]) by {
            if i < p.len() {
                assert(decimal(n)[i] == p[i]);
            } else {
                assert(decimal(n)[i] == crate::text::digit_char(n % 10));
            }
        }
    } else {
        assert(decimal(n) == seq![crate::text::digit_char(n)]);
        assert(stem_char(decimal(n)[0]));
    }
}

/// Every snapshot file name the library makes is one it accepts: whatever the
/// capture time and suffix, `check_snapshot_name` takes `snapshot_file_name`.
pub proof fn lemma_snapshot_names_accepted(captured_at: Seq<char>, suffix: nat, windows: bool)
    ensures
        snapshot_name_ok(snapshot_file_name_spec(captured_at, suffix), windows),
{
    reveal_strlit("snapshot-");
    reveal_strlit(".json");
    reveal_strlit("-");
    reveal_strlit("..");
    reveal_strlit("/");
    reveal_strlit("\\");
    assert(".."@ =~= seq!['.', '.']);
    assert("/"@ =~= seq!['/']);
    assert("\\"@ =~= seq!['\\']);
    let stem = "snapshot-"@ + sanitized(captured_at);
    let head = if suffix == 0 {
        stem
    } else {
        stem + "-"@ + decimal(suffix)
    };
    let name = snapshot_file_name_spec(captured_at, suffix);
    assert(name =~= head + ".json"@);
    lemma_decimal_stem(suffix);
    assert forall|i: int| 0 <= i < head.len() implies stem_char(#[trigger] head[i]) by {
        if i < 9 {
            assert(head[i] == "snapshot-"@[i]);
        } else if i < stem.len() {
            assert(head[i] == stamp_char(captured_at[i - 9]));
        } else if i == stem.len() {
            assert(head[i] == '-');
        } else {
            assert(head[i] == decimal(suffix)[i - stem.len() - 1]);
        }
    }
    let n = head.len() as int;
    assert(name.len() == n + 5);
    assert(name.subrange(n, n + 5) =~= ".json"@);
    assert(ends_with(name, ".json"@));
    assert forall|i: int| 0 <= i < name.len() && i != n implies #[trigger] name[i] != '.' && name[i] != '/' && name[i]
        != '\\' by {
        if i < n {
            assert(name[i] == head[i]);
            assert(stem_char(head[i]));
        }
    }
    assert(!contains(name, ".."@)) by {
        if contains(name, ".."@) {
            let i = choose|i: int| occurs_at(name, ".."@, i);
            assert(name.subrange(i, i + 2) == ".."@);
            assert(name[i] == '.' && name[i + 1] == '.');
            assert(name[n + 1] == 'j');
        }
    }
    assert(!contains(name, "/"@)) by {
        if contains(name, "/"@) {
            let i = choose|i: int| occurs_at(name, "/"@, i);
            assert(name.subrange(i, i + 1) == seq!['/']);
            assert(name.subrange(i, i + 1)[0] == name[i]);
            assert(name[i] == '/');
        }
    }
    assert(!contains(name, "\\"@)) by {
        if contains(name, "\\"@) {
            let i = choose|i: int| occurs_at(name, "\\"@, i);
            assert(name.subrange(i, i + 1) == seq!['\\']);
            assert(name.subrange(i, i + 1)[0] == name[i]);
            assert(name[i] == '\\');
        }
    }
}

} // verus!
