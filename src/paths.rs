//! Platform path handling: the operating system, conversion between the
//! network share form of a path and a mapped drive letter, and where the
//! database file lives.

use vstd::prelude::*;
use crate::text::{chars_of, string_of, chars_eq, append_chars};
use crate::config::{DatabaseConfig, PathsConfig};

verus! {

#[derive(PartialEq, Eq, Debug, Clone, Copy)]
pub enum OsType {
    Windows,
    MacOS,
    Linux,
    Unknown,
}

/// The operating system named by `os_name`, spelled as Rust names target
/// systems (`std::env::consts::OS`).
pub fn get_os_type(os_name: &str) -> (r: OsType)
    ensures
        os_name@ == "windows"@ ==> r == OsType::Windows,
        os_name@ == "macos"@ ==> r == OsType::MacOS,
        os_name@ == "linux"@ ==> r == OsType::Linux,
        os_name@ != "windows"@ && os_name@ != "macos"@ && os_name@ != "linux"@ ==> r == OsType::Unknown,
{
    let n = chars_of(os_name);
    let w = chars_of("windows");
    let m = chars_of("macos");
    let l = chars_of("linux");
    proof {
        reveal_strlit("windows");
        reveal_strlit("macos");
        reveal_strlit("linux");
        assert("windows"@ != "macos"@) by {
            assert("windows"@[0] != "macos"@[0]);
        }
        assert("windows"@ != "linux"@) by {
            assert("windows"@[0] != "linux"@[0]);
        }
        assert("macos"@ != "linux"@) by {
            assert("macos"@[0] != "linux"@[0]);
        }
    }
    if chars_eq(&n, &w) {
        OsType::Windows
    } else if chars_eq(&n, &m) {
        OsType::MacOS
    } else if chars_eq(&n, &l) {
        OsType::Linux
    } else {
        OsType::Unknown
    }
}

pub open spec fn starts_with(s: Seq<char>, p: Seq<char>) -> bool {
    p.len() <= s.len() && s.subrange(0, p.len() as int) == p
}

/// `s` with every `from` replaced by `to`.
pub open spec fn replace_char(s: Seq<char>, from: char, to: char) -> Seq<char> {
    Seq::new(s.len(), |i: int| if s[i] == from { to } else { s[i] })
}

/// A path in the form the operating system expects: on Windows a path under
/// the network base gets the mapped drive instead, and backslashes; on macOS
/// and Linux a path on the mapped drive gets the network base instead, and
/// forward slashes; on another system the path is kept.
pub open spec fn normalized(path: Seq<char>, os: OsType, base: Seq<char>, drive: Seq<char>) -> Seq<char> {
    match os {
        OsType::Windows => if starts_with(path, base) {
            drive + replace_char(path.subrange(base.len() as int, path.len() as int), '/', '\\')
        } else {
            replace_char(path, '/', '\\')
        },
        OsType::MacOS | OsType::Linux => if starts_with(path, drive) {
            base + replace_char(path.subrange(drive.len() as int, path.len() as int), '\\', '/')
        } else {
            replace_char(path, '\\', '/')
        },
        OsType::Unknown => path,
    }
}

fn starts_with_exec(s: &Vec<char>, p: &Vec<char>) -> (r: bool)
    ensures
        r == starts_with(s@, p@),
{
    if p.len() > s.len() {
        return false;
    }
    let mut i: usize = 0;
    while i < p.len()
        invariant
            p@.len() <= s@.len(),
            i <= p@.len(),
            forall|q: int| 0 <= q < i ==> s@[q] == p@[q],
        decreases p.len() - i,
    {
        if s[i] != p[i] {
            assert(s@.subrange(0, p@.len() as int)[i as int] != p@[i as int]);
            return false;
        }
        i += 1;
    }
    assert(s@.subrange(0, p@.len() as int) =~= p@);
    true
}

/// Appends `s[from..]` to `out`, with `a` replaced by `b`.
fn push_replaced(out: &mut Vec<char>, s: &Vec<char>, from: usize, a: char, b: char)
    requires
        from <= s@.len(),
    ensures
        final(out)@ == old(out)@ + replace_char(s@.subrange(from as int, s@.len() as int), a, b),
{
    let mut i: usize = from;
    while i < s.len()
        invariant
            from <= i <= s@.len(),
            out@ == old(out)@ + replace_char(s@.subrange(from as int, i as int), a, b),
        decreases s.len() - i,
    {
        let c = s[i];
        out.push(if c == a { b } else { c });
        i += 1;
        assert(out@ =~= old(out)@ + replace_char(s@.subrange(from as int, i as int), a, b));
    }
}

/// The path in the form the operating system expects (see `normalized`).
pub fn normalize_path(path: &str, os: OsType, cfg: &PathsConfig) -> (r: String)
    ensures
        r@ == normalized(path@, os, cfg.network_base@, cfg.windows_mapped_drive@),
{
    let p = chars_of(path);
    let base = chars_of(cfg.network_base.as_str());
    let drive = chars_of(cfg.windows_mapped_drive.as_str());
    let mut out: Vec<char> = Vec::new();
    match os {
        OsType::Windows => {
            if starts_with_exec(&p, &base) {
                append_chars(&mut out, &drive);
                push_replaced(&mut out, &p, base.len(), '/', '\\');
            } else {
                push_replaced(&mut out, &p, 0, '/', '\\');
                assert(p@.subrange(0, p@.len() as int) =~= p@);
            }
        },
        OsType::MacOS | OsType::Linux => {
            if starts_with_exec(&p, &drive) {
                append_chars(&mut out, &base);
                push_replaced(&mut out, &p, drive.len(), '\\', '/');
            } else {
                push_replaced(&mut out, &p, 0, '\\', '/');
                assert(p@.subrange(0, p@.len() as int) =~= p@);
            }
        },
        OsType::Unknown => {
            append_chars(&mut out, &p);
        },
    }
    assert(out@ =~= normalized(path@, os, cfg.network_base@, cfg.windows_mapped_drive@));
    string_of(&out)
}

/// `s` without its leading `//` pairs, as `trim_start_matches("//")` leaves it.
pub open spec fn trim_slash_pairs(s: Seq<char>) -> Seq<char>
    decreases s.len(),
{
    if s.len() >= 2 && s[0] == '/' && s[1] == '/' {
        trim_slash_pairs(s.subrange(2, s.len() as int))
    } else {
        s
    }
}

/// The first position at or after `i` holding `/`, or the length of `s`.
pub open spec fn next_slash(s: Seq<char>, i: int) -> int
    decreases s.len() - i,
{
    if i < 0 || i >= s.len() {
        s.len() as int
    } else if s[i] == '/' {
        i
    } else {
        next_slash(s, i + 1)
    }
}

pub open spec fn db_file_suffix() -> Seq<char> {
    seq!['/', 'v', 'f', 'x', '_', 'l', 'a', 'u', 'n', 'c', 'h', 'e', 'r', '.', 'd', 'b']
}

pub open spec fn volumes_prefix() -> Seq<char> {
    seq!['/', 'V', 'o', 'l', 'u', 'm', 'e', 's', '/']
}

/// Where the shared database file is: `<network_path>/vfx_launcher.db`; on
/// macOS a share path `//server/share/rest` becomes the mounted volume
/// `/Volumes/share/rest`.
pub open spec fn network_db_path(os: OsType, network_path: Seq<char>) -> Seq<char> {
    let db = network_path + db_file_suffix();
    let s = trim_slash_pairs(db);
    let k1 = next_slash(s, 0);
    if os == OsType::MacOS && starts_with(db, seq!['/', '/']) && k1 < s.len() {
        let k2 = next_slash(s, k1 + 1);
        let share = s.subrange(k1 + 1, k2);
        let rest = if k2 < s.len() { s.subrange(k2 + 1, s.len() as int) } else { Seq::empty() };
        volumes_prefix() + share + seq!['/'] + rest
    } else {
        db
    }
}

fn next_slash_exec(s: &Vec<char>, i: usize) -> (r: usize)
    requires
        i <= s@.len(),
    ensures
        r as int == next_slash(s@, i as int),
        i <= r <= s@.len(),
{
    let mut j: usize = i;
    while j < s.len() && s[j] != '/'
        invariant
            i <= j <= s@.len(),
            next_slash(s@, i as int) == next_slash(s@, j as int),
        decreases s.len() - j,
    {
        j += 1;
    }
    j
}

fn copy_range(out: &mut Vec<char>, s: &Vec<char>, from: usize, to: usize)
    requires
        from <= to <= s@.len(),
    ensures
        final(out)@ == old(out)@ + s@.subrange(from as int, to as int),
{
    let mut i: usize = from;
    while i < to
        invariant
            from <= i <= to <= s@.len(),
            out@ == old(out)@ + s@.subrange(from as int, i as int),
        decreases to - i,
    {
        out.push(s[i]);
        i += 1;
        assert(out@ =~= old(out)@ + s@.subrange(from as int, i as int));
    }
}

/// The path of the shared database file (see `network_db_path`).
pub fn get_network_database_path(os: OsType, cfg: &DatabaseConfig) -> (r: String)
    ensures
        r@ == network_db_path(os, cfg.network_path@),
{
    let mut db = chars_of(cfg.network_path.as_str());
    let suffix = vec!['/', 'v', 'f', 'x', '_', 'l', 'a', 'u', 'n', 'c', 'h', 'e', 'r', '.', 'd', 'b'];
    append_chars(&mut db, &suffix);
    let is_share = db.len() >= 2 && db[0] == '/' && db[1] == '/';
    proof {
        if is_share {
            assert(db@.subrange(0, 2) =~= seq!['/', '/']);
        }
        if starts_with(db@, seq!['/', '/']) {
            assert(db@.subrange(0, 2)[0] == '/' && db@.subrange(0, 2)[1] == '/');
        }
    }
    let is_mac = match os {
        OsType::MacOS => true,
        _ => false,
    };
    if !(is_mac && is_share) {
        return string_of(&db);
    }
    let mut start: usize = 0;
    assert(db@.subrange(0, db@.len() as int) =~= db@);
    while db.len() - start >= 2 && db[start] == '/' && db[start + 1] == '/'
        invariant
            start <= db@.len(),
            trim_slash_pairs(db@) == trim_slash_pairs(db@.subrange(start as int, db@.len() as int)),
        decreases db.len() - start,
    {
        let ghost t = db@.subrange(start as int, db@.len() as int);
        assert(t.subrange(2, t.len() as int) =~= db@.subrange(start + 2, db@.len() as int));
        start += 2;
    }
    let mut s: Vec<char> = Vec::new();
    copy_range(&mut s, &db, start, db.len());
    assert(s@ =~= db@.subrange(start as int, db@.len() as int));
    proof {
        let t = s@;
        if t.len() >= 2 && t[0] == '/' && t[1] == '/' {
            assert(false);
        }
    }
    let k1 = next_slash_exec(&s, 0);
    if k1 >= s.len() {
        return string_of(&db);
    }
    let k2 = next_slash_exec(&s, k1 + 1);
    let mut out: Vec<char> = vec!['/', 'V', 'o', 'l', 'u', 'm', 'e', 's', '/'];
    copy_range(&mut out, &s, k1 + 1, k2);
    out.push('/');
    if k2 < s.len() {
        copy_range(&mut out, &s, k2 + 1, s.len());
    }
    assert(out@ =~= network_db_path(os, cfg.network_path@));
    string_of(&out)
}

/// The database file for a deployment mode: `local` uses the local file,
/// any other mode the shared one.
pub fn get_database_path(mode: &str, local_path: &str, network_path: &str) -> (r: String)
    ensures
        mode@ == "local"@ ==> r@ == local_path@,
        mode@ != "local"@ ==> r@ == network_path@,
{
    let m = chars_of(mode);
    let local = chars_of("local");
    if chars_eq(&m, &local) {
        string_of(&chars_of(local_path))
    } else {
        string_of(&chars_of(network_path))
    }
}

} // verus!
