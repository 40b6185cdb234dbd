//! File-name parsing: splitting a name into stem and extension, and pulling a
//! trailing `v<digits>` version token off a stem.
//!
//! Versions are kept as written: `shot_v007` has version `"007"`, so that
//! zero padding survives into the records. A stem without a token has version
//! `"1"`.

use vstd::prelude::*;
use crate::text::{is_ascii_digit, chars_of, string_of};

verus! {

/// Index of the last `c` in `s`, or -1.
pub open spec fn last_index_of(s: Seq<char>, c: char) -> int
    decreases s.len(),
{
    if s.len() == 0 {
        -1
    } else if s.last() == c {
        s.len() - 1
    } else {
        last_index_of(s.drop_last(), c)
    }
}

/// Stem and extension of a file name, as `Path::file_stem` and
/// `Path::extension` give them: the extension follows the last dot, unless
/// that dot starts the name or the name is `..`.
pub open spec fn name_parts(name: Seq<char>) -> (Seq<char>, Option<Seq<char>>) {
    let d = last_index_of(name, '.');
    if d <= 0 || name == seq!['.', '.'] {
        (name, None)
    } else {
        (name.subrange(0, d), Some(name.subrange(d + 1, name.len() as int)))
    }
}

/// `p` is the position of a `v` followed by one or more digits up to the end.
pub open spec fn is_version_mark(stem: Seq<char>, p: int) -> bool {
    &&& 0 <= p < stem.len() - 1
    &&& stem[p] == 'v'
    &&& forall|j: int| p < j < stem.len() ==> is_ascii_digit(#[trigger] stem[j])
}

pub open spec fn strip_one_underscore(s: Seq<char>) -> Seq<char> {
    if s.len() > 0 && s.last() == '_' {
        s.drop_last()
    } else {
        s
    }
}

/// The normalized stem and the version of a stem: the trailing `v<digits>`
/// token is removed (its digits are the version); without a token the
/// version is `"1"`. Either way one trailing underscore is then dropped from
/// the stem.
pub open spec fn version_parts(stem: Seq<char>) -> (Seq<char>, Seq<char>) {
    if exists|p: int| is_version_mark(stem, p) {
        let p = choose|p: int| is_version_mark(stem, p);
        (strip_one_underscore(stem.subrange(0, p)), stem.subrange(p + 1, stem.len() as int))
    } else {
        (strip_one_underscore(stem), seq!['1'])
    }
}

proof fn lemma_version_mark_unique(stem: Seq<char>, p: int, q: int)
    requires
        is_version_mark(stem, p),
        is_version_mark(stem, q),
    ensures
        p == q,
{
    if p < q {
        assert(is_ascii_digit(stem[q]));
    } else if q < p {
        assert(is_ascii_digit(stem[p]));
    }
}

fn last_dot(s: &Vec<char>) -> (r: Option<usize>)
    ensures
        r is None ==> last_index_of(s@, '.') == -1,
        r is Some ==> r.unwrap() as int == last_index_of(s@, '.') && r.unwrap() < s@.len(),
{
    let mut k: usize = s.len();
    assert(s@.subrange(0, k as int) == s@);
    while k > 0
        invariant
            k <= s.len(),
            last_index_of(s@, '.') == last_index_of(s@.subrange(0, k as int), '.'),
        decreases k,
    {
        let ghost pre = s@.subrange(0, k as int);
        assert(pre.drop_last() == s@.subrange(0, k - 1));
        if s[k - 1] == '.' {
            return Some(k - 1);
        }
        k -= 1;
    }
    None
}

/// Stem and extension of a file name.
pub fn split_file_name(name: &str) -> (r: (String, Option<String>))
    ensures
        r.0@ == name_parts(name@).0,
        r.1 is Some <==> name_parts(name@).1 is Some,
        r.1 is Some ==> r.1.unwrap()@ == name_parts(name@).1.unwrap(),
{
    let cs = chars_of(name);
    let d = last_dot(&cs);
    let is_dotdot = cs.len() == 2 && cs[0] == '.' && cs[1] == '.';
    proof {
        if is_dotdot {
            assert(cs@ =~= seq!['.', '.']);
        }
        if cs@ == seq!['.', '.'] {
            assert(is_dotdot);
        }
    }
    if d.is_none() || d.unwrap() == 0 || is_dotdot {
        (string_of(&cs), None)
    } else {
        let du = d.unwrap();
        let mut stem: Vec<char> = Vec::new();
        let mut i: usize = 0;
        while i < du
            invariant
                0 <= i <= du < cs.len(),
                stem@ == cs@.subrange(0, i as int),
            decreases du - i,
        {
            stem.push(cs[i]);
            i += 1;
        }
        let mut ext: Vec<char> = Vec::new();
        let mut j: usize = du + 1;
        while j < cs.len()
            invariant
                du + 1 <= j <= cs.len(),
                ext@ == cs@.subrange(du + 1, j as int),
            decreases cs.len() - j,
        {
            ext.push(cs[j]);
            j += 1;
        }
        (string_of(&stem), Some(string_of(&ext)))
    }
}


/// The normalized stem and version of a stem (see `version_parts`).
pub fn parse_version(stem: &str) -> (r: (String, String))
    ensures
        (r.0@, r.1@) == version_parts(stem@),
{
    let cs = chars_of(stem);
    let n = cs.len();
    let mut k: usize = 0;
    while k < n && is_digit(cs[n - 1 - k])
        invariant
            k <= n == cs@.len(),
            forall|j: int| n - k <= j < n ==> is_ascii_digit(#[trigger] cs@[j]),
        decreases n - k,
    {
        k += 1;
    }
    let found = k > 0 && k < n && cs[n - 1 - k] == 'v';
    let base_end: usize = if found { n - 1 - k } else { n };
    proof {
        if found {
            let p = n - 1 - k;
            assert(is_version_mark(cs@, p));
            let q = choose|q: int| is_version_mark(cs@, q);
            lemma_version_mark_unique(cs@, p, q);
        } else {
            assert forall|p: int| !is_version_mark(cs@, p) by {
                if is_version_mark(cs@, p) {
                    let e = n - 1 - k;
                    if p < e {
                        assert(is_ascii_digit(cs@[e]));
                    } else if p > e {
                        assert(is_ascii_digit(cs@[p]));
                    }
                }
            }
        }
    }
    let mut base: Vec<char> = Vec::new();
    let mut i: usize = 0;
    while i < base_end
        invariant
            base_end <= n == cs@.len(),
            i <= base_end,
            base@ == cs@.subrange(0, i as int),
        decreases base_end - i,
    {
        base.push(cs[i]);
        i += 1;
    }
    if base.len() > 0 && base[base.len() - 1] == '_' {
        base.pop();
    }
    let mut ver: Vec<char> = Vec::new();
    if found {
        let start: usize = n - k;
        let mut j: usize = start;
        while j < n
            invariant
                start <= j <= n == cs@.len(),
                ver@ == cs@.subrange(start as int, j as int),
            decreases n - j,
        {
            ver.push(cs[j]);
            j += 1;
            assert(ver@ =~= cs@.subrange(start as int, j as int));
        }
    } else {
        ver.push('1');
    }
    proof {
        if !found {
            assert(cs@.subrange(0, n as int) == cs@);
            assert(ver@ == seq!['1']);
        }
    }
    (string_of(&base), string_of(&ver))
}

fn is_digit(c: char) -> (r: bool)
    ensures
        r == is_ascii_digit(c),
{
    '0' <= c && c <= '9'
}

} // verus!
