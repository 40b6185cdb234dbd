//! Shot inference: recovering the identifier of the shot a file belongs to
//! from the folder path it sits in.

use vstd::prelude::*;
use crate::text::{is_ascii_digit, is_ascii_upper, lower_of, chars_of, string_of, lower_equals};

verus! {

pub open spec fn is_separator(c: char) -> bool {
    c == '/' || c == '\\'
}

/// Segments of `p` from position `i` on, where `cur` is the segment being read.
pub open spec fn segments_from(p: Seq<char>, i: int, cur: Seq<char>) -> Seq<Seq<char>>
    decreases p.len() - i,
{
    if i >= p.len() {
        seq![cur]
    } else if is_separator(p[i]) {
        seq![cur] + segments_from(p, i + 1, Seq::empty())
    } else {
        segments_from(p, i + 1, cur.push(p[i]))
    }
}

/// The path segments of `p`, split at `/` and `\`.
pub open spec fn segments(p: Seq<char>) -> Seq<Seq<char>> {
    segments_from(p, 0, Seq::empty())
}

pub open spec fn is_shot_segment(seg: Seq<char>) -> bool {
    lower_of(seg) == seq!['s', 'h', 'o', 't'] || lower_of(seg) == seq!['s', 'h', 'o', 't', 's']
}

/// The first non-empty segment that follows a `shot` or `shots` segment
/// (compared case-insensitively), looking from segment `j` on.
pub open spec fn segment_after_shot(segs: Seq<Seq<char>>, j: int) -> Option<Seq<char>>
    decreases segs.len() - j,
{
    if j < 0 || j + 1 >= segs.len() {
        None
    } else if is_shot_segment(segs[j]) && segs[j + 1].len() > 0 {
        Some(segs[j + 1])
    } else {
        segment_after_shot(segs, j + 1)
    }
}

pub open spec fn is_upper_or_digit(c: char) -> bool {
    is_ascii_upper(c) || is_ascii_digit(c)
}

/// First position at or after `i` that does not hold an uppercase letter or digit.
pub open spec fn run_end(s: Seq<char>, i: int) -> int
    decreases s.len() - i,
{
    if i < 0 || i >= s.len() || !is_upper_or_digit(s[i]) {
        i
    } else {
        run_end(s, i + 1)
    }
}

/// Number of consecutive digits from position `i`.
pub open spec fn digits_from(s: Seq<char>, i: int) -> int
    decreases s.len() - i,
{
    if i < 0 || i >= s.len() || !is_ascii_digit(s[i]) {
        0
    } else {
        1 + digits_from(s, i + 1)
    }
}

/// End of a shot code starting at `i`: two or more uppercase letters, then
/// uppercase letters or digits, an underscore, and three or four digits
/// (four where there are four).
pub open spec fn code_end_at(s: Seq<char>, i: int) -> Option<int> {
    let j = run_end(s, i);
    if 0 <= i && i + 2 <= j && is_ascii_upper(s[i]) && is_ascii_upper(s[i + 1]) && j < s.len()
        && s[j] == '_' && digits_from(s, j + 1) >= 3 {
        Some(j + 1 + if digits_from(s, j + 1) >= 4 { 4int } else { 3int })
    } else {
        None
    }
}

/// The leftmost shot code in `s` at or after position `i`.
pub open spec fn first_code(s: Seq<char>, i: int) -> Option<Seq<char>>
    decreases s.len() - i,
{
    if i < 0 || i >= s.len() {
        None
    } else {
        match code_end_at(s, i) {
            Some(e) => Some(s.subrange(i, e)),
            None => first_code(s, i + 1),
        }
    }
}

/// The shot a folder path names: the segment after a `shot`/`shots`
/// segment, else the leftmost code such as `BALA_0010`, else none.
pub open spec fn shot_name_of(folder: Seq<char>) -> Option<Seq<char>> {
    match segment_after_shot(segments(folder), 0) {
        Some(s) => Some(s),
        None => first_code(folder, 0),
    }
}

pub open spec fn opt_view(o: Option<String>) -> Option<Seq<char>> {
    match o {
        Some(s) => Some(s@),
        None => None,
    }
}

fn split_segments(p: &Vec<char>) -> (r: Vec<Vec<char>>)
    ensures
        r@.map_values(|v: Vec<char>| v@) == segments(p@),
{
    let mut acc: Vec<Vec<char>> = Vec::new();
    let mut cur: Vec<char> = Vec::new();
    let mut i: usize = 0;
    while i < p.len()
        invariant
            i <= p.len(),
            acc@.map_values(|v: Vec<char>| v@) + segments_from(p@, i as int, cur@) == segments(p@),
        decreases p.len() - i,
    {
        let ghost old_acc = acc@.map_values(|v: Vec<char>| v@);
        let ghost old_cur = cur@;
        if p[i] == '/' || p[i] == '\\' {
            let done = cur;
            acc.push(done);
            cur = Vec::new();
            proof {
                assert(acc@.map_values(|v: Vec<char>| v@) =~= old_acc + seq![old_cur]);
                assert(segments_from(p@, i as int, old_cur)
                    == seq![old_cur] + segments_from(p@, i + 1, Seq::empty()));
                assert(cur@ =~= Seq::<char>::empty());
                assert(old_acc + seq![old_cur] + segments_from(p@, i + 1, Seq::empty())
                    =~= old_acc + (seq![old_cur] + segments_from(p@, i + 1, Seq::empty())));
            }
        } else {
            cur.push(p[i]);
            proof {
                assert(cur@ == old_cur.push(p@[i as int]));
            }
        }
        i += 1;
    }
    let ghost old_acc = acc@.map_values(|v: Vec<char>| v@);
    let ghost last = cur@;
    acc.push(cur);
    proof {
        assert(acc@.map_values(|v: Vec<char>| v@) =~= old_acc + seq![last]);
    }
    acc
}

fn is_shot_word(seg: &Vec<char>) -> (r: bool)
    ensures
        r == is_shot_segment(seg@),
{
    let s = string_of(seg);
    proof {
        reveal_strlit("shot");
        reveal_strlit("shots");
        assert("shot"@ =~= seq!['s', 'h', 'o', 't']);
        assert("shots"@ =~= seq!['s', 'h', 'o', 't', 's']);
    }
    lower_equals(s.as_str(), "shot") || lower_equals(s.as_str(), "shots")
}

fn find_after_shot(segs: &Vec<Vec<char>>) -> (r: Option<String>)
    ensures
        opt_view(r) == segment_after_shot(segs@.map_values(|v: Vec<char>| v@), 0),
{
    let ghost sv = segs@.map_values(|v: Vec<char>| v@);
    let mut j: usize = 0;
    while j < segs.len()
        invariant
            sv == segs@.map_values(|v: Vec<char>| v@),
            j <= segs.len(),
            segment_after_shot(sv, 0) == segment_after_shot(sv, j as int),
        decreases segs.len() - j,
    {
        if j + 1 < segs.len() && is_shot_word(&segs[j]) && segs[j + 1].len() > 0 {
            return Some(string_of(&segs[j + 1]));
        }
        j += 1;
    }
    None
}

fn is_upper(c: char) -> (r: bool)
    ensures
        r == is_ascii_upper(c),
{
    'A' <= c && c <= 'Z'
}

fn is_digit_char(c: char) -> (r: bool)
    ensures
        r == is_ascii_digit(c),
{
    '0' <= c && c <= '9'
}

fn run_end_exec(s: &Vec<char>, i: usize) -> (r: usize)
    requires
        i <= s@.len(),
    ensures
        r as int == run_end(s@, i as int),
        i <= r <= s@.len(),
{
    let mut j: usize = i;
    while j < s.len() && (is_upper(s[j]) || is_digit_char(s[j]))
        invariant
            i <= j <= s@.len(),
            run_end(s@, i as int) == run_end(s@, j as int),
        decreases s.len() - j,
    {
        j += 1;
    }
    j
}

fn digits_from_exec(s: &Vec<char>, i: usize) -> (r: usize)
    requires
        i <= s@.len(),
    ensures
        r as int == digits_from(s@, i as int),
        i + r <= s@.len(),
{
    let mut j: usize = i;
    while j < s.len() && is_digit_char(s[j])
        invariant
            i <= j <= s@.len(),
            digits_from(s@, i as int) == (j - i) + digits_from(s@, j as int),
        decreases s.len() - j,
    {
        j += 1;
    }
    j - i
}

fn code_end_exec(s: &Vec<char>, i: usize) -> (r: Option<usize>)
    requires
        i < s@.len(),
    ensures
        r is None <==> code_end_at(s@, i as int) is None,
        r is Some ==> code_end_at(s@, i as int) == Some(r.unwrap() as int) && r.unwrap() <= s@.len(),
{
    let j = run_end_exec(s, i);
    if j - i >= 2 && is_upper(s[i]) && is_upper(s[i + 1]) && j < s.len() && s[j] == '_' {
        let d = digits_from_exec(s, j + 1);
        if d >= 4 {
            Some(j + 5)
        } else if d == 3 {
            Some(j + 4)
        } else {
            None
        }
    } else {
        None
    }
}

fn first_code_exec(s: &Vec<char>) -> (r: Option<String>)
    ensures
        opt_view(r) == first_code(s@, 0),
{
    let mut i: usize = 0;
    while i < s.len()
        invariant
            i <= s@.len(),
            first_code(s@, 0) == first_code(s@, i as int),
        decreases s.len() - i,
    {
        match code_end_exec(s, i) {
            Some(e) => {
                let mut out: Vec<char> = Vec::new();
                let mut k: usize = i;
                while k < e
                    invariant
                        i <= k <= e <= s@.len(),
                        out@ == s@.subrange(i as int, k as int),
                    decreases e - k,
                {
                    out.push(s[k]);
                    k += 1;
                    assert(out@ =~= s@.subrange(i as int, k as int));
                }
                return Some(string_of(&out));
            },
            None => {},
        }
        i += 1;
    }
    None
}

/// The shot name of a folder path (see `shot_name_of`).
pub fn extract_shot_name(folder_path: &str) -> (r: Option<String>)
    ensures
        opt_view(r) == shot_name_of(folder_path@),
{
    let cs = chars_of(folder_path);
    let segs = split_segments(&cs);
    match find_after_shot(&segs) {
        Some(s) => Some(s),
        None => first_code_exec(&cs),
    }
}

} // verus!
