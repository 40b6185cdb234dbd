//! Include patterns. A pattern is a glob over a bare file name: `*` matches
//! any run of characters (none included) and every other character matches
//! itself; the pattern must match the whole name. Each glob is rewritten as
//! an anchored regular expression and compiled by the `regex` crate; a
//! pattern that does not compile is left out. Unless the user's patterns
//! mention them, globs for the two primary tool extensions (`*.nk` for the
//! compositing tool, `*.aep` for the animation tool) are added.
//!
//! A pattern written as a regular expression is still read as a glob: `\.nk$`
//! matches only a name spelled exactly so, and since it mentions `.nk` it
//! also keeps the built-in `*.nk` out.

use vstd::prelude::*;
use crate::text::{chars_of, string_of, append_chars};

verus! {

/// Whether `regex::Regex::new` accepts a pattern: this depends on the pattern alone.
pub uninterp spec fn regex_compiles(src: Seq<char>) -> bool;

/// What `regex::Regex::is_match` answers for a compiled pattern and a text.
pub uninterp spec fn regex_accepts(src: Seq<char>, text: Seq<char>) -> bool;

/// The characters that `regex::escape` prefixes with a backslash.
pub open spec fn is_regex_meta(c: char) -> bool {
    c == '\\' || c == '.' || c == '+' || c == '*' || c == '?' || c == '(' || c == ')' || c == '|'
        || c == '[' || c == ']' || c == '{' || c == '}' || c == '^' || c == '$' || c == '#'
        || c == '&' || c == '-' || c == '~'
}

/// The text `regex::escape` returns: each meta character gets a backslash.
pub open spec fn escaped(s: Seq<char>) -> Seq<char>
    decreases s.len(),
{
    if s.len() == 0 {
        Seq::empty()
    } else {
        escaped(s.drop_last()) + if is_regex_meta(s.last()) {
            seq!['\\', s.last()]
        } else {
            seq![s.last()]
        }
    }
}

/// Relies on `regex::escape`: a literal text made safe to embed in a pattern.
#[verifier::external_body]
fn regex_escape(s: &str) -> (r: String)
    ensures
        r@ == escaped(s@),
{
    regex::escape(s)
}

/// Relies on `regex::Regex::new`: whether the pattern compiles.
#[verifier::external_body]
fn regex_valid(src: &str) -> (r: bool)
    ensures
        r == regex_compiles(src@),
{
    regex::Regex::new(src).is_ok()
}

/// Relies on `regex::Regex::is_match` on the pattern compiled by `regex::Regex::new`.
#[verifier::external_body]
fn regex_is_match(src: &str, text: &str) -> (r: bool)
    requires
        regex_compiles(src@),
    ensures
        r == regex_accepts(src@, text@),
{
    match regex::Regex::new(src) {
        Ok(re) => re.is_match(text),
        Err(_) => false,
    }
}

/// The regular-expression text for the glob characters `g`, unanchored.
pub open spec fn glob_body(g: Seq<char>) -> Seq<char>
    decreases g.len(),
{
    if g.len() == 0 {
        Seq::empty()
    } else {
        glob_body(g.drop_last()) + if g.last() == '*' {
            seq!['.', '*']
        } else {
            escaped(seq![g.last()])
        }
    }
}

/// The anchored regular expression of a glob; `(?s)` lets `.` match any character.
pub open spec fn glob_regex(g: Seq<char>) -> Seq<char> {
    seq!['(', '?', 's', ')', '^'] + glob_body(g) + seq!['$']
}

/// The anchored regular expression of a glob.
pub fn glob_to_regex(glob: &str) -> (r: String)
    ensures
        r@ == glob_regex(glob@),
{
    let g = chars_of(glob);
    let mut out: Vec<char> = vec!['(', '?', 's', ')', '^'];
    let mut i: usize = 0;
    while i < g.len()
        invariant
            i <= g@.len(),
            out@ == seq!['(', '?', 's', ')', '^'] + glob_body(g@.subrange(0, i as int)),
        decreases g.len() - i,
    {
        let ghost before = out@;
        let c = g[i];
        if c == '*' {
            out.push('.');
            out.push('*');
        } else {
            let one = vec![c];
            assert(one@ =~= seq![c]);
            let lit = string_of(&one);
            let esc = regex_escape(lit.as_str());
            let esc_chars = chars_of(esc.as_str());
            append_chars(&mut out, &esc_chars);
        }
        proof {
            let pre = g@.subrange(0, i as int);
            let next = g@.subrange(0, i + 1);
            assert(next.drop_last() =~= pre);
            assert(next.last() == c);
            assert(out@ =~= seq!['(', '?', 's', ')', '^'] + glob_body(next));
        }
        i += 1;
    }
    out.push('$');
    proof {
        assert(g@.subrange(0, g@.len() as int) =~= g@);
    }
    string_of(&out)
}

pub open spec fn glob_nk() -> Seq<char> {
    seq!['*', '.', 'n', 'k']
}

pub open spec fn glob_aep() -> Seq<char> {
    seq!['*', '.', 'a', 'e', 'p']
}

pub open spec fn contains_sub(s: Seq<char>, t: Seq<char>) -> bool {
    exists|i: int| 0 <= i && i + t.len() <= s.len() && #[trigger] s.subrange(i, i + t.len()) == t
}

/// Whether some pattern holds `ext` as a substring.
pub open spec fn mentions(pats: Seq<Seq<char>>, ext: Seq<char>) -> bool {
    exists|j: int| 0 <= j < pats.len() && contains_sub(#[trigger] pats[j], ext)
}

/// The compiled regular expressions of the user's non-empty globs, in order.
pub open spec fn user_sources(pats: Seq<Seq<char>>) -> Seq<Seq<char>>
    decreases pats.len(),
{
    if pats.len() == 0 {
        Seq::empty()
    } else {
        let g = pats.last();
        user_sources(pats.drop_last()) + if g.len() > 0 && regex_compiles(glob_regex(g)) {
            seq![glob_regex(g)]
        } else {
            Seq::empty()
        }
    }
}

/// A built-in glob, compiled, where the user's patterns do not mention its
/// extension.
pub open spec fn default_source(pats: Seq<Seq<char>>, glob: Seq<char>) -> Seq<Seq<char>> {
    if !mentions(pats, glob.subrange(1, glob.len() as int)) && regex_compiles(glob_regex(glob)) {
        seq![glob_regex(glob)]
    } else {
        Seq::empty()
    }
}

/// The regular expressions a pattern list compiles to.
pub open spec fn compiled_sources(pats: Seq<Seq<char>>) -> Seq<Seq<char>> {
    user_sources(pats) + default_source(pats, glob_nk()) + default_source(pats, glob_aep())
}

pub open spec fn strings_view(v: Seq<String>) -> Seq<Seq<char>> {
    v.map_values(|s: String| s@)
}

/// Whether some compiled pattern accepts `name`.
pub open spec fn accepts_any(sources: Seq<Seq<char>>, name: Seq<char>) -> bool {
    exists|j: int| 0 <= j < sources.len() && regex_accepts(#[trigger] sources[j], name)
}

/// The compiled include patterns of a scan.
pub struct PatternSet {
    sources: Vec<String>,
}

impl PatternSet {
    /// The regular expressions held, in order.
    pub closed spec fn view_sources(&self) -> Seq<Seq<char>> {
        strings_view(self.sources@)
    }

    /// Every pattern held compiles.
    pub closed spec fn wf(&self) -> bool {
        forall|j: int| 0 <= j < self.sources@.len() ==> regex_compiles(#[trigger] self.sources@[j]@)
    }

    /// The number of patterns held.
    pub fn len(&self) -> (r: usize)
        ensures
            r == self.view_sources().len(),
    {
        self.sources.len()
    }

    /// The regular expression of pattern `j`.
    pub fn source(&self, j: usize) -> (r: &String)
        requires
            j < self.view_sources().len(),
        ensures
            r@ == self.view_sources()[j as int],
    {
        &self.sources[j]
    }

    /// Whether some pattern matches the whole file name.
    pub fn matches(&self, name: &str) -> (r: bool)
        requires
            self.wf(),
        ensures
            r == accepts_any(self.view_sources(), name@),
    {
        let mut j: usize = 0;
        while j < self.sources.len()
            invariant
                self.wf(),
                j <= self.sources@.len(),
                forall|k: int| 0 <= k < j ==> !regex_accepts(#[trigger] self.view_sources()[k], name@),
            decreases self.sources.len() - j,
        {
            if regex_is_match(self.sources[j].as_str(), name) {
                assert(regex_accepts(self.view_sources()[j as int], name@));
                return true;
            }
            j += 1;
        }
        false
    }
}

fn contains_chars(s: &Vec<char>, t: &Vec<char>) -> (r: bool)
    ensures
        r == contains_sub(s@, t@),
{
    if t.len() > s.len() {
        return false;
    }
    let mut i: usize = 0;
    while i <= s.len() - t.len()
        invariant
            t@.len() <= s@.len(),
            i <= s@.len(),
            forall|k: int| 0 <= k < i ==> #[trigger] s@.subrange(k, k + t@.len()) != t@,
        decreases s.len() - i,
    {
        let mut same = true;
        let mut m: usize = 0;
        while m < t.len()
            invariant
                i + t@.len() <= s@.len(),
                t@.len() == t.len(),
                s@.len() == s.len(),
                m <= t@.len(),
                same == forall|q: int| 0 <= q < m ==> s@[i + q] == t@[q],
            decreases t.len() - m,
        {
            assert(i + m < s@.len());
            if s[i + m] != t[m] {
                same = false;
            }
            m += 1;
        }
        if same {
            assert(s@.subrange(i as int, i + t@.len()) =~= t@);
            return true;
        } else {
            assert(s@.subrange(i as int, i + t@.len()) != t@) by {
                let w = choose|q: int| 0 <= q < t@.len() && s@[i + q] != t@[q];
                assert(s@.subrange(i as int, i + t@.len())[w] == s@[i + w]);
            }
        }
        i += 1;
    }
    assert forall|k: int| 0 <= k && k + t@.len() <= s@.len() implies #[trigger] s@.subrange(k, k + t@.len()) != t@ by {
        assert(k < i);
    }
    false
}

fn mentions_exec(pats: &Vec<String>, ext: &Vec<char>) -> (r: bool)
    ensures
        r == mentions(strings_view(pats@), ext@),
{
    let ghost pv = strings_view(pats@);
    let mut j: usize = 0;
    while j < pats.len()
        invariant
            pv == strings_view(pats@),
            j <= pats@.len(),
            forall|k: int| 0 <= k < j ==> !contains_sub(#[trigger] pv[k], ext@),
        decreases pats.len() - j,
    {
        let cs = chars_of(pats[j].as_str());
        if contains_chars(&cs, ext) {
            assert(contains_sub(pv[j as int], ext@));
            return true;
        }
        j += 1;
    }
    false
}

fn push_if_valid(out: &mut Vec<String>, glob: &str)
    ensures
        strings_view(final(out)@) == strings_view(old(out)@) + if regex_compiles(glob_regex(glob@)) {
            seq![glob_regex(glob@)]
        } else {
            Seq::empty()
        },
        final(out)@.len() >= old(out)@.len(),
        forall|k: int| 0 <= k < old(out)@.len() ==> final(out)@[k] == old(out)@[k],
        forall|k: int| old(out)@.len() <= k < final(out)@.len() ==> regex_compiles(#[trigger] final(out)@[k]@),
{
    let src = glob_to_regex(glob);
    let ghost before = out@;
    if regex_valid(src.as_str()) {
        out.push(src);
        assert(strings_view(out@) =~= strings_view(before) + seq![glob_regex(glob@)]);
    } else {
        assert(strings_view(out@) =~= strings_view(before) + Seq::empty());
    }
}

/// Compiles a list of include globs (see the module documentation).
pub fn compile_patterns(include_patterns: &Vec<String>) -> (r: PatternSet)
    ensures
        r.wf(),
        r.view_sources() == compiled_sources(strings_view(include_patterns@)),
{
    let ghost pv = strings_view(include_patterns@);
    let mut out: Vec<String> = Vec::new();
    let mut j: usize = 0;
    while j < include_patterns.len()
        invariant
            pv == strings_view(include_patterns@),
            j <= pv.len(),
            strings_view(out@) == user_sources(pv.subrange(0, j as int)),
            forall|k: int| 0 <= k < out@.len() ==> regex_compiles(#[trigger] out@[k]@),
        decreases include_patterns.len() - j,
    {
        let ghost before = out@;
        let g = include_patterns[j].as_str();
        proof {
            assert(pv.subrange(0, j + 1).drop_last() =~= pv.subrange(0, j as int));
            assert(pv.subrange(0, j + 1).last() == g@);
        }
        if g.unicode_len() > 0 {
            push_if_valid(&mut out, g);
        } else {
            assert(strings_view(out@) =~= strings_view(before) + Seq::empty());
        }
        proof {
            assert forall|k: int| 0 <= k < out@.len() implies regex_compiles(#[trigger] out@[k]@) by {
                if k < before.len() {
                    assert(out@[k] == before[k]);
                }
            }
        }
        j += 1;
    }
    proof {
        assert(pv.subrange(0, pv.len() as int) =~= pv);
    }
    let nk_ext = vec!['.', 'n', 'k'];
    let aep_ext = vec!['.', 'a', 'e', 'p'];
    proof {
        assert(nk_ext@ =~= glob_nk().subrange(1, 4));
        assert(aep_ext@ =~= glob_aep().subrange(1, 5));
    }
    let ghost mid1 = out@;
    if !mentions_exec(include_patterns, &nk_ext) {
        let g = string_of(&vec!['*', '.', 'n', 'k']);
        push_if_valid(&mut out, g.as_str());
    } else {
        assert(strings_view(out@) =~= strings_view(mid1) + Seq::empty());
    }
    let ghost mid2 = out@;
    if !mentions_exec(include_patterns, &aep_ext) {
        let g = string_of(&vec!['*', '.', 'a', 'e', 'p']);
        push_if_valid(&mut out, g.as_str());
    } else {
        assert(strings_view(out@) =~= strings_view(mid2) + Seq::empty());
    }
    let r = PatternSet { sources: out };
    proof {
        assert forall|k: int| 0 <= k < r.sources@.len() implies regex_compiles(#[trigger] r.sources@[k]@) by {
            assert(strings_view(r.sources@)[k] == r.sources@[k]@);
            let cs = compiled_sources(pv);
            assert(strings_view(r.sources@) =~= cs);
        }
    }
    r
}


/// With no user patterns, the built-in globs for the compositing and
/// animation extensions are what a scan matches against (each where it
/// compiles).
pub proof fn lemma_empty_patterns_use_defaults()
    ensures
        compiled_sources(Seq::empty()) == (if regex_compiles(glob_regex(glob_nk())) {
            seq![glob_regex(glob_nk())]
        } else {
            Seq::empty()
        }) + (if regex_compiles(glob_regex(glob_aep())) {
            seq![glob_regex(glob_aep())]
        } else {
            Seq::empty()
        }),
{
    let e = Seq::<Seq<char>>::empty();
    assert(!mentions(e, glob_nk().subrange(1, 4)));
    assert(!mentions(e, glob_aep().subrange(1, 5)));
    assert(user_sources(e) + default_source(e, glob_nk()) =~= default_source(e, glob_nk()));
}

} // verus!
