//! The skills command surface: argument types, limit clamping, source
//! detection and search-result selection. Downloading, listing and
//! installing are the caller's work.

use vstd::prelude::*;
use vstd::string::StringSliceAdditionalSpecFns;

use crate::agent::{collapse_from, lower_seq};
use crate::text::{bytes_eq, bytes_of, char_count, chars_prefix_end, contains_bytes,
    contains_sub, count_chars, push_all, sub_bytes, take_chars, to_lower, trim_bytes, trim_spec};

verus! {

/// The skills subcommands.
pub enum SkillsCommands {
    Search { query: String, from: SkillSearchSource, limit: Option<u32> },
    Install {
        from: SkillInstaller,
        target: String,
        version: Option<String>,
        force: bool,
        skills: Vec<String>,
        list: bool,
        yes: bool,
        all: bool,
    },
}

/// Which installer backend to use.
pub enum SkillInstaller {
    Clawhub,
    Skills,
}

/// Which backend a search runs against.
pub enum SkillSearchSource {
    All,
    Clawhub,
    Skills,
}

/// Clamp a result count to the inclusive range `[1, 100]`, falling back to
/// `default_value` when no count was given.
pub fn normalize_limit(limit: Option<u32>, default_value: usize) -> (r: usize)
    requires
        default_value <= u32::MAX,
    ensures
        limit is Some ==> r == vstd::math::min(
            vstd::math::max(limit->Some_0 as int, 1),
            100,
        ),
        limit is None ==> r == vstd::math::min(vstd::math::max(default_value as int, 1), 100),
{
    let raw: u32 = match limit {
        Some(l) => l,
        None => default_value as u32,
    };
    let raw: u32 = if raw < 1 {
        1
    } else {
        raw
    };
    let clamped: u32 = if raw > 100 {
        100
    } else {
        raw
    };
    clamped as usize
}

/// The bytes of a trimmed value look like a filesystem path, a repository or
/// a URL rather than a plain search word.
pub open spec fn has_prefix(s: Seq<u8>, p: Seq<u8>) -> bool {
    s.len() >= p.len() && s.subrange(0, p.len() as int) == p
}

pub open spec fn has_suffix(s: Seq<u8>, p: Seq<u8>) -> bool {
    s.len() >= p.len() && s.subrange(s.len() - p.len(), s.len() as int) == p
}

pub open spec fn looks_like_source_spec(s: Seq<u8>) -> bool {
    let t = trim_spec(s);
    &&& t.len() > 0
    &&& {
        ||| t[0] == 47
        ||| t == ".".spec_bytes()
        ||| t == "..".spec_bytes()
        ||| has_prefix(t, "./".spec_bytes())
        ||| has_prefix(t, "../".spec_bytes())
        ||| has_prefix(t, "http://".spec_bytes())
        ||| has_prefix(t, "https://".spec_bytes())
        ||| has_prefix(t, "git@".spec_bytes())
        ||| has_suffix(t, ".git".spec_bytes())
        ||| contains_bytes(t, "/".spec_bytes())
    }
}

/// Does the value name a skills source (a path, repository or URL)? An
/// absolute path is one that starts with a separator byte.
pub fn looks_like_source(value: &str) -> (r: bool)
    ensures
        r == looks_like_source_spec(value.spec_bytes()),
{
    let b = bytes_of(value);
    let t = trim_bytes(b.as_slice());
    if t.len() == 0 {
        return false;
    }
    if t[0] == 47 {
        return true;
    }
    if bytes_eq(t.as_slice(), bytes_of(".").as_slice()) {
        return true;
    }
    if bytes_eq(t.as_slice(), bytes_of("..").as_slice()) {
        return true;
    }
    if starts_with(t.as_slice(), bytes_of("./").as_slice()) {
        return true;
    }
    if starts_with(t.as_slice(), bytes_of("../").as_slice()) {
        return true;
    }
    if starts_with(t.as_slice(), bytes_of("http://").as_slice()) {
        return true;
    }
    if starts_with(t.as_slice(), bytes_of("https://").as_slice()) {
        return true;
    }
    if starts_with(t.as_slice(), bytes_of("git@").as_slice()) {
        return true;
    }
    if ends_with(t.as_slice(), bytes_of(".git").as_slice()) {
        return true;
    }
    contains_sub(t.as_slice(), bytes_of("/").as_slice())
}

/// Does `s` start with `prefix`?
pub fn starts_with(s: &[u8], prefix: &[u8]) -> (r: bool)
    ensures
        r == (s@.len() >= prefix@.len() && s@.subrange(0, prefix@.len() as int) == prefix@),
{
    if prefix.len() > s.len() {
        return false;
    }
    let head = sub_bytes(s, 0, prefix.len());
    bytes_eq(head.as_slice(), prefix)
}

/// Does `s` end with `suffix`?
pub fn ends_with(s: &[u8], suffix: &[u8]) -> (r: bool)
    ensures
        r == (s@.len() >= suffix@.len() && s@.subrange(
            s@.len() - suffix@.len(),
            s@.len() as int,
        ) == suffix@),
{
    if suffix.len() > s.len() {
        return false;
    }
    let tail = sub_bytes(s, s.len() - suffix.len(), s.len());
    bytes_eq(tail.as_slice(), suffix)
}

/// One skills.sh search result, as the selection logic sees it.
pub struct SkillEntry {
    pub slug: Vec<u8>,
    pub name: Vec<u8>,
    pub source: Vec<u8>,
    pub installs: u64,
}

/// The index selected among search results for a query: the first result
/// whose slug matches case-insensitively, else the first whose name does,
/// else the first result.
pub open spec fn select_entry_spec(
    slugs: Seq<Seq<u8>>,
    names: Seq<Seq<u8>>,
    q: Seq<u8>,
) -> int {
    if exists|i: int| 0 <= i < slugs.len() && lower_seq(#[trigger] slugs[i]) == lower_seq(q) {
        choose|i: int|
            0 <= i < slugs.len() && lower_seq(#[trigger] slugs[i]) == lower_seq(q) && forall|
                j: int,
            | 0 <= j < i ==> lower_seq(#[trigger] slugs[j]) != lower_seq(q)
    } else if exists|i: int|
        0 <= i < names.len() && lower_seq(#[trigger] names[i]) == lower_seq(q) {
        choose|i: int|
            0 <= i < names.len() && lower_seq(#[trigger] names[i]) == lower_seq(q) && forall|
                j: int,
            | 0 <= j < i ==> lower_seq(#[trigger] names[j]) != lower_seq(q)
    } else {
        0
    }
}

/// Pick the search result to install for `query`: a case-insensitive slug
/// match wins, then a name match, then the first result; blank queries and
/// empty result lists select nothing.
pub fn resolve_skills_sh_target(results: &Vec<SkillEntry>, query: &str) -> (r: Option<usize>)
    ensures
        r is None <==> (trim_spec(query.spec_bytes()).len() == 0 || results@.len() == 0),
        r is Some ==> 0 <= r->Some_0 < results@.len(),
        r is Some ==> r->Some_0 as int == select_entry_spec(
            slug_views(results@),
            name_views(results@),
            trim_spec(query.spec_bytes()),
        ),
{
    let qraw = bytes_of(query);
    let qt = trim_bytes(qraw.as_slice());
    if qt.len() == 0 {
        return None;
    }
    if results.len() == 0 {
        return None;
    }
    let ql = to_lower(qt.as_slice());
    proof {
        assert(ql@ =~= lower_seq(trim_spec(query.spec_bytes())));
    }
    let ghost slugs = slug_views(results@);
    let ghost names = name_views(results@);
    let mut i: usize = 0;
    while i < results.len()
        invariant
            i <= results@.len(),
            slugs == slug_views(results@),
            names == name_views(results@),
            slugs.len() == results@.len(),
            results@.len() > 0,
            trim_spec(query.spec_bytes()).len() > 0,
            ql@ == lower_seq(trim_spec(query.spec_bytes())),
            forall|j: int| 0 <= j < i ==> lower_seq(#[trigger] slugs[j]) != ql@,
        decreases results@.len() - i,
    {
        let low = to_lower(results[i].slug.as_slice());
        proof {
            assert(low@ =~= lower_seq(slugs[i as int]));
        }
        if bytes_eq(low.as_slice(), ql.as_slice()) {
            proof {
                assert(lower_seq(slugs[i as int]) == ql@);
                assert(i as int == select_entry_spec(
                    slugs,
                    names,
                    trim_spec(query.spec_bytes()),
                )) by {
                    let w = choose|w: int|
                        0 <= w < slugs.len() && lower_seq(#[trigger] slugs[w]) == lower_seq(
                            trim_spec(query.spec_bytes()),
                        ) && forall|j: int|
                            0 <= j < w ==> lower_seq(#[trigger] slugs[j]) != lower_seq(
                                trim_spec(query.spec_bytes()),
                            );
                    if w < i as int {
                        assert(false);
                    }
                    if w > i as int {
                        assert(lower_seq(slugs[i as int]) != lower_seq(
                            trim_spec(query.spec_bytes()),
                        ));
                        assert(false);
                    }
                }
            }
            return Some(i);
        }
        i = i + 1;
    }
    let mut i2: usize = 0;
    while i2 < results.len()
        invariant
            i2 <= results@.len(),
            slugs == slug_views(results@),
            names == name_views(results@),
            names.len() == results@.len(),
            slugs.len() == results@.len(),
            results@.len() > 0,
            trim_spec(query.spec_bytes()).len() > 0,
            ql@ == lower_seq(trim_spec(query.spec_bytes())),
            forall|j: int| 0 <= j < results@.len() ==> lower_seq(#[trigger] slugs[j]) != ql@,
            forall|j: int| 0 <= j < i2 ==> lower_seq(#[trigger] names[j]) != ql@,
        decreases results@.len() - i2,
    {
        let low = to_lower(results[i2].name.as_slice());
        proof {
            assert(low@ =~= lower_seq(names[i2 as int]));
        }
        if bytes_eq(low.as_slice(), ql.as_slice()) {
            proof {
                assert(lower_seq(names[i2 as int]) == ql@);
                assert(i2 as int == select_entry_spec(
                    slugs,
                    names,
                    trim_spec(query.spec_bytes()),
                )) by {
                    let w = choose|w: int|
                        0 <= w < names.len() && lower_seq(#[trigger] names[w]) == lower_seq(
                            trim_spec(query.spec_bytes()),
                        ) && forall|j: int|
                            0 <= j < w ==> lower_seq(#[trigger] names[j]) != lower_seq(
                                trim_spec(query.spec_bytes()),
                            );
                    if w < i2 as int {
                        assert(false);
                    }
                    if w > i2 as int {
                        assert(lower_seq(names[i2 as int]) != lower_seq(
                            trim_spec(query.spec_bytes()),
                        ));
                        assert(false);
                    }
                }
            }
            return Some(i2);
        }
        i2 = i2 + 1;
    }
    proof {
        assert(select_entry_spec(slugs, names, trim_spec(query.spec_bytes())) == 0);
    }
    Some(0)
}

/// The slugs of the results.
pub open spec fn slug_views(results: Seq<SkillEntry>) -> Seq<Seq<u8>> {
    Seq::new(results.len(), |i: int| results[i].slug@)
}

/// The names of the results.
pub open spec fn name_views(results: Seq<SkillEntry>) -> Seq<Seq<u8>> {
    Seq::new(results.len(), |i: int| results[i].name@)
}

/// A one-line summary: whitespace collapsed to single spaces, cut to
/// `max_len` characters - never inside a multi-byte character - with a
/// trailing ellipsis when over.
pub open spec fn summary_line_spec(s: Seq<u8>, max_len: int) -> Seq<u8> {
    let c = collapse_from(s, 0, false);
    if char_count(c) <= max_len {
        c
    } else {
        c.take(chars_prefix_end(c, 0, if max_len >= 1 {
            max_len - 1
        } else {
            0
        })) + "...".spec_bytes()
    }
}

/// Collapse whitespace and cut to `max_len` characters for list output.
pub fn truncate(value: &str, max_len: usize) -> (r: Vec<u8>)
    ensures
        r@ == summary_line_spec(value.spec_bytes(), max_len as int),
{
    let snippet = crate::agent::collapse_whitespace(value);
    let n = count_chars(snippet.as_slice());
    if n <= max_len {
        return snippet;
    }
    let keep: usize = if max_len >= 1 {
        max_len - 1
    } else {
        0
    };
    let mut r = take_chars(snippet.as_slice(), keep);
    let dots = bytes_of("...");
    push_all(&mut r, dots.as_slice());
    r
}

} // verus!
