//! Sectioned markdown memory document.
//!
//! The long-term memory file is a single markdown document partitioned into
//! `## `-headed sections, each an append-ordered list of dated bullet lines.
//! Everything here transforms in-memory byte documents; reading and writing
//! the files, and the process-wide write lock, live outside the library.

use vstd::prelude::*;
use vstd::string::StringSliceAdditionalSpecFns;

use crate::clock::{date_stamp_wf, today_stamp};
use crate::text::{
    bytes_of, contains_bytes, find_from, find_sub, lemma_find_from_at, lemma_find_from_none,
    lemma_find_from_some, lemma_find_from_absent, lemma_match_shift, lemma_rfind_upto_some,
    match_at, push_all, rfind_sub, rfind_upto, sub_bytes, trim_bytes, trim_spec,
};

verus! {

/// Largest size of the Extracted Notes section before old lines are trimmed.
pub const MAX_EXTRACTED_NOTES_CHARS: usize = 8000;

/// Character budget for the assembled memory context.
pub const MAX_CONTEXT_CHARS: usize = 8000;

/// The marker appended to every truncated text.
pub open spec fn trunc_suffix() -> Seq<u8> {
    "... (truncated)".spec_bytes()
}

/// Truncation at a friendly boundary: search backward from `max - 20` for a
/// paragraph, sentence or line break past the halfway point, then for a
/// space, then hard-cut.
pub open spec fn truncate_spec(s: Seq<u8>, max: int) -> Seq<u8> {
    if s.len() <= max {
        s
    } else {
        let ta = if max >= 20 {
            max - 20
        } else {
            0
        };
        let sep1 = rfind_upto(s, "\n\n".spec_bytes(), ta - 2);
        let sep2 = rfind_upto(s, ".\n".spec_bytes(), ta - 2);
        let sep3 = rfind_upto(s, ". ".spec_bytes(), ta - 2);
        let sep4 = rfind_upto(s, "\n".spec_bytes(), ta - 1);
        let sep5 = rfind_upto(s, " ".spec_bytes(), ta - 1);
        if sep1 is Some && sep1->Some_0 > ta / 2 {
            s.subrange(0, sep1->Some_0 + 2) + seq![10u8] + trunc_suffix()
        } else if sep2 is Some && sep2->Some_0 > ta / 2 {
            s.subrange(0, sep2->Some_0 + 2) + seq![10u8] + trunc_suffix()
        } else if sep3 is Some && sep3->Some_0 > ta / 2 {
            s.subrange(0, sep3->Some_0 + 2) + seq![10u8] + trunc_suffix()
        } else if sep4 is Some && sep4->Some_0 > ta / 2 {
            s.subrange(0, sep4->Some_0 + 1) + seq![10u8] + trunc_suffix()
        } else if sep5 is Some && sep5->Some_0 > ta / 2 {
            s.subrange(0, sep5->Some_0) + seq![32u8] + trunc_suffix()
        } else {
            s.subrange(0, ta) + trunc_suffix()
        }
    }
}

/// Truncate `content` to roughly `max_chars` bytes at a friendly boundary,
/// marking the cut. Inputs that already fit come back unchanged.
pub fn truncate(content: &[u8], max_chars: usize) -> (r: Vec<u8>)
    ensures
        r@ == truncate_spec(content@, max_chars as int),
        r@.len() <= max_chars + trunc_suffix().len(),
        content@.len() <= max_chars ==> r@ == content@,
{
    proof {
        lemma_truncate_bounded(content@, max_chars as int);
    }
    if content.len() <= max_chars {
        return sub_bytes(content, 0, content.len());
    }
    let ta: usize = if max_chars >= 20 {
        max_chars - 20
    } else {
        0
    };
    let suffix = bytes_of("... (truncated)");
    let half = ta / 2;
    if ta >= 2 {
        let pat1 = bytes_of("\n\n");
        if let Some(p) = rfind_sub(content, pat1.as_slice(), ta - 2) {
            if p > half {
                proof {
                    lemma_rfind_upto_some(content@, "\n\n".spec_bytes(), ta - 2);
                }
                let mut r = sub_bytes(content, 0, p + 2);
                r.push(10u8);
                push_all(&mut r, suffix.as_slice());
                proof {
                    assert(r@ =~= truncate_spec(content@, max_chars as int));
                }
                return r;
            }
        }
        let pat2 = bytes_of(".\n");
        if let Some(p) = rfind_sub(content, pat2.as_slice(), ta - 2) {
            if p > half {
                proof {
                    lemma_rfind_upto_some(content@, ".\n".spec_bytes(), ta - 2);
                }
                let mut r = sub_bytes(content, 0, p + 2);
                r.push(10u8);
                push_all(&mut r, suffix.as_slice());
                proof {
                    assert(r@ =~= truncate_spec(content@, max_chars as int));
                }
                return r;
            }
        }
        let pat3 = bytes_of(". ");
        if let Some(p) = rfind_sub(content, pat3.as_slice(), ta - 2) {
            if p > half {
                proof {
                    lemma_rfind_upto_some(content@, ". ".spec_bytes(), ta - 2);
                }
                let mut r = sub_bytes(content, 0, p + 2);
                r.push(10u8);
                push_all(&mut r, suffix.as_slice());
                proof {
                    assert(r@ =~= truncate_spec(content@, max_chars as int));
                }
                return r;
            }
        }
    }
    if ta >= 1 {
        let pat4 = bytes_of("\n");
        if let Some(p) = rfind_sub(content, pat4.as_slice(), ta - 1) {
            if p > half {
                proof {
                    lemma_rfind_upto_some(content@, "\n".spec_bytes(), ta - 1);
                }
                let mut r = sub_bytes(content, 0, p + 1);
                r.push(10u8);
                push_all(&mut r, suffix.as_slice());
                proof {
                    assert(r@ =~= truncate_spec(content@, max_chars as int));
                }
                return r;
            }
        }
        let pat5 = bytes_of(" ");
        if let Some(p) = rfind_sub(content, pat5.as_slice(), ta - 1) {
            if p > half {
                proof {
                    lemma_rfind_upto_some(content@, " ".spec_bytes(), ta - 1);
                }
                let mut r = sub_bytes(content, 0, p);
                r.push(32u8);
                push_all(&mut r, suffix.as_slice());
                proof {
                    assert(r@ =~= truncate_spec(content@, max_chars as int));
                }
                return r;
            }
        }
    }
    let mut r = sub_bytes(content, 0, ta);
    push_all(&mut r, suffix.as_slice());
    proof {
        if ta < 2 {
            lemma_rfind_none_small(content@, "\n\n".spec_bytes(), ta - 2);
            lemma_rfind_none_small(content@, ".\n".spec_bytes(), ta - 2);
            lemma_rfind_none_small(content@, ". ".spec_bytes(), ta - 2);
        }
        if ta < 1 {
            lemma_rfind_none_small(content@, "\n".spec_bytes(), ta - 1);
            lemma_rfind_none_small(content@, " ".spec_bytes(), ta - 1);
        }
        assert(r@ =~= truncate_spec(content@, max_chars as int));
    }
    r
}

/// `rfind_upto` with a negative bound finds nothing.
proof fn lemma_rfind_none_small(s: Seq<u8>, pat: Seq<u8>, upto: int)
    requires
        upto < 0,
    ensures
        rfind_upto(s, pat, upto) is None,
{
}

/// Truncation never exceeds the budget by more than the marker, and short
/// inputs come back unchanged.
pub proof fn lemma_truncate_bounded(s: Seq<u8>, max: int)
    requires
        max >= 0,
    ensures
        truncate_spec(s, max).len() <= max + trunc_suffix().len(),
        s.len() <= max ==> truncate_spec(s, max) == s,
{
    if s.len() > max {
        let ta = if max >= 20 {
            max - 20
        } else {
            0
        };
        let sep1 = rfind_upto(s, "\n\n".spec_bytes(), ta - 2);
        let sep2 = rfind_upto(s, ".\n".spec_bytes(), ta - 2);
        let sep3 = rfind_upto(s, ". ".spec_bytes(), ta - 2);
        let sep4 = rfind_upto(s, "\n".spec_bytes(), ta - 1);
        let sep5 = rfind_upto(s, " ".spec_bytes(), ta - 1);
        if sep1 is Some {
            lemma_rfind_upto_some(s, "\n\n".spec_bytes(), ta - 2);
        }
        if sep2 is Some {
            lemma_rfind_upto_some(s, ".\n".spec_bytes(), ta - 2);
        }
        if sep3 is Some {
            lemma_rfind_upto_some(s, ". ".spec_bytes(), ta - 2);
        }
        if sep4 is Some {
            lemma_rfind_upto_some(s, "\n".spec_bytes(), ta - 1);
        }
        if sep5 is Some {
            lemma_rfind_upto_some(s, " ".spec_bytes(), ta - 1);
        }
    }
}

/// Drop every leading line-feed byte.
pub open spec fn trim_leading_nl(s: Seq<u8>) -> Seq<u8>
    decreases s.len()
{
    if s.len() > 0 && s[0] == 10 {
        trim_leading_nl(s.subrange(1, s.len() as int))
    } else {
        s
    }
}

/// Drop whole lines from the front until the text fits the budget.
pub open spec fn drop_lines_to_fit(s: Seq<u8>, limit: int) -> Seq<u8>
    decreases s.len()
{
    if s.len() <= limit {
        s
    } else {
        match find_from(s, seq![10u8], 0) {
            Some(i) => if 0 <= i < s.len() {
                drop_lines_to_fit(s.subrange(i + 1, s.len() as int), limit)
            } else {
                s
            },
            None => s,
        }
    }
}

/// Entries `i..` joined with line feeds.
pub open spec fn join_nl_from(entries: Seq<Seq<u8>>, i: int) -> Seq<u8>
    decreases entries.len() - i
{
    if i < 0 || i >= entries.len() {
        Seq::empty()
    } else if i == entries.len() - 1 {
        entries[i]
    } else {
        entries[i] + seq![10u8] + join_nl_from(entries, i + 1)
    }
}

/// All entries joined with line feeds.
pub open spec fn join_nl_spec(entries: Seq<Seq<u8>>) -> Seq<u8> {
    join_nl_from(entries, 0)
}

/// Join entries with line feeds.
pub fn join_nl(entries: &Vec<Vec<u8>>) -> (r: Vec<u8>)
    ensures
        r@ == join_nl_spec(entries.deep_view()),
{
    let ghost dv = entries.deep_view();
    let n = entries.len();
    proof {
        assert(dv.len() == n);
    }
    let mut r: Vec<u8> = Vec::new();
    if n == 0 {
        return r;
    }
    let mut i: usize = 0;
    while i < n
        invariant
            0 < n == dv.len() == entries@.len(),
            dv == entries.deep_view(),
            i <= n,
            i == 0 ==> r@ == Seq::<u8>::empty(),
            0 < i < n ==> join_nl_from(dv, 0) == r@ + seq![10u8] + join_nl_from(dv, i as int),
            i == n ==> join_nl_from(dv, 0) == r@,
        decreases n - i,
    {
        let ghost r0 = r@;
        if i > 0 {
            r.push(10u8);
        }
        push_all(&mut r, entries[i].as_slice());
        proof {
            assert(dv[i as int] == entries@[i as int]@);
            if i == 0 {
                if n == 1 {
                    assert(r@ =~= dv[0]);
                    assert(join_nl_from(dv, 0) == dv[0]);
                } else {
                    assert(r@ =~= dv[0]);
                    assert(join_nl_from(dv, 0) == dv[0] + seq![10u8] + join_nl_from(dv, 1));
                    assert(join_nl_from(dv, 0) =~= r@ + seq![10u8] + join_nl_from(dv, 1));
                }
            } else {
                assert(r@ =~= r0 + seq![10u8] + dv[i as int]);
                if i + 1 < n {
                    assert(join_nl_from(dv, i as int) == dv[i as int] + seq![10u8] + join_nl_from(
                        dv,
                        i + 1,
                    ));
                    assert(join_nl_from(dv, 0) =~= r@ + seq![10u8] + join_nl_from(dv, i + 1));
                } else {
                    assert(join_nl_from(dv, i as int) == dv[i as int]);
                    assert(join_nl_from(dv, 0) =~= r@);
                }
            }
        }
        i = i + 1;
    }
    r
}

/// Spec view of an optional byte budget.
pub open spec fn opt_int(o: Option<usize>) -> Option<int> {
    match o {
        Some(v) => Some(v as int),
        None => None,
    }
}

/// The document after appending `new_lines` to the section under `header`:
/// the section body is everything up to the next `\n## ` heading; a missing
/// section is created at the end; an over-budget section loses its oldest
/// lines. Every byte outside the section is kept as it was.
pub open spec fn section_append_spec(
    doc: Seq<u8>,
    header: Seq<u8>,
    new_lines: Seq<u8>,
    max: Option<int>,
) -> Seq<u8> {
    match find_from(doc, header, 0) {
        Some(hs) => {
            let after = hs + header.len();
            let rest = doc.subrange(after as int, doc.len() as int);
            let se = match find_from(rest, "\n## ".spec_bytes(), 0) {
                Some(i) => i,
                None => rest.len() as int,
            };
            let body = trim_leading_nl(rest.subrange(0, se));
            let combined0 = if body.len() == 0 {
                new_lines
            } else {
                body + seq![10u8] + new_lines
            };
            let combined = match max {
                Some(limit) => drop_lines_to_fit(combined0, limit),
                None => combined0,
            };
            doc.subrange(0, after as int) + seq![10u8] + combined + rest.subrange(
                se,
                rest.len() as int,
            )
        },
        None => {
            let base = if doc.len() > 0 && doc[doc.len() - 1] != 10 {
                doc + seq![10u8]
            } else {
                doc
            };
            base + seq![10u8] + header + seq![10u8] + new_lines + seq![10u8]
        },
    }
}


/// Drop whole lines from the front of `s` until it fits `limit`.
fn trim_front_lines(s: &[u8], limit: usize) -> (r: Vec<u8>)
    ensures
        r@ == drop_lines_to_fit(s@, limit as int),
{
    let nl = vec![10u8];
    let mut cur = sub_bytes(s, 0, s.len());
    proof {
        assert(cur@ =~= s@);
    }
    loop
        invariant
            nl@ == seq![10u8],
            drop_lines_to_fit(s@, limit as int) == drop_lines_to_fit(cur@, limit as int),
        decreases cur@.len(),
    {
        if cur.len() <= limit {
            proof {
                assert(drop_lines_to_fit(cur@, limit as int) == cur@);
            }
            return cur;
        }
        match find_sub(cur.as_slice(), nl.as_slice(), 0) {
            Some(p) => {
                proof {
                    lemma_find_from_some(cur@, nl@, 0);
                }
                let next = sub_bytes(cur.as_slice(), p + 1, cur.len());
                cur = next;
            },
            None => {
                proof {
                    assert(drop_lines_to_fit(cur@, limit as int) == cur@);
                }
                return cur;
            },
        }
    }
}

/// Append joined entries to the section under `header` of `doc`.
#[verifier::rlimit(60)]
pub fn section_append(
    doc: &[u8],
    header: &[u8],
    entries: &Vec<Vec<u8>>,
    max_section_chars: Option<usize>,
) -> (r: Vec<u8>)
    requires
        entries@.len() > 0,
    ensures
        r@ == section_append_spec(
            doc@,
            header@,
            join_nl_spec(entries.deep_view()),
            opt_int(max_section_chars),
        ),
{
    let new_lines = join_nl(entries);
    let dlen = doc.len();
    let marker = bytes_of("\n## ");
    match find_sub(doc, header, 0) {
        Some(hs) => {
            proof {
                lemma_find_from_some(doc@, header@, 0);
            }
            let after = hs + header.len();
            let ghost rest = doc@.subrange(after as int, dlen as int);
            let se_abs: usize = match find_sub(doc, marker.as_slice(), after) {
                Some(i) => i,
                None => dlen,
            };
            proof {
                let pat = "\n## ".spec_bytes();
                match find_from(doc@, pat, after as int) {
                    Some(i) => {
                        lemma_find_from_some(doc@, pat, after as int);
                        assert forall|j: int| 0 <= j < i - after implies !match_at(rest, pat, j) by {
                            lemma_match_shift(doc@, pat, after as int, j + after);
                        }
                        lemma_match_shift(doc@, pat, after as int, i);
                        lemma_find_from_at(rest, pat, 0, i - after);
                    },
                    None => {
                        lemma_find_from_none(doc@, pat, after as int);
                        assert forall|j: int| j >= 0 implies !match_at(rest, pat, j) by {
                            if j + pat.len() <= rest.len() {
                                lemma_match_shift(doc@, pat, after as int, j + after);
                            }
                        }
                        lemma_find_from_absent(rest, pat, 0);
                    },
                }
                assert(rest.subrange(0, se_abs - after) =~= doc@.subrange(
                    after as int,
                    se_abs as int,
                ));
            }
            let mut bs: usize = after;
            while bs < se_abs && doc[bs] == 10
                invariant
                    after <= bs <= se_abs <= dlen == doc@.len(),
                    trim_leading_nl(doc@.subrange(after as int, se_abs as int))
                        == trim_leading_nl(doc@.subrange(bs as int, se_abs as int)),
                decreases se_abs - bs,
            {
                proof {
                    let cur = doc@.subrange(bs as int, se_abs as int);
                    assert(cur[0] == 10);
                    assert(cur.subrange(1, cur.len() as int) =~= doc@.subrange(
                        bs + 1,
                        se_abs as int,
                    ));
                }
                bs = bs + 1;
            }
            proof {
                let fin = doc@.subrange(bs as int, se_abs as int);
                if bs < se_abs {
                    assert(fin[0] != 10);
                }
                assert(trim_leading_nl(fin) == fin);
            }
            let mut combined: Vec<u8>;
            if bs == se_abs {
                combined = Vec::new();
                push_all(&mut combined, new_lines.as_slice());
                proof {
                    assert(combined@ =~= new_lines@);
                }
            } else {
                combined = sub_bytes(doc, bs, se_abs);
                combined.push(10u8);
                push_all(&mut combined, new_lines.as_slice());
                proof {
                    assert(combined@ =~= doc@.subrange(bs as int, se_abs as int) + seq![10u8]
                        + new_lines@);
                }
            }
            if let Some(limit) = max_section_chars {
                combined = trim_front_lines(combined.as_slice(), limit);
            }
            let mut r = sub_bytes(doc, 0, after);
            r.push(10u8);
            push_all(&mut r, combined.as_slice());
            let mut tail_part = sub_bytes(doc, se_abs, dlen);
            push_all(&mut r, tail_part.as_slice());
            proof {
                assert(rest.subrange(se_abs - after, rest.len() as int) =~= doc@.subrange(
                    se_abs as int,
                    dlen as int,
                ));
                assert(r@ =~= section_append_spec(
                    doc@,
                    header@,
                    join_nl_spec(entries.deep_view()),
                    opt_int(max_section_chars),
                ));
            }
            r
        },
        None => {
            proof {
                lemma_find_from_none(doc@, header@, 0);
            }
            let mut r = sub_bytes(doc, 0, dlen);
            proof {
                assert(r@ =~= doc@);
            }
            if r.len() > 0 && r[r.len() - 1] != 10 {
                r.push(10u8);
            }
            r.push(10u8);
            push_all(&mut r, header);
            r.push(10u8);
            push_all(&mut r, new_lines.as_slice());
            r.push(10u8);
            proof {
                assert(r@ =~= section_append_spec(
                    doc@,
                    header@,
                    join_nl_spec(entries.deep_view()),
                    opt_int(max_section_chars),
                ));
            }
            r
        },
    }
}

/// A dated bullet line.
pub open spec fn bullet_spec(today: Seq<u8>, text: Seq<u8>) -> Seq<u8> {
    "- [".spec_bytes() + today + "] ".spec_bytes() + text
}

pub open spec fn extracted_header() -> Seq<u8> {
    "## Extracted Notes".spec_bytes()
}

pub open spec fn remembered_header() -> Seq<u8> {
    "## Remembered Facts".spec_bytes()
}

pub open spec fn conversation_header() -> Seq<u8> {
    "## Conversation Observations".spec_bytes()
}

pub open spec fn user_obs_header() -> Seq<u8> {
    "## User Observations".spec_bytes()
}

pub open spec fn grounded_header() -> Seq<u8> {
    "## Grounded Facts".spec_bytes()
}

/// Confidence formatted with two decimals, from hundredths clamped to
/// `[0, 100]`.
pub open spec fn confidence_bytes(c: int) -> Seq<u8> {
    if c >= 100 {
        "1.00".spec_bytes()
    } else if c <= 0 {
        "0.00".spec_bytes()
    } else {
        seq![48u8, 46u8, (48 + c / 10) as u8, (48 + c % 10) as u8]
    }
}

/// The long-term memory store: workspace paths, today's date stamp, and the
/// two documents it serves. File input and output, and the process-wide
/// write lock around it, stay with the caller; the store itself is a pure
/// document transformer.
pub struct MemoryStore {
    pub workspace: Vec<u8>,
    pub memory_dir: Vec<u8>,
    pub long_term: Vec<u8>,
    pub today_notes: Vec<u8>,
    pub today: Vec<u8>,
}

impl MemoryStore {
    /// Everything but the documents is unchanged.
    pub open spec fn same_paths(&self, other: &Self) -> bool {
        &&& self.workspace@ == other.workspace@
        &&& self.memory_dir@ == other.memory_dir@
        &&& self.today@ == other.today@
        &&& self.today_notes@ == other.today_notes@
    }

    /// A store over `workspace`, stamped with today's local date.
    pub fn new(workspace: &str) -> (r: Self)
        ensures
            r.workspace@ == workspace.spec_bytes(),
            r.memory_dir@ == workspace.spec_bytes() + "/memory".spec_bytes(),
            r.long_term@ == Seq::<u8>::empty(),
            r.today_notes@ == Seq::<u8>::empty(),
            date_stamp_wf(r.today@),
    {
        let today = today_stamp();
        Self::with_today(workspace, today)
    }

    /// A store over `workspace` with an explicit date stamp.
    pub fn with_today(workspace: &str, today: Vec<u8>) -> (r: Self)
        ensures
            r.workspace@ == workspace.spec_bytes(),
            r.memory_dir@ == workspace.spec_bytes() + "/memory".spec_bytes(),
            r.long_term@ == Seq::<u8>::empty(),
            r.today_notes@ == Seq::<u8>::empty(),
            r.today@ == today@,
    {
        let ws = bytes_of(workspace);
        let mut dir = bytes_of(workspace);
        let suffix = bytes_of("/memory");
        push_all(&mut dir, suffix.as_slice());
        MemoryStore {
            workspace: ws,
            memory_dir: dir,
            long_term: Vec::new(),
            today_notes: Vec::new(),
            today,
        }
    }

    /// Replace the in-memory documents with freshly read file contents.
    pub fn load_documents(&mut self, long_term: Vec<u8>, today_notes: Vec<u8>)
        ensures
            final(self).long_term@ == long_term@,
            final(self).today_notes@ == today_notes@,
            final(self).workspace@ == old(self).workspace@,
            final(self).memory_dir@ == old(self).memory_dir@,
            final(self).today@ == old(self).today@,
    {
        self.long_term = long_term;
        self.today_notes = today_notes;
    }

    /// The long-term memory document.
    pub fn read_long_term(&self) -> (r: &Vec<u8>)
        ensures
            r@ == self.long_term@,
    {
        &self.long_term
    }

    /// Today's daily-notes document.
    pub fn read_today(&self) -> (r: &Vec<u8>)
        ensures
            r@ == self.today_notes@,
    {
        &self.today_notes
    }

    pub fn workspace(&self) -> (r: &Vec<u8>)
        ensures
            r@ == self.workspace@,
    {
        &self.workspace
    }

    pub fn memory_dir(&self) -> (r: &Vec<u8>)
        ensures
            r@ == self.memory_dir@,
    {
        &self.memory_dir
    }

    /// Path of today's daily-notes file.
    pub fn get_today_file(&self) -> (r: Vec<u8>)
        ensures
            r@ == self.memory_dir@ + "/".spec_bytes() + self.today@ + ".md".spec_bytes(),
    {
        let mut r = sub_bytes(self.memory_dir.as_slice(), 0, self.memory_dir.len());
        let sep = bytes_of("/");
        push_all(&mut r, sep.as_slice());
        push_all(&mut r, self.today.as_slice());
        let ext = bytes_of(".md");
        push_all(&mut r, ext.as_slice());
        proof {
            assert(r@ =~= self.memory_dir@ + "/".spec_bytes() + self.today@ + ".md".spec_bytes());
        }
        r
    }

    /// Append entries under `header` in the long-term document.
    pub fn append_section_entries(
        &mut self,
        header: &[u8],
        entries: &Vec<Vec<u8>>,
        max_section_chars: Option<usize>,
    )
        ensures
            final(self).same_paths(old(self)),
            entries@.len() == 0 ==> final(self).long_term@ == old(self).long_term@,
            entries@.len() > 0 ==> final(self).long_term@ == section_append_spec(
                old(self).long_term@,
                header@,
                join_nl_spec(entries.deep_view()),
                opt_int(max_section_chars),
            ),
    {
        if entries.len() == 0 {
            return;
        }
        let updated = section_append(
            self.long_term.as_slice(),
            header,
            entries,
            max_section_chars,
        );
        self.long_term = updated;
    }

    /// A dated bullet for `text`.
    fn dated_bullet(&self, text: &[u8]) -> (r: Vec<u8>)
        ensures
            r@ == bullet_spec(self.today@, text@),
    {
        let mut r = bytes_of("- [");
        push_all(&mut r, self.today.as_slice());
        let mid = bytes_of("] ");
        push_all(&mut r, mid.as_slice());
        push_all(&mut r, text);
        proof {
            assert(r@ =~= bullet_spec(self.today@, text@));
        }
        r
    }

    /// Append auto-extracted facts as dated bullets under the Extracted
    /// Notes section, trimming its oldest lines past the size budget.
    pub fn append_extracted_facts(&mut self, facts: &Vec<Vec<u8>>)
        ensures
            final(self).same_paths(old(self)),
            facts@.len() == 0 ==> final(self).long_term@ == old(self).long_term@,
            facts@.len() > 0 ==> final(self).long_term@ == section_append_spec(
                old(self).long_term@,
                extracted_header(),
                join_nl_spec(
                    Seq::new(
                        facts.deep_view().len(),
                        |i: int| bullet_spec(old(self).today@, facts.deep_view()[i]),
                    ),
                ),
                Some(MAX_EXTRACTED_NOTES_CHARS as int),
            ),
    {
        let mut entries: Vec<Vec<u8>> = Vec::new();
        let mut i: usize = 0;
        while i < facts.len()
            invariant
                i <= facts@.len(),
                entries@.len() == i,
                forall|j: int|
                    0 <= j < i ==> #[trigger] entries@[j]@ == bullet_spec(
                        self.today@,
                        facts@[j]@,
                    ),
            decreases facts@.len() - i,
        {
            let b = self.dated_bullet(facts[i].as_slice());
            entries.push(b);
            i = i + 1;
        }
        proof {
            let fv = facts.deep_view();
            assert(fv.len() == facts@.len());
            assert forall|j: int| 0 <= j < fv.len() implies #[trigger] entries.deep_view()[j]
                == bullet_spec(self.today@, fv[j]) by {
                assert(entries.deep_view()[j] =~= entries@[j]@);
                assert(fv[j] =~= facts@[j]@);
            }
            assert(entries.deep_view() =~~= Seq::new(
                fv.len(),
                |j: int| bullet_spec(self.today@, fv[j]),
            ));
        }
        let header = bytes_of("## Extracted Notes");
        self.append_section_entries(header.as_slice(), &entries, Some(MAX_EXTRACTED_NOTES_CHARS));
    }

    /// Append one trimmed, dated fact under the Remembered Facts section;
    /// facts that trim to nothing are dropped.
    pub fn append_remembered_fact(&mut self, fact: &str)
        ensures
            final(self).same_paths(old(self)),
            trim_spec(fact.spec_bytes()).len() == 0 ==> final(self).long_term@ == old(
                self,
            ).long_term@,
            trim_spec(fact.spec_bytes()).len() > 0 ==> final(self).long_term@
                == section_append_spec(
                old(self).long_term@,
                remembered_header(),
                bullet_spec(old(self).today@, trim_spec(fact.spec_bytes())),
                None,
            ),
    {
        let header = bytes_of("## Remembered Facts");
        self.append_dated_line(header.as_slice(), fact);
    }

    /// Append one trimmed, dated observation under the Conversation
    /// Observations section.
    pub fn append_conversation_observation(&mut self, observation: &str)
        ensures
            final(self).same_paths(old(self)),
            trim_spec(observation.spec_bytes()).len() == 0 ==> final(self).long_term@ == old(
                self,
            ).long_term@,
            trim_spec(observation.spec_bytes()).len() > 0 ==> final(self).long_term@
                == section_append_spec(
                old(self).long_term@,
                conversation_header(),
                bullet_spec(old(self).today@, trim_spec(observation.spec_bytes())),
                None,
            ),
    {
        let header = bytes_of("## Conversation Observations");
        self.append_dated_line(header.as_slice(), observation);
    }

    /// Append one trimmed, dated observation under the User Observations
    /// section.
    pub fn append_user_observation(&mut self, observation: &str)
        ensures
            final(self).same_paths(old(self)),
            trim_spec(observation.spec_bytes()).len() == 0 ==> final(self).long_term@ == old(
                self,
            ).long_term@,
            trim_spec(observation.spec_bytes()).len() > 0 ==> final(self).long_term@
                == section_append_spec(
                old(self).long_term@,
                user_obs_header(),
                bullet_spec(old(self).today@, trim_spec(observation.spec_bytes())),
                None,
            ),
    {
        let header = bytes_of("## User Observations");
        self.append_dated_line(header.as_slice(), observation);
    }

    /// Append one trimmed, dated observation under the User Observations
    /// section, given as bytes.
    pub fn append_user_observation_bytes(&mut self, observation: &[u8])
        ensures
            final(self).same_paths(old(self)),
            trim_spec(observation@).len() == 0 ==> final(self).long_term@ == old(
                self,
            ).long_term@,
            trim_spec(observation@).len() > 0 ==> final(self).long_term@ == section_append_spec(
                old(self).long_term@,
                user_obs_header(),
                bullet_spec(old(self).today@, trim_spec(observation@)),
                None,
            ),
    {
        let header = bytes_of("## User Observations");
        self.append_dated_line_bytes(header.as_slice(), observation);
    }

    /// Shared body of the single-line append helpers.
    fn append_dated_line(&mut self, header: &[u8], text: &str)
        ensures
            final(self).same_paths(old(self)),
            trim_spec(text.spec_bytes()).len() == 0 ==> final(self).long_term@ == old(
                self,
            ).long_term@,
            trim_spec(text.spec_bytes()).len() > 0 ==> final(self).long_term@
                == section_append_spec(
                old(self).long_term@,
                header@,
                bullet_spec(old(self).today@, trim_spec(text.spec_bytes())),
                None,
            ),
    {
        let raw = bytes_of(text);
        self.append_dated_line_bytes(header, raw.as_slice());
    }

    /// Byte-level core of the single-line append helpers.
    fn append_dated_line_bytes(&mut self, header: &[u8], text: &[u8])
        ensures
            final(self).same_paths(old(self)),
            trim_spec(text@).len() == 0 ==> final(self).long_term@ == old(self).long_term@,
            trim_spec(text@).len() > 0 ==> final(self).long_term@ == section_append_spec(
                old(self).long_term@,
                header@,
                bullet_spec(old(self).today@, trim_spec(text@)),
                None,
            ),
    {
        let trimmed = trim_bytes(text);
        if trimmed.len() == 0 {
            return;
        }
        let bullet = self.dated_bullet(trimmed.as_slice());
        let ghost bl = bullet@;
        let mut entries: Vec<Vec<u8>> = Vec::new();
        entries.push(bullet);
        proof {
            assert(entries.deep_view() =~~= seq![bl]);
            assert(join_nl_spec(seq![bl]) == bl);
        }
        self.append_section_entries(header, &entries, None);
    }

    /// Append one grounded fact with its source and two-decimal confidence,
    /// given in hundredths and clamped to `[0, 100]`.
    pub fn append_grounded_fact(&mut self, fact: &str, source: &str, confidence_hundredths: i64)
        ensures
            final(self).same_paths(old(self)),
            trim_spec(fact.spec_bytes()).len() == 0 ==> final(self).long_term@ == old(
                self,
            ).long_term@,
            trim_spec(fact.spec_bytes()).len() > 0 ==> final(self).long_term@
                == section_append_spec(
                old(self).long_term@,
                grounded_header(),
                bullet_spec(
                    old(self).today@,
                    trim_spec(fact.spec_bytes()) + " (source: ".spec_bytes() + (
                    if trim_spec(source.spec_bytes()).len() == 0 {
                        "unknown".spec_bytes()
                    } else {
                        trim_spec(source.spec_bytes())
                    }) + ", confidence: ".spec_bytes() + confidence_bytes(
                        confidence_hundredths as int,
                    ) + ")".spec_bytes(),
                ),
                None,
            ),
    {
        let raw = bytes_of(fact);
        let trimmed = trim_bytes(raw.as_slice());
        if trimmed.len() == 0 {
            return;
        }
        let src_raw = bytes_of(source);
        let src_trimmed = trim_bytes(src_raw.as_slice());
        let src = if src_trimmed.len() == 0 {
            bytes_of("unknown")
        } else {
            src_trimmed
        };
        let conf = format_confidence(confidence_hundredths);
        let mut text = trimmed;
        let open_part = bytes_of(" (source: ");
        push_all(&mut text, open_part.as_slice());
        push_all(&mut text, src.as_slice());
        let mid_part = bytes_of(", confidence: ");
        push_all(&mut text, mid_part.as_slice());
        push_all(&mut text, conf.as_slice());
        let close_part = bytes_of(")");
        push_all(&mut text, close_part.as_slice());
        let bullet = self.dated_bullet(text.as_slice());
        let ghost bl = bullet@;
        let mut entries: Vec<Vec<u8>> = Vec::new();
        entries.push(bullet);
        let header = bytes_of("## Grounded Facts");
        proof {
            assert(entries.deep_view() =~~= seq![bl]);
            assert(join_nl_spec(seq![bl]) == bl);
        }
        self.append_section_entries(header.as_slice(), &entries, None);
    }

    /// Blend the long-term document and today's notes into one bounded
    /// context: sixty percent of the budget for long-term memory, the rest
    /// for today's notes, each truncated at a friendly boundary.
    pub fn get_memory_context(&self, max_chars: usize) -> (r: Vec<u8>)
        requires
            max_chars <= 100_000_000,
        ensures
            r@ == memory_context_spec(self.long_term@, self.today_notes@, max_chars as int),
    {
        let budget = max_chars * 3 / 5;
        let mut remaining = max_chars;
        let mut r: Vec<u8> = Vec::new();
        let has_long_term = self.long_term.len() > 0;
        if has_long_term {
            let lt = truncate(self.long_term.as_slice(), budget);
            let head = bytes_of("## Long-term Memory\n");
            push_all(&mut r, head.as_slice());
            push_all(&mut r, lt.as_slice());
            remaining = if max_chars >= lt.len() {
                max_chars - lt.len()
            } else {
                0
            };
        }
        if self.today_notes.len() > 0 && remaining > 100 {
            if has_long_term {
                let sep = bytes_of("\n\n");
                push_all(&mut r, sep.as_slice());
            }
            let head = bytes_of("## Today's Notes\n");
            push_all(&mut r, head.as_slice());
            let tn = truncate(self.today_notes.as_slice(), remaining);
            push_all(&mut r, tn.as_slice());
        }
        proof {
            assert(r@ =~= memory_context_spec(
                self.long_term@,
                self.today_notes@,
                max_chars as int,
            ));
        }
        r
    }
}

/// Two-decimal confidence text from hundredths.
fn format_confidence(c: i64) -> (r: Vec<u8>)
    ensures
        r@ == confidence_bytes(c as int),
{
    if c >= 100 {
        bytes_of("1.00")
    } else if c <= 0 {
        bytes_of("0.00")
    } else {
        let mut r: Vec<u8> = Vec::new();
        r.push(48u8);
        r.push(46u8);
        r.push(48u8 + (c / 10) as u8);
        r.push(48u8 + (c % 10) as u8);
        proof {
            assert(r@ =~= confidence_bytes(c as int));
        }
        r
    }
}

/// The memory context assembled from the two documents under a character
/// budget.
pub open spec fn memory_context_spec(long_term: Seq<u8>, today: Seq<u8>, max: int) -> Seq<u8> {
    let budget = max * 3 / 5;
    let lt = truncate_spec(long_term, budget);
    let remaining = if long_term.len() > 0 {
        if max >= lt.len() {
            max - lt.len()
        } else {
            0
        }
    } else {
        max
    };
    let has1 = long_term.len() > 0;
    let has2 = today.len() > 0 && remaining > 100;
    let p1 = "## Long-term Memory\n".spec_bytes() + lt;
    let p2 = "## Today's Notes\n".spec_bytes() + truncate_spec(today, remaining);
    if has1 && has2 {
        p1 + "\n\n".spec_bytes() + p2
    } else if has1 {
        p1
    } else if has2 {
        p2
    } else {
        Seq::empty()
    }
}

/// Appending under an existing section heading keeps everything before the
/// section body, and everything from the next `## ` heading onward,
/// byte for byte.
pub proof fn lemma_section_append_preserves_rest(
    doc: Seq<u8>,
    header: Seq<u8>,
    new_lines: Seq<u8>,
    max: Option<int>,
)
    requires
        find_from(doc, header, 0) is Some,
    ensures
        ({
            let hs = find_from(doc, header, 0)->Some_0;
            let after = hs + header.len() as int;
            let rest = doc.subrange(after, doc.len() as int);
            let se = match find_from(rest, "\n## ".spec_bytes(), 0) {
                Some(i) => i,
                None => rest.len() as int,
            };
            let r = section_append_spec(doc, header, new_lines, max);
            let kept_tail = rest.subrange(se, rest.len() as int);
            &&& r.len() >= after + 1 + kept_tail.len()
            &&& r.subrange(0, after) == doc.subrange(0, after)
            &&& r.subrange(r.len() - kept_tail.len(), r.len() as int) == kept_tail
        }),
{
    let hs = find_from(doc, header, 0)->Some_0;
    lemma_find_from_some(doc, header, 0);
    let after = hs + header.len() as int;
    let rest = doc.subrange(after, doc.len() as int);
    let se = match find_from(rest, "\n## ".spec_bytes(), 0) {
        Some(i) => i,
        None => rest.len() as int,
    };
    if find_from(rest, "\n## ".spec_bytes(), 0) is Some {
        lemma_find_from_some(rest, "\n## ".spec_bytes(), 0);
    }
    let r = section_append_spec(doc, header, new_lines, max);
    let kept_tail = rest.subrange(se, rest.len() as int);
    assert(r.subrange(0, after) =~= doc.subrange(0, after));
    assert(r.subrange(r.len() - kept_tail.len(), r.len() as int) =~= kept_tail);
}

/// With no size budget, the joined entries stand verbatim in the document
/// that the append produces: no entry is lost.
pub proof fn lemma_section_append_contains(doc: Seq<u8>, header: Seq<u8>, new_lines: Seq<u8>)
    ensures
        contains_bytes(section_append_spec(doc, header, new_lines, None), new_lines),
{
    let r = section_append_spec(doc, header, new_lines, None);
    match find_from(doc, header, 0) {
        Some(hs) => {
            lemma_find_from_some(doc, header, 0);
            let after = hs + header.len() as int;
            let rest = doc.subrange(after, doc.len() as int);
            let se = match find_from(rest, "\n## ".spec_bytes(), 0) {
                Some(i) => i,
                None => rest.len() as int,
            };
            if find_from(rest, "\n## ".spec_bytes(), 0) is Some {
                lemma_find_from_some(rest, "\n## ".spec_bytes(), 0);
            }
            let body = trim_leading_nl(rest.subrange(0, se));
            let start = if body.len() == 0 {
                after + 1
            } else {
                after + 1 + body.len() + 1
            };
            assert(r.subrange(start, start + new_lines.len() as int) =~= new_lines);
            assert(match_at(r, new_lines, start));
        },
        None => {
            let base = if doc.len() > 0 && doc[doc.len() - 1] != 10 {
                doc + seq![10u8]
            } else {
                doc
            };
            let start = base.len() + 1 + header.len() + 1;
            assert(r.subrange(start as int, start + new_lines.len() as int) =~= new_lines);
            assert(match_at(r, new_lines, start as int));
        },
    }
}

} // verus!
