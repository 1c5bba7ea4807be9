//! The memory tools' argument handling and the file-backed search logic.
//!
//! Network calls, the tool-schema plumbing and the vector-backed paths are
//! the caller's; the path rules, line scanning and slicing live here.

use vstd::prelude::*;
use vstd::string::StringSliceAdditionalSpecFns;

use crate::agent::lower_seq;
use crate::file_store::{
    bullet_spec, confidence_bytes, conversation_header, grounded_header, join_nl, join_nl_spec,
    remembered_header, section_append_spec, user_obs_header, MemoryStore,
};
use crate::text::{
    bytes_eq, bytes_of, contains_bytes, contains_sub, lines_spec, split_lines, sub_bytes,
    to_lower, trim_bytes, trim_spec,
};

verus! {

/// A tool-call failure carrying its description.
pub struct ToolError {
    pub message: String,
}

impl ToolError {
    /// Wrap a description.
    pub fn msg(msg: &str) -> (r: Self)
        ensures
            r.message@ == msg@,
    {
        ToolError { message: msg.to_owned() }
    }
}

/// The kind of a remembered record.
pub enum RememberKind {
    RememberedFact,
    ConversationObservation,
    UserObservation,
    GroundedFact,
}

impl RememberKind {
    pub fn as_str(&self) -> (r: &'static str)
        ensures
            self is RememberedFact ==> r@ == "remembered_fact"@,
            self is ConversationObservation ==> r@ == "conversation_observation"@,
            self is UserObservation ==> r@ == "user_observation"@,
            self is GroundedFact ==> r@ == "grounded_fact"@,
    {
        match self {
            RememberKind::RememberedFact => "remembered_fact",
            RememberKind::ConversationObservation => "conversation_observation",
            RememberKind::UserObservation => "user_observation",
            RememberKind::GroundedFact => "grounded_fact",
        }
    }
}

/// The kind named by a remember request, exactly as the tool schema spells
/// it.
pub open spec fn remember_kind_parse_spec(raw: Seq<u8>) -> Option<RememberKind> {
    if raw == "remembered_fact".spec_bytes() {
        Some(RememberKind::RememberedFact)
    } else if raw == "conversation_observation".spec_bytes() {
        Some(RememberKind::ConversationObservation)
    } else if raw == "user_observation".spec_bytes() {
        Some(RememberKind::UserObservation)
    } else if raw == "grounded_fact".spec_bytes() {
        Some(RememberKind::GroundedFact)
    } else {
        None
    }
}

impl RememberKind {
    /// Parse a kind name.
    pub fn parse(raw: &str) -> (r: Option<Self>)
        ensures
            r == remember_kind_parse_spec(raw.spec_bytes()),
    {
        let b = bytes_of(raw);
        if bytes_eq(b.as_slice(), bytes_of("remembered_fact").as_slice()) {
            Some(RememberKind::RememberedFact)
        } else if bytes_eq(b.as_slice(), bytes_of("conversation_observation").as_slice()) {
            Some(RememberKind::ConversationObservation)
        } else if bytes_eq(b.as_slice(), bytes_of("user_observation").as_slice()) {
            Some(RememberKind::UserObservation)
        } else if bytes_eq(b.as_slice(), bytes_of("grounded_fact").as_slice()) {
            Some(RememberKind::GroundedFact)
        } else {
            None
        }
    }
}

impl Default for RememberKind {
    /// A plain remembered fact, unless the caller says otherwise.
    fn default() -> (r: Self)
        ensures
            r is RememberedFact,
    {
        RememberKind::RememberedFact
    }
}

/// Arguments of the memory-search tool.
pub struct MemorySearchArgs {
    pub query: String,
    pub max_results: usize,
    pub namespace: Option<String>,
}

/// Arguments of the memory-get tool.
pub struct MemoryGetArgs {
    pub path: String,
    pub namespace: Option<String>,
    pub from: Option<usize>,
    pub lines: Option<usize>,
}

/// The long-term document after one remember request: the kind picks the
/// section and the line format; blank content writes nothing.
pub open spec fn remember_doc_spec(
    doc: Seq<u8>,
    today: Seq<u8>,
    kind: RememberKind,
    content: Seq<u8>,
    source: Seq<u8>,
    confidence_hundredths: int,
) -> Seq<u8> {
    if trim_spec(content).len() == 0 {
        doc
    } else {
        match kind {
            RememberKind::RememberedFact => section_append_spec(
                doc,
                remembered_header(),
                bullet_spec(today, trim_spec(content)),
                None,
            ),
            RememberKind::ConversationObservation => section_append_spec(
                doc,
                conversation_header(),
                bullet_spec(today, trim_spec(content)),
                None,
            ),
            RememberKind::UserObservation => section_append_spec(
                doc,
                user_obs_header(),
                bullet_spec(today, trim_spec(content)),
                None,
            ),
            RememberKind::GroundedFact => section_append_spec(
                doc,
                grounded_header(),
                bullet_spec(
                    today,
                    trim_spec(content) + " (source: ".spec_bytes() + (if trim_spec(
                        source,
                    ).len() == 0 {
                        "unknown".spec_bytes()
                    } else {
                        trim_spec(source)
                    }) + ", confidence: ".spec_bytes() + confidence_bytes(confidence_hundredths)
                        + ")".spec_bytes(),
                ),
                None,
            ),
        }
    }
}

/// Route one remember request to the section its kind names.
pub fn append_remembered(
    memory: &mut MemoryStore,
    kind: &RememberKind,
    content: &str,
    source: &str,
    confidence_hundredths: i64,
)
    ensures
        final(memory).same_paths(old(memory)),
        final(memory).long_term@ == remember_doc_spec(
            old(memory).long_term@,
            old(memory).today@,
            *kind,
            content.spec_bytes(),
            source.spec_bytes(),
            confidence_hundredths as int,
        ),
{
    match kind {
        RememberKind::RememberedFact => memory.append_remembered_fact(content),
        RememberKind::ConversationObservation => memory.append_conversation_observation(content),
        RememberKind::UserObservation => memory.append_user_observation(content),
        RememberKind::GroundedFact => memory.append_grounded_fact(
            content,
            source,
            confidence_hundredths,
        ),
    }
}

/// Results returned by default when the caller names no count.
pub fn default_max_results() -> (r: usize)
    ensures
        r == 6,
{
    6
}

/// A daily note file name: `YYYY-MM-DD.md`.
pub open spec fn daily_file_spec(s: Seq<u8>) -> bool {
    &&& s.len() == 13
    &&& s.subrange(10, 13) == ".md".spec_bytes()
    &&& forall|i: int|
        0 <= i < 10 ==> if i == 4 || i == 7 {
            s[i] == 45
        } else {
            48 <= #[trigger] s[i] <= 57
        }
}

/// Is this the name of a daily note file?
pub fn is_daily_memory_file(name: &str) -> (r: bool)
    ensures
        r == daily_file_spec(name.spec_bytes()),
{
    let b = bytes_of(name);
    if b.len() != 13 {
        return false;
    }
    let ext = sub_bytes(b.as_slice(), 10, 13);
    if !bytes_eq(ext.as_slice(), bytes_of(".md").as_slice()) {
        proof {
            assert(ext@ =~= name.spec_bytes().subrange(10, 13));
        }
        return false;
    }
    proof {
        assert(ext@ =~= name.spec_bytes().subrange(10, 13));
    }
    let mut i: usize = 0;
    while i < 10
        invariant
            i <= 10,
            b@ == name.spec_bytes(),
            b@.len() == 13,
            forall|j: int|
                0 <= j < i ==> if j == 4 || j == 7 {
                    b@[j] == 45
                } else {
                    48 <= #[trigger] b@[j] <= 57
                },
        decreases 10 - i,
    {
        let c = b[i];
        if i == 4 || i == 7 {
            if c != 45 {
                return false;
            }
        } else {
            if !(48 <= c && c <= 57) {
                return false;
            }
        }
        i = i + 1;
    }
    true
}

/// A path the memory-get tool may read: the long-term document or a daily
/// note.
pub open spec fn allowed_path_spec(s: Seq<u8>) -> bool {
    s == "MEMORY.md".spec_bytes() || daily_file_spec(s)
}

/// May the memory-get tool read this file?
pub fn allowed_memory_path(name: &str) -> (r: bool)
    ensures
        r == allowed_path_spec(name.spec_bytes()),
{
    let b = bytes_of(name);
    if bytes_eq(b.as_slice(), bytes_of("MEMORY.md").as_slice()) {
        return true;
    }
    is_daily_memory_file(name)
}

/// A memory path normalized: trimmed, with a `memory/` prefix dropped;
/// nothing for blank input.
pub open spec fn normalize_path_spec(s: Seq<u8>) -> Option<Seq<u8>> {
    let t = trim_spec(s);
    if t.len() == 0 {
        None
    } else if t.len() >= 7 && t.subrange(0, 7) == "memory/".spec_bytes() {
        Some(t.skip(7))
    } else {
        Some(t)
    }
}

/// Normalize a memory path.
pub fn normalize_memory_path(path: &str) -> (r: Option<Vec<u8>>)
    ensures
        r is Some ==> Some(r->Some_0@) == normalize_path_spec(path.spec_bytes()),
        r is None ==> normalize_path_spec(path.spec_bytes()) is None,
{
    let b = bytes_of(path);
    let t = trim_bytes(b.as_slice());
    if t.len() == 0 {
        return None;
    }
    let prefix = bytes_of("memory/");
    if t.len() >= 7 {
        let head = sub_bytes(t.as_slice(), 0, 7);
        proof {
            assert(head@ =~= trim_spec(path.spec_bytes()).subrange(0, 7));
        }
        if bytes_eq(head.as_slice(), prefix.as_slice()) {
            let rest = sub_bytes(t.as_slice(), 7, t.len());
            proof {
                assert(rest@ =~= trim_spec(path.spec_bytes()).skip(7));
            }
            return Some(rest);
        }
    }
    Some(t)
}

/// One file offered to the keyword search: its path and its contents.
pub struct FileSource {
    pub path: Vec<u8>,
    pub content: Vec<u8>,
}

/// One keyword hit: the file it came from and the trimmed matching line.
pub struct FileHit {
    pub path: Vec<u8>,
    pub snippet: Vec<u8>,
}

/// The hits of one file, scanning its lines in order: a line hits when its
/// lowercased text holds the query and it is not blank. The scan of a file
/// stops once `max` total results stand, though a later file may still add
/// more - mirroring the per-file cut-off of the tool.
pub open spec fn scan_lines_spec(
    lines: Seq<Seq<u8>>,
    ql: Seq<u8>,
    path: Seq<u8>,
    count: int,
    max: int,
) -> Seq<(Seq<u8>, Seq<u8>)>
    decreases lines.len()
{
    if lines.len() == 0 || count >= max {
        Seq::empty()
    } else {
        let l = lines[0];
        if contains_bytes(lower_seq(l), ql) && trim_spec(l).len() > 0 {
            seq![(path, trim_spec(l))] + scan_lines_spec(
                lines.drop_first(),
                ql,
                path,
                count + 1,
                max,
            )
        } else {
            scan_lines_spec(lines.drop_first(), ql, path, count, max)
        }
    }
}

/// The hits over all files, threading the running count.
pub open spec fn scan_sources_spec(
    sources: Seq<(Seq<u8>, Seq<u8>)>,
    ql: Seq<u8>,
    count: int,
    max: int,
) -> Seq<(Seq<u8>, Seq<u8>)>
    decreases sources.len()
{
    if sources.len() == 0 {
        Seq::empty()
    } else {
        let here = scan_lines_spec(lines_spec(sources[0].1), ql, sources[0].0, count, max);
        here + scan_sources_spec(sources.drop_first(), ql, count + here.len(), max)
    }
}

/// The view of the sources.
pub open spec fn sources_view(sources: Seq<FileSource>) -> Seq<(Seq<u8>, Seq<u8>)> {
    Seq::new(sources.len(), |i: int| (sources[i].path@, sources[i].content@))
}

/// The view of the hits.
pub open spec fn hits_view(hits: Seq<FileHit>) -> Seq<(Seq<u8>, Seq<u8>)> {
    Seq::new(hits.len(), |i: int| (hits[i].path@, hits[i].snippet@))
}

/// Keyword search over memory files: each file's lines are scanned in order
/// for the lowercased query.
pub fn search_memory_sources(sources: &Vec<FileSource>, query: &str, max_results: usize) -> (r:
    Vec<FileHit>)
    ensures
        hits_view(r@) == scan_sources_spec(
            sources_view(sources@),
            lower_seq(query.spec_bytes()),
            0,
            max_results as int,
        ),
{
    let qraw = bytes_of(query);
    let ql = to_lower(qraw.as_slice());
    proof {
        assert(ql@ =~= lower_seq(query.spec_bytes()));
    }
    let mut hits: Vec<FileHit> = Vec::new();
    let mut si: usize = 0;
    let ghost sv = sources_view(sources@);
    proof {
        assert(hits_view(hits@) =~= Seq::<(Seq<u8>, Seq<u8>)>::empty());
        assert(sv.skip(0) =~= sv);
    }
    while si < sources.len()
        invariant
            si <= sources@.len(),
            sv == sources_view(sources@),
            sv.len() == sources@.len(),
            ql@ == lower_seq(query.spec_bytes()),
            hits@.len() <= max_results,
            scan_sources_spec(sv, ql@, 0, max_results as int) == hits_view(hits@)
                + scan_sources_spec(
                sv.skip(si as int),
                ql@,
                hits@.len() as int,
                max_results as int,
            ),
        decreases sources@.len() - si,
    {
        let ghost pre_hits = hits_view(hits@);
        let ghost rest = sv.skip(si as int);
        proof {
            assert(rest[0] == (sources@[si as int].path@, sources@[si as int].content@));
            assert(rest.drop_first() =~= sv.skip(si + 1));
        }
        let lines = split_lines(sources[si].content.as_slice());
        let ghost lv = lines.deep_view();
        let mut li: usize = 0;
        proof {
            assert(lv.skip(0) =~= lv);
        }
        while li < lines.len() && hits.len() < max_results
            invariant
                li <= lines@.len(),
                lv == lines.deep_view(),
                lv == lines_spec(sources@[si as int].content@),
                lv.len() == lines@.len(),
                si < sources@.len(),
                sv == sources_view(sources@),
                ql@ == lower_seq(query.spec_bytes()),
                hits@.len() <= max_results,
                pre_hits.len() <= hits@.len(),
                hits_view(hits@).take(pre_hits.len() as int) == pre_hits,
                scan_lines_spec(
                    lv,
                    ql@,
                    sources@[si as int].path@,
                    pre_hits.len() as int,
                    max_results as int,
                ) == hits_view(hits@).skip(pre_hits.len() as int) + scan_lines_spec(
                    lv.skip(li as int),
                    ql@,
                    sources@[si as int].path@,
                    hits@.len() as int,
                    max_results as int,
                ),
            decreases lines@.len() - li,
        {
            let ghost lrest = lv.skip(li as int);
            let ghost pre_inner = hits_view(hits@);
            proof {
                assert(lrest[0] =~= lv[li as int]);
                assert(lv[li as int] =~= lines@[li as int]@);
                assert(lrest.drop_first() =~= lv.skip(li + 1));
            }
            let low = to_lower(lines[li].as_slice());
            proof {
                assert(low@ =~= lower_seq(lines@[li as int]@));
            }
            let t = trim_bytes(lines[li].as_slice());
            if contains_sub(low.as_slice(), ql.as_slice()) && t.len() > 0 {
                let hit = FileHit {
                    path: sub_bytes(sources[si].path.as_slice(), 0, sources[si].path.len()),
                    snippet: t,
                };
                proof {
                    assert(hit.path@ =~= sources@[si as int].path@);
                }
                hits.push(hit);
                proof {
                    assert(hits_view(hits@) =~= pre_inner.push(
                        (sources@[si as int].path@, trim_spec(lines@[li as int]@)),
                    ));
                    assert(hits_view(hits@).take(pre_hits.len() as int) =~= pre_hits);
                    assert(hits_view(hits@).skip(pre_hits.len() as int) =~= pre_inner.skip(
                        pre_hits.len() as int,
                    ).push((sources@[si as int].path@, trim_spec(lines@[li as int]@))));
                }
            }
            li = li + 1;
        }
        proof {
            if hits@.len() < max_results {
                assert(lv.skip(lv.len() as int) =~= Seq::<Seq<u8>>::empty());
            }
            assert(scan_lines_spec(
                lv,
                ql@,
                sources@[si as int].path@,
                pre_hits.len() as int,
                max_results as int,
            ) =~= hits_view(hits@).skip(pre_hits.len() as int));
            assert(scan_sources_spec(rest, ql@, pre_hits.len() as int, max_results as int)
                =~= hits_view(hits@).skip(pre_hits.len() as int) + scan_sources_spec(
                sv.skip(si + 1),
                ql@,
                hits@.len() as int,
                max_results as int,
            ));
            assert(hits_view(hits@) =~= pre_hits + hits_view(hits@).skip(pre_hits.len() as int));
        }
        si = si + 1;
    }
    proof {
        assert(sv.skip(sv.len() as int) =~= Seq::<(Seq<u8>, Seq<u8>)>::empty());
        assert(scan_sources_spec(sv, ql@, 0, max_results as int) =~= hits_view(hits@));
    }
    hits
}

/// The requested line window of a document: everything, or `lines` lines
/// starting at one-based line `from`, joined with line feeds.
pub open spec fn line_window_spec(content: Seq<u8>, from: Option<int>, lines: Option<int>) -> Seq<
    u8,
> {
    if from is Some && lines is Some {
        let ls = lines_spec(content);
        let f = if from->Some_0 >= 1 {
            from->Some_0 - 1
        } else {
            0
        };
        let f2 = if f <= ls.len() {
            f
        } else {
            ls.len() as int
        };
        let n = if lines->Some_0 <= ls.len() - f2 {
            lines->Some_0
        } else {
            ls.len() - f2
        };
        join_nl_spec(ls.subrange(f2, f2 + n))
    } else {
        content
    }
}

/// Cut a document to the requested one-based line window.
pub fn slice_line_window(content: &[u8], from: Option<usize>, lines: Option<usize>) -> (r: Vec<
    u8,
>)
    ensures
        r@ == line_window_spec(content@, opt_val(from), opt_val(lines)),
{
    let (f_raw, n_raw): (usize, usize) = match (from, lines) {
        (Some(f), Some(n)) => (f, n),
        _ => {
            return sub_bytes(content, 0, content.len());
        },
    };
    let all = split_lines(content);
    let f: usize = if f_raw >= 1 {
        f_raw - 1
    } else {
        0
    };
    let f2: usize = if f <= all.len() {
        f
    } else {
        all.len()
    };
    let n: usize = if n_raw <= all.len() - f2 {
        n_raw
    } else {
        all.len() - f2
    };
    let mut window: Vec<Vec<u8>> = Vec::new();
    let mut i: usize = f2;
    let end: usize = f2 + n;
    while i < end
        invariant
            end == f2 + n,
            f2 <= i <= f2 + n <= all@.len(),
            window@.len() == i - f2,
            forall|j: int| 0 <= j < window@.len() ==> #[trigger] window@[j]@ == all@[f2 + j]@,
        decreases end - i,
    {
        let line = sub_bytes(all[i].as_slice(), 0, all[i].len());
        proof {
            assert(line@ =~= all@[i as int]@);
        }
        window.push(line);
        i = i + 1;
    }
    let r = join_nl(&window);
    proof {
        assert(window.deep_view() =~~= all.deep_view().subrange(f2 as int, f2 + n));
    }
    r
}

/// The spec view of an optional count.
pub open spec fn opt_val(o: Option<usize>) -> Option<int> {
    match o {
        Some(v) => Some(v as int),
        None => None,
    }
}

} // verus!
