//! Per-turn orchestration: session namespaces, observation extraction,
//! failure classification and retry policy, history compaction, and the
//! incremental summarization scheduler's decisions.
//!
//! The loop that performs completions, sleeps and spawns tasks lives with
//! the caller; everything here is a decision or a text transformation.
//!
//! Whitespace, throughout, is the ASCII class: the memory formats are
//! ASCII-framed, and multi-byte text passes through as opaque non-whitespace
//! (character boundaries are still respected wherever text is cut).

use vstd::prelude::*;
use vstd::string::StringSliceAdditionalSpecFns;
use vstd::string::StringExecFns;

use crate::text::{
    bytes_eq, bytes_of, char_count, chars_prefix_end, contains_bytes, contains_sub, count_chars,
    is_ws, is_ws_byte, lines_spec, lower8, push_all, split_lines, sub_bytes, take_chars,
    to_lower, trim_bytes, trim_spec,
};
use crate::vector_store::sanitize_namespace_spec;
use crate::vector_store::validate_namespace;

verus! {

/// Retries allowed on one provider route before falling through.
pub const PER_ROUTE_MAX_RETRIES: usize = 2;

/// Summarize after this many new user turns.
pub const SUMMARY_TRIGGER_USER_TURNS: usize = 3;

/// Preceding messages kept for pronoun and reference resolution.
pub const SUMMARY_CONTEXT_MESSAGES: usize = 6;

/// Hard cap on messages handed to the summarizer.
pub const SUMMARY_MAX_WINDOW_MESSAGES: usize = 18;

/// Who said a turn.
pub enum Role {
    User,
    Assistant,
}

/// One conversation turn.
pub struct ChatMessage {
    pub role: Role,
    pub content: Vec<u8>,
}

impl Role {
    pub fn as_str(&self) -> (r: &'static str)
        ensures
            self is User ==> r@ == "user"@,
            self is Assistant ==> r@ == "assistant"@,
    {
        match self {
            Role::User => "user",
            Role::Assistant => "assistant",
        }
    }
}

/// The namespace of a session: its key sanitized, or `default` for an empty
/// key.
pub fn session_namespace(session_key: &str) -> (r: Vec<u8>)
    ensures
        session_key.spec_bytes().len() == 0 ==> r@ == "default".spec_bytes(),
        session_key.spec_bytes().len() > 0 ==> r@ == sanitize_namespace_spec(
            session_key.spec_bytes(),
        ),
{
    let raw = bytes_of(session_key);
    match validate_namespace(raw.as_slice()) {
        Ok(ns) => ns,
        Err(_) => bytes_of("default"),
    }
}

/// The first-person trigger phrases of the observation heuristic.
pub open spec fn obs_triggers() -> Seq<Seq<u8>> {
    seq![
        "i prefer".spec_bytes(),
        "i am".spec_bytes(),
        "i'm".spec_bytes(),
        "my name is".spec_bytes(),
        "i live".spec_bytes(),
        "i work".spec_bytes(),
        "i need".spec_bytes(),
        "i want".spec_bytes(),
        "remember that".spec_bytes(),
    ]
}

/// ASCII-lowercased bytes.
pub open spec fn lower_seq(s: Seq<u8>) -> Seq<u8> {
    Seq::new(s.len(), |i: int| lower8(s[i]))
}

/// A line qualifies as a user observation: trimmed length in `[12, 220]`
/// and a trigger phrase somewhere in its lowercased form.
pub open spec fn obs_line_ok(line: Seq<u8>) -> bool {
    let t = trim_spec(line);
    &&& 12 <= t.len() <= 220
    &&& exists|k: int|
        0 <= k < obs_triggers().len() && contains_bytes(lower_seq(t), #[trigger] obs_triggers()[k])
}

/// The observations extracted from `lines`: qualifying lines, deduplicated
/// by lowercased text, at most `remaining` more of them (one more when
/// `remaining` is zero, as the cap is tested after a line is kept).
pub open spec fn extract_obs(lines: Seq<Seq<u8>>, remaining: int, seen: Seq<Seq<u8>>) -> Seq<
    Seq<u8>,
>
    decreases lines.len()
{
    if lines.len() == 0 {
        Seq::empty()
    } else {
        let t = trim_spec(lines[0]);
        let low = lower_seq(t);
        if obs_line_ok(lines[0]) && !seen.contains(low) {
            if remaining <= 1 {
                seq![t]
            } else {
                seq![t] + extract_obs(lines.drop_first(), remaining - 1, seen.push(low))
            }
        } else {
            extract_obs(lines.drop_first(), remaining, seen)
        }
    }
}

/// Does this line qualify as a user observation?
fn obs_line_check(line: &[u8]) -> (r: bool)
    ensures
        r == obs_line_ok(line@),
{
    let t = trim_bytes(line);
    if t.len() < 12 || t.len() > 220 {
        return false;
    }
    let low = to_lower(t.as_slice());
    proof {
        assert(low@ =~= lower_seq(trim_spec(line@)));
    }
    let mut triggers: Vec<Vec<u8>> = Vec::new();
    triggers.push(bytes_of("i prefer"));
    triggers.push(bytes_of("i am"));
    triggers.push(bytes_of("i'm"));
    triggers.push(bytes_of("my name is"));
    triggers.push(bytes_of("i live"));
    triggers.push(bytes_of("i work"));
    triggers.push(bytes_of("i need"));
    triggers.push(bytes_of("i want"));
    triggers.push(bytes_of("remember that"));
    proof {
        assert(triggers.deep_view() =~~= obs_triggers());
    }
    let mut k: usize = 0;
    while k < triggers.len()
        invariant
            k <= triggers@.len(),
            triggers.deep_view() =~~= obs_triggers(),
            low@ == lower_seq(trim_spec(line@)),
            12 <= trim_spec(line@).len() <= 220,
            forall|j: int|
                0 <= j < k ==> !contains_bytes(low@, #[trigger] triggers.deep_view()[j]),
        decreases triggers@.len() - k,
    {
        if contains_sub(low.as_slice(), triggers[k].as_slice()) {
            proof {
                assert(triggers@[k as int]@ =~= triggers.deep_view()[k as int]);
                assert(contains_bytes(lower_seq(trim_spec(line@)), obs_triggers()[k as int]));
                assert(obs_line_ok(line@));
            }
            return true;
        }
        proof {
            assert(triggers@[k as int]@ =~= triggers.deep_view()[k as int]);
        }
        k = k + 1;
    }
    false
}

/// Extract up to `max_items` short first-person observations from `text`,
/// line by line, deduplicating by lowercased text.
pub fn extract_user_observations(text: &str, max_items: usize) -> (r: Vec<Vec<u8>>)
    ensures
        r.deep_view() == extract_obs(
            lines_spec(text.spec_bytes()),
            max_items as int,
            Seq::empty(),
        ),
{
    let raw = bytes_of(text);
    let lines = split_lines(raw.as_slice());
    let mut out: Vec<Vec<u8>> = Vec::new();
    let mut seen: Vec<Vec<u8>> = Vec::new();
    let mut i: usize = 0;
    let ghost all = lines.deep_view();
    proof {
        assert(raw@ == text.spec_bytes());
        assert(all.skip(0) =~= all);
        assert(out.deep_view() =~~= Seq::<Seq<u8>>::empty());
        assert(seen.deep_view() =~~= Seq::<Seq<u8>>::empty());
    }
    while i < lines.len()
        invariant
            i <= lines@.len(),
            all == lines.deep_view(),
            all == lines_spec(text.spec_bytes()),
            all.len() == lines@.len(),
            out@.len() <= max_items,
            extract_obs(all, max_items as int, Seq::empty()) == out.deep_view() + extract_obs(
                all.skip(i as int),
                max_items - out@.len(),
                seen.deep_view(),
            ),
        decreases lines@.len() - i,
    {
        let ghost pre_out = out.deep_view();
        let ghost pre_seen = seen.deep_view();
        let ghost rest = all.skip(i as int);
        proof {
            assert(rest[0] =~= all[i as int]);
            assert(all[i as int] =~= lines@[i as int]@);
            assert(rest.drop_first() =~= all.skip(i + 1));
        }
        if obs_line_check(lines[i].as_slice()) {
            let t = trim_bytes(lines[i].as_slice());
            let low = to_lower(t.as_slice());
            proof {
                assert(low@ =~= lower_seq(trim_spec(lines@[i as int]@)));
            }
            let mut dup = false;
            let mut sj: usize = 0;
            while sj < seen.len()
                invariant
                    sj <= seen@.len(),
                    pre_seen == seen.deep_view(),
                    pre_seen.len() == seen@.len(),
                    dup ==> pre_seen.contains(low@),
                    !dup ==> forall|v: int| 0 <= v < sj ==> pre_seen[v] != low@,
                decreases seen@.len() - sj,
            {
                if bytes_eq(seen[sj].as_slice(), low.as_slice()) {
                    proof {
                        assert(pre_seen[sj as int] =~= seen@[sj as int]@);
                    }
                    dup = true;
                }
                proof {
                    assert(pre_seen[sj as int] =~= seen@[sj as int]@);
                }
                sj = sj + 1;
            }
            proof {
                if !dup {
                    if pre_seen.contains(low@) {
                        let v = choose|v: int| 0 <= v < pre_seen.len() && pre_seen[v] == low@;
                        assert(false);
                    }
                }
            }
            if !dup {
                out.push(t);
                seen.push(low);
                proof {
                    assert(out.deep_view() =~~= pre_out.push(trim_spec(lines@[i as int]@)));
                    assert(seen.deep_view() =~~= pre_seen.push(
                        lower_seq(trim_spec(lines@[i as int]@)),
                    ));
                }
                if out.len() >= max_items {
                    proof {
                        assert(extract_obs(rest, max_items - pre_out.len(), pre_seen) =~~= seq![
                            trim_spec(lines@[i as int]@),
                        ]);
                        assert(extract_obs(all, max_items as int, Seq::empty())
                            =~~= out.deep_view());
                    }
                    return out;
                }
                proof {
                    assert(extract_obs(rest, max_items - pre_out.len(), pre_seen) =~~= seq![
                        trim_spec(lines@[i as int]@),
                    ] + extract_obs(
                        all.skip(i + 1),
                        max_items - pre_out.len() - 1,
                        pre_seen.push(lower_seq(trim_spec(lines@[i as int]@))),
                    ));
                    assert(extract_obs(all, max_items as int, Seq::empty()) =~~= out.deep_view()
                        + extract_obs(
                        all.skip(i + 1),
                        max_items - out@.len(),
                        seen.deep_view(),
                    ));
                }
            } else {
                proof {
                    assert(extract_obs(rest, max_items - pre_out.len(), pre_seen) =~~= extract_obs(
                        all.skip(i + 1),
                        max_items - pre_out.len(),
                        pre_seen,
                    ));
                }
            }
        } else {
            proof {
                assert(extract_obs(rest, max_items - pre_out.len(), pre_seen) =~~= extract_obs(
                    all.skip(i + 1),
                    max_items - pre_out.len(),
                    pre_seen,
                ));
            }
        }
        i = i + 1;
    }
    proof {
        assert(all.skip(all.len() as int) =~= Seq::<Seq<u8>>::empty());
        assert(extract_obs(all, max_items as int, Seq::empty()) =~~= out.deep_view());
    }
    out
}

/// Whitespace-collapsed text from byte `i` on: words separated by single
/// spaces, no leading or trailing whitespace. `emitted` records whether a
/// word was already written.
pub open spec fn collapse_from(s: Seq<u8>, i: int, emitted: bool) -> Seq<u8>
    decreases s.len() - i
{
    if i < 0 || i >= s.len() {
        Seq::empty()
    } else if !is_ws(s[i]) {
        seq![s[i]] + collapse_from(s, i + 1, true)
    } else if emitted && i + 1 < s.len() && !is_ws(s[i + 1]) {
        seq![32u8] + collapse_from(s, i + 1, true)
    } else {
        collapse_from(s, i + 1, emitted)
    }
}

/// The memory snippet: whitespace-collapsed, cut at `max_chars` characters -
/// never inside a multi-byte character - with a trailing ellipsis when over.
pub open spec fn snippet_spec(s: Seq<u8>, max: int) -> Seq<u8> {
    let c = collapse_from(s, 0, false);
    if char_count(c) <= max {
        c
    } else {
        c.take(chars_prefix_end(c, 0, max)) + "...".spec_bytes()
    }
}

/// Collapse runs of whitespace into single spaces, with no leading or
/// trailing whitespace.
pub fn collapse_whitespace(input: &str) -> (r: Vec<u8>)
    ensures
        r@ == collapse_from(input.spec_bytes(), 0, false),
{
    let raw = bytes_of(input);
    collapse_bytes(raw.as_slice())
}

/// Byte-level whitespace collapsing.
pub fn collapse_bytes(raw: &[u8]) -> (r: Vec<u8>)
    ensures
        r@ == collapse_from(raw@, 0, false),
{
    let mut compact: Vec<u8> = Vec::new();
    let mut emitted = false;
    let mut i: usize = 0;
    while i < raw.len()
        invariant
            i <= raw@.len(),
            collapse_from(raw@, 0, false) == compact@ + collapse_from(
                raw@,
                i as int,
                emitted,
            ),
            emitted == (compact@.len() > 0),
        decreases raw@.len() - i,
    {
        let ghost pre = compact@;
        let ghost pre_emitted = emitted;
        let b = raw[i];
        if !is_ws_byte(b) {
            compact.push(b);
            emitted = true;
            proof {
                assert(collapse_from(raw@, i as int, pre_emitted) == seq![raw@[i as int]]
                    + collapse_from(raw@, i + 1, true));
                assert(pre + (seq![raw@[i as int]] + collapse_from(raw@, i + 1, true))
                    =~= compact@ + collapse_from(raw@, i + 1, true));
            }
        } else if emitted && i + 1 < raw.len() && !is_ws_byte(raw[i + 1]) {
            compact.push(32u8);
            proof {
                assert(collapse_from(raw@, i as int, pre_emitted) == seq![32u8] + collapse_from(
                    raw@,
                    i + 1,
                    true,
                ));
                assert(pre + (seq![32u8] + collapse_from(raw@, i + 1, true)) =~= compact@
                    + collapse_from(raw@, i + 1, true));
            }
        }
        i = i + 1;
    }
    compact
}

/// Collapse whitespace and cut to `max_chars` bytes, marking a cut with an
/// ellipsis.
pub fn truncate_memory_snippet(input: &str, max_chars: usize) -> (r: Vec<u8>)
    ensures
        r@ == snippet_spec(input.spec_bytes(), max_chars as int),
{
    let raw = bytes_of(input);
    snippet_bytes(raw.as_slice(), max_chars)
}

/// Byte-level snippet truncation.
pub fn snippet_bytes(input: &[u8], max_chars: usize) -> (r: Vec<u8>)
    ensures
        r@ == snippet_spec(input@, max_chars as int),
{
    let compact = collapse_bytes(input);
    let n = count_chars(compact.as_slice());
    if n <= max_chars {
        return compact;
    }
    let mut r = take_chars(compact.as_slice(), max_chars);
    let dots = bytes_of("...");
    push_all(&mut r, dots.as_slice());
    r
}

/// A classified completion failure.
pub enum FailureClass {
    RateLimit,
    Timeout,
    Upstream,
    Auth,
    Request,
    Unknown,
}

impl FailureClass {
    pub fn as_str(&self) -> (r: &'static str)
        ensures
            self is RateLimit ==> r@ == "rate_limit"@,
            self is Timeout ==> r@ == "timeout"@,
            self is Upstream ==> r@ == "upstream"@,
            self is Auth ==> r@ == "auth"@,
            self is Request ==> r@ == "request"@,
            self is Unknown ==> r@ == "unknown"@,
    {
        match self {
            FailureClass::RateLimit => "rate_limit",
            FailureClass::Timeout => "timeout",
            FailureClass::Upstream => "upstream",
            FailureClass::Auth => "auth",
            FailureClass::Request => "request",
            FailureClass::Unknown => "unknown",
        }
    }
}

/// The class an error text falls into, testing patterns on the lowercased
/// message in a fixed order.
pub open spec fn classify_spec(m: Seq<u8>) -> FailureClass {
    let low = lower_seq(m);
    if contains_bytes(low, "429".spec_bytes()) || contains_bytes(low, "rate limit".spec_bytes()) {
        FailureClass::RateLimit
    } else if contains_bytes(low, "timeout".spec_bytes()) || contains_bytes(
        low,
        "timed out".spec_bytes(),
    ) || contains_bytes(low, "deadline".spec_bytes()) {
        FailureClass::Timeout
    } else if contains_bytes(low, "502".spec_bytes()) || contains_bytes(low, "503".spec_bytes())
        || contains_bytes(low, "504".spec_bytes()) || contains_bytes(
        low,
        "connection reset".spec_bytes(),
    ) || contains_bytes(low, "temporarily unavailable".spec_bytes()) {
        FailureClass::Upstream
    } else if contains_bytes(low, "401".spec_bytes()) || contains_bytes(low, "403".spec_bytes())
        || contains_bytes(low, "unauthorized".spec_bytes()) {
        FailureClass::Auth
    } else if contains_bytes(low, "400".spec_bytes()) || contains_bytes(
        low,
        "invalid request".spec_bytes(),
    ) || contains_bytes(low, "invalid model".spec_bytes()) || contains_bytes(
        low,
        "not found".spec_bytes(),
    ) {
        FailureClass::Request
    } else {
        FailureClass::Unknown
    }
}

/// Classify a completion failure by its error text.
pub fn classify_failure(message: &str) -> (r: FailureClass)
    ensures
        r == classify_spec(message.spec_bytes()),
{
    let raw = bytes_of(message);
    let low = to_lower(raw.as_slice());
    proof {
        assert(low@ =~= lower_seq(message.spec_bytes()));
    }
    if contains_sub(low.as_slice(), bytes_of("429").as_slice()) || contains_sub(
        low.as_slice(),
        bytes_of("rate limit").as_slice(),
    ) {
        FailureClass::RateLimit
    } else if contains_sub(low.as_slice(), bytes_of("timeout").as_slice()) || contains_sub(
        low.as_slice(),
        bytes_of("timed out").as_slice(),
    ) || contains_sub(low.as_slice(), bytes_of("deadline").as_slice()) {
        FailureClass::Timeout
    } else if contains_sub(low.as_slice(), bytes_of("502").as_slice()) || contains_sub(
        low.as_slice(),
        bytes_of("503").as_slice(),
    ) || contains_sub(low.as_slice(), bytes_of("504").as_slice()) || contains_sub(
        low.as_slice(),
        bytes_of("connection reset").as_slice(),
    ) || contains_sub(low.as_slice(), bytes_of("temporarily unavailable").as_slice()) {
        FailureClass::Upstream
    } else if contains_sub(low.as_slice(), bytes_of("401").as_slice()) || contains_sub(
        low.as_slice(),
        bytes_of("403").as_slice(),
    ) || contains_sub(low.as_slice(), bytes_of("unauthorized").as_slice()) {
        FailureClass::Auth
    } else if contains_sub(low.as_slice(), bytes_of("400").as_slice()) || contains_sub(
        low.as_slice(),
        bytes_of("invalid request").as_slice(),
    ) || contains_sub(low.as_slice(), bytes_of("invalid model").as_slice()) || contains_sub(
        low.as_slice(),
        bytes_of("not found").as_slice(),
    ) {
        FailureClass::Request
    } else {
        FailureClass::Unknown
    }
}

/// Whether the class is transient.
pub open spec fn retryable(class: FailureClass) -> bool {
    class is RateLimit || class is Timeout || class is Upstream
}

/// Retry the same route only for transient failures, up to the per-route
/// cap.
pub fn should_retry_same_route(class: &FailureClass, attempt: usize) -> (r: bool)
    ensures
        r == (attempt < PER_ROUTE_MAX_RETRIES && retryable(*class)),
{
    if attempt >= PER_ROUTE_MAX_RETRIES {
        return false;
    }
    match class {
        FailureClass::RateLimit => true,
        FailureClass::Timeout => true,
        FailureClass::Upstream => true,
        _ => false,
    }
}

/// Linear backoff before retrying the same route.
pub fn retry_backoff_ms(attempt: usize) -> (r: u64)
    requires
        attempt <= PER_ROUTE_MAX_RETRIES,
    ensures
        r == (attempt + 1) * 400,
{
    (attempt as u64 + 1) * 400
}

/// How many user turns stand in `h` at or after index `from`.
pub open spec fn user_turns_from(h: Seq<ChatMessage>, from: int) -> int
    decreases h.len() - from
{
    if from < 0 || from >= h.len() {
        0
    } else {
        (if h[from].role is User {
            1int
        } else {
            0int
        }) + user_turns_from(h, from + 1)
    }
}

/// What the summarization scheduler decides for one snapshot.
pub enum SummaryPlan {
    Skip,
    Window { start: usize, end: usize },
}

/// Decide whether and what to summarize: nothing when the watermark has
/// caught up or too few new user turns arrived; otherwise a window that
/// starts a few messages before the watermark for context and is capped at
/// `SUMMARY_MAX_WINDOW_MESSAGES` entries.
pub fn plan_summary(history: &Vec<ChatMessage>, watermark: usize) -> (r: SummaryPlan)
    ensures
        watermark >= history@.len() ==> r is Skip,
        watermark < history@.len() && user_turns_from(history@, watermark as int) < (
        SUMMARY_TRIGGER_USER_TURNS as int) ==> r is Skip,
        watermark < history@.len() && user_turns_from(history@, watermark as int)
            >= SUMMARY_TRIGGER_USER_TURNS as int ==> {
            let cs = if watermark >= SUMMARY_CONTEXT_MESSAGES {
                watermark - SUMMARY_CONTEXT_MESSAGES
            } else {
                0
            };
            let start = if history@.len() - cs > SUMMARY_MAX_WINDOW_MESSAGES as int {
                history@.len() - SUMMARY_MAX_WINDOW_MESSAGES as int
            } else {
                cs as int
            };
            r == (SummaryPlan::Window { start: start as usize, end: history.len() })
        },
{
    let n = history.len();
    if watermark >= n {
        return SummaryPlan::Skip;
    }
    let mut user_turns: usize = 0;
    let mut i: usize = watermark;
    while i < n
        invariant
            watermark <= i <= n == history@.len(),
            user_turns <= i,
            user_turns_from(history@, watermark as int) == user_turns + user_turns_from(
                history@,
                i as int,
            ),
        decreases n - i,
    {
        match &history[i].role {
            Role::User => {
                user_turns = user_turns + 1;
            },
            Role::Assistant => {},
        }
        i = i + 1;
    }
    if user_turns < SUMMARY_TRIGGER_USER_TURNS {
        return SummaryPlan::Skip;
    }
    let context_start = if watermark >= SUMMARY_CONTEXT_MESSAGES {
        watermark - SUMMARY_CONTEXT_MESSAGES
    } else {
        0
    };
    let start = if n - context_start > SUMMARY_MAX_WINDOW_MESSAGES {
        n - SUMMARY_MAX_WINDOW_MESSAGES
    } else {
        context_start
    };
    SummaryPlan::Window { start, end: n }
}

/// What the summarizer produced for a window.
pub enum SummaryOutcome {
    Produced,
    Empty,
    Failed,
}

/// The watermark after one summarization attempt, in spec form: a failure
/// leaves it alone, anything else advances it to the history length.
pub open spec fn advance_spec(watermark: int, history_len: int, outcome: SummaryOutcome) -> int {
    if outcome is Failed {
        watermark
    } else if history_len > watermark {
        history_len
    } else {
        watermark
    }
}

/// Advance the watermark after one summarization attempt; it never moves
/// backward.
pub fn advance_watermark(watermark: usize, history_len: usize, outcome: &SummaryOutcome) -> (r:
    usize)
    ensures
        r as int == advance_spec(watermark as int, history_len as int, *outcome),
        r >= watermark,
{
    match outcome {
        SummaryOutcome::Failed => watermark,
        _ => {
            if history_len > watermark {
                history_len
            } else {
                watermark
            }
        },
    }
}

/// The watermark after a whole sequence of summarization attempts.
pub open spec fn run_watermark(w0: int, steps: Seq<(int, SummaryOutcome)>) -> int
    decreases steps.len()
{
    if steps.len() == 0 {
        w0
    } else {
        run_watermark(advance_spec(w0, steps[0].0, steps[0].1), steps.drop_first())
    }
}

/// Watermark monotonicity: across any sequence of summarization trigger
/// invocations for one session, the watermark never decreases.
pub proof fn lemma_watermark_monotone(w0: int, steps: Seq<(int, SummaryOutcome)>)
    ensures
        run_watermark(w0, steps) >= w0,
    decreases steps.len()
{
    if steps.len() > 0 {
        lemma_watermark_monotone(advance_spec(w0, steps[0].0, steps[0].1), steps.drop_first());
    }
}

/// Copy one turn.
pub fn copy_message(m: &ChatMessage) -> (r: ChatMessage)
    ensures
        r.content@ == m.content@,
        r.role is User <==> m.role is User,
{
    ChatMessage {
        role: match m.role {
            Role::User => Role::User,
            Role::Assistant => Role::Assistant,
        },
        content: sub_bytes(m.content.as_slice(), 0, m.content.len()),
    }
}

/// The history compactor: bounds what is sent to the model without touching
/// the stored history.
pub struct HistoryCompactor {
    pub threshold: usize,
}

impl HistoryCompactor {
    /// Compaction keeps the most recent half of the threshold.
    pub open spec fn kept_len(&self) -> int {
        self.threshold as int / 2
    }

    /// The copy of `history` to hand to the model: untouched below the
    /// threshold, else the most recent messages - a suffix, so role order
    /// is preserved; the flag says whether compaction happened. The stored
    /// history itself is never shortened.
    pub fn compact(&self, history: &Vec<ChatMessage>) -> (r: (Vec<ChatMessage>, bool))
        ensures
            r.1 == (history@.len() >= self.threshold),
            r.0@.len() == if history@.len() >= self.threshold {
                self.kept_len()
            } else {
                history@.len() as int
            },
            forall|k: int|
                0 <= k < r.0@.len() ==> {
                    let src = history@[history@.len() - r.0@.len() + k];
                    (#[trigger] r.0@[k]).content@ == src.content@ && (r.0@[k].role is User
                        <==> src.role is User)
                },
    {
        let n = history.len();
        let keep: usize = if n >= self.threshold {
            self.threshold / 2
        } else {
            n
        };
        let start = n - keep;
        let mut out: Vec<ChatMessage> = Vec::new();
        let mut i: usize = start;
        while i < n
            invariant
                start <= i <= n == history@.len(),
                start == n - keep,
                out@.len() == i - start,
                forall|k: int|
                    0 <= k < out@.len() ==> {
                        let src = history@[start + k];
                        (#[trigger] out@[k]).content@ == src.content@ && (out@[k].role is User
                            <==> src.role is User)
                    },
            decreases n - i,
        {
            let m = copy_message(&history[i]);
            out.push(m);
            i = i + 1;
        }
        (out, n >= self.threshold)
    }
}

} // verus!
