//! Namespaced vector memory: records, similarity search with priority
//! blending, and capacity-bounded pruning.
//!
//! The store holds its rows in memory; persistence is the caller's concern.
//! Scores and embedding components are fixed-point micro-units (see
//! `score`).

use vstd::prelude::*;
use vstd::multiset::Multiset;
use vstd::seq_lib::group_to_multiset_ensures;
use vstd::string::StringSliceAdditionalSpecFns;

use crate::score::{
    clamp01_spec, combined_score, combined_spec, cosine_similarity, embedding_wf,
    priority_initial, priority_initial_spec, priority_update, priority_update_spec, score_wf,
    similarity_spec, EMBED_MAX_DIM, EMBED_UNIT, SCALE,
};
use crate::text::{bytes_eq, char_end, is_cont, is_cont_byte, sub_bytes, trim_bytes, trim_spec};

verus! {

/// Upper bound, in bytes, on the content of one record.
pub const MAX_CONTENT_LENGTH: usize = 8192;

/// Most rows a similarity search will consider, to bound latency; the
/// highest-priority, most recently updated rows are kept.
pub const MAX_SEARCH_ROWS: usize = 500;

/// Largest allowed namespace length.
pub const MAX_NAMESPACE_LEN: usize = 64;

/// A metadata value: text, an integer, or a fixed-point score.
pub enum MetaValue {
    Text(Vec<u8>),
    Int(i64),
    Score(i64),
}

/// One metadata key-value pair.
pub struct MetaEntry {
    pub key: Vec<u8>,
    pub value: MetaValue,
}

/// What went wrong with a store operation.
#[derive(Debug)]
pub enum MemoryError {
    EmptyContent,
    ContentTooLong,
    InvalidNamespace,
    DuplicateId,
}

impl MemoryError {
    /// A human-readable description.
    pub fn message(&self) -> (r: &'static str)
        ensures
            self is EmptyContent ==> r@ == "content cannot be empty"@,
            self is ContentTooLong ==> r@ == "content exceeds maximum length"@,
            self is InvalidNamespace ==> r@ == "invalid namespace"@,
            self is DuplicateId ==> r@ == "duplicate memory id"@,
    {
        match self {
            MemoryError::EmptyContent => "content cannot be empty",
            MemoryError::ContentTooLong => "content exceeds maximum length",
            MemoryError::InvalidNamespace => "invalid namespace",
            MemoryError::DuplicateId => "duplicate memory id",
        }
    }
}

/// A namespace byte: ASCII alphanumeric, underscore or dash.
pub open spec fn ns_byte_ok(c: u8) -> bool {
    ||| 48 <= c <= 57
    ||| 65 <= c <= 90
    ||| 97 <= c <= 122
    ||| c == 95
    ||| c == 45
}

/// A valid namespace: one to sixty-four allowed bytes.
pub open spec fn valid_namespace(s: Seq<u8>) -> bool {
    &&& 1 <= s.len() <= MAX_NAMESPACE_LEN
    &&& forall|i: int| 0 <= i < s.len() ==> ns_byte_ok(#[trigger] s[i])
}

/// Sanitization from byte `i`, emitting at most `remaining` more characters:
/// an allowed single-byte character is kept; every other character - a
/// disallowed ASCII byte or a whole multi-byte sequence - becomes one
/// underscore.
pub open spec fn sanitize_from(s: Seq<u8>, i: int, remaining: int) -> Seq<u8>
    decreases s.len() - i
{
    if i < 0 || i >= s.len() || remaining <= 0 {
        Seq::empty()
    } else {
        let e0 = char_end(s, i + 1);
        let e = if i < e0 <= s.len() {
            e0
        } else {
            i + 1
        };
        let piece = if e == i + 1 && ns_byte_ok(s[i]) {
            seq![s[i]]
        } else {
            seq![95u8]
        };
        piece + sanitize_from(s, e, remaining - 1)
    }
}

/// Sanitization: each disallowed character - one underscore per character,
/// not per byte - and the result cut at sixty-four characters.
pub open spec fn sanitize_namespace_spec(s: Seq<u8>) -> Seq<u8> {
    sanitize_from(s, 0, MAX_NAMESPACE_LEN as int)
}

/// Sanitize `namespace`, replacing disallowed characters and cutting the
/// length; only an empty input is rejected.
pub fn validate_namespace(namespace: &[u8]) -> (r: Result<Vec<u8>, MemoryError>)
    ensures
        namespace@.len() == 0 <==> r is Err,
        r is Err ==> r->Err_0 is InvalidNamespace,
        r is Ok ==> r->Ok_0@ == sanitize_namespace_spec(namespace@),
        r is Ok ==> valid_namespace(r->Ok_0@),
{
    if namespace.len() == 0 {
        return Err(MemoryError::InvalidNamespace);
    }
    proof {
        lemma_sanitize_valid(namespace@);
    }
    let mut out: Vec<u8> = Vec::new();
    let mut i: usize = 0;
    while i < namespace.len() && out.len() < MAX_NAMESPACE_LEN
        invariant
            i <= namespace@.len(),
            out@.len() <= MAX_NAMESPACE_LEN,
            sanitize_namespace_spec(namespace@) == out@ + sanitize_from(
                namespace@,
                i as int,
                MAX_NAMESPACE_LEN - out@.len(),
            ),
        decreases namespace@.len() - i,
    {
        let b = namespace[i];
        let mut e: usize = i + 1;
        while e < namespace.len() && is_cont_byte(namespace[e])
            invariant
                i + 1 <= e <= namespace@.len(),
                char_end(namespace@, i + 1) == char_end(namespace@, e as int),
            decreases namespace@.len() - e,
        {
            e = e + 1;
        }
        proof {
            assert(char_end(namespace@, e as int) == e);
        }
        let ghost pre = out@;
        if e == i + 1 && ((48 <= b && b <= 57) || (65 <= b && b <= 90) || (97 <= b && b <= 122)
            || b == 95 || b == 45) {
            out.push(b);
        } else {
            out.push(95u8);
        }
        proof {
            assert(out@ =~= pre + sanitize_from(namespace@, i as int, 1).take(1));
            assert(sanitize_namespace_spec(namespace@) =~= out@ + sanitize_from(
                namespace@,
                e as int,
                MAX_NAMESPACE_LEN - out@.len(),
            ));
        }
        i = e;
    }
    proof {
        if i >= namespace@.len() {
            assert(sanitize_from(namespace@, i as int, MAX_NAMESPACE_LEN - out@.len())
                =~= Seq::<u8>::empty());
        } else {
            assert(sanitize_from(namespace@, i as int, MAX_NAMESPACE_LEN - out@.len())
                =~= Seq::<u8>::empty());
        }
        assert(out@ =~= sanitize_namespace_spec(namespace@));
    }
    Ok(out)
}

/// How sanitization behaves from any position: at most `remaining` bytes
/// out, at least one when a character remains, and every byte allowed.
proof fn lemma_sanitize_from_props(s: Seq<u8>, i: int, remaining: int)
    requires
        i >= 0,
        remaining >= 0,
    ensures
        sanitize_from(s, i, remaining).len() <= remaining,
        i < s.len() && remaining >= 1 ==> sanitize_from(s, i, remaining).len() >= 1,
        forall|k: int|
            0 <= k < sanitize_from(s, i, remaining).len() ==> ns_byte_ok(
                #[trigger] sanitize_from(s, i, remaining)[k],
            ),
    decreases s.len() - i
{
    if 0 <= i < s.len() && remaining > 0 {
        let e0 = char_end(s, i + 1);
        let e = if i < e0 <= s.len() {
            e0
        } else {
            i + 1
        };
        lemma_sanitize_from_props(s, e, remaining - 1);
    }
}

/// Every nonempty input sanitizes to a valid namespace.
pub proof fn lemma_sanitize_valid(s: Seq<u8>)
    requires
        s.len() > 0,
    ensures
        valid_namespace(sanitize_namespace_spec(s)),
{
    lemma_sanitize_from_props(s, 0, MAX_NAMESPACE_LEN as int);
}

proof fn lemma_sanitize_identity_from(s: Seq<u8>, i: int, remaining: int)
    requires
        0 <= i <= s.len(),
        forall|k: int| 0 <= k < s.len() ==> ns_byte_ok(#[trigger] s[k]),
        remaining >= s.len() - i,
    ensures
        sanitize_from(s, i, remaining) == s.skip(i),
    decreases s.len() - i
{
    if i < s.len() && remaining > 0 {
        if i + 1 < s.len() {
            assert(!is_cont(s[i + 1]));
        }
        assert(char_end(s, i + 1) == i + 1);
        lemma_sanitize_identity_from(s, i + 1, remaining - 1);
        assert(sanitize_from(s, i, remaining) =~= s.skip(i));
    } else {
        assert(s.skip(i) =~= Seq::<u8>::empty());
    }
}

/// A namespace that is already valid sanitizes to itself.
pub proof fn lemma_sanitize_identity(s: Seq<u8>)
    requires
        valid_namespace(s),
    ensures
        sanitize_namespace_spec(s) == s,
{
    lemma_sanitize_identity_from(s, 0, MAX_NAMESPACE_LEN as int);
    assert(s.skip(0) =~= s);
}

/// The characters of `s` from byte `i` and of `t` from byte `j` agree
/// wherever either is an allowed character: at each character position the
/// two inputs either hold the same allowed single-byte character, or both
/// hold a disallowed character (of any byte length).
pub open spec fn chars_agree(s: Seq<u8>, i: int, t: Seq<u8>, j: int) -> bool
    decreases s.len() - i
{
    if i < 0 || j < 0 {
        false
    } else if i >= s.len() || j >= t.len() {
        i >= s.len() && j >= t.len()
    } else {
        let es0 = char_end(s, i + 1);
        let es = if i < es0 <= s.len() {
            es0
        } else {
            i + 1
        };
        let et0 = char_end(t, j + 1);
        let et = if j < et0 <= t.len() {
            et0
        } else {
            j + 1
        };
        let oks = es == i + 1 && ns_byte_ok(s[i]);
        let okt = et == j + 1 && ns_byte_ok(t[j]);
        &&& ((oks && okt && s[i] == t[j]) || (!oks && !okt))
        &&& chars_agree(s, es, t, et)
    }
}

proof fn lemma_sanitize_agree_from(s: Seq<u8>, i: int, t: Seq<u8>, j: int, remaining: int)
    requires
        chars_agree(s, i, t, j),
    ensures
        sanitize_from(s, i, remaining) == sanitize_from(t, j, remaining),
    decreases s.len() - i
{
    if 0 <= i < s.len() && 0 <= j < t.len() && remaining > 0 {
        let es0 = char_end(s, i + 1);
        let es = if i < es0 <= s.len() {
            es0
        } else {
            i + 1
        };
        let et0 = char_end(t, j + 1);
        let et = if j < et0 <= t.len() {
            et0
        } else {
            j + 1
        };
        lemma_sanitize_agree_from(s, es, t, et, remaining - 1);
    } else if chars_agree(s, i, t, j) && (i >= s.len() || j >= t.len() || i < 0 || j < 0) {
        assert(sanitize_from(s, i, remaining) =~= sanitize_from(t, j, remaining));
    }
}

/// Two inputs whose characters agree wherever either is allowed - they
/// differ only in disallowed characters at the same character positions -
/// sanitize to the same namespace, whatever the disallowed characters were.
pub proof fn lemma_sanitize_confluent(s: Seq<u8>, t: Seq<u8>)
    requires
        chars_agree(s, 0, t, 0),
    ensures
        sanitize_namespace_spec(s) == sanitize_namespace_spec(t),
{
    lemma_sanitize_agree_from(s, 0, t, 0, MAX_NAMESPACE_LEN as int);
}

/// Relies on uuid's `Uuid::new_v4` and its `Display` impl: a fresh random
/// identifier in the 36-character hyphenated form.
#[verifier::external_body]
pub(crate) fn fresh_memory_id() -> (r: Vec<u8>)
    ensures
        r@.len() == 36,
{
    uuid::Uuid::new_v4().to_string().into_bytes()
}

/// One vector-memory record.
pub struct MemoryItem {
    pub id: Vec<u8>,
    pub content: Vec<u8>,
    pub embedding: Vec<i64>,
    pub metadata: Vec<MetaEntry>,
    pub created_at: i64,
    pub updated_at: i64,
    pub access_count: u64,
    pub priority: i64,
    pub namespace: Vec<u8>,
}

/// Metadata values agree.
pub open spec fn meta_value_eq(a: MetaValue, b: MetaValue) -> bool {
    match a {
        MetaValue::Text(x) => b is Text && x@ == b->Text_0@,
        MetaValue::Int(x) => b is Int && x == b->Int_0,
        MetaValue::Score(x) => b is Score && x == b->Score_0,
    }
}

/// Metadata lists agree pairwise.
pub open spec fn meta_eq(a: Seq<MetaEntry>, b: Seq<MetaEntry>) -> bool {
    &&& a.len() == b.len()
    &&& forall|i: int|
        0 <= i < a.len() ==> (#[trigger] a[i]).key@ == (#[trigger] b[i]).key@ && meta_value_eq(
            a[i].value,
            b[i].value,
        )
}

/// Two records agree field by field.
pub open spec fn item_eq(a: MemoryItem, b: MemoryItem) -> bool {
    &&& a.id@ == b.id@
    &&& a.content@ == b.content@
    &&& a.embedding@ == b.embedding@
    &&& meta_eq(a.metadata@, b.metadata@)
    &&& a.created_at == b.created_at
    &&& a.updated_at == b.updated_at
    &&& a.access_count == b.access_count
    &&& a.priority == b.priority
    &&& a.namespace@ == b.namespace@
}

/// Copy a byte string.
fn copy_bytes(v: &Vec<u8>) -> (r: Vec<u8>)
    ensures
        r@ == v@,
{
    let r = sub_bytes(v.as_slice(), 0, v.len());
    proof {
        assert(r@ =~= v@);
    }
    r
}

/// Copy a metadata value.
fn copy_meta_value(v: &MetaValue) -> (r: MetaValue)
    ensures
        meta_value_eq(r, *v),
{
    match v {
        MetaValue::Text(x) => MetaValue::Text(copy_bytes(x)),
        MetaValue::Int(x) => MetaValue::Int(*x),
        MetaValue::Score(x) => MetaValue::Score(*x),
    }
}

/// Copy a metadata list.
pub fn copy_metadata(m: &Vec<MetaEntry>) -> (r: Vec<MetaEntry>)
    ensures
        meta_eq(r@, m@),
{
    let mut r: Vec<MetaEntry> = Vec::new();
    let mut i: usize = 0;
    while i < m.len()
        invariant
            i <= m@.len(),
            r@.len() == i,
            forall|j: int|
                0 <= j < i ==> (#[trigger] r@[j]).key@ == (#[trigger] m@[j]).key@ && meta_value_eq(
                    r@[j].value,
                    m@[j].value,
                ),
        decreases m@.len() - i,
    {
        let e = &m[i];
        let entry = MetaEntry { key: copy_bytes(&e.key), value: copy_meta_value(&e.value) };
        r.push(entry);
        i = i + 1;
    }
    r
}

/// Copy an embedding.
fn copy_embedding(e: &Vec<i64>) -> (r: Vec<i64>)
    ensures
        r@ == e@,
{
    let mut r: Vec<i64> = Vec::new();
    let mut i: usize = 0;
    while i < e.len()
        invariant
            i <= e@.len(),
            r@ == e@.subrange(0, i as int),
        decreases e@.len() - i,
    {
        r.push(e[i]);
        proof {
            assert(r@ =~= e@.subrange(0, i + 1));
        }
        i = i + 1;
    }
    proof {
        assert(e@.subrange(0, e@.len() as int) =~= e@);
    }
    r
}

/// Copy a record.
pub fn duplicate_item(it: &MemoryItem) -> (r: MemoryItem)
    ensures
        item_eq(r, *it),
{
    MemoryItem {
        id: copy_bytes(&it.id),
        content: copy_bytes(&it.content),
        embedding: copy_embedding(&it.embedding),
        metadata: copy_metadata(&it.metadata),
        created_at: it.created_at,
        updated_at: it.updated_at,
        access_count: it.access_count,
        priority: it.priority,
        namespace: copy_bytes(&it.namespace),
    }
}

/// The importance read from metadata, scanning from entry `i`: the first
/// `importance` key with a numeric value - a fixed-point score as it stands,
/// an integer scaled to fixed point - or one half when absent or textual.
pub open spec fn importance_from(meta: Seq<MetaEntry>, i: int) -> int
    decreases meta.len() - i
{
    if i < 0 || i >= meta.len() {
        500_000
    } else if meta[i].key@ == "importance".spec_bytes() {
        match meta[i].value {
            MetaValue::Score(s) => s as int,
            MetaValue::Int(n) => n * (SCALE as int),
            MetaValue::Text(_) => 500_000,
        }
    } else {
        importance_from(meta, i + 1)
    }
}

/// The importance of a record's metadata.
pub open spec fn importance_of(meta: Seq<MetaEntry>) -> int {
    importance_from(meta, 0)
}

/// Read the importance from metadata.
pub fn read_importance(meta: &Vec<MetaEntry>) -> (r: i128)
    ensures
        r as int == importance_of(meta@),
        -crate::score::IMPORTANCE_BOUND <= r <= crate::score::IMPORTANCE_BOUND,
{
    let key = crate::text::bytes_of("importance");
    let mut i: usize = 0;
    while i < meta.len()
        invariant
            i <= meta@.len(),
            key@ == "importance".spec_bytes(),
            importance_of(meta@) == importance_from(meta@, i as int),
        decreases meta@.len() - i,
    {
        if bytes_eq(meta[i].key.as_slice(), key.as_slice()) {
            match &meta[i].value {
                MetaValue::Score(s) => {
                    return *s as i128;
                },
                MetaValue::Int(n) => {
                    return (*n as i128) * (SCALE as i128);
                },
                MetaValue::Text(_) => {
                    return 500_000;
                },
            }
        }
        i = i + 1;
    }
    500_000
}

/// Eviction order: lower priority first, older update first.
pub open spec fn le_key(a: MemoryItem, b: MemoryItem) -> bool {
    ||| a.priority < b.priority
    ||| (a.priority == b.priority && a.updated_at <= b.updated_at)
}

/// Executable strict eviction-order comparison.
fn lt_key(a: &MemoryItem, b: &MemoryItem) -> (r: bool)
    ensures
        r == (le_key(*a, *b) && !(a.priority == b.priority && a.updated_at == b.updated_at)),
{
    a.priority < b.priority || (a.priority == b.priority && a.updated_at < b.updated_at)
}

/// How many rows carry this namespace.
pub open spec fn ns_count(rows: Seq<MemoryItem>, ns: Seq<u8>) -> int
    decreases rows.len()
{
    if rows.len() == 0 {
        0
    } else {
        (if rows[0].namespace@ == ns {
            1int
        } else {
            0int
        }) + ns_count(rows.drop_first(), ns)
    }
}

pub proof fn lemma_ns_count_bounds(rows: Seq<MemoryItem>, ns: Seq<u8>)
    ensures
        0 <= ns_count(rows, ns) <= rows.len(),
    decreases rows.len()
{
    if rows.len() > 0 {
        lemma_ns_count_bounds(rows.drop_first(), ns);
    }
}

/// Removing row `i` lowers the count exactly when that row carries `ns`.
pub proof fn lemma_ns_count_remove(rows: Seq<MemoryItem>, ns: Seq<u8>, i: int)
    requires
        0 <= i < rows.len(),
    ensures
        ns_count(rows.remove(i), ns) == ns_count(rows, ns) - (if rows[i].namespace@ == ns {
            1int
        } else {
            0int
        }),
    decreases rows.len()
{
    if i == 0 {
        assert(rows.remove(0) =~= rows.drop_first());
    } else {
        assert(rows.remove(i).drop_first() =~= rows.drop_first().remove(i - 1));
        assert(rows.remove(i)[0] == rows[0]);
        lemma_ns_count_remove(rows.drop_first(), ns, i - 1);
    }
}

/// Pushing a row raises the count exactly when it carries `ns`.
pub proof fn lemma_ns_count_push(rows: Seq<MemoryItem>, ns: Seq<u8>, row: MemoryItem)
    ensures
        ns_count(rows.push(row), ns) == ns_count(rows, ns) + (if row.namespace@ == ns {
            1int
        } else {
            0int
        }),
    decreases rows.len()
{
    if rows.len() == 0 {
        assert(rows.push(row).drop_first() =~= Seq::<MemoryItem>::empty());
        assert(ns_count(Seq::<MemoryItem>::empty(), ns) == 0);
        assert(rows.push(row)[0] == row);
    } else {
        assert(rows.push(row).drop_first() =~= rows.drop_first().push(row));
        assert(rows.push(row)[0] == rows[0]);
        lemma_ns_count_push(rows.drop_first(), ns, row);
    }
}

/// A positive count means some row carries `ns`.
pub proof fn lemma_ns_count_member(rows: Seq<MemoryItem>, ns: Seq<u8>)
    requires
        ns_count(rows, ns) > 0,
    ensures
        exists|i: int| 0 <= i < rows.len() && (#[trigger] rows[i]).namespace@ == ns,
    decreases rows.len()
{
    if rows.len() > 0 {
        if rows[0].namespace@ == ns {
        } else {
            lemma_ns_count_member(rows.drop_first(), ns);
            let i = choose|i: int|
                0 <= i < rows.drop_first().len() && (#[trigger] rows.drop_first()[i]).namespace@
                    == ns;
            assert(rows[i + 1].namespace@ == ns);
        }
    }
}

/// A well-formed record: validated namespace, bounded embedding and content,
/// a unit-interval priority, timestamps at or after the epoch.
pub open spec fn row_wf(r: MemoryItem) -> bool {
    &&& valid_namespace(r.namespace@)
    &&& embedding_wf(r.embedding@)
    &&& score_wf(r.priority)
    &&& 0 < r.content@.len() <= MAX_CONTENT_LENGTH
    &&& 0 <= r.created_at
    &&& 0 <= r.updated_at
}

/// No two rows share an id within one namespace.
pub open spec fn rows_unique(rows: Seq<MemoryItem>) -> bool {
    forall|i: int, j: int|
        0 <= i < j < rows.len() ==> !((#[trigger] rows[i]).id@ == (#[trigger] rows[j]).id@
            && rows[i].namespace@ == rows[j].namespace@)
}

/// The namespaced vector store: rows, the per-namespace capacity, and the
/// default namespace.
pub struct VectorMemoryStore {
    pub rows: Vec<MemoryItem>,
    pub max_memories: usize,
    pub namespace: Vec<u8>,
}

impl VectorMemoryStore {
    /// Every row is well formed and `(id, namespace)` identifies a row.
    pub open spec fn wf(&self) -> bool {
        &&& valid_namespace(self.namespace@)
        &&& forall|i: int| 0 <= i < self.rows@.len() ==> row_wf(#[trigger] self.rows@[i])
        &&& rows_unique(self.rows@)
    }

    /// An empty store; the default namespace is sanitized on the way in.
    pub fn new(max_memories: usize, namespace: &[u8]) -> (r: Result<Self, MemoryError>)
        ensures
            namespace@.len() == 0 <==> r is Err,
            r is Err ==> r->Err_0 is InvalidNamespace,
            r is Ok ==> r->Ok_0.wf(),
            r is Ok ==> r->Ok_0.rows@.len() == 0,
            r is Ok ==> r->Ok_0.max_memories == max_memories,
            r is Ok ==> r->Ok_0.namespace@ == sanitize_namespace_spec(namespace@),
    {
        let ns = validate_namespace(namespace)?;
        Ok(VectorMemoryStore { rows: Vec::new(), max_memories, namespace: ns })
    }

    /// Index of the row keyed `(id, ns)`, if any.
    fn find_row(&self, id: &[u8], ns: &[u8]) -> (r: Option<usize>)
        ensures
            r is Some ==> 0 <= r->Some_0 < self.rows@.len() && self.rows@[r->Some_0 as int].id@
                == id@ && self.rows@[r->Some_0 as int].namespace@ == ns@,
            r is None ==> forall|j: int|
                0 <= j < self.rows@.len() ==> !((#[trigger] self.rows@[j]).id@ == id@
                    && self.rows@[j].namespace@ == ns@),
    {
        let mut i: usize = 0;
        while i < self.rows.len()
            invariant
                i <= self.rows@.len(),
                forall|j: int|
                    0 <= j < i ==> !((#[trigger] self.rows@[j]).id@ == id@
                        && self.rows@[j].namespace@ == ns@),
            decreases self.rows@.len() - i,
        {
            if bytes_eq(self.rows[i].id.as_slice(), id) && bytes_eq(
                self.rows[i].namespace.as_slice(),
                ns,
            ) {
                return Some(i);
            }
            i = i + 1;
        }
        None
    }

    /// The namespace an operation works in: the given one, sanitized, or the
    /// store's own.
    fn resolve_namespace(&self, namespace: Option<&[u8]>) -> (r: Result<Vec<u8>, MemoryError>)
        requires
            valid_namespace(self.namespace@),
        ensures
            r is Err <==> (namespace is Some && namespace->Some_0@.len() == 0),
            r is Err ==> r->Err_0 is InvalidNamespace,
            r is Ok ==> r->Ok_0@ == resolved_ns(self.namespace@, spec_ns_arg(namespace)),
            r is Ok ==> valid_namespace(r->Ok_0@),
    {
        match namespace {
            Some(ns) => validate_namespace(ns),
            None => Ok(copy_bytes(&self.namespace)),
        }
    }

    /// Fetch a copy of the row keyed `(id, namespace)`.
    pub fn get(&self, id: &[u8], namespace: Option<&[u8]>) -> (r: Result<
        Option<MemoryItem>,
        MemoryError,
    >)
        requires
            self.wf(),
        ensures
            r is Err <==> (namespace is Some && namespace->Some_0@.len() == 0),
            r is Err ==> r->Err_0 is InvalidNamespace,
            r is Ok ==> ({
                let ns = resolved_ns(self.namespace@, spec_ns_arg(namespace));
                match r->Ok_0 {
                    Some(item) => exists|j: int|
                        0 <= j < self.rows@.len() && item_eq(item, #[trigger] self.rows@[j])
                            && self.rows@[j].id@ == id@ && self.rows@[j].namespace@ == ns,
                    None => forall|j: int|
                        0 <= j < self.rows@.len() ==> !((#[trigger] self.rows@[j]).id@ == id@
                            && self.rows@[j].namespace@ == ns),
                }
            }),
    {
        let ns = self.resolve_namespace(namespace)?;
        match self.find_row(id, ns.as_slice()) {
            Some(i) => Ok(Some(duplicate_item(&self.rows[i]))),
            None => Ok(None),
        }
    }

    /// Delete the row keyed `(id, namespace)`; true when a row went away.
    pub fn delete(&mut self, id: &[u8], namespace: Option<&[u8]>) -> (r: Result<
        bool,
        MemoryError,
    >)
        requires
            old(self).wf(),
        ensures
            final(self).wf(),
            final(self).max_memories == old(self).max_memories,
            final(self).namespace@ == old(self).namespace@,
            r is Err <==> (namespace is Some && namespace->Some_0@.len() == 0),
            r is Err ==> final(self).rows@ == old(self).rows@,
            r is Ok ==> ({
                let ns = resolved_ns(old(self).namespace@, spec_ns_arg(namespace));
                if r->Ok_0 {
                    exists|j: int|
                        0 <= j < old(self).rows@.len() && (#[trigger] old(self).rows@[j]).id@
                            == id@ && old(self).rows@[j].namespace@ == ns && final(self).rows@
                            == old(self).rows@.remove(j)
                } else {
                    final(self).rows@ == old(self).rows@ && forall|j: int|
                        0 <= j < old(self).rows@.len() ==> !((#[trigger] old(
                            self,
                        ).rows@[j]).id@ == id@ && old(self).rows@[j].namespace@ == ns)
                }
            }),
    {
        let ns = self.resolve_namespace(namespace)?;
        match self.find_row(id, ns.as_slice()) {
            Some(i) => {
                let _ = self.rows.remove(i);
                proof {
                    assert forall|a: int, b: int|
                        0 <= a < b < self.rows@.len() implies !((#[trigger] self.rows@[a]).id@
                        == (#[trigger] self.rows@[b]).id@ && self.rows@[a].namespace@
                        == self.rows@[b].namespace@) by {
                        let ra = if a < i as int {
                            a
                        } else {
                            a + 1
                        };
                        let rb = if b < i as int {
                            b
                        } else {
                            b + 1
                        };
                        assert(self.rows@[a] == old(self).rows@[ra]);
                        assert(self.rows@[b] == old(self).rows@[rb]);
                    }
                }
                Ok(true)
            },
            None => Ok(false),
        }
    }
}

/// The namespace argument, as the spec sees it.
pub open spec fn spec_ns_arg(namespace: Option<&[u8]>) -> Option<Seq<u8>> {
    match namespace {
        Some(ns) => Some(ns@),
        None => None,
    }
}

/// The namespace an operation resolves to.
pub open spec fn resolved_ns(own: Seq<u8>, arg: Option<Seq<u8>>) -> Seq<u8> {
    match arg {
        Some(ns) => sanitize_namespace_spec(ns),
        None => own,
    }
}

/// Rows after a pruning pass: the evicted rows all carry `ns`, every one of
/// them ranks at or below every surviving `ns` row by `(priority,
/// updated_at)`, nothing else changed, and the namespace holds at most `max`
/// rows - exactly `max` when it overflowed.
pub open spec fn prune_outcome(
    pushed: Seq<MemoryItem>,
    new_rows: Seq<MemoryItem>,
    evicted: Seq<MemoryItem>,
    ns: Seq<u8>,
    max: int,
) -> bool {
    &&& new_rows.to_multiset().add(evicted.to_multiset()) == pushed.to_multiset()
    &&& forall|i: int| 0 <= i < evicted.len() ==> (#[trigger] evicted[i]).namespace@ == ns
    &&& forall|i: int, j: int|
        0 <= i < evicted.len() && 0 <= j < new_rows.len() && (#[trigger] new_rows[j]).namespace@
            == ns ==> le_key(#[trigger] evicted[i], new_rows[j])
    &&& ns_count(new_rows, ns) == (if ns_count(pushed, ns) > max {
        max
    } else {
        ns_count(pushed, ns)
    })
    &&& (ns_count(pushed, ns) <= max ==> new_rows == pushed && evicted.len() == 0)
}

/// Removing one row keeps well-formedness and key uniqueness, and maps the
/// remaining indices onto the old ones.
proof fn lemma_rows_remove_preserves(rows: Seq<MemoryItem>, i: int)
    requires
        0 <= i < rows.len(),
        rows_unique(rows),
        forall|j: int| 0 <= j < rows.len() ==> row_wf(#[trigger] rows[j]),
    ensures
        rows_unique(rows.remove(i)),
        forall|j: int| 0 <= j < rows.remove(i).len() ==> row_wf(#[trigger] rows.remove(i)[j]),
        forall|j: int|
            0 <= j < rows.remove(i).len() ==> #[trigger] rows.remove(i)[j] == rows[
                if j < i {
                    j
                } else {
                    j + 1
                }
            ],
{
    assert forall|j: int| 0 <= j < rows.remove(i).len() implies #[trigger] rows.remove(i)[j]
        == rows[
        if j < i {
            j
        } else {
            j + 1
        }
    ] by {}
    assert forall|a: int, b: int| 0 <= a < b < rows.remove(i).len() implies !((
    #[trigger] rows.remove(i)[a]).id@ == (#[trigger] rows.remove(i)[b]).id@ && rows.remove(
        i,
    )[a].namespace@ == rows.remove(i)[b].namespace@) by {
        let ra = if a < i {
            a
        } else {
            a + 1
        };
        let rb = if b < i {
            b
        } else {
            b + 1
        };
        assert(rows.remove(i)[a] == rows[ra]);
        assert(rows.remove(i)[b] == rows[rb]);
    }
}

impl VectorMemoryStore {
    /// How many rows carry `ns`.
    pub fn count_namespace(&self, ns: &[u8]) -> (r: usize)
        ensures
            r as int == ns_count(self.rows@, ns@),
    {
        let mut c: usize = 0;
        let mut i: usize = 0;
        proof {
            assert(self.rows@.subrange(0, 0) =~= Seq::<MemoryItem>::empty());
        }
        while i < self.rows.len()
            invariant
                i <= self.rows@.len(),
                c <= i,
                c as int == ns_count(self.rows@.subrange(0, i as int), ns@),
            decreases self.rows@.len() - i,
        {
            proof {
                assert(self.rows@.subrange(0, i + 1) =~= self.rows@.subrange(0, i as int).push(
                    self.rows@[i as int],
                ));
                lemma_ns_count_push(self.rows@.subrange(0, i as int), ns@, self.rows@[i as int]);
            }
            if bytes_eq(self.rows[i].namespace.as_slice(), ns) {
                c = c + 1;
            }
            i = i + 1;
        }
        proof {
            assert(self.rows@.subrange(0, self.rows@.len() as int) =~= self.rows@);
        }
        c
    }

    /// Index of the `ns` row ranking lowest by `(priority, updated_at)`.
    fn min_ns_row(&self, ns: &[u8]) -> (r: usize)
        requires
            ns_count(self.rows@, ns@) > 0,
        ensures
            0 <= r < self.rows@.len(),
            self.rows@[r as int].namespace@ == ns@,
            forall|j: int|
                0 <= j < self.rows@.len() && (#[trigger] self.rows@[j]).namespace@ == ns@
                    ==> le_key(self.rows@[r as int], self.rows@[j]),
    {
        let mut best: Option<usize> = None;
        let mut i: usize = 0;
        while i < self.rows.len()
            invariant
                i <= self.rows@.len(),
                match best {
                    Some(b) => 0 <= b < i && self.rows@[b as int].namespace@ == ns@ && forall|
                        j: int,
                    |
                        0 <= j < i && (#[trigger] self.rows@[j]).namespace@ == ns@ ==> le_key(
                            self.rows@[b as int],
                            self.rows@[j],
                        ),
                    None => forall|j: int|
                        0 <= j < i ==> (#[trigger] self.rows@[j]).namespace@ != ns@,
                },
            decreases self.rows@.len() - i,
        {
            if bytes_eq(self.rows[i].namespace.as_slice(), ns) {
                match best {
                    Some(b) => {
                        if lt_key(&self.rows[i], &self.rows[b]) {
                            best = Some(i);
                        }
                    },
                    None => {
                        best = Some(i);
                    },
                }
            }
            i = i + 1;
        }
        match best {
            Some(b) => b,
            None => {
                proof {
                    lemma_ns_count_member(self.rows@, ns@);
                }
                0
            },
        }
    }

    /// Evict the lowest-ranked rows of `ns` until at most `max_memories`
    /// remain, returning them.
    pub fn prune_namespace(&mut self, ns: &[u8]) -> (evicted: Vec<MemoryItem>)
        requires
            old(self).wf(),
        ensures
            final(self).wf(),
            final(self).max_memories == old(self).max_memories,
            final(self).namespace@ == old(self).namespace@,
            prune_outcome(
                old(self).rows@,
                final(self).rows@,
                evicted@,
                ns@,
                old(self).max_memories as int,
            ),
    {
        let mut evicted: Vec<MemoryItem> = Vec::new();
        let mut count = self.count_namespace(ns);
        proof {
            broadcast use group_to_multiset_ensures;

            assert(evicted@.to_multiset() =~= Multiset::<MemoryItem>::empty());
            assert(self.rows@.to_multiset().add(evicted@.to_multiset()) =~= old(
                self,
            ).rows@.to_multiset());
            lemma_ns_count_bounds(self.rows@, ns@);
        }
        while count > self.max_memories
            invariant
                self.wf(),
                self.max_memories == old(self).max_memories,
                self.namespace@ == old(self).namespace@,
                count as int == ns_count(self.rows@, ns@),
                self.rows@.to_multiset().add(evicted@.to_multiset()) == old(
                    self,
                ).rows@.to_multiset(),
                forall|i: int| 0 <= i < evicted@.len() ==> (#[trigger] evicted@[i]).namespace@
                    == ns@,
                forall|i: int, j: int|
                    0 <= i < evicted@.len() && 0 <= j < self.rows@.len() && (
                    #[trigger] self.rows@[j]).namespace@ == ns@ ==> le_key(
                        #[trigger] evicted@[i],
                        self.rows@[j],
                    ),
                count as int <= ns_count(old(self).rows@, ns@),
                ns_count(old(self).rows@, ns@) > old(self).max_memories as int ==> count as int
                    >= old(self).max_memories as int,
                ns_count(old(self).rows@, ns@) <= old(self).max_memories as int ==> self.rows@
                    == old(self).rows@ && evicted@.len() == 0,
            decreases count,
        {
            let idx = self.min_ns_row(ns);
            let ghost pre_rows = self.rows@;
            let ghost pre_evicted = evicted@;
            let row = self.rows.remove(idx);
            proof {
                lemma_rows_remove_preserves(pre_rows, idx as int);
                lemma_ns_count_remove(pre_rows, ns@, idx as int);
            }
            evicted.push(row);
            count = count - 1;
            proof {
                broadcast use group_to_multiset_ensures;

                assert(pre_rows.contains(pre_rows[idx as int]));
                assert(self.rows@.to_multiset() =~= pre_rows.to_multiset().remove(
                    pre_rows[idx as int],
                ));
                assert(evicted@.to_multiset() =~= pre_evicted.to_multiset().insert(
                    pre_rows[idx as int],
                ));
                assert(self.rows@.to_multiset().add(evicted@.to_multiset()) =~= pre_rows.to_multiset().add(
                    pre_evicted.to_multiset(),
                ));
                assert forall|i: int, j: int|
                    0 <= i < evicted@.len() && 0 <= j < self.rows@.len() && (
                    #[trigger] self.rows@[j]).namespace@ == ns@ implies le_key(
                    #[trigger] evicted@[i],
                    self.rows@[j],
                ) by {
                    let rj = if j < idx as int {
                        j
                    } else {
                        j + 1
                    };
                    assert(self.rows@[j] == pre_rows[rj]);
                    if i < pre_evicted.len() {
                        assert(evicted@[i] == pre_evicted[i]);
                    } else {
                        assert(evicted@[i] == pre_rows[idx as int]);
                    }
                }
            }
        }
        evicted
    }

    /// Insert a record under a caller-chosen identifier and prune the
    /// namespace, returning the new record and whatever was evicted.
    pub fn add_with_id(
        &mut self,
        id: Vec<u8>,
        content: &[u8],
        metadata: Vec<MetaEntry>,
        namespace: Option<&[u8]>,
        embedding: Vec<i64>,
        now: i64,
    ) -> (r: Result<(MemoryItem, Vec<MemoryItem>), MemoryError>)
        requires
            old(self).wf(),
            embedding_wf(embedding@),
            now >= 0,
        ensures
            final(self).wf(),
            final(self).max_memories == old(self).max_memories,
            final(self).namespace@ == old(self).namespace@,
            r is Err ==> final(self).rows@ == old(self).rows@,
            (r is Err && r->Err_0 is EmptyContent) <==> trim_spec(content@).len() == 0,
            (r is Err && r->Err_0 is ContentTooLong) <==> (trim_spec(content@).len()
                > MAX_CONTENT_LENGTH),
            (r is Err && r->Err_0 is InvalidNamespace) <==> (0 < trim_spec(content@).len()
                <= MAX_CONTENT_LENGTH && namespace is Some && namespace->Some_0@.len() == 0),
            (r is Err && r->Err_0 is DuplicateId) <==> (0 < trim_spec(content@).len()
                <= MAX_CONTENT_LENGTH && !(namespace is Some && namespace->Some_0@.len() == 0)
                && exists|j: int|
                0 <= j < old(self).rows@.len() && (#[trigger] old(self).rows@[j]).id@ == id@ && old(
                    self,
                ).rows@[j].namespace@ == resolved_ns(old(self).namespace@, spec_ns_arg(namespace))),
            r is Ok ==> ({
                let ns = resolved_ns(old(self).namespace@, spec_ns_arg(namespace));
                let item = r->Ok_0.0;
                let ev = r->Ok_0.1;
                &&& item.id@ == id@
                &&& item.content@ == trim_spec(content@)
                &&& item.embedding@ == embedding@
                &&& meta_eq(item.metadata@, metadata@)
                &&& item.created_at == now
                &&& item.updated_at == now
                &&& item.access_count == 0
                &&& item.priority as int == priority_initial_spec(importance_of(metadata@))
                &&& item.namespace@ == ns
                &&& exists|row: MemoryItem|
                    item_eq(row, item) && prune_outcome(
                        old(self).rows@.push(row),
                        final(self).rows@,
                        ev@,
                        ns,
                        old(self).max_memories as int,
                    )
            }),
    {
        let trimmed = trim_bytes(content);
        if trimmed.len() == 0 {
            return Err(MemoryError::EmptyContent);
        }
        if trimmed.len() > MAX_CONTENT_LENGTH {
            return Err(MemoryError::ContentTooLong);
        }
        let ns = self.resolve_namespace(namespace)?;
        if let Some(_existing) = self.find_row(id.as_slice(), ns.as_slice()) {
            return Err(MemoryError::DuplicateId);
        }
        let importance = read_importance(&metadata);
        let priority = priority_initial(importance);
        let row = MemoryItem {
            id,
            content: trimmed,
            embedding,
            metadata,
            created_at: now,
            updated_at: now,
            access_count: 0,
            priority,
            namespace: ns,
        };
        let item = duplicate_item(&row);
        let ghost grow = row;
        let ns_copy = copy_bytes(&row.namespace);
        self.rows.push(row);
        proof {
            assert forall|a: int, b: int| 0 <= a < b < self.rows@.len() implies !((
            #[trigger] self.rows@[a]).id@ == (#[trigger] self.rows@[b]).id@
                && self.rows@[a].namespace@ == self.rows@[b].namespace@) by {
                if b == self.rows@.len() - 1 {
                    assert(self.rows@[a] == old(self).rows@[a]);
                }
            }
        }
        let ghost mid_rows = self.rows@;
        let evicted = self.prune_namespace(ns_copy.as_slice());
        proof {
            let ns = resolved_ns(old(self).namespace@, spec_ns_arg(namespace));
            assert(mid_rows == old(self).rows@.push(grow));
            assert(ns_copy@ == ns);
            assert(item_eq(grow, item));
            assert(prune_outcome(
                old(self).rows@.push(grow),
                self.rows@,
                evicted@,
                ns,
                old(self).max_memories as int,
            ));
        }
        Ok((item, evicted))
    }

    /// Insert a record under a fresh random identifier and prune the
    /// namespace. The identifier is random, so a duplicate-identifier
    /// rejection, while astronomically unlikely, is possible; every other
    /// outcome is pinned down by `add_with_id`.
    pub fn add(
        &mut self,
        content: &[u8],
        metadata: Vec<MetaEntry>,
        namespace: Option<&[u8]>,
        embedding: Vec<i64>,
        now: i64,
    ) -> (r: Result<MemoryItem, MemoryError>)
        requires
            old(self).wf(),
            embedding_wf(embedding@),
            now >= 0,
        ensures
            final(self).wf(),
            final(self).max_memories == old(self).max_memories,
            final(self).namespace@ == old(self).namespace@,
            r is Err ==> final(self).rows@ == old(self).rows@,
            (r is Err && r->Err_0 is EmptyContent) <==> trim_spec(content@).len() == 0,
            (r is Err && r->Err_0 is ContentTooLong) <==> (trim_spec(content@).len()
                > MAX_CONTENT_LENGTH),
            (r is Err && r->Err_0 is InvalidNamespace) <==> (0 < trim_spec(content@).len()
                <= MAX_CONTENT_LENGTH && namespace is Some && namespace->Some_0@.len() == 0),
            r is Ok ==> ({
                let ns = resolved_ns(old(self).namespace@, spec_ns_arg(namespace));
                let item = r->Ok_0;
                &&& item.id@.len() == 36
                &&& item.content@ == trim_spec(content@)
                &&& item.embedding@ == embedding@
                &&& meta_eq(item.metadata@, metadata@)
                &&& item.created_at == now
                &&& item.updated_at == now
                &&& item.access_count == 0
                &&& item.priority as int == priority_initial_spec(importance_of(metadata@))
                &&& item.namespace@ == ns
                &&& exists|row: MemoryItem, ev: Seq<MemoryItem>|
                    item_eq(row, item) && prune_outcome(
                        old(self).rows@.push(row),
                        final(self).rows@,
                        ev,
                        ns,
                        old(self).max_memories as int,
                    )
            }),
    {
        let id = fresh_memory_id();
        match self.add_with_id(id, content, metadata, namespace, embedding, now) {
            Ok((item, ev)) => {
                proof {
                    let ns = resolved_ns(old(self).namespace@, spec_ns_arg(namespace));
                    let row = choose|row: MemoryItem|
                        item_eq(row, item) && prune_outcome(
                            old(self).rows@.push(row),
                            final(self).rows@,
                            ev@,
                            ns,
                            old(self).max_memories as int,
                        );
                    assert(item_eq(row, item) && prune_outcome(
                        old(self).rows@.push(row),
                        final(self).rows@,
                        ev@,
                        ns,
                        old(self).max_memories as int,
                    ));
                }
                Ok(item)
            },
            Err(e) => Err(e),
        }
    }
}


/// The embedding argument, as the spec sees it.
pub open spec fn spec_emb_arg(embedding: &Option<Vec<i64>>) -> Option<Seq<i64>> {
    match embedding {
        Some(e) => Some(e@),
        None => None,
    }
}

/// Everything a successful update promises: the row keyed `(id, ns)` existed,
/// and it is rewritten in place with the trimmed content, the new metadata, a
/// replacing nonempty embedding (else the stored one), a fresh `updated_at`,
/// and the priority recomputed from importance, recency and access frequency.
pub open spec fn update_post(
    old_rows: Seq<MemoryItem>,
    new_rows: Seq<MemoryItem>,
    item: MemoryItem,
    id: Seq<u8>,
    content: Seq<u8>,
    metadata: Seq<MetaEntry>,
    embedding: Option<Seq<i64>>,
    now: int,
    ns: Seq<u8>,
) -> bool {
    exists|j: int|
        0 <= j < old_rows.len() && (#[trigger] old_rows[j]).id@ == id && old_rows[j].namespace@
            == ns && {
            let prev = old_rows[j];
            &&& item.id@ == id
            &&& item.content@ == trim_spec(content)
            &&& item.embedding@ == (match embedding {
                Some(e) => if e.len() > 0 {
                    e
                } else {
                    prev.embedding@
                },
                None => prev.embedding@,
            })
            &&& meta_eq(item.metadata@, metadata)
            &&& item.created_at == prev.created_at
            &&& item.updated_at == now
            &&& item.access_count == prev.access_count
            &&& item.priority as int == priority_update_spec(
                importance_of(metadata),
                now - prev.created_at,
                prev.access_count as int,
            )
            &&& item.namespace@ == ns
            &&& exists|row: MemoryItem|
                item_eq(row, item) && new_rows == old_rows.update(j, row)
        }
}

impl VectorMemoryStore {
    /// Rewrite the row keyed `(id, namespace)`: new content, metadata and
    /// priority, recomputed from importance, recency and access frequency.
    /// A given nonempty embedding replaces the stored one; otherwise the
    /// stored embedding is kept, and a caller that changed the content is
    /// expected to pass a freshly computed embedding.
    #[verifier::rlimit(100)]
    #[verifier::spinoff_prover]
    pub fn update(
        &mut self,
        id: &[u8],
        content: &[u8],
        metadata: Vec<MetaEntry>,
        namespace: Option<&[u8]>,
        embedding: Option<Vec<i64>>,
        now: i64,
    ) -> (r: Result<Option<MemoryItem>, MemoryError>)
        requires
            old(self).wf(),
            embedding is Some ==> embedding_wf(embedding->Some_0@),
            now >= 0,
        ensures
            final(self).wf(),
            final(self).max_memories == old(self).max_memories,
            final(self).namespace@ == old(self).namespace@,
            r is Err ==> final(self).rows@ == old(self).rows@,
            r is Err ==> (r->Err_0 is EmptyContent || r->Err_0 is ContentTooLong
                || r->Err_0 is InvalidNamespace),
            (r is Err && r->Err_0 is EmptyContent) <==> trim_spec(content@).len() == 0,
            (r is Err && r->Err_0 is ContentTooLong) <==> (trim_spec(content@).len()
                > MAX_CONTENT_LENGTH),
            (r is Err && r->Err_0 is InvalidNamespace) <==> (0 < trim_spec(content@).len()
                <= MAX_CONTENT_LENGTH && namespace is Some && namespace->Some_0@.len() == 0),
            (r is Ok && r->Ok_0 is None) ==> final(self).rows@ == old(self).rows@ && (forall|
                j: int,
            |
                0 <= j < old(self).rows@.len() ==> !((#[trigger] old(self).rows@[j]).id@ == id@
                    && old(self).rows@[j].namespace@ == resolved_ns(
                    old(self).namespace@,
                    spec_ns_arg(namespace),
                ))),
            (r is Ok && r->Ok_0 is Some) ==> update_post(
                old(self).rows@,
                final(self).rows@,
                r->Ok_0->Some_0,
                id@,
                content@,
                metadata@,
                spec_emb_arg(&embedding),
                now as int,
                resolved_ns(old(self).namespace@, spec_ns_arg(namespace)),
            ),
    {
        let trimmed = trim_bytes(content);
        if trimmed.len() == 0 {
            return Err(MemoryError::EmptyContent);
        }
        if trimmed.len() > MAX_CONTENT_LENGTH {
            return Err(MemoryError::ContentTooLong);
        }
        let ns = self.resolve_namespace(namespace)?;
        let idx = match self.find_row(id, ns.as_slice()) {
            Some(i) => i,
            None => {
                return Ok(None);
            },
        };
        let prev = &self.rows[idx];
        let new_embedding: Vec<i64> = match embedding {
            Some(e) => if e.len() > 0 {
                e
            } else {
                copy_embedding(&prev.embedding)
            },
            None => copy_embedding(&prev.embedding),
        };
        let importance = read_importance(&metadata);
        let age_secs: i64 = now - prev.created_at;
        let priority = priority_update(importance, age_secs, prev.access_count);
        let row = MemoryItem {
            id: copy_bytes(&prev.id),
            content: trimmed,
            embedding: new_embedding,
            metadata,
            created_at: prev.created_at,
            updated_at: now,
            access_count: prev.access_count,
            priority,
            namespace: ns,
        };
        let item = duplicate_item(&row);
        let ghost grow = row;
        let ghost pre_rows = self.rows@;
        let _ = self.rows.remove(idx);
        self.rows.insert(idx, row);
        proof {
            assert(self.rows@ =~= pre_rows.update(idx as int, grow));
            assert forall|a: int, b: int| 0 <= a < b < self.rows@.len() implies !((
            #[trigger] self.rows@[a]).id@ == (#[trigger] self.rows@[b]).id@
                && self.rows@[a].namespace@ == self.rows@[b].namespace@) by {
                if a != idx as int && b != idx as int {
                    assert(self.rows@[a] == pre_rows[a]);
                    assert(self.rows@[b] == pre_rows[b]);
                } else if a == idx as int {
                    assert(self.rows@[b] == pre_rows[b]);
                    assert(grow.id@ == pre_rows[idx as int].id@ && grow.namespace@
                        == pre_rows[idx as int].namespace@);
                } else {
                    assert(self.rows@[a] == pre_rows[a]);
                    assert(grow.id@ == pre_rows[idx as int].id@ && grow.namespace@
                        == pre_rows[idx as int].namespace@);
                }
            }
            let j = idx as int;
            assert(item_eq(grow, item));
            assert(self.rows@ == old(self).rows@.update(j, grow));
            assert(exists|row: MemoryItem|
                item_eq(row, item) && self.rows@ == old(self).rows@.update(j, row));
            assert(update_post(
                old(self).rows@,
                self.rows@,
                item,
                id@,
                content@,
                metadata@,
                spec_emb_arg(&embedding),
                now as int,
                resolved_ns(old(self).namespace@, spec_ns_arg(namespace)),
            ));
        }
        Ok(Some(item))
    }
}

/// A record added to a namespace below its capacity is immediately
/// retrievable: the store after the add holds a row carrying the returned
/// record's identifier whose content, metadata and priority are exactly what
/// the add reported, and `get` by that id in that namespace returns it.
pub proof fn lemma_add_then_get(
    pre: Seq<MemoryItem>,
    post: Seq<MemoryItem>,
    ev: Seq<MemoryItem>,
    row: MemoryItem,
    item: MemoryItem,
    ns: Seq<u8>,
    max: int,
)
    requires
        item_eq(row, item),
        row.namespace@ == ns,
        prune_outcome(pre.push(row), post, ev, ns, max),
        ns_count(pre, ns) < max,
    ensures
        post == pre.push(row),
        exists|j: int|
            0 <= j < post.len() && (#[trigger] post[j]).id@ == item.id@ && post[j].namespace@
                == item.namespace@ && item_eq(post[j], item),
{
    lemma_ns_count_push(pre, ns, row);
    lemma_ns_count_bounds(pre, ns);
    assert(ns_count(pre.push(row), ns) <= max);
    assert(post == pre.push(row));
    assert(post[post.len() - 1] == row);
    assert(item_eq(post[post.len() - 1], item));
}

/// An embedding forced into the store's bounds: at most the supported
/// dimensionality, components clamped into the micro-unit range.
pub open spec fn clamp_embedding_spec(e: Seq<i64>) -> Seq<i64> {
    Seq::new(
        if e.len() <= EMBED_MAX_DIM {
            e.len()
        } else {
            EMBED_MAX_DIM as nat
        },
        |i: int|
            if e[i] < -EMBED_UNIT {
                ((-EMBED_UNIT) as i64)
            } else if e[i] > EMBED_UNIT {
                EMBED_UNIT
            } else {
                e[i]
            },
    )
}

/// Clamp an embedding into the store's bounds.
pub fn clamp_embedding(e: &Vec<i64>) -> (r: Vec<i64>)
    ensures
        r@ == clamp_embedding_spec(e@),
        embedding_wf(r@),
{
    let limit: usize = if e.len() <= EMBED_MAX_DIM {
        e.len()
    } else {
        EMBED_MAX_DIM
    };
    let mut r: Vec<i64> = Vec::new();
    let mut i: usize = 0;
    while i < limit
        invariant
            i <= limit,
            limit == if e@.len() <= EMBED_MAX_DIM {
                e@.len() as int
            } else {
                EMBED_MAX_DIM as int
            },
            r@.len() == i,
            forall|j: int| 0 <= j < i ==> #[trigger] r@[j] == clamp_embedding_spec(e@)[j],
        decreases limit - i,
    {
        let x = e[i];
        if x < -EMBED_UNIT {
            r.push(-EMBED_UNIT);
        } else if x > EMBED_UNIT {
            r.push(EMBED_UNIT);
        } else {
            r.push(x);
        }
        i = i + 1;
    }
    proof {
        assert(r@ =~= clamp_embedding_spec(e@));
    }
    r
}

impl VectorMemoryStore {
    /// Put a persisted record back into the store as it was saved: nothing
    /// is re-derived - the access counter, timestamps and priority come back
    /// clamped into their invariants rather than recomputed.
    pub fn restore(&mut self, item: MemoryItem) -> (r: Result<(), MemoryError>)
        requires
            old(self).wf(),
        ensures
            final(self).wf(),
            final(self).max_memories == old(self).max_memories,
            final(self).namespace@ == old(self).namespace@,
            r is Err ==> final(self).rows@ == old(self).rows@,
            (r is Err && r->Err_0 is EmptyContent) <==> item.content@.len() == 0,
            (r is Err && r->Err_0 is ContentTooLong) <==> item.content@.len()
                > MAX_CONTENT_LENGTH,
            (r is Err && r->Err_0 is InvalidNamespace) <==> (0 < item.content@.len()
                <= MAX_CONTENT_LENGTH && item.namespace@.len() == 0),
            (r is Err && r->Err_0 is DuplicateId) <==> (0 < item.content@.len()
                <= MAX_CONTENT_LENGTH && item.namespace@.len() > 0 && exists|j: int|
                0 <= j < old(self).rows@.len() && (#[trigger] old(self).rows@[j]).id@
                    == item.id@ && old(self).rows@[j].namespace@ == sanitize_namespace_spec(
                    item.namespace@,
                )),
            r is Ok ==> final(self).rows@.len() == old(self).rows@.len() + 1 && final(self).rows@.subrange(0, old(self).rows@.len() as int) == old(self).rows@ && {
                let row = final(self).rows@.last();
                &&& row.id@ == item.id@
                &&& row.content@ == item.content@
                &&& row.embedding@ == clamp_embedding_spec(item.embedding@)
                &&& meta_eq(row.metadata@, item.metadata@)
                &&& row.created_at == (if item.created_at >= 0 {
                    item.created_at as int
                } else {
                    0
                })
                &&& row.updated_at == (if item.updated_at >= 0 {
                    item.updated_at as int
                } else {
                    0
                })
                &&& row.access_count == item.access_count
                &&& row.priority as int == clamp01_spec(item.priority as int)
                &&& row.namespace@ == sanitize_namespace_spec(item.namespace@)
            },
    {
        if item.content.len() == 0 {
            return Err(MemoryError::EmptyContent);
        }
        if item.content.len() > MAX_CONTENT_LENGTH {
            return Err(MemoryError::ContentTooLong);
        }
        let ns = validate_namespace(item.namespace.as_slice())?;
        if let Some(_existing) = self.find_row(item.id.as_slice(), ns.as_slice()) {
            return Err(MemoryError::DuplicateId);
        }
        let row = MemoryItem {
            id: item.id,
            content: item.content,
            embedding: clamp_embedding(&item.embedding),
            metadata: item.metadata,
            created_at: if item.created_at >= 0 {
                item.created_at
            } else {
                0
            },
            updated_at: if item.updated_at >= 0 {
                item.updated_at
            } else {
                0
            },
            access_count: item.access_count,
            priority: crate::score::clamp01(item.priority),
            namespace: ns,
        };
        self.rows.push(row);
        proof {
            assert(final(self).rows@.subrange(0, old(self).rows@.len() as int) =~= old(
                self,
            ).rows@);
            assert forall|a: int, b: int| 0 <= a < b < self.rows@.len() implies !((
            #[trigger] self.rows@[a]).id@ == (#[trigger] self.rows@[b]).id@
                && self.rows@[a].namespace@ == self.rows@[b].namespace@) by {
                if b == self.rows@.len() - 1 {
                    assert(self.rows@[a] == old(self).rows@[a]);
                }
            }
        }
        Ok(())
    }
}

/// Metadata agreement is transitive.
proof fn lemma_meta_eq_trans(a: Seq<MetaEntry>, b: Seq<MetaEntry>, c: Seq<MetaEntry>)
    requires
        meta_eq(a, b),
        meta_eq(b, c),
    ensures
        meta_eq(a, c),
{
    assert forall|i: int|
        0 <= i < a.len() implies (#[trigger] a[i]).key@ == (#[trigger] c[i]).key@
        && meta_value_eq(a[i].value, c[i].value) by {
        assert(a[i].key@ == b[i].key@ && meta_value_eq(a[i].value, b[i].value));
        assert(b[i].key@ == c[i].key@ && meta_value_eq(b[i].value, c[i].value));
        match a[i].value {
            MetaValue::Text(_) => {},
            MetaValue::Int(_) => {},
            MetaValue::Score(_) => {},
        }
    }
}

/// `item` is a copy of some row of the namespace.
pub open spec fn copied_row(old_rows: Seq<MemoryItem>, item: MemoryItem, ns: Seq<u8>) -> bool {
    exists|j: int|
        0 <= j < old_rows.len() && (#[trigger] old_rows[j]).namespace@ == ns && item_eq(
            item,
            old_rows[j],
        )
}

/// Every returned record is a copy of a row of the searched namespace.
pub open spec fn results_from_rows(
    old_rows: Seq<MemoryItem>,
    res: Seq<(MemoryItem, i64)>,
    ns: Seq<u8>,
) -> bool {
    forall|k: int| 0 <= k < res.len() ==> copied_row(old_rows, (#[trigger] res[k]).0, ns)
}

/// Everything a successful search promises: result size, exact similarity at
/// or above the threshold, membership in the searched namespace, ranking by
/// the blended score, completeness below the row cap, and the access-count
/// bumps on exactly the returned rows.
pub open spec fn search_post(
    old_rows: Seq<MemoryItem>,
    new_rows: Seq<MemoryItem>,
    res: Seq<(MemoryItem, i64)>,
    ns: Seq<u8>,
    q: Seq<i64>,
    w: int,
    top_k: int,
    threshold: int,
) -> bool {
    &&& res.len() <= top_k
    &&& forall|k: int|
        0 <= k < res.len() ==> (#[trigger] res[k]).1 as int == similarity_spec(
            q,
            res[k].0.embedding@,
        ) && res[k].1 as int >= threshold
    &&& results_from_rows(old_rows, res, ns)
    &&& forall|a: int, b: int|
        0 <= a < b < res.len() ==> combined_spec(
            (#[trigger] res[a]).1 as int,
            res[a].0.priority as int,
            w,
        ) >= combined_spec((#[trigger] res[b]).1 as int, res[b].0.priority as int, w)
    &&& forall|k1: int, k2: int|
        0 <= k1 < k2 < res.len() ==> (#[trigger] res[k1]).0.id@ != (#[trigger] res[k2]).0.id@
    &&& (ns_count(old_rows, ns) <= MAX_SEARCH_ROWS as int ==> forall|j: int|
        0 <= j < old_rows.len() && (#[trigger] old_rows[j]).namespace@ == ns && similarity_spec(
            q,
            old_rows[j].embedding@,
        ) >= threshold ==> ((exists|k: int|
            0 <= k < res.len() && (#[trigger] res[k]).0.id@ == old_rows[j].id@) || (forall|k: int|
            0 <= k < res.len() ==> combined_spec(
                (#[trigger] res[k]).1 as int,
                res[k].0.priority as int,
                w,
            ) >= combined_spec(
                similarity_spec(q, old_rows[j].embedding@),
                old_rows[j].priority as int,
                w,
            ))))
    &&& (ns_count(old_rows, ns) <= MAX_SEARCH_ROWS as int ==> res.len() == (if top_k <= qual_count(
        old_rows,
        ns,
        q,
        threshold,
    ) {
        top_k
    } else {
        qual_count(old_rows, ns, q, threshold)
    }))
    &&& new_rows.len() == old_rows.len()
    &&& forall|j: int|
        0 <= j < old_rows.len() ==> same_except_access(#[trigger] old_rows[j], new_rows[j])
    &&& forall|j: int|
        0 <= j < old_rows.len() ==> ((exists|k: int|
            0 <= k < res.len() && (#[trigger] res[k]).0.id@ == (#[trigger] old_rows[j]).id@
                && old_rows[j].namespace@ == ns) ==> new_rows[j].access_count as int
            == bumped_access(old_rows[j].access_count))
    &&& forall|j: int|
        0 <= j < old_rows.len() ==> (!(exists|k: int|
            0 <= k < res.len() && (#[trigger] res[k]).0.id@ == (#[trigger] old_rows[j]).id@
                && old_rows[j].namespace@ == ns) ==> new_rows[j].access_count == old_rows[
            j
        ].access_count)
}

/// A scored candidate: a row index, its similarity, and the blended key.
struct Scored {
    idx: usize,
    sim: i64,
    key: i128,
}

/// Equal in every field but the access counter.
pub open spec fn same_except_access(a: MemoryItem, b: MemoryItem) -> bool {
    &&& a.id@ == b.id@
    &&& a.content@ == b.content@
    &&& a.embedding@ == b.embedding@
    &&& meta_eq(a.metadata@, b.metadata@)
    &&& a.created_at == b.created_at
    &&& a.updated_at == b.updated_at
    &&& a.priority == b.priority
    &&& a.namespace@ == b.namespace@
}

/// The access counter after one retrieval; it saturates rather than wraps.
pub open spec fn bumped_access(c: u64) -> int {
    if c < u64::MAX {
        c + 1
    } else {
        c as int
    }
}

/// How many rows of `ns` clear the similarity threshold for `q`.
pub open spec fn qual_count(rows: Seq<MemoryItem>, ns: Seq<u8>, q: Seq<i64>, thr: int) -> int
    decreases rows.len()
{
    if rows.len() == 0 {
        0
    } else {
        (if rows[0].namespace@ == ns && similarity_spec(q, rows[0].embedding@) >= thr {
            1int
        } else {
            0int
        }) + qual_count(rows.drop_first(), ns, q, thr)
    }
}

proof fn lemma_qual_count_push(
    rows: Seq<MemoryItem>,
    ns: Seq<u8>,
    q: Seq<i64>,
    thr: int,
    row: MemoryItem,
)
    ensures
        qual_count(rows.push(row), ns, q, thr) == qual_count(rows, ns, q, thr) + (
        if row.namespace@ == ns && similarity_spec(q, row.embedding@) >= thr {
            1int
        } else {
            0int
        }),
    decreases rows.len()
{
    if rows.len() == 0 {
        assert(rows.push(row).drop_first() =~= Seq::<MemoryItem>::empty());
        assert(qual_count(Seq::<MemoryItem>::empty(), ns, q, thr) == 0);
        assert(rows.push(row)[0] == row);
    } else {
        assert(rows.push(row).drop_first() =~= rows.drop_first().push(row));
        assert(rows.push(row)[0] == rows[0]);
        lemma_qual_count_push(rows.drop_first(), ns, q, thr, row);
    }
}

impl VectorMemoryStore {
    /// Similarity search in one namespace: every row of the namespace is
    /// scored against the query (capped at `MAX_SEARCH_ROWS` rows, keeping
    /// the highest-priority, most recently updated ones - a deliberate
    /// recall-for-latency trade), rows below `threshold` are dropped, the
    /// rest are ranked by `similarity * (1 - priority_weight) + priority *
    /// priority_weight`, the best `top_k` come back with their similarity,
    /// and each returned row's access counter is bumped. The returned
    /// records show the counters as they were before the bump.
    #[verifier::rlimit(100)]
    #[verifier::spinoff_prover]
    pub fn search(
        &mut self,
        query_embedding: &[i64],
        top_k: usize,
        threshold: i64,
        namespace: Option<&[u8]>,
        priority_weight: i64,
    ) -> (r: Result<Vec<(MemoryItem, i64)>, MemoryError>)
        requires
            old(self).wf(),
            embedding_wf(query_embedding@),
            score_wf(priority_weight),
        ensures
            final(self).wf(),
            final(self).max_memories == old(self).max_memories,
            final(self).namespace@ == old(self).namespace@,
            r is Err <==> (namespace is Some && namespace->Some_0@.len() == 0),
            r is Err ==> final(self).rows@ == old(self).rows@,
            r is Ok ==> search_post(
                old(self).rows@,
                final(self).rows@,
                r->Ok_0@,
                resolved_ns(old(self).namespace@, spec_ns_arg(namespace)),
                query_embedding@,
                priority_weight as int,
                top_k as int,
                threshold as int,
            ),
    {
        let ns = self.resolve_namespace(namespace)?;
        let ghost ns_spec = ns@;
        let ghost q = query_embedding@;
        let ghost w = priority_weight as int;
        let ghost rows0 = self.rows@;

        // Score every row of the namespace.
        let mut scored: Vec<Scored> = Vec::new();
        let mut i: usize = 0;
        proof {
            assert(rows0.subrange(0, 0) =~= Seq::<MemoryItem>::empty());
        }
        while i < self.rows.len()
            invariant
                self.wf(),
                self == old(self),
                rows0 == self.rows@,
                ns@ == ns_spec,
                q == query_embedding@,
                embedding_wf(q),
                score_wf(priority_weight),
                w == priority_weight as int,
                i <= rows0.len(),
                scored@.len() == ns_count(rows0.subrange(0, i as int), ns_spec),
                forall|t: int|
                    0 <= t < scored@.len() ==> {
                        let s = #[trigger] scored@[t];
                        &&& 0 <= s.idx < i
                        &&& rows0[s.idx as int].namespace@ == ns_spec
                        &&& s.sim as int == similarity_spec(q, rows0[s.idx as int].embedding@)
                        &&& s.key as int == combined_spec(
                            s.sim as int,
                            rows0[s.idx as int].priority as int,
                            w,
                        )
                        &&& -SCALE <= s.sim <= SCALE
                    },
                forall|t1: int, t2: int|
                    0 <= t1 < t2 < scored@.len() ==> (#[trigger] scored@[t1]).idx < (
                    #[trigger] scored@[t2]).idx,
                forall|j: int|
                    0 <= j < i && (#[trigger] rows0[j]).namespace@ == ns_spec ==> exists|t: int|
                        0 <= t < scored@.len() && (#[trigger] scored@[t]).idx == j,
                scored_qual(scored@, threshold as int) == qual_count(
                    rows0.subrange(0, i as int),
                    ns_spec,
                    q,
                    threshold as int,
                ),
            decreases rows0.len() - i,
        {
            proof {
                assert(rows0.subrange(0, i + 1) =~= rows0.subrange(0, i as int).push(
                    rows0[i as int],
                ));
                lemma_ns_count_push(rows0.subrange(0, i as int), ns_spec, rows0[i as int]);
                lemma_qual_count_push(
                    rows0.subrange(0, i as int),
                    ns_spec,
                    q,
                    threshold as int,
                    rows0[i as int],
                );
            }
            if bytes_eq(self.rows[i].namespace.as_slice(), ns.as_slice()) {
                let sim = cosine_similarity(query_embedding, self.rows[i].embedding.as_slice());
                let key = combined_score(sim, self.rows[i].priority, priority_weight);
                let ghost pre = scored@;
                scored.push(Scored { idx: i, sim, key });
                proof {
                    lemma_scored_qual_push(pre, Scored { idx: i, sim, key }, threshold as int);
                    assert forall|j: int|
                        0 <= j < i + 1 && (#[trigger] rows0[j]).namespace@
                            == ns_spec implies exists|t: int|
                        0 <= t < scored@.len() && (#[trigger] scored@[t]).idx == j by {
                        if j < i {
                            let t = choose|t: int|
                                0 <= t < pre.len() && (#[trigger] pre[t]).idx == j;
                            assert(scored@[t].idx == j);
                        } else {
                            assert(scored@[scored@.len() - 1].idx == j);
                        }
                    }
                }
            }
            i = i + 1;
        }
        proof {
            assert(rows0.subrange(0, rows0.len() as int) =~= rows0);
        }
        let ghost uncapped = scored@.len() <= MAX_SEARCH_ROWS as int;
        proof {
            assert(uncapped == (ns_count(rows0, ns_spec) <= MAX_SEARCH_ROWS as int));
        }

        // Keep only the highest-priority, most recent rows past the cap.
        while scored.len() > MAX_SEARCH_ROWS
            invariant
                self.wf(),
                self == old(self),
                rows0 == self.rows@,
                ns@ == ns_spec,
                q == query_embedding@,
                w == priority_weight as int,
                uncapped == (ns_count(rows0, ns_spec) <= MAX_SEARCH_ROWS as int),
                uncapped ==> scored@.len() == ns_count(rows0, ns_spec) && scored_qual(
                    scored@,
                    threshold as int,
                ) == qual_count(rows0, ns_spec, q, threshold as int),
                uncapped ==> forall|j: int|
                    0 <= j < rows0.len() && (#[trigger] rows0[j]).namespace@ == ns_spec
                        ==> exists|t: int|
                        0 <= t < scored@.len() && (#[trigger] scored@[t]).idx == j,
                forall|t: int|
                    0 <= t < scored@.len() ==> {
                        let s = #[trigger] scored@[t];
                        &&& 0 <= s.idx < rows0.len()
                        &&& rows0[s.idx as int].namespace@ == ns_spec
                        &&& s.sim as int == similarity_spec(q, rows0[s.idx as int].embedding@)
                        &&& s.key as int == combined_spec(
                            s.sim as int,
                            rows0[s.idx as int].priority as int,
                            w,
                        )
                        &&& -SCALE <= s.sim <= SCALE
                    },
                forall|t1: int, t2: int|
                    0 <= t1 < t2 < scored@.len() ==> (#[trigger] scored@[t1]).idx < (
                    #[trigger] scored@[t2]).idx,
            decreases scored@.len(),
        {
            let mut worst: usize = 0;
            let mut t: usize = 1;
            while t < scored.len()
                invariant
                    1 <= t <= scored@.len(),
                    0 < scored@.len(),
                    worst < t,
                    rows0 == self.rows@,
                    forall|u: int|
                        0 <= u < scored@.len() ==> 0 <= (#[trigger] scored@[u]).idx
                            < rows0.len(),
                    forall|u: int|
                        0 <= u < t ==> le_key(
                            rows0[(#[trigger] scored@[worst as int]).idx as int],
                            rows0[(#[trigger] scored@[u]).idx as int],
                        ),
                decreases scored@.len() - t,
            {
                if lt_key(
                    &self.rows[scored[t].idx],
                    &self.rows[scored[worst].idx],
                ) {
                    worst = t;
                }
                t = t + 1;
            }
            let ghost pre = scored@;
            let _ = scored.remove(worst);
            proof {
                assert forall|t1: int, t2: int| 0 <= t1 < t2 < scored@.len() implies (
                #[trigger] scored@[t1]).idx < (#[trigger] scored@[t2]).idx by {
                    let r1 = if t1 < worst as int {
                        t1
                    } else {
                        t1 + 1
                    };
                    let r2 = if t2 < worst as int {
                        t2
                    } else {
                        t2 + 1
                    };
                    assert(scored@[t1] == pre[r1]);
                    assert(scored@[t2] == pre[r2]);
                }
            }
        }

        // Drop candidates under the similarity threshold.
        let mut qualified: Vec<Scored> = Vec::new();
        let mut t: usize = 0;
        while t < scored.len()
            invariant
                t <= scored@.len(),
                rows0 == self.rows@,
                forall|u: int|
                    0 <= u < scored@.len() ==> {
                        let s = #[trigger] scored@[u];
                        &&& 0 <= s.idx < rows0.len()
                        &&& rows0[s.idx as int].namespace@ == ns_spec
                        &&& s.sim as int == similarity_spec(q, rows0[s.idx as int].embedding@)
                        &&& s.key as int == combined_spec(
                            s.sim as int,
                            rows0[s.idx as int].priority as int,
                            w,
                        )
                        &&& -SCALE <= s.sim <= SCALE
                    },
                forall|t1: int, t2: int|
                    0 <= t1 < t2 < scored@.len() ==> (#[trigger] scored@[t1]).idx < (
                    #[trigger] scored@[t2]).idx,
                qualified@.len() == scored_qual(scored@.subrange(0, t as int), threshold as int),
                forall|u: int|
                    0 <= u < qualified@.len() ==> {
                        let s = #[trigger] qualified@[u];
                        &&& 0 <= s.idx < rows0.len()
                        &&& rows0[s.idx as int].namespace@ == ns_spec
                        &&& s.sim as int == similarity_spec(q, rows0[s.idx as int].embedding@)
                        &&& s.key as int == combined_spec(
                            s.sim as int,
                            rows0[s.idx as int].priority as int,
                            w,
                        )
                        &&& s.sim as int >= threshold as int
                    },
                forall|t1: int, t2: int|
                    0 <= t1 < t2 < qualified@.len() ==> (#[trigger] qualified@[t1]).idx < (
                    #[trigger] qualified@[t2]).idx,
                qualified@.len() > 0 && t > 0 ==> qualified@[qualified@.len() - 1].idx
                    <= scored@[t - 1].idx,
                qualified@.len() > 0 ==> t > 0,
                uncapped == (ns_count(rows0, ns_spec) <= MAX_SEARCH_ROWS as int),
                uncapped ==> forall|j: int|
                    0 <= j < rows0.len() && (#[trigger] rows0[j]).namespace@ == ns_spec
                        ==> exists|t2: int|
                        0 <= t2 < scored@.len() && (#[trigger] scored@[t2]).idx == j,
                forall|u: int|
                    0 <= u < t && (#[trigger] scored@[u]).sim as int >= threshold as int
                        ==> exists|v: int|
                        0 <= v < qualified@.len() && (#[trigger] qualified@[v]).idx
                            == scored@[u].idx,
            decreases scored@.len() - t,
        {
            proof {
                assert(scored@.subrange(0, t + 1) =~= scored@.subrange(0, t as int).push(
                    scored@[t as int],
                ));
                lemma_scored_qual_push(
                    scored@.subrange(0, t as int),
                    scored@[t as int],
                    threshold as int,
                );
            }
            let ghost qual_pre = qualified@;
            if scored[t].sim >= threshold {
                let s = &scored[t];
                qualified.push(Scored { idx: s.idx, sim: s.sim, key: s.key });
            }
            proof {
                assert forall|u: int|
                    0 <= u < t + 1 && (#[trigger] scored@[u]).sim as int
                        >= threshold as int implies exists|v: int|
                    0 <= v < qualified@.len() && (#[trigger] qualified@[v]).idx
                        == scored@[u].idx by {
                    if u < t {
                        let v = choose|v: int|
                            0 <= v < qual_pre.len() && (#[trigger] qual_pre[v]).idx
                                == scored@[u].idx;
                        assert(qualified@[v].idx == scored@[u].idx);
                    } else {
                        assert(qualified@[qualified@.len() - 1].idx == scored@[t as int].idx);
                    }
                }
            }
            t = t + 1;
        }
        proof {
            assert(scored@.subrange(0, scored@.len() as int) =~= scored@);
        }
        let ghost qual0_len = qualified@.len();
        let ghost qual0_seq = qualified@;
        proof {
            if uncapped {
                assert forall|j: int|
                    0 <= j < rows0.len() && (#[trigger] rows0[j]).namespace@ == ns_spec
                        && similarity_spec(q, rows0[j].embedding@)
                        >= threshold as int implies exists|tq: int|
                    0 <= tq < qual0_seq.len() && (#[trigger] qual0_seq[tq]).idx == j by {
                    let t2 = choose|t2: int|
                        0 <= t2 < scored@.len() && (#[trigger] scored@[t2]).idx == j;
                    assert(scored@[t2].sim as int >= threshold as int);
                    let v = choose|v: int|
                        0 <= v < qualified@.len() && (#[trigger] qualified@[v]).idx
                            == scored@[t2].idx;
                    assert(qual0_seq[v].idx == j);
                }
            }
        }

        // Select the best `top_k` and bump their access counters.
        let mut out: Vec<(MemoryItem, i64)> = Vec::new();
        let ghost mut sel_idxs: Seq<int> = Seq::empty();
        proof {
            assert forall|tq: int| 0 <= tq < qual0_seq.len() implies ((exists|u: int|
                0 <= u < qualified@.len() && (#[trigger] qualified@[u]).idx == (
                #[trigger] qual0_seq[tq]).idx) || sel_idxs.contains(
                qual0_seq[tq].idx as int,
            )) by {
                assert(qualified@[tq].idx == qual0_seq[tq].idx);
            }
        }
        while out.len() < top_k && qualified.len() > 0
            invariant
                self.wf(),
                self.max_memories == old(self).max_memories,
                self.namespace@ == old(self).namespace@,
                rows0 == old(self).rows@,
                ns@ == ns_spec,
                q == query_embedding@,
                w == priority_weight as int,
                out@.len() + qualified@.len() == qual0_len,
                out@.len() <= top_k,
                uncapped == (ns_count(rows0, ns_spec) <= MAX_SEARCH_ROWS as int),
                uncapped ==> qual0_len == qual_count(rows0, ns_spec, q, threshold as int),
                sel_idxs.len() == out@.len(),
                self.rows@.len() == rows0.len(),
                forall|j: int|
                    0 <= j < rows0.len() ==> same_except_access(
                        #[trigger] rows0[j],
                        self.rows@[j],
                    ),
                forall|j: int|
                    0 <= j < rows0.len() ==> if sel_idxs.contains(j) {
                        self.rows@[j].access_count as int == bumped_access(
                            rows0[j].access_count,
                        )
                    } else {
                        self.rows@[j].access_count == (#[trigger] rows0[j]).access_count
                    },
                forall|k: int|
                    0 <= k < out@.len() ==> 0 <= #[trigger] sel_idxs[k] < rows0.len()
                        && rows0[sel_idxs[k]].namespace@ == ns_spec && item_eq(
                        out@[k].0,
                        rows0[sel_idxs[k]],
                    ),
                forall|k: int|
                    0 <= k < out@.len() ==> (#[trigger] out@[k]).1 as int == similarity_spec(
                        q,
                        out@[k].0.embedding@,
                    ) && out@[k].1 as int >= threshold as int,
                forall|a: int, b: int|
                    0 <= a < b < out@.len() ==> combined_spec(
                        (#[trigger] out@[a]).1 as int,
                        out@[a].0.priority as int,
                        w,
                    ) >= combined_spec((#[trigger] out@[b]).1 as int, out@[b].0.priority as int, w),
                forall|u: int|
                    0 <= u < qualified@.len() ==> {
                        let s = #[trigger] qualified@[u];
                        &&& 0 <= s.idx < rows0.len()
                        &&& rows0[s.idx as int].namespace@ == ns_spec
                        &&& s.sim as int == similarity_spec(q, rows0[s.idx as int].embedding@)
                        &&& s.key as int == combined_spec(
                            s.sim as int,
                            rows0[s.idx as int].priority as int,
                            w,
                        )
                        &&& s.sim as int >= threshold as int
                        &&& !sel_idxs.contains(s.idx as int)
                    },
                forall|t1: int, t2: int|
                    0 <= t1 < t2 < qualified@.len() ==> (#[trigger] qualified@[t1]).idx != (
                    #[trigger] qualified@[t2]).idx,
                forall|u: int, k: int|
                    0 <= u < qualified@.len() && 0 <= k < out@.len() ==> combined_spec(
                        (#[trigger] out@[k]).1 as int,
                        out@[k].0.priority as int,
                        w,
                    ) >= (#[trigger] qualified@[u]).key as int,
                forall|k1: int, k2: int|
                    0 <= k1 < k2 < sel_idxs.len() ==> #[trigger] sel_idxs[k1]
                        != #[trigger] sel_idxs[k2],
                forall|tq: int|
                    0 <= tq < qual0_seq.len() ==> {
                        let s = #[trigger] qual0_seq[tq];
                        &&& 0 <= s.idx < rows0.len()
                        &&& rows0[s.idx as int].namespace@ == ns_spec
                        &&& s.sim as int == similarity_spec(q, rows0[s.idx as int].embedding@)
                        &&& s.key as int == combined_spec(
                            s.sim as int,
                            rows0[s.idx as int].priority as int,
                            w,
                        )
                        &&& s.sim as int >= threshold as int
                    },
                uncapped ==> forall|j: int|
                    0 <= j < rows0.len() && (#[trigger] rows0[j]).namespace@ == ns_spec
                        && similarity_spec(q, rows0[j].embedding@) >= threshold as int
                        ==> exists|tq: int|
                        0 <= tq < qual0_seq.len() && (#[trigger] qual0_seq[tq]).idx == j,
                forall|tq: int|
                    0 <= tq < qual0_seq.len() ==> ((exists|u: int|
                        0 <= u < qualified@.len() && (#[trigger] qualified@[u]).idx == (
                        #[trigger] qual0_seq[tq]).idx) || sel_idxs.contains(
                        qual0_seq[tq].idx as int,
                    )),
            decreases top_k - out@.len(),
        {
            let mut best: usize = 0;
            let mut u: usize = 1;
            while u < qualified.len()
                invariant
                    1 <= u <= qualified@.len(),
                    0 < qualified@.len(),
                    best < u,
                    forall|v: int|
                        0 <= v < u ==> (#[trigger] qualified@[v]).key
                            <= qualified@[best as int].key,
                decreases qualified@.len() - u,
            {
                if qualified[u].key > qualified[best].key {
                    best = u;
                }
                u = u + 1;
            }
            let ghost qual_pre = qualified@;
            let chosen = qualified.remove(best);
            let idx = chosen.idx;
            proof {
                assert(chosen == qual_pre[best as int]);
                assert(!sel_idxs.contains(idx as int));
                assert(forall|u: int|
                    0 <= u < qualified@.len() ==> (#[trigger] qualified@[u]) == qual_pre[
                        if u < best as int {
                            u
                        } else {
                            u + 1
                        }
                    ]);
                assert forall|u: int| 0 <= u < qualified@.len() implies (
                #[trigger] qualified@[u]).idx != idx as int by {
                    let v = if u < best as int {
                        u
                    } else {
                        u + 1
                    };
                    assert(qualified@[u] == qual_pre[v]);
                }
            }
            let item = duplicate_item(&self.rows[idx]);
            let ghost pre_rows = self.rows@;
            proof {
                assert(same_except_access(rows0[idx as int], pre_rows[idx as int]));
                assert(pre_rows[idx as int].access_count == rows0[idx as int].access_count);
                assert(item_eq(item, pre_rows[idx as int]));
                lemma_meta_eq_trans(
                    item.metadata@,
                    pre_rows[idx as int].metadata@,
                    rows0[idx as int].metadata@,
                );
                assert(item_eq(item, rows0[idx as int]));
            }
            let row = self.rows.remove(idx);
            let bumped_count: u64 = if row.access_count < u64::MAX {
                row.access_count + 1
            } else {
                row.access_count
            };
            let bumped_row = MemoryItem {
                id: row.id,
                content: row.content,
                embedding: row.embedding,
                metadata: row.metadata,
                created_at: row.created_at,
                updated_at: row.updated_at,
                access_count: bumped_count,
                priority: row.priority,
                namespace: row.namespace,
            };
            self.rows.insert(idx, bumped_row);
            out.push((item, chosen.sim));
            proof {
                let ghost sel_old = sel_idxs;
                assert(self.rows@ =~= pre_rows.update(idx as int, self.rows@[idx as int]));
                sel_idxs = sel_idxs.push(idx as int);
                assert(item_eq(item, rows0[idx as int]));
                assert(sel_idxs[sel_idxs.len() - 1] == idx as int);
                assert(forall|k: int| 0 <= k < sel_old.len() ==> sel_idxs[k] == sel_old[k]);
                assert forall|a: int, b: int| 0 <= a < b < self.rows@.len() implies !((
                #[trigger] self.rows@[a]).id@ == (#[trigger] self.rows@[b]).id@
                    && self.rows@[a].namespace@ == self.rows@[b].namespace@) by {
                    assert(same_except_access(rows0[a], self.rows@[a]));
                    assert(same_except_access(rows0[b], self.rows@[b]));
                }
                assert forall|j: int| 0 <= j < rows0.len() implies (sel_idxs.contains(j) <==> (
                sel_old.contains(j) || j == idx as int)) by {
                    if sel_idxs.contains(j) {
                        let k = choose|k: int| 0 <= k < sel_idxs.len() && sel_idxs[k] == j;
                        if k < sel_old.len() {
                            assert(sel_old[k] == j);
                        }
                    }
                    if sel_old.contains(j) {
                        let k = choose|k: int| 0 <= k < sel_old.len() && sel_old[k] == j;
                        assert(sel_idxs[k] == j);
                    }
                    if j == idx as int {
                        assert(sel_idxs[sel_idxs.len() - 1] == j);
                    }
                }
                assert forall|k1: int, k2: int|
                    0 <= k1 < k2 < sel_idxs.len() implies #[trigger] sel_idxs[k1]
                    != #[trigger] sel_idxs[k2] by {
                    if k2 == sel_idxs.len() - 1 {
                        assert(sel_idxs[k1] == sel_old[k1]);
                        assert(sel_old.contains(sel_old[k1]));
                    } else {
                        assert(sel_idxs[k1] == sel_old[k1]);
                        assert(sel_idxs[k2] == sel_old[k2]);
                    }
                }
                assert forall|tq: int| 0 <= tq < qual0_seq.len() implies ((exists|u: int|
                    0 <= u < qualified@.len() && (#[trigger] qualified@[u]).idx == (
                    #[trigger] qual0_seq[tq]).idx) || sel_idxs.contains(
                    qual0_seq[tq].idx as int,
                )) by {
                    if exists|u: int|
                        0 <= u < qual_pre.len() && (#[trigger] qual_pre[u]).idx
                            == qual0_seq[tq].idx {
                        let u = choose|u: int|
                            0 <= u < qual_pre.len() && (#[trigger] qual_pre[u]).idx
                                == qual0_seq[tq].idx;
                        if u == best as int {
                            assert(qual0_seq[tq].idx == idx as int);
                            assert(sel_idxs.contains(qual0_seq[tq].idx as int));
                        } else {
                            let u2 = if u < best as int {
                                u
                            } else {
                                u - 1
                            };
                            assert(qualified@[u2] == qual_pre[u]);
                        }
                    } else {
                        assert(sel_old.contains(qual0_seq[tq].idx as int));
                    }
                }
            }
        }
        proof {
            lemma_search_membership(rows0, out@, sel_idxs, ns_spec);
            lemma_search_finish(
                rows0,
                self.rows@,
                out@,
                sel_idxs,
                qualified@,
                qual0_seq,
                ns_spec,
                q,
                w,
                top_k as int,
                threshold as int,
                uncapped,
                qual0_len as int,
            );
        }
        Ok(out)
    }
}

/// The selected indices witness that every returned record copies a row of
/// the namespace.
#[verifier::spinoff_prover]
proof fn lemma_search_membership(
    rows0: Seq<MemoryItem>,
    out: Seq<(MemoryItem, i64)>,
    sel_idxs: Seq<int>,
    ns_spec: Seq<u8>,
)
    requires
        sel_idxs.len() == out.len(),
        forall|k: int|
            0 <= k < out.len() ==> 0 <= #[trigger] sel_idxs[k] < rows0.len()
                && rows0[sel_idxs[k]].namespace@ == ns_spec && item_eq(
                out[k].0,
                rows0[sel_idxs[k]],
            ),
    ensures
        results_from_rows(rows0, out, ns_spec),
{
    assert forall|k: int| 0 <= k < out.len() implies copied_row(
        rows0,
        (#[trigger] out[k]).0,
        ns_spec,
    ) by {
        let j = sel_idxs[k];
        assert(0 <= j < rows0.len() && rows0[j].namespace@ == ns_spec && item_eq(
            out[k].0,
            rows0[j],
        ));
        assert(copied_row(rows0, out[k].0, ns_spec));
    }
}

/// Assemble the search postcondition from the selection loop's final state.
#[verifier::rlimit(100)]
#[verifier::spinoff_prover]
proof fn lemma_search_finish(
    rows0: Seq<MemoryItem>,
    new_rows: Seq<MemoryItem>,
    out: Seq<(MemoryItem, i64)>,
    sel_idxs: Seq<int>,
    qualified: Seq<Scored>,
    qual0_seq: Seq<Scored>,
    ns_spec: Seq<u8>,
    q: Seq<i64>,
    w: int,
    top_k: int,
    threshold: int,
    uncapped: bool,
    qual0_len: int,
)
    requires
        rows_unique(rows0),
        out.len() + qualified.len() == qual0_len,
        out.len() <= top_k,
        out.len() == top_k || qualified.len() == 0,
        uncapped == (ns_count(rows0, ns_spec) <= MAX_SEARCH_ROWS as int),
        uncapped ==> qual0_len == qual_count(rows0, ns_spec, q, threshold),
        sel_idxs.len() == out.len(),
        new_rows.len() == rows0.len(),
        forall|j: int|
            0 <= j < rows0.len() ==> same_except_access(#[trigger] rows0[j], new_rows[j]),
        forall|j: int|
            0 <= j < rows0.len() ==> if sel_idxs.contains(j) {
                new_rows[j].access_count as int == bumped_access(rows0[j].access_count)
            } else {
                new_rows[j].access_count == (#[trigger] rows0[j]).access_count
            },
        forall|k: int|
            0 <= k < out.len() ==> 0 <= #[trigger] sel_idxs[k] < rows0.len()
                && rows0[sel_idxs[k]].namespace@ == ns_spec && item_eq(
                out[k].0,
                rows0[sel_idxs[k]],
            ),
        forall|k: int|
            0 <= k < out.len() ==> (#[trigger] out[k]).1 as int == similarity_spec(
                q,
                out[k].0.embedding@,
            ) && out[k].1 as int >= threshold,
        forall|a: int, b: int|
            0 <= a < b < out.len() ==> combined_spec(
                (#[trigger] out[a]).1 as int,
                out[a].0.priority as int,
                w,
            ) >= combined_spec((#[trigger] out[b]).1 as int, out[b].0.priority as int, w),
        forall|u: int|
            0 <= u < qualified.len() ==> {
                let s = #[trigger] qualified[u];
                &&& 0 <= s.idx < rows0.len()
                &&& rows0[s.idx as int].namespace@ == ns_spec
                &&& s.sim as int == similarity_spec(q, rows0[s.idx as int].embedding@)
                &&& s.key as int == combined_spec(
                    s.sim as int,
                    rows0[s.idx as int].priority as int,
                    w,
                )
                &&& s.sim as int >= threshold
            },
        forall|u: int, k: int|
            0 <= u < qualified.len() && 0 <= k < out.len() ==> combined_spec(
                (#[trigger] out[k]).1 as int,
                out[k].0.priority as int,
                w,
            ) >= (#[trigger] qualified[u]).key as int,
        forall|k1: int, k2: int|
            0 <= k1 < k2 < sel_idxs.len() ==> #[trigger] sel_idxs[k1] != #[trigger] sel_idxs[k2],
        results_from_rows(rows0, out, ns_spec),
        uncapped ==> forall|j: int|
            0 <= j < rows0.len() && (#[trigger] rows0[j]).namespace@ == ns_spec
                && similarity_spec(q, rows0[j].embedding@) >= threshold ==> exists|tq: int|
                0 <= tq < qual0_seq.len() && (#[trigger] qual0_seq[tq]).idx == j,
        forall|tq: int|
            0 <= tq < qual0_seq.len() ==> {
                let s = #[trigger] qual0_seq[tq];
                &&& 0 <= s.idx < rows0.len()
                &&& rows0[s.idx as int].namespace@ == ns_spec
                &&& s.sim as int == similarity_spec(q, rows0[s.idx as int].embedding@)
                &&& s.key as int == combined_spec(
                    s.sim as int,
                    rows0[s.idx as int].priority as int,
                    w,
                )
                &&& s.sim as int >= threshold
            },
        forall|tq: int|
            0 <= tq < qual0_seq.len() ==> ((exists|u: int|
                0 <= u < qualified.len() && (#[trigger] qualified[u]).idx == (
                #[trigger] qual0_seq[tq]).idx) || sel_idxs.contains(qual0_seq[tq].idx as int)),
    ensures
        search_post(rows0, new_rows, out, ns_spec, q, w, top_k, threshold),
{
    assert forall|j: int|
        0 <= j < rows0.len() implies if (exists|k: int|
        0 <= k < out.len() && (#[trigger] out[k]).0.id@ == (#[trigger] rows0[j]).id@
            && rows0[j].namespace@ == ns_spec) {
        new_rows[j].access_count as int == bumped_access(rows0[j].access_count)
    } else {
        new_rows[j].access_count == rows0[j].access_count
    } by {
        if exists|k: int|
            0 <= k < out.len() && (#[trigger] out[k]).0.id@ == rows0[j].id@
                && rows0[j].namespace@ == ns_spec {
            let k = choose|k: int|
                0 <= k < out.len() && (#[trigger] out[k]).0.id@ == rows0[j].id@
                    && rows0[j].namespace@ == ns_spec;
            let sj = sel_idxs[k];
            assert(item_eq(out[k].0, rows0[sj]));
            if sj != j {
                assert(!(rows0[sj].id@ == rows0[j].id@ && rows0[sj].namespace@
                    == rows0[j].namespace@));
                assert(false);
            }
            assert(sel_idxs.contains(j));
        } else {
            if sel_idxs.contains(j) {
                let k = choose|k: int| 0 <= k < sel_idxs.len() && sel_idxs[k] == j;
                assert(item_eq(out[k].0, rows0[j]));
                assert(false);
            }
        }
    }
    assert forall|k1: int, k2: int| 0 <= k1 < k2 < out.len() implies (
    #[trigger] out[k1]).0.id@ != (#[trigger] out[k2]).0.id@ by {
        let j1 = sel_idxs[k1];
        let j2 = sel_idxs[k2];
        assert(j1 != j2);
        assert(item_eq(out[k1].0, rows0[j1]));
        assert(item_eq(out[k2].0, rows0[j2]));
        if j1 < j2 {
            assert(!(rows0[j1].id@ == rows0[j2].id@ && rows0[j1].namespace@
                == rows0[j2].namespace@));
        } else {
            assert(!(rows0[j2].id@ == rows0[j1].id@ && rows0[j2].namespace@
                == rows0[j1].namespace@));
        }
    }
    if uncapped {
        assert forall|j: int|
            0 <= j < rows0.len() && (#[trigger] rows0[j]).namespace@ == ns_spec
                && similarity_spec(q, rows0[j].embedding@) >= threshold implies ((exists|k: int|
            0 <= k < out.len() && (#[trigger] out[k]).0.id@ == rows0[j].id@) || (forall|k: int|
            0 <= k < out.len() ==> combined_spec(
                (#[trigger] out[k]).1 as int,
                out[k].0.priority as int,
                w,
            ) >= combined_spec(
                similarity_spec(q, rows0[j].embedding@),
                rows0[j].priority as int,
                w,
            ))) by {
            let tq = choose|tq: int|
                0 <= tq < qual0_seq.len() && (#[trigger] qual0_seq[tq]).idx == j;
            if sel_idxs.contains(j) {
                let k = choose|k: int| 0 <= k < sel_idxs.len() && sel_idxs[k] == j;
                assert(item_eq(out[k].0, rows0[j]));
                assert(out[k].0.id@ == rows0[j].id@);
            } else {
                let u = choose|u: int|
                    0 <= u < qualified.len() && (#[trigger] qualified[u]).idx == (
                    #[trigger] qual0_seq[tq]).idx;
                assert(qualified[u].idx == j);
                assert(qualified[u].key as int == combined_spec(
                    similarity_spec(q, rows0[j].embedding@),
                    rows0[j].priority as int,
                    w,
                ));
                assert forall|k: int| 0 <= k < out.len() implies combined_spec(
                    (#[trigger] out[k]).1 as int,
                    out[k].0.priority as int,
                    w,
                ) >= combined_spec(
                    similarity_spec(q, rows0[j].embedding@),
                    rows0[j].priority as int,
                    w,
                ) by {
                    assert(combined_spec(out[k].1 as int, out[k].0.priority as int, w)
                        >= qualified[u].key as int);
                }
            }
        }
    }
}

/// How many scored entries clear the threshold.
spec fn scored_qual(s: Seq<Scored>, thr: int) -> int
    decreases s.len()
{
    if s.len() == 0 {
        0
    } else {
        (if s[0].sim as int >= thr {
            1int
        } else {
            0int
        }) + scored_qual(s.drop_first(), thr)
    }
}

proof fn lemma_scored_qual_push(s: Seq<Scored>, x: Scored, thr: int)
    ensures
        scored_qual(s.push(x), thr) == scored_qual(s, thr) + (if x.sim as int >= thr {
            1int
        } else {
            0int
        }),
    decreases s.len()
{
    if s.len() == 0 {
        assert(s.push(x).drop_first() =~= Seq::<Scored>::empty());
        assert(scored_qual(Seq::<Scored>::empty(), thr) == 0);
        assert(s.push(x)[0] == x);
    } else {
        assert(s.push(x).drop_first() =~= s.drop_first().push(x));
        assert(s.push(x)[0] == s[0]);
        lemma_scored_qual_push(s.drop_first(), x, thr);
    }
}

} // verus!
