//! The summarization ingestion: once the external summarizer has produced a
//! summary for a window, this writes it through - the three long-term
//! sections, up to three extracted user observations, the vector record
//! with its provenance metadata - and advances the watermark. The summarizer
//! call itself, and the task that runs all this in the background, stay with
//! the caller.

use vstd::prelude::*;
use vstd::string::StringSliceAdditionalSpecFns;
use vstd::utf8::is_ascii_chars_encode_utf8;

use crate::agent::{
    advance_watermark, extract_obs, extract_user_observations, session_namespace, SummaryOutcome,
};
use crate::file_store::{
    bullet_spec, conversation_header, extracted_header, section_append_spec, user_obs_header,
    MemoryStore, MAX_EXTRACTED_NOTES_CHARS,
};
use crate::score::embedding_wf;
use crate::text::{bytes_of, lemma_trim_idempotent, lines_spec, trim_bytes, trim_spec};
use crate::vector_store::{
    importance_of, item_eq, lemma_sanitize_identity, meta_eq, prune_outcome,
    sanitize_namespace_spec, MemoryItem, MetaEntry, MetaValue, VectorMemoryStore,
};

verus! {

/// How many user observations one summary may contribute.
pub const SUMMARY_MAX_OBSERVATIONS: usize = 3;

/// The provenance metadata of an ingested summary: its kind, the summary's
/// source, the session, the summarized index range, and the importance.
pub open spec fn summary_meta_ok(
    meta: Seq<MetaEntry>,
    source: Seq<u8>,
    session: Seq<u8>,
    start_index: int,
    end_index: int,
    importance: int,
) -> bool {
    &&& meta.len() == 6
    &&& meta[0].key@ == "kind".spec_bytes() && meta[0].value is Text && meta[0].value->Text_0@
        == "conversation_observation".spec_bytes()
    &&& meta[1].key@ == "source".spec_bytes() && meta[1].value is Text && meta[1].value->Text_0@
        == source
    &&& meta[2].key@ == "session".spec_bytes() && meta[2].value is Text
        && meta[2].value->Text_0@ == session
    &&& meta[3].key@ == "start_index".spec_bytes() && meta[3].value is Int
        && meta[3].value->Int_0 == start_index
    &&& meta[4].key@ == "end_index".spec_bytes() && meta[4].value is Int
        && meta[4].value->Int_0 == end_index
    &&& meta[5].key@ == "importance".spec_bytes() && meta[5].value is Score
        && meta[5].value->Score_0 == importance
}

/// Build the metadata of an ingested summary. The importance entry is the
/// one the priority formulas read.
pub fn summary_metadata(
    source: &str,
    session_key: &str,
    start_index: usize,
    end_index: usize,
    importance: i64,
) -> (r: Vec<MetaEntry>)
    requires
        start_index <= i64::MAX,
        end_index <= i64::MAX,
    ensures
        summary_meta_ok(
            r@,
            source.spec_bytes(),
            session_key.spec_bytes(),
            start_index as int,
            end_index as int,
            importance as int,
        ),
        importance_of(r@) == importance as int,
{
    let mut r: Vec<MetaEntry> = Vec::new();
    r.push(
        MetaEntry {
            key: bytes_of("kind"),
            value: MetaValue::Text(bytes_of("conversation_observation")),
        },
    );
    r.push(MetaEntry { key: bytes_of("source"), value: MetaValue::Text(bytes_of(source)) });
    r.push(
        MetaEntry { key: bytes_of("session"), value: MetaValue::Text(bytes_of(session_key)) },
    );
    r.push(MetaEntry { key: bytes_of("start_index"), value: MetaValue::Int(start_index as i64) });
    r.push(MetaEntry { key: bytes_of("end_index"), value: MetaValue::Int(end_index as i64) });
    r.push(MetaEntry { key: bytes_of("importance"), value: MetaValue::Score(importance) });
    proof {
        reveal_strlit("kind");
        reveal_strlit("source");
        reveal_strlit("session");
        reveal_strlit("start_index");
        reveal_strlit("end_index");
        reveal_strlit("importance");
        assert(vstd::utf8::is_ascii_chars("kind"@));
        assert(vstd::utf8::is_ascii_chars("source"@));
        assert(vstd::utf8::is_ascii_chars("session"@));
        assert(vstd::utf8::is_ascii_chars("start_index"@));
        assert(vstd::utf8::is_ascii_chars("end_index"@));
        assert(vstd::utf8::is_ascii_chars("importance"@));
        is_ascii_chars_encode_utf8("kind"@);
        is_ascii_chars_encode_utf8("source"@);
        is_ascii_chars_encode_utf8("session"@);
        is_ascii_chars_encode_utf8("start_index"@);
        is_ascii_chars_encode_utf8("end_index"@);
        is_ascii_chars_encode_utf8("importance"@);
        assert("kind".spec_bytes().len() == 4);
        assert("source".spec_bytes().len() == 6);
        assert("session".spec_bytes().len() == 7);
        assert("start_index".spec_bytes().len() == 11);
        assert("end_index".spec_bytes().len() == 9);
        assert("importance".spec_bytes().len() == 10);
        assert(crate::vector_store::importance_from(r@, 0) == crate::vector_store::importance_from(
            r@,
            1,
        ));
        assert(crate::vector_store::importance_from(r@, 1) == crate::vector_store::importance_from(
            r@,
            2,
        ));
        assert(crate::vector_store::importance_from(r@, 2) == crate::vector_store::importance_from(
            r@,
            3,
        ));
        assert(crate::vector_store::importance_from(r@, 3) == crate::vector_store::importance_from(
            r@,
            4,
        ));
        assert(crate::vector_store::importance_from(r@, 4) == crate::vector_store::importance_from(
            r@,
            5,
        ));
        assert(crate::vector_store::importance_from(r@, 5) == importance as int);
    }
    r
}

/// The user-observation appends of an ingested summary, folded in order.
pub open spec fn obs_append_fold(
    doc: Seq<u8>,
    today: Seq<u8>,
    obs: Seq<Seq<u8>>,
    i: int,
) -> Seq<u8>
    decreases obs.len() - i
{
    if i < 0 || i >= obs.len() {
        doc
    } else {
        let next = if trim_spec(obs[i]).len() == 0 {
            doc
        } else {
            section_append_spec(doc, user_obs_header(), bullet_spec(today, trim_spec(obs[i])), None)
        };
        obs_append_fold(next, today, obs, i + 1)
    }
}

/// The long-term document after one nonblank summary is ingested: a dated
/// bullet under Conversation Observations, the summary under the
/// size-bounded Extracted Notes, then each extracted user observation under
/// User Observations.
pub open spec fn ingest_doc_spec(doc: Seq<u8>, today: Seq<u8>, summary: Seq<u8>) -> Seq<u8> {
    let d1 = section_append_spec(
        doc,
        conversation_header(),
        bullet_spec(today, trim_spec(summary)),
        None,
    );
    let d2 = section_append_spec(
        d1,
        extracted_header(),
        bullet_spec(today, summary),
        Some(MAX_EXTRACTED_NOTES_CHARS as int),
    );
    obs_append_fold(
        d2,
        today,
        extract_obs(lines_spec(summary), SUMMARY_MAX_OBSERVATIONS as int, Seq::empty()),
        0,
    )
}

/// The session namespace, in spec form.
pub open spec fn session_ns_spec(session_key: Seq<u8>) -> Seq<u8> {
    if session_key.len() == 0 {
        "default".spec_bytes()
    } else {
        sanitize_namespace_spec(session_key)
    }
}

/// Ingest one produced summary: write it to the long-term sections, extract
/// up to three user observations, insert the summary into the session's
/// vector namespace when vector memory is on, and advance the watermark. A
/// blank summary writes nothing but still advances the watermark, so the
/// same window is not reprocessed; a rejected vector insert (reported as
/// `None`) does not hold the watermark back either.
#[verifier::rlimit(100)]
#[verifier::spinoff_prover]
pub fn ingest_summary(
    memory: &mut MemoryStore,
    vector: &mut VectorMemoryStore,
    use_vector: bool,
    summary: &str,
    source: &str,
    session_key: &str,
    importance: i64,
    embedding: Vec<i64>,
    watermark: usize,
    history_len: usize,
    now: i64,
) -> (r: (usize, Option<MemoryItem>))
    requires
        old(vector).wf(),
        embedding_wf(embedding@),
        now >= 0,
        watermark <= i64::MAX,
        history_len <= i64::MAX,
    ensures
        final(vector).wf(),
        final(vector).max_memories == old(vector).max_memories,
        final(vector).namespace@ == old(vector).namespace@,
        final(memory).same_paths(old(memory)),
        r.0 as int == advance_spec_len(watermark as int, history_len as int),
        trim_spec(summary.spec_bytes()).len() == 0 ==> final(memory).long_term@ == old(
            memory,
        ).long_term@ && final(vector).rows@ == old(vector).rows@ && r.1 is None,
        trim_spec(summary.spec_bytes()).len() > 0 ==> final(memory).long_term@ == ingest_doc_spec(
            old(memory).long_term@,
            old(memory).today@,
            summary.spec_bytes(),
        ),
        trim_spec(summary.spec_bytes()).len() > 0 && !use_vector ==> final(vector).rows@ == old(
            vector,
        ).rows@ && r.1 is None,
        trim_spec(summary.spec_bytes()).len() > 0 && use_vector ==> (match r.1 {
            Some(item) => {
                let ns = session_ns_spec(session_key.spec_bytes());
                &&& item.content@ == trim_spec(summary.spec_bytes())
                &&& item.embedding@ == embedding@
                &&& summary_meta_ok(
                    item.metadata@,
                    source.spec_bytes(),
                    session_key.spec_bytes(),
                    watermark as int,
                    history_len as int,
                    importance as int,
                )
                &&& item.created_at == now
                &&& item.updated_at == now
                &&& item.access_count == 0
                &&& item.priority as int == crate::score::priority_initial_spec(importance as int)
                &&& item.namespace@ == ns
                &&& exists|row: MemoryItem, ev: Seq<MemoryItem>|
                    item_eq(row, item) && prune_outcome(
                        old(vector).rows@.push(row),
                        final(vector).rows@,
                        ev,
                        ns,
                        old(vector).max_memories as int,
                    )
            },
            None => final(vector).rows@ == old(vector).rows@,
        }),
{
    let raw = bytes_of(summary);
    let trimmed = trim_bytes(raw.as_slice());
    if trimmed.len() == 0 {
        let wm = advance_watermark(watermark, history_len, &SummaryOutcome::Empty);
        return (wm, None);
    }
    memory.append_conversation_observation(summary);
    let ghost d1 = memory.long_term@;
    let mut facts: Vec<Vec<u8>> = Vec::new();
    facts.push(bytes_of(summary));
    memory.append_extracted_facts(&facts);
    proof {
        let fv = facts.deep_view();
        assert(fv.len() == 1);
        assert(fv[0] =~= summary.spec_bytes());
        let bullets = Seq::new(1nat, |i: int| bullet_spec(old(memory).today@, fv[i]));
        assert(crate::file_store::join_nl_spec(bullets) == bullets[0]);
        assert(memory.long_term@ == section_append_spec(
            d1,
            extracted_header(),
            bullet_spec(old(memory).today@, summary.spec_bytes()),
            Some(MAX_EXTRACTED_NOTES_CHARS as int),
        ));
    }
    let ghost d2 = memory.long_term@;
    let obs = extract_user_observations(summary, SUMMARY_MAX_OBSERVATIONS);
    let ghost eseq = extract_obs(
        lines_spec(summary.spec_bytes()),
        SUMMARY_MAX_OBSERVATIONS as int,
        Seq::empty(),
    );
    let mut i: usize = 0;
    proof {
        assert(obs.deep_view() == eseq);
    }
    while i < obs.len()
        invariant
            i <= obs@.len(),
            obs.deep_view() == eseq,
            eseq.len() == obs@.len(),
            memory.same_paths(old(memory)),
            memory.today@ == old(memory).today@,
            obs_append_fold(d2, old(memory).today@, eseq, 0) == obs_append_fold(
                memory.long_term@,
                old(memory).today@,
                eseq,
                i as int,
            ),
        decreases obs@.len() - i,
    {
        proof {
            assert(eseq[i as int] =~= obs@[i as int]@);
        }
        memory.append_user_observation_bytes(obs[i].as_slice());
        i = i + 1;
    }
    proof {
        assert(obs_append_fold(memory.long_term@, old(memory).today@, eseq, eseq.len() as int)
            == memory.long_term@);
        assert(memory.long_term@ == ingest_doc_spec(
            old(memory).long_term@,
            old(memory).today@,
            summary.spec_bytes(),
        ));
    }
    let item_opt: Option<MemoryItem> = if use_vector {
        let ns = session_namespace(session_key);
        proof {
            if session_key.spec_bytes().len() > 0 {
                crate::vector_store::lemma_sanitize_valid(session_key.spec_bytes());
            } else {
                reveal_strlit("default");
                assert(vstd::utf8::is_ascii_chars("default"@));
                is_ascii_chars_encode_utf8("default"@);
                assert("default".spec_bytes().len() == 7);
                assert forall|k: int|
                    0 <= k < "default".spec_bytes().len() implies crate::vector_store::ns_byte_ok(
                    #[trigger] "default".spec_bytes()[k],
                ) by {
                    assert("default".spec_bytes()[k] == "default"@[k] as u8);
                }
            }
            assert(crate::vector_store::valid_namespace(ns@));
            lemma_sanitize_identity(ns@);
        }
        let meta = summary_metadata(source, session_key, watermark, history_len, importance);
        match vector.add(trimmed.as_slice(), meta, Some(ns.as_slice()), embedding, now) {
            Ok(item) => {
                proof {
                    lemma_trim_idempotent(summary.spec_bytes());
                }
                Some(item)
            },
            Err(_) => None,
        }
    } else {
        None
    };
    let wm = advance_watermark(watermark, history_len, &SummaryOutcome::Produced);
    (wm, item_opt)
}

/// Where the watermark lands after an ingestion: the history length, never
/// moving backward.
pub open spec fn advance_spec_len(watermark: int, history_len: int) -> int {
    if history_len > watermark {
        history_len
    } else {
        watermark
    }
}

} // verus!
