//! Per-turn context assembly: the structured prompt prefix built from file
//! memory and session-scoped vector recall, and the memory guidance shown
//! to the model.

use vstd::prelude::*;
use vstd::string::StringSliceAdditionalSpecFns;
use vstd::string::StringExecFns;

use crate::agent::{snippet_bytes, snippet_spec};
use crate::config::MemoryMode;
use crate::score::SCALE;
use crate::text::{bytes_of, push_all, sub_bytes};
use crate::vector_store::MemoryItem;

verus! {

/// Snippets of recalled memories are cut at this many bytes.
pub const RECALL_SNIPPET_CHARS: usize = 260;

/// At most this many recalled memories are injected per turn.
pub const RECALL_MAX_LINES: usize = 3;

/// The guidance text the model receives about memory, by mode. The
/// file-backed mode names the workspace's memory file.
pub fn memory_guidance(mode: &MemoryMode, workspace_path: &str) -> (r: String)
    ensures
        mode is Off ==> r@
            == "Memory is disabled for this runtime. Treat each turn as stateless and do not persist conversational details."@,
        mode is Simple ==> r@
            == "## Memory Recall\nBefore answering anything about prior work, decisions, dates, people, preferences, or todos: use memory_search to find relevant context, then memory_get if needed for file paths. Use the injected [Notes from memory]. To persist important facts, use remember; for longer notes, write to "@
            + workspace_path@ + "/memory/MEMORY.md."@,
        mode is Smart ==> r@
            == "## Memory Recall\nBefore answering anything about prior work, decisions, dates, people, preferences, or todos: use memory_search first. In smart mode you must pass namespace as `<channel>_<chat_id>` (from [Conversation context]). If you need full details, use memory_get with a returned path (supports MEMORY.md, YYYY-MM-DD.md, and vector/<id>) and the same namespace for vector paths. Use remember with kind/source/confidence and namespace for long-term storage."@,
{
    match mode {
        MemoryMode::Off => String::from_str(
            "Memory is disabled for this runtime. Treat each turn as stateless and do not persist conversational details.",
        ),
        MemoryMode::Simple => {
            let mut r = String::from_str(
                "## Memory Recall\nBefore answering anything about prior work, decisions, dates, people, preferences, or todos: use memory_search to find relevant context, then memory_get if needed for file paths. Use the injected [Notes from memory]. To persist important facts, use remember; for longer notes, write to ",
            );
            r.append(workspace_path);
            r.append("/memory/MEMORY.md.");
            r
        },
        MemoryMode::Smart => String::from_str(
            "## Memory Recall\nBefore answering anything about prior work, decisions, dates, people, preferences, or todos: use memory_search first. In smart mode you must pass namespace as `<channel>_<chat_id>` (from [Conversation context]). If you need full details, use memory_get with a returned path (supports MEMORY.md, YYYY-MM-DD.md, and vector/<id>) and the same namespace for vector paths. Use remember with kind/source/confidence and namespace for long-term storage.",
        ),
    }
}

/// The conversation header naming channel, chat and sender.
pub open spec fn context_header_spec(
    channel: Seq<u8>,
    chat_id: Seq<u8>,
    sender_id: Seq<u8>,
) -> Seq<u8> {
    "[Conversation context]\nchannel: ".spec_bytes() + channel + "\nchat_id: ".spec_bytes()
        + chat_id + "\nsender_id: ".spec_bytes() + sender_id
}

/// The whole prompt prefix: the header, then - when memory is on - the file
/// memory notes and the session recall, each omitted when empty, then the
/// raw user text.
pub open spec fn prompt_spec(
    channel: Seq<u8>,
    chat_id: Seq<u8>,
    sender_id: Seq<u8>,
    file_memory: Seq<u8>,
    session_memory: Seq<u8>,
    user_text: Seq<u8>,
    memory_enabled: bool,
) -> Seq<u8> {
    let header = context_header_spec(channel, chat_id, sender_id);
    let tail = "\n\n[User message]\n".spec_bytes() + user_text;
    if !memory_enabled || (file_memory.len() == 0 && session_memory.len() == 0) {
        header + tail
    } else if file_memory.len() == 0 {
        header + "\n\n[Notes from session memory]\n".spec_bytes() + session_memory + tail
    } else if session_memory.len() == 0 {
        header + "\n\n[Notes from memory]\n".spec_bytes() + file_memory + tail
    } else {
        header + "\n\n[Notes from memory]\n".spec_bytes() + file_memory
            + "\n\n[Notes from session memory]\n".spec_bytes() + session_memory + tail
    }
}

/// Assemble the prompt prefix for one turn.
pub fn build_prompt(
    channel: &str,
    chat_id: &str,
    sender_id: &str,
    file_memory: &[u8],
    session_memory: &[u8],
    user_text: &str,
    memory_enabled: bool,
) -> (r: Vec<u8>)
    ensures
        r@ == prompt_spec(
            channel.spec_bytes(),
            chat_id.spec_bytes(),
            sender_id.spec_bytes(),
            file_memory@,
            session_memory@,
            user_text.spec_bytes(),
            memory_enabled,
        ),
{
    let mut r = bytes_of("[Conversation context]\nchannel: ");
    let ch = bytes_of(channel);
    push_all(&mut r, ch.as_slice());
    let lbl_chat = bytes_of("\nchat_id: ");
    push_all(&mut r, lbl_chat.as_slice());
    let cid = bytes_of(chat_id);
    push_all(&mut r, cid.as_slice());
    let lbl_sender = bytes_of("\nsender_id: ");
    push_all(&mut r, lbl_sender.as_slice());
    let sid = bytes_of(sender_id);
    push_all(&mut r, sid.as_slice());
    if memory_enabled && file_memory.len() > 0 {
        let lbl = bytes_of("\n\n[Notes from memory]\n");
        push_all(&mut r, lbl.as_slice());
        push_all(&mut r, file_memory);
    }
    if memory_enabled && session_memory.len() > 0 {
        let lbl = bytes_of("\n\n[Notes from session memory]\n");
        push_all(&mut r, lbl.as_slice());
        push_all(&mut r, session_memory);
    }
    let lbl_user = bytes_of("\n\n[User message]\n");
    push_all(&mut r, lbl_user.as_slice());
    let ut = bytes_of(user_text);
    push_all(&mut r, ut.as_slice());
    proof {
        assert(r@ =~= prompt_spec(
            channel.spec_bytes(),
            chat_id.spec_bytes(),
            sender_id.spec_bytes(),
            file_memory@,
            session_memory@,
            user_text.spec_bytes(),
            memory_enabled,
        ));
    }
    r
}

/// A similarity score shown with two decimals: the micro-unit value rounded
/// half-up at the second decimal, signed.
pub open spec fn score_2dp_spec(sim: int) -> Seq<u8> {
    let mag = if sim >= 0 {
        sim
    } else {
        -sim
    };
    let hundredths = (mag + 5_000) / 10_000;
    let digits = seq![
        (48 + hundredths / 100) as u8,
        46u8,
        (48 + hundredths / 10 % 10) as u8,
        (48 + hundredths % 10) as u8,
    ];
    if sim < 0 {
        seq![45u8] + digits
    } else {
        digits
    }
}

/// Format a fixed-point similarity with two decimals.
pub fn format_score(sim: i64) -> (r: Vec<u8>)
    requires
        -SCALE <= sim <= SCALE,
    ensures
        r@ == score_2dp_spec(sim as int),
{
    let mag: i64 = if sim >= 0 {
        sim
    } else {
        -sim
    };
    let hundredths: i64 = (mag + 5_000) / 10_000;
    let mut r: Vec<u8> = Vec::new();
    if sim < 0 {
        r.push(45u8);
    }
    r.push(48u8 + (hundredths / 100) as u8);
    r.push(46u8);
    r.push(48u8 + (hundredths / 10 % 10) as u8);
    r.push(48u8 + (hundredths % 10) as u8);
    proof {
        assert(r@ =~= score_2dp_spec(sim as int));
    }
    r
}

/// One recalled memory formatted for the prompt.
pub open spec fn recall_line_spec(content: Seq<u8>, sim: int) -> Seq<u8> {
    "- (".spec_bytes() + score_2dp_spec(sim) + ") ".spec_bytes() + snippet_spec(
        content,
        RECALL_SNIPPET_CHARS as int,
    )
}

/// The session-recall block: the first `RECALL_MAX_LINES` results, one
/// formatted line each, joined with line feeds.
pub open spec fn recall_block_from(results: Seq<(MemoryItem, i64)>, i: int) -> Seq<u8>
    decreases results.len() - i
{
    if i < 0 || i >= results.len() || i >= RECALL_MAX_LINES as int {
        Seq::empty()
    } else {
        let line = recall_line_spec(results[i].0.content@, results[i].1 as int);
        if i + 1 >= results.len() || i + 1 >= RECALL_MAX_LINES as int {
            line
        } else {
            line + seq![10u8] + recall_block_from(results, i + 1)
        }
    }
}

/// Format the session recall for the prompt.
pub fn build_recall_block(results: &Vec<(MemoryItem, i64)>) -> (r: Vec<u8>)
    requires
        forall|k: int| 0 <= k < results@.len() ==> -SCALE <= (#[trigger] results@[k]).1 <= SCALE,
    ensures
        r@ == recall_block_from(results@, 0),
{
    let mut r: Vec<u8> = Vec::new();
    let limit: usize = if results.len() < RECALL_MAX_LINES {
        results.len()
    } else {
        RECALL_MAX_LINES
    };
    let mut i: usize = 0;
    while i < limit
        invariant
            i <= limit,
            limit == vstd::math::min(results@.len() as int, RECALL_MAX_LINES as int),
            forall|k: int|
                0 <= k < results@.len() ==> -SCALE <= (#[trigger] results@[k]).1 <= SCALE,
            i < limit ==> recall_block_from(results@, 0) == r@ + recall_block_from(
                results@,
                i as int,
            ),
            i == limit ==> recall_block_from(results@, 0) == r@,
        decreases limit - i,
    {
        let mut line = bytes_of("- (");
        let score = format_score(results[i].1);
        push_all(&mut line, score.as_slice());
        let close = bytes_of(") ");
        push_all(&mut line, close.as_slice());
        let snip = snippet_bytes(results[i].0.content.as_slice(), RECALL_SNIPPET_CHARS);
        push_all(&mut line, snip.as_slice());
        proof {
            assert(line@ =~= recall_line_spec(
                results@[i as int].0.content@,
                results@[i as int].1 as int,
            ));
        }
        let ghost pre = r@;
        push_all(&mut r, line.as_slice());
        if i + 1 < limit {
            r.push(10u8);
            proof {
                assert(recall_block_from(results@, i as int) == line@ + seq![10u8]
                    + recall_block_from(results@, i + 1));
                assert(r@ =~= pre + line@ + seq![10u8]);
                assert(recall_block_from(results@, 0) =~= r@ + recall_block_from(
                    results@,
                    i + 1,
                ));
            }
        } else {
            proof {
                assert(recall_block_from(results@, i as int) == line@);
                assert(recall_block_from(results@, 0) =~= r@);
            }
        }
        i = i + 1;
    }
    proof {
        if limit == 0 {
            assert(recall_block_from(results@, 0) =~= Seq::<u8>::empty());
        }
    }
    r
}

} // verus!
