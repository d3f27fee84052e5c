//! Conversation state manager: turns IDE events into a bash transcript.

use vstd::prelude::*;
use vstd::string::StrSliceExecFns;
use vstd::string::StringExecFns;

use crate::diff::{compute_changed_block_lines, ChangedBlock};
use crate::helpers::{str_eq, Viewport};
use crate::Tokenizer;
use crate::{COALESCE_RADIUS, MAX_TOKENS_PER_MESSAGE, MAX_TOKENS_PER_TERMINAL_OUTPUT,
    VIEWPORT_RADIUS};

verus! {

/// A single message in the conversation.
#[derive(Debug, PartialEq, Eq)]
pub struct ConversationMessage {
    pub from: String,
    pub value: String,
}

/// The sender tag of user messages.
pub open spec fn user_marker() -> Seq<char> {
    seq!['U', 's', 'e', 'r']
}

/// The sender tag of assistant messages.
pub open spec fn assistant_marker() -> Seq<char> {
    seq!['A', 's', 's', 'i', 's', 't', 'a', 'n', 't']
}

impl ConversationMessage {
    /// A message sent by the user side of the transcript (command output).
    pub fn user(value: String) -> (r: Self)
        ensures
            r.from@ == user_marker(),
            r.value == value,
    {
        proof {
            reveal_strlit("User");
            assert("User"@ =~= user_marker());
        }
        Self { from: String::from_str("User"), value }
    }

    /// A message sent by the assistant side of the transcript (a command).
    pub fn assistant(value: String) -> (r: Self)
        ensures
            r.from@ == assistant_marker(),
            r.value == value,
    {
        proof {
            reveal_strlit("Assistant");
            assert("Assistant"@ =~= assistant_marker());
        }
        Self { from: String::from_str("Assistant"), value }
    }
}

impl Clone for ConversationMessage {
    fn clone(&self) -> (r: Self)
        ensures
            r == *self,
    {
        ConversationMessage { from: self.from.clone(), value: self.value.clone() }
    }
}

/// Configuration for the [`ConversationStateManager`].
#[derive(Debug, Clone)]
pub struct ConversationStateManagerConfig {
    pub viewport_radius: usize,
    pub coalesce_radius: usize,
    pub max_tokens_per_message: usize,
    pub max_tokens_per_terminal_output: usize,
    /// Maximum tokens per conversation chunk; `None` disables chunking.
    pub max_tokens_per_conversation: Option<usize>,
    /// Minimum messages required to keep a conversation chunk.
    pub min_conversation_messages: usize,
}

impl Default for ConversationStateManagerConfig {
    fn default() -> (r: Self)
        ensures
            r.viewport_radius == VIEWPORT_RADIUS,
            r.coalesce_radius == COALESCE_RADIUS,
            r.max_tokens_per_message == MAX_TOKENS_PER_MESSAGE,
            r.max_tokens_per_terminal_output == MAX_TOKENS_PER_TERMINAL_OUTPUT,
            r.max_tokens_per_conversation is None,
            r.min_conversation_messages == 5,
    {
        Self {
            viewport_radius: VIEWPORT_RADIUS,
            coalesce_radius: COALESCE_RADIUS,
            max_tokens_per_message: MAX_TOKENS_PER_MESSAGE,
            max_tokens_per_terminal_output: MAX_TOKENS_PER_TERMINAL_OUTPUT,
            max_tokens_per_conversation: None,
            min_conversation_messages: 5,
        }
    }
}

/// A finalized conversation chunk with its token count.
#[derive(Debug)]
pub struct FinalizedConversation {
    pub messages: Vec<ConversationMessage>,
    pub token_count: usize,
}

impl Clone for FinalizedConversation {
    fn clone(&self) -> (r: Self)
        ensures
            r.messages@ == self.messages@,
            r.token_count == self.token_count,
    {
        let mut messages: Vec<ConversationMessage> = Vec::new();
        let n = self.messages.len();
        let mut i: usize = 0;
        while i < n
            invariant
                i <= n,
                n == self.messages@.len(),
                messages@ =~= self.messages@.take(i as int),
            decreases n - i,
        {
            messages.push(self.messages[i].clone());
            i = i + 1;
        }
        proof {
            assert(self.messages@.take(n as int) =~= self.messages@);
        }
        FinalizedConversation { messages, token_count: self.token_count }
    }
}

/// Edit region in 1-based line coordinates, for coalescing nearby edits.
#[derive(Debug, Clone, Copy, PartialEq, Eq, Structural)]
pub struct EditRegion {
    pub start: usize,
    pub end: usize,
}

/// Per-file bookkeeping: current content, cached viewport, whether the full
/// content was already shown in the open chunk, and the pending edit burst.
#[derive(Debug)]
pub struct FileEntry {
    pub path: String,
    pub content: String,
    pub viewport: Option<Viewport>,
    pub captured: bool,
    pub pending_before: Option<String>,
    pub pending_region: Option<EditRegion>,
}

/// How an emitted message relates to its neighbours: a command that shows
/// file state (always followed by its stdout), a bare command, or a stdout
/// block.
#[derive(Debug, Clone, Copy, PartialEq, Eq, Structural)]
pub enum EmissionKind {
    ViewCmd,
    BareCmd,
    Stdout,
}

/// One emission in the append-order history of the manager.
pub struct LogEntry {
    pub kind: EmissionKind,
    pub from: Seq<char>,
    pub value: Seq<char>,
}

/// Every command emission that shows file state is immediately followed by
/// exactly one stdout message, and the senders match the emission kinds.
///
/// The pairing holds of the emission history as a whole. A chunk rollover
/// can fall between a command and its stdout, in which case the pair spans
/// two finalized conversations.
pub open spec fn log_paired(log: Seq<LogEntry>) -> bool {
    &&& forall|i: int|
        #![trigger log[i], log[i + 1]]
        0 <= i < log.len() && log[i].kind is ViewCmd ==> i + 1 < log.len() && log[i + 1].kind
            is Stdout
    &&& log.len() > 0 ==> !(log.last().kind is ViewCmd)
    &&& forall|i: int|
        0 <= i < log.len() ==> ((#[trigger] log[i]).kind is Stdout <==> log[i].from
            == user_marker())
    &&& forall|i: int|
        0 <= i < log.len() && !((#[trigger] log[i]).kind is Stdout) ==> log[i].from
            == assistant_marker()
}

/// A finalized chunk respects the configuration: long enough, with both
/// senders present, every message within the per-message token bound, and
/// the total within one message of the conversation budget.
pub open spec fn conversation_ok<T: Tokenizer>(
    tok: T,
    cfg: ConversationStateManagerConfig,
    c: FinalizedConversation,
) -> bool {
    &&& c.messages@.len() >= cfg.min_conversation_messages
    &&& exists|i: int| 0 <= i < c.messages@.len() && (#[trigger] c.messages@[i]).from@ == user_marker()
    &&& exists|i: int|
        0 <= i < c.messages@.len() && (#[trigger] c.messages@[i]).from@ == assistant_marker()
    &&& forall|i: int|
        0 <= i < c.messages@.len() ==> tok.spec_count((#[trigger] c.messages@[i]).value@)
            <= cfg.max_tokens_per_message
    &&& (good_chunking(cfg) ==> c.token_count <= cfg.max_tokens_per_conversation->0
        + cfg.max_tokens_per_message - 1)
    &&& exists|costs: Seq<nat>|
        {
            &&& #[trigger] costs.len() == c.messages@.len()
            &&& forall|i: int|
                0 <= i < costs.len() ==> tok.spec_count(c.messages@[i].value@) <= #[trigger] costs[i] && costs[i] <= cfg.max_tokens_per_message
            &&& crate::textspec::spec_sum(costs) <= usize::MAX ==> c.token_count
                == crate::textspec::spec_sum(costs)
            &&& crate::textspec::spec_sum(costs) > usize::MAX ==> c.token_count == usize::MAX
        }
}

/// The token cost recorded for a message: its count, capped at the
/// per-message budget (an overlong message is truncated and billed the cap).
pub open spec fn capped_cost<T: Tokenizer>(
    tok: T,
    cfg: ConversationStateManagerConfig,
    value: Seq<char>,
) -> nat {
    if tok.spec_count(value) <= cfg.max_tokens_per_message {
        tok.spec_count(value)
    } else {
        cfg.max_tokens_per_message as nat
    }
}

/// The chunking configuration is meaningful: both budgets positive and the
/// combined bound representable.
pub open spec fn good_chunking(cfg: ConversationStateManagerConfig) -> bool {
    &&& cfg.max_tokens_per_conversation is Some
    &&& cfg.max_tokens_per_conversation->0 >= 1
    &&& cfg.max_tokens_per_message >= 1
    &&& cfg.max_tokens_per_conversation->0 + cfg.max_tokens_per_message <= usize::MAX
}

/// First entry with the given path, if any.
pub open spec fn find_entry(files: Seq<FileEntry>, path: Seq<char>) -> Option<int>
    decreases files.len(),
{
    if files.len() == 0 {
        None
    } else if files[0].path@ == path {
        Some(0)
    } else {
        match find_entry(files.skip(1), path) {
            Some(i) => Some(i + 1),
            None => None,
        }
    }
}

/// Characterization of [`find_entry`]: it returns the first matching index.
pub proof fn lemma_find_entry(files: Seq<FileEntry>, path: Seq<char>)
    ensures
        match find_entry(files, path) {
            Some(i) => 0 <= i < files.len() && files[i].path@ == path && (forall|k: int|
                0 <= k < i ==> (#[trigger] files[k]).path@ != path),
            None => forall|k: int| 0 <= k < files.len() ==> (#[trigger] files[k]).path@ != path,
        },
    decreases files.len(),
{
    if files.len() > 0 && files[0].path@ != path {
        lemma_find_entry(files.skip(1), path);
        assert forall|k: int| 0 <= k < files.len() implies (#[trigger] files[k]).path@ == path
            ==> find_entry(files, path) is Some by {
            if files[k].path@ == path && k > 0 {
                assert(files.skip(1)[k - 1] == files[k]);
            }
        }
        match find_entry(files.skip(1), path) {
            Some(i) => {
                assert(files.skip(1)[i] == files[i + 1]);
                assert forall|k: int| 0 <= k < i + 1 implies (#[trigger] files[k]).path@
                    != path by {
                    if k > 0 {
                        assert(files.skip(1)[k - 1] == files[k]);
                    }
                }
            },
            None => {
                assert forall|k: int| 0 <= k < files.len() implies (#[trigger] files[k]).path@
                    != path by {
                    if k > 0 {
                        assert(files.skip(1)[k - 1] == files[k]);
                    }
                }
            },
        }
    }
}

/// Content of the entry for `p` (empty when absent).
pub open spec fn content_of(files: Seq<FileEntry>, p: Seq<char>) -> Seq<char> {
    match find_entry(files, p) {
        Some(i) => files[i].content@,
        None => Seq::empty(),
    }
}

/// Pending pre-edit snapshot of the entry for `p`.
pub open spec fn pending_before_of(files: Seq<FileEntry>, p: Seq<char>) -> Option<Seq<char>> {
    match find_entry(files, p) {
        Some(i) => match files[i].pending_before {
            Some(s) => Some(s@),
            None => None,
        },
        None => None,
    }
}

/// Pending edit region of the entry for `p`.
pub open spec fn pending_region_of(files: Seq<FileEntry>, p: Seq<char>) -> Option<EditRegion> {
    match find_entry(files, p) {
        Some(i) => files[i].pending_region,
        None => None,
    }
}

/// Cached viewport of the entry for `p`.
pub open spec fn viewport_of(files: Seq<FileEntry>, p: Seq<char>) -> Option<Viewport> {
    match find_entry(files, p) {
        Some(i) => files[i].viewport,
        None => None,
    }
}

/// Whether the full content of `p` was shown in the open chunk.
pub open spec fn captured_of(files: Seq<FileEntry>, p: Seq<char>) -> bool {
    match find_entry(files, p) {
        Some(i) => files[i].captured,
        None => false,
    }
}

/// Paths are strictly sorted, so a path identifies at most one entry.
pub open spec fn sorted_strict(files: Seq<FileEntry>) -> bool {
    forall|i: int, j: int|
        #![trigger files[i], files[j]]
        0 <= i < j < files.len() ==> crate::textspec::spec_lex_lt(files[i].path@, files[j].path@)
}

/// In a sorted table, looking up an entry's own path finds that entry.
proof fn lemma_sorted_find_self(files: Seq<FileEntry>, idx: int)
    requires
        sorted_strict(files),
        0 <= idx < files.len(),
    ensures
        find_entry(files, files[idx].path@) == Some(idx),
{
    let p = files[idx].path@;
    lemma_find_entry(files, p);
    assert forall|k: int| 0 <= k < idx implies (#[trigger] files[k]).path@ != p by {
        crate::textspec::lemma_lex_trichotomy(files[k].path@, p);
    }
    match find_entry(files, p) {
        Some(j) => {
            if j > idx {
                assert(files[idx].path@ == p);
            }
        },
        None => {
            assert(files[idx].path@ == p);
        },
    }
}

/// Clamped 1-based line number of a character offset: LF count up to the
/// clamped offset, plus one (saturated at the machine bound).
pub open spec fn spec_line_at(content: Seq<char>, offset: nat) -> nat {
    let so: int = if offset < content.len() {
        offset as int
    } else {
        content.len() as int
    };
    let nls = crate::textspec::spec_count_char(content.take(so), '\n');
    if nls < usize::MAX {
        nls + 1
    } else {
        nls
    }
}

/// The saturated end line of the region an edit touches: its start line
/// plus the larger of the LF counts added and deleted.
pub open spec fn spec_region_end(
    content: Seq<char>,
    offset: nat,
    length: nat,
    new_text: Seq<char>,
) -> nat {
    let start = spec_line_at(content, offset);
    let so: int = if offset < content.len() {
        offset as int
    } else {
        content.len() as int
    };
    let se: int = if offset + length < content.len() {
        offset + length as int
    } else {
        content.len() as int
    };
    let deleted: int = crate::textspec::spec_count_char(content.take(se), '\n')
        - crate::textspec::spec_count_char(content.take(so), '\n');
    let deleted_n: nat = if deleted >= 0 {
        deleted as nat
    } else {
        0
    };
    let added = crate::textspec::spec_count_char(new_text, '\n');
    let bump: nat = if added > deleted_n {
        added
    } else {
        deleted_n
    };
    if start + bump <= usize::MAX {
        (start + bump) as nat
    } else {
        usize::MAX as nat
    }
}

/// Whether an edit starting at this line falls inside the coalescing radius
/// of the pending region (a file without a pending region always
/// coalesces).
pub open spec fn spec_in_radius(
    region: Option<EditRegion>,
    start: nat,
    coalesce_radius: nat,
) -> bool {
    match region {
        Some(r) => {
            let lo: int = if r.start >= coalesce_radius {
                r.start - coalesce_radius
            } else {
                0
            };
            let hi: int = if r.end + coalesce_radius <= usize::MAX {
                r.end + coalesce_radius
            } else {
                usize::MAX as int
            };
            lo <= start <= hi
        },
        None => true,
    }
}

/// Total line count as viewports see it: zero for empty text, else the LF
/// count plus one (saturated at the machine bound).
pub open spec fn spec_view_total(content: Seq<char>) -> nat {
    if content.len() == 0 {
        0
    } else {
        let nls = crate::textspec::spec_count_char(content, '\n');
        if nls < usize::MAX {
            nls + 1
        } else {
            nls
        }
    }
}

/// The split line count of a text: its LF count plus one, as `str::split`
/// counts (the empty text has one field), saturated at the machine bound.
pub open spec fn spec_split_total(content: Seq<char>) -> nat {
    let nls = crate::textspec::spec_count_char(content, '\n');
    if nls < usize::MAX {
        nls + 1
    } else {
        nls
    }
}

/// The start line of a viewport centered on `center` with the given radius.
pub open spec fn spec_vp_start(total: nat, center: nat, radius: nat) -> int {
    if total == 0 {
        1
    } else if center - radius > 1 {
        center - radius
    } else {
        1
    }
}

/// The end line of a viewport centered on `center` with the given radius.
pub open spec fn spec_vp_end(total: nat, center: nat, radius: nat) -> int {
    if total == 0 {
        0
    } else if center + radius < total {
        center + radius as int
    } else {
        total as int
    }
}

/// The two log entries starting at `base` are the viewport pair for a file:
/// the `cat -n | sed -n` command and its stdout window.
pub open spec fn view_pair_at<T: Tokenizer>(
    tok: T,
    cfg: ConversationStateManagerConfig,
    log: Seq<LogEntry>,
    base: int,
    path: Seq<char>,
    content: Seq<char>,
    vs: nat,
    ve: nat,
) -> bool {
    &&& entry_matches(
        tok,
        cfg,
        log[base],
        EmissionKind::ViewCmd,
        assistant_marker(),
        spec_bash_block(spec_view_cmd(path, vs, ve)),
    )
    &&& entry_matches(
        tok,
        cfg,
        log[base + 1],
        EmissionKind::Stdout,
        user_marker(),
        spec_stdout_msg(crate::textspec::spec_line_numbered(content, Some(vs), Some(ve))),
    )
}

/// The two log entries starting at `base` are the full capture pair for a
/// file: the `cat -n` command and the complete numbered listing.
pub open spec fn capture_pair_at<T: Tokenizer>(
    tok: T,
    cfg: ConversationStateManagerConfig,
    log: Seq<LogEntry>,
    base: int,
    path: Seq<char>,
    content: Seq<char>,
) -> bool {
    &&& entry_matches(
        tok,
        cfg,
        log[base],
        EmissionKind::ViewCmd,
        assistant_marker(),
        spec_bash_block(spec_cat_cmd(path)),
    )
    &&& entry_matches(
        tok,
        cfg,
        log[base + 1],
        EmissionKind::Stdout,
        user_marker(),
        spec_stdout_msg(crate::textspec::spec_line_numbered(content, None, None)),
    )
}

/// The two log entries at `base` are the exact sed/viewport pair that
/// flushing an edit burst of file `path` emits, where `b` is the pre-edit
/// snapshot and `a` the post-edit content: the sed command of the matcher's
/// changed block chained with the viewport display centered on the block.
pub open spec fn edit_pair_at<T: Tokenizer>(
    tok: T,
    cfg: ConversationStateManagerConfig,
    log: Seq<LogEntry>,
    base: int,
    path: Seq<char>,
    b: Seq<char>,
    a: Seq<char>,
) -> bool {
    let sb = crate::diff::spec_changed_block(
        crate::textspec::spec_lines(b),
        crate::textspec::spec_lines(a),
    );
    &&& sb is Some
    &&& ({
        let blk = sb->0;
        let center = ((blk.2 + blk.3) / 2) as nat;
        let total = spec_split_total(a);
        let radius = cfg.viewport_radius as nat;
        let vs = spec_vp_start(total, center, radius);
        let ve = spec_vp_end(total, center, radius);
        &&& entry_matches(
            tok,
            cfg,
            log[base],
            EmissionKind::ViewCmd,
            assistant_marker(),
            spec_bash_block(
                spec_sed_cmd(
                    blk,
                    crate::textspec::spec_lines(a),
                    crate::textspec::spec_count_char(b, '\n') + 1,
                    path,
                ) + seq![' ', '&', '&', ' '] + spec_view_cmd(path, vs as nat, ve as nat),
            ),
        )
        &&& entry_matches(
            tok,
            cfg,
            log[base + 1],
            EmissionKind::Stdout,
            user_marker(),
            spec_stdout_msg(
                crate::textspec::spec_line_numbered(a, Some(vs as nat), Some(ve as nat)),
            ),
        )
    })
}

/// Whether a pending burst really changes the file (beyond trailing
/// newlines) and lies within the machine line limits, so that flushing it
/// emits.
pub open spec fn burst_emits(e: FileEntry) -> bool {
    match e.pending_before {
        Some(bs) => {
            let b = bs@;
            let a = e.content@;
            &&& crate::textspec::spec_trim_trailing_nl(b)
                != crate::textspec::spec_trim_trailing_nl(a)
            &&& crate::textspec::spec_lines(b).len() < usize::MAX
            &&& crate::textspec::spec_lines(a).len() < usize::MAX
            &&& crate::textspec::spec_lines(b) != crate::textspec::spec_lines(a)
        },
        None => false,
    }
}

/// Every file of the old table whose pending burst emits has its exact
/// sed/viewport pair somewhere in the log extension.
pub open spec fn pending_flushes_emitted<T: Tokenizer>(
    tok: T,
    cfg: ConversationStateManagerConfig,
    files0: Seq<FileEntry>,
    log0: Seq<LogEntry>,
    log1: Seq<LogEntry>,
) -> bool {
    forall|i: int|
        0 <= i < files0.len() && burst_emits(#[trigger] files0[i]) ==> (exists|base: int|
            log0.len() <= base && base + 2 <= log1.len() && edit_pair_at(
                tok,
                cfg,
                log1,
                base,
                files0[i].path@,
                files0[i].pending_before->0@,
                files0[i].content@,
            ))
}

/// A non-empty terminal buffer whose normalized, cleaned text is not blank
/// contributes its stdout message (truncated with a marker when over the
/// terminal budget) somewhere in the log extension.
pub open spec fn buffer_flush_emitted<T: Tokenizer>(
    tok: T,
    cfg: ConversationStateManagerConfig,
    buf: Seq<Seq<char>>,
    log0: Seq<LogEntry>,
    log1: Seq<LogEntry>,
) -> bool {
    buf.len() > 0 ==> ({
        let cleaned = crate::textspec::spec_clean_text(
            crate::textspec::spec_normalize_terminal(crate::textspec::spec_concat(buf)),
        );
        let budget = cfg.max_tokens_per_terminal_output;
        &&& (tok.spec_count(cleaned) <= budget && !crate::textspec::spec_all_ws(cleaned)
            ==> exists|base: int|
            log0.len() <= base < log1.len() && entry_matches(
                tok,
                cfg,
                log1[base],
                EmissionKind::Stdout,
                user_marker(),
                spec_stdout_msg(cleaned),
            ))
        &&& (tok.spec_count(cleaned) > budget ==> exists|base: int, t: Seq<char>|
            log0.len() <= base < log1.len() && tok.spec_count(t) <= budget && entry_matches(
                tok,
                cfg,
                log1[base],
                EmissionKind::Stdout,
                user_marker(),
                spec_stdout_msg(t + trunc_marker()),
            ))
    })
}

/// Flush emissions named in an extension survive further extension.
proof fn lemma_flushes_persist<T: Tokenizer>(
    tok: T,
    cfg: ConversationStateManagerConfig,
    files0: Seq<FileEntry>,
    log0: Seq<LogEntry>,
    log1: Seq<LogEntry>,
    log2: Seq<LogEntry>,
)
    requires
        pending_flushes_emitted(tok, cfg, files0, log0, log1),
        log_extends(log1, log2),
    ensures
        pending_flushes_emitted(tok, cfg, files0, log0, log2),
{
    assert forall|i: int|
        0 <= i < files0.len() && burst_emits(#[trigger] files0[i]) implies (exists|base: int|
        log0.len() <= base && base + 2 <= log2.len() && edit_pair_at(
            tok,
            cfg,
            log2,
            base,
            files0[i].path@,
            files0[i].pending_before->0@,
            files0[i].content@,
        )) by {
        let base = choose|base: int|
            log0.len() <= base && base + 2 <= log1.len() && edit_pair_at(
                tok,
                cfg,
                log1,
                base,
                files0[i].path@,
                files0[i].pending_before->0@,
                files0[i].content@,
            );
        assert(log2.take(log1.len() as int)[base] == log1[base]);
        assert(log2.take(log1.len() as int)[base + 1] == log1[base + 1]);
        assert(log2[base] == log1[base] && log2[base + 1] == log1[base + 1]);
        assert(log0.len() <= base && base + 2 <= log2.len() && edit_pair_at(
            tok,
            cfg,
            log2,
            base,
            files0[i].path@,
            files0[i].pending_before->0@,
            files0[i].content@,
        ));
    }
}

/// A buffered-output emission named in an extension survives further
/// extension.
proof fn lemma_buffer_flush_persists<T: Tokenizer>(
    tok: T,
    cfg: ConversationStateManagerConfig,
    buf: Seq<Seq<char>>,
    log0: Seq<LogEntry>,
    log1: Seq<LogEntry>,
    log2: Seq<LogEntry>,
)
    requires
        buffer_flush_emitted(tok, cfg, buf, log0, log1),
        log_extends(log1, log2),
    ensures
        buffer_flush_emitted(tok, cfg, buf, log0, log2),
{
    if buf.len() > 0 {
        let cleaned = crate::textspec::spec_clean_text(
            crate::textspec::spec_normalize_terminal(crate::textspec::spec_concat(buf)),
        );
        let budget = cfg.max_tokens_per_terminal_output;
        if tok.spec_count(cleaned) <= budget && !crate::textspec::spec_all_ws(cleaned) {
            let base = choose|base: int|
                log0.len() <= base < log1.len() && entry_matches(
                    tok,
                    cfg,
                    log1[base],
                    EmissionKind::Stdout,
                    user_marker(),
                    spec_stdout_msg(cleaned),
                );
            assert(log2.take(log1.len() as int)[base] == log1[base]);
            assert(log2[base] == log1[base]);
            assert(log0.len() <= base < log2.len() && entry_matches(
                tok,
                cfg,
                log2[base],
                EmissionKind::Stdout,
                user_marker(),
                spec_stdout_msg(cleaned),
            ));
        }
        if tok.spec_count(cleaned) > budget {
            let (base, t) = choose|base: int, t: Seq<char>|
                log0.len() <= base < log1.len() && tok.spec_count(t) <= budget && entry_matches(
                    tok,
                    cfg,
                    log1[base],
                    EmissionKind::Stdout,
                    user_marker(),
                    spec_stdout_msg(t + trunc_marker()),
                );
            assert(log2.take(log1.len() as int)[base] == log1[base]);
            assert(log2[base] == log1[base]);
            assert(log0.len() <= base < log2.len() && tok.spec_count(t) <= budget
                && entry_matches(
                tok,
                cfg,
                log2[base],
                EmissionKind::Stdout,
                user_marker(),
                spec_stdout_msg(t + trunc_marker()),
            ));
        }
    }
}

/// The buffered-output emission claim only weakens when the base bound
/// moves earlier.
proof fn lemma_buffer_flush_weaken<T: Tokenizer>(
    tok: T,
    cfg: ConversationStateManagerConfig,
    buf: Seq<Seq<char>>,
    log0a: Seq<LogEntry>,
    log0b: Seq<LogEntry>,
    log1: Seq<LogEntry>,
)
    requires
        log0b.len() <= log0a.len(),
        buffer_flush_emitted(tok, cfg, buf, log0a, log1),
    ensures
        buffer_flush_emitted(tok, cfg, buf, log0b, log1),
{
    if buf.len() > 0 {
        let cleaned = crate::textspec::spec_clean_text(
            crate::textspec::spec_normalize_terminal(crate::textspec::spec_concat(buf)),
        );
        let budget = cfg.max_tokens_per_terminal_output;
        if tok.spec_count(cleaned) <= budget && !crate::textspec::spec_all_ws(cleaned) {
            let base = choose|base: int|
                log0a.len() <= base < log1.len() && entry_matches(
                    tok,
                    cfg,
                    log1[base],
                    EmissionKind::Stdout,
                    user_marker(),
                    spec_stdout_msg(cleaned),
                );
            assert(log0b.len() <= base < log1.len() && entry_matches(
                tok,
                cfg,
                log1[base],
                EmissionKind::Stdout,
                user_marker(),
                spec_stdout_msg(cleaned),
            ));
        }
        if tok.spec_count(cleaned) > budget {
            let (base, t) = choose|base: int, t: Seq<char>|
                log0a.len() <= base < log1.len() && tok.spec_count(t) <= budget && entry_matches(
                    tok,
                    cfg,
                    log1[base],
                    EmissionKind::Stdout,
                    user_marker(),
                    spec_stdout_msg(t + trunc_marker()),
                );
            assert(log0b.len() <= base < log1.len() && tok.spec_count(t) <= budget
                && entry_matches(
                tok,
                cfg,
                log1[base],
                EmissionKind::Stdout,
                user_marker(),
                spec_stdout_msg(t + trunc_marker()),
            ));
        }
    }
}

/// The keep-or-discard gate for a finalized chunk: long enough and both
/// senders present.
pub open spec fn chunk_gate(
    cfg: ConversationStateManagerConfig,
    msgs: Seq<ConversationMessage>,
) -> bool {
    &&& msgs.len() >= cfg.min_conversation_messages
    &&& exists|i: int| 0 <= i < msgs.len() && (#[trigger] msgs[i]).from@ == user_marker()
    &&& exists|i: int| 0 <= i < msgs.len() && (#[trigger] msgs[i]).from@ == assistant_marker()
}

/// The marker appended to truncated terminal output.
pub open spec fn trunc_marker() -> Seq<char> {
    seq!['\n', '.', '.', '.', ' ', '[', 't', 'r', 'u', 'n', 'c', 'a', 't', 'e', 'd', ']']
}

/// Manages conversation state for serializing IDE events.
///
/// The tokenizer is supplied by the caller: either an exact tokenizer for
/// preprocessing or a character approximation for interactive use.
pub struct ConversationStateManager<T: Tokenizer> {
    tokenizer: T,
    config: ConversationStateManagerConfig,
    messages: Vec<ConversationMessage>,
    current_tokens: usize,
    finalized_conversations: Vec<FinalizedConversation>,
    files: Vec<FileEntry>,
    terminal_output_buffer: Vec<String>,
    log: Ghost<Seq<LogEntry>>,
    archived: Ghost<nat>,
    costs: Ghost<Seq<nat>>,
}

impl<T: Tokenizer> ConversationStateManager<T> {
    /// The messages of the open chunk.
    pub closed spec fn spec_messages(&self) -> Seq<ConversationMessage> {
        self.messages@
    }

    /// The append-order history of every emitted message, including those
    /// already finalized or discarded.
    pub closed spec fn spec_log(&self) -> Seq<LogEntry> {
        self.log@
    }

    /// The finalized chunks collected so far.
    pub closed spec fn spec_finalized(&self) -> Seq<FinalizedConversation> {
        self.finalized_conversations@
    }

    /// The configuration the manager was created with.
    pub closed spec fn spec_config(&self) -> ConversationStateManagerConfig {
        self.config
    }

    /// The tokenizer the manager was created with.
    pub closed spec fn spec_tokenizer(&self) -> T {
        self.tokenizer
    }

    /// The token count of the open chunk.
    pub closed spec fn spec_tokens(&self) -> nat {
        self.current_tokens as nat
    }

    /// The recorded token cost of each message of the open chunk.
    pub closed spec fn spec_costs(&self) -> Seq<nat> {
        self.costs@
    }

    /// How many emissions have left the open chunk (finalized or
    /// discarded).
    pub closed spec fn spec_archived(&self) -> nat {
        self.archived@
    }

    /// The buffered terminal output fragments.
    pub closed spec fn spec_buffer(&self) -> Seq<Seq<char>> {
        self.terminal_output_buffer.deep_view()
    }

    /// The file table.
    pub closed spec fn spec_files(&self) -> Seq<FileEntry> {
        self.files@
    }

    /// The tracked content of a file (empty when never seen).
    pub open spec fn spec_file_content(&self, path: Seq<char>) -> Seq<char> {
        content_of(self.spec_files(), path)
    }

    /// The pending pre-edit snapshot of a file.
    pub open spec fn spec_pending_before(&self, path: Seq<char>) -> Option<Seq<char>> {
        pending_before_of(self.spec_files(), path)
    }

    /// No buffered terminal output and no pending edit burst: the flushes
    /// that precede an emission have nothing to do.
    pub open spec fn quiescent(&self) -> bool {
        &&& self.spec_buffer().len() == 0
        &&& forall|i: int|
            0 <= i < self.spec_files().len() ==> (#[trigger] self.spec_files()[i]).pending_before
                is None
    }

    /// Internal representation invariant.
    pub closed spec fn wf_core(&self) -> bool {
        &&& forall|i: int, j: int|
            #![trigger self.files@[i], self.files@[j]]
            0 <= i < j < self.files@.len() ==> crate::textspec::spec_lex_lt(
                self.files@[i].path@,
                self.files@[j].path@,
            )
        &&& forall|i: int|
            0 <= i < self.files@.len() ==> ((#[trigger] self.files@[i]).pending_before is Some
                <==> self.files@[i].pending_region is Some)
        &&& self.messages@.len() == 0 ==> self.current_tokens == 0
        &&& good_chunking(self.config) ==> self.current_tokens
            <= self.config.max_tokens_per_conversation->0 + self.config.max_tokens_per_message - 1
        &&& forall|i: int|
            0 <= i < self.messages@.len() ==> self.tokenizer.spec_count(
                (#[trigger] self.messages@[i]).value@,
            ) <= self.config.max_tokens_per_message
        &&& self.costs@.len() == self.messages@.len()
        &&& forall|i: int|
            0 <= i < self.costs@.len() ==> self.tokenizer.spec_count(self.messages@[i].value@)
                <= #[trigger] self.costs@[i] && self.costs@[i]
                <= self.config.max_tokens_per_message
        &&& crate::textspec::spec_sum(self.costs@) <= usize::MAX ==> self.current_tokens
            == crate::textspec::spec_sum(self.costs@)
        &&& crate::textspec::spec_sum(self.costs@) > usize::MAX ==> self.current_tokens
            == usize::MAX
        &&& forall|i: int|
            0 <= i < self.finalized_conversations@.len() ==> conversation_ok(
                self.tokenizer,
                self.config,
                #[trigger] self.finalized_conversations@[i],
            )
        &&& self.log@.len() == self.archived@ + self.messages@.len()
        &&& forall|i: int|
            0 <= i < self.messages@.len() ==> (#[trigger] self.log@[self.archived@ + i]).from
                == self.messages@[i].from@ && self.log@[self.archived@ + i].value
                == self.messages@[i].value@
        &&& forall|i: int|
            0 <= i < self.log@.len() ==> ((#[trigger] self.log@[i]).kind is Stdout
                <==> self.log@[i].from == user_marker())
        &&& forall|i: int|
            0 <= i < self.log@.len() && !((#[trigger] self.log@[i]).kind is Stdout)
                ==> self.log@[i].from == assistant_marker()
    }

    /// Full well-formedness: the representation invariant together with the
    /// pairing of view commands and their stdout messages, and the open
    /// chunk's messages being exactly the tail of the emission history.
    pub open spec fn wf(&self) -> bool {
        &&& self.wf_core()
        &&& log_paired(self.spec_log())
        &&& self.spec_log().len() == self.spec_archived() + self.spec_messages().len()
        &&& forall|i: int|
            0 <= i < self.spec_messages().len() ==> {
                let e = self.spec_log()[self.spec_log().len() - self.spec_messages().len() + i];
                e.from == (#[trigger] self.spec_messages()[i]).from@ && e.value
                    == self.spec_messages()[i].value@
            }
        &&& forall|i: int|
            0 <= i < self.spec_files().len() ==> ((#[trigger] self.spec_files()[i]).pending_before
                is Some <==> self.spec_files()[i].pending_region is Some)
        &&& self.spec_costs().len() == self.spec_messages().len()
        &&& forall|i: int|
            0 <= i < self.spec_costs().len() ==> self.spec_tokenizer().spec_count(
                self.spec_messages()[i].value@,
            ) <= #[trigger] self.spec_costs()[i] && self.spec_costs()[i]
                <= self.spec_config().max_tokens_per_message
        &&& (crate::textspec::spec_sum(self.spec_costs()) <= usize::MAX ==> self.spec_tokens()
            == crate::textspec::spec_sum(self.spec_costs()))
        &&& (crate::textspec::spec_sum(self.spec_costs()) > usize::MAX ==> self.spec_tokens()
            == usize::MAX)
    }

    /// Create a new manager with the given tokenizer and configuration.
    pub fn new(tokenizer: T, config: ConversationStateManagerConfig) -> (r: Self)
        ensures
            r.wf(),
            r.spec_messages().len() == 0,
            r.spec_finalized().len() == 0,
            r.spec_log().len() == 0,
            r.spec_buffer().len() == 0,
            r.spec_files().len() == 0,
            r.spec_tokens() == 0,
            r.spec_config() == config,
            r.spec_tokenizer() == tokenizer,
    {
        let r = Self {
            tokenizer,
            config,
            messages: Vec::new(),
            current_tokens: 0,
            finalized_conversations: Vec::new(),
            files: Vec::new(),
            terminal_output_buffer: Vec::new(),
            log: Ghost(Seq::empty()),
            archived: Ghost(0),
            costs: Ghost(Seq::empty()),
        };
        proof {
            assert(r.terminal_output_buffer.deep_view() =~~= Seq::<Seq<char>>::empty());
        }
        r
    }

    /// Reset all state, including the emission history.
    pub fn reset(&mut self)
        ensures
            final(self).wf(),
            final(self).spec_messages().len() == 0,
            final(self).spec_finalized().len() == 0,
            final(self).spec_log().len() == 0,
            final(self).spec_buffer().len() == 0,
            final(self).spec_files().len() == 0,
            final(self).spec_tokens() == 0,
            final(self).spec_config() == old(self).spec_config(),
            final(self).spec_tokenizer() == old(self).spec_tokenizer(),
    {
        self.messages.clear();
        self.current_tokens = 0;
        self.finalized_conversations.clear();
        self.files.clear();
        self.terminal_output_buffer.clear();
        self.log = Ghost(Seq::empty());
        self.archived = Ghost(0);
        self.costs = Ghost(Seq::empty());
        proof {
            assert(self.terminal_output_buffer.deep_view() =~~= Seq::<Seq<char>>::empty());
        }
    }

    /// Get a copy of the open chunk's messages.
    pub fn get_messages(&self) -> (r: Vec<ConversationMessage>)
        ensures
            r@ == self.spec_messages(),
    {
        let mut out: Vec<ConversationMessage> = Vec::new();
        let n = self.messages.len();
        let mut i: usize = 0;
        while i < n
            invariant
                i <= n,
                n == self.messages@.len(),
                out@ =~= self.messages@.take(i as int),
            decreases n - i,
        {
            out.push(self.messages[i].clone());
            i = i + 1;
        }
        proof {
            assert(self.messages@.take(n as int) =~= self.messages@);
        }
        out
    }

    /// Get the tracked content of a file (empty when never seen).
    pub fn get_file_content(&self, file_path: &str) -> (r: String)
        ensures
            r@ == self.spec_file_content(file_path@),
    {
        let n = self.files.len();
        let mut i: usize = 0;
        while i < n
            invariant
                i <= n,
                n == self.files@.len(),
                forall|k: int| 0 <= k < i ==> (#[trigger] self.files@[k]).path@ != file_path@,
            decreases n - i,
        {
            if str_eq(self.files[i].path.as_str(), file_path) {
                proof {
                    lemma_find_entry(self.files@, file_path@);
                }
                return self.files[i].content.clone();
            }
            i = i + 1;
        }
        proof {
            lemma_find_entry(self.files@, file_path@);
        }
        String::new()
    }

    /// Finalize the current conversation chunk: it is kept only when it is
    /// long enough and contains both a user and an assistant message.
    fn finalize_current_conversation(&mut self)
        requires
            old(self).wf_core(),
        ensures
            final(self).wf_core(),
            final(self).spec_log() == old(self).spec_log(),
            final(self).spec_messages().len() == 0,
            final(self).spec_tokens() == 0,
            final(self).spec_files().len() == old(self).spec_files().len(),
            forall|i: int|
                0 <= i < old(self).spec_files().len() ==> {
                    let e0 = old(self).spec_files()[i];
                    let e1 = #[trigger] final(self).spec_files()[i];
                    e1.path == e0.path && e1.content == e0.content && e1.viewport == e0.viewport
                        && e1.pending_before == e0.pending_before && e1.pending_region
                        == e0.pending_region && (e1.captured == (if old(self).spec_messages().len() == 0 {
                        e0.captured
                    } else {
                        false
                    }))
                },
            final(self).spec_buffer() == old(self).spec_buffer(),
            final(self).spec_config() == old(self).spec_config(),
            final(self).spec_tokenizer() == old(self).spec_tokenizer(),
            old(self).spec_messages().len() == 0 ==> final(self).spec_finalized() == old(self).spec_finalized(),
            old(self).spec_messages().len() > 0 && chunk_gate(
                old(self).spec_config(),
                old(self).spec_messages(),
            ) ==> final(self).spec_finalized().len() == old(self).spec_finalized().len() + 1
                && final(self).spec_finalized().last().messages@ == old(self).spec_messages()
                && final(self).spec_finalized().last().token_count == old(self).spec_tokens(),
            old(self).spec_messages().len() > 0 && !chunk_gate(
                old(self).spec_config(),
                old(self).spec_messages(),
            ) ==> final(self).spec_finalized() == old(self).spec_finalized(),
            final(self).spec_finalized().len() >= old(self).spec_finalized().len(),
            forall|i: int|
                0 <= i < old(self).spec_finalized().len() ==> final(self).spec_finalized()[i]
                    == old(self).spec_finalized()[i],
    {
        if self.messages.len() == 0 {
            return;
        }
        let ghost costs0 = self.costs@;
        let is_long_enough = self.messages.len() >= self.config.min_conversation_messages;
        let n = self.messages.len();
        let mut has_user = false;
        let mut has_assistant = false;
        let mut i: usize = 0;
        while i < n
            invariant
                i <= n,
                n == self.messages@.len(),
                has_user <==> exists|k: int|
                    0 <= k < i && (#[trigger] self.messages@[k]).from@ == user_marker(),
                has_assistant <==> exists|k: int|
                    0 <= k < i && (#[trigger] self.messages@[k]).from@ == assistant_marker(),
            decreases n - i,
        {
            proof {
                reveal_strlit("User");
                reveal_strlit("Assistant");
                assert("User"@ =~= user_marker());
                assert("Assistant"@ =~= assistant_marker());
            }
            if str_eq(self.messages[i].from.as_str(), "User") {
                has_user = true;
            }
            if str_eq(self.messages[i].from.as_str(), "Assistant") {
                has_assistant = true;
            }
            i = i + 1;
        }

        if is_long_enough && has_user && has_assistant {
            let msgs = self.messages.split_off(0);
            proof {
                assert(msgs@ =~= old(self).spec_messages());
            }
            let conv = FinalizedConversation { messages: msgs, token_count: self.current_tokens };
            proof {
                let k0 = choose|k: int|
                    0 <= k < n && (#[trigger] old(self).spec_messages()[k]).from@ == user_marker();
                assert(conv.messages@[k0].from@ == user_marker());
                let k1 = choose|k: int|
                    0 <= k < n && (#[trigger] old(self).spec_messages()[k]).from@
                        == assistant_marker();
                assert(conv.messages@[k1].from@ == assistant_marker());
                assert forall|k: int|
                    0 <= k < conv.messages@.len() implies self.tokenizer.spec_count(
                    (#[trigger] conv.messages@[k]).value@,
                ) <= self.config.max_tokens_per_message by {
                    assert(conv.messages@[k] == old(self).spec_messages()[k]);
                }
                // the recorded per-message costs witness the token sum
                assert(costs0.len() == conv.messages@.len());
                assert forall|k: int|
                    0 <= k < costs0.len() implies self.tokenizer.spec_count(
                    conv.messages@[k].value@,
                ) <= #[trigger] costs0[k] && costs0[k] <= self.config.max_tokens_per_message by {
                    assert(conv.messages@[k] == old(self).spec_messages()[k]);
                }
                assert(conversation_ok(self.tokenizer, self.config, conv));
            }
            self.finalized_conversations.push(conv);
        } else {
            self.messages.clear();
        }

        self.current_tokens = 0;
        self.costs = Ghost(Seq::empty());
        let ghost new_archived = self.log@.len();
        self.archived = Ghost(new_archived);

        // Every file must be captured again in the next chunk.
        let ghost msgs1 = self.messages@;
        let ghost fin1 = self.finalized_conversations@;
        let ghost log1 = self.log@;
        let ghost arch1 = self.archived@;
        let ghost buf1 = self.terminal_output_buffer@;
        let ghost cfg1 = self.config;
        let ghost tok1 = self.tokenizer;
        let nf = self.files.len();
        let mut k: usize = 0;
        let ghost files0 = self.files@;
        while k < nf
            invariant
                k <= nf,
                nf == self.files@.len(),
                files0.len() == nf,
                self.messages@ == msgs1,
                self.current_tokens == 0,
                self.costs@ == Seq::<nat>::empty(),
                self.finalized_conversations@ == fin1,
                self.log@ == log1,
                self.archived@ == arch1,
                self.terminal_output_buffer@ == buf1,
                self.config == cfg1,
                self.tokenizer == tok1,
                forall|t: int| k <= t < nf ==> #[trigger] self.files@[t] == files0[t],
                forall|t: int|
                    0 <= t < k ==> (#[trigger] self.files@[t]).path == files0[t].path
                        && self.files@[t].content == files0[t].content && self.files@[t].viewport
                        == files0[t].viewport && self.files@[t].captured == false
                        && self.files@[t].pending_before == files0[t].pending_before
                        && self.files@[t].pending_region == files0[t].pending_region,
            decreases nf - k,
        {
            let ghost pre = self.files@;
            let mut entry = self.files.remove(k);
            entry.captured = false;
            self.files.insert(k, entry);
            proof {
                assert(self.files@ =~= pre.update(k as int, entry));
            }
            k = k + 1;
        }
    }

    /// Index of the entry for this path, if any.
    fn find_file_index(&self, path: &str) -> (r: Option<usize>)
        ensures
            r is Some <==> find_entry(self.spec_files(), path@) is Some,
            r is Some ==> find_entry(self.spec_files(), path@) == Some(r->0 as int),
    {
        let n = self.files.len();
        let mut i: usize = 0;
        while i < n
            invariant
                i <= n,
                n == self.files@.len(),
                forall|k: int| 0 <= k < i ==> (#[trigger] self.files@[k]).path@ != path@,
            decreases n - i,
        {
            if str_eq(self.files[i].path.as_str(), path) {
                proof {
                    lemma_find_entry(self.files@, path@);
                }
                return Some(i);
            }
            i = i + 1;
        }
        proof {
            lemma_find_entry(self.files@, path@);
        }
        None
    }

    /// Find the entry for this path, creating a fresh one (empty content,
    /// nothing pending) in sorted position when absent.
    #[verifier::rlimit(50)]
    fn ensure_file(&mut self, path: &str) -> (idx: usize)
        requires
            old(self).wf(),
        ensures
            final(self).wf(),
            idx < final(self).spec_files().len(),
            final(self).spec_files()[idx as int].path@ == path@,
            find_entry(final(self).spec_files(), path@) == Some(idx as int),
            find_entry(old(self).spec_files(), path@) is Some ==> final(self).spec_files()
                == old(self).spec_files(),
            find_entry(old(self).spec_files(), path@) is None ==> idx <= old(self).spec_files().len(),
            find_entry(old(self).spec_files(), path@) is None ==> ({
                let e = final(self).spec_files()[idx as int];
                &&& e.content@ == Seq::<char>::empty()
                &&& e.viewport is None
                &&& e.captured == false
                &&& e.pending_before is None
                &&& e.pending_region is None
                &&& final(self).spec_files() == old(self).spec_files().insert(idx as int, e)
            }),
            final(self).spec_log() == old(self).spec_log(),
            final(self).spec_messages() == old(self).spec_messages(),
            final(self).spec_buffer() == old(self).spec_buffer(),
            final(self).spec_finalized() == old(self).spec_finalized(),
            final(self).spec_config() == old(self).spec_config(),
            final(self).spec_tokenizer() == old(self).spec_tokenizer(),
    {
        match self.find_file_index(path) {
            Some(i) => {
                proof {
                    lemma_find_entry(self.files@, path@);
                }
                return i;
            },
            None => {
            },
        }
        proof {
            lemma_find_entry(self.files@, path@);
        }
        // Scan for the sorted insertion point.
        let n = self.files.len();
        let mut pos: usize = 0;
        while pos < n && !crate::helpers::str_lex_lt(path, self.files[pos].path.as_str())
            invariant
                pos <= n,
                n == self.files@.len(),
                forall|k: int| 0 <= k < n ==> (#[trigger] self.files@[k]).path@ != path@,
                forall|k: int|
                    0 <= k < pos ==> crate::textspec::spec_lex_lt(
                        (#[trigger] self.files@[k]).path@,
                        path@,
                    ),
            decreases n - pos,
        {
            proof {
                crate::textspec::lemma_lex_trichotomy(path@, self.files@[pos as int].path@);
            }
            pos = pos + 1;
        }
        let entry = FileEntry {
            path: path.to_owned(),
            content: String::new(),
            viewport: None,
            captured: false,
            pending_before: None,
            pending_region: None,
        };
        let ghost files0 = self.files@;
        let ghost e = entry;
        self.files.insert(pos, entry);
        proof {
            let f1 = self.files@;
            assert forall|i: int, j: int|
                #![trigger f1[i], f1[j]]
                0 <= i < j < f1.len() implies crate::textspec::spec_lex_lt(
                f1[i].path@,
                f1[j].path@,
            ) by {
                if j < pos {
                    assert(f1[i] == files0[i] && f1[j] == files0[j]);
                } else if i < pos && j == pos {
                    assert(f1[i] == files0[i]);
                } else if i < pos && j > pos {
                    assert(f1[i] == files0[i] && f1[j] == files0[j - 1]);
                } else if i == pos {
                    assert(f1[j] == files0[j - 1]);
                    assert(crate::textspec::spec_lex_lt(path@, files0[pos as int].path@));
                    if j - 1 > pos {
                        crate::textspec::lemma_lex_trans(
                            path@,
                            files0[pos as int].path@,
                            files0[j - 1].path@,
                        );
                    }
                } else {
                    assert(f1[i] == files0[i - 1] && f1[j] == files0[j - 1]);
                }
            }
            lemma_sorted_find_self(f1, pos as int);
            assert(f1 =~= files0.insert(pos as int, e));
        }
        pos
    }

    /// Clear the pending snapshot and region of one entry.
    fn clear_pending_at(&mut self, idx: usize)
        requires
            old(self).wf(),
            idx < old(self).spec_files().len(),
        ensures
            final(self).wf(),
            final(self).spec_files().len() == old(self).spec_files().len(),
            forall|i: int|
                0 <= i < old(self).spec_files().len() && i != idx ==> final(self).spec_files()[i]
                    == #[trigger] old(self).spec_files()[i],
            ({
                let e0 = old(self).spec_files()[idx as int];
                let e1 = final(self).spec_files()[idx as int];
                e1.path == e0.path && e1.content == e0.content && e1.viewport == e0.viewport
                    && e1.captured == e0.captured && e1.pending_before is None
                    && e1.pending_region is None
            }),
            final(self).spec_log() == old(self).spec_log(),
            final(self).spec_messages() == old(self).spec_messages(),
            final(self).spec_buffer() == old(self).spec_buffer(),
            final(self).spec_finalized() == old(self).spec_finalized(),
            final(self).spec_config() == old(self).spec_config(),
            final(self).spec_tokenizer() == old(self).spec_tokenizer(),
    {
        let ghost files0 = self.files@;
        let mut entry = self.files.remove(idx);
        entry.pending_before = None;
        entry.pending_region = None;
        self.files.insert(idx, entry);
        proof {
            assert(self.files@ =~= files0.update(idx as int, entry));
        }
    }

    /// Cache a viewport for one entry.
    fn set_viewport_at(&mut self, idx: usize, vp: Viewport)
        requires
            old(self).wf(),
            idx < old(self).spec_files().len(),
        ensures
            final(self).wf(),
            final(self).spec_files().len() == old(self).spec_files().len(),
            forall|i: int|
                0 <= i < old(self).spec_files().len() && i != idx ==> final(self).spec_files()[i]
                    == #[trigger] old(self).spec_files()[i],
            ({
                let e0 = old(self).spec_files()[idx as int];
                let e1 = final(self).spec_files()[idx as int];
                e1.path == e0.path && e1.content == e0.content && e1.viewport == Some(vp)
                    && e1.captured == e0.captured && e1.pending_before == e0.pending_before
                    && e1.pending_region == e0.pending_region
            }),
            final(self).spec_log() == old(self).spec_log(),
            final(self).spec_messages() == old(self).spec_messages(),
            final(self).spec_buffer() == old(self).spec_buffer(),
            final(self).spec_finalized() == old(self).spec_finalized(),
            final(self).spec_config() == old(self).spec_config(),
            final(self).spec_tokenizer() == old(self).spec_tokenizer(),
    {
        let ghost files0 = self.files@;
        let mut entry = self.files.remove(idx);
        entry.viewport = Some(vp);
        self.files.insert(idx, entry);
        proof {
            assert(self.files@ =~= files0.update(idx as int, entry));
        }
    }

    /// Emit the full `cat -n` capture pair for a file unless it was already
    /// shown in the open chunk.
    #[verifier::rlimit(50)]
    fn maybe_capture_file_contents(&mut self, file_path: &str, content: &str)
        requires
            old(self).wf(),
            find_entry(old(self).spec_files(), file_path@) is Some,
        ensures
            final(self).wf(),
            log_extends(old(self).spec_log(), final(self).spec_log()),
            final(self).spec_log().len() <= old(self).spec_log().len() + 2,
            captured_of(old(self).spec_files(), file_path@) ==> final(self).spec_log() == old(self).spec_log(),
            !captured_of(old(self).spec_files(), file_path@) ==> final(self).spec_log().len()
                == old(self).spec_log().len() + 2,
            final(self).spec_log().len() > old(self).spec_log().len() ==> final(self).spec_log().len() == old(self).spec_log().len() + 2 && entry_matches(
                old(self).spec_tokenizer(),
                old(self).spec_config(),
                final(self).spec_log()[final(self).spec_log().len() - 2],
                EmissionKind::ViewCmd,
                assistant_marker(),
                spec_bash_block(spec_cat_cmd(file_path@)),
            ) && entry_matches(
                old(self).spec_tokenizer(),
                old(self).spec_config(),
                final(self).spec_log().last(),
                EmissionKind::Stdout,
                user_marker(),
                spec_stdout_msg(crate::textspec::spec_line_numbered(content@, None, None)),
            ),
            final(self).spec_files().len() == old(self).spec_files().len(),
            forall|i: int|
                0 <= i < old(self).spec_files().len() ==> {
                    let e0 = #[trigger] old(self).spec_files()[i];
                    let e1 = final(self).spec_files()[i];
                    e1.path == e0.path && e1.content == e0.content && e1.viewport == e0.viewport
                        && e1.pending_before == e0.pending_before && e1.pending_region
                        == e0.pending_region
                },
            final(self).spec_files()[find_entry(old(self).spec_files(), file_path@)->0].captured
                == true,
            final(self).spec_buffer() == old(self).spec_buffer(),
            final(self).spec_config() == old(self).spec_config(),
            final(self).spec_tokenizer() == old(self).spec_tokenizer(),
            finalized_frame(old(self).spec_finalized(), final(self).spec_finalized()),
    {
        let idx_opt = self.find_file_index(file_path);
        proof {
            lemma_find_entry(self.files@, file_path@);
        }
        let idx = match idx_opt {
            Some(i) => i,
            None => {
                proof {
                    assert(false);
                }
                0
            },
        };
        proof {
            lemma_sorted_find_self(self.spec_files(), idx as int);
        }
        if self.files[idx].captured {
            proof {
                assert(self.spec_log().take(self.spec_log().len() as int) =~= self.spec_log());
            }
            return;
        }
        let cmd = build_cat_cmd(file_path);
        let cmd_block = build_bash_block(cmd.as_str());
        let output = crate::helpers::line_numbered_output(content, None, None);
        let user_value = build_stdout_value(output.as_str());
        self.emit_view_pair(cmd_block, user_value);
        let ghost files1 = self.files@;
        let mut entry = self.files.remove(idx);
        entry.captured = true;
        self.files.insert(idx, entry);
        proof {
            assert(self.files@ =~= files1.update(idx as int, entry));
        }
    }

    /// Flush the pending edit burst of one file: the before/after snapshots
    /// are diffed at line granularity and emitted as one `sed` command
    /// chained with a viewport display, after capturing the file's pre-edit
    /// content when needed. Edits that only differ in trailing newlines are
    /// dropped. The pending state of the file is cleared in every case.
    #[verifier::rlimit(100)]
    pub fn flush_pending_edit_for_file(&mut self, target_file: &str)
        requires
            old(self).wf(),
        ensures
            final(self).wf(),
            log_extends(old(self).spec_log(), final(self).spec_log()),
            final(self).spec_pending_before(target_file@) is None,
            final(self).spec_files().len() == old(self).spec_files().len(),
            forall|i: int|
                0 <= i < old(self).spec_files().len() ==> {
                    let e0 = #[trigger] old(self).spec_files()[i];
                    let e1 = final(self).spec_files()[i];
                    e1.path == e0.path && e1.content == e0.content && (e0.path@ != target_file@
                        ==> e1.pending_before == e0.pending_before && e1.pending_region
                        == e0.pending_region && e1.viewport == e0.viewport)
                },
            old(self).spec_pending_before(target_file@) is None ==> final(self).spec_log()
                == old(self).spec_log() && final(self).spec_files() == old(self).spec_files()
                && final(self).spec_messages() == old(self).spec_messages() && final(self).spec_finalized() == old(self).spec_finalized() && final(self).spec_tokens() == old(self).spec_tokens(),
            (match old(self).spec_pending_before(target_file@) {
                Some(b) => crate::textspec::spec_trim_trailing_nl(b)
                    == crate::textspec::spec_trim_trailing_nl(
                    old(self).spec_file_content(target_file@),
                ),
                None => true,
            }) ==> final(self).spec_log() == old(self).spec_log() && final(self).spec_messages()
                == old(self).spec_messages() && (forall|i: int|
                0 <= i < old(self).spec_files().len() ==> {
                    let e0 = #[trigger] old(self).spec_files()[i];
                    let e1 = final(self).spec_files()[i];
                    e1.viewport == e0.viewport && e1.captured == e0.captured
                }),
            (match old(self).spec_pending_before(target_file@) {
                Some(b) => {
                    let a = old(self).spec_file_content(target_file@);
                    &&& crate::textspec::spec_trim_trailing_nl(b)
                        != crate::textspec::spec_trim_trailing_nl(a)
                    &&& crate::textspec::spec_lines(b).len() < usize::MAX
                    &&& crate::textspec::spec_lines(a).len() < usize::MAX
                    &&& crate::textspec::spec_lines(b) != crate::textspec::spec_lines(a)
                },
                None => false,
            }) ==> ({
                let b = old(self).spec_pending_before(target_file@)->0;
                let a = old(self).spec_file_content(target_file@);
                let tok = old(self).spec_tokenizer();
                let cfg = old(self).spec_config();
                let was = captured_of(old(self).spec_files(), target_file@);
                let sb = crate::diff::spec_changed_block(
                    crate::textspec::spec_lines(b),
                    crate::textspec::spec_lines(a),
                );
                &&& final(self).spec_log().len() == old(self).spec_log().len() + (if was {
                    2int
                } else {
                    4int
                })
                &&& edit_pair_at(
                    tok,
                    cfg,
                    final(self).spec_log(),
                    final(self).spec_log().len() - 2,
                    target_file@,
                    b,
                    a,
                )
                &&& (!was ==> capture_pair_at(
                    tok,
                    cfg,
                    final(self).spec_log(),
                    old(self).spec_log().len() as int,
                    target_file@,
                    b,
                ))
                &&& ({
                    let blk = crate::diff::spec_changed_block(
                        crate::textspec::spec_lines(b),
                        crate::textspec::spec_lines(a),
                    )->0;
                    let center = ((blk.2 + blk.3) / 2) as nat;
                    let total = spec_split_total(a);
                    let radius = cfg.viewport_radius as nat;
                    match viewport_of(final(self).spec_files(), target_file@) {
                        Some(v) => v.start == spec_vp_start(total, center, radius) && v.end
                            == spec_vp_end(total, center, radius),
                        None => false,
                    }
                })
            }),
            final(self).spec_buffer() == old(self).spec_buffer(),            final(self).spec_buffer() == old(self).spec_buffer(),
            final(self).spec_config() == old(self).spec_config(),
            final(self).spec_tokenizer() == old(self).spec_tokenizer(),
            finalized_frame(old(self).spec_finalized(), final(self).spec_finalized()),
    {
        let idx_opt = self.find_file_index(target_file);
        proof {
            lemma_find_entry(self.files@, target_file@);
        }
        let idx: usize;
        match idx_opt {
            Some(i) => {
                idx = i;
            },
            None => {
                proof {
                    assert(self.spec_log().take(self.spec_log().len() as int)
                        =~= self.spec_log());
                }
                return;
            },
        }
        proof {
            lemma_sorted_find_self(self.files@, idx as int);
        }
        let before_snapshot: String;
        match &self.files[idx].pending_before {
            Some(s) => {
                before_snapshot = s.clone();
            },
            None => {
                proof {
                    assert(self.spec_log().take(self.spec_log().len() as int)
                        =~= self.spec_log());
                }
                return;
            },
        }
        let after_state = self.files[idx].content.clone();

        let b_trim = crate::helpers::trim_trailing_nl(before_snapshot.as_str());
        let a_trim = crate::helpers::trim_trailing_nl(after_state.as_str());
        if str_eq(b_trim.as_str(), a_trim.as_str()) {
            self.clear_pending_at(idx);
            proof {
                lemma_sorted_find_self(self.spec_files(), idx as int);
                assert(self.spec_log().take(self.spec_log().len() as int) =~= self.spec_log());
            }
            return;
        }

        // Machine limit: the diff needs line counts below usize::MAX.
        let before_lines = crate::diff::lines_vec(before_snapshot.as_str());
        let after_lines_probe = crate::diff::lines_vec(after_state.as_str());
        if before_lines.len() == usize::MAX || after_lines_probe.len() == usize::MAX {
            self.clear_pending_at(idx);
            proof {
                lemma_sorted_find_self(self.spec_files(), idx as int);
                assert(self.spec_log().take(self.spec_log().len() as int) =~= self.spec_log());
            }
            return;
        }

        let changed = match compute_changed_block_lines(
            before_snapshot.as_str(),
            after_state.as_str(),
        ) {
            Ok(c) => c,
            Err(_) => {
                self.clear_pending_at(idx);
                proof {
                    lemma_sorted_find_self(self.spec_files(), idx as int);
                    assert(self.spec_log().take(self.spec_log().len() as int)
                        =~= self.spec_log());
                }
                return;
            },
        };

        let nb = before_snapshot.as_str().unicode_len();
        let before_nls = crate::helpers::count_char_prefix(before_snapshot.as_str(), nb, '\n');
        proof {
            assert(before_snapshot@.take(nb as int) =~= before_snapshot@);
        }
        let sed_cmd = build_sed_command(&changed, before_nls, target_file);
        proof {
            assert(before_snapshot@ == old(self).spec_pending_before(target_file@)->0);
            assert(after_state@ == old(self).spec_file_content(target_file@));
            let blk = crate::diff::spec_changed_block(
                crate::textspec::spec_lines(before_snapshot@),
                crate::textspec::spec_lines(after_state@),
            )->0;
            assert(changed.start_before == blk.0 && changed.end_before == blk.1
                && changed.start_after == blk.2 && changed.end_after == blk.3);
            assert(changed.replacement_lines.deep_view() =~~= crate::textspec::spec_lines(
                after_state@,
            ).subrange(blk.2 - 1, blk.3));
            assert(sed_cmd@ == spec_sed_cmd(
                blk,
                crate::textspec::spec_lines(after_state@),
                crate::textspec::spec_count_char(before_snapshot@, '\n') + 1,
                target_file@,
            ));
        }

        let center = if changed.end_after >= changed.start_after {
            changed.start_after + (changed.end_after - changed.start_after) / 2
        } else {
            changed.end_after + (changed.start_after - changed.end_after) / 2
        };
        proof {
            assert(center == (changed.start_after + changed.end_after) / 2) by (nonlinear_arith)
                requires
                    center == (if changed.end_after >= changed.start_after {
                        changed.start_after + (changed.end_after - changed.start_after) / 2
                    } else {
                        changed.end_after + (changed.start_after - changed.end_after) / 2
                    }),
            {
            }
        }
        self.emit_edit_for_entry(
            target_file,
            idx,
            sed_cmd,
            before_snapshot.as_str(),
            after_state.as_str(),
            center,
        );
    }

    /// Emit the flushed edit of one file: cache the post-edit viewport,
    /// capture the pre-edit content when needed, and emit the chained
    /// `sed && cat -n | sed -n` pair; the pending burst is then cleared.
    #[verifier::rlimit(100)]
    fn emit_edit_for_entry(
        &mut self,
        target_file: &str,
        idx: usize,
        sed_cmd: String,
        before_snapshot: &str,
        after_state: &str,
        center: usize,
    )
        requires
            old(self).wf(),
            idx < old(self).spec_files().len(),
            old(self).spec_files()[idx as int].path@ == target_file@,
        ensures
            final(self).wf(),
            log_extends(old(self).spec_log(), final(self).spec_log()),
            final(self).spec_pending_before(target_file@) is None,
            final(self).spec_files().len() == old(self).spec_files().len(),
            forall|i: int|
                0 <= i < old(self).spec_files().len() ==> {
                    let e0 = #[trigger] old(self).spec_files()[i];
                    let e1 = final(self).spec_files()[i];
                    e1.path == e0.path && e1.content == e0.content && (e0.path@ != target_file@
                        ==> e1.pending_before == e0.pending_before && e1.pending_region
                        == e0.pending_region && e1.viewport == e0.viewport)
                },
            final(self).spec_log().len() >= old(self).spec_log().len() + 2,
            ({
                let total = spec_split_total(after_state@);
                let radius = old(self).spec_config().viewport_radius as nat;
                let vs = spec_vp_start(total, center as nat, radius);
                let ve = spec_vp_end(total, center as nat, radius);
                let tok = old(self).spec_tokenizer();
                let cfg = old(self).spec_config();
                let was = captured_of(old(self).spec_files(), target_file@);
                &&& (match viewport_of(final(self).spec_files(), target_file@) {
                    Some(v) => v.start == vs && v.end == ve,
                    None => false,
                })
                &&& final(self).spec_log().len() == old(self).spec_log().len() + (if was {
                    2int
                } else {
                    4int
                })
                &&& entry_matches(
                    tok,
                    cfg,
                    final(self).spec_log()[final(self).spec_log().len() - 2],
                    EmissionKind::ViewCmd,
                    assistant_marker(),
                    spec_bash_block(
                        sed_cmd@ + seq![' ', '&', '&', ' '] + spec_view_cmd(
                            target_file@,
                            vs as nat,
                            ve as nat,
                        ),
                    ),
                )
                &&& entry_matches(
                    tok,
                    cfg,
                    final(self).spec_log().last(),
                    EmissionKind::Stdout,
                    user_marker(),
                    spec_stdout_msg(
                        crate::textspec::spec_line_numbered(
                            after_state@,
                            Some(vs as nat),
                            Some(ve as nat),
                        ),
                    ),
                )
                &&& (!was ==> capture_pair_at(
                    tok,
                    cfg,
                    final(self).spec_log(),
                    old(self).spec_log().len() as int,
                    target_file@,
                    before_snapshot@,
                ))
            }),
            final(self).spec_buffer() == old(self).spec_buffer(),
            final(self).spec_config() == old(self).spec_config(),
            final(self).spec_tokenizer() == old(self).spec_tokenizer(),
            finalized_frame(old(self).spec_finalized(), final(self).spec_finalized()),
    {
        let na = after_state.unicode_len();
        let after_nls = crate::helpers::count_char_prefix(after_state, na, '\n');
        let total_lines = if after_nls < usize::MAX {
            after_nls + 1
        } else {
            after_nls
        };
        proof {
            assert(after_state@.take(na as int) =~= after_state@);
            assert(total_lines == spec_split_total(after_state@));
        }
        let vp = crate::helpers::serialize_compute_viewport(
            total_lines,
            center,
            self.config.viewport_radius,
        );
        self.set_viewport_at(idx, vp);
        let ghost fs1 = self.spec_files();
        let ghost was = captured_of(old(self).spec_files(), target_file@);

        let ghost log_precap = self.spec_log();
        proof {
            lemma_sorted_find_self(self.spec_files(), idx as int);
            lemma_sorted_find_self(old(self).spec_files(), idx as int);
            assert(captured_of(self.spec_files(), target_file@) == was);
        }
        self.maybe_capture_file_contents(target_file, before_snapshot);
        let ghost fs2 = self.spec_files();
        let ghost log_postcap = self.spec_log();

        let mut chained = sed_cmd;
        chained.append(" && ");
        proof {
            reveal_strlit(" && ");
            assert(" && "@ =~= seq![' ', '&', '&', ' ']);
        }
        let view = build_view_cmd(target_file, vp.start, vp.end);
        chained.append(view.as_str());
        let cmd_block = build_bash_block(chained.as_str());
        let viewport_output = crate::helpers::line_numbered_output(
            after_state,
            Some(vp.start),
            Some(vp.end),
        );
        let user_value = build_stdout_value(viewport_output.as_str());
        self.emit_view_pair(cmd_block, user_value);
        let ghost fs3 = self.spec_files();
        proof {
            assert(self.spec_log().take(log_postcap.len() as int) =~= log_postcap);
            if !was {
                assert(self.spec_log()[log_precap.len() as int] == log_postcap[log_precap.len(
                ) as int]);
                assert(self.spec_log()[log_precap.len() as int + 1] == log_postcap[log_precap.len() as int + 1]);
            }
        }

        let idx2_opt = self.find_file_index(target_file);
        proof {
            lemma_find_entry(self.files@, target_file@);
            lemma_sorted_find_self(self.files@, idx as int);
        }
        match idx2_opt {
            Some(i2) => {
                self.clear_pending_at(i2);
            },
            None => {
                proof {
                    lemma_sorted_find_self(self.spec_files(), idx as int);
                    assert(false);
                }
            },
        }
        proof {
            lemma_sorted_find_self(old(self).spec_files(), idx as int);
            lemma_sorted_find_self(self.spec_files(), idx as int);
            assert(log_precap.take(old(self).spec_log().len() as int) =~= old(self).spec_log());
            lemma_log_extends_trans(old(self).spec_log(), log_precap, log_postcap);
            lemma_log_extends_trans(old(self).spec_log(), log_postcap, self.spec_log());
            assert(entry_matches(
                old(self).spec_tokenizer(),
                old(self).spec_config(),
                self.spec_log()[self.spec_log().len() - 2],
                EmissionKind::ViewCmd,
                assistant_marker(),
                spec_bash_block(
                    sed_cmd@ + seq![' ', '&', '&', ' '] + spec_view_cmd(
                        target_file@,
                        vp.start as nat,
                        vp.end as nat,
                    ),
                ),
            ));
            let fs0 = old(self).spec_files();
            let fs4 = self.spec_files();
            assert forall|i: int|
                0 <= i < fs0.len() implies {
                let e0 = #[trigger] fs0[i];
                let e1 = fs4[i];
                e1.path == e0.path && e1.content == e0.content && (e0.path@ != target_file@
                    ==> e1.pending_before == e0.pending_before && e1.pending_region
                    == e0.pending_region && e1.viewport == e0.viewport)
            } by {
                let a = fs1[i];
                let b = fs2[i];
                let c = fs3[i];
                if i != idx {
                    assert(fs1[i] == fs0[i]);
                    if fs0[i].path@ == target_file@ {
                        crate::textspec::lemma_lex_trichotomy(
                            fs0[i].path@,
                            fs0[idx as int].path@,
                        );
                        assert(false);
                    }
                }
            }
        }
    }

    /// Flush the pending edits of every file, in path order.
    #[verifier::rlimit(50)]
    pub fn flush_all_pending_edits(&mut self)
        requires
            old(self).wf(),
        ensures
            final(self).wf(),
            log_extends(old(self).spec_log(), final(self).spec_log()),
            final(self).spec_files().len() == old(self).spec_files().len(),
            forall|i: int|
                0 <= i < final(self).spec_files().len() ==> (#[trigger] final(self).spec_files()[i]).pending_before is None,
            forall|i: int|
                0 <= i < old(self).spec_files().len() ==> {
                    let e0 = #[trigger] old(self).spec_files()[i];
                    let e1 = final(self).spec_files()[i];
                    e1.path == e0.path && e1.content == e0.content
                },
            (forall|i: int|
                0 <= i < old(self).spec_files().len() ==> (#[trigger] old(self).spec_files()[i]).pending_before is None) ==> final(self).spec_log() == old(self).spec_log()
                && final(self).spec_files() == old(self).spec_files() && final(self).spec_messages() == old(self).spec_messages() && final(self).spec_finalized() == old(self).spec_finalized() && final(self).spec_tokens() == old(self).spec_tokens(),
            pending_flushes_emitted(
                old(self).spec_tokenizer(),
                old(self).spec_config(),
                old(self).spec_files(),
                old(self).spec_log(),
                final(self).spec_log(),
            ),
            final(self).spec_buffer() == old(self).spec_buffer(),
            final(self).spec_config() == old(self).spec_config(),
            final(self).spec_tokenizer() == old(self).spec_tokenizer(),
            finalized_frame(old(self).spec_finalized(), final(self).spec_finalized()),
    {
        let ghost quiet = forall|i: int|
            0 <= i < old(self).spec_files().len() ==> (#[trigger] old(self).spec_files()[i]).pending_before is None;
        let mut k: usize = 0;
        proof {
            assert(self.spec_log().take(self.spec_log().len() as int) =~= self.spec_log());
            assert(old(self).spec_files().take(0) =~= Seq::<FileEntry>::empty());
        }
        while k < self.files.len()
            invariant
                self.wf(),
                log_extends(old(self).spec_log(), self.spec_log()),
                self.spec_files().len() == old(self).spec_files().len(),
                k <= self.files@.len(),
                quiet == (forall|i: int|
                    0 <= i < old(self).spec_files().len() ==> (#[trigger] old(self).spec_files()[i]).pending_before is None),
                quiet ==> self.spec_log() == old(self).spec_log() && self.spec_files() == old(self).spec_files() && self.spec_messages() == old(self).spec_messages() && self.spec_finalized() == old(self).spec_finalized() && self.spec_tokens() == old(self).spec_tokens(),
                quiet ==> forall|i: int|
                    0 <= i < self.spec_files().len() ==> (#[trigger] self.spec_files()[i]).pending_before is None,
                forall|i: int|
                    0 <= i < old(self).spec_files().len() ==> {
                        let e0 = #[trigger] old(self).spec_files()[i];
                        let e1 = self.spec_files()[i];
                        e1.path == e0.path && e1.content == e0.content
                    },
                forall|i: int|
                    0 <= i < k && i < self.spec_files().len() ==> (#[trigger] self.spec_files()[i]).pending_before is None,
                forall|i: int|
                    k <= i < self.spec_files().len() ==> (#[trigger] self.spec_files()[i]).pending_before == old(self).spec_files()[i].pending_before
                        && self.spec_files()[i].pending_region == old(self).spec_files()[i].pending_region,
                pending_flushes_emitted(
                    old(self).spec_tokenizer(),
                    old(self).spec_config(),
                    old(self).spec_files().take(k as int),
                    old(self).spec_log(),
                    self.spec_log(),
                ),
                self.spec_buffer() == old(self).spec_buffer(),
                self.spec_config() == old(self).spec_config(),
                self.spec_tokenizer() == old(self).spec_tokenizer(),
                finalized_frame(old(self).spec_finalized(), self.spec_finalized()),
            decreases self.files@.len() - k,
        {
            let path = self.files[k].path.clone();
            proof {
                assert(k < self.files@.len());
            }
            let ghost files_pre = self.spec_files();
            proof {
                lemma_sorted_find_self(files_pre, k as int);
                lemma_find_entry(files_pre, path@);
            }
            let ghost log_pre = self.spec_log();
            proof {
                if quiet {
                    assert(pending_before_of(files_pre, path@) is None);
                }
                assert(files_pre[k as int].pending_before == old(self).spec_files()[k as int].pending_before);
            }
            self.flush_pending_edit_for_file(path.as_str());
            proof {
                lemma_log_extends_trans(old(self).spec_log(), log_pre, self.spec_log());
                lemma_flushes_persist(
                    old(self).spec_tokenizer(),
                    old(self).spec_config(),
                    old(self).spec_files().take(k as int),
                    old(self).spec_log(),
                    log_pre,
                    self.spec_log(),
                );
                let e_old = old(self).spec_files()[k as int];
                if burst_emits(e_old) {
                    let base = self.spec_log().len() - 2;
                    assert(content_of(files_pre, path@) == files_pre[k as int].content@);
                    assert(files_pre[k as int].content == e_old.content);
                    assert(edit_pair_at(
                        old(self).spec_tokenizer(),
                        old(self).spec_config(),
                        self.spec_log(),
                        base,
                        e_old.path@,
                        e_old.pending_before->0@,
                        e_old.content@,
                    ));
                    assert(old(self).spec_log().len() <= base && base + 2
                        <= self.spec_log().len());
                }
                assert forall|i: int|
                    k + 1 <= i < self.spec_files().len() implies (#[trigger] self.spec_files()[i]).pending_before
                    == old(self).spec_files()[i].pending_before && self.spec_files()[i].pending_region
                    == old(self).spec_files()[i].pending_region by {
                    crate::textspec::lemma_lex_trichotomy(files_pre[i].path@, path@);
                    assert(files_pre[i].path@ != path@);
                    assert(self.spec_files()[i].pending_before == files_pre[i].pending_before);
                    assert(self.spec_files()[i].pending_region == files_pre[i].pending_region);
                }
                assert forall|i: int|
                    0 <= i < old(self).spec_files().take(k as int + 1).len() && burst_emits(
                    #[trigger] old(self).spec_files().take(k as int + 1)[i],
                ) implies (exists|base: int|
                    #![trigger edit_pair_at(
                        old(self).spec_tokenizer(),
                        old(self).spec_config(),
                        self.spec_log(),
                        base,
                        old(self).spec_files().take(k as int + 1)[i].path@,
                        old(self).spec_files().take(k as int + 1)[i].pending_before->0@,
                        old(self).spec_files().take(k as int + 1)[i].content@,
                    )]
                    old(self).spec_log().len() <= base && base + 2 <= self.spec_log().len()
                        && edit_pair_at(
                        old(self).spec_tokenizer(),
                        old(self).spec_config(),
                        self.spec_log(),
                        base,
                        old(self).spec_files().take(k as int + 1)[i].path@,
                        old(self).spec_files().take(k as int + 1)[i].pending_before->0@,
                        old(self).spec_files().take(k as int + 1)[i].content@,
                    )) by {
                    assert(old(self).spec_files().take(k as int + 1)[i] == old(self).spec_files()[i]);
                    if i < k {
                        assert(old(self).spec_files().take(k as int)[i] == old(self).spec_files()[i]);
                        assert(burst_emits(old(self).spec_files().take(k as int)[i]));
                    }
                }
                lemma_sorted_find_self(self.spec_files(), k as int);
                lemma_find_entry(self.spec_files(), path@);
                if quiet {
                    assert forall|i: int|
                        0 <= i < self.spec_files().len() implies (#[trigger] self.spec_files()[i]).pending_before is None by {
                        if files_pre[i].path@ == path@ {
                            lemma_sorted_find_self(self.spec_files(), i);
                        } else {
                            assert(self.spec_files()[i].pending_before == files_pre[i].pending_before);
                        }
                    }
                }
                assert forall|i: int|
                    0 <= i < k + 1 && i < self.spec_files().len() implies (
                #[trigger] self.spec_files()[i]).pending_before is None by {
                    if i < k && files_pre[i].path@ != path@ {
                        assert(self.spec_files()[i].pending_before
                            == files_pre[i].pending_before);
                    } else if i < k {
                        // paths are strictly sorted, so no earlier entry can
                        // carry the flushed path
                        crate::textspec::lemma_lex_trichotomy(files_pre[i].path@, path@);
                        assert(false);
                    }
                }
            }
            k = k + 1;
        }
        proof {
            assert(k == old(self).spec_files().len());
            assert(old(self).spec_files().take(k as int) =~= old(self).spec_files());
        }
    }

    /// Replace the edit-burst state of one entry: new content, pending
    /// snapshot and pending region.
    fn set_edit_state_at(
        &mut self,
        idx: usize,
        content: String,
        pending_before: Option<String>,
        pending_region: Option<EditRegion>,
    )
        requires
            old(self).wf(),
            idx < old(self).spec_files().len(),
            pending_before is Some <==> pending_region is Some,
        ensures
            final(self).wf(),
            final(self).spec_files().len() == old(self).spec_files().len(),
            forall|i: int|
                0 <= i < old(self).spec_files().len() && i != idx ==> final(self).spec_files()[i]
                    == #[trigger] old(self).spec_files()[i],
            ({
                let e0 = old(self).spec_files()[idx as int];
                let e1 = final(self).spec_files()[idx as int];
                e1.path == e0.path && e1.content == content && e1.viewport == e0.viewport
                    && e1.captured == e0.captured && e1.pending_before == pending_before
                    && e1.pending_region == pending_region
            }),
            final(self).spec_log() == old(self).spec_log(),
            final(self).spec_messages() == old(self).spec_messages(),
            final(self).spec_buffer() == old(self).spec_buffer(),
            final(self).spec_finalized() == old(self).spec_finalized(),
            final(self).spec_config() == old(self).spec_config(),
            final(self).spec_tokenizer() == old(self).spec_tokenizer(),
    {
        let ghost files0 = self.files@;
        let mut entry = self.files.remove(idx);
        entry.content = content;
        entry.pending_before = pending_before;
        entry.pending_region = pending_region;
        self.files.insert(idx, entry);
        proof {
            assert(self.files@ =~= files0.update(idx as int, entry));
        }
    }

    /// Mark one entry as captured in the open chunk.
    fn set_captured_at(&mut self, idx: usize)
        requires
            old(self).wf(),
            idx < old(self).spec_files().len(),
        ensures
            final(self).wf(),
            final(self).spec_files().len() == old(self).spec_files().len(),
            forall|i: int|
                0 <= i < old(self).spec_files().len() && i != idx ==> final(self).spec_files()[i]
                    == #[trigger] old(self).spec_files()[i],
            ({
                let e0 = old(self).spec_files()[idx as int];
                let e1 = final(self).spec_files()[idx as int];
                e1.path == e0.path && e1.content == e0.content && e1.viewport == e0.viewport
                    && e1.captured == true && e1.pending_before == e0.pending_before
                    && e1.pending_region == e0.pending_region
            }),
            final(self).spec_log() == old(self).spec_log(),
            final(self).spec_messages() == old(self).spec_messages(),
            final(self).spec_buffer() == old(self).spec_buffer(),
            final(self).spec_finalized() == old(self).spec_finalized(),
            final(self).spec_config() == old(self).spec_config(),
            final(self).spec_tokenizer() == old(self).spec_tokenizer(),
    {
        let ghost files0 = self.files@;
        let mut entry = self.files.remove(idx);
        entry.captured = true;
        self.files.insert(idx, entry);
        proof {
            assert(self.files@ =~= files0.update(idx as int, entry));
        }
    }

    /// Handle a tab (file switch) event. With a content snapshot, the file's
    /// tracked content is replaced by the unescaped text and the full
    /// `cat -n` pair is emitted; without one, the cached (or a fresh)
    /// viewport of the current content is shown instead.
    #[verifier::rlimit(100)]
    pub fn handle_tab_event(&mut self, file_path: &str, text_content: Option<&str>)
        requires
            old(self).wf(),
        ensures
            final(self).wf(),
            log_extends(old(self).spec_log(), final(self).spec_log()),
            final(self).spec_buffer().len() == 0,
            text_content is Some ==> final(self).spec_file_content(file_path@)
                == crate::textspec::spec_unescape(text_content->0@),
            text_content is Some ==> captured_of(final(self).spec_files(), file_path@),
            text_content is None ==> final(self).spec_file_content(file_path@) == old(self).spec_file_content(file_path@),
            forall|i: int|
                0 <= i < final(self).spec_files().len() ==> (#[trigger] final(self).spec_files()[i]).pending_before is None,
            forall|i: int|
                0 <= i < old(self).spec_files().len() && (#[trigger] old(self).spec_files()[i]).path@ != file_path@ ==> (exists|j: int|
                    0 <= j < final(self).spec_files().len() && (#[trigger] final(self).spec_files()[j]).path == old(self).spec_files()[i].path && final(self).spec_files()[j].content
                        == old(self).spec_files()[i].content),
            old(self).quiescent() && text_content is Some ==> final(self).spec_log().len()
                == old(self).spec_log().len() + 2,
            pending_flushes_emitted(
                old(self).spec_tokenizer(),
                old(self).spec_config(),
                old(self).spec_files(),
                old(self).spec_log(),
                final(self).spec_log(),
            ),
            buffer_flush_emitted(
                old(self).spec_tokenizer(),
                old(self).spec_config(),
                old(self).spec_buffer(),
                old(self).spec_log(),
                final(self).spec_log(),
            ),

            old(self).quiescent() && text_content is None ==> ({
                let tok = old(self).spec_tokenizer();
                let cfg = old(self).spec_config();
                let log0 = old(self).spec_log();
                let content = old(self).spec_file_content(file_path@);
                let total = spec_view_total(content);
                let cached = viewport_of(old(self).spec_files(), file_path@);
                let keep = match cached {
                    Some(v) => v.end > 0,
                    None => false,
                };
                let vs: int = match cached {
                    Some(v) => if v.end > 0 {
                        v.start as int
                    } else {
                        spec_vp_start(total, 1, cfg.viewport_radius as nat)
                    },
                    None => spec_vp_start(total, 1, cfg.viewport_radius as nat),
                };
                let ve: int = match cached {
                    Some(v) => if v.end > 0 {
                        v.end as int
                    } else {
                        spec_vp_end(total, 1, cfg.viewport_radius as nat)
                    },
                    None => spec_vp_end(total, 1, cfg.viewport_radius as nat),
                };
                &&& (match viewport_of(final(self).spec_files(), file_path@) {
                    Some(v) => v.start == vs && v.end == ve,
                    None => false,
                })
                &&& (ve < vs ==> final(self).spec_log() == log0)
                &&& (ve >= vs && captured_of(old(self).spec_files(), file_path@) ==> final(self).spec_log().len() == log0.len() + 2 && view_pair_at(
                    tok,
                    cfg,
                    final(self).spec_log(),
                    log0.len() as int,
                    file_path@,
                    content,
                    vs as nat,
                    ve as nat,
                ))
                &&& (ve >= vs && !captured_of(old(self).spec_files(), file_path@) ==> final(self).spec_log().len() == log0.len() + 4 && capture_pair_at(
                    tok,
                    cfg,
                    final(self).spec_log(),
                    log0.len() as int,
                    file_path@,
                    content,
                ) && view_pair_at(
                    tok,
                    cfg,
                    final(self).spec_log(),
                    log0.len() as int + 2,
                    file_path@,
                    content,
                    vs as nat,
                    ve as nat,
                ))
            }),
            text_content is Some ==> final(self).spec_log().len() >= 2 && entry_matches(
                old(self).spec_tokenizer(),
                old(self).spec_config(),
                final(self).spec_log()[final(self).spec_log().len() - 2],
                EmissionKind::ViewCmd,
                assistant_marker(),
                spec_bash_block(spec_cat_cmd(file_path@)),
            ) && entry_matches(
                old(self).spec_tokenizer(),
                old(self).spec_config(),
                final(self).spec_log().last(),
                EmissionKind::Stdout,
                user_marker(),
                spec_stdout_msg(
                    crate::textspec::spec_line_numbered(
                        crate::textspec::spec_unescape(text_content->0@),
                        None,
                        None,
                    ),
                ),
            ),
            final(self).spec_config() == old(self).spec_config(),
            final(self).spec_tokenizer() == old(self).spec_tokenizer(),
            finalized_frame(old(self).spec_finalized(), final(self).spec_finalized()),
    {
        self.flush_all_pending_edits();
        let ghost la = self.spec_log();
        self.flush_terminal_output_buffer();
        let ghost lb = self.spec_log();
        let ghost fs_pf = self.spec_files();
        proof {
            lemma_log_extends_trans(old(self).spec_log(), la, lb);
        }

        match text_content {
            Some(text) => {
                let content = crate::helpers::unescape(text);
                let ghost was_found = find_entry(fs_pf, file_path@) is Some;
                let idx = self.ensure_file(file_path);
                let ghost fs_b = self.spec_files();
                self.set_edit_state_at(idx, content.clone(), None, None);
                let ghost fs_c = self.spec_files();
                proof {
                    lemma_sorted_find_self(self.spec_files(), idx as int);
                }
                let cmd = build_cat_cmd(file_path);
                let cmd_block = build_bash_block(cmd.as_str());
                let output = crate::helpers::line_numbered_output(content.as_str(), None, None);
                let user_value = build_stdout_value(output.as_str());
                self.emit_view_pair(cmd_block, user_value);
                let ghost ld = self.spec_log();
                let ghost fs_d = self.spec_files();
                let idx2_opt = self.find_file_index(file_path);
                proof {
                    lemma_find_entry(self.files@, file_path@);
                    lemma_sorted_find_self(self.files@, idx as int);
                }
                match idx2_opt {
                    Some(i2) => {
                        self.set_captured_at(i2);
                    },
                    None => {
                        proof {
                            assert(false);
                        }
                    },
                }
                proof {
                    lemma_log_extends_trans(old(self).spec_log(), lb, ld);
                    lemma_sorted_find_self(self.spec_files(), idx as int);
                    let fs_f = self.spec_files();
                    let fs_old = old(self).spec_files();
                    assert forall|i: int|
                        0 <= i < fs_f.len() implies (#[trigger] fs_f[i]).pending_before
                        is None by {
                        if i != idx {
                            assert(fs_f[i].pending_before == fs_d[i].pending_before);
                            assert(fs_d[i].pending_before == fs_c[i].pending_before);
                            assert(fs_c[i] == fs_b[i]);
                            if was_found {
                                assert(fs_b == fs_pf);
                            } else {
                                assert(idx <= fs_pf.len());
                                assert(fs_b == fs_pf.insert(idx as int, fs_b[idx as int]));
                                fs_pf.insert_ensures(idx as int, fs_b[idx as int]);
                            }
                        }
                    }
                    assert forall|i: int|
                        0 <= i < fs_old.len() && (#[trigger] fs_old[i]).path@ != file_path@
                        implies (exists|j: int|
                        0 <= j < fs_f.len() && (#[trigger] fs_f[j]).path == fs_old[i].path
                            && fs_f[j].content == fs_old[i].content) by {
                        let j: int = if was_found || i < idx {
                            i
                        } else {
                            i + 1
                        };
                        assert(fs_pf[i].path == fs_old[i].path && fs_pf[i].content == fs_old[i].content);
                        if was_found {
                            assert(fs_b == fs_pf);
                        } else {
                            assert(idx <= fs_pf.len());
                            assert(fs_b == fs_pf.insert(idx as int, fs_b[idx as int]));
                            fs_pf.insert_ensures(idx as int, fs_b[idx as int]);
                            assert(fs_b[j] == fs_pf[i]);
                        }
                        if j == idx {
                            assert(fs_f[idx as int].path@ == file_path@);
                            assert(fs_b[j].path@ != file_path@);
                            assert(false);
                        }
                        assert(fs_c[j] == fs_b[j]);
                        assert(fs_d[j].path == fs_c[j].path && fs_d[j].content == fs_c[j].content);
                        assert(fs_f[j].path == fs_d[j].path && fs_f[j].content == fs_d[j].content);
                    }
                    lemma_flushes_persist(
                        old(self).spec_tokenizer(),
                        old(self).spec_config(),
                        old(self).spec_files(),
                        old(self).spec_log(),
                        la,
                        lb,
                    );
                    lemma_buffer_flush_weaken(
                        old(self).spec_tokenizer(),
                        old(self).spec_config(),
                        old(self).spec_buffer(),
                        la,
                        old(self).spec_log(),
                        lb,
                    );
                    lemma_flushes_persist(
                        old(self).spec_tokenizer(),
                        old(self).spec_config(),
                        old(self).spec_files(),
                        old(self).spec_log(),
                        lb,
                        self.spec_log(),
                    );
                    lemma_buffer_flush_persists(
                        old(self).spec_tokenizer(),
                        old(self).spec_config(),
                        old(self).spec_buffer(),
                        old(self).spec_log(),
                        lb,
                        self.spec_log(),
                    );
                }
            },
            None => {
                let ghost fs_b = self.spec_files();
                let ghost was_found = find_entry(fs_b, file_path@) is Some;
                let idx = self.ensure_file(file_path);
                let ghost fs_c = self.spec_files();
                proof {
                    lemma_sorted_find_self(self.spec_files(), idx as int);
                    lemma_find_entry(fs_b, file_path@);
                    lemma_find_entry(old(self).spec_files(), file_path@);
                }
                let content = self.files[idx].content.clone();
                proof {
                    assert(fs_b == fs_pf);
                    assert(fs_pf.len() == old(self).spec_files().len());
                    assert forall|i: int| 0 <= i < fs_pf.len() implies (#[trigger] fs_pf[i]).path@
                        == old(self).spec_files()[i].path@ by {
                        assert(fs_pf[i].path == old(self).spec_files()[i].path);
                    }
                    lemma_find_entry_same_paths(old(self).spec_files(), fs_pf, file_path@);
                    match find_entry(fs_pf, file_path@) {
                        Some(i0) => {
                            assert(self.spec_files() == fs_pf);
                            assert(fs_pf[i0].content == old(self).spec_files()[i0].content);
                        },
                        None => {
                        },
                    }
                    assert(content@ == old(self).spec_file_content(file_path@));
                }
                let n0 = content.as_str().unicode_len();
                let total: usize = if n0 == 0 {
                    0
                } else {
                    let nls = crate::helpers::count_char_prefix(content.as_str(), n0, '\n');
                    if nls < usize::MAX {
                        nls + 1
                    } else {
                        nls
                    }
                };
                proof {
                    assert(content@.take(n0 as int) =~= content@);
                    assert(total == spec_view_total(content@));
                }
                let cached = self.files[idx].viewport;
                proof {
                    if old(self).quiescent() {
                        match find_entry(old(self).spec_files(), file_path@) {
                            Some(i0) => {
                                assert(cached == viewport_of(
                                    old(self).spec_files(),
                                    file_path@,
                                ));
                            },
                            None => {
                                assert(cached is None);
                                assert(viewport_of(old(self).spec_files(), file_path@)
                                    is None);
                            },
                        }
                    }
                }
                let vp: Viewport = match cached {
                    Some(v) => {
                        if v.end > 0 {
                            v
                        } else {
                            let nv = crate::helpers::serialize_compute_viewport(
                                total,
                                1,
                                self.config.viewport_radius,
                            );
                            self.set_viewport_at(idx, nv);
                            nv
                        }
                    },
                    None => {
                        let nv = crate::helpers::serialize_compute_viewport(
                            total,
                            1,
                            self.config.viewport_radius,
                        );
                        self.set_viewport_at(idx, nv);
                        nv
                    },
                };
                let ghost fs_v = self.spec_files();
                proof {
                    lemma_sorted_find_self(self.spec_files(), idx as int);
                    assert forall|i: int|
                        0 <= i < fs_v.len() implies (#[trigger] fs_v[i]).path == fs_c[i].path
                        && fs_v[i].content == fs_c[i].content && fs_v[i].pending_before == fs_c[i].pending_before by {
                    }
                }
                if vp.end >= vp.start {
                    let ghost was_captured = captured_of(self.spec_files(), file_path@);
                    proof {
                        lemma_sorted_find_self(self.spec_files(), idx as int);
                    }
                    self.maybe_capture_file_contents(file_path, content.as_str());
                    let ghost lc = self.spec_log();
                    let cmd = build_view_cmd(file_path, vp.start, vp.end);
                    let cmd_block = build_bash_block(cmd.as_str());
                    let viewport_output = crate::helpers::line_numbered_output(
                        content.as_str(),
                        Some(vp.start),
                        Some(vp.end),
                    );
                    let user_value = build_stdout_value(viewport_output.as_str());
                    self.emit_view_pair(cmd_block, user_value);
                    proof {
                        lemma_log_extends_trans(old(self).spec_log(), lb, lc);
                        lemma_log_extends_trans(old(self).spec_log(), lc, self.spec_log());
                        lemma_log_extends_trans(lb, lc, self.spec_log());
                        assert(self.spec_log().take(lc.len() as int) =~= lc);
                        if !was_captured {
                            assert(self.spec_log()[lc.len() - 2] == lc[lc.len() - 2]);
                            assert(self.spec_log()[lc.len() - 1] == lc[lc.len() - 1]);
                        }
                    }
                } else {
                    proof {
                        assert(self.spec_log().take(lb.len() as int) =~= lb);
                        assert(log_extends(lb, self.spec_log()));
                    }
                }
                proof {
                    lemma_sorted_find_self(self.spec_files(), idx as int);
                    assert(log_extends(lb, self.spec_log()));
                    let fs_f = self.spec_files();
                    let fs_old = old(self).spec_files();
                    assert forall|i: int|
                        0 <= i < fs_f.len() implies (#[trigger] fs_f[i]).path == fs_v[i].path
                        && fs_f[i].content == fs_v[i].content && fs_f[i].pending_before == fs_v[i].pending_before by {
                    }
                    assert(fs_f[idx as int].content@ == content@);
                    assert(content_of(fs_f, file_path@) == content@);
                    assert forall|i: int|
                        0 <= i < fs_f.len() implies (#[trigger] fs_f[i]).pending_before
                        is None by {
                        if was_found {
                            assert(fs_c == fs_b);
                        } else {
                            assert(idx <= fs_b.len());
                            assert(fs_c == fs_b.insert(idx as int, fs_c[idx as int]));
                            fs_b.insert_ensures(idx as int, fs_c[idx as int]);
                        }
                    }
                    assert forall|i: int|
                        0 <= i < fs_old.len() && (#[trigger] fs_old[i]).path@ != file_path@
                        implies (exists|j: int|
                        0 <= j < fs_f.len() && (#[trigger] fs_f[j]).path == fs_old[i].path
                            && fs_f[j].content == fs_old[i].content) by {
                        let j: int = if was_found || i < idx {
                            i
                        } else {
                            i + 1
                        };
                        assert(fs_b[i].path == fs_old[i].path && fs_b[i].content == fs_old[i].content);
                        if was_found {
                            assert(fs_c == fs_b);
                        } else {
                            assert(idx <= fs_b.len());
                            assert(fs_c == fs_b.insert(idx as int, fs_c[idx as int]));
                            fs_b.insert_ensures(idx as int, fs_c[idx as int]);
                            assert(fs_c[j] == fs_b[i]);
                        }
                        assert(fs_f[j].path == fs_c[j].path && fs_f[j].content == fs_c[j].content);
                    }
                    lemma_flushes_persist(
                        old(self).spec_tokenizer(),
                        old(self).spec_config(),
                        old(self).spec_files(),
                        old(self).spec_log(),
                        la,
                        lb,
                    );
                    lemma_buffer_flush_weaken(
                        old(self).spec_tokenizer(),
                        old(self).spec_config(),
                        old(self).spec_buffer(),
                        la,
                        old(self).spec_log(),
                        lb,
                    );
                    lemma_flushes_persist(
                        old(self).spec_tokenizer(),
                        old(self).spec_config(),
                        old(self).spec_files(),
                        old(self).spec_log(),
                        lb,
                        self.spec_log(),
                    );
                    lemma_buffer_flush_persists(
                        old(self).spec_tokenizer(),
                        old(self).spec_config(),
                        old(self).spec_buffer(),
                        old(self).spec_log(),
                        lb,
                        self.spec_log(),
                    );
                }
            },
        }
    }

    /// Handle a content change event: the edit is applied to the tracked
    /// content and folded into the file's pending burst; an edit far outside
    /// the pending region flushes the burst first. Buffered terminal output
    /// is flushed, pending edits are not.
    #[verifier::rlimit(100)]
    pub fn handle_content_event(
        &mut self,
        file_path: &str,
        offset: usize,
        length: usize,
        new_text: &str,
    )
        requires
            old(self).wf(),
        ensures
            final(self).wf(),
            log_extends(old(self).spec_log(), final(self).spec_log()),
            final(self).spec_buffer().len() == 0,
            final(self).spec_file_content(file_path@) == crate::textspec::spec_apply_change(
                old(self).spec_file_content(file_path@),
                offset as nat,
                length as nat,
                new_text@,
            ),
            final(self).spec_pending_before(file_path@) is Some,
            ({
                let content0 = old(self).spec_file_content(file_path@);
                let rstart = spec_line_at(content0, offset as nat);
                let region0 = pending_region_of(old(self).spec_files(), file_path@);
                let inr = spec_in_radius(
                    region0,
                    rstart,
                    old(self).spec_config().coalesce_radius as nat,
                );
                let pb0 = pending_before_of(old(self).spec_files(), file_path@);
                &&& (inr ==> final(self).spec_pending_before(file_path@) == (match pb0 {
                    Some(b) => Some(b),
                    None => Some(content0),
                }))
                &&& (!inr ==> final(self).spec_pending_before(file_path@) == Some(content0))
                &&& (inr && old(self).spec_buffer().len() == 0 ==> final(self).spec_log() == old(self).spec_log())
                &&& ({
                    let rend = spec_region_end(content0, offset as nat, length as nat, new_text@);
                    match pending_region_of(final(self).spec_files(), file_path@) {
                        Some(r2) => {
                            if inr && region0 is Some {
                                let r = region0->0;
                                r2.start == (if r.start < rstart { r.start as int } else { rstart as int })
                                    && r2.end == (if r.end > rend { r.end as int } else { rend as int })
                            } else {
                                r2.start == rstart && r2.end == (if rend > rstart { rend as int } else { rstart as int })
                            }
                        },
                        None => false,
                    }
                })
            }),
            forall|i: int|
                0 <= i < old(self).spec_files().len() && (#[trigger] old(self).spec_files()[i]).path@ != file_path@ ==> (exists|j: int|
                    0 <= j < final(self).spec_files().len() && (#[trigger] final(self).spec_files()[j]).path == old(self).spec_files()[i].path && final(self).spec_files()[j].content == old(self).spec_files()[i].content),
            final(self).spec_config() == old(self).spec_config(),
            final(self).spec_tokenizer() == old(self).spec_tokenizer(),
            finalized_frame(old(self).spec_finalized(), final(self).spec_finalized()),
    {
        self.flush_terminal_output_buffer();
        let ghost fs_a = self.spec_files();
        let ghost la = self.spec_log();
        let idx = self.ensure_file(file_path);
        let ghost fs_b = self.spec_files();
        let ghost was_found = find_entry(fs_a, file_path@) is Some;
        proof {
            lemma_sorted_find_self(self.spec_files(), idx as int);
            assert forall|i: int| 0 <= i < fs_a.len() implies (#[trigger] fs_a[i]).path@ == old(self).spec_files()[i].path@ by {
                assert(fs_a[i].path == old(self).spec_files()[i].path);
            }
            lemma_find_entry_same_paths(old(self).spec_files(), fs_a, file_path@);
            lemma_find_entry(old(self).spec_files(), file_path@);
            lemma_find_entry(fs_a, file_path@);
        }
        let before = self.files[idx].content.clone();
        let ghost before_view = before@;
        proof {
            match find_entry(fs_a, file_path@) {
                Some(i0) => {
                    assert(self.spec_files() == fs_a);
                    assert(fs_a[i0].content == old(self).spec_files()[i0].content);
                },
                None => {
                },
            }
            assert(before_view == old(self).spec_file_content(file_path@));
        }

        // Approximate the edited region in 1-based line coordinates.
        let n = before.as_str().unicode_len();
        let safe_offset = if offset < n { offset } else { n };
        let rem = n - safe_offset;
        let safe_end = if length < rem { safe_offset + length } else { n };
        let nls_so = crate::helpers::count_char_prefix(before.as_str(), safe_offset, '\n');
        let start_line_current = if nls_so < usize::MAX { nls_so + 1 } else { nls_so };
        let nt_len = new_text.unicode_len();
        let lines_added = crate::helpers::count_char_prefix(new_text, nt_len, '\n');
        let nls_se = crate::helpers::count_char_prefix(before.as_str(), safe_end, '\n');
        let lines_deleted = if nls_se >= nls_so { nls_se - nls_so } else { 0 };
        let bump = if lines_added > lines_deleted { lines_added } else { lines_deleted };
        let region_start = start_line_current;
        let region_end = region_start.saturating_add(bump);
        proof {
            assert(new_text@.take(nt_len as int) =~= new_text@);
            crate::textspec::lemma_count_mono(before_view, '\n', safe_offset as int, safe_end as int);
            assert(region_start == spec_line_at(before_view, offset as nat));
            assert(region_end == spec_region_end(
                before_view,
                offset as nat,
                length as nat,
                new_text@,
            ));
        }

        // Flush first when this edit lies outside the pending region's
        // coalescing radius.
        let current_region = self.files[idx].pending_region;
        let ghost pb_mid = pending_before_of(self.spec_files(), file_path@);
        proof {
            match find_entry(fs_a, file_path@) {
                Some(i0) => {
                    assert(self.spec_files() == fs_a);
                    assert(fs_a[i0].pending_region == old(self).spec_files()[i0].pending_region);
                    assert(fs_a[i0].pending_before == old(self).spec_files()[i0].pending_before);
                },
                None => {
                },
            }
            assert(current_region == pending_region_of(old(self).spec_files(), file_path@));
            assert(pb_mid == pending_before_of(old(self).spec_files(), file_path@));
        }
        match current_region {
            Some(region) => {
                if region_start < region.start.saturating_sub(self.config.coalesce_radius)
                    || region_start > region.end.saturating_add(self.config.coalesce_radius) {
                    self.flush_pending_edit_for_file(file_path);
                }
            },
            None => {
            },
        }
        let ghost lb = self.spec_log();
        proof {
            assert(la.take(la.len() as int) =~= la);
            lemma_log_extends_trans(old(self).spec_log(), la, lb);
        }

        let after = crate::helpers::apply_change(before.as_str(), offset, length, new_text);

        let idx2_opt = self.find_file_index(file_path);
        proof {
            lemma_find_entry(self.files@, file_path@);
            lemma_sorted_find_self(self.files@, idx as int);
        }
        let idx2 = match idx2_opt {
            Some(i2) => i2,
            None => {
                proof {
                    assert(false);
                }
                0
            },
        };
        let pending_before: Option<String> = match &self.files[idx2].pending_before {
            Some(existing) => Some(existing.clone()),
            None => Some(before.clone()),
        };
        let region2 = self.files[idx2].pending_region;
        proof {
            assert(region2 == pending_region_of(self.spec_files(), file_path@));
        }
        let new_region = match region2 {
            Some(region) => EditRegion {
                start: if region.start < region_start { region.start } else { region_start },
                end: if region.end > region_end { region.end } else { region_end },
            },
            None => EditRegion {
                start: region_start,
                end: if region_end > region_start { region_end } else { region_start },
            },
        };
        self.set_edit_state_at(idx2, after, pending_before, Some(new_region));
        proof {
            lemma_sorted_find_self(self.spec_files(), idx2 as int);
            assert(content_of(self.spec_files(), file_path@) == crate::textspec::spec_apply_change(
                before_view,
                offset as nat,
                length as nat,
                new_text@,
            ));
            let fs_final = self.spec_files();
            let fs_old = old(self).spec_files();
            assert forall|i: int|
                0 <= i < fs_old.len() && (#[trigger] fs_old[i]).path@ != file_path@ implies (
            exists|j: int|
                0 <= j < fs_final.len() && (#[trigger] fs_final[j]).path == fs_old[i].path
                    && fs_final[j].content == fs_old[i].content) by {
                let j: int = if was_found || i < idx {
                    i
                } else {
                    i + 1
                };
                assert(fs_a[i].path == fs_old[i].path && fs_a[i].content == fs_old[i].content);
                if was_found {
                    assert(fs_b == fs_a);
                } else {
                    assert(idx <= fs_a.len());
                    assert(fs_b == fs_a.insert(idx as int, fs_b[idx as int]));
                    fs_a.insert_ensures(idx as int, fs_b[idx as int]);
                    assert(fs_b[j] == fs_a[i]);
                }
                assert(fs_b[j].path == fs_old[i].path && fs_b[j].content == fs_old[i].content);
                if j != idx2 {
                    assert(fs_final[j] == self.spec_files()[j]);
                } else {
                    assert(fs_final[idx2 as int].path@ == file_path@);
                    assert(fs_b[j].path@ != file_path@);
                    assert(false);
                }
                assert(fs_final[j].path == fs_b[j].path && fs_final[j].content
                    == fs_b[j].content);
            }
        }
    }

    /// Handle a selection (cursor move) event. During an edit burst nothing
    /// happens; otherwise, when the cursor leaves the known viewport, a
    /// fresh viewport around the cursor's line is emitted. An empty file
    /// yields an empty viewport and no emission.
    #[verifier::rlimit(100)]
    pub fn handle_selection_event(&mut self, file_path: &str, offset: usize)
        requires
            old(self).wf(),
        ensures
            final(self).wf(),
            log_extends(old(self).spec_log(), final(self).spec_log()),
            final(self).spec_file_content(file_path@) == old(self).spec_file_content(file_path@),
            forall|i: int|
                0 <= i < old(self).spec_files().len() ==> (exists|j: int|
                    0 <= j < final(self).spec_files().len() && (#[trigger] final(self).spec_files()[j]).path == (#[trigger] old(self).spec_files()[i]).path && final(self).spec_files()[j].content
                        == old(self).spec_files()[i].content),
            old(self).spec_pending_before(file_path@) is Some ==> *final(self) == *old(self),
            old(self).spec_pending_before(file_path@) is None && old(self).spec_buffer().len()
                == 0 && old(self).spec_file_content(file_path@).len() == 0 ==> final(self).spec_log() == old(self).spec_log(),
            old(self).spec_pending_before(file_path@) is None && old(self).spec_buffer().len()
                == 0 ==> ({
                let tok = old(self).spec_tokenizer();
                let cfg = old(self).spec_config();
                let log0 = old(self).spec_log();
                let content = old(self).spec_file_content(file_path@);
                let total = spec_view_total(content);
                let target = spec_line_at(content, offset as nat);
                let cached = viewport_of(old(self).spec_files(), file_path@);
                let inside = match cached {
                    Some(v) => v.end > 0 && v.start <= target && target <= v.end,
                    None => false,
                };
                let vs = spec_vp_start(total, target, cfg.viewport_radius as nat);
                let ve = spec_vp_end(total, target, cfg.viewport_radius as nat);
                &&& (inside ==> final(self).spec_log() == log0 && viewport_of(
                    final(self).spec_files(),
                    file_path@,
                ) == cached)
                &&& (!inside ==> (match viewport_of(final(self).spec_files(), file_path@) {
                    Some(v) => v.start == vs && v.end == ve,
                    None => false,
                }))
                &&& (!inside && ve < vs ==> final(self).spec_log() == log0)
                &&& (!inside && ve >= vs && captured_of(old(self).spec_files(), file_path@)
                    ==> final(self).spec_log().len() == log0.len() + 2 && view_pair_at(
                    tok,
                    cfg,
                    final(self).spec_log(),
                    log0.len() as int,
                    file_path@,
                    content,
                    vs as nat,
                    ve as nat,
                ))
                &&& (!inside && ve >= vs && !captured_of(old(self).spec_files(), file_path@)
                    ==> final(self).spec_log().len() == log0.len() + 4 && capture_pair_at(
                    tok,
                    cfg,
                    final(self).spec_log(),
                    log0.len() as int,
                    file_path@,
                    content,
                ) && view_pair_at(
                    tok,
                    cfg,
                    final(self).spec_log(),
                    log0.len() as int + 2,
                    file_path@,
                    content,
                    vs as nat,
                    ve as nat,
                ))
            }),
            final(self).spec_config() == old(self).spec_config(),
            final(self).spec_tokenizer() == old(self).spec_tokenizer(),
            finalized_frame(old(self).spec_finalized(), final(self).spec_finalized()),
    {
        // During an edit burst, suppress viewport emissions entirely.
        let idx_probe = self.find_file_index(file_path);
        proof {
            lemma_find_entry(self.files@, file_path@);
        }
        match idx_probe {
            Some(i) => {
                let has_pending = match &self.files[i].pending_before {
                    Some(_) => true,
                    None => false,
                };
                if has_pending {
                    proof {
                        assert(self.spec_log().take(self.spec_log().len() as int)
                            =~= self.spec_log());
                    }
                    return;
                }
            },
            None => {
            },
        }

        self.flush_terminal_output_buffer();
        let ghost fs_a = self.spec_files();
        let ghost la = self.spec_log();
        let ghost was_found = find_entry(fs_a, file_path@) is Some;
        let idx = self.ensure_file(file_path);
        let ghost fs_c = self.spec_files();
        proof {
            lemma_sorted_find_self(self.spec_files(), idx as int);
            assert forall|i: int| 0 <= i < fs_a.len() implies (#[trigger] fs_a[i]).path@ == old(self).spec_files()[i].path@ by {
                assert(fs_a[i].path == old(self).spec_files()[i].path);
            }
            lemma_find_entry_same_paths(old(self).spec_files(), fs_a, file_path@);
            lemma_find_entry(old(self).spec_files(), file_path@);
            lemma_find_entry(fs_a, file_path@);
        }
        let content = self.files[idx].content.clone();
        proof {
            match find_entry(fs_a, file_path@) {
                Some(i0) => {
                    assert(self.spec_files() == fs_a);
                    assert(fs_a[i0].content == old(self).spec_files()[i0].content);
                },
                None => {
                },
            }
            assert(content@ == old(self).spec_file_content(file_path@));
        }
        let n0 = content.as_str().unicode_len();
        let total: usize = if n0 == 0 {
            0
        } else {
            let nls = crate::helpers::count_char_prefix(content.as_str(), n0, '\n');
            if nls < usize::MAX {
                nls + 1
            } else {
                nls
            }
        };
        let safe_offset = if offset < n0 { offset } else { n0 };
        let nls_so = crate::helpers::count_char_prefix(content.as_str(), safe_offset, '\n');
        let target_line = if nls_so < usize::MAX { nls_so + 1 } else { nls_so };
        proof {
            assert(content@.take(n0 as int) =~= content@);
            assert(total == spec_view_total(content@));
            assert(target_line == spec_line_at(content@, offset as nat));
        }

        let current_vp = self.files[idx].viewport;
        proof {
            if old(self).spec_buffer().len() == 0 {
                // with an empty buffer the flush left the table untouched,
                // so the cached viewport and capture mark are the old ones
                match find_entry(old(self).spec_files(), file_path@) {
                    Some(i0) => {
                        assert(fs_a == old(self).spec_files());
                        assert(self.spec_files() == fs_a);
                        assert(current_vp == viewport_of(old(self).spec_files(), file_path@));
                    },
                    None => {
                        assert(current_vp is None);
                        assert(viewport_of(old(self).spec_files(), file_path@) is None);
                    },
                }
            }
        }
        let mut should_emit = false;
        let vp: Viewport = match current_vp {
            Some(v) => {
                if v.end > 0 {
                    if target_line < v.start || target_line > v.end {
                        let nv = crate::helpers::serialize_compute_viewport(
                            total,
                            target_line,
                            self.config.viewport_radius,
                        );
                        self.set_viewport_at(idx, nv);
                        should_emit = true;
                        nv
                    } else {
                        v
                    }
                } else {
                    let nv = crate::helpers::serialize_compute_viewport(
                        total,
                        target_line,
                        self.config.viewport_radius,
                    );
                    self.set_viewport_at(idx, nv);
                    should_emit = true;
                    nv
                }
            },
            None => {
                let nv = crate::helpers::serialize_compute_viewport(
                    total,
                    target_line,
                    self.config.viewport_radius,
                );
                self.set_viewport_at(idx, nv);
                should_emit = true;
                nv
            },
        };
        proof {
            lemma_sorted_find_self(self.spec_files(), idx as int);
        }
        if should_emit && vp.end >= vp.start {
            let ghost was_captured = captured_of(self.spec_files(), file_path@);
            proof {
                lemma_sorted_find_self(self.spec_files(), idx as int);
            }
            self.maybe_capture_file_contents(file_path, content.as_str());
            let ghost lc = self.spec_log();
            let cmd = build_view_cmd(file_path, vp.start, vp.end);
            let cmd_block = build_bash_block(cmd.as_str());
            let viewport_output = crate::helpers::line_numbered_output(
                content.as_str(),
                Some(vp.start),
                Some(vp.end),
            );
            let user_value = build_stdout_value(viewport_output.as_str());
            self.emit_view_pair(cmd_block, user_value);
            proof {
                lemma_log_extends_trans(old(self).spec_log(), la, lc);
                lemma_log_extends_trans(old(self).spec_log(), lc, self.spec_log());
                assert(self.spec_log().take(lc.len() as int) =~= lc);
                if !was_captured {
                    assert(self.spec_log()[lc.len() - 2] == lc[lc.len() - 2]);
                    assert(self.spec_log()[lc.len() - 1] == lc[lc.len() - 1]);
                }
            }
        }
        proof {
            lemma_sorted_find_self(self.spec_files(), idx as int);
            assert(content_of(self.spec_files(), file_path@) == content@);
            let fs_f = self.spec_files();
            let fs_old = old(self).spec_files();
            assert forall|i: int|
                0 <= i < fs_old.len() implies (exists|j: int|
                0 <= j < fs_f.len() && (#[trigger] fs_f[j]).path == (#[trigger] fs_old[i]).path
                    && fs_f[j].content == fs_old[i].content) by {
                let j: int = if was_found || i < idx {
                    i
                } else {
                    i + 1
                };
                assert(fs_a[i].path == fs_old[i].path && fs_a[i].content == fs_old[i].content);
                if was_found {
                    assert(fs_c == fs_a);
                } else {
                    assert(idx <= fs_a.len());
                    assert(fs_c == fs_a.insert(idx as int, fs_c[idx as int]));
                    fs_a.insert_ensures(idx as int, fs_c[idx as int]);
                    assert(fs_c[j] == fs_a[i]);
                }
                assert(fs_f[j].path == fs_c[j].path && fs_f[j].content == fs_c[j].content);
            }
        }
    }

    /// Handle a git branch checkout event: the branch name is extracted
    /// from the `to '<name>'` pattern in the cleaned message and emitted as
    /// a `git checkout` command; names with characters outside
    /// `[A-Za-z0-9._/-]` are shell-quoted. Without a match the event is
    /// dropped.
    pub fn handle_git_branch_checkout_event(&mut self, branch_info: &str)
        requires
            old(self).wf(),
        ensures
            final(self).wf(),
            log_extends(old(self).spec_log(), final(self).spec_log()),
            final(self).spec_buffer().len() == 0,
            pending_flushes_emitted(
                old(self).spec_tokenizer(),
                old(self).spec_config(),
                old(self).spec_files(),
                old(self).spec_log(),
                final(self).spec_log(),
            ),
            buffer_flush_emitted(
                old(self).spec_tokenizer(),
                old(self).spec_config(),
                old(self).spec_buffer(),
                old(self).spec_log(),
                final(self).spec_log(),
            ),
            ({
                let cleaned = crate::textspec::spec_clean_text(
                    crate::textspec::spec_unescape(branch_info@),
                );
                &&& (spec_extract_branch(cleaned) is Some ==> final(self).spec_log().len() > old(self).spec_log().len() && entry_matches(
                    old(self).spec_tokenizer(),
                    old(self).spec_config(),
                    final(self).spec_log().last(),
                    EmissionKind::BareCmd,
                    assistant_marker(),
                    spec_bash_block(spec_checkout_cmd(spec_extract_branch(cleaned)->0)),
                ))
                &&& (old(self).quiescent() && spec_extract_branch(cleaned) is Some ==> final(self).spec_log().len() == old(self).spec_log().len() + 1)
                &&& (old(self).quiescent() && spec_extract_branch(cleaned) is None ==> final(self).spec_log() == old(self).spec_log())
            }),
            final(self).spec_files().len() == old(self).spec_files().len(),
            forall|i: int|
                0 <= i < old(self).spec_files().len() ==> {
                    let e0 = #[trigger] old(self).spec_files()[i];
                    let e1 = final(self).spec_files()[i];
                    e1.path == e0.path && e1.content == e0.content
                },
            final(self).spec_config() == old(self).spec_config(),
            final(self).spec_tokenizer() == old(self).spec_tokenizer(),
            finalized_frame(old(self).spec_finalized(), final(self).spec_finalized()),
    {
        self.flush_all_pending_edits();
        let ghost la = self.spec_log();
        self.flush_terminal_output_buffer();
        let ghost lb = self.spec_log();
        proof {
            lemma_log_extends_trans(old(self).spec_log(), la, lb);
        }

        let branch_str = crate::helpers::unescape(branch_info);
        let cleaned = crate::helpers::clean_text(branch_str.as_str());

        let branch = match extract_branch_name(cleaned.as_str()) {
            Some(b) => b,
            None => {
                proof {
                    assert(self.spec_log().take(self.spec_log().len() as int)
                        =~= self.spec_log());
            assert(log_extends(lb, self.spec_log()));
            lemma_flushes_persist(
                old(self).spec_tokenizer(),
                old(self).spec_config(),
                old(self).spec_files(),
                old(self).spec_log(),
                la,
                lb,
            );
            lemma_buffer_flush_weaken(
                old(self).spec_tokenizer(),
                old(self).spec_config(),
                old(self).spec_buffer(),
                la,
                old(self).spec_log(),
                lb,
            );
            lemma_flushes_persist(
                old(self).spec_tokenizer(),
                old(self).spec_config(),
                old(self).spec_files(),
                old(self).spec_log(),
                lb,
                self.spec_log(),
            );
            lemma_buffer_flush_persists(
                old(self).spec_tokenizer(),
                old(self).spec_config(),
                old(self).spec_buffer(),
                old(self).spec_log(),
                lb,
                self.spec_log(),
            );
                }
                return;
            },
        };
        let name = if branch_needs_quoting(branch.as_str()) {
            shell_quote(branch.as_str())
        } else {
            branch
        };
        let mut cmd = String::from_str("git checkout ");
        proof {
            reveal_strlit("git checkout ");
            assert("git checkout "@ =~= seq![
                'g',
                'i',
                't',
                ' ',
                'c',
                'h',
                'e',
                'c',
                'k',
                'o',
                'u',
                't',
                ' ',
            ]);
        }
        cmd.append(name.as_str());
        proof {
            assert(cmd@ == spec_checkout_cmd(spec_extract_branch(cleaned@)->0));
        }
        let value = build_bash_block(cmd.as_str());
        self.emit_bare_command(value);
        proof {
            lemma_log_extends_trans(old(self).spec_log(), lb, self.spec_log());
            assert(log_extends(lb, self.spec_log()));
            lemma_flushes_persist(
                old(self).spec_tokenizer(),
                old(self).spec_config(),
                old(self).spec_files(),
                old(self).spec_log(),
                la,
                lb,
            );
            lemma_buffer_flush_weaken(
                old(self).spec_tokenizer(),
                old(self).spec_config(),
                old(self).spec_buffer(),
                la,
                old(self).spec_log(),
                lb,
            );
            lemma_flushes_persist(
                old(self).spec_tokenizer(),
                old(self).spec_config(),
                old(self).spec_files(),
                old(self).spec_log(),
                lb,
                self.spec_log(),
            );
            lemma_buffer_flush_persists(
                old(self).spec_tokenizer(),
                old(self).spec_config(),
                old(self).spec_buffer(),
                old(self).spec_log(),
                lb,
                self.spec_log(),
            );
        }
    }

    /// Flush everything pending and return a copy of the open chunk.
    pub fn finalize_for_model(&mut self) -> (r: Vec<ConversationMessage>)
        requires
            old(self).wf(),
        ensures
            final(self).wf(),
            log_extends(old(self).spec_log(), final(self).spec_log()),
            r@ == final(self).spec_messages(),
            old(self).quiescent() ==> r@ == old(self).spec_messages() && final(self).spec_log()
                == old(self).spec_log(),
            forall|i: int|
                0 <= i < final(self).spec_files().len() ==> (#[trigger] final(self).spec_files()[i]).pending_before is None,
            pending_flushes_emitted(
                old(self).spec_tokenizer(),
                old(self).spec_config(),
                old(self).spec_files(),
                old(self).spec_log(),
                final(self).spec_log(),
            ),
            buffer_flush_emitted(
                old(self).spec_tokenizer(),
                old(self).spec_config(),
                old(self).spec_buffer(),
                old(self).spec_log(),
                final(self).spec_log(),
            ),
            final(self).spec_buffer().len() == 0,
            final(self).spec_config() == old(self).spec_config(),
            final(self).spec_tokenizer() == old(self).spec_tokenizer(),
            finalized_frame(old(self).spec_finalized(), final(self).spec_finalized()),
    {
        self.flush_all_pending_edits();
        let ghost la = self.spec_log();
        self.flush_terminal_output_buffer();
        proof {
            lemma_log_extends_trans(old(self).spec_log(), la, self.spec_log());
            lemma_flushes_persist(
                old(self).spec_tokenizer(),
                old(self).spec_config(),
                old(self).spec_files(),
                old(self).spec_log(),
                la,
                self.spec_log(),
            );
            lemma_buffer_flush_weaken(
                old(self).spec_tokenizer(),
                old(self).spec_config(),
                old(self).spec_buffer(),
                la,
                old(self).spec_log(),
                self.spec_log(),
            );
        }
        self.get_messages()
    }

    /// Flush everything pending, finalize the open chunk, and drain all
    /// finalized conversations. Every returned chunk is long enough,
    /// contains both senders, respects the per-message token bound, and
    /// stays within one message of the conversation budget.
    pub fn get_conversations(&mut self) -> (r: Vec<FinalizedConversation>)
        requires
            old(self).wf(),
        ensures
            final(self).wf(),
            forall|i: int|
                0 <= i < r@.len() ==> conversation_ok(
                    old(self).spec_tokenizer(),
                    old(self).spec_config(),
                    #[trigger] r@[i],
                ),
            r@.len() >= old(self).spec_finalized().len(),
            forall|i: int|
                0 <= i < old(self).spec_finalized().len() ==> #[trigger] r@[i] == old(self).spec_finalized()[i],
            final(self).spec_finalized().len() == 0,
            final(self).spec_messages().len() == 0,
            final(self).spec_buffer().len() == 0,
            forall|i: int|
                0 <= i < final(self).spec_files().len() ==> (#[trigger] final(self).spec_files()[i]).pending_before is None,
            old(self).quiescent() ==> ({
                if old(self).spec_messages().len() > 0 && chunk_gate(
                    old(self).spec_config(),
                    old(self).spec_messages(),
                ) {
                    &&& r@.len() == old(self).spec_finalized().len() + 1
                    &&& r@.last().messages@ == old(self).spec_messages()
                    &&& r@.last().token_count == old(self).spec_tokens()
                } else {
                    r@ == old(self).spec_finalized()
                }
            }),
            pending_flushes_emitted(
                old(self).spec_tokenizer(),
                old(self).spec_config(),
                old(self).spec_files(),
                old(self).spec_log(),
                final(self).spec_log(),
            ),
            buffer_flush_emitted(
                old(self).spec_tokenizer(),
                old(self).spec_config(),
                old(self).spec_buffer(),
                old(self).spec_log(),
                final(self).spec_log(),
            ),
            final(self).spec_config() == old(self).spec_config(),
            final(self).spec_tokenizer() == old(self).spec_tokenizer(),
    {
        self.flush_all_pending_edits();
        let ghost la = self.spec_log();
        self.flush_terminal_output_buffer();
        let ghost lb = self.spec_log();
        self.finalize_current_conversation();
        let r = self.finalized_conversations.split_off(0);
        proof {
            assert(self.finalized_conversations@ =~= Seq::<FinalizedConversation>::empty());
            assert(self.spec_log().take(lb.len() as int) =~= lb);
            assert(log_extends(lb, self.spec_log()));
            lemma_flushes_persist(
                old(self).spec_tokenizer(),
                old(self).spec_config(),
                old(self).spec_files(),
                old(self).spec_log(),
                la,
                lb,
            );
            lemma_buffer_flush_weaken(
                old(self).spec_tokenizer(),
                old(self).spec_config(),
                old(self).spec_buffer(),
                la,
                old(self).spec_log(),
                lb,
            );
            lemma_flushes_persist(
                old(self).spec_tokenizer(),
                old(self).spec_config(),
                old(self).spec_files(),
                old(self).spec_log(),
                lb,
                self.spec_log(),
            );
            lemma_buffer_flush_persists(
                old(self).spec_tokenizer(),
                old(self).spec_config(),
                old(self).spec_buffer(),
                old(self).spec_log(),
                lb,
                self.spec_log(),
            );
        }
        r
    }

    /// Append a message, truncating it when it exceeds the per-message token
    /// budget, and rolling the chunk over first when the conversation budget
    /// would be crossed.
    fn append_message(&mut self, message: ConversationMessage, Ghost(kind): Ghost<EmissionKind>)
        requires
            old(self).wf_core(),
            kind is Stdout <==> message.from@ == user_marker(),
            !(kind is Stdout) ==> message.from@ == assistant_marker(),
        ensures
            final(self).wf_core(),
            final(self).spec_log().len() == old(self).spec_log().len() + 1,
            log_extends(old(self).spec_log(), final(self).spec_log()),
            entry_matches(
                old(self).spec_tokenizer(),
                old(self).spec_config(),
                final(self).spec_log().last(),
                kind,
                message.from@,
                message.value@,
            ),
            ({
                let cost = capped_cost(
                    old(self).spec_tokenizer(),
                    old(self).spec_config(),
                    message.value@,
                );
                let rolls = old(self).spec_config().max_tokens_per_conversation is Some && old(self).spec_messages().len() > 0 && old(self).spec_tokens() + cost > old(self).spec_config().max_tokens_per_conversation->0;
                &&& (rolls ==> final(self).spec_messages().len() == 1 && final(self).spec_costs()
                    == seq![cost])
                &&& (!rolls ==> final(self).spec_messages().len() == old(self).spec_messages().len() + 1 && final(self).spec_messages().drop_last() == old(self).spec_messages() && final(self).spec_costs() == old(self).spec_costs().push(
                    cost,
                ))
            }),
            files_frame(old(self).spec_files(), final(self).spec_files()),
            forall|i: int|
                0 <= i < old(self).spec_files().len() ==> (#[trigger] final(self).spec_files()[i]).path@ == old(self).spec_files()[i].path@,
            final(self).spec_buffer() == old(self).spec_buffer(),
            final(self).spec_config() == old(self).spec_config(),
            final(self).spec_tokenizer() == old(self).spec_tokenizer(),
            finalized_frame(old(self).spec_finalized(), final(self).spec_finalized()),
    {
        let mut message = message;
        let ghost requested = message.value@;
        let mut tokens = self.tokenizer.count_tokens(message.value.as_str());

        if tokens > self.config.max_tokens_per_message {
            message.value = self.tokenizer.truncate_to_max_tokens(
                message.value.as_str(),
                self.config.max_tokens_per_message,
            );
            tokens = self.config.max_tokens_per_message;
        }

        match self.config.max_tokens_per_conversation {
            Some(max_tokens) => {
                let over = self.current_tokens > max_tokens || tokens > max_tokens
                    - self.current_tokens;
                if over && self.messages.len() > 0 {
                    self.finalize_current_conversation();
                }
            },
            None => {
            },
        }

        let ghost e = LogEntry { kind, from: message.from@, value: message.value@ };
        self.log = Ghost(self.log@.push(e));
        self.messages.push(message);
        let ghost costs_pre = self.costs@;
        self.costs = Ghost(self.costs@.push(tokens as nat));
        self.current_tokens = self.current_tokens.saturating_add(tokens);
        proof {
            assert(self.costs@.drop_last() =~= costs_pre);
            assert(crate::textspec::spec_sum(self.costs@) == crate::textspec::spec_sum(costs_pre)
                + tokens);
            assert(self.messages@.drop_last() =~= old(self).spec_messages()
                || self.messages@.len() == 1);
            assert(final(self).spec_log().take(old(self).spec_log().len() as int) =~= old(self).spec_log());
        }
    }

    /// Emit an assistant command that shows file state, immediately followed
    /// by its stdout message.
    #[verifier::rlimit(100)]
    fn emit_view_pair(&mut self, cmd_value: String, user_value: String)
        requires
            old(self).wf(),
        ensures
            final(self).wf(),
            final(self).spec_log().len() == old(self).spec_log().len() + 2,
            log_extends(old(self).spec_log(), final(self).spec_log()),
            entry_matches(
                old(self).spec_tokenizer(),
                old(self).spec_config(),
                final(self).spec_log()[final(self).spec_log().len() - 2],
                EmissionKind::ViewCmd,
                assistant_marker(),
                cmd_value@,
            ),
            entry_matches(
                old(self).spec_tokenizer(),
                old(self).spec_config(),
                final(self).spec_log().last(),
                EmissionKind::Stdout,
                user_marker(),
                user_value@,
            ),
            files_frame(old(self).spec_files(), final(self).spec_files()),
            forall|i: int|
                0 <= i < old(self).spec_files().len() ==> (#[trigger] final(self).spec_files()[i]).path@ == old(self).spec_files()[i].path@,
            final(self).spec_buffer() == old(self).spec_buffer(),
            final(self).spec_config() == old(self).spec_config(),
            final(self).spec_tokenizer() == old(self).spec_tokenizer(),
            finalized_frame(old(self).spec_finalized(), final(self).spec_finalized()),
    {
        let ghost log0 = self.log@;
        self.append_message(
            ConversationMessage::assistant(cmd_value),
            Ghost(EmissionKind::ViewCmd),
        );
        self.append_message(ConversationMessage::user(user_value), Ghost(EmissionKind::Stdout));
        proof {
            let log2 = self.log@;
            assert(log2.take(log0.len() as int) =~= log0);
            assert forall|i: int|
                #![trigger log2[i], log2[i + 1]]
                0 <= i < log2.len() && log2[i].kind is ViewCmd implies i + 1 < log2.len()
                && log2[i + 1].kind is Stdout by {
                if i < log0.len() {
                    assert(log2[i] == log0[i]);
                    if i + 1 < log0.len() {
                        assert(log2[i + 1] == log0[i + 1]);
                    } else {
                        assert(log0[i] == log0.last());
                    }
                }
            }
        }
    }

    /// Emit a bare assistant command with no synthetic stdout.
    #[verifier::rlimit(100)]
    fn emit_bare_command(&mut self, cmd_value: String)
        requires
            old(self).wf(),
        ensures
            final(self).wf(),
            final(self).spec_log().len() == old(self).spec_log().len() + 1,
            log_extends(old(self).spec_log(), final(self).spec_log()),
            entry_matches(
                old(self).spec_tokenizer(),
                old(self).spec_config(),
                final(self).spec_log().last(),
                EmissionKind::BareCmd,
                assistant_marker(),
                cmd_value@,
            ),
            files_frame(old(self).spec_files(), final(self).spec_files()),
            forall|i: int|
                0 <= i < old(self).spec_files().len() ==> (#[trigger] final(self).spec_files()[i]).path@ == old(self).spec_files()[i].path@,
            final(self).spec_buffer() == old(self).spec_buffer(),
            final(self).spec_config() == old(self).spec_config(),
            final(self).spec_tokenizer() == old(self).spec_tokenizer(),
            finalized_frame(old(self).spec_finalized(), final(self).spec_finalized()),
    {
        let ghost log0 = self.log@;
        self.append_message(
            ConversationMessage::assistant(cmd_value),
            Ghost(EmissionKind::BareCmd),
        );
        proof {
            let log1 = self.log@;
            assert forall|i: int|
                #![trigger log1[i], log1[i + 1]]
                0 <= i < log1.len() && log1[i].kind is ViewCmd implies i + 1 < log1.len()
                && log1[i + 1].kind is Stdout by {
                if i < log0.len() {
                    assert(log1[i] == log0[i]);
                    if i + 1 < log0.len() {
                        assert(log1[i + 1] == log0[i + 1]);
                    } else {
                        assert(log0[i] == log0.last());
                    }
                }
            }
        }
    }

    /// Emit a stdout-only user message.
    #[verifier::rlimit(100)]
    fn emit_stdout(&mut self, user_value: String)
        requires
            old(self).wf(),
        ensures
            final(self).wf(),
            final(self).spec_log().len() == old(self).spec_log().len() + 1,
            log_extends(old(self).spec_log(), final(self).spec_log()),
            entry_matches(
                old(self).spec_tokenizer(),
                old(self).spec_config(),
                final(self).spec_log().last(),
                EmissionKind::Stdout,
                user_marker(),
                user_value@,
            ),
            files_frame(old(self).spec_files(), final(self).spec_files()),
            forall|i: int|
                0 <= i < old(self).spec_files().len() ==> (#[trigger] final(self).spec_files()[i]).path@ == old(self).spec_files()[i].path@,
            final(self).spec_buffer() == old(self).spec_buffer(),
            final(self).spec_config() == old(self).spec_config(),
            final(self).spec_tokenizer() == old(self).spec_tokenizer(),
            finalized_frame(old(self).spec_finalized(), final(self).spec_finalized()),
    {
        let ghost log0 = self.log@;
        self.append_message(ConversationMessage::user(user_value), Ghost(EmissionKind::Stdout));
        proof {
            let log1 = self.log@;
            assert forall|i: int|
                #![trigger log1[i], log1[i + 1]]
                0 <= i < log1.len() && log1[i].kind is ViewCmd implies i + 1 < log1.len()
                && log1[i + 1].kind is Stdout by {
                if i < log0.len() {
                    assert(log1[i] == log0[i]);
                    if i + 1 < log0.len() {
                        assert(log1[i + 1] == log0[i + 1]);
                    } else {
                        assert(log0[i] == log0.last());
                    }
                }
            }
        }
    }

    /// Handle a terminal output event: the unescaped fragment is buffered
    /// and nothing is emitted.
    pub fn handle_terminal_output_event(&mut self, output: &str)
        requires
            old(self).wf(),
        ensures
            final(self).wf(),
            final(self).spec_buffer() == old(self).spec_buffer().push(
                crate::textspec::spec_unescape(output@),
            ),
            final(self).spec_log() == old(self).spec_log(),
            final(self).spec_messages() == old(self).spec_messages(),
            final(self).spec_files() == old(self).spec_files(),
            final(self).spec_finalized() == old(self).spec_finalized(),
            final(self).spec_config() == old(self).spec_config(),
            final(self).spec_tokenizer() == old(self).spec_tokenizer(),
    {
        let raw_output = crate::helpers::unescape(output);
        let ghost b0 = self.terminal_output_buffer.deep_view();
        self.terminal_output_buffer.push(raw_output);
        proof {
            assert(self.terminal_output_buffer.deep_view() =~~= b0.push(
                crate::textspec::spec_unescape(output@),
            ));
        }
    }

    /// Flush buffered terminal output: the fragments are concatenated,
    /// normalized and cleaned; an overlong result is truncated with a
    /// marker; a blank result is dropped; otherwise one stdout message is
    /// emitted.
    #[verifier::rlimit(50)]
    pub fn flush_terminal_output_buffer(&mut self)
        requires
            old(self).wf(),
        ensures
            final(self).wf(),
            final(self).spec_buffer().len() == 0,
            log_extends(old(self).spec_log(), final(self).spec_log()),
            final(self).spec_log().len() <= old(self).spec_log().len() + 1,
            final(self).spec_log().len() > old(self).spec_log().len() ==> final(self).spec_log().last().kind is Stdout,
            old(self).spec_buffer().len() > 0 ==> ({
                let cleaned = crate::textspec::spec_clean_text(
                    crate::textspec::spec_normalize_terminal(
                        crate::textspec::spec_concat(old(self).spec_buffer()),
                    ),
                );
                let budget = old(self).spec_config().max_tokens_per_terminal_output;
                let tok = old(self).spec_tokenizer();
                &&& (tok.spec_count(cleaned) <= budget && crate::textspec::spec_all_ws(cleaned)
                    ==> final(self).spec_log() == old(self).spec_log())
                &&& (tok.spec_count(cleaned) <= budget && !crate::textspec::spec_all_ws(cleaned)
                    ==> final(self).spec_log().len() == old(self).spec_log().len() + 1
                    && entry_matches(
                    tok,
                    old(self).spec_config(),
                    final(self).spec_log().last(),
                    EmissionKind::Stdout,
                    user_marker(),
                    spec_stdout_msg(cleaned),
                ))
                &&& (tok.spec_count(cleaned) > budget ==> final(self).spec_log().len() == old(self).spec_log().len() + 1 && (exists|t: Seq<char>|
                    tok.spec_count(t) <= budget && entry_matches(
                        tok,
                        old(self).spec_config(),
                        final(self).spec_log().last(),
                        EmissionKind::Stdout,
                        user_marker(),
                        spec_stdout_msg(t + trunc_marker()),
                    )))
            }),
            buffer_flush_emitted(
                old(self).spec_tokenizer(),
                old(self).spec_config(),
                old(self).spec_buffer(),
                old(self).spec_log(),
                final(self).spec_log(),
            ),
            old(self).spec_buffer().len() == 0 ==> final(self).spec_log() == old(self).spec_log()
                && final(self).spec_messages() == old(self).spec_messages() && final(self).spec_files() == old(self).spec_files() && final(self).spec_finalized() == old(self).spec_finalized() && final(self).spec_tokens() == old(self).spec_tokens(),
            files_frame(old(self).spec_files(), final(self).spec_files()),
            forall|i: int|
                0 <= i < old(self).spec_files().len() ==> (#[trigger] final(self).spec_files()[i]).path@ == old(self).spec_files()[i].path@,
            final(self).spec_config() == old(self).spec_config(),
            final(self).spec_tokenizer() == old(self).spec_tokenizer(),
            finalized_frame(old(self).spec_finalized(), final(self).spec_finalized()),
    {
        if self.terminal_output_buffer.len() == 0 {
            proof {
                assert(self.spec_log().take(self.spec_log().len() as int) =~= self.spec_log());
            }
            return;
        }
        let mut aggregated = String::new();
        let nb = self.terminal_output_buffer.len();
        let mut i: usize = 0;
        proof {
            assert(self.spec_buffer().take(0) =~~= Seq::<Seq<char>>::empty());
        }
        while i < nb
            invariant
                i <= nb,
                nb == self.terminal_output_buffer@.len(),
                self.spec_buffer() == old(self).spec_buffer(),
                aggregated@ == crate::textspec::spec_concat(self.spec_buffer().take(i as int)),
            decreases nb - i,
        {
            proof {
                assert(self.spec_buffer().take(i as int + 1).drop_last() =~~= self.spec_buffer(
                ).take(i as int));
                assert(self.spec_buffer()[i as int] == self.terminal_output_buffer@[i as int]@);
            }
            aggregated.append(self.terminal_output_buffer[i].as_str());
            i = i + 1;
        }
        proof {
            assert(self.spec_buffer().take(nb as int) =~~= self.spec_buffer());
        }
        let out = crate::helpers::normalize_terminal_output(aggregated.as_str());
        let cleaned0 = crate::helpers::clean_text(out.as_str());
        let ghost cleaned_view = cleaned0@;
        let mut cleaned = cleaned0;

        let tokens = self.tokenizer.count_tokens(cleaned.as_str());
        let ghost truncated_case = tokens > self.config.max_tokens_per_terminal_output;
        let ghost kept: Seq<char>;
        if tokens > self.config.max_tokens_per_terminal_output {
            let mut truncated = self.tokenizer.truncate_to_max_tokens(
                cleaned.as_str(),
                self.config.max_tokens_per_terminal_output,
            );
            proof {
                kept = truncated@;
            }
            truncated.append("\n... [truncated]");
            proof {
                reveal_strlit("\n... [truncated]");
                assert("\n... [truncated]"@ =~= trunc_marker());
            }
            cleaned = truncated;
        } else {
            proof {
                kept = cleaned_view;
            }
        }

        if !all_ws_exec(cleaned.as_str()) {
            let value = build_stdout_value(cleaned.as_str());
            self.emit_stdout(value);
        } else {
            proof {
                // A truncated value always ends with the marker, whose dots
                // are not whitespace, so the blank case only arises without
                // truncation.
                if truncated_case {
                    assert(cleaned@[kept.len() as int + 1] == '.');
                    assert(!crate::textspec::spec_is_ws('.'));
                    assert(false);
                }
                assert(self.spec_log().take(self.spec_log().len() as int) =~= self.spec_log());
            }
        }
        self.terminal_output_buffer.clear();
    }

    /// Handle a terminal command event: pending edits and buffered output
    /// are flushed, then the cleaned command is emitted as a bare bash
    /// block.
    #[verifier::rlimit(50)]
    pub fn handle_terminal_command_event(&mut self, command: &str)
        requires
            old(self).wf(),
        ensures
            final(self).wf(),
            final(self).spec_buffer().len() == 0,
            log_extends(old(self).spec_log(), final(self).spec_log()),
            final(self).spec_log().len() > 0,
            entry_matches(
                old(self).spec_tokenizer(),
                old(self).spec_config(),
                final(self).spec_log().last(),
                EmissionKind::BareCmd,
                assistant_marker(),
                spec_bash_block(crate::textspec::spec_unescape(command@)),
            ),
            old(self).quiescent() ==> final(self).spec_log().len() == old(self).spec_log().len()
                + 1,
            pending_flushes_emitted(
                old(self).spec_tokenizer(),
                old(self).spec_config(),
                old(self).spec_files(),
                old(self).spec_log(),
                final(self).spec_log(),
            ),
            buffer_flush_emitted(
                old(self).spec_tokenizer(),
                old(self).spec_config(),
                old(self).spec_buffer(),
                old(self).spec_log(),
                final(self).spec_log(),
            ),
            final(self).spec_files().len() == old(self).spec_files().len(),
            forall|i: int|
                0 <= i < old(self).spec_files().len() ==> {
                    let e0 = #[trigger] old(self).spec_files()[i];
                    let e1 = final(self).spec_files()[i];
                    e1.path == e0.path && e1.content == e0.content
                },
            forall|i: int|
                0 <= i < final(self).spec_files().len() ==> (#[trigger] final(self).spec_files()[i]).pending_before is None,
            final(self).spec_config() == old(self).spec_config(),
            final(self).spec_tokenizer() == old(self).spec_tokenizer(),
            finalized_frame(old(self).spec_finalized(), final(self).spec_finalized()),
    {
        self.flush_all_pending_edits();
        let ghost la = self.spec_log();
        self.flush_terminal_output_buffer();
        let ghost lb = self.spec_log();

        let command_str = crate::helpers::unescape(command);
        let value = build_bash_block(command_str.as_str());
        self.emit_bare_command(value);
        proof {
            lemma_log_extends_trans(old(self).spec_log(), la, lb);
            lemma_log_extends_trans(old(self).spec_log(), lb, self.spec_log());
            lemma_flushes_persist(
                old(self).spec_tokenizer(),
                old(self).spec_config(),
                old(self).spec_files(),
                old(self).spec_log(),
                la,
                lb,
            );
            lemma_flushes_persist(
                old(self).spec_tokenizer(),
                old(self).spec_config(),
                old(self).spec_files(),
                old(self).spec_log(),
                lb,
                self.spec_log(),
            );
            lemma_buffer_flush_weaken(
                old(self).spec_tokenizer(),
                old(self).spec_config(),
                old(self).spec_buffer(),
                la,
                old(self).spec_log(),
                lb,
            );
            lemma_buffer_flush_persists(
                old(self).spec_tokenizer(),
                old(self).spec_config(),
                old(self).spec_buffer(),
                old(self).spec_log(),
                lb,
                self.spec_log(),
            );
        }
    }

    /// Handle a terminal focus event: pending edits and buffered output are
    /// flushed; nothing is emitted.
    #[verifier::rlimit(50)]
    pub fn handle_terminal_focus_event(&mut self)
        requires
            old(self).wf(),
        ensures
            final(self).wf(),
            final(self).spec_buffer().len() == 0,
            log_extends(old(self).spec_log(), final(self).spec_log()),
            final(self).spec_files().len() == old(self).spec_files().len(),
            forall|i: int|
                0 <= i < old(self).spec_files().len() ==> {
                    let e0 = #[trigger] old(self).spec_files()[i];
                    let e1 = final(self).spec_files()[i];
                    e1.path == e0.path && e1.content == e0.content
                },
            forall|i: int|
                0 <= i < final(self).spec_files().len() ==> (#[trigger] final(self).spec_files()[i]).pending_before is None,
            old(self).quiescent() ==> final(self).spec_log() == old(self).spec_log(),
            pending_flushes_emitted(
                old(self).spec_tokenizer(),
                old(self).spec_config(),
                old(self).spec_files(),
                old(self).spec_log(),
                final(self).spec_log(),
            ),
            buffer_flush_emitted(
                old(self).spec_tokenizer(),
                old(self).spec_config(),
                old(self).spec_buffer(),
                old(self).spec_log(),
                final(self).spec_log(),
            ),
            final(self).spec_config() == old(self).spec_config(),
            final(self).spec_tokenizer() == old(self).spec_tokenizer(),
            finalized_frame(old(self).spec_finalized(), final(self).spec_finalized()),
    {
        self.flush_all_pending_edits();
        let ghost la = self.spec_log();
        self.flush_terminal_output_buffer();
        proof {
            lemma_log_extends_trans(old(self).spec_log(), la, self.spec_log());
            lemma_flushes_persist(
                old(self).spec_tokenizer(),
                old(self).spec_config(),
                old(self).spec_files(),
                old(self).spec_log(),
                la,
                self.spec_log(),
            );
            lemma_buffer_flush_weaken(
                old(self).spec_tokenizer(),
                old(self).spec_config(),
                old(self).spec_buffer(),
                la,
                old(self).spec_log(),
                self.spec_log(),
            );
        }
    }
}


/// Two file tables with identical paths resolve lookups identically.
proof fn lemma_find_entry_same_paths(f0: Seq<FileEntry>, f1: Seq<FileEntry>, p: Seq<char>)
    requires
        f0.len() == f1.len(),
        forall|i: int| 0 <= i < f0.len() ==> (#[trigger] f0[i]).path@ == f1[i].path@,
    ensures
        find_entry(f0, p) == find_entry(f1, p),
    decreases f0.len(),
{
    if f0.len() > 0 {
        assert(f0[0].path@ == f1[0].path@);
        assert forall|i: int| 0 <= i < f0.skip(1).len() implies (#[trigger] f0.skip(1)[i]).path@
            == f1.skip(1)[i].path@ by {
            assert(f0.skip(1)[i] == f0[i + 1]);
            assert(f1.skip(1)[i] == f1[i + 1]);
        }
        lemma_find_entry_same_paths(f0.skip(1), f1.skip(1), p);
    }
}

/// The opening tag of a stdout block.
pub open spec fn stdout_open() -> Seq<char> {
    seq!['<', 's', 't', 'd', 'o', 'u', 't', '>', '\n']
}

/// The closing tag of a stdout block.
pub open spec fn stdout_close() -> Seq<char> {
    seq!['\n', '<', '/', 's', 't', 'd', 'o', 'u', 't', '>']
}

/// A user message wrapping command output.
pub open spec fn spec_stdout_msg(body: Seq<char>) -> Seq<char> {
    stdout_open() + body + stdout_close()
}

/// The bash language tag.
pub open spec fn bash_tag() -> Seq<char> {
    seq!['b', 'a', 's', 'h']
}

/// An assistant message: a fenced bash block holding the cleaned command.
pub open spec fn spec_bash_block(cmd: Seq<char>) -> Seq<char> {
    crate::textspec::spec_fenced_block(Some(bash_tag()), crate::textspec::spec_clean_text(cmd))
}

/// The `cat -n` command for a file.
pub open spec fn spec_cat_cmd(path: Seq<char>) -> Seq<char> {
    seq!['c', 'a', 't', ' ', '-', 'n', ' '] + path
}

/// The `cat -n ... | sed -n 'a,bp'` command showing a viewport of a file.
pub open spec fn spec_view_cmd(path: Seq<char>, s: nat, e: nat) -> Seq<char> {
    spec_cat_cmd(path) + seq![' ', '|', ' ', 's', 'e', 'd', ' ', '-', 'n', ' ', '\'']
        + crate::textspec::spec_dec(s) + seq![','] + crate::textspec::spec_dec(e) + seq![
        'p',
        '\'',
    ]
}

/// One log entry records the requested message, except that an overlong
/// value is replaced by a truncation that fits the per-message budget.
pub open spec fn entry_matches<T: Tokenizer>(
    tok: T,
    cfg: ConversationStateManagerConfig,
    e: LogEntry,
    kind: EmissionKind,
    from: Seq<char>,
    value: Seq<char>,
) -> bool {
    &&& e.kind == kind
    &&& e.from == from
    &&& (tok.spec_count(value) <= cfg.max_tokens_per_message ==> e.value == value)
    &&& tok.spec_count(e.value) <= cfg.max_tokens_per_message
}

/// The new log extends the old one: emissions are only ever appended.
pub open spec fn log_extends(old_log: Seq<LogEntry>, new_log: Seq<LogEntry>) -> bool {
    &&& old_log.len() <= new_log.len()
    &&& new_log.take(old_log.len() as int) == old_log
}


/// Log extension composes.
proof fn lemma_log_extends_trans(a: Seq<LogEntry>, b: Seq<LogEntry>, c: Seq<LogEntry>)
    requires
        log_extends(a, b),
        log_extends(b, c),
    ensures
        log_extends(a, c),
{
    assert forall|i: int| 0 <= i < a.len() implies c.take(a.len() as int)[i] == a[i] by {
        assert(b.take(a.len() as int)[i] == a[i]);
        assert(c.take(b.len() as int)[i] == b[i]);
    }
    assert(c.take(a.len() as int) =~= a);
}

/// The file table evolves without touching content, viewports or pending
/// edits; capture marks may only be dropped (by chunk finalization).
pub open spec fn files_frame(f0: Seq<FileEntry>, f1: Seq<FileEntry>) -> bool {
    &&& f1.len() == f0.len()
    &&& forall|i: int|
        0 <= i < f0.len() ==> {
            let a = f0[i];
            let b = #[trigger] f1[i];
            b.path == a.path && b.content == a.content && b.viewport == a.viewport
                && b.pending_before == a.pending_before && b.pending_region == a.pending_region
                && (b.captured == a.captured || b.captured == false)
        }
}

/// Already-finalized chunks are never modified.
pub open spec fn finalized_frame(
    c0: Seq<FinalizedConversation>,
    c1: Seq<FinalizedConversation>,
) -> bool {
    &&& c0.len() <= c1.len()
    &&& forall|i: int| 0 <= i < c0.len() ==> #[trigger] c1[i] == c0[i]
}

/// Whether every character of the string is whitespace.
fn all_ws_exec(s: &str) -> (r: bool)
    ensures
        r == crate::textspec::spec_all_ws(s@),
{
    let n = s.unicode_len();
    let mut i: usize = 0;
    while i < n
        invariant
            i <= n,
            n == s@.len(),
            forall|k: int| 0 <= k < i ==> crate::textspec::spec_is_ws(#[trigger] s@[k]),
        decreases n - i,
    {
        let c = s.get_char(i);
        let u = c as u32;
        let ws = u == 0x0009 || u == 0x000A || u == 0x000B || u == 0x000C || u == 0x000D || u
            == 0x0020 || u == 0x0085 || u == 0x00A0 || u == 0x1680 || (0x2000 <= u && u
            <= 0x200A) || u == 0x2028 || u == 0x2029 || u == 0x202F || u == 0x205F || u == 0x3000;
        if !ws {
            return false;
        }
        i = i + 1;
    }
    true
}

/// Build a `<stdout>` wrapped user value.
fn build_stdout_value(body: &str) -> (r: String)
    ensures
        r@ == spec_stdout_msg(body@),
{
    let mut s = String::from_str("<stdout>\n");
    s.append(body);
    s.append("\n</stdout>");
    proof {
        reveal_strlit("<stdout>\n");
        reveal_strlit("\n</stdout>");
        assert("<stdout>\n"@ =~= stdout_open());
        assert("\n</stdout>"@ =~= stdout_close());
    }
    s
}

/// Build the `cat -n` command for a path.
fn build_cat_cmd(path: &str) -> (r: String)
    ensures
        r@ == spec_cat_cmd(path@),
{
    let mut s = String::from_str("cat -n ");
    s.append(path);
    proof {
        reveal_strlit("cat -n ");
        assert("cat -n "@ =~= seq!['c', 'a', 't', ' ', '-', 'n', ' ']);
    }
    s
}

/// Build the viewport command `cat -n <path> | sed -n '<s>,<e>p'`.
fn build_view_cmd(path: &str, vs: usize, ve: usize) -> (r: String)
    ensures
        r@ == spec_view_cmd(path@, vs as nat, ve as nat),
{
    let mut s = build_cat_cmd(path);
    s.append(" | sed -n '");
    crate::helpers::append_dec(&mut s, vs);
    s.append(",");
    crate::helpers::append_dec(&mut s, ve);
    s.append("p'");
    proof {
        reveal_strlit(" | sed -n '");
        reveal_strlit(",");
        reveal_strlit("p'");
        assert(" | sed -n '"@ =~= seq![' ', '|', ' ', 's', 'e', 'd', ' ', '-', 'n', ' ', '\'']);
        assert(","@ =~= seq![',']);
        assert("p'"@ =~= seq!['p', '\'']);
    }
    s
}

/// Build a fenced bash block of the cleaned command.
fn build_bash_block(cmd: &str) -> (r: String)
    ensures
        r@ == spec_bash_block(cmd@),
{
    let cleaned = crate::helpers::clean_text(cmd);
    let r = crate::helpers::fenced_block(Some("bash"), cleaned.as_str());
    proof {
        reveal_strlit("bash");
        assert("bash"@ =~= bash_tag());
    }
    r
}

/// The opening of every in-place sed command: `sed -i '`.
pub open spec fn sed_open() -> Seq<char> {
    seq!['s', 'e', 'd', ' ', '-', 'i', ' ', '\'']
}

/// Escaped replacement lines joined by LF, as placed inside a sed script.
pub open spec fn spec_sed_payload(lines: Seq<Seq<char>>) -> Seq<char> {
    crate::textspec::spec_join(
        lines.map_values(|l: Seq<char>| crate::textspec::spec_escape_sed(l)),
        seq!['\n'],
    )
}

/// `sed -i '<n>i\<payload>' <path>`: insert before line `n`.
pub open spec fn spec_sed_insert(n: nat, payload: Seq<char>, path: Seq<char>) -> Seq<char> {
    sed_open() + crate::textspec::spec_dec(n) + seq!['i', '\\', '\n'] + payload + seq!['\'', ' ']
        + path
}

/// `sed -i '$a\<payload>' <path>`: append at end of file.
pub open spec fn spec_sed_append(payload: Seq<char>, path: Seq<char>) -> Seq<char> {
    sed_open() + seq!['$', 'a', '\\', '\n'] + payload + seq!['\'', ' '] + path
}

/// `sed -i '<s>,<e>d' <path>`: delete the line range.
pub open spec fn spec_sed_delete(s: nat, e: nat, path: Seq<char>) -> Seq<char> {
    sed_open() + crate::textspec::spec_dec(s) + seq![','] + crate::textspec::spec_dec(e) + seq![
        'd',
        '\'',
        ' ',
    ] + path
}

/// `sed -i '<s>,<e>c\<payload>' <path>`: replace the line range.
pub open spec fn spec_sed_replace(s: nat, e: nat, payload: Seq<char>, path: Seq<char>) -> Seq<
    char,
> {
    sed_open() + crate::textspec::spec_dec(s) + seq![','] + crate::textspec::spec_dec(e) + seq![
        'c',
        '\\',
        '\n',
    ] + payload + seq!['\'', ' '] + path
}

/// The sed command the matcher's block translates to: the block's 1-based
/// coordinates select insertion, deletion or replacement, with the
/// replacement lines drawn from the new text.
pub open spec fn spec_sed_cmd(
    blk: (int, int, int, int),
    after_lines: Seq<Seq<char>>,
    before_split_lines: nat,
    path: Seq<char>,
) -> Seq<char> {
    let payload = spec_sed_payload(after_lines.subrange(blk.2 - 1, blk.3));
    if blk.1 < blk.0 {
        if blk.0 <= before_split_lines {
            spec_sed_insert(blk.0 as nat, payload, path)
        } else {
            spec_sed_append(payload, path)
        }
    } else if blk.3 < blk.2 {
        spec_sed_delete(blk.0 as nat, blk.1 as nat, path)
    } else {
        spec_sed_replace(blk.0 as nat, blk.1 as nat, payload, path)
    }
}

/// The sed command a changed block translates to, given the split line
/// count of the old text.
pub open spec fn spec_sed_for_block(
    cb: ChangedBlock,
    before_split_lines: nat,
    path: Seq<char>,
) -> Seq<char> {
    let payload = spec_sed_payload(cb.replacement_lines.deep_view());
    if cb.end_before < cb.start_before {
        if cb.start_before <= (if before_split_lines > 1 { before_split_lines } else { 1 }) {
            spec_sed_insert(cb.start_before as nat, payload, path)
        } else {
            spec_sed_append(payload, path)
        }
    } else if cb.replacement_lines.deep_view().len() == 0 {
        spec_sed_delete(cb.start_before as nat, cb.end_before as nat, path)
    } else {
        spec_sed_replace(cb.start_before as nat, cb.end_before as nat, payload, path)
    }
}

/// Escape each replacement line and join with LF.
fn build_sed_payload(lines: &Vec<String>) -> (r: String)
    ensures
        r@ == spec_sed_payload(lines.deep_view()),
{
    let m = lines.len();
    let mut mapped: Vec<String> = Vec::new();
    let mut k: usize = 0;
    while k < m
        invariant
            k <= m,
            m == lines@.len(),
            mapped.deep_view() =~~= lines.deep_view().take(k as int).map_values(
                |l: Seq<char>| crate::textspec::spec_escape_sed(l),
            ),
        decreases m - k,
    {
        let ghost mapped0 = mapped.deep_view();
        let piece = crate::helpers::escape_single_quotes_for_sed(lines[k].as_str());
        let ghost pv = piece@;
        mapped.push(piece);
        proof {
            let f = |l: Seq<char>| crate::textspec::spec_escape_sed(l);
            assert(mapped.deep_view() =~~= mapped0.push(pv));
            assert(lines.deep_view().take(k as int + 1).map_values(f) =~~= lines.deep_view(
            ).take(k as int).map_values(f).push(f(lines.deep_view()[k as int])));
        }
        k = k + 1;
    }
    proof {
        assert(lines.deep_view().take(m as int) =~~= lines.deep_view());
    }
    crate::helpers::join_with_nl(&mapped)
}

/// Build the in-place sed command for a changed block, given the LF count
/// of the old text (the split line count minus one).
fn build_sed_command(changed: &ChangedBlock, before_nl_count: usize, target_file: &str) -> (r:
    String)
    ensures
        r@ == spec_sed_for_block(
            *changed,
            (before_nl_count + 1) as nat,
            target_file@,
        ),
{
    let payload = build_sed_payload(&changed.replacement_lines);
    let mut sed_cmd = String::from_str("sed -i '");
    proof {
        reveal_strlit("sed -i '");
        assert("sed -i '"@ =~= sed_open());
    }
    if changed.end_before < changed.start_before {
        // Pure insertion.
        if changed.start_before <= 1 || changed.start_before - 1 <= before_nl_count {
            crate::helpers::append_dec(&mut sed_cmd, changed.start_before);
            sed_cmd.append("i\\\n");
            sed_cmd.append(payload.as_str());
            sed_cmd.append("' ");
            sed_cmd.append(target_file);
            proof {
                reveal_strlit("i\\\n");
                reveal_strlit("' ");
                assert("i\\\n"@ =~= seq!['i', '\\', '\n']);
                assert("' "@ =~= seq!['\'', ' ']);
            }
        } else {
            sed_cmd.append("$a\\\n");
            sed_cmd.append(payload.as_str());
            sed_cmd.append("' ");
            sed_cmd.append(target_file);
            proof {
                reveal_strlit("$a\\\n");
                reveal_strlit("' ");
                assert("$a\\\n"@ =~= seq!['$', 'a', '\\', '\n']);
                assert("' "@ =~= seq!['\'', ' ']);
            }
        }
    } else if changed.replacement_lines.len() == 0 {
        // Pure deletion.
        crate::helpers::append_dec(&mut sed_cmd, changed.start_before);
        sed_cmd.append(",");
        crate::helpers::append_dec(&mut sed_cmd, changed.end_before);
        sed_cmd.append("d' ");
        sed_cmd.append(target_file);
        proof {
            reveal_strlit(",");
            reveal_strlit("d' ");
            assert(","@ =~= seq![',']);
            assert("d' "@ =~= seq!['d', '\'', ' ']);
        }
    } else {
        // Replacement.
        crate::helpers::append_dec(&mut sed_cmd, changed.start_before);
        sed_cmd.append(",");
        crate::helpers::append_dec(&mut sed_cmd, changed.end_before);
        sed_cmd.append("c\\\n");
        sed_cmd.append(payload.as_str());
        sed_cmd.append("' ");
        sed_cmd.append(target_file);
        proof {
            reveal_strlit(",");
            reveal_strlit("c\\\n");
            reveal_strlit("' ");
            assert(","@ =~= seq![',']);
            assert("c\\\n"@ =~= seq!['c', '\\', '\n']);
            assert("' "@ =~= seq!['\'', ' ']);
        }
    }
    sed_cmd
}

/// Position of the first single quote at or after `i`.
pub open spec fn spec_first_quote(s: Seq<char>, i: nat) -> Option<int>
    decreases s.len() - i,
{
    if i >= s.len() {
        None
    } else if s[i as int] == '\'' {
        Some(i as int)
    } else {
        spec_first_quote(s, i + 1)
    }
}

/// Surrounding whitespace removed.
pub open spec fn spec_trim_ws(s: Seq<char>) -> Seq<char> {
    crate::textspec::spec_trim_start(crate::textspec::spec_trim_end(s))
}

/// The branch name of the first `to '<name>'` match with a non-empty
/// capture, trimmed; `None` when no such match exists.
pub open spec fn spec_extract_branch(s: Seq<char>) -> Option<Seq<char>>
    decreases s.len(),
{
    if s.len() < 5 {
        None
    } else if s[0] == 't' && s[1] == 'o' && s[2] == ' ' && s[3] == '\'' && s[4] != '\''
        && spec_first_quote(s, 5) is Some {
        Some(spec_trim_ws(s.subrange(4, spec_first_quote(s, 5)->0)))
    } else {
        spec_extract_branch(s.skip(1))
    }
}

/// A character a branch name may carry unquoted: letters, digits, and
/// `.`, `_`, `/`, `-`.
pub open spec fn spec_branch_char_ok(c: char) -> bool {
    (0x41 <= (c as u32) && (c as u32) <= 0x5A) || (0x61 <= (c as u32) && (c as u32) <= 0x7A)
        || (0x30 <= (c as u32) && (c as u32) <= 0x39) || c == '.' || c == '_' || c == '/' || c
        == '-'
}

/// Every character of the branch name may stand unquoted.
pub open spec fn spec_branch_ok(s: Seq<char>) -> bool {
    forall|i: int| 0 <= i < s.len() ==> spec_branch_char_ok(#[trigger] s[i])
}

/// The inside of a shell-quoted branch name: each single quote becomes the
/// quote-switching idiom.
pub open spec fn spec_quote_inner(s: Seq<char>) -> Seq<char>
    decreases s.len(),
{
    if s.len() == 0 {
        s
    } else {
        spec_quote_inner(s.drop_last()) + (if s.last() == '\'' {
            seq!['\'', '"', '\'', '"', '\'']
        } else {
            seq![s.last()]
        })
    }
}

/// A branch name wrapped in single quotes with embedded quotes switched.
pub open spec fn spec_shell_quote(s: Seq<char>) -> Seq<char> {
    seq!['\''] + spec_quote_inner(s) + seq!['\'']
}

/// The `git checkout` command emitted for an extracted branch name.
pub open spec fn spec_checkout_cmd(name: Seq<char>) -> Seq<char> {
    seq!['g', 'i', 't', ' ', 'c', 'h', 'e', 'c', 'k', 'o', 'u', 't', ' '] + (if spec_branch_ok(
        name,
    ) {
        name
    } else {
        spec_shell_quote(name)
    })
}

/// Extract the branch name from a `to '<name>'` pattern: the first position
/// where the pattern matches with a non-empty capture, trimmed of
/// surrounding whitespace.
fn extract_branch_name(s: &str) -> (r: Option<String>)
    ensures
        r is Some <==> spec_extract_branch(s@) is Some,
        r is Some ==> r->0@ == spec_extract_branch(s@)->0,
{
    let n = s.unicode_len();
    let mut i: usize = 0;
    proof {
        assert(s@.skip(0) =~= s@);
    }
    while i < n
        invariant
            i <= n,
            n == s@.len(),
            spec_extract_branch(s@) == spec_extract_branch(s@.skip(i as int)),
        decreases n - i,
    {
        let ghost rem = s@.skip(i as int);
        if n - i > 4 && s.get_char(i) == 't' && s.get_char(i + 1) == 'o' && s.get_char(i + 2)
            == ' ' && s.get_char(i + 3) == '\'' && s.get_char(i + 4) != '\'' {
            let mut j = i + 5;
            while j < n && s.get_char(j) != '\''
                invariant
                    i + 5 <= j <= n,
                    n == s@.len(),
                    rem == s@.skip(i as int),
                    i < n,
                    spec_first_quote(rem, 5) == spec_first_quote(rem, (j - i) as nat),
                decreases n - j,
            {
                j = j + 1;
            }
            if j < n {
                let captured = s.substring_char(i + 4, j);
                let trimmed = trim_ws_both(captured.to_owned().as_str());
                proof {
                    assert(captured@ =~= rem.subrange(4, (j - i) as int));
                    assert(spec_first_quote(rem, (j - i) as nat) == Some((j - i) as int));
                    assert(spec_extract_branch(rem) == Some(
                        spec_trim_ws(rem.subrange(4, spec_first_quote(rem, 5)->0)),
                    ));
                }
                return Some(trimmed);
            }
            proof {
                assert(spec_first_quote(rem, (j - i) as nat) is None);
                assert(rem.skip(1) =~= s@.skip(i as int + 1));
            }
        } else {
            proof {
                assert(s@.skip(i as int).skip(1) =~= s@.skip(i as int + 1));
            }
        }
        i = i + 1;
    }
    proof {
        assert(s@.skip(n as int).len() == 0);
    }
    None
}

/// Trim leading and trailing whitespace.
#[verifier::rlimit(50)]
fn trim_ws_both(s: &str) -> (r: String)
    ensures
        r@ == spec_trim_ws(s@),
{
    let n = s.unicode_len();
    let mut a: usize = 0;
    while a < n && is_ws_char(s.get_char(a))
        invariant
            a <= n,
            n == s@.len(),
            forall|k: int| 0 <= k < a ==> crate::textspec::spec_is_ws(#[trigger] s@[k]),
        decreases n - a,
    {
        a = a + 1;
    }
    let mut b = n;
    proof {
        assert(s@.take(n as int) =~= s@);
    }
    while b > a && is_ws_char(s.get_char(b - 1))
        invariant
            a <= b <= n,
            n == s@.len(),
            crate::textspec::spec_trim_end(s@) == crate::textspec::spec_trim_end(
                s@.take(b as int),
            ),
            forall|k: int| 0 <= k < a ==> crate::textspec::spec_is_ws(#[trigger] s@[k]),
            forall|k: int| b <= k < n ==> crate::textspec::spec_is_ws(#[trigger] s@[k]),
            a < n ==> !crate::textspec::spec_is_ws(s@[a as int]),
        decreases b,
    {
        proof {
            assert(s@.take(b as int).drop_last() =~= s@.take(b as int - 1));
        }
        b = b - 1;
    }
    let r = s.substring_char(a, b).to_owned();
    proof {
        if a == n {
            assert(b == a);
            crate::textspec::lemma_trim_end_all_ws(s@);
            assert(crate::textspec::spec_trim_end(s@) =~= Seq::<char>::empty());
            assert(spec_trim_ws(s@) =~= Seq::<char>::empty());
            assert(r@ =~= Seq::<char>::empty());
        } else {
            if b == a {
                assert(crate::textspec::spec_is_ws(s@[a as int]));
                assert(false);
            }
            assert(!crate::textspec::spec_is_ws(s@[b - 1]));
            assert(s@.take(b as int).last() == s@[b - 1]);
            assert(crate::textspec::spec_trim_end(s@.take(b as int)) == s@.take(b as int));
            assert forall|k: int| 0 <= k < a implies crate::textspec::spec_is_ws(
                #[trigger] s@.take(b as int)[k],
            ) by {
                assert(s@.take(b as int)[k] == s@[k]);
            }
            crate::textspec::lemma_trim_start_prefix(s@.take(b as int), a as nat);
            assert(r@ =~= s@.take(b as int).skip(a as int));
        }
    }
    r
}

/// Whether `c` is a whitespace character.
fn is_ws_char(c: char) -> (b: bool)
    ensures
        b == crate::textspec::spec_is_ws(c),
{
    let u = c as u32;
    u == 0x0009 || u == 0x000A || u == 0x000B || u == 0x000C || u == 0x000D || u == 0x0020
        || u == 0x0085 || u == 0x00A0 || u == 0x1680 || (0x2000 <= u && u <= 0x200A)
        || u == 0x2028 || u == 0x2029 || u == 0x202F || u == 0x205F || u == 0x3000
}

/// Whether the branch name holds a character outside `[A-Za-z0-9._/-]`.
fn branch_needs_quoting(s: &str) -> (r: bool)
    ensures
        r == !spec_branch_ok(s@),
{
    let n = s.unicode_len();
    let mut i: usize = 0;
    while i < n
        invariant
            i <= n,
            n == s@.len(),
            forall|k: int| 0 <= k < i ==> spec_branch_char_ok(#[trigger] s@[k]),
        decreases n - i,
    {
        let c = s.get_char(i);
        let u = c as u32;
        let ok = (0x41 <= u && u <= 0x5A) || (0x61 <= u && u <= 0x7A) || (0x30 <= u && u
            <= 0x39) || c == '.' || c == '_' || c == '/' || c == '-';
        if !ok {
            return true;
        }
        i = i + 1;
    }
    false
}

/// Wrap a branch name in single quotes, switching quote style around any
/// embedded single quotes.
fn shell_quote(s: &str) -> (r: String)
    ensures
        r@ == spec_shell_quote(s@),
{
    let mut out = String::from_str("'");
    proof {
        reveal_strlit("'");
        assert("'"@ =~= seq!['\'']);
    }
    let n = s.unicode_len();
    let mut i: usize = 0;
    while i < n
        invariant
            i <= n,
            n == s@.len(),
            out@ == seq!['\''] + spec_quote_inner(s@.take(i as int)),
        decreases n - i,
    {
        proof {
            assert(s@.take(i as int + 1).drop_last() =~= s@.take(i as int));
        }
        if s.get_char(i) == '\'' {
            out.append("'\"'\"'");
            proof {
                reveal_strlit("'\"'\"'");
                assert("'\"'\"'"@ =~= seq!['\'', '"', '\'', '"', '\'']);
            }
        } else {
            let piece = s.substring_char(i, i + 1);
            proof {
                assert(s@.subrange(i as int, i as int + 1) =~= seq![s@[i as int]]);
            }
            out.append(piece);
        }
        i = i + 1;
    }
    out.append("'");
    proof {
        reveal_strlit("'");
        assert(s@.take(n as int) =~= s@);
    }
    out
}

} // verus!
