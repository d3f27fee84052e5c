//! Conversation serialization of IDE interaction traces.
//!
//! The library turns an ordered stream of editor events (tab switches, text
//! edits, cursor moves, terminal activity, branch checkouts) into a bounded,
//! chunked shell transcript: alternating assistant (bash command) and user
//! (command stdout) messages suitable as training records.

use vstd::prelude::*;
use vstd::string::StringSliceAdditionalSpecFns;

pub mod conversation;
pub mod diff;
pub mod helpers;
pub mod prompt;
pub mod textspec;

pub use conversation::{
    ConversationMessage, ConversationStateManager, ConversationStateManagerConfig,
    FinalizedConversation,
};
pub use diff::{compute_changed_block_lines, ChangedBlock};
pub use prompt::default_system_prompt;
pub use helpers::{
    apply_backspaces, apply_change, clean_text, escape_single_quotes_for_sed, fenced_block,
    floor_char_boundary, line_numbered_output, normalize_terminal_output,
    serialize_compute_viewport, Viewport,
};

verus! {

/// Token counting and truncation, provided by the caller.
///
/// Implementors promise through `spec_count` what their counting returns,
/// and that truncation really brings a text under the requested budget. An
/// exact subword tokenizer and a character-based approximation both fit.
pub trait Tokenizer: Sized {
    /// The token count this tokenizer assigns to a text.
    spec fn spec_count(&self, text: Seq<char>) -> nat;

    /// Count the number of tokens in the given text.
    fn count_tokens(&self, text: &str) -> (r: usize)
        ensures
            r as nat == self.spec_count(text@),
    ;

    /// Truncate text to at most `max_tokens` tokens.
    fn truncate_to_max_tokens(&self, text: &str, max_tokens: usize) -> (r: String)
        ensures
            self.spec_count(r@) <= max_tokens as nat,
    ;
}

/// Character-based approximate tokenizer: one token per four bytes of UTF-8.
///
/// Truncation keeps the longest prefix of at most four times `max_tokens`
/// bytes that ends on a character boundary.
pub struct CharApproxTokenizer;

impl Tokenizer for CharApproxTokenizer {
    open spec fn spec_count(&self, text: Seq<char>) -> nat {
        vstd::utf8::encode_utf8(text).len() / 4
    }

    fn count_tokens(&self, text: &str) -> (r: usize)
        ensures
            r as nat == self.spec_count(text@),
    {
        text.as_bytes().len() / 4
    }

    fn truncate_to_max_tokens(&self, text: &str, max_tokens: usize) -> (r: String)
        ensures
            self.spec_count(r@) <= max_tokens as nat,
    {
        let limit = if max_tokens > usize::MAX / 4 {
            usize::MAX
        } else {
            max_tokens * 4
        };
        let nb = text.as_bytes().len();
        if nb <= limit {
            return text.to_owned();
        }
        let mid = helpers::floor_char_boundary(text, limit);
        let pair = text.split_at(mid);
        pair.0.to_owned()
    }
}

/// Default viewport radius (lines above and below the focus line to show).
pub const VIEWPORT_RADIUS: usize = 10;

/// Default coalesce radius for grouping nearby edits.
pub const COALESCE_RADIUS: usize = 5;

/// Default maximum tokens per message.
pub const MAX_TOKENS_PER_MESSAGE: usize = 2048;

/// Default maximum tokens per terminal output.
pub const MAX_TOKENS_PER_TERMINAL_OUTPUT: usize = 256;

} // verus!
