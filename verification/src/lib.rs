//! Block model and editing logic of a block-swap live-preview editor.
use vstd::prelude::*;

pub mod text;
pub mod blocks;
pub mod block_laws;
pub mod normal_form;
pub mod autocomplete;
pub mod positions;
pub mod keys;
pub mod editor;
pub mod keyboard;

verus! {

} // verus!

pub use autocomplete::{apply_completion, find_trigger, CompletionItem, KeyOutcome, TriggerMatch};
pub use blocks::{
    delete_and_normalize, frontmatter_len, insert_after_and_normalize, is_closing_fence,
    join_blocks, normalize_body, open_fence, rejoin_normalized, split_blocks, Block,
};
