//! Joining the recorded histories of conversation threads.
//!
//! A thread is recorded as a rollout: a list of items, of which the turns of
//! the conversation are played back. A thread can be forked from another, and
//! what its descendants have said can be merged back into it
//! ([`thread_merge`]); or whole histories can be put behind one another
//! ([`thread_combine`]). [`thread_workspace`] tells where threads work.
//!
//! Nothing here reads a file. What is needed from outside is asked for, and
//! answered by the caller ([`answers`]).

pub mod answer_laws;
pub mod answers;
pub mod combine_item_laws;
pub mod combine_laws;
pub mod descent_laws;
pub mod error;
pub mod lineage;
pub mod merge_item_laws;
pub mod merge_laws;
pub mod order_laws;
pub mod path;
pub mod playback_laws;
pub mod protocol;
pub mod same_value;
pub mod table;
pub mod thread_combine;
pub mod thread_merge;
pub mod thread_workspace;
pub mod turn_laws;
pub mod turns;
pub mod view_laws;
pub mod workspace_laws;
