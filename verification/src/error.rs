//! The requests that are refused.

use vstd::prelude::*;
use vstd::string::StringExecFns;

use crate::protocol::ThreadId;

verus! {

/// A request that cannot be carried out, and why.
#[derive(Debug, PartialEq, Eq)]
pub enum InvalidRequest {
    /// A thread was named twice as the source of a merge.
    DuplicateMergeSource { thread_id: ThreadId },
    /// The source of a merge is not a descendant of its base.
    NotDescendant { thread_id: ThreadId, base_thread_id: ThreadId },
    /// The rollout of the base does not open with session metadata.
    MissingBaseMeta { path: String },
    /// A path is too short to be that of a rollout.
    NoCodexHome { path: String },
    /// A thread was named twice as the source of a combination.
    DuplicateCombineSource { thread_id: ThreadId },
    /// The rollout of a source does not open with session metadata.
    MissingSourceMeta { path: String },
    /// The rollout of a source is that of another thread.
    SourceIdMismatch { thread_id: ThreadId, session_id: ThreadId, path: String },
}

/// The deep view of an `InvalidRequest`.
#[verifier::ext_equal]
pub enum InvalidRequestView {
    DuplicateMergeSource { thread_id: Seq<char> },
    NotDescendant { thread_id: Seq<char>, base_thread_id: Seq<char> },
    MissingBaseMeta { path: Seq<char> },
    NoCodexHome { path: Seq<char> },
    DuplicateCombineSource { thread_id: Seq<char> },
    MissingSourceMeta { path: Seq<char> },
    SourceIdMismatch { thread_id: Seq<char>, session_id: Seq<char>, path: Seq<char> },
}

impl DeepView for InvalidRequest {
    type V = InvalidRequestView;

    open spec fn deep_view(&self) -> InvalidRequestView {
        match self {
            InvalidRequest::DuplicateMergeSource { thread_id } =>
                InvalidRequestView::DuplicateMergeSource { thread_id: thread_id.deep_view() },
            InvalidRequest::NotDescendant { thread_id, base_thread_id } =>
                InvalidRequestView::NotDescendant {
                thread_id: thread_id.deep_view(),
                base_thread_id: base_thread_id.deep_view(),
            },
            InvalidRequest::MissingBaseMeta { path } => InvalidRequestView::MissingBaseMeta {
                path: path.deep_view(),
            },
            InvalidRequest::NoCodexHome { path } => InvalidRequestView::NoCodexHome {
                path: path.deep_view(),
            },
            InvalidRequest::DuplicateCombineSource { thread_id } =>
                InvalidRequestView::DuplicateCombineSource { thread_id: thread_id.deep_view() },
            InvalidRequest::MissingSourceMeta { path } => InvalidRequestView::MissingSourceMeta {
                path: path.deep_view(),
            },
            InvalidRequest::SourceIdMismatch { thread_id, session_id, path } =>
                InvalidRequestView::SourceIdMismatch {
                thread_id: thread_id.deep_view(),
                session_id: session_id.deep_view(),
                path: path.deep_view(),
            },
        }
    }
}

impl InvalidRequestView {
    /// The words in which the refusal is told.
    pub open spec fn message(self) -> Seq<char> {
        match self {
            InvalidRequestView::DuplicateMergeSource { thread_id } => "duplicate merge source id "@
                + thread_id,
            InvalidRequestView::NotDescendant { thread_id, base_thread_id } => "thread "@
                + thread_id + " is not a descendant of "@ + base_thread_id,
            InvalidRequestView::MissingBaseMeta { path } =>
                "missing session metadata in base rollout `"@ + path + "`"@,
            InvalidRequestView::NoCodexHome { path } =>
                "failed to derive codex home from rollout `"@ + path + "`"@,
            InvalidRequestView::DuplicateCombineSource { thread_id } =>
                "duplicate combine source id "@ + thread_id,
            InvalidRequestView::MissingSourceMeta { path } =>
                "missing session metadata in combine source rollout `"@ + path + "`"@,
            InvalidRequestView::SourceIdMismatch { thread_id, session_id, path } =>
                "combine source id "@ + thread_id + " does not match rollout session id "@
                + session_id + " for `"@ + path + "`"@,
        }
    }
}

impl InvalidRequest {
    /// The words in which the refusal is told.
    pub fn message(&self) -> (result: String)
        ensures
            result@ == self.deep_view().message(),
    {
        match self {
            InvalidRequest::DuplicateMergeSource { thread_id } => {
                "duplicate merge source id ".to_owned().concat(thread_id.text.as_str())
            },
            InvalidRequest::NotDescendant { thread_id, base_thread_id } => {
                "thread ".to_owned().concat(thread_id.text.as_str()).concat(
                    " is not a descendant of ",
                ).concat(base_thread_id.text.as_str())
            },
            InvalidRequest::MissingBaseMeta { path } => {
                "missing session metadata in base rollout `".to_owned().concat(
                    path.as_str(),
                ).concat("`")
            },
            InvalidRequest::NoCodexHome { path } => {
                "failed to derive codex home from rollout `".to_owned().concat(
                    path.as_str(),
                ).concat("`")
            },
            InvalidRequest::DuplicateCombineSource { thread_id } => {
                "duplicate combine source id ".to_owned().concat(thread_id.text.as_str())
            },
            InvalidRequest::MissingSourceMeta { path } => {
                "missing session metadata in combine source rollout `".to_owned().concat(
                    path.as_str(),
                ).concat("`")
            },
            InvalidRequest::SourceIdMismatch { thread_id, session_id, path } => {
                "combine source id ".to_owned().concat(thread_id.text.as_str()).concat(
                    " does not match rollout session id ",
                ).concat(session_id.text.as_str()).concat(" for `").concat(path.as_str()).concat(
                    "`",
                )
            },
        }
    }
}

} // verus!
