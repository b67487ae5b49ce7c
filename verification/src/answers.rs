//! What the library asks its caller to look up, and what the caller answered.
//!
//! The library reads no file and runs no code of the caller. A function that
//! needs something from outside looks for it in the `Answers` that it was
//! given, and returns the first `Request` that they leave open. The caller
//! performs it, records what came back, and calls again.

use vstd::prelude::*;

use crate::error::{InvalidRequest, InvalidRequestView};
use crate::path::{ComponentView, PathComponent, PathRecord, PathView};
use crate::protocol::{
    InitialHistory, ItemView, MetaLineView, ResponseItem, ResponseView, RolloutItem,
    SessionMetaLine, ThreadId,
};
use crate::table::Table;

verus! {

/// Something that the caller is to look up.
#[derive(Debug)]
pub enum Request {
    /// Load the history that the rollout at `path` records.
    RolloutHistory { path: PathRecord },
    /// Read the session metadata that the rollout at `path` opens with.
    SessionMeta { path: PathRecord },
    /// Find the rollout of a thread among those under `codex_home`.
    ThreadPath { codex_home: Vec<PathComponent>, thread_id: ThreadId },
    /// Collect the messages of the user in `history`.
    UserMessages { history: Vec<ResponseItem> },
    /// Build the history that takes the place of one with these messages of the
    /// user when it is compacted with the summary `message`. It is built from
    /// nothing but these.
    CompactedHistory { user_messages: Vec<String>, message: String },
    /// Tell which threads the rollout with these items was merged from.
    MergedFromThreadIds { items: Vec<RolloutItem> },
}

/// What the caller has looked up so far.
#[derive(Debug)]
pub struct Answers {
    pub rollout_histories: Table<PathRecord, InitialHistory>,
    pub session_metas: Table<PathRecord, SessionMetaLine>,
    pub thread_paths: Table<(Vec<PathComponent>, ThreadId), Option<PathRecord>>,
    pub user_messages: Table<Vec<ResponseItem>, Vec<String>>,
    pub compacted_histories: Table<(Vec<String>, String), Vec<ResponseItem>>,
    pub merged_from_thread_ids: Table<Vec<RolloutItem>, Vec<ThreadId>>,
}

/// Why a function stopped without a result.
#[derive(Debug)]
pub enum Halt {
    /// The caller's request is refused.
    Rejected(InvalidRequest),
    /// The answers leave this open.
    Asks(Request),
}

/// The deep view of a `Request`.
#[verifier::ext_equal]
pub enum RequestView {
    RolloutHistory { path: PathView },
    SessionMeta { path: PathView },
    ThreadPath { codex_home: Seq<ComponentView>, thread_id: Seq<char> },
    UserMessages { history: Seq<ResponseView> },
    CompactedHistory { user_messages: Seq<Seq<char>>, message: Seq<char> },
    MergedFromThreadIds { items: Seq<ItemView> },
}

/// The deep view of `Answers`.
pub struct AnswersView {
    pub rollout_histories: Map<PathView, Seq<ItemView>>,
    pub session_metas: Map<PathView, MetaLineView>,
    pub thread_paths: Map<(Seq<ComponentView>, Seq<char>), Option<PathView>>,
    pub user_messages: Map<Seq<ResponseView>, Seq<Seq<char>>>,
    pub compacted_histories: Map<(Seq<Seq<char>>, Seq<char>), Seq<ResponseView>>,
    pub merged_from_thread_ids: Map<Seq<ItemView>, Seq<Seq<char>>>,
}

/// The deep view of a `Halt`.
#[verifier::ext_equal]
pub enum HaltView {
    Rejected(InvalidRequestView),
    Asks(RequestView),
}

impl DeepView for Request {
    type V = RequestView;

    open spec fn deep_view(&self) -> RequestView {
        match self {
            Request::RolloutHistory { path } => RequestView::RolloutHistory {
                path: path.deep_view(),
            },
            Request::SessionMeta { path } => RequestView::SessionMeta { path: path.deep_view() },
            Request::ThreadPath { codex_home, thread_id } => RequestView::ThreadPath {
                codex_home: codex_home.deep_view(),
                thread_id: thread_id.deep_view(),
            },
            Request::UserMessages { history } => RequestView::UserMessages {
                history: history.deep_view(),
            },
            Request::CompactedHistory { user_messages, message } => RequestView::CompactedHistory {
                user_messages: user_messages.deep_view(),
                message: message.deep_view(),
            },
            Request::MergedFromThreadIds { items } => RequestView::MergedFromThreadIds {
                items: items.deep_view(),
            },
        }
    }
}

impl DeepView for Answers {
    type V = AnswersView;

    open spec fn deep_view(&self) -> AnswersView {
        AnswersView {
            rollout_histories: self.rollout_histories.deep_view(),
            session_metas: self.session_metas.deep_view(),
            thread_paths: self.thread_paths.deep_view(),
            user_messages: self.user_messages.deep_view(),
            compacted_histories: self.compacted_histories.deep_view(),
            merged_from_thread_ids: self.merged_from_thread_ids.deep_view(),
        }
    }
}

impl DeepView for Halt {
    type V = HaltView;

    open spec fn deep_view(&self) -> HaltView {
        match self {
            Halt::Rejected(error) => HaltView::Rejected(error.deep_view()),
            Halt::Asks(request) => HaltView::Asks(request.deep_view()),
        }
    }
}

impl AnswersView {
    /// Whether `request` has been answered.
    pub open spec fn answered(self, request: RequestView) -> bool {
        match request {
            RequestView::RolloutHistory { path } => self.rollout_histories.contains_key(path),
            RequestView::SessionMeta { path } => self.session_metas.contains_key(path),
            RequestView::ThreadPath { codex_home, thread_id } => self.thread_paths.contains_key(
                (codex_home, thread_id),
            ),
            RequestView::UserMessages { history } => self.user_messages.contains_key(history),
            RequestView::CompactedHistory {
                user_messages,
                message,
            } => self.compacted_histories.contains_key((user_messages, message)),
            RequestView::MergedFromThreadIds { items } => self.merged_from_thread_ids.contains_key(
                items,
            ),
        }
    }

    /// Whether `later` holds all these answers, and perhaps more.
    pub open spec fn extended_by(self, later: AnswersView) -> bool {
        &&& self.rollout_histories.submap_of(later.rollout_histories)
        &&& self.session_metas.submap_of(later.session_metas)
        &&& self.thread_paths.submap_of(later.thread_paths)
        &&& self.user_messages.submap_of(later.user_messages)
        &&& self.compacted_histories.submap_of(later.compacted_histories)
        &&& self.merged_from_thread_ids.submap_of(later.merged_from_thread_ids)
    }
}

impl Answers {
    /// No answer yet.
    pub fn new() -> (result: Self)
        ensures
            forall|request: RequestView| !#[trigger] result.deep_view().answered(request),
    {
        Answers {
            rollout_histories: Table::new(),
            session_metas: Table::new(),
            thread_paths: Table::new(),
            user_messages: Table::new(),
            compacted_histories: Table::new(),
            merged_from_thread_ids: Table::new(),
        }
    }
}

} // verus!
