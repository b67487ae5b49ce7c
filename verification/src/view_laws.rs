//! The views leave nothing out: of every value that the library works on they
//! show each part, so that values are told apart by all of them.

use vstd::prelude::*;

use crate::answers::{Answers, AnswersView, Halt, HaltView, Request, RequestView};
use crate::error::{InvalidRequest, InvalidRequestView};
use crate::path::{ComponentView, PathComponent, PathRecord};
use crate::protocol::{
    BodyView, CompactedItem, ContentItem, ContentView, EventMsg, EventView, InitialHistory,
    ItemView, ResponseBody, ResponseItem, RolloutItem, SessionMeta, SessionMetaLine, ThreadId,
};
use crate::same_value::result_view;
use crate::thread_combine::CombineSource;
use crate::thread_merge::MergeSource;
use crate::thread_workspace::{
    RecordedCwd, RecordedCwdView, ResolvedPath, RolloutCwd, RolloutCwdView, Workspace,
};
use crate::turns::EffectiveTurn;

verus! {

/// Two ids are the same where their texts are.
pub proof fn lemma_thread_id_view(a: ThreadId, b: ThreadId)
    ensures
        a.deep_view() == a.text@,
        a.deep_view() == b.deep_view() <==> a.text@ == b.text@,
{
}

/// A path shows how it is displayed, and each of its components.
pub proof fn lemma_path_view(path: PathRecord)
    ensures
        path.deep_view().text == path.text@,
        path.deep_view().components.len() == path.components@.len(),
        forall|i: int|
            0 <= i < path.components@.len() ==> #[trigger] path.deep_view().components[i]
                == path.components@[i].deep_view(),
{
}

/// A component shows what it is, and its name, byte for byte.
pub proof fn lemma_component_view(component: PathComponent)
    ensures
        match (component, component.deep_view()) {
            (PathComponent::Prefix(name), ComponentView::Prefix(shown)) => shown =~= name@,
            (PathComponent::RootDir, ComponentView::RootDir) => true,
            (PathComponent::CurDir, ComponentView::CurDir) => true,
            (PathComponent::ParentDir, ComponentView::ParentDir) => true,
            (PathComponent::Normal(name), ComponentView::Normal(shown)) => shown =~= name@,
            _ => false,
        },
{
}

/// A piece of content shows what it is, and its text.
pub proof fn lemma_content_view(content: ContentItem)
    ensures
        match (content, content.deep_view()) {
            (ContentItem::InputText { text }, ContentView::InputText { text: shown }) => shown
                == text@,
            (ContentItem::InputImage { image }, ContentView::InputImage { image: shown }) => shown
                == image@,
            (ContentItem::OutputText { text }, ContentView::OutputText { text: shown }) => shown
                == text@,
            _ => false,
        },
{
}

/// An optional text shows whether it is there, and what it is.
pub open spec fn shows_text(text: Option<String>, shown: Option<Seq<char>>) -> bool {
    match (text, shown) {
        (None, None) => true,
        (Some(text), Some(shown)) => shown == text@,
        _ => false,
    }
}

/// An optional id shows whether it is there, and what it is.
pub open spec fn shows_id(id: Option<ThreadId>, shown: Option<Seq<char>>) -> bool {
    match (id, shown) {
        (None, None) => true,
        (Some(id), Some(shown)) => shown == id.text@,
        _ => false,
    }
}

/// A response item shows whether the user wrote it, and every part of what it
/// says.
pub proof fn lemma_response_view(response: ResponseItem)
    ensures
        response.deep_view().user_message == response.user_message,
        match (response.body, response.deep_view().body) {
            (
                ResponseBody::Message { id, role, content, end_turn, phase },
                BodyView::Message {
                    id: shown_id,
                    role: shown_role,
                    content: shown_content,
                    end_turn: shown_end_turn,
                    phase: shown_phase,
                },
            ) => {
                &&& shows_text(id, shown_id)
                &&& shown_role == role@
                &&& shown_content.len() == content@.len()
                &&& forall|i: int|
                    0 <= i < content@.len() ==> #[trigger] shown_content[i]
                        == content@[i].deep_view()
                &&& shown_end_turn == end_turn
                &&& shows_text(phase, shown_phase)
            },
            (ResponseBody::Other { payload }, BodyView::Other { payload: shown }) => shown
                == payload@,
            _ => false,
        },
{
}

/// A compaction shows its summary, and whether it records its replacement, and
/// which.
pub proof fn lemma_compacted_view(compacted: CompactedItem)
    ensures
        compacted.deep_view().message == compacted.message@,
        match (compacted.replacement_history, compacted.deep_view().replacement_history) {
            (None, None) => true,
            (Some(history), Some(shown)) => shown.len() == history@.len() && forall|i: int|
                0 <= i < history@.len() ==> #[trigger] shown[i] == history@[i].deep_view(),
            _ => false,
        },
{
}

/// Session metadata show each of their parts.
pub proof fn lemma_meta_view(line: SessionMetaLine)
    ensures
        ({
            let meta = line.meta;
            let shown = line.deep_view().meta;
            &&& shows_text(line.git, line.deep_view().git)
            &&& shown.id == meta.id.text@
            &&& shows_id(meta.forked_from_id, shown.forked_from_id)
            &&& shows_id(meta.merge_base_thread_id, shown.merge_base_thread_id)
            &&& match (meta.merged_from_thread_ids, shown.merged_from_thread_ids) {
                (None, None) => true,
                (Some(ids), Some(shown)) => shown.len() == ids@.len() && forall|i: int|
                    0 <= i < ids@.len() ==> #[trigger] shown[i] == ids@[i].text@,
                _ => false,
            }
            &&& shown.cwd == meta.cwd.deep_view()
            &&& shown.details == meta.details@
        }),
{
}

/// An item shows what it is, and what it holds.
pub proof fn lemma_item_view(item: RolloutItem)
    ensures
        match (item, item.deep_view()) {
            (RolloutItem::SessionMeta(line), ItemView::SessionMeta(shown)) => shown
                == line.deep_view(),
            (RolloutItem::ResponseItem(response), ItemView::ResponseItem(shown)) => shown
                == response.deep_view(),
            (RolloutItem::Compacted(compacted), ItemView::Compacted(shown)) => shown
                == compacted.deep_view(),
            (RolloutItem::TurnContext { payload }, ItemView::TurnContext { payload: shown }) => shown
                == payload@,
            (
                RolloutItem::EventMsg(EventMsg::ThreadRolledBack(event)),
                ItemView::EventMsg(EventView::ThreadRolledBack { num_turns }),
            ) => num_turns == event.num_turns,
            (
                RolloutItem::EventMsg(EventMsg::Other { payload }),
                ItemView::EventMsg(EventView::Other { payload: shown }),
            ) => shown == payload@,
            (
                RolloutItem::MergeBoundary(boundary),
                ItemView::MergeBoundary { source_thread_id },
            ) => source_thread_id == boundary.source_thread_id.text@,
            _ => false,
        },
{
}

/// A list of items shows each of them, in order.
pub proof fn lemma_items_view(items: Vec<RolloutItem>)
    ensures
        items.deep_view().len() == items@.len(),
        forall|i: int|
            0 <= i < items@.len() ==> #[trigger] items.deep_view()[i] == items@[i].deep_view(),
{
}

/// A history shows all its items: none where it is new, and those that it was
/// resumed or forked with.
pub proof fn lemma_history_view(history: InitialHistory)
    ensures
        match history {
            InitialHistory::New => history.deep_view().len() == 0,
            InitialHistory::Resumed(resumed) => history.deep_view() == resumed.history.deep_view(),
            InitialHistory::Forked(items) => history.deep_view() == items.deep_view(),
        },
{
}

/// A turn shows where it starts, and all that was said in it.
pub proof fn lemma_turn_view(turn: EffectiveTurn)
    ensures
        turn.deep_view().start_idx == turn.start_idx,
        turn.deep_view().signature.len() == turn.signature@.len(),
        forall|i: int|
            0 <= i < turn.signature@.len() ==> #[trigger] turn.deep_view().signature[i]
                == turn.signature@[i].deep_view(),
{
}

/// A source shows its thread and its path.
pub proof fn lemma_source_views(merge: MergeSource, combine: CombineSource)
    ensures
        merge.deep_view().thread_id == merge.thread_id.text@,
        merge.deep_view().path == merge.path.deep_view(),
        combine.deep_view().thread_id == combine.thread_id.text@,
        combine.deep_view().path == combine.path.deep_view(),
{
}

/// A workspace shows its directory and its root, each as it is and normalized.
pub proof fn lemma_workspace_view(workspace: Workspace)
    ensures
        shows_resolved(workspace.cwd, workspace.deep_view().cwd),
        match (workspace.git_root, workspace.deep_view().git_root) {
            (None, None) => true,
            (Some(root), Some(shown)) => shows_resolved(root, shown),
            _ => false,
        },
{
}

/// Whether a directory is shown as it is and normalized.
pub open spec fn shows_resolved(
    path: ResolvedPath,
    shown: crate::thread_workspace::ResolvedView,
) -> bool {
    &&& shown.path == path.path.deep_view()
    &&& match (path.normalized, shown.normalized) {
        (None, None) => true,
        (Some(normalized), Some(shown)) => shown == normalized.deep_view(),
        _ => false,
    }
}

/// What is known of the directory of a thread is shown as it is.
pub proof fn lemma_cwd_views(rollout_cwd: RolloutCwd, recorded: RecordedCwd)
    ensures
        match (rollout_cwd, rollout_cwd.deep_view()) {
            (RolloutCwd::NotRead, RolloutCwdView::NotRead) => true,
            (RolloutCwd::Unreadable, RolloutCwdView::Unreadable) => true,
            (RolloutCwd::Read(cwd), RolloutCwdView::Read(shown)) => shown == cwd.deep_view(),
            _ => false,
        },
        match (recorded, recorded.deep_view()) {
            (RecordedCwd::ReadRollout, RecordedCwdView::ReadRollout) => true,
            (RecordedCwd::Found(cwd), RecordedCwdView::Found(shown)) => shown == cwd.deep_view(),
            (RecordedCwd::Unknown, RecordedCwdView::Unknown) => true,
            _ => false,
        },
{
}

/// A request shows what it asks for.
pub proof fn lemma_request_view(request: Request)
    ensures
        match (request, request.deep_view()) {
            (
                Request::RolloutHistory { path },
                RequestView::RolloutHistory { path: shown },
            ) => shown == path.deep_view(),
            (Request::SessionMeta { path }, RequestView::SessionMeta { path: shown }) => shown
                == path.deep_view(),
            (
                Request::ThreadPath { codex_home, thread_id },
                RequestView::ThreadPath { codex_home: shown_home, thread_id: shown_id },
            ) => shown_home == codex_home.deep_view() && shown_id == thread_id.text@,
            (Request::UserMessages { history }, RequestView::UserMessages { history: shown }) => shown
                == history.deep_view(),
            (
                Request::CompactedHistory { user_messages, message },
                RequestView::CompactedHistory {
                    user_messages: shown_messages,
                    message: shown_message,
                },
            ) => shown_messages == user_messages.deep_view() && shown_message == message@,
            (
                Request::MergedFromThreadIds { items },
                RequestView::MergedFromThreadIds { items: shown },
            ) => shown == items.deep_view(),
            _ => false,
        },
{
}

/// A halt shows why, and a refusal each of the threads and paths it names.
pub proof fn lemma_halt_view(halt: Halt)
    ensures
        match (halt, halt.deep_view()) {
            (Halt::Asks(request), HaltView::Asks(shown)) => shown == request.deep_view(),
            (Halt::Rejected(error), HaltView::Rejected(shown)) => match (error, shown) {
                (
                    InvalidRequest::DuplicateMergeSource { thread_id },
                    InvalidRequestView::DuplicateMergeSource { thread_id: id },
                ) => id == thread_id.text@,
                (
                    InvalidRequest::NotDescendant { thread_id, base_thread_id },
                    InvalidRequestView::NotDescendant { thread_id: id, base_thread_id: base },
                ) => id == thread_id.text@ && base == base_thread_id.text@,
                (
                    InvalidRequest::MissingBaseMeta { path },
                    InvalidRequestView::MissingBaseMeta { path: text },
                ) => text == path@,
                (
                    InvalidRequest::NoCodexHome { path },
                    InvalidRequestView::NoCodexHome { path: text },
                ) => text == path@,
                (
                    InvalidRequest::DuplicateCombineSource { thread_id },
                    InvalidRequestView::DuplicateCombineSource { thread_id: id },
                ) => id == thread_id.text@,
                (
                    InvalidRequest::MissingSourceMeta { path },
                    InvalidRequestView::MissingSourceMeta { path: text },
                ) => text == path@,
                (
                    InvalidRequest::SourceIdMismatch { thread_id, session_id, path },
                    InvalidRequestView::SourceIdMismatch {
                        thread_id: id,
                        session_id: session,
                        path: text,
                    },
                ) => id == thread_id.text@ && session == session_id.text@ && text == path@,
                _ => false,
            },
            _ => false,
        },
{
}

/// The answers show each of their tables.
pub proof fn lemma_answers_view(answers: Answers)
    ensures
        answers.deep_view().rollout_histories == answers.rollout_histories.deep_view(),
        answers.deep_view().session_metas == answers.session_metas.deep_view(),
        answers.deep_view().thread_paths == answers.thread_paths.deep_view(),
        answers.deep_view().user_messages == answers.user_messages.deep_view(),
        answers.deep_view().compacted_histories == answers.compacted_histories.deep_view(),
        answers.deep_view().merged_from_thread_ids == answers.merged_from_thread_ids.deep_view(),
{
}

/// A request has been answered where the table for it has its key.
pub proof fn lemma_answered_by_tables(answers: AnswersView, request: RequestView)
    ensures
        answers.answered(request) == match request {
            RequestView::RolloutHistory { path } => answers.rollout_histories.dom().contains(path),
            RequestView::SessionMeta { path } => answers.session_metas.dom().contains(path),
            RequestView::ThreadPath {
                codex_home,
                thread_id,
            } => answers.thread_paths.dom().contains((codex_home, thread_id)),
            RequestView::UserMessages { history } => answers.user_messages.dom().contains(history),
            RequestView::CompactedHistory {
                user_messages,
                message,
            } => answers.compacted_histories.dom().contains((user_messages, message)),
            RequestView::MergedFromThreadIds {
                items,
            } => answers.merged_from_thread_ids.dom().contains(items),
        },
{
}

/// A result shows whether there is one, and what it is, or why there is none.
pub proof fn lemma_result_view(items: Result<Vec<RolloutItem>, Halt>)
    ensures
        match (items, result_view(items)) {
            (Ok(items), Ok(shown)) => shown == items.deep_view(),
            (Err(halt), Err(shown)) => shown == halt.deep_view(),
            _ => false,
        },
{
}

/// The words of a refusal open with what it is, and name the threads and paths
/// that it is about, each in full.
pub proof fn lemma_message_names_all(error: InvalidRequestView)
    ensures
        ({
            let words = error.message();
            match error {
                InvalidRequestView::DuplicateMergeSource { thread_id } => {
                    let opening = "duplicate merge source id "@;
                    words.take(opening.len() as int) == opening && words.skip(
                        opening.len() as int,
                    ) == thread_id
                },
                InvalidRequestView::DuplicateCombineSource { thread_id } => {
                    let opening = "duplicate combine source id "@;
                    words.take(opening.len() as int) == opening && words.skip(
                        opening.len() as int,
                    ) == thread_id
                },
                InvalidRequestView::NotDescendant { thread_id, base_thread_id } => {
                    let opening = "thread "@ + thread_id + " is not a descendant of "@;
                    words.take(opening.len() as int) == opening && words.skip(
                        opening.len() as int,
                    ) == base_thread_id
                },
                InvalidRequestView::MissingBaseMeta { path } => {
                    let opening = "missing session metadata in base rollout `"@;
                    words.take(opening.len() as int) == opening && words.skip(
                        opening.len() as int,
                    ) == path + "`"@
                },
                InvalidRequestView::NoCodexHome { path } => {
                    let opening = "failed to derive codex home from rollout `"@;
                    words.take(opening.len() as int) == opening && words.skip(
                        opening.len() as int,
                    ) == path + "`"@
                },
                InvalidRequestView::MissingSourceMeta { path } => {
                    let opening = "missing session metadata in combine source rollout `"@;
                    words.take(opening.len() as int) == opening && words.skip(
                        opening.len() as int,
                    ) == path + "`"@
                },
                InvalidRequestView::SourceIdMismatch { thread_id, session_id, path } => {
                    let opening = "combine source id "@ + thread_id
                        + " does not match rollout session id "@ + session_id;
                    words.take(opening.len() as int) == opening && words.skip(
                        opening.len() as int,
                    ) == " for `"@ + path + "`"@
                },
            }
        }),
{
    let words = error.message();
    match error {
        InvalidRequestView::DuplicateMergeSource { thread_id } => {
            lemma_parts(words, "duplicate merge source id "@, thread_id);
        },
        InvalidRequestView::DuplicateCombineSource { thread_id } => {
            lemma_parts(words, "duplicate combine source id "@, thread_id);
        },
        InvalidRequestView::NotDescendant { thread_id, base_thread_id } => {
            lemma_parts(
                words,
                "thread "@ + thread_id + " is not a descendant of "@,
                base_thread_id,
            );
        },
        InvalidRequestView::MissingBaseMeta { path } => {
            lemma_parts(words, "missing session metadata in base rollout `"@, path + "`"@);
        },
        InvalidRequestView::NoCodexHome { path } => {
            lemma_parts(words, "failed to derive codex home from rollout `"@, path + "`"@);
        },
        InvalidRequestView::MissingSourceMeta { path } => {
            lemma_parts(
                words,
                "missing session metadata in combine source rollout `"@,
                path + "`"@,
            );
        },
        InvalidRequestView::SourceIdMismatch { thread_id, session_id, path } => {
            lemma_parts(
                words,
                "combine source id "@ + thread_id + " does not match rollout session id "@
                    + session_id,
                " for `"@ + path + "`"@,
            );
        },
    }
}

/// What is put together of two parts opens with the one and ends with the other.
proof fn lemma_parts(whole: Seq<char>, opening: Seq<char>, ending: Seq<char>)
    requires
        whole =~= opening + ending,
    ensures
        whole.take(opening.len() as int) == opening,
        whole.skip(opening.len() as int) == ending,
{
    assert(whole.take(opening.len() as int) =~= opening);
    assert(whole.skip(opening.len() as int) =~= ending);
}

} // verus!
