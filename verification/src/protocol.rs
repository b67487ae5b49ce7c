//! What a rollout holds: the record of one conversation thread.
//!
//! The types keep apart what the rest of the library reads. What it only
//! carries along is kept as text, in a form of the caller's choosing in which
//! two values are equal exactly when their texts are.

use vstd::prelude::*;

use crate::path::{PathRecord, PathView};
use crate::same_value::SameValue;

verus! {

/// The id of a thread, in its canonical text form.
#[derive(Debug, PartialEq, Eq, Hash)]
pub struct ThreadId {
    pub text: String,
}

/// One piece of the content of a message.
#[derive(Debug, PartialEq, Eq)]
pub enum ContentItem {
    InputText { text: String },
    InputImage { image: String },
    OutputText { text: String },
}

/// What a response item says.
#[derive(Debug, PartialEq, Eq)]
pub enum ResponseBody {
    Message {
        id: Option<String>,
        role: String,
        content: Vec<ContentItem>,
        end_turn: Option<bool>,
        phase: Option<String>,
    },
    Other { payload: String },
}

/// One item of the conversation with the model.
#[derive(Debug, PartialEq, Eq)]
pub struct ResponseItem {
    /// Whether the item is a message that the user wrote, and so opens a
    /// turn. This follows from `body` alone: items with the same body have the
    /// same value here.
    pub user_message: bool,
    pub body: ResponseBody,
}

/// The record that the history up to this point was replaced by a shorter one.
#[derive(Debug, PartialEq, Eq)]
pub struct CompactedItem {
    /// The summary.
    pub message: String,
    /// The history that took the place of the earlier one. Where it was not
    /// recorded, it is made anew from the earlier history and the summary.
    pub replacement_history: Option<Vec<ResponseItem>>,
}

/// The facts about a thread that its rollout opens with.
#[derive(Debug, PartialEq, Eq)]
pub struct SessionMeta {
    pub id: ThreadId,
    pub forked_from_id: Option<ThreadId>,
    pub merge_base_thread_id: Option<ThreadId>,
    pub merged_from_thread_ids: Option<Vec<ThreadId>>,
    pub cwd: PathRecord,
    /// All the other facts.
    pub details: String,
}

/// The first line of a rollout.
#[derive(Debug, PartialEq, Eq)]
pub struct SessionMetaLine {
    pub meta: SessionMeta,
    pub git: Option<String>,
}

/// The record that the last turns were taken back.
#[derive(Debug, PartialEq, Eq)]
pub struct ThreadRolledBackEvent {
    pub num_turns: u64,
}

/// An event of a session.
#[derive(Debug, PartialEq, Eq)]
pub enum EventMsg {
    ThreadRolledBack(ThreadRolledBackEvent),
    Other { payload: String },
}

/// The mark before the items that were taken from another thread.
#[derive(Debug, PartialEq, Eq)]
pub struct MergeBoundaryItem {
    pub source_thread_id: ThreadId,
}

/// One line of a rollout.
#[derive(Debug, PartialEq, Eq)]
pub enum RolloutItem {
    SessionMeta(SessionMetaLine),
    ResponseItem(ResponseItem),
    Compacted(CompactedItem),
    TurnContext { payload: String },
    EventMsg(EventMsg),
    MergeBoundary(MergeBoundaryItem),
}

/// A history that was taken up again.
#[derive(Debug, PartialEq, Eq)]
pub struct ResumedHistory {
    pub history: Vec<RolloutItem>,
}

/// The history that a thread starts from.
#[derive(Debug, PartialEq, Eq)]
pub enum InitialHistory {
    New,
    Resumed(ResumedHistory),
    Forked(Vec<RolloutItem>),
}

/// The deep view of a `ContentItem`.
#[verifier::ext_equal]
pub enum ContentView {
    InputText { text: Seq<char> },
    InputImage { image: Seq<char> },
    OutputText { text: Seq<char> },
}

/// The deep view of a `ResponseBody`.
#[verifier::ext_equal]
pub enum BodyView {
    Message {
        id: Option<Seq<char>>,
        role: Seq<char>,
        content: Seq<ContentView>,
        end_turn: Option<bool>,
        phase: Option<Seq<char>>,
    },
    Other { payload: Seq<char> },
}

/// The deep view of a `ResponseItem`.
#[verifier::ext_equal]
pub struct ResponseView {
    pub user_message: bool,
    pub body: BodyView,
}

/// The deep view of a `CompactedItem`.
#[verifier::ext_equal]
pub struct CompactedView {
    pub message: Seq<char>,
    pub replacement_history: Option<Seq<ResponseView>>,
}

/// The deep view of a `SessionMeta`.
#[verifier::ext_equal]
pub struct MetaView {
    pub id: Seq<char>,
    pub forked_from_id: Option<Seq<char>>,
    pub merge_base_thread_id: Option<Seq<char>>,
    pub merged_from_thread_ids: Option<Seq<Seq<char>>>,
    pub cwd: PathView,
    pub details: Seq<char>,
}

/// The deep view of a `SessionMetaLine`.
#[verifier::ext_equal]
pub struct MetaLineView {
    pub meta: MetaView,
    pub git: Option<Seq<char>>,
}

/// The deep view of an `EventMsg`.
#[verifier::ext_equal]
pub enum EventView {
    ThreadRolledBack { num_turns: nat },
    Other { payload: Seq<char> },
}

/// The deep view of a `RolloutItem`.
#[verifier::ext_equal]
pub enum ItemView {
    SessionMeta(MetaLineView),
    ResponseItem(ResponseView),
    Compacted(CompactedView),
    TurnContext { payload: Seq<char> },
    EventMsg(EventView),
    MergeBoundary { source_thread_id: Seq<char> },
}

impl DeepView for ThreadId {
    type V = Seq<char>;

    open spec fn deep_view(&self) -> Seq<char> {
        self.text.deep_view()
    }
}

impl DeepView for ContentItem {
    type V = ContentView;

    open spec fn deep_view(&self) -> ContentView {
        match self {
            ContentItem::InputText { text } => ContentView::InputText { text: text.deep_view() },
            ContentItem::InputImage { image } => ContentView::InputImage {
                image: image.deep_view(),
            },
            ContentItem::OutputText { text } => ContentView::OutputText { text: text.deep_view() },
        }
    }
}

impl DeepView for ResponseBody {
    type V = BodyView;

    open spec fn deep_view(&self) -> BodyView {
        match self {
            ResponseBody::Message { id, role, content, end_turn, phase } => BodyView::Message {
                id: id.deep_view(),
                role: role.deep_view(),
                content: content.deep_view(),
                end_turn: end_turn.deep_view(),
                phase: phase.deep_view(),
            },
            ResponseBody::Other { payload } => BodyView::Other { payload: payload.deep_view() },
        }
    }
}

impl DeepView for ResponseItem {
    type V = ResponseView;

    open spec fn deep_view(&self) -> ResponseView {
        ResponseView { user_message: self.user_message, body: self.body.deep_view() }
    }
}

impl DeepView for CompactedItem {
    type V = CompactedView;

    open spec fn deep_view(&self) -> CompactedView {
        CompactedView {
            message: self.message.deep_view(),
            replacement_history: self.replacement_history.deep_view(),
        }
    }
}

impl DeepView for SessionMeta {
    type V = MetaView;

    open spec fn deep_view(&self) -> MetaView {
        MetaView {
            id: self.id.deep_view(),
            forked_from_id: self.forked_from_id.deep_view(),
            merge_base_thread_id: self.merge_base_thread_id.deep_view(),
            merged_from_thread_ids: self.merged_from_thread_ids.deep_view(),
            cwd: self.cwd.deep_view(),
            details: self.details.deep_view(),
        }
    }
}

impl DeepView for SessionMetaLine {
    type V = MetaLineView;

    open spec fn deep_view(&self) -> MetaLineView {
        MetaLineView { meta: self.meta.deep_view(), git: self.git.deep_view() }
    }
}

impl DeepView for EventMsg {
    type V = EventView;

    open spec fn deep_view(&self) -> EventView {
        match self {
            EventMsg::ThreadRolledBack(event) => EventView::ThreadRolledBack {
                num_turns: event.num_turns as nat,
            },
            EventMsg::Other { payload } => EventView::Other { payload: payload.deep_view() },
        }
    }
}

impl DeepView for RolloutItem {
    type V = ItemView;

    open spec fn deep_view(&self) -> ItemView {
        match self {
            RolloutItem::SessionMeta(line) => ItemView::SessionMeta(line.deep_view()),
            RolloutItem::ResponseItem(item) => ItemView::ResponseItem(item.deep_view()),
            RolloutItem::Compacted(item) => ItemView::Compacted(item.deep_view()),
            RolloutItem::TurnContext { payload } => ItemView::TurnContext {
                payload: payload.deep_view(),
            },
            RolloutItem::EventMsg(event) => ItemView::EventMsg(event.deep_view()),
            RolloutItem::MergeBoundary(boundary) => ItemView::MergeBoundary {
                source_thread_id: boundary.source_thread_id.deep_view(),
            },
        }
    }
}

/// The deep view of an initial history is its items.
impl DeepView for InitialHistory {
    type V = Seq<ItemView>;

    open spec fn deep_view(&self) -> Seq<ItemView> {
        match self {
            InitialHistory::New => Seq::empty(),
            InitialHistory::Resumed(resumed) => resumed.history.deep_view(),
            InitialHistory::Forked(items) => items.deep_view(),
        }
    }
}

impl Clone for ThreadId {
    fn clone(&self) -> (result: Self)
        ensures
            result.deep_view() == self.deep_view(),
    {
        let copy = ThreadId { text: self.text.clone() };
        assert(copy.deep_view() =~= self.deep_view());
        copy
    }
}

impl Clone for ContentItem {
    fn clone(&self) -> (result: Self)
        ensures
            result.deep_view() == self.deep_view(),
    {
        let copy = match self {
            ContentItem::InputText { text } => ContentItem::InputText { text: text.clone() },
            ContentItem::InputImage { image } => ContentItem::InputImage { image: image.clone() },
            ContentItem::OutputText { text } => ContentItem::OutputText { text: text.clone() },
        };
        assert(copy.deep_view() =~= self.deep_view());
        copy
    }
}

impl Clone for ResponseBody {
    fn clone(&self) -> (result: Self)
        ensures
            result.deep_view() == self.deep_view(),
    {
        let copy = match self {
            ResponseBody::Message { id, role, content, end_turn, phase } => ResponseBody::Message {
                id: id.clone(),
                role: role.clone(),
                content: content.clone(),
                end_turn: *end_turn,
                phase: phase.clone(),
            },
            ResponseBody::Other { payload } => ResponseBody::Other { payload: payload.clone() },
        };
        assert(copy.deep_view() =~= self.deep_view());
        copy
    }
}

impl Clone for ResponseItem {
    fn clone(&self) -> (result: Self)
        ensures
            result.deep_view() == self.deep_view(),
    {
        let copy = ResponseItem { user_message: self.user_message, body: self.body.clone() };
        assert(copy.deep_view() =~= self.deep_view());
        copy
    }
}

impl Clone for CompactedItem {
    fn clone(&self) -> (result: Self)
        ensures
            result.deep_view() == self.deep_view(),
    {
        let copy = CompactedItem {
            message: self.message.clone(),
            replacement_history: self.replacement_history.clone(),
        };
        assert(copy.deep_view() =~= self.deep_view());
        copy
    }
}

impl Clone for SessionMeta {
    fn clone(&self) -> (result: Self)
        ensures
            result.deep_view() == self.deep_view(),
    {
        let copy = SessionMeta {
            id: self.id.clone(),
            forked_from_id: self.forked_from_id.clone(),
            merge_base_thread_id: self.merge_base_thread_id.clone(),
            merged_from_thread_ids: self.merged_from_thread_ids.clone(),
            cwd: self.cwd.clone(),
            details: self.details.clone(),
        };
        assert(copy.deep_view() =~= self.deep_view());
        copy
    }
}

impl Clone for SessionMetaLine {
    fn clone(&self) -> (result: Self)
        ensures
            result.deep_view() == self.deep_view(),
    {
        let copy = SessionMetaLine { meta: self.meta.clone(), git: self.git.clone() };
        assert(copy.deep_view() =~= self.deep_view());
        copy
    }
}

impl Clone for EventMsg {
    fn clone(&self) -> (result: Self)
        ensures
            result.deep_view() == self.deep_view(),
    {
        let copy = match self {
            EventMsg::ThreadRolledBack(event) => EventMsg::ThreadRolledBack(
                ThreadRolledBackEvent { num_turns: event.num_turns },
            ),
            EventMsg::Other { payload } => EventMsg::Other { payload: payload.clone() },
        };
        assert(copy.deep_view() =~= self.deep_view());
        copy
    }
}

impl Clone for RolloutItem {
    fn clone(&self) -> (result: Self)
        ensures
            result.deep_view() == self.deep_view(),
    {
        let copy = match self {
            RolloutItem::SessionMeta(line) => RolloutItem::SessionMeta(line.clone()),
            RolloutItem::ResponseItem(item) => RolloutItem::ResponseItem(item.clone()),
            RolloutItem::Compacted(item) => RolloutItem::Compacted(item.clone()),
            RolloutItem::TurnContext { payload } => RolloutItem::TurnContext {
                payload: payload.clone(),
            },
            RolloutItem::EventMsg(event) => RolloutItem::EventMsg(event.clone()),
            RolloutItem::MergeBoundary(boundary) => RolloutItem::MergeBoundary(
                MergeBoundaryItem { source_thread_id: boundary.source_thread_id.clone() },
            ),
        };
        assert(copy.deep_view() =~= self.deep_view());
        copy
    }
}

impl SameValue for ThreadId {
    fn same(&self, other: &Self) -> (result: bool) {
        self.text.same(&other.text)
    }
}

impl SameValue for ContentItem {
    fn same(&self, other: &Self) -> (result: bool) {
        match (self, other) {
            (
                ContentItem::InputText { text: a },
                ContentItem::InputText { text: b },
            ) => a.same(b),
            (
                ContentItem::InputImage { image: a },
                ContentItem::InputImage { image: b },
            ) => a.same(b),
            (
                ContentItem::OutputText { text: a },
                ContentItem::OutputText { text: b },
            ) => a.same(b),
            _ => false,
        }
    }
}

impl SameValue for ResponseBody {
    fn same(&self, other: &Self) -> (result: bool) {
        match (self, other) {
            (
                ResponseBody::Message { id, role, content, end_turn, phase },
                ResponseBody::Message {
                    id: other_id,
                    role: other_role,
                    content: other_content,
                    end_turn: other_end_turn,
                    phase: other_phase,
                },
            ) => id.same(other_id) && role.same(other_role) && content.same(other_content)
                && end_turn.same(other_end_turn) && phase.same(other_phase),
            (ResponseBody::Other { payload: a }, ResponseBody::Other { payload: b }) => a.same(b),
            _ => false,
        }
    }
}

impl SameValue for ResponseItem {
    fn same(&self, other: &Self) -> (result: bool) {
        self.user_message == other.user_message && self.body.same(&other.body)
    }
}

impl SameValue for CompactedItem {
    fn same(&self, other: &Self) -> (result: bool) {
        self.message.same(&other.message) && self.replacement_history.same(
            &other.replacement_history,
        )
    }
}

impl SameValue for SessionMeta {
    fn same(&self, other: &Self) -> (result: bool) {
        self.id.same(&other.id) && self.forked_from_id.same(&other.forked_from_id)
            && self.merge_base_thread_id.same(&other.merge_base_thread_id)
            && self.merged_from_thread_ids.same(&other.merged_from_thread_ids) && self.cwd.same(
            &other.cwd,
        ) && self.details.same(&other.details)
    }
}

impl SameValue for SessionMetaLine {
    fn same(&self, other: &Self) -> (result: bool) {
        self.meta.same(&other.meta) && self.git.same(&other.git)
    }
}

impl SameValue for EventMsg {
    fn same(&self, other: &Self) -> (result: bool) {
        match (self, other) {
            (
                EventMsg::ThreadRolledBack(a),
                EventMsg::ThreadRolledBack(b),
            ) => a.num_turns == b.num_turns,
            (EventMsg::Other { payload: a }, EventMsg::Other { payload: b }) => a.same(b),
            _ => false,
        }
    }
}

impl SameValue for RolloutItem {
    fn same(&self, other: &Self) -> (result: bool) {
        match (self, other) {
            (RolloutItem::SessionMeta(a), RolloutItem::SessionMeta(b)) => a.same(b),
            (RolloutItem::ResponseItem(a), RolloutItem::ResponseItem(b)) => a.same(b),
            (RolloutItem::Compacted(a), RolloutItem::Compacted(b)) => a.same(b),
            (
                RolloutItem::TurnContext { payload: a },
                RolloutItem::TurnContext { payload: b },
            ) => a.same(b),
            (RolloutItem::EventMsg(a), RolloutItem::EventMsg(b)) => a.same(b),
            (
                RolloutItem::MergeBoundary(a),
                RolloutItem::MergeBoundary(b),
            ) => a.source_thread_id.same(&b.source_thread_id),
            _ => false,
        }
    }
}

} // verus!
