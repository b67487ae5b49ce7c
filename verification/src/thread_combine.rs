//! Combining threads: the whole histories of other threads are appended to
//! that of a thread, each behind a mark.

use vstd::prelude::*;

use crate::answers::{Answers, AnswersView, Halt, HaltView, Request, RequestView};
use crate::error::{InvalidRequest, InvalidRequestView};
use crate::path::{PathRecord, PathView};
use crate::protocol::{
    ItemView, MergeBoundaryItem, MetaLineView, MetaView, RolloutItem, ThreadId,
};
use crate::same_value::{holds, result_view, SameValue};
use crate::thread_merge::{load_rollout_items, SourceView};
use crate::turns::{turns_of, EffectiveTurn, TurnView};

verus! {

/// A thread to combine with another, and its rollout.
#[derive(Debug)]
pub struct CombineSource {
    pub thread_id: ThreadId,
    pub path: PathRecord,
}

impl DeepView for CombineSource {
    type V = SourceView;

    open spec fn deep_view(&self) -> SourceView {
        SourceView { thread_id: self.thread_id.deep_view(), path: self.path.deep_view() }
    }
}

impl Clone for CombineSource {
    fn clone(&self) -> (result: Self)
        ensures
            result.deep_view() == self.deep_view(),
    {
        CombineSource { thread_id: self.thread_id.clone(), path: self.path.clone() }
    }
}

/// What a source brings to a combination.
#[derive(Debug)]
pub struct PreparedSource {
    pub thread_id: ThreadId,
    pub merged_from_thread_ids: Vec<ThreadId>,
    pub segment_items: Vec<RolloutItem>,
}

/// What a source brings to a combination.
#[verifier::ext_equal]
pub struct PreparedView {
    pub thread_id: Seq<char>,
    /// The threads that it was merged from itself.
    pub merged_from_thread_ids: Seq<Seq<char>>,
    /// Its items but for the session metadata.
    pub segment_items: Seq<ItemView>,
}

impl DeepView for PreparedSource {
    type V = PreparedView;

    open spec fn deep_view(&self) -> PreparedView {
        PreparedView {
            thread_id: self.thread_id.deep_view(),
            merged_from_thread_ids: self.merged_from_thread_ids.deep_view(),
            segment_items: self.segment_items.deep_view(),
        }
    }
}

impl PreparedView {
    /// The threads that a combination with this source was merged from on its
    /// account.
    pub open spec fn thread_ids(self) -> Seq<Seq<char>> {
        seq![self.thread_id] + self.merged_from_thread_ids
    }

    /// The items that a combination has from this source.
    pub open spec fn segment(self) -> Seq<ItemView> {
        seq![ItemView::MergeBoundary { source_thread_id: self.thread_id }] + self.segment_items
    }
}

/// The first of `sources` that names a thread which one before it names.
pub open spec fn first_duplicate(sources: Seq<SourceView>) -> Option<Seq<char>>
    decreases sources.len(),
{
    if sources.len() == 0 {
        None
    } else {
        match first_duplicate(sources.drop_last()) {
            Some(thread_id) => Some(thread_id),
            None => if sources.drop_last().map_values(|s: SourceView| s.thread_id).contains(
                sources.last().thread_id,
            ) {
                Some(sources.last().thread_id)
            } else {
                None
            },
        }
    }
}

/// What `source` brings to a combination. Its rollout must open with session
/// metadata, and these must be of the thread that it is said to be of.
pub open spec fn prepared(answers: AnswersView, source: SourceView) -> Result<
    PreparedView,
    HaltView,
> {
    match answers.rollout_histories.get(source.path) {
        None => Err(HaltView::Asks(RequestView::RolloutHistory { path: source.path })),
        Some(items) => match session_meta(items) {
            None => Err(
                HaltView::Rejected(InvalidRequestView::MissingSourceMeta { path: source.path.text }),
            ),
            Some(line) => if line.meta.id != source.thread_id {
                Err(
                    HaltView::Rejected(
                        InvalidRequestView::SourceIdMismatch {
                            thread_id: source.thread_id,
                            session_id: line.meta.id,
                            path: source.path.text,
                        },
                    ),
                )
            } else {
                match answers.merged_from_thread_ids.get(items) {
                    None => Err(HaltView::Asks(RequestView::MergedFromThreadIds { items })),
                    Some(merged_from_thread_ids) => Ok(
                        PreparedView {
                            thread_id: source.thread_id,
                            merged_from_thread_ids,
                            segment_items: items.skip(1),
                        },
                    ),
                }
            },
        },
    }
}

/// The session metadata that a rollout opens with.
pub open spec fn session_meta(items: Seq<ItemView>) -> Option<MetaLineView> {
    if items.len() == 0 {
        None
    } else {
        match items[0] {
            ItemView::SessionMeta(line) => Some(line),
            _ => None,
        }
    }
}

/// What all `sources` bring, or the first reason why one of them cannot.
pub open spec fn all_prepared(answers: AnswersView, sources: Seq<SourceView>) -> Result<
    Seq<PreparedView>,
    HaltView,
>
    decreases sources.len(),
{
    if sources.len() == 0 {
        Ok(Seq::empty())
    } else {
        match all_prepared(answers, sources.drop_last()) {
            Err(halt) => Err(halt),
            Ok(before) => match prepared(answers, sources.last()) {
                Err(halt) => Err(halt),
                Ok(source) => Ok(before.push(source)),
            },
        }
    }
}

/// The threads that a combination was merged from: those that the base was,
/// then each source followed by those that it was, each thread once.
pub open spec fn provenance(
    base_merged_from: Seq<Seq<char>>,
    sources: Seq<PreparedView>,
) -> Seq<Seq<char>> {
    sources.map_values(|source: PreparedView| source.thread_ids()).flatten().remove_duplicates(
        base_merged_from,
    )
}

/// Session metadata that tell of a merge of `thread_ids` into `base_thread_id`.
pub open spec fn with_provenance(
    line: MetaLineView,
    base_thread_id: Seq<char>,
    thread_ids: Seq<Seq<char>>,
) -> MetaLineView {
    MetaLineView {
        meta: MetaView {
            merge_base_thread_id: if thread_ids.len() == 0 {
                None
            } else {
                Some(base_thread_id)
            },
            merged_from_thread_ids: if thread_ids.len() == 0 {
                None
            } else {
                Some(thread_ids)
            },
            ..line.meta
        },
        ..line
    }
}

/// The rollout of `base_thread_id` with those of `sources` behind it.
pub open spec fn combined_rollout(
    answers: AnswersView,
    base_thread_id: Seq<char>,
    base_path: PathView,
    sources: Seq<SourceView>,
) -> Result<Seq<ItemView>, HaltView> {
    match first_duplicate(sources) {
        Some(thread_id) => Err(
            HaltView::Rejected(InvalidRequestView::DuplicateCombineSource { thread_id }),
        ),
        None => match all_prepared(answers, sources) {
            Err(halt) => Err(halt),
            Ok(sources) => match answers.rollout_histories.get(base_path) {
                None => Err(HaltView::Asks(RequestView::RolloutHistory { path: base_path })),
                Some(items) => match answers.merged_from_thread_ids.get(items) {
                    None => Err(HaltView::Asks(RequestView::MergedFromThreadIds { items })),
                    Some(base_merged_from) => match session_meta(items) {
                        None => Err(
                            HaltView::Rejected(
                                InvalidRequestView::MissingBaseMeta { path: base_path.text },
                            ),
                        ),
                        Some(line) => Ok(
                            items.update(
                                0,
                                ItemView::SessionMeta(
                                    with_provenance(
                                        line,
                                        base_thread_id,
                                        provenance(base_merged_from, sources),
                                    ),
                                ),
                            ) + sources.map_values(
                                |source: PreparedView| source.segment(),
                            ).flatten(),
                        ),
                    },
                },
            },
        },
    }
}

/// A thread named twice among the first sources is named twice among all.
proof fn lemma_duplicate_stays(sources: Seq<SourceView>, n: int)
    requires
        0 <= n <= sources.len(),
        first_duplicate(sources.take(n)) is Some,
    ensures
        first_duplicate(sources) == first_duplicate(sources.take(n)),
    decreases sources.len(),
{
    if n < sources.len() {
        assert(sources.drop_last().take(n) =~= sources.take(n));
        lemma_duplicate_stays(sources.drop_last(), n);
    } else {
        assert(sources.take(n) =~= sources);
    }
}

/// Where one of the first sources cannot be prepared, not all can.
proof fn lemma_preparing_stops(answers: AnswersView, sources: Seq<SourceView>, n: int)
    requires
        0 <= n <= sources.len(),
    ensures
        all_prepared(answers, sources.take(n)) matches Err(halt) ==> all_prepared(answers, sources)
            == Err::<Seq<PreparedView>, _>(halt),
    decreases sources.len(),
{
    if n < sources.len() {
        assert(sources.drop_last().take(n) =~= sources.take(n));
        lemma_preparing_stops(answers, sources.drop_last(), n);
    } else {
        assert(sources.take(n) =~= sources);
    }
}

/// The first of `sources` that names a thread which one before it names.
fn find_duplicate(combine_sources: &[CombineSource]) -> (result: Option<ThreadId>)
    ensures
        result.deep_view() == first_duplicate(combine_sources.deep_view()),
{
    let ghost sources = combine_sources.deep_view();
    let mut seen_source_ids: Vec<ThreadId> = Vec::new();
    for i in 0..combine_sources.len()
        invariant
            sources == combine_sources.deep_view(),
            seen_source_ids.deep_view() =~= sources.take(i as int).map_values(
                |s: SourceView| s.thread_id,
            ),
            first_duplicate(sources.take(i as int)) is None,
    {
        let source = &combine_sources[i];
        assert(sources.take(i + 1).drop_last() =~= sources.take(i as int));
        assert(sources.take(i + 1).last() == source.deep_view());
        if holds(seen_source_ids.as_slice(), &source.thread_id) {
            proof {
                lemma_duplicate_stays(sources, i + 1);
            }
            return Some(source.thread_id.clone());
        }
        let ghost before = seen_source_ids.deep_view();
        seen_source_ids.push(source.thread_id.clone());
        assert(seen_source_ids.deep_view() =~= before.push(source.thread_id.deep_view()));
    }
    assert(sources.take(combine_sources.len() as int) =~= sources);
    None
}

/// What `source` brings to a combination.
fn prepare_source(answers: &Answers, source: &CombineSource) -> (result: Result<
    PreparedSource,
    Halt,
>)
    ensures
        result_view(result) == prepared(answers.deep_view(), source.deep_view()),
{
    let mut source_items = match answers.rollout_histories.get(&source.path) {
        Some(history) => load_rollout_items(history),
        None => {
            return Err(Halt::Asks(Request::RolloutHistory { path: source.path.clone() }));
        },
    };
    if source_items.len() == 0 {
        return Err(
            Halt::Rejected(InvalidRequest::MissingSourceMeta { path: source.path.text.clone() }),
        );
    }
    assert(source_items.deep_view()[0] == source_items[0].deep_view());
    match &source_items[0] {
        RolloutItem::SessionMeta(meta_line) => {
            if !meta_line.meta.id.same(&source.thread_id) {
                return Err(
                    Halt::Rejected(
                        InvalidRequest::SourceIdMismatch {
                            thread_id: source.thread_id.clone(),
                            session_id: meta_line.meta.id.clone(),
                            path: source.path.text.clone(),
                        },
                    ),
                );
            }
        },
        _ => {
            return Err(
                Halt::Rejected(
                    InvalidRequest::MissingSourceMeta { path: source.path.text.clone() },
                ),
            );
        },
    }
    let merged_from_thread_ids = match answers.merged_from_thread_ids.get(&source_items) {
        Some(thread_ids) => {
            let copy = thread_ids.clone();
            assert(copy.deep_view() =~= thread_ids.deep_view());
            copy
        },
        None => {
            return Err(Halt::Asks(Request::MergedFromThreadIds { items: source_items }));
        },
    };
    let ghost before = source_items.deep_view();
    let segment_items = source_items.split_off(1);
    assert(segment_items.deep_view() =~= before.skip(1));
    Ok(PreparedSource { thread_id: source.thread_id.clone(), merged_from_thread_ids, segment_items })
}

/// What all `sources` bring, or the first reason why one of them cannot.
fn prepare_sources(answers: &Answers, combine_sources: &[CombineSource]) -> (result: Result<
    Vec<PreparedSource>,
    Halt,
>)
    ensures
        result_view(result) == all_prepared(answers.deep_view(), combine_sources.deep_view()),
{
    let ghost known = answers.deep_view();
    let ghost sources = combine_sources.deep_view();
    let mut prepared_sources: Vec<PreparedSource> = Vec::with_capacity(combine_sources.len());
    assert(prepared_sources.deep_view() =~= Seq::<PreparedView>::empty());
    for i in 0..combine_sources.len()
        invariant
            known == answers.deep_view(),
            sources == combine_sources.deep_view(),
            all_prepared(known, sources.take(i as int)) == Ok::<_, HaltView>(
                prepared_sources.deep_view(),
            ),
    {
        assert(sources.take(i + 1).drop_last() =~= sources.take(i as int));
        match prepare_source(answers, &combine_sources[i]) {
            Ok(source) => {
                let ghost before = prepared_sources.deep_view();
                prepared_sources.push(source);
                assert(prepared_sources.deep_view() =~= before.push(source.deep_view()));
            },
            Err(halt) => {
                proof {
                    lemma_preparing_stops(known, sources, i + 1);
                }
                return Err(halt);
            },
        }
    }
    assert(sources.take(combine_sources.len() as int) =~= sources);
    Ok(prepared_sources)
}

/// Adds `thread_id` to `thread_ids`, unless it is there.
fn add_thread_id(thread_ids: &mut Vec<ThreadId>, thread_id: &ThreadId)
    ensures
        final(thread_ids).deep_view() == (if old(thread_ids).deep_view().contains(
            thread_id.deep_view(),
        ) {
            old(thread_ids).deep_view()
        } else {
            old(thread_ids).deep_view().push(thread_id.deep_view())
        }),
{
    let ghost before = thread_ids.deep_view();
    if !holds(thread_ids.as_slice(), thread_id) {
        thread_ids.push(thread_id.clone());
        assert(thread_ids.deep_view() =~= before.push(thread_id.deep_view()));
    }
}

/// One more id, added unless it is there.
proof fn lemma_add_one(ids: Seq<Seq<char>>, id: Seq<char>, seen: Seq<Seq<char>>)
    ensures
        ids.push(id).remove_duplicates(seen) == (if ids.remove_duplicates(seen).contains(id) {
            ids.remove_duplicates(seen)
        } else {
            ids.remove_duplicates(seen).push(id)
        }),
{
    ids.lemma_remove_duplicates_append(id, seen);
    ids.lemma_remove_duplicates_properties(seen);
    assert(ids + seq![id] =~= ids.push(id));
    assert(ids.remove_duplicates(seen) + seq![id] =~= ids.remove_duplicates(seen).push(id));
}

/// Adds the threads that `sources` bring to those that the base was merged
/// from.
fn collect_provenance(base_merged_from: &Vec<ThreadId>, sources: &Vec<PreparedSource>) -> (result:
    Vec<ThreadId>)
    ensures
        result.deep_view() == provenance(base_merged_from.deep_view(), sources.deep_view()),
{
    let ghost base = base_merged_from.deep_view();
    let ghost lists = sources.deep_view().map_values(|source: PreparedView| source.thread_ids());
    let mut thread_ids: Vec<ThreadId> = base_merged_from.clone();
    assert(thread_ids.deep_view() =~= base);
    assert(lists.take(0).flatten() =~= Seq::<Seq<char>>::empty());
    for i in 0..sources.len()
        invariant
            base == base_merged_from.deep_view(),
            lists == sources.deep_view().map_values(|source: PreparedView| source.thread_ids()),
            thread_ids.deep_view() == lists.take(i as int).flatten().remove_duplicates(base),
    {
        let source = &sources[i];
        let ghost earlier = lists.take(i as int).flatten();
        let ghost nested = source.deep_view().merged_from_thread_ids;
        let ghost all = source.deep_view().thread_ids();
        add_thread_id(&mut thread_ids, &source.thread_id);
        proof {
            lemma_add_one(earlier, source.thread_id.deep_view(), base);
            assert(earlier + all.take(1) =~= earlier.push(source.thread_id.deep_view()));
        }
        for j in 0..source.merged_from_thread_ids.len()
            invariant
                nested == source.merged_from_thread_ids.deep_view(),
                all == seq![source.thread_id.deep_view()] + nested,
                thread_ids.deep_view() == (earlier + all.take(j + 1)).remove_duplicates(base),
        {
            proof {
                lemma_add_one(earlier + all.take(j + 1), nested[j as int], base);
                assert(earlier + all.take(j + 2) =~= (earlier + all.take(j + 1)).push(
                    nested[j as int],
                ));
            }
            add_thread_id(&mut thread_ids, &source.merged_from_thread_ids[j]);
        }
        proof {
            assert(all.take(all.len() as int) =~= all);
            lists.take(i as int).lemma_flatten_push(lists[i as int]);
            assert(lists.take(i + 1) =~= lists.take(i as int).push(lists[i as int]));
        }
    }
    assert(lists.take(sources.len() as int) =~= lists);
    thread_ids
}

/// The rollout of `base_thread_id`, which is at `base_path`, with those of
/// `combine_sources` behind it: to the items of the base are appended, for each
/// source in turn, a mark and all its items but for the session metadata. The
/// session metadata of the base tell which threads it was merged from.
pub fn build_combined_rollout(
    answers: &Answers,
    base_thread_id: &ThreadId,
    base_path: &PathRecord,
    combine_sources: &[CombineSource],
) -> (result: Result<Vec<RolloutItem>, Halt>)
    ensures
        result_view(result) == combined_rollout(
            answers.deep_view(),
            base_thread_id.deep_view(),
            base_path.deep_view(),
            combine_sources.deep_view(),
        ),
{
    if let Some(thread_id) = find_duplicate(combine_sources) {
        return Err(Halt::Rejected(InvalidRequest::DuplicateCombineSource { thread_id }));
    }
    let prepared_sources = match prepare_sources(answers, combine_sources) {
        Ok(prepared_sources) => prepared_sources,
        Err(halt) => {
            return Err(halt);
        },
    };
    let mut merged_items = match answers.rollout_histories.get(base_path) {
        Some(history) => load_rollout_items(history),
        None => {
            return Err(Halt::Asks(Request::RolloutHistory { path: base_path.clone() }));
        },
    };
    let ghost base_items = merged_items.deep_view();
    let merged_from_thread_ids = match answers.merged_from_thread_ids.get(&merged_items) {
        Some(base_merged_from) => collect_provenance(base_merged_from, &prepared_sources),
        None => {
            return Err(Halt::Asks(Request::MergedFromThreadIds { items: merged_items }));
        },
    };
    if merged_items.len() == 0 {
        return Err(
            Halt::Rejected(InvalidRequest::MissingBaseMeta { path: base_path.text.clone() }),
        );
    }
    assert(base_items[0] == merged_items[0].deep_view());
    let meta_line = match &merged_items[0] {
        RolloutItem::SessionMeta(meta_line) => {
            let mut meta_line = meta_line.clone();
            if merged_from_thread_ids.len() == 0 {
                meta_line.meta.merge_base_thread_id = None;
                meta_line.meta.merged_from_thread_ids = None;
            } else {
                meta_line.meta.merge_base_thread_id = Some(base_thread_id.clone());
                meta_line.meta.merged_from_thread_ids = Some(merged_from_thread_ids);
            }
            meta_line
        },
        _ => {
            return Err(
                Halt::Rejected(InvalidRequest::MissingBaseMeta { path: base_path.text.clone() }),
            );
        },
    };
    merged_items.set(0, RolloutItem::SessionMeta(meta_line));
    assert(merged_items.deep_view() =~= base_items.update(
        0,
        ItemView::SessionMeta(meta_line.deep_view()),
    ));
    append_segments(&mut merged_items, prepared_sources);
    Ok(merged_items)
}

/// Appends a mark and the items of each source.
fn append_segments(merged_items: &mut Vec<RolloutItem>, sources: Vec<PreparedSource>)
    ensures
        final(merged_items).deep_view() == old(merged_items).deep_view()
            + sources.deep_view().map_values(|source: PreparedView| source.segment()).flatten(),
{
    let ghost start = merged_items.deep_view();
    let ghost segments = sources.deep_view().map_values(|source: PreparedView| source.segment());
    assert(start + segments.take(0).flatten() =~= start);
    for i in 0..sources.len()
        invariant
            segments == sources.deep_view().map_values(|source: PreparedView| source.segment()),
            merged_items.deep_view() == start + segments.take(i as int).flatten(),
    {
        let source = &sources[i];
        let ghost before = merged_items.deep_view();
        let mut items = source.segment_items.clone();
        assert(items.deep_view() =~= source.segment_items.deep_view());
        let ghost added = items.deep_view();
        merged_items.push(
            RolloutItem::MergeBoundary(
                MergeBoundaryItem { source_thread_id: source.thread_id.clone() },
            ),
        );
        merged_items.append(&mut items);
        proof {
            assert(merged_items.deep_view() =~= before + segments[i as int]);
            segments.take(i as int).lemma_flatten_push(segments[i as int]);
            assert(segments.take(i + 1) =~= segments.take(i as int).push(segments[i as int]));
            assert(merged_items.deep_view() =~= start + (segments.take(i as int).flatten()
                + segments[i as int]));
        }
    }
    assert(segments.take(sources.len() as int) =~= segments);
}

/// Whether an item separates the histories of different threads.
pub open spec fn separates(item: ItemView) -> bool {
    item is SessionMeta || item is MergeBoundary
}

/// The items behind the last one that separates.
pub open spec fn last_segment(items: Seq<ItemView>) -> Seq<ItemView>
    decreases items.len(),
{
    if items.len() == 0 || separates(items.last()) {
        Seq::empty()
    } else {
        last_segment(items.drop_last()).push(items.last())
    }
}

/// The turns in effect in the segments before the last one that separates.
pub open spec fn ended_turns(answers: AnswersView, items: Seq<ItemView>) -> Result<
    Seq<TurnView>,
    RequestView,
>
    decreases items.len(),
{
    if items.len() == 0 {
        Ok(Seq::empty())
    } else {
        match ended_turns(answers, items.drop_last()) {
            Err(request) => Err(request),
            Ok(earlier) => if separates(items.last()) {
                match turns_of(answers, last_segment(items.drop_last())) {
                    Err(request) => Err(request),
                    Ok(turns) => Ok(earlier + turns),
                }
            } else {
                Ok(earlier)
            },
        }
    }
}

/// The turns in effect in a combined rollout: those of each of the histories
/// that it is made of, played back by itself.
pub open spec fn segmented_turns(answers: AnswersView, items: Seq<ItemView>) -> Result<
    Seq<TurnView>,
    RequestView,
> {
    match ended_turns(answers, items) {
        Err(request) => Err(request),
        Ok(earlier) => match turns_of(answers, last_segment(items)) {
            Err(request) => Err(request),
            Ok(turns) => Ok(earlier + turns),
        },
    }
}

/// Where the first segments cannot be played back, all cannot.
proof fn lemma_segments_stop(answers: AnswersView, items: Seq<ItemView>, n: int)
    requires
        0 <= n <= items.len(),
    ensures
        ended_turns(answers, items.take(n)) matches Err(request) ==> ended_turns(answers, items)
            == Err::<Seq<TurnView>, _>(request),
    decreases items.len(),
{
    if n < items.len() {
        assert(items.drop_last().take(n) =~= items.take(n));
        lemma_segments_stop(answers, items.drop_last(), n);
    } else {
        assert(items.take(n) =~= items);
    }
}

/// The turns in effect in a combined rollout: those of each of the histories
/// that it is made of, played back by itself. Where a turn starts is told
/// within its history.
pub fn effective_turns(answers: &Answers, items: &[RolloutItem]) -> (result: Result<
    Vec<EffectiveTurn>,
    Request,
>)
    ensures
        result_view(result) == segmented_turns(answers.deep_view(), items.deep_view()),
{
    let ghost known = answers.deep_view();
    let ghost all = items.deep_view();
    let mut turns: Vec<EffectiveTurn> = Vec::new();
    let mut segment_items: Vec<RolloutItem> = Vec::new();
    assert(turns.deep_view() =~= Seq::<TurnView>::empty());
    assert(segment_items.deep_view() =~= Seq::<ItemView>::empty());
    for i in 0..items.len()
        invariant
            known == answers.deep_view(),
            all == items.deep_view(),
            ended_turns(known, all.take(i as int)) == Ok::<_, RequestView>(turns.deep_view()),
            segment_items.deep_view() == last_segment(all.take(i as int)),
    {
        let item = &items[i];
        let ghost upto = all.take(i + 1);
        assert(upto.drop_last() =~= all.take(i as int));
        assert(upto.last() == item.deep_view());
        let ghost earlier = turns.deep_view();
        let ghost segment = segment_items.deep_view();
        if matches!(item, RolloutItem::SessionMeta(_) | RolloutItem::MergeBoundary(_)) {
            match crate::turns::effective_turns(answers, segment_items.as_slice()) {
                Ok(segment_turns) => {
                    let mut segment_turns = segment_turns;
                    let ghost added = segment_turns.deep_view();
                    turns.append(&mut segment_turns);
                    assert(turns.deep_view() =~= earlier + added);
                },
                Err(request) => {
                    proof {
                        lemma_segments_stop(known, all, i + 1);
                    }
                    return Err(request);
                },
            }
            segment_items.clear();
            assert(segment_items.deep_view() =~= Seq::<ItemView>::empty());
        } else {
            segment_items.push(item.clone());
            assert(segment_items.deep_view() =~= segment.push(item.deep_view()));
        }
    }
    assert(all.take(items.len() as int) =~= all);
    match crate::turns::effective_turns(answers, segment_items.as_slice()) {
        Ok(segment_turns) => {
            let mut segment_turns = segment_turns;
            let ghost earlier = turns.deep_view();
            let ghost added = segment_turns.deep_view();
            turns.append(&mut segment_turns);
            assert(turns.deep_view() =~= earlier + added);
            Ok(turns)
        },
        Err(request) => Err(request),
    }
}

} // verus!
