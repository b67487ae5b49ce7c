//! Merging threads: what the descendants of a thread have that the thread
//! itself has not is appended to it.

use vstd::prelude::*;

use crate::answers::{Answers, AnswersView, Halt, HaltView, Request, RequestView};
use crate::error::{InvalidRequest, InvalidRequestView};
use crate::lineage::{descent, is_descendant_of_thread};
use crate::path::{ancestor, nth_ancestor, ComponentView, PathComponent, PathRecord, PathView};
use crate::protocol::{
    EventMsg, EventView, InitialHistory, ItemView, MetaLineView, MetaView, RolloutItem, ThreadId,
};
use crate::same_value::{holds, result_view};
use crate::turns::{
    common_prefix_len, effective_turns, lemma_turns_start_inside, longest_common_prefix_len, scan,
    turns_of, EffectiveTurn, ScanView, TurnScan, TurnView,
};

verus! {

/// A thread to merge, and its rollout.
#[derive(Debug)]
pub struct MergeSource {
    pub thread_id: ThreadId,
    pub path: PathRecord,
}

/// The deep view of a thread that is to be joined to another.
#[verifier::ext_equal]
pub struct SourceView {
    pub thread_id: Seq<char>,
    pub path: PathView,
}

impl DeepView for MergeSource {
    type V = SourceView;

    open spec fn deep_view(&self) -> SourceView {
        SourceView { thread_id: self.thread_id.deep_view(), path: self.path.deep_view() }
    }
}

impl Clone for MergeSource {
    fn clone(&self) -> (result: Self)
        ensures
            result.deep_view() == self.deep_view(),
    {
        MergeSource { thread_id: self.thread_id.clone(), path: self.path.clone() }
    }
}

/// The directory that all rollouts are kept under, as the path of one of them
/// tells: a rollout lies in a directory for its day, that in one for the month,
/// that in one for the year, and that among the sessions.
pub fn codex_home_from_rollout_path(rollout_path: &PathRecord) -> (result: Result<
    Vec<PathComponent>,
    InvalidRequest,
>)
    ensures
        result_view(result) == codex_home(rollout_path.deep_view()),
{
    match ancestor(&rollout_path.components, 5) {
        Some(codex_home) => Ok(codex_home),
        None => Err(InvalidRequest::NoCodexHome { path: rollout_path.text.clone() }),
    }
}

/// The directory that all rollouts are kept under: five above one of them.
pub open spec fn codex_home(rollout_path: PathView) -> Result<
    Seq<ComponentView>,
    InvalidRequestView,
> {
    match nth_ancestor(rollout_path.components, 5) {
        Some(codex_home) => Ok(codex_home),
        None => Err(InvalidRequestView::NoCodexHome { path: rollout_path.text }),
    }
}

/// The items of a history.
pub fn load_rollout_items(history: &InitialHistory) -> (result: Vec<RolloutItem>)
    ensures
        result.deep_view() == history.deep_view(),
{
    let items: Vec<RolloutItem> = match history {
        InitialHistory::New => Vec::new(),
        InitialHistory::Resumed(resumed) => resumed.history.clone(),
        InitialHistory::Forked(items) => items.clone(),
    };
    assert(items.deep_view() =~= history.deep_view());
    items
}

/// Whether an item marks where items of another thread begin.
pub open spec fn is_boundary(item: ItemView) -> bool {
    item is MergeBoundary
}

/// `items` without the marks between those of different threads.
pub open spec fn without_boundaries(items: Seq<ItemView>) -> Seq<ItemView> {
    items.filter(|item: ItemView| !is_boundary(item))
}

/// The items from `from` on, without the marks between those of different
/// threads.
fn skip_boundaries(items: &[RolloutItem], from: usize) -> (result: Vec<RolloutItem>)
    requires
        from <= items.len(),
    ensures
        result.deep_view() == without_boundaries(items.deep_view().skip(from as int)),
{
    let ghost rest = items.deep_view().skip(from as int);
    let mut kept: Vec<RolloutItem> = Vec::new();
    assert(kept.deep_view() =~= without_boundaries(rest.take(0))) by {
        reveal(Seq::filter);
    }
    for i in from..items.len()
        invariant
            from <= items.len(),
            rest == items.deep_view().skip(from as int),
            kept.deep_view() == without_boundaries(rest.take(i - from)),
    {
        let ghost before = kept.deep_view();
        assert(rest.take(i + 1 - from).drop_last() =~= rest.take(i - from));
        assert(rest.take(i + 1 - from).last() == items[i as int].deep_view());
        proof {
            reveal(Seq::filter);
        }
        match &items[i] {
            RolloutItem::MergeBoundary(_) => {},
            item => {
                kept.push(item.clone());
                assert(kept.deep_view() =~= before.push(item.deep_view()));
            },
        }
    }
    assert(rest.take(items.len() - from) =~= rest);
    kept
}

/// Whether an item ends the turn that is under way.
pub open spec fn ends_turn(item: ItemView) -> bool {
    match item {
        ItemView::Compacted(_) => true,
        ItemView::ResponseItem(response) => response.user_message,
        ItemView::EventMsg(EventView::ThreadRolledBack { .. }) => true,
        _ => false,
    }
}

/// The larger number.
pub open spec fn larger(a: nat, b: nat) -> nat {
    if a < b {
        b
    } else {
        a
    }
}

/// The most turns that a rollout with `items` has ever had in common with
/// `merged_turns`, looked at whenever a turn ended and after each compaction.
pub open spec fn most_shared(
    answers: AnswersView,
    merged_turns: Seq<TurnView>,
    items: Seq<ItemView>,
) -> nat
    decreases items.len(),
{
    if items.len() == 0 {
        0
    } else {
        let earlier = most_shared(answers, merged_turns, items.drop_last());
        let ended = match scan(answers, items.drop_last()) {
            Ok(before) => if ends_turn(items.last()) && before.active is Some {
                larger(earlier, common_prefix_len(merged_turns, before.all_turns()))
            } else {
                earlier
            },
            Err(_) => earlier,
        };
        match scan(answers, items) {
            Ok(after) => if items.last() is Compacted {
                larger(ended, common_prefix_len(merged_turns, after.turns))
            } else {
                ended
            },
            Err(_) => ended,
        }
    }
}

/// Whether the last of `items` is a rollback that leaves fewer turns in common
/// with `merged_turns` than there were before, where there were more than
/// `final_len`.
pub open spec fn removes_shared(
    answers: AnswersView,
    merged_turns: Seq<TurnView>,
    items: Seq<ItemView>,
    final_len: nat,
) -> bool {
    &&& items.len() > 0
    &&& items.last() matches ItemView::EventMsg(EventView::ThreadRolledBack { .. })
    &&& most_shared(answers, merged_turns, items) > final_len
    &&& scan(answers, items) matches Ok(after) && common_prefix_len(merged_turns, after.turns)
        < most_shared(answers, merged_turns, items)
}

/// The index of the first rollback that does so.
pub open spec fn first_removal(
    answers: AnswersView,
    merged_turns: Seq<TurnView>,
    items: Seq<ItemView>,
    final_len: nat,
) -> Result<Option<nat>, RequestView>
    decreases items.len(),
{
    if items.len() == 0 {
        Ok(None)
    } else {
        match first_removal(answers, merged_turns, items.drop_last(), final_len) {
            Ok(None) => match scan(answers, items) {
                Err(request) => Err(request),
                Ok(_) => if removes_shared(answers, merged_turns, items, final_len) {
                    Ok(Some((items.len() - 1) as nat))
                } else {
                    Ok(None)
                },
            },
            found => found,
        }
    }
}

/// What is found among the first items stays found.
pub proof fn lemma_first_removal_stays(
    answers: AnswersView,
    merged_turns: Seq<TurnView>,
    items: Seq<ItemView>,
    final_len: nat,
    n: int,
)
    requires
        0 <= n <= items.len(),
        first_removal(answers, merged_turns, items.take(n), final_len) != Ok::<
            Option<nat>,
            RequestView,
        >(None),
    ensures
        first_removal(answers, merged_turns, items, final_len) == first_removal(
            answers,
            merged_turns,
            items.take(n),
            final_len,
        ),
    decreases items.len(),
{
    if n < items.len() {
        assert(items.drop_last().take(n) =~= items.take(n));
        lemma_first_removal_stays(answers, merged_turns, items.drop_last(), final_len, n);
    } else {
        assert(items.take(n) =~= items);
    }
}

/// The index of the first rollback among `items` that takes back turns which
/// they had in common with `merged_turns`, and which are not among the
/// `final_common_prefix_len` that they have in common in the end.
pub fn first_rollback_that_removes_shared_turns(
    answers: &Answers,
    items: &[RolloutItem],
    merged_turns: &[EffectiveTurn],
    final_common_prefix_len: usize,
) -> (result: Result<Option<usize>, Request>)
    ensures
        first_removal(
            answers.deep_view(),
            merged_turns.deep_view(),
            items.deep_view(),
            final_common_prefix_len as nat,
        ) == (match result {
            Ok(None) => Ok(None),
            Ok(Some(idx)) => Ok(Some(idx as nat)),
            Err(request) => Err(request.deep_view()),
        }),
        result matches Ok(Some(idx)) ==> idx < items.len(),
{
    let ghost known = answers.deep_view();
    let ghost all = items.deep_view();
    let ghost merged = merged_turns.deep_view();
    let mut state = TurnScan::new();
    let mut max_prefix_len_seen: usize = 0;
    for idx in 0..items.len()
        invariant
            known == answers.deep_view(),
            all == items.deep_view(),
            merged == merged_turns.deep_view(),
            scan(known, all.take(idx as int)) == Ok::<ScanView, RequestView>(state.deep_view()),
            max_prefix_len_seen == most_shared(known, merged, all.take(idx as int)),
            first_removal(known, merged, all.take(idx as int), final_common_prefix_len as nat)
                == Ok::<Option<nat>, RequestView>(None),
    {
        let item = &items[idx];
        let ghost upto = all.take(idx + 1);
        assert(upto.drop_last() =~= all.take(idx as int));
        let ghost before = state.deep_view();
        let compacts: bool = matches!(item, RolloutItem::Compacted(_));
        let rolls_back: bool = matches!(item, RolloutItem::EventMsg(EventMsg::ThreadRolledBack(_)));
        let opens_turn: bool = match item {
            RolloutItem::ResponseItem(response_item) => response_item.user_message,
            _ => false,
        };
        if (compacts || rolls_back || opens_turn) && state.active_turn.is_some() {
            state.commit_active_turn();
            let shared: usize = longest_common_prefix_len(merged_turns, state.turns.as_slice());
            if max_prefix_len_seen < shared {
                max_prefix_len_seen = shared;
            }
        }
        match state.advance(answers, item, idx) {
            Err(request) => {
                assert(before.advance(known, item.deep_view(), idx as nat) == Err::<ScanView, _>(
                    request.deep_view(),
                ));
                proof {
                    lemma_first_removal_stays(
                        known,
                        merged,
                        all,
                        final_common_prefix_len as nat,
                        idx + 1,
                    );
                }
                return Err(request);
            },
            Ok(_) => {},
        }
        assert(before.advance(known, item.deep_view(), idx as nat) == Ok::<_, RequestView>(
            state.deep_view(),
        ));
        if compacts {
            let shared: usize = longest_common_prefix_len(merged_turns, state.turns.as_slice());
            if max_prefix_len_seen < shared {
                max_prefix_len_seen = shared;
            }
        }
        if rolls_back && max_prefix_len_seen > final_common_prefix_len && longest_common_prefix_len(
            merged_turns,
            state.turns.as_slice(),
        ) < max_prefix_len_seen {
            proof {
                lemma_first_removal_stays(
                    known,
                    merged,
                    all,
                    final_common_prefix_len as nat,
                    idx + 1,
                );
            }
            return Ok(Some(idx));
        }
    }
    assert(all.take(items.len() as int) =~= all);
    Ok(None)
}

/// Whether an item belongs to the turn that follows it.
pub open spec fn leads_in(item: ItemView) -> bool {
    item is Compacted || item is TurnContext
}

/// Where the run of items that lead into the one at `start_idx` begins.
pub open spec fn lead_in_start(items: Seq<ItemView>, start_idx: nat) -> nat
    decreases start_idx,
{
    if 0 < start_idx <= items.len() && leads_in(items[start_idx - 1]) {
        lead_in_start(items, (start_idx - 1) as nat)
    } else {
        start_idx
    }
}

/// The run is all of items that lead in, and the one before it does not.
pub proof fn lemma_lead_in(items: Seq<ItemView>, start_idx: nat)
    ensures
        lead_in_start(items, start_idx) <= start_idx,
        forall|i: int|
            lead_in_start(items, start_idx) <= i < start_idx ==> i < items.len() && leads_in(
                #[trigger] items[i],
            ),
        0 < lead_in_start(items, start_idx) <= items.len() ==> !leads_in(
            items[lead_in_start(items, start_idx) - 1],
        ),
    decreases start_idx,
{
    if 0 < start_idx <= items.len() && leads_in(items[start_idx - 1]) {
        lemma_lead_in(items, (start_idx - 1) as nat);
    }
}

/// Where the run of items that lead into the one at `start_idx` begins.
pub fn suffix_start_idx(items: &[RolloutItem], start_idx: usize) -> (result: usize)
    ensures
        result == lead_in_start(items.deep_view(), start_idx as nat),
{
    let mut idx: usize = start_idx;
    while idx > 0 && idx <= items.len() && matches!(
        &items[idx - 1],
        RolloutItem::Compacted(_) | RolloutItem::TurnContext { .. }
    )
        invariant
            idx <= start_idx,
            lead_in_start(items.deep_view(), idx as nat) == lead_in_start(
                items.deep_view(),
                start_idx as nat,
            ),
        decreases idx,
    {
        assert(leads_in(items.deep_view()[idx - 1]));
        idx = idx - 1;
    }
    proof {
        if 0 < idx <= items.len() {
            assert(!leads_in(items.deep_view()[idx - 1]));
        }
    }
    idx
}

/// Where that part of `items` begins which is to be appended to a rollout with
/// `merged_turns`: at the first turn beyond the `common_len` that they have in
/// common, with what leads into it, or at the first rollback that takes back
/// turns in common, if that comes first. There is none where there is neither.
pub open spec fn suffix_start(
    answers: AnswersView,
    items: Seq<ItemView>,
    merged_turns: Seq<TurnView>,
    source_turns: Seq<TurnView>,
    common_len: nat,
) -> Result<Option<nat>, RequestView> {
    match first_removal(answers, merged_turns, items, common_len) {
        Err(request) => Err(request),
        Ok(rollback_idx) => {
            if common_len < source_turns.len() {
                let turn_idx = lead_in_start(items, source_turns[common_len as int].start_idx);
                match rollback_idx {
                    Some(rollback_idx) if rollback_idx < turn_idx => Ok(Some(rollback_idx)),
                    _ => Ok(Some(turn_idx)),
                }
            } else {
                Ok(rollback_idx)
            }
        },
    }
}

/// Where that part of `items` begins which is to be appended to a rollout with
/// `merged_turns`.
pub fn source_suffix_start_idx(
    answers: &Answers,
    items: &[RolloutItem],
    merged_turns: &[EffectiveTurn],
    source_turns: &[EffectiveTurn],
    common_prefix_len: usize,
) -> (result: Result<Option<usize>, Request>)
    ensures
        suffix_start(
            answers.deep_view(),
            items.deep_view(),
            merged_turns.deep_view(),
            source_turns.deep_view(),
            common_prefix_len as nat,
        ) == (match result {
            Ok(None) => Ok(None),
            Ok(Some(idx)) => Ok(Some(idx as nat)),
            Err(request) => Err(request.deep_view()),
        }),
{
    let rollback_idx = match first_rollback_that_removes_shared_turns(
        answers,
        items,
        merged_turns,
        common_prefix_len,
    ) {
        Ok(rollback_idx) => rollback_idx,
        Err(request) => {
            return Err(request);
        },
    };
    if common_prefix_len < source_turns.len() {
        let turn_idx: usize = suffix_start_idx(items, source_turns[common_prefix_len].start_idx);
        match rollback_idx {
            Some(rollback_idx) => {
                if rollback_idx < turn_idx {
                    Ok(Some(rollback_idx))
                } else {
                    Ok(Some(turn_idx))
                }
            },
            None => Ok(Some(turn_idx)),
        }
    } else {
        Ok(rollback_idx)
    }
}

/// Whether `ancestor` is a thread that `descendant` comes from.
pub open spec fn is_ancestor(
    answers: AnswersView,
    codex_home: Seq<ComponentView>,
    ancestor: SourceView,
    descendant: SourceView,
) -> Result<bool, RequestView> {
    descent(answers, codex_home, descendant.path, ancestor.thread_id)
}

/// Whether `ancestor` is a thread that `descendant` comes from.
pub fn is_ancestor_source(
    answers: &Answers,
    codex_home: &Vec<PathComponent>,
    ancestor: &MergeSource,
    descendant: &MergeSource,
) -> (result: Result<bool, Request>)
    ensures
        result_view(result) == is_ancestor(
            answers.deep_view(),
            codex_home.deep_view(),
            ancestor.deep_view(),
            descendant.deep_view(),
        ),
{
    is_descendant_of_thread(answers, codex_home, &descendant.path, &ancestor.thread_id)
}

/// Where `source` goes among the `ordered` sources from `idx` on: right before
/// the first of them that comes from it, else right behind the last of them
/// that it comes from, else at `otherwise`.
pub open spec fn insertion_point(
    answers: AnswersView,
    codex_home: Seq<ComponentView>,
    ordered: Seq<SourceView>,
    source: SourceView,
    idx: nat,
    otherwise: nat,
) -> Result<nat, RequestView>
    decreases ordered.len() - idx,
{
    if idx >= ordered.len() {
        Ok(otherwise)
    } else {
        match is_ancestor(answers, codex_home, source, ordered[idx as int]) {
            Err(request) => Err(request),
            Ok(true) => Ok(idx),
            Ok(false) => match is_ancestor(answers, codex_home, ordered[idx as int], source) {
                Err(request) => Err(request),
                Ok(true) => insertion_point(
                    answers,
                    codex_home,
                    ordered,
                    source,
                    idx + 1,
                    idx + 1,
                ),
                Ok(false) => insertion_point(
                    answers,
                    codex_home,
                    ordered,
                    source,
                    idx + 1,
                    otherwise,
                ),
            },
        }
    }
}

/// The sources in the order in which they are merged: each is put among those
/// before it, the first one first.
pub open spec fn ordered_sources(
    answers: AnswersView,
    codex_home: Seq<ComponentView>,
    sources: Seq<SourceView>,
) -> Result<Seq<SourceView>, RequestView>
    decreases sources.len(),
{
    if sources.len() == 0 {
        Ok(Seq::empty())
    } else {
        match ordered_sources(answers, codex_home, sources.drop_last()) {
            Err(request) => Err(request),
            Ok(ordered) => match insertion_point(
                answers,
                codex_home,
                ordered,
                sources.last(),
                0,
                ordered.len(),
            ) {
                Err(request) => Err(request),
                Ok(at) => Ok(ordered.insert(at as int, sources.last())),
            },
        }
    }
}

/// Where the order cannot be told for the first sources, it cannot for all.
proof fn lemma_order_stops(
    answers: AnswersView,
    codex_home: Seq<ComponentView>,
    sources: Seq<SourceView>,
    n: int,
)
    requires
        0 <= n <= sources.len(),
    ensures
        ordered_sources(answers, codex_home, sources.take(n)) matches Err(request)
            ==> ordered_sources(answers, codex_home, sources) == Err::<Seq<SourceView>, _>(request),
    decreases sources.len(),
{
    if n < sources.len() {
        assert(sources.drop_last().take(n) =~= sources.take(n));
        lemma_order_stops(answers, codex_home, sources.drop_last(), n);
    } else {
        assert(sources.take(n) =~= sources);
    }
}

/// A source goes somewhere among the others.
proof fn lemma_insertion_point_bounds(
    answers: AnswersView,
    codex_home: Seq<ComponentView>,
    ordered: Seq<SourceView>,
    source: SourceView,
    idx: nat,
    otherwise: nat,
)
    requires
        otherwise <= ordered.len(),
    ensures
        insertion_point(answers, codex_home, ordered, source, idx, otherwise) matches Ok(at) ==> at
            <= ordered.len(),
    decreases ordered.len() - idx,
{
    if idx < ordered.len() {
        lemma_insertion_point_bounds(answers, codex_home, ordered, source, idx + 1, idx + 1);
        lemma_insertion_point_bounds(answers, codex_home, ordered, source, idx + 1, otherwise);
    }
}

/// The sources in the order in which they are merged: those that others come
/// from before them.
pub fn order_merge_sources(
    answers: &Answers,
    codex_home: &Vec<PathComponent>,
    merge_sources: &[MergeSource],
) -> (result: Result<Vec<MergeSource>, Request>)
    ensures
        result_view(result) == ordered_sources(
            answers.deep_view(),
            codex_home.deep_view(),
            merge_sources.deep_view(),
        ),
{
    let ghost known = answers.deep_view();
    let ghost home = codex_home.deep_view();
    let ghost sources = merge_sources.deep_view();
    let mut ordered: Vec<MergeSource> = Vec::new();
    assert(ordered.deep_view() =~= Seq::<SourceView>::empty());
    for i in 0..merge_sources.len()
        invariant
            known == answers.deep_view(),
            home == codex_home.deep_view(),
            sources == merge_sources.deep_view(),
            ordered_sources(known, home, sources.take(i as int)) == Ok::<_, RequestView>(
                ordered.deep_view(),
            ),
    {
        let source = merge_sources[i].clone();
        assert(sources.take(i + 1).drop_last() =~= sources.take(i as int));
        let at: usize = match find_insertion_point(answers, codex_home, ordered.as_slice(), &source) {
            Ok(at) => at,
            Err(request) => {
                proof {
                    lemma_order_stops(known, home, sources, i + 1);
                }
                return Err(request);
            },
        };
        let ghost before = ordered.deep_view();
        ordered.insert(at, source);
        assert(ordered.deep_view() =~= before.insert(at as int, source.deep_view()));
    }
    assert(sources.take(merge_sources.len() as int) =~= sources);
    Ok(ordered)
}

/// Where `source` goes among the `ordered` sources.
fn find_insertion_point(
    answers: &Answers,
    codex_home: &Vec<PathComponent>,
    ordered: &[MergeSource],
    source: &MergeSource,
) -> (result: Result<usize, Request>)
    ensures
        insertion_point(
            answers.deep_view(),
            codex_home.deep_view(),
            ordered.deep_view(),
            source.deep_view(),
            0,
            ordered.len() as nat,
        ) == (match result {
            Ok(at) => Ok(at as nat),
            Err(request) => Err(request.deep_view()),
        }),
        result matches Ok(at) ==> at <= ordered.len(),
{
    let ghost known = answers.deep_view();
    let ghost home = codex_home.deep_view();
    let mut insert_at: usize = ordered.len();
    proof {
        lemma_insertion_point_bounds(
            known,
            home,
            ordered.deep_view(),
            source.deep_view(),
            0,
            ordered.len() as nat,
        );
    }
    for idx in 0..ordered.len()
        invariant
            known == answers.deep_view(),
            home == codex_home.deep_view(),
            insertion_point(
                known,
                home,
                ordered.deep_view(),
                source.deep_view(),
                0,
                ordered.len() as nat,
            ) == insertion_point(
                known,
                home,
                ordered.deep_view(),
                source.deep_view(),
                idx as nat,
                insert_at as nat,
            ),
            insert_at <= ordered.len(),
    {
        match is_ancestor_source(answers, codex_home, source, &ordered[idx]) {
            Ok(true) => {
                return Ok(idx);
            },
            Ok(false) => {},
            Err(request) => {
                return Err(request);
            },
        }
        match is_ancestor_source(answers, codex_home, &ordered[idx], source) {
            Ok(true) => {
                insert_at = idx + 1;
            },
            Ok(false) => {},
            Err(request) => {
                return Err(request);
            },
        }
    }
    Ok(insert_at)
}

/// The part that is to be appended begins among the items.
proof fn lemma_suffix_start_inside(
    answers: AnswersView,
    items: Seq<ItemView>,
    merged_turns: Seq<TurnView>,
    source_turns: Seq<TurnView>,
    common_len: nat,
)
    requires
        turns_of(answers, items) == Ok::<_, RequestView>(source_turns),
    ensures
        suffix_start(answers, items, merged_turns, source_turns, common_len) matches Ok(Some(idx))
            ==> idx < items.len(),
{
    lemma_turns_start_inside(answers, items);
    lemma_removal_inside(answers, merged_turns, items, common_len);
    if common_len < source_turns.len() {
        lemma_lead_in(items, source_turns[common_len as int].start_idx);
    }
}

/// A rollback that is found is one of the items.
proof fn lemma_removal_inside(
    answers: AnswersView,
    merged_turns: Seq<TurnView>,
    items: Seq<ItemView>,
    final_len: nat,
)
    ensures
        first_removal(answers, merged_turns, items, final_len) matches Ok(Some(idx)) ==> idx
            < items.len(),
    decreases items.len(),
{
    if items.len() > 0 {
        lemma_removal_inside(answers, merged_turns, items.drop_last(), final_len);
    }
}

/// What becomes of a rollout with the items `merged` when the one at `path` is
/// merged into it.
pub open spec fn merge_one(answers: AnswersView, merged: Seq<ItemView>, path: PathView) -> Result<
    Seq<ItemView>,
    RequestView,
> {
    match answers.rollout_histories.get(path) {
        None => Err(RequestView::RolloutHistory { path }),
        Some(source) => match turns_of(answers, merged) {
            Err(request) => Err(request),
            Ok(merged_turns) => match turns_of(answers, source) {
                Err(request) => Err(request),
                Ok(source_turns) => match suffix_start(
                    answers,
                    source,
                    merged_turns,
                    source_turns,
                    common_prefix_len(merged_turns, source_turns),
                ) {
                    Err(request) => Err(request),
                    Ok(None) => Ok(merged),
                    Ok(Some(cut_idx)) => Ok(
                        merged + without_boundaries(source.skip(cut_idx as int)),
                    ),
                },
            },
        },
    }
}

/// What becomes of it when `sources` are merged into it, one after the other.
pub open spec fn merge_all(
    answers: AnswersView,
    merged: Seq<ItemView>,
    sources: Seq<SourceView>,
) -> Result<Seq<ItemView>, RequestView>
    decreases sources.len(),
{
    if sources.len() == 0 {
        Ok(merged)
    } else {
        match merge_all(answers, merged, sources.drop_last()) {
            Err(request) => Err(request),
            Ok(before) => merge_one(answers, before, sources.last().path),
        }
    }
}

/// Where merging the first sources cannot be done, neither can merging all.
proof fn lemma_merge_stops(
    answers: AnswersView,
    merged: Seq<ItemView>,
    sources: Seq<SourceView>,
    n: int,
)
    requires
        0 <= n <= sources.len(),
    ensures
        merge_all(answers, merged, sources.take(n)) matches Err(request) ==> merge_all(
            answers,
            merged,
            sources,
        ) == Err::<Seq<ItemView>, _>(request),
    decreases sources.len(),
{
    if n < sources.len() {
        assert(sources.drop_last().take(n) =~= sources.take(n));
        lemma_merge_stops(answers, merged, sources.drop_last(), n);
    } else {
        assert(sources.take(n) =~= sources);
    }
}

/// Why the last of `sources` is no source of a merge into `base`, if it is not.
pub open spec fn source_obstacle(
    answers: AnswersView,
    codex_home: Seq<ComponentView>,
    base: Seq<char>,
    sources: Seq<SourceView>,
) -> Option<HaltView>
    recommends
        sources.len() > 0,
{
    let source = sources.last();
    if sources.drop_last().map_values(|s: SourceView| s.thread_id).contains(source.thread_id) {
        Some(
            HaltView::Rejected(
                InvalidRequestView::DuplicateMergeSource { thread_id: source.thread_id },
            ),
        )
    } else {
        match descent(answers, codex_home, source.path, base) {
            Err(request) => Some(HaltView::Asks(request)),
            Ok(false) => Some(
                HaltView::Rejected(
                    InvalidRequestView::NotDescendant {
                        thread_id: source.thread_id,
                        base_thread_id: base,
                    },
                ),
            ),
            Ok(true) => None,
        }
    }
}

/// Why `sources` cannot be merged into `base`: the first obstacle, if any.
pub open spec fn first_obstacle(
    answers: AnswersView,
    codex_home: Seq<ComponentView>,
    base: Seq<char>,
    sources: Seq<SourceView>,
) -> Option<HaltView>
    decreases sources.len(),
{
    if sources.len() == 0 {
        None
    } else {
        match first_obstacle(answers, codex_home, base, sources.drop_last()) {
            Some(halt) => Some(halt),
            None => source_obstacle(answers, codex_home, base, sources),
        }
    }
}

/// An obstacle among the first sources is one among all.
proof fn lemma_obstacle_stays(
    answers: AnswersView,
    codex_home: Seq<ComponentView>,
    base: Seq<char>,
    sources: Seq<SourceView>,
    n: int,
)
    requires
        0 <= n <= sources.len(),
        first_obstacle(answers, codex_home, base, sources.take(n)) is Some,
    ensures
        first_obstacle(answers, codex_home, base, sources) == first_obstacle(
            answers,
            codex_home,
            base,
            sources.take(n),
        ),
    decreases sources.len(),
{
    if n < sources.len() {
        assert(sources.drop_last().take(n) =~= sources.take(n));
        lemma_obstacle_stays(answers, codex_home, base, sources.drop_last(), n);
    } else {
        assert(sources.take(n) =~= sources);
    }
}

/// Session metadata that tell of no merge.
pub open spec fn without_provenance(line: MetaLineView) -> MetaLineView {
    MetaLineView {
        meta: MetaView { merge_base_thread_id: None, merged_from_thread_ids: None, ..line.meta },
        ..line
    }
}

/// The items that a merge starts from: those of the base without the marks
/// between items of different threads, with session metadata that tell of no
/// merge. There are none where the first is no session metadata.
pub open spec fn merge_base_items(items: Seq<ItemView>) -> Option<Seq<ItemView>> {
    let kept = without_boundaries(items);
    if kept.len() == 0 {
        None
    } else {
        match kept[0] {
            ItemView::SessionMeta(line) => Some(
                kept.update(0, ItemView::SessionMeta(without_provenance(line))),
            ),
            _ => None,
        }
    }
}

/// The rollout of `base_thread_id` with those of the sources merged into it.
pub open spec fn merged_rollout(
    answers: AnswersView,
    base_thread_id: Seq<char>,
    base_path: PathView,
    sources: Seq<SourceView>,
) -> Result<Seq<ItemView>, HaltView> {
    match codex_home(base_path) {
        Err(error) => Err(HaltView::Rejected(error)),
        Ok(home) => match first_obstacle(answers, home, base_thread_id, sources) {
            Some(halt) => Err(halt),
            None => match answers.rollout_histories.get(base_path) {
                None => Err(HaltView::Asks(RequestView::RolloutHistory { path: base_path })),
                Some(base_items) => match merge_base_items(base_items) {
                    None => Err(
                        HaltView::Rejected(
                            InvalidRequestView::MissingBaseMeta { path: base_path.text },
                        ),
                    ),
                    Some(start) => match ordered_sources(answers, home, sources) {
                        Err(request) => Err(HaltView::Asks(request)),
                        Ok(ordered) => match merge_all(answers, start, ordered) {
                            Err(request) => Err(HaltView::Asks(request)),
                            Ok(merged) => Ok(merged),
                        },
                    },
                },
            },
        },
    }
}

/// Tells why `sources` cannot be merged into `base_thread_id`, if they cannot.
pub fn check_merge_sources(
    answers: &Answers,
    codex_home: &Vec<PathComponent>,
    base_thread_id: &ThreadId,
    merge_sources: &[MergeSource],
) -> (result: Result<(), Halt>)
    ensures
        first_obstacle(
            answers.deep_view(),
            codex_home.deep_view(),
            base_thread_id.deep_view(),
            merge_sources.deep_view(),
        ) == (match result {
            Ok(_) => None,
            Err(halt) => Some(halt.deep_view()),
        }),
{
    let ghost known = answers.deep_view();
    let ghost home = codex_home.deep_view();
    let ghost base = base_thread_id.deep_view();
    let ghost sources = merge_sources.deep_view();
    let mut seen_source_ids: Vec<ThreadId> = Vec::new();
    for i in 0..merge_sources.len()
        invariant
            known == answers.deep_view(),
            home == codex_home.deep_view(),
            base == base_thread_id.deep_view(),
            sources == merge_sources.deep_view(),
            seen_source_ids.deep_view() =~= sources.take(i as int).map_values(
                |s: SourceView| s.thread_id,
            ),
            first_obstacle(known, home, base, sources.take(i as int)) is None,
    {
        let source = &merge_sources[i];
        let ghost upto = sources.take(i + 1);
        assert(upto.drop_last() =~= sources.take(i as int));
        assert(upto.last() == source.deep_view());
        if holds(seen_source_ids.as_slice(), &source.thread_id) {
            proof {
                lemma_obstacle_stays(known, home, base, sources, i + 1);
            }
            return Err(
                Halt::Rejected(
                    InvalidRequest::DuplicateMergeSource { thread_id: source.thread_id.clone() },
                ),
            );
        }
        match is_descendant_of_thread(answers, codex_home, &source.path, base_thread_id) {
            Ok(true) => {},
            Ok(false) => {
                proof {
                    lemma_obstacle_stays(known, home, base, sources, i + 1);
                }
                return Err(
                    Halt::Rejected(
                        InvalidRequest::NotDescendant {
                            thread_id: source.thread_id.clone(),
                            base_thread_id: base_thread_id.clone(),
                        },
                    ),
                );
            },
            Err(request) => {
                proof {
                    lemma_obstacle_stays(known, home, base, sources, i + 1);
                }
                return Err(Halt::Asks(request));
            },
        }
        let ghost before = seen_source_ids.deep_view();
        seen_source_ids.push(source.thread_id.clone());
        assert(seen_source_ids.deep_view() =~= before.push(source.thread_id.deep_view()));
    }
    assert(sources.take(merge_sources.len() as int) =~= sources);
    Ok(())
}

/// Merges the rollout at `path` into `merged_items`. Where an answer is
/// wanting, the items stay as they were.
pub fn merge_source(answers: &Answers, merged_items: &mut Vec<RolloutItem>, path: &PathRecord) -> (
result: Result<(), Request>)
    ensures
        merge_one(answers.deep_view(), old(merged_items).deep_view(), path.deep_view()) == (
        match result {
            Ok(_) => Ok(final(merged_items).deep_view()),
            Err(request) => Err(request.deep_view()),
        }),
        result is Err ==> final(merged_items).deep_view() == old(merged_items).deep_view(),
{
    let source_items = match answers.rollout_histories.get(path) {
        Some(history) => load_rollout_items(history),
        None => {
            return Err(Request::RolloutHistory { path: path.clone() });
        },
    };
    let merged_turns = match effective_turns(answers, merged_items.as_slice()) {
        Ok(turns) => turns,
        Err(request) => {
            return Err(request);
        },
    };
    let source_turns = match effective_turns(answers, source_items.as_slice()) {
        Ok(turns) => turns,
        Err(request) => {
            return Err(request);
        },
    };
    let common_prefix_len: usize = longest_common_prefix_len(
        merged_turns.as_slice(),
        source_turns.as_slice(),
    );
    let cut_idx = match source_suffix_start_idx(
        answers,
        source_items.as_slice(),
        merged_turns.as_slice(),
        source_turns.as_slice(),
        common_prefix_len,
    ) {
        Ok(Some(cut_idx)) => cut_idx,
        Ok(None) => {
            return Ok(());
        },
        Err(request) => {
            return Err(request);
        },
    };
    proof {
        lemma_suffix_start_inside(
            answers.deep_view(),
            source_items.deep_view(),
            merged_turns.deep_view(),
            source_turns.deep_view(),
            common_prefix_len as nat,
        );
    }
    let mut suffix = skip_boundaries(source_items.as_slice(), cut_idx);
    let ghost before = merged_items.deep_view();
    let ghost added = suffix.deep_view();
    merged_items.append(&mut suffix);
    assert(merged_items.deep_view() =~= before + added);
    Ok(())
}

/// The rollout of `base_thread_id`, which is at `base_path`, with those of its
/// descendants `merge_sources` merged into it: to the items of the base are
/// appended, for each source, the items from the first turn on that the merged
/// rollout has not.
pub fn build_merged_rollout(
    answers: &Answers,
    base_thread_id: &ThreadId,
    base_path: &PathRecord,
    merge_sources: &[MergeSource],
) -> (result: Result<Vec<RolloutItem>, Halt>)
    ensures
        result_view(result) == merged_rollout(
            answers.deep_view(),
            base_thread_id.deep_view(),
            base_path.deep_view(),
            merge_sources.deep_view(),
        ),
{
    let codex_home = match codex_home_from_rollout_path(base_path) {
        Ok(codex_home) => codex_home,
        Err(error) => {
            return Err(Halt::Rejected(error));
        },
    };
    match check_merge_sources(answers, &codex_home, base_thread_id, merge_sources) {
        Ok(_) => {},
        Err(halt) => {
            return Err(halt);
        },
    }
    let base_items = match answers.rollout_histories.get(base_path) {
        Some(history) => load_rollout_items(history),
        None => {
            return Err(Halt::Asks(Request::RolloutHistory { path: base_path.clone() }));
        },
    };
    let mut merged_items = match start_merge(&base_items) {
        Some(merged_items) => merged_items,
        None => {
            return Err(
                Halt::Rejected(InvalidRequest::MissingBaseMeta { path: base_path.text.clone() }),
            );
        },
    };
    let ordered = match order_merge_sources(answers, &codex_home, merge_sources) {
        Ok(ordered) => ordered,
        Err(request) => {
            return Err(Halt::Asks(request));
        },
    };
    let ghost known = answers.deep_view();
    let ghost start = merged_items.deep_view();
    let ghost sources = ordered.deep_view();
    for i in 0..ordered.len()
        invariant
            known == answers.deep_view(),
            sources == ordered.deep_view(),
            merge_all(known, start, sources.take(i as int)) == Ok::<_, RequestView>(
                merged_items.deep_view(),
            ),
            merged_rollout(
                known,
                base_thread_id.deep_view(),
                base_path.deep_view(),
                merge_sources.deep_view(),
            ) == (match merge_all(known, start, sources) {
                Err(request) => Err(HaltView::Asks(request)),
                Ok(merged) => Ok(merged),
            }),
    {
        assert(sources.take(i + 1).drop_last() =~= sources.take(i as int));
        match merge_source(answers, &mut merged_items, &ordered[i].path) {
            Ok(_) => {},
            Err(request) => {
                proof {
                    lemma_merge_stops(known, start, sources, i + 1);
                }
                return Err(Halt::Asks(request));
            },
        }
    }
    assert(sources.take(ordered.len() as int) =~= sources);
    Ok(merged_items)
}

/// The items that a merge starts from, where the base has `base_items`.
fn start_merge(base_items: &Vec<RolloutItem>) -> (result: Option<Vec<RolloutItem>>)
    ensures
        result.deep_view() == merge_base_items(base_items.deep_view()),
{
    assert(base_items.deep_view().skip(0) =~= base_items.deep_view());
    let mut merged_items = skip_boundaries(base_items.as_slice(), 0);
    let ghost kept = merged_items.deep_view();
    if merged_items.len() == 0 {
        return None;
    }
    assert(kept[0] == merged_items[0].deep_view());
    let meta_line = match &merged_items[0] {
        RolloutItem::SessionMeta(meta_line) => {
            let mut meta_line = meta_line.clone();
            meta_line.meta.merge_base_thread_id = None;
            meta_line.meta.merged_from_thread_ids = None;
            meta_line
        },
        _ => {
            return None;
        },
    };
    merged_items.set(0, RolloutItem::SessionMeta(meta_line));
    assert(merged_items.deep_view() =~= kept.update(
        0,
        ItemView::SessionMeta(meta_line.deep_view()),
    ));
    Some(merged_items)
}

} // verus!
