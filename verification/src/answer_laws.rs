//! What holds of the requests that are made, and of the answers to them.
//!
//! No request is made that has been answered, so that each answer brings a
//! merge or a combination further; and once there is a result, no further
//! answer changes it.

use vstd::prelude::*;

use crate::answers::{AnswersView, HaltView, RequestView};
use crate::lineage::{descent, has_ancestor, lost_at, nth_parent, nth_rollout};
use crate::path::{ComponentView, PathView};
use crate::protocol::ItemView;
use crate::thread_combine::{
    all_prepared, combined_rollout, ended_turns, first_duplicate, last_segment, segmented_turns,
};
use crate::thread_merge::{
    codex_home, first_obstacle, first_removal, insertion_point, merge_all, merge_base_items,
    merge_one, merged_rollout, most_shared, ordered_sources, SourceView,
};
use crate::turns::{common_prefix_len, scan, turns_of, TurnView};

verus! {

/// Whether a halt is no request, or one that has not been answered.
pub open spec fn asks_news(answers: AnswersView, halt: HaltView) -> bool {
    halt matches HaltView::Asks(request) ==> !answers.answered(request)
}

/// Playing back asks for nothing that has been answered.
pub proof fn lemma_scan_asks_news(answers: AnswersView, items: Seq<ItemView>)
    ensures
        scan(answers, items) matches Err(request) ==> !answers.answered(request),
    decreases items.len(),
{
    if items.len() > 0 {
        lemma_scan_asks_news(answers, items.drop_last());
    }
}

/// Nor does playing back a combined rollout.
pub proof fn lemma_segmented_turns_ask_news(answers: AnswersView, items: Seq<ItemView>)
    ensures
        segmented_turns(answers, items) matches Err(request) ==> !answers.answered(request),
{
    lemma_ended_turns_ask_news(answers, items);
    lemma_scan_asks_news(answers, last_segment(items));
}

/// Nor does playing back the histories before the last.
proof fn lemma_ended_turns_ask_news(answers: AnswersView, items: Seq<ItemView>)
    ensures
        ended_turns(answers, items) matches Err(request) ==> !answers.answered(request),
    decreases items.len(),
{
    if items.len() > 0 {
        lemma_ended_turns_ask_news(answers, items.drop_last());
        lemma_scan_asks_news(answers, last_segment(items.drop_last()));
    }
}

/// Nor does a step to the thread that was forked.
proof fn lemma_nth_rollout_asks_news(
    answers: AnswersView,
    codex_home: Seq<ComponentView>,
    path: PathView,
    n: nat,
)
    ensures
        nth_rollout(answers, codex_home, path, n) matches Err(request) ==> !answers.answered(request),
    decreases n,
{
    if n > 0 {
        lemma_nth_rollout_asks_news(answers, codex_home, path, (n - 1) as nat);
    }
}

/// Nor does following a line of descent.
pub proof fn lemma_descent_asks_news(
    answers: AnswersView,
    codex_home: Seq<ComponentView>,
    path: PathView,
    ancestor: Seq<char>,
)
    ensures
        descent(answers, codex_home, path, ancestor) matches Err(request) ==> !answers.answered(
            request,
        ),
{
    if let Err(request) = descent(answers, codex_home, path, ancestor) {
        assert(lost_at(answers, codex_home, path, request));
        let n = choose|n: nat|
            #[trigger] nth_parent(answers, codex_home, path, n) == Err::<Option<Seq<char>>, _>(
                request,
            );
        lemma_nth_rollout_asks_news(answers, codex_home, path, n);
    }
}

/// Nor does finding the place of a source.
proof fn lemma_insertion_point_asks_news(
    answers: AnswersView,
    codex_home: Seq<ComponentView>,
    ordered: Seq<SourceView>,
    source: SourceView,
    idx: nat,
    otherwise: nat,
)
    ensures
        insertion_point(answers, codex_home, ordered, source, idx, otherwise) matches Err(request)
            ==> !answers.answered(request),
    decreases ordered.len() - idx,
{
    if idx < ordered.len() {
        let existing = ordered[idx as int];
        lemma_descent_asks_news(answers, codex_home, existing.path, source.thread_id);
        lemma_descent_asks_news(answers, codex_home, source.path, existing.thread_id);
        lemma_insertion_point_asks_news(answers, codex_home, ordered, source, idx + 1, idx + 1);
        lemma_insertion_point_asks_news(answers, codex_home, ordered, source, idx + 1, otherwise);
    }
}

/// Nor does ordering the sources.
proof fn lemma_ordered_sources_ask_news(
    answers: AnswersView,
    codex_home: Seq<ComponentView>,
    sources: Seq<SourceView>,
)
    ensures
        ordered_sources(answers, codex_home, sources) matches Err(request) ==> !answers.answered(
            request,
        ),
    decreases sources.len(),
{
    if sources.len() > 0 {
        lemma_ordered_sources_ask_news(answers, codex_home, sources.drop_last());
        if let Ok(ordered) = ordered_sources(answers, codex_home, sources.drop_last()) {
            lemma_insertion_point_asks_news(
                answers,
                codex_home,
                ordered,
                sources.last(),
                0,
                ordered.len(),
            );
        }
    }
}

/// Nor does looking for a rollback.
proof fn lemma_first_removal_asks_news(
    answers: AnswersView,
    merged_turns: Seq<TurnView>,
    items: Seq<ItemView>,
    final_len: nat,
)
    ensures
        first_removal(answers, merged_turns, items, final_len) matches Err(request)
            ==> !answers.answered(request),
    decreases items.len(),
{
    if items.len() > 0 {
        lemma_first_removal_asks_news(answers, merged_turns, items.drop_last(), final_len);
        lemma_scan_asks_news(answers, items);
    }
}

/// Nor does merging one source after the other.
proof fn lemma_merge_all_asks_news(
    answers: AnswersView,
    merged: Seq<ItemView>,
    sources: Seq<SourceView>,
)
    ensures
        merge_all(answers, merged, sources) matches Err(request) ==> !answers.answered(request),
    decreases sources.len(),
{
    if sources.len() > 0 {
        lemma_merge_all_asks_news(answers, merged, sources.drop_last());
        if let Ok(before) = merge_all(answers, merged, sources.drop_last()) {
            lemma_merge_one_asks_news(answers, before, sources.last().path);
        }
    }
}

/// Nor does merging one source.
pub proof fn lemma_merge_one_asks_news(answers: AnswersView, merged: Seq<ItemView>, path: PathView)
    ensures
        merge_one(answers, merged, path) matches Err(request) ==> !answers.answered(request),
{
    lemma_scan_asks_news(answers, merged);
    if let Some(source) = answers.rollout_histories.get(path) {
        lemma_scan_asks_news(answers, source);
        if turns_of(answers, merged) is Ok && turns_of(answers, source) is Ok {
            let merged_turns = turns_of(answers, merged)->Ok_0;
            let source_turns = turns_of(answers, source)->Ok_0;
            lemma_first_removal_asks_news(
                answers,
                merged_turns,
                source,
                common_prefix_len(merged_turns, source_turns),
            );
        }
    }
}

/// Nor does looking for an obstacle.
proof fn lemma_obstacle_asks_news(
    answers: AnswersView,
    codex_home: Seq<ComponentView>,
    base: Seq<char>,
    sources: Seq<SourceView>,
)
    ensures
        first_obstacle(answers, codex_home, base, sources) matches Some(halt) ==> asks_news(
            answers,
            halt,
        ),
    decreases sources.len(),
{
    if sources.len() > 0 {
        lemma_obstacle_asks_news(answers, codex_home, base, sources.drop_last());
        lemma_descent_asks_news(answers, codex_home, sources.last().path, base);
    }
}

/// A merge asks for nothing that has been answered.
pub proof fn lemma_merge_asks_news(
    answers: AnswersView,
    base_thread_id: Seq<char>,
    base_path: PathView,
    sources: Seq<SourceView>,
)
    ensures
        merged_rollout(answers, base_thread_id, base_path, sources) matches Err(halt) ==> asks_news(
            answers,
            halt,
        ),
{
    if let Ok(home) = codex_home(base_path) {
        lemma_obstacle_asks_news(answers, home, base_thread_id, sources);
        lemma_ordered_sources_ask_news(answers, home, sources);
        if let Some(items) = answers.rollout_histories.get(base_path) {
            if let Some(start) = merge_base_items(items) {
                if let Ok(ordered) = ordered_sources(answers, home, sources) {
                    lemma_merge_all_asks_news(answers, start, ordered);
                }
            }
        }
    }
}

/// Nor does preparing the sources of a combination.
proof fn lemma_all_prepared_ask_news(answers: AnswersView, sources: Seq<SourceView>)
    ensures
        all_prepared(answers, sources) matches Err(halt) ==> asks_news(answers, halt),
    decreases sources.len(),
{
    if sources.len() > 0 {
        lemma_all_prepared_ask_news(answers, sources.drop_last());
    }
}

/// A combination asks for nothing that has been answered.
pub proof fn lemma_combine_asks_news(
    answers: AnswersView,
    base_thread_id: Seq<char>,
    base_path: PathView,
    sources: Seq<SourceView>,
)
    ensures
        combined_rollout(answers, base_thread_id, base_path, sources) matches Err(halt)
            ==> asks_news(answers, halt),
{
    lemma_all_prepared_ask_news(answers, sources);
}

/// Further answers do not change what was played back.
pub proof fn lemma_scan_settled(answers: AnswersView, later: AnswersView, items: Seq<ItemView>)
    requires
        answers.extended_by(later),
        scan(answers, items) is Ok,
    ensures
        scan(later, items) == scan(answers, items),
    decreases items.len(),
{
    if items.len() > 0 {
        lemma_scan_settled(answers, later, items.drop_last());
    }
}

/// Further answers do not change a step to the thread that was forked.
proof fn lemma_nth_rollout_settled(
    answers: AnswersView,
    later: AnswersView,
    codex_home: Seq<ComponentView>,
    path: PathView,
    n: nat,
)
    requires
        answers.extended_by(later),
    ensures
        nth_rollout(answers, codex_home, path, n) is Ok ==> nth_rollout(later, codex_home, path, n)
            == nth_rollout(answers, codex_home, path, n),
        nth_parent(answers, codex_home, path, n) is Ok ==> nth_parent(later, codex_home, path, n)
            == nth_parent(answers, codex_home, path, n),
    decreases n,
{
    if n > 0 {
        lemma_nth_rollout_settled(answers, later, codex_home, path, (n - 1) as nat);
    }
}

/// Further answers do not change whether one thread comes from another.
pub proof fn lemma_descent_settled(
    answers: AnswersView,
    later: AnswersView,
    codex_home: Seq<ComponentView>,
    path: PathView,
    ancestor: Seq<char>,
)
    requires
        answers.extended_by(later),
        descent(answers, codex_home, path, ancestor) is Ok,
    ensures
        descent(later, codex_home, path, ancestor) == descent(answers, codex_home, path, ancestor),
{
    if has_ancestor(answers, codex_home, path, ancestor) {
        let n = choose|n: nat|
            #[trigger] nth_parent(answers, codex_home, path, n) == Ok::<_, RequestView>(
                Some(ancestor),
            );
        lemma_nth_rollout_settled(answers, later, codex_home, path, n);
        assert(nth_parent(later, codex_home, path, n) == Ok::<_, RequestView>(Some(ancestor)));
    } else {
        assert forall|n: nat|
            {
                &&& #[trigger] nth_parent(later, codex_home, path, n) is Ok
                &&& nth_parent(later, codex_home, path, n) != Ok::<_, RequestView>(Some(ancestor))
            } by {
            lemma_nth_rollout_settled(answers, later, codex_home, path, n);
            if let Err(request) = nth_parent(answers, codex_home, path, n) {
                assert(lost_at(answers, codex_home, path, request));
            }
        }
    }
}

/// Further answers do not change the place of a source.
proof fn lemma_insertion_point_settled(
    answers: AnswersView,
    later: AnswersView,
    codex_home: Seq<ComponentView>,
    ordered: Seq<SourceView>,
    source: SourceView,
    idx: nat,
    otherwise: nat,
)
    requires
        answers.extended_by(later),
        insertion_point(answers, codex_home, ordered, source, idx, otherwise) is Ok,
    ensures
        insertion_point(later, codex_home, ordered, source, idx, otherwise) == insertion_point(
            answers,
            codex_home,
            ordered,
            source,
            idx,
            otherwise,
        ),
    decreases ordered.len() - idx,
{
    if idx < ordered.len() {
        let existing = ordered[idx as int];
        lemma_descent_settled(answers, later, codex_home, existing.path, source.thread_id);
        if descent(answers, codex_home, existing.path, source.thread_id) == Ok::<_, RequestView>(
            false,
        ) {
            lemma_descent_settled(answers, later, codex_home, source.path, existing.thread_id);
            if descent(answers, codex_home, source.path, existing.thread_id)->Ok_0 {
                lemma_insertion_point_settled(
                    answers,
                    later,
                    codex_home,
                    ordered,
                    source,
                    idx + 1,
                    idx + 1,
                );
            } else {
                lemma_insertion_point_settled(
                    answers,
                    later,
                    codex_home,
                    ordered,
                    source,
                    idx + 1,
                    otherwise,
                );
            }
        }
    }
}

/// Further answers do not change the order of the sources.
proof fn lemma_ordered_sources_settled(
    answers: AnswersView,
    later: AnswersView,
    codex_home: Seq<ComponentView>,
    sources: Seq<SourceView>,
)
    requires
        answers.extended_by(later),
        ordered_sources(answers, codex_home, sources) is Ok,
    ensures
        ordered_sources(later, codex_home, sources) == ordered_sources(
            answers,
            codex_home,
            sources,
        ),
    decreases sources.len(),
{
    if sources.len() > 0 {
        lemma_ordered_sources_settled(answers, later, codex_home, sources.drop_last());
        let ordered = ordered_sources(answers, codex_home, sources.drop_last())->Ok_0;
        lemma_insertion_point_settled(
            answers,
            later,
            codex_home,
            ordered,
            sources.last(),
            0,
            ordered.len(),
        );
    }
}

/// Further answers do not change how many turns were in common.
proof fn lemma_most_shared_settled(
    answers: AnswersView,
    later: AnswersView,
    merged_turns: Seq<TurnView>,
    items: Seq<ItemView>,
)
    requires
        answers.extended_by(later),
        scan(answers, items) is Ok,
    ensures
        most_shared(later, merged_turns, items) == most_shared(answers, merged_turns, items),
    decreases items.len(),
{
    lemma_scan_settled(answers, later, items);
    if items.len() > 0 {
        lemma_scan_settled(answers, later, items.drop_last());
        lemma_most_shared_settled(answers, later, merged_turns, items.drop_last());
    }
}

/// Further answers do not change which rollback is found.
proof fn lemma_first_removal_settled(
    answers: AnswersView,
    later: AnswersView,
    merged_turns: Seq<TurnView>,
    items: Seq<ItemView>,
    final_len: nat,
)
    requires
        answers.extended_by(later),
        first_removal(answers, merged_turns, items, final_len) is Ok,
    ensures
        first_removal(later, merged_turns, items, final_len) == first_removal(
            answers,
            merged_turns,
            items,
            final_len,
        ),
    decreases items.len(),
{
    if items.len() > 0 {
        lemma_first_removal_settled(answers, later, merged_turns, items.drop_last(), final_len);
        if first_removal(answers, merged_turns, items.drop_last(), final_len)->Ok_0 is None {
            lemma_scan_settled(answers, later, items);
            lemma_most_shared_settled(answers, later, merged_turns, items);
        }
    }
}

/// Further answers do not change what merging one source comes to.
pub proof fn lemma_merge_one_settled(
    answers: AnswersView,
    later: AnswersView,
    merged: Seq<ItemView>,
    path: PathView,
)
    requires
        answers.extended_by(later),
        merge_one(answers, merged, path) is Ok,
    ensures
        merge_one(later, merged, path) == merge_one(answers, merged, path),
{
    let source = answers.rollout_histories[path];
    lemma_scan_settled(answers, later, merged);
    lemma_scan_settled(answers, later, source);
    let merged_turns = turns_of(answers, merged)->Ok_0;
    let source_turns = turns_of(answers, source)->Ok_0;
    lemma_first_removal_settled(
        answers,
        later,
        merged_turns,
        source,
        common_prefix_len(merged_turns, source_turns),
    );
}

/// Further answers do not change what merging several sources comes to.
proof fn lemma_merge_all_settled(
    answers: AnswersView,
    later: AnswersView,
    merged: Seq<ItemView>,
    sources: Seq<SourceView>,
)
    requires
        answers.extended_by(later),
        merge_all(answers, merged, sources) is Ok,
    ensures
        merge_all(later, merged, sources) == merge_all(answers, merged, sources),
    decreases sources.len(),
{
    if sources.len() > 0 {
        lemma_merge_all_settled(answers, later, merged, sources.drop_last());
        let before = merge_all(answers, merged, sources.drop_last())->Ok_0;
        lemma_merge_one_settled(answers, later, before, sources.last().path);
    }
}

/// Further answers do not change an obstacle that is no request.
proof fn lemma_obstacle_settled(
    answers: AnswersView,
    later: AnswersView,
    codex_home: Seq<ComponentView>,
    base: Seq<char>,
    sources: Seq<SourceView>,
)
    requires
        answers.extended_by(later),
        !(first_obstacle(answers, codex_home, base, sources) matches Some(HaltView::Asks(_))),
    ensures
        first_obstacle(later, codex_home, base, sources) == first_obstacle(
            answers,
            codex_home,
            base,
            sources,
        ),
    decreases sources.len(),
{
    if sources.len() > 0 {
        lemma_obstacle_settled(answers, later, codex_home, base, sources.drop_last());
        if first_obstacle(answers, codex_home, base, sources.drop_last()) is None {
            if descent(answers, codex_home, sources.last().path, base) is Ok {
                lemma_descent_settled(answers, later, codex_home, sources.last().path, base);
            }
        }
    }
}

/// Once a merge has a result, or is refused, no further answer changes that.
pub proof fn lemma_merge_settled(
    answers: AnswersView,
    later: AnswersView,
    base_thread_id: Seq<char>,
    base_path: PathView,
    sources: Seq<SourceView>,
)
    requires
        answers.extended_by(later),
        !(merged_rollout(answers, base_thread_id, base_path, sources) matches Err(
            HaltView::Asks(_),
        )),
    ensures
        merged_rollout(later, base_thread_id, base_path, sources) == merged_rollout(
            answers,
            base_thread_id,
            base_path,
            sources,
        ),
{
    if let Ok(home) = codex_home(base_path) {
        lemma_obstacle_settled(answers, later, home, base_thread_id, sources);
        if first_obstacle(answers, home, base_thread_id, sources) is None {
            let items = answers.rollout_histories[base_path];
            if let Some(start) = merge_base_items(items) {
                lemma_ordered_sources_settled(answers, later, home, sources);
                let ordered = ordered_sources(answers, home, sources)->Ok_0;
                lemma_merge_all_settled(answers, later, start, ordered);
            }
        }
    }
}

/// Further answers do not change what the sources bring.
proof fn lemma_all_prepared_settled(
    answers: AnswersView,
    later: AnswersView,
    sources: Seq<SourceView>,
)
    requires
        answers.extended_by(later),
        !(all_prepared(answers, sources) matches Err(HaltView::Asks(_))),
    ensures
        all_prepared(later, sources) == all_prepared(answers, sources),
    decreases sources.len(),
{
    if sources.len() > 0 {
        lemma_all_prepared_settled(answers, later, sources.drop_last());
    }
}

/// Once a combination has a result, or is refused, no further answer changes
/// that.
pub proof fn lemma_combine_settled(
    answers: AnswersView,
    later: AnswersView,
    base_thread_id: Seq<char>,
    base_path: PathView,
    sources: Seq<SourceView>,
)
    requires
        answers.extended_by(later),
        !(combined_rollout(answers, base_thread_id, base_path, sources) matches Err(
            HaltView::Asks(_),
        )),
    ensures
        combined_rollout(later, base_thread_id, base_path, sources) == combined_rollout(
            answers,
            base_thread_id,
            base_path,
            sources,
        ),
{
    if first_duplicate(sources) is None {
        lemma_all_prepared_settled(answers, later, sources);
    }
}

} // verus!
