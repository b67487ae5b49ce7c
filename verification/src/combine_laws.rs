//! What holds of combining, whatever the threads.

use vstd::prelude::*;

use crate::answers::{AnswersView, HaltView, RequestView};
use crate::error::InvalidRequestView;
use crate::path::PathView;
use crate::protocol::ItemView;
use crate::thread_combine::{
    all_prepared, combined_rollout, ended_turns, first_duplicate, last_segment, prepared,
    provenance, segmented_turns, separates, session_meta, with_provenance, PreparedView,
};
use crate::thread_merge::SourceView;
use crate::turns::{turns_of, TurnView};

verus! {

/// Histories that an item separates are played back each by itself.
pub proof fn lemma_segments_apart(
    answers: AnswersView,
    first: Seq<ItemView>,
    item: ItemView,
    second: Seq<ItemView>,
)
    requires
        separates(item),
        segmented_turns(answers, first) is Ok,
        segmented_turns(answers, second) is Ok,
    ensures
        segmented_turns(answers, first + seq![item] + second) == Ok::<_, RequestView>(
            segmented_turns(answers, first)->Ok_0 + segmented_turns(answers, second)->Ok_0,
        ),
{
    lemma_ended_apart(answers, first, item, second);
    let turns = turns_of(answers, last_segment(second))->Ok_0;
    let earlier = ended_turns(answers, second)->Ok_0;
    assert(segmented_turns(answers, first)->Ok_0 + earlier + turns =~= segmented_turns(
        answers,
        first,
    )->Ok_0 + (earlier + turns));
}

/// The turns before the last history, where an item separates two parts.
proof fn lemma_ended_apart(
    answers: AnswersView,
    first: Seq<ItemView>,
    item: ItemView,
    second: Seq<ItemView>,
)
    requires
        separates(item),
        segmented_turns(answers, first) is Ok,
        ended_turns(answers, second) is Ok,
    ensures
        last_segment(first + seq![item] + second) == last_segment(second),
        ended_turns(answers, first + seq![item] + second) == Ok::<_, RequestView>(
            segmented_turns(answers, first)->Ok_0 + ended_turns(answers, second)->Ok_0,
        ),
    decreases second.len(),
{
    let all = first + seq![item] + second;
    if second.len() == 0 {
        assert(all =~= first.push(item));
        assert(all.drop_last() =~= first);
        assert(segmented_turns(answers, first)->Ok_0 + Seq::<TurnView>::empty() =~= segmented_turns(
            answers,
            first,
        )->Ok_0);
    } else {
        let rest = second.drop_last();
        lemma_ended_apart(answers, first, item, rest);
        assert(all.drop_last() =~= first + seq![item] + rest);
        assert(all.last() == second.last());
        if separates(second.last()) {
            let turns = turns_of(answers, last_segment(rest))->Ok_0;
            assert(segmented_turns(answers, first)->Ok_0 + ended_turns(answers, rest)->Ok_0 + turns
                =~= segmented_turns(answers, first)->Ok_0 + (ended_turns(answers, rest)->Ok_0
                + turns));
        }
    }
}

/// What separates histories from what follows has no turns of its own.
proof fn lemma_separator_first(answers: AnswersView, items: Seq<ItemView>)
    requires
        items.len() > 0,
        separates(items[0]),
    ensures
        segmented_turns(answers, items.skip(1)) is Ok ==> segmented_turns(answers, items)
            == segmented_turns(answers, items.skip(1)),
        segmented_turns(answers, items) is Ok ==> segmented_turns(answers, items.skip(1)) is Ok,
{
    let rest = items.skip(1);
    let none = Seq::<ItemView>::empty();
    assert(none + seq![items[0]] + rest =~= items);
    assert(segmented_turns(answers, none) == Ok::<_, RequestView>(Seq::<TurnView>::empty())) by {
        assert(Seq::<TurnView>::empty() + Seq::<TurnView>::empty() =~= Seq::<TurnView>::empty());
    }
    if segmented_turns(answers, rest) is Ok {
        lemma_segments_apart(answers, none, items[0], rest);
        assert(Seq::<TurnView>::empty() + segmented_turns(answers, rest)->Ok_0 =~= segmented_turns(
            answers,
            rest,
        )->Ok_0);
    }
    if segmented_turns(answers, items) is Ok {
        lemma_rest_ok(answers, items, 1);
    }
}

/// The histories behind one that separates can be played back where all can.
proof fn lemma_rest_ok(answers: AnswersView, items: Seq<ItemView>, n: int)
    requires
        0 < n <= items.len(),
        separates(items[n - 1]),
        ended_turns(answers, items) is Ok,
    ensures
        ended_turns(answers, items.skip(n)) is Ok,
        last_segment(items.skip(n)) == last_segment(items),
    decreases items.len(),
{
    if n < items.len() {
        let rest = items.drop_last();
        lemma_rest_ok(answers, rest, n);
        assert(items.skip(n).drop_last() =~= rest.skip(n));
        assert(items.skip(n).last() == items.last());
    }
}

/// The turns of each source of a combination.
pub open spec fn source_turns(answers: AnswersView, sources: Seq<SourceView>) -> Seq<
    Seq<TurnView>,
> {
    sources.map_values(
        |source: SourceView|
            segmented_turns(answers, answers.rollout_histories[source.path])->Ok_0,
    )
}

/// What all sources bring is what each of them brings.
proof fn lemma_all_prepared(answers: AnswersView, sources: Seq<SourceView>)
    requires
        all_prepared(answers, sources) is Ok,
    ensures
        all_prepared(answers, sources)->Ok_0.len() == sources.len(),
        forall|i: int|
            0 <= i < sources.len() ==> prepared(answers, #[trigger] sources[i]) == Ok::<_, HaltView>(
                all_prepared(answers, sources)->Ok_0[i],
            ),
    decreases sources.len(),
{
    if sources.len() > 0 {
        let rest = sources.drop_last();
        lemma_all_prepared(answers, rest);
        assert forall|i: int| 0 <= i < sources.len() implies prepared(
            answers,
            #[trigger] sources[i],
        ) == Ok::<_, HaltView>(all_prepared(answers, sources)->Ok_0[i]) by {
            if i < rest.len() {
                assert(rest[i] == sources[i]);
            }
        }
    }
}

/// The turns of a combination are those of the base, then those of each source
/// in the order in which they are given: no history is changed by another.
pub proof fn lemma_combined_turns(
    answers: AnswersView,
    base_thread_id: Seq<char>,
    base_path: PathView,
    sources: Seq<SourceView>,
)
    requires
        combined_rollout(answers, base_thread_id, base_path, sources) is Ok,
        segmented_turns(answers, answers.rollout_histories[base_path]) is Ok,
        forall|i: int|
            0 <= i < sources.len() ==> segmented_turns(
                answers,
                answers.rollout_histories[(#[trigger] sources[i]).path],
            ) is Ok,
    ensures
        segmented_turns(
            answers,
            combined_rollout(answers, base_thread_id, base_path, sources)->Ok_0,
        ) == Ok::<_, RequestView>(
            segmented_turns(answers, answers.rollout_histories[base_path])->Ok_0 + source_turns(
                answers,
                sources,
            ).flatten(),
        ),
{
    lemma_all_prepared(answers, sources);
    let brought = all_prepared(answers, sources)->Ok_0;
    let items = answers.rollout_histories[base_path];
    let line = with_provenance(
        session_meta(items)->0,
        base_thread_id,
        provenance(answers.merged_from_thread_ids[items], brought),
    );
    let base = items.update(0, ItemView::SessionMeta(line));
    assert(base.skip(1) =~= items.skip(1));
    lemma_separator_first(answers, items);
    lemma_separator_first(answers, base);
    let segments = brought.map_values(|source: PreparedView| source.segment());
    lemma_segments_turns(answers, base, sources, brought, sources.len() as int);
    assert(segments.take(sources.len() as int) =~= segments);
    assert(source_turns(answers, sources).take(sources.len() as int) =~= source_turns(
        answers,
        sources,
    ));
}

/// The turns of a combination of the first `n` sources.
proof fn lemma_segments_turns(
    answers: AnswersView,
    base: Seq<ItemView>,
    sources: Seq<SourceView>,
    brought: Seq<PreparedView>,
    n: int,
)
    requires
        0 <= n <= sources.len(),
        brought.len() == sources.len(),
        segmented_turns(answers, base) is Ok,
        forall|i: int|
            0 <= i < sources.len() ==> segmented_turns(
                answers,
                answers.rollout_histories[(#[trigger] sources[i]).path],
            ) is Ok,
        forall|i: int|
            0 <= i < sources.len() ==> prepared(answers, #[trigger] sources[i]) == Ok::<_, HaltView>(
                brought[i],
            ),
    ensures
        segmented_turns(
            answers,
            base + brought.map_values(|source: PreparedView| source.segment()).take(n).flatten(),
        ) == Ok::<_, RequestView>(
            segmented_turns(answers, base)->Ok_0 + source_turns(answers, sources).take(n).flatten(),
        ),
    decreases n,
{
    let segments = brought.map_values(|source: PreparedView| source.segment());
    let turns = source_turns(answers, sources);
    let base_turns = segmented_turns(answers, base)->Ok_0;
    if n == 0 {
        assert(base + segments.take(n).flatten() =~= base);
        assert(base_turns + turns.take(n).flatten() =~= base_turns);
    } else {
        let k = n - 1;
        lemma_segments_turns(answers, base, sources, brought, k);
        assert(segments.take(n) =~= segments.take(k).push(segments[k]));
        segments.take(k).lemma_flatten_push(segments[k]);
        assert(turns.take(n) =~= turns.take(k).push(turns[k]));
        turns.take(k).lemma_flatten_push(turns[k]);
        let items = answers.rollout_histories[sources[k].path];
        assert(prepared(answers, sources[k]) == Ok::<_, HaltView>(brought[k]));
        lemma_separator_first(answers, items);
        let mark = ItemView::MergeBoundary { source_thread_id: brought[k].thread_id };
        let before = base + segments.take(k).flatten();
        lemma_segments_apart(answers, before, mark, items.skip(1));
        assert(before + seq![mark] + items.skip(1) =~= base + segments.take(n).flatten());
        assert(base_turns + turns.take(k).flatten() + turns[k] =~= base_turns + turns.take(
            n,
        ).flatten());
    }
}

/// A member of a flattened list is one of one of the parts.
proof fn lemma_flatten_contains<A>(parts: Seq<Seq<A>>, x: A)
    ensures
        parts.flatten().contains(x) <==> exists|i: int|
            0 <= i < parts.len() && (#[trigger] parts[i]).contains(x),
    decreases parts.len(),
{
    if parts.len() > 0 {
        let first = parts.first();
        let rest = parts.drop_first();
        lemma_flatten_contains(rest, x);
        assert(parts.flatten() == first + rest.flatten());
        if parts.flatten().contains(x) {
            let k = choose|k: int| 0 <= k < parts.flatten().len() && parts.flatten()[k] == x;
            if k < first.len() {
                assert(first[k] == x);
                assert(parts[0].contains(x));
            } else {
                assert(rest.flatten()[k - first.len()] == x);
                let i = choose|i: int| 0 <= i < rest.len() && (#[trigger] rest[i]).contains(x);
                assert(parts[i + 1].contains(x));
            }
        }
        if exists|i: int| 0 <= i < parts.len() && (#[trigger] parts[i]).contains(x) {
            let i = choose|i: int| 0 <= i < parts.len() && (#[trigger] parts[i]).contains(x);
            if i == 0 {
                let k = choose|k: int| 0 <= k < first.len() && first[k] == x;
                assert(parts.flatten()[k] == x);
            } else {
                assert(rest[i - 1].contains(x));
                let k = choose|k: int| 0 <= k < rest.flatten().len() && rest.flatten()[k] == x;
                assert(parts.flatten()[first.len() + k] == x);
            }
        }
    }
}

/// The threads that a combination is said to be merged from: first those that
/// the base was, as they are; then, each once, the sources and the threads that
/// they were merged from themselves, and no others.
pub proof fn lemma_provenance(base_merged_from: Seq<Seq<char>>, sources: Seq<PreparedView>)
    ensures
        base_merged_from.is_prefix_of(provenance(base_merged_from, sources)),
        base_merged_from.no_duplicates() ==> provenance(base_merged_from, sources).no_duplicates(),
        forall|thread_id: Seq<char>| #[trigger]
            provenance(base_merged_from, sources).contains(thread_id) <==> {
                ||| base_merged_from.contains(thread_id)
                ||| exists|i: int|
                    0 <= i < sources.len() && (#[trigger] sources[i]).thread_ids().contains(
                        thread_id,
                    )
            },
{
    let lists = sources.map_values(|source: PreparedView| source.thread_ids());
    let all = lists.flatten();
    lemma_remove_duplicates_extends(all, base_merged_from);
    all.lemma_remove_duplicates_properties(base_merged_from);
    assert forall|thread_id: Seq<char>| #[trigger]
        provenance(base_merged_from, sources).contains(thread_id) <==> {
            ||| base_merged_from.contains(thread_id)
            ||| exists|i: int|
                0 <= i < sources.len() && (#[trigger] sources[i]).thread_ids().contains(thread_id)
        } by {
        lemma_flatten_contains(lists, thread_id);
        assert((all + base_merged_from).contains(thread_id) <==> all.contains(thread_id)
            || base_merged_from.contains(thread_id)) by {
            vstd::seq_lib::lemma_seq_concat_contains_all_elements(all, base_merged_from, thread_id);
        }
        if all.contains(thread_id) {
            let i = choose|i: int| 0 <= i < lists.len() && (#[trigger] lists[i]).contains(thread_id);
            assert(sources[i].thread_ids().contains(thread_id));
        }
        if exists|i: int|
            0 <= i < sources.len() && (#[trigger] sources[i]).thread_ids().contains(thread_id) {
            let i = choose|i: int|
                0 <= i < sources.len() && (#[trigger] sources[i]).thread_ids().contains(thread_id);
            assert(lists[i].contains(thread_id));
        }
    }
}

/// Adding ids, each once, leaves those that were there as they are.
proof fn lemma_remove_duplicates_extends(ids: Seq<Seq<char>>, seen: Seq<Seq<char>>)
    ensures
        seen.is_prefix_of(ids.remove_duplicates(seen)),
        seen.no_duplicates() ==> ids.remove_duplicates(seen).no_duplicates(),
    decreases ids.len(),
{
    if ids.len() > 0 {
        let more = seen + seq![ids[0]];
        if seen.contains(ids[0]) {
            lemma_remove_duplicates_extends(ids.skip(1), seen);
        } else {
            lemma_remove_duplicates_extends(ids.skip(1), more);
            assert(seen.no_duplicates() ==> more.no_duplicates());
            assert(seen =~= more.take(seen.len() as int));
            assert(seen.is_prefix_of(ids.remove_duplicates(seen)));
        }
    }
}

/// The threads that the marks in `items` name.
pub open spec fn marks(items: Seq<ItemView>) -> Seq<Seq<char>>
    decreases items.len(),
{
    if items.len() == 0 {
        Seq::empty()
    } else {
        match items.last() {
            ItemView::MergeBoundary { source_thread_id } => marks(items.drop_last()).push(
                source_thread_id,
            ),
            _ => marks(items.drop_last()),
        }
    }
}

/// The marks of two parts are those of the first and then the second.
proof fn lemma_marks_append(a: Seq<ItemView>, b: Seq<ItemView>)
    ensures
        marks(a + b) == marks(a) + marks(b),
    decreases b.len(),
{
    if b.len() == 0 {
        assert(a + b =~= a);
        assert(marks(a) + marks(b) =~= marks(a));
    } else {
        lemma_marks_append(a, b.drop_last());
        assert((a + b).drop_last() =~= a + b.drop_last());
        assert(marks(a + b) =~= marks(a) + marks(b));
    }
}

/// The marks of a combination: those of the base, then, for each source, one
/// that names it, and those that it has.
pub proof fn lemma_combined_marks(
    answers: AnswersView,
    base_thread_id: Seq<char>,
    base_path: PathView,
    sources: Seq<SourceView>,
)
    requires
        combined_rollout(answers, base_thread_id, base_path, sources) is Ok,
    ensures
        marks(combined_rollout(answers, base_thread_id, base_path, sources)->Ok_0) == marks(
            answers.rollout_histories[base_path],
        ) + sources.map_values(
            |source: SourceView|
                seq![source.thread_id] + marks(answers.rollout_histories[source.path]),
        ).flatten(),
{
    lemma_all_prepared(answers, sources);
    let brought = all_prepared(answers, sources)->Ok_0;
    let items = answers.rollout_histories[base_path];
    let line = with_provenance(
        session_meta(items)->0,
        base_thread_id,
        provenance(answers.merged_from_thread_ids[items], brought),
    );
    let base = items.update(0, ItemView::SessionMeta(line));
    lemma_marks_skip_first(items);
    lemma_marks_skip_first(base);
    assert(base.skip(1) =~= items.skip(1));
    let segments = brought.map_values(|source: PreparedView| source.segment());
    let named = sources.map_values(
        |source: SourceView|
            seq![source.thread_id] + marks(answers.rollout_histories[source.path]),
    );
    lemma_marks_append(base, segments.flatten());
    lemma_marks_of_segments(answers, sources, brought, sources.len() as int);
    assert(segments.take(sources.len() as int) =~= segments);
    assert(named.take(sources.len() as int) =~= named);
}

/// Session metadata name no thread as a mark does.
proof fn lemma_marks_skip_first(items: Seq<ItemView>)
    requires
        items.len() > 0,
        items[0] is SessionMeta,
    ensures
        marks(items) == marks(items.skip(1)),
{
    let first = seq![items[0]];
    assert(first + items.skip(1) =~= items);
    lemma_marks_append(first, items.skip(1));
    assert(first.drop_last() =~= Seq::<ItemView>::empty());
    assert(marks(first) == Seq::<Seq<char>>::empty()) by {
        reveal_with_fuel(marks, 2);
    }
    assert(marks(first) + marks(items.skip(1)) =~= marks(items.skip(1)));
}

/// The marks of what the first `n` sources bring.
proof fn lemma_marks_of_segments(
    answers: AnswersView,
    sources: Seq<SourceView>,
    brought: Seq<PreparedView>,
    n: int,
)
    requires
        0 <= n <= sources.len(),
        brought.len() == sources.len(),
        forall|i: int|
            0 <= i < sources.len() ==> prepared(answers, #[trigger] sources[i]) == Ok::<_, HaltView>(
                brought[i],
            ),
    ensures
        marks(brought.map_values(|source: PreparedView| source.segment()).take(n).flatten())
            == sources.map_values(
            |source: SourceView|
                seq![source.thread_id] + marks(answers.rollout_histories[source.path]),
        ).take(n).flatten(),
    decreases n,
{
    let segments = brought.map_values(|source: PreparedView| source.segment());
    let named = sources.map_values(
        |source: SourceView|
            seq![source.thread_id] + marks(answers.rollout_histories[source.path]),
    );
    if n > 0 {
        let k = n - 1;
        lemma_marks_of_segments(answers, sources, brought, k);
        assert(segments.take(n) =~= segments.take(k).push(segments[k]));
        segments.take(k).lemma_flatten_push(segments[k]);
        assert(named.take(n) =~= named.take(k).push(named[k]));
        named.take(k).lemma_flatten_push(named[k]);
        lemma_marks_append(segments.take(k).flatten(), segments[k]);
        assert(prepared(answers, sources[k]) == Ok::<_, HaltView>(brought[k]));
        let items = answers.rollout_histories[sources[k].path];
        lemma_marks_skip_first(items);
        let mark = seq![ItemView::MergeBoundary { source_thread_id: brought[k].thread_id }];
        lemma_marks_append(mark, items.skip(1));
        assert(mark.drop_last() =~= Seq::<ItemView>::empty());
        assert(marks(mark) =~= seq![sources[k].thread_id]) by {
            reveal_with_fuel(marks, 2);
        }
        assert(marks(segments[k]) == named[k]);
    } else {
        assert(segments.take(n).flatten() =~= Seq::<ItemView>::empty());
        assert(named.take(n).flatten() =~= Seq::<Seq<char>>::empty());
    }
}

/// No two sources name one thread where there is no duplicate.
proof fn lemma_no_duplicate(sources: Seq<SourceView>)
    requires
        first_duplicate(sources) is None,
    ensures
        forall|i: int, j: int|
            0 <= i < j < sources.len() ==> (#[trigger] sources[i]).thread_id != (
            #[trigger] sources[j]).thread_id,
    decreases sources.len(),
{
    if sources.len() > 0 {
        let rest = sources.drop_last();
        lemma_no_duplicate(rest);
        let ids = rest.map_values(|s: SourceView| s.thread_id);
        assert forall|i: int, j: int| 0 <= i < j < sources.len() implies (
        #[trigger] sources[i]).thread_id != (#[trigger] sources[j]).thread_id by {
            assert(rest[i] == sources[i]);
            assert(ids[i] == sources[i].thread_id);
            if j < rest.len() {
                assert(rest[j] == sources[j]);
            }
        }
    }
}

/// A combination is of different threads, and of each the rollout is its own.
/// It opens with the items of the base.
pub proof fn lemma_combined_are_distinct(
    answers: AnswersView,
    base_thread_id: Seq<char>,
    base_path: PathView,
    sources: Seq<SourceView>,
)
    requires
        combined_rollout(answers, base_thread_id, base_path, sources) is Ok,
    ensures
        forall|i: int, j: int|
            0 <= i < j < sources.len() ==> (#[trigger] sources[i]).thread_id != (
            #[trigger] sources[j]).thread_id,
        forall|i: int|
            0 <= i < sources.len() ==> {
                &&& session_meta(
                    answers.rollout_histories[(#[trigger] sources[i]).path],
                ) matches Some(line)
                &&& line.meta.id == sources[i].thread_id
            },
        ({
            let items = answers.rollout_histories[base_path];
            let result = combined_rollout(answers, base_thread_id, base_path, sources)->Ok_0;
            &&& 0 < items.len() <= result.len()
            &&& items.skip(1) == result.subrange(1, items.len() as int)
        }),
{
    lemma_no_duplicate(sources);
    lemma_all_prepared(answers, sources);
    assert forall|i: int| 0 <= i < sources.len() implies {
        &&& session_meta(answers.rollout_histories[(#[trigger] sources[i]).path]) matches Some(line)
        &&& line.meta.id == sources[i].thread_id
    } by {
        assert(prepared(answers, sources[i]) is Ok);
    }
    let items = answers.rollout_histories[base_path];
    let result = combined_rollout(answers, base_thread_id, base_path, sources)->Ok_0;
    assert(items.skip(1) =~= result.subrange(1, items.len() as int));
}

/// A combination is refused for a thread named twice just where one is.
pub proof fn lemma_combine_refuses_duplicates(
    answers: AnswersView,
    base_thread_id: Seq<char>,
    base_path: PathView,
    sources: Seq<SourceView>,
)
    ensures
        (combined_rollout(answers, base_thread_id, base_path, sources) matches Err(
            HaltView::Rejected(InvalidRequestView::DuplicateCombineSource { .. }),
        )) <==> exists|i: int, j: int|
            0 <= i < j < sources.len() && (#[trigger] sources[i]).thread_id == (
            #[trigger] sources[j]).thread_id,
{
    if first_duplicate(sources) is None {
        lemma_no_duplicate(sources);
        lemma_preparing_no_duplicate(answers, sources);
    } else {
        lemma_duplicate_is_one(sources);
    }
}

/// No source is refused for being named twice once they are prepared.
proof fn lemma_preparing_no_duplicate(answers: AnswersView, sources: Seq<SourceView>)
    ensures
        !(all_prepared(answers, sources) matches Err(
            HaltView::Rejected(InvalidRequestView::DuplicateCombineSource { .. }),
        )),
    decreases sources.len(),
{
    if sources.len() > 0 {
        lemma_preparing_no_duplicate(answers, sources.drop_last());
    }
}

/// Where there is a duplicate, two sources name one thread.
proof fn lemma_duplicate_is_one(sources: Seq<SourceView>)
    requires
        first_duplicate(sources) is Some,
    ensures
        exists|i: int, j: int|
            0 <= i < j < sources.len() && (#[trigger] sources[i]).thread_id == (
            #[trigger] sources[j]).thread_id,
    decreases sources.len(),
{
    let rest = sources.drop_last();
    if first_duplicate(rest) is Some {
        lemma_duplicate_is_one(rest);
        let (i, j) = choose|i: int, j: int|
            0 <= i < j < rest.len() && (#[trigger] rest[i]).thread_id == (
            #[trigger] rest[j]).thread_id;
        assert(sources[i].thread_id == sources[j].thread_id);
    } else {
        let ids = rest.map_values(|s: SourceView| s.thread_id);
        let i = choose|i: int| 0 <= i < ids.len() && ids[i] == sources.last().thread_id;
        assert(sources[i].thread_id == sources[sources.len() - 1].thread_id);
    }
}

} // verus!
