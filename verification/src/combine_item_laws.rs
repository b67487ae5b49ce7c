//! What a combined rollout holds, item by item, and when there is none, told by
//! what is on record of the base and of the sources.

use vstd::prelude::*;

use crate::answers::{AnswersView, HaltView, RequestView};
use crate::error::InvalidRequestView;
use crate::merge_item_laws::is_repeated;
use crate::path::PathView;
use crate::protocol::{ItemView, MetaLineView};
use crate::thread_combine::{
    all_prepared, combined_rollout, ended_turns, first_duplicate, last_segment, prepared,
    provenance, segmented_turns, PreparedView,
};
use crate::thread_merge::SourceView;
use crate::turns::{turns_of, TurnView};

verus! {

/// What a combination has from a source: a mark that names its thread, and then
/// all items of its rollout from the second on.
pub open spec fn appended(answers: AnswersView, source: SourceView) -> Seq<ItemView> {
    seq![ItemView::MergeBoundary { source_thread_id: source.thread_id }]
        + answers.rollout_histories[source.path].skip(1)
}

/// How many items the rollouts of `sources` hold together.
pub open spec fn items_together(answers: AnswersView, sources: Seq<SourceView>) -> nat
    decreases sources.len(),
{
    if sources.len() == 0 {
        0
    } else {
        items_together(answers, sources.drop_last())
            + answers.rollout_histories[sources.last().path].len()
    }
}

/// The threads that a source is to be named for: its own, and those that it was
/// merged from.
pub open spec fn named_for(answers: AnswersView, source: SourceView) -> Seq<Seq<char>> {
    seq![source.thread_id]
        + answers.merged_from_thread_ids[answers.rollout_histories[source.path]]
}

/// Whether the id `j` of `ids` is there for the first time, and not in `known`.
pub open spec fn is_new(known: Seq<Seq<char>>, ids: Seq<Seq<char>>, j: int) -> bool {
    &&& 0 <= j < ids.len()
    &&& !known.contains(ids[j])
    &&& forall|i: int| 0 <= i < j ==> #[trigger] ids[i] != ids[j]
}

/// Whether `told` is `known` and behind it the new ones of `ids`, in their
/// order: those at the places `at`.
pub open spec fn adds_new(
    known: Seq<Seq<char>>,
    ids: Seq<Seq<char>>,
    told: Seq<Seq<char>>,
    at: Seq<int>,
) -> bool {
    &&& told.len() == known.len() + at.len()
    &&& told.take(known.len() as int) == known
    &&& forall|k: int|
        0 <= k < at.len() ==> is_new(known, ids, #[trigger] at[k]) && told[known.len() + k]
            == ids[at[k]]
    &&& forall|k: int, l: int| 0 <= k < l < at.len() ==> #[trigger] at[k] < #[trigger] at[l]
    &&& forall|j: int| #[trigger] is_new(known, ids, j) ==> at.contains(j)
}

/// Adding ids, each once, adds the new ones in their order.
proof fn lemma_adds_new(known: Seq<Seq<char>>, ids: Seq<Seq<char>>) -> (at: Seq<int>)
    ensures
        adds_new(known, ids, ids.remove_duplicates(known), at),
    decreases ids.len(),
{
    if ids.len() == 0 {
        let at = Seq::<int>::empty();
        assert(known.take(known.len() as int) =~= known);
        at
    } else {
        let rest = ids.drop_last();
        let last = ids.len() - 1;
        let x = ids[last];
        let before = lemma_adds_new(known, rest);
        let told = rest.remove_duplicates(known);
        rest.lemma_remove_duplicates_append(x, known);
        rest.lemma_remove_duplicates_properties(known);
        assert(rest + seq![x] =~= ids);
        assert forall|j: int| 0 <= j < last implies #[trigger] is_new(known, ids, j) == is_new(
            known,
            rest,
            j,
        ) by {
            assert(rest[j] == ids[j]);
            if is_new(known, rest, j) {
                assert forall|i: int| 0 <= i < j implies #[trigger] ids[i] != ids[j] by {
                    assert(rest[i] == ids[i]);
                }
            }
            if is_new(known, ids, j) {
                assert forall|i: int| 0 <= i < j implies #[trigger] rest[i] != rest[j] by {
                    assert(rest[i] == ids[i]);
                }
            }
        }
        assert(told.contains(x) <==> !is_new(known, ids, last)) by {
            assert((rest + known).contains(x) <==> rest.contains(x) || known.contains(x)) by {
                vstd::seq_lib::lemma_seq_concat_contains_all_elements(rest, known, x);
            }
            if rest.contains(x) {
                let i = choose|i: int| 0 <= i < rest.len() && rest[i] == x;
                assert(ids[i] == x);
            }
            if !is_new(known, ids, last) && !known.contains(x) {
                let i = choose|i: int| 0 <= i < last && #[trigger] ids[i] == ids[last];
                assert(rest[i] == x);
            }
        }
        if is_new(known, ids, last) {
            let at = before.push(last);
            let all = ids.remove_duplicates(known);
            assert(all =~= told.push(x)) by {
                assert(told + seq![x] =~= told.push(x));
            }
            assert(all.take(known.len() as int) =~= told.take(known.len() as int));
            assert forall|k: int| 0 <= k < at.len() implies is_new(known, ids, #[trigger] at[k])
                && all[known.len() + k] == ids[at[k]] by {
                if k < before.len() {
                    assert(at[k] == before[k]);
                    assert(is_new(known, rest, before[k]));
                }
            }
            assert forall|k: int, l: int| 0 <= k < l < at.len() implies #[trigger] at[k]
                < #[trigger] at[l] by {
                assert(at[k] == before[k]);
                assert(is_new(known, rest, before[k]));
                if l < before.len() {
                    assert(at[l] == before[l]);
                }
            }
            assert forall|j: int| #[trigger] is_new(known, ids, j) implies at.contains(j) by {
                if j < last {
                    assert(is_new(known, rest, j));
                    let k = choose|k: int| 0 <= k < before.len() && before[k] == j;
                    assert(at[k] == j);
                } else {
                    assert(at[before.len() as int] == j);
                }
            }
            at
        } else {
            assert forall|k: int| 0 <= k < before.len() implies is_new(
                known,
                ids,
                #[trigger] before[k],
            ) && told[known.len() + k] == ids[before[k]] by {
                assert(is_new(known, rest, before[k]));
            }
            assert forall|j: int| #[trigger] is_new(known, ids, j) implies before.contains(j) by {
                assert(j < last);
                assert(is_new(known, rest, j));
            }
            before
        }
    }
}

/// Whether a source can be made part of a combination: its rollout is there,
/// opens with the session metadata of its own thread, and it is known what it
/// was merged from.
pub open spec fn is_ready(answers: AnswersView, source: SourceView) -> bool {
    let items = answers.rollout_histories[source.path];
    &&& answers.rollout_histories.contains_key(source.path)
    &&& items.len() > 0
    &&& items[0] is SessionMeta
    &&& items[0]->SessionMeta_0.meta.id == source.thread_id
    &&& answers.merged_from_thread_ids.contains_key(items)
}

/// Why a source is not ready: the first of these that is wanting.
pub open spec fn why_not_ready(answers: AnswersView, source: SourceView) -> HaltView {
    let items = answers.rollout_histories[source.path];
    if !answers.rollout_histories.contains_key(source.path) {
        HaltView::Asks(RequestView::RolloutHistory { path: source.path })
    } else if items.len() == 0 || !(items[0] is SessionMeta) {
        HaltView::Rejected(InvalidRequestView::MissingSourceMeta { path: source.path.text })
    } else if items[0]->SessionMeta_0.meta.id != source.thread_id {
        HaltView::Rejected(
            InvalidRequestView::SourceIdMismatch {
                thread_id: source.thread_id,
                session_id: items[0]->SessionMeta_0.meta.id,
                path: source.path.text,
            },
        )
    } else {
        HaltView::Asks(RequestView::MergedFromThreadIds { items })
    }
}

/// What a source brings, or why it is not ready.
proof fn lemma_prepared(answers: AnswersView, source: SourceView)
    ensures
        prepared(answers, source) is Ok <==> is_ready(answers, source),
        prepared(answers, source) matches Err(halt) ==> halt == why_not_ready(answers, source),
        prepared(answers, source) matches Ok(brought) ==> brought.segment() == appended(
            answers,
            source,
        ) && brought.thread_ids() == named_for(answers, source),
{
}

/// What all sources bring, or why the first that is not ready is not.
proof fn lemma_all_prepared_by_sources(answers: AnswersView, sources: Seq<SourceView>)
    ensures
        all_prepared(answers, sources) is Ok <==> forall|i: int|
            0 <= i < sources.len() ==> is_ready(answers, #[trigger] sources[i]),
        all_prepared(answers, sources) matches Ok(brought) ==> {
            &&& brought.map_values(|source: PreparedView| source.segment()) == sources.map_values(
                |source: SourceView| appended(answers, source),
            )
            &&& brought.map_values(
                |source: PreparedView| source.thread_ids(),
            ) == sources.map_values(|source: SourceView| named_for(answers, source))
        },
        forall|i: int|
            {
                &&& 0 <= i < sources.len()
                &&& !is_ready(answers, #[trigger] sources[i])
                &&& forall|j: int| 0 <= j < i ==> is_ready(answers, #[trigger] sources[j])
            } ==> all_prepared(answers, sources) == Err::<Seq<PreparedView>, _>(
                why_not_ready(answers, sources[i]),
            ),
    decreases sources.len(),
{
    if sources.len() > 0 {
        let rest = sources.drop_last();
        let last = sources.len() - 1;
        lemma_all_prepared_by_sources(answers, rest);
        lemma_prepared(answers, sources[last]);
        assert(sources[last] == sources.last());
        assert forall|i: int| 0 <= i < last implies #[trigger] sources[i] == rest[i] by {}
        if let Ok(before) = all_prepared(answers, rest) {
            assert forall|i: int| 0 <= i < last implies is_ready(
                answers,
                #[trigger] sources[i],
            ) by {
                assert(is_ready(answers, rest[i]));
            }
            if let Ok(brought) = all_prepared(answers, sources) {
                let x = brought.last();
                assert(brought =~= before.push(x));
                let segments = before.map_values(|source: PreparedView| source.segment());
                let ids = before.map_values(|source: PreparedView| source.thread_ids());
                assert(brought.map_values(|source: PreparedView| source.segment())
                    =~= segments.push(x.segment()));
                assert(brought.map_values(|source: PreparedView| source.thread_ids()) =~= ids.push(
                    x.thread_ids(),
                ));
                let apps = rest.map_values(|source: SourceView| appended(answers, source));
                let names = rest.map_values(|source: SourceView| named_for(answers, source));
                assert(sources.map_values(|source: SourceView| appended(answers, source))
                    =~= apps.push(appended(answers, sources[last])));
                assert(sources.map_values(|source: SourceView| named_for(answers, source))
                    =~= names.push(named_for(answers, sources[last])));
            }
        } else {
            let i = choose|i: int|
                0 <= i < rest.len() && !is_ready(answers, #[trigger] rest[i]);
            assert(!is_ready(answers, sources[i]));
            assert forall|i: int|
                {
                    &&& 0 <= i < sources.len()
                    &&& !is_ready(answers, #[trigger] sources[i])
                    &&& forall|j: int| 0 <= j < i ==> is_ready(answers, #[trigger] sources[j])
                } implies all_prepared(answers, sources) == Err::<Seq<PreparedView>, _>(
                why_not_ready(answers, sources[i]),
            ) by {
                assert(i < last);
                assert(rest[i] == sources[i]);
                assert forall|j: int| 0 <= j < i implies is_ready(answers, #[trigger] rest[j]) by {
                    assert(rest[j] == sources[j]);
                    assert(is_ready(answers, sources[j]));
                }
            }
        }
    } else if let Ok(brought) = all_prepared(answers, sources) {
        assert(brought.map_values(|source: PreparedView| source.segment()) =~= sources.map_values(
            |source: SourceView| appended(answers, source),
        ));
        assert(brought.map_values(|source: PreparedView| source.thread_ids())
            =~= sources.map_values(|source: SourceView| named_for(answers, source)));
    }
}

/// The duplicate is the first source that names a thread once more.
proof fn lemma_duplicate_by_sources(sources: Seq<SourceView>)
    ensures
        first_duplicate(sources) is None <==> forall|i: int|
            0 <= i < sources.len() ==> !#[trigger] is_repeated(sources, i),
        forall|i: int|
            {
                &&& 0 <= i < sources.len()
                &&& #[trigger] is_repeated(sources, i)
                &&& forall|j: int| 0 <= j < i ==> !#[trigger] is_repeated(sources, j)
            } ==> first_duplicate(sources) == Some(sources[i].thread_id),
    decreases sources.len(),
{
    if sources.len() > 0 {
        let rest = sources.drop_last();
        let last = sources.len() - 1;
        lemma_duplicate_by_sources(rest);
        assert forall|i: int| 0 <= i < last implies #[trigger] is_repeated(sources, i)
            == is_repeated(rest, i) by {
            if is_repeated(sources, i) {
                let j = choose|j: int|
                    0 <= j < i && (#[trigger] sources[j]).thread_id == sources[i].thread_id;
                assert(rest[j].thread_id == rest[i].thread_id);
            }
            if is_repeated(rest, i) {
                let j = choose|j: int|
                    0 <= j < i && (#[trigger] rest[j]).thread_id == rest[i].thread_id;
                assert(sources[j].thread_id == sources[i].thread_id);
            }
        }
        let ids = rest.map_values(|s: SourceView| s.thread_id);
        assert(is_repeated(sources, last) <==> ids.contains(sources[last].thread_id)) by {
            if is_repeated(sources, last) {
                let j = choose|j: int|
                    0 <= j < last && (#[trigger] sources[j]).thread_id == sources[last].thread_id;
                assert(ids[j] == sources[last].thread_id);
            }
            if ids.contains(sources[last].thread_id) {
                let j = choose|j: int|
                    0 <= j < ids.len() && ids[j] == sources[last].thread_id;
                assert(sources[j].thread_id == sources[last].thread_id);
            }
        }
        if first_duplicate(rest) is Some {
            let i = choose|i: int| 0 <= i < rest.len() && #[trigger] is_repeated(rest, i);
            assert(is_repeated(sources, i));
            assert forall|i: int|
                {
                    &&& 0 <= i < sources.len()
                    &&& #[trigger] is_repeated(sources, i)
                    &&& forall|j: int| 0 <= j < i ==> !#[trigger] is_repeated(sources, j)
                } implies first_duplicate(sources) == Some(sources[i].thread_id) by {
                assert(i < last);
                assert(is_repeated(rest, i));
                assert forall|j: int| 0 <= j < i implies !#[trigger] is_repeated(rest, j) by {
                    assert(!is_repeated(sources, j));
                }
            }
        } else {
            assert forall|i: int| 0 <= i < last implies !#[trigger] is_repeated(sources, i) by {
                assert(!is_repeated(rest, i));
            }
        }
    }
}

/// When a combination is refused, or asks for something, and for what: for the
/// first source that names a thread once more; for the first that is not ready;
/// for a base that is not there, of which it is not known what it was merged
/// from, or that does not open with session metadata. Else there is one.
pub proof fn lemma_combine_halts(
    answers: AnswersView,
    base_thread_id: Seq<char>,
    base_path: PathView,
    sources: Seq<SourceView>,
)
    ensures
        ({
            let result = combined_rollout(answers, base_thread_id, base_path, sources);
            let base = answers.rollout_histories[base_path];
            if exists|i: int| 0 <= i < sources.len() && #[trigger] is_repeated(sources, i) {
                forall|i: int|
                    {
                        &&& 0 <= i < sources.len()
                        &&& #[trigger] is_repeated(sources, i)
                        &&& forall|j: int| 0 <= j < i ==> !#[trigger] is_repeated(sources, j)
                    } ==> result == Err::<Seq<ItemView>, _>(
                        HaltView::Rejected(
                            InvalidRequestView::DuplicateCombineSource {
                                thread_id: sources[i].thread_id,
                            },
                        ),
                    )
            } else if exists|i: int|
                0 <= i < sources.len() && !is_ready(answers, #[trigger] sources[i]) {
                forall|i: int|
                    {
                        &&& 0 <= i < sources.len()
                        &&& !is_ready(answers, #[trigger] sources[i])
                        &&& forall|j: int| 0 <= j < i ==> is_ready(answers, #[trigger] sources[j])
                    } ==> result == Err::<Seq<ItemView>, _>(why_not_ready(answers, sources[i]))
            } else if !answers.rollout_histories.contains_key(base_path) {
                result == Err::<Seq<ItemView>, _>(
                    HaltView::Asks(RequestView::RolloutHistory { path: base_path }),
                )
            } else if !answers.merged_from_thread_ids.contains_key(base) {
                result == Err::<Seq<ItemView>, _>(
                    HaltView::Asks(RequestView::MergedFromThreadIds { items: base }),
                )
            } else if base.len() == 0 || !(base[0] is SessionMeta) {
                result == Err::<Seq<ItemView>, _>(
                    HaltView::Rejected(InvalidRequestView::MissingBaseMeta { path: base_path.text }),
                )
            } else {
                result is Ok
            }
        }),
{
    lemma_duplicate_by_sources(sources);
    lemma_all_prepared_by_sources(answers, sources);
}

/// The items of a combination: those of the base, the first one aside, and then
/// for each source in the order given a mark that names its thread and all its
/// items from the second on. So it is as long as all the rollouts together.
pub proof fn lemma_combined_items(
    answers: AnswersView,
    base_thread_id: Seq<char>,
    base_path: PathView,
    sources: Seq<SourceView>,
)
    requires
        combined_rollout(answers, base_thread_id, base_path, sources) is Ok,
    ensures
        ({
            let result = combined_rollout(answers, base_thread_id, base_path, sources)->Ok_0;
            let base = answers.rollout_histories[base_path];
            &&& result.len() == base.len() + items_together(answers, sources)
            &&& base.len() > 0
            &&& result.subrange(1, base.len() as int) == base.skip(1)
            &&& result.skip(base.len() as int) == sources.map_values(
                |source: SourceView| appended(answers, source),
            ).flatten()
        }),
{
    lemma_all_prepared_by_sources(answers, sources);
    let result = combined_rollout(answers, base_thread_id, base_path, sources)->Ok_0;
    let base = answers.rollout_histories[base_path];
    let apps = sources.map_values(|source: SourceView| appended(answers, source));
    assert(result.skip(base.len() as int) =~= apps.flatten());
    assert(result.subrange(1, base.len() as int) =~= base.skip(1));
    lemma_appended_len(answers, sources);
}

/// A source brings as many items as its rollout has.
proof fn lemma_appended_len(answers: AnswersView, sources: Seq<SourceView>)
    requires
        forall|i: int| 0 <= i < sources.len() ==> is_ready(answers, #[trigger] sources[i]),
    ensures
        sources.map_values(|source: SourceView| appended(answers, source)).flatten().len()
            == items_together(answers, sources),
    decreases sources.len(),
{
    let apps = sources.map_values(|source: SourceView| appended(answers, source));
    if sources.len() > 0 {
        let rest = sources.drop_last();
        let last = sources.last();
        let before = rest.map_values(|source: SourceView| appended(answers, source));
        assert forall|i: int| 0 <= i < rest.len() implies is_ready(answers, #[trigger] rest[i]) by {
            assert(rest[i] == sources[i]);
        }
        lemma_appended_len(answers, rest);
        assert(apps =~= before.push(appended(answers, last)));
        before.lemma_flatten_push(appended(answers, last));
        assert(is_ready(answers, sources[sources.len() - 1]));
    } else {
        assert(apps.flatten() =~= Seq::<ItemView>::empty());
    }
}

/// The session metadata of a combination are those of the base, but for what
/// they tell of the merge: the threads that the base was merged from, and then,
/// each once, in order, every source and the threads that it was merged from.
/// Where these are none, they tell of none.
pub proof fn lemma_combined_metadata(
    answers: AnswersView,
    base_thread_id: Seq<char>,
    base_path: PathView,
    sources: Seq<SourceView>,
) -> (told: (Seq<Seq<char>>, Seq<int>))
    requires
        combined_rollout(answers, base_thread_id, base_path, sources) is Ok,
    ensures
        ({
            let result = combined_rollout(answers, base_thread_id, base_path, sources)->Ok_0;
            let base = answers.rollout_histories[base_path];
            let known = answers.merged_from_thread_ids[base];
            let ids = sources.map_values(
                |source: SourceView| named_for(answers, source),
            ).flatten();
            &&& base.len() > 0 && base[0] is SessionMeta
            &&& result.len() > 0 && result[0] is SessionMeta
            &&& adds_new(known, ids, told.0, told.1)
            &&& tells_of_merge(
                base[0]->SessionMeta_0,
                result[0]->SessionMeta_0,
                base_thread_id,
                told.0,
            )
        }),
{
    lemma_all_prepared_by_sources(answers, sources);
    let base = answers.rollout_histories[base_path];
    let known = answers.merged_from_thread_ids[base];
    let ids = sources.map_values(|source: SourceView| named_for(answers, source)).flatten();
    let at = lemma_adds_new(known, ids);
    let brought = all_prepared(answers, sources)->Ok_0;
    assert(provenance(known, brought) == ids.remove_duplicates(known));
    (ids.remove_duplicates(known), at)
}

/// Whether `b` are the session metadata `a`, but that they tell of a merge of
/// the threads `told` into `base_thread_id`, or of none where `told` is empty.
pub open spec fn tells_of_merge(
    a: MetaLineView,
    b: MetaLineView,
    base_thread_id: Seq<char>,
    told: Seq<Seq<char>>,
) -> bool {
    &&& b.git == a.git
    &&& b.meta.id == a.meta.id
    &&& b.meta.forked_from_id == a.meta.forked_from_id
    &&& b.meta.cwd == a.meta.cwd
    &&& b.meta.details == a.meta.details
    &&& told.len() == 0 ==> b.meta.merge_base_thread_id is None
        && b.meta.merged_from_thread_ids is None
    &&& told.len() > 0 ==> b.meta.merge_base_thread_id == Some(base_thread_id)
        && b.meta.merged_from_thread_ids == Some(told)
}

/// A history in which nothing separates items is played back as it is.
pub proof fn lemma_one_history(answers: AnswersView, items: Seq<ItemView>)
    requires
        forall|i: int|
            0 <= i < items.len() ==> !((#[trigger] items[i]) is SessionMeta)
                && !(items[i] is MergeBoundary),
    ensures
        segmented_turns(answers, items) == turns_of(answers, items),
{
    lemma_one_segment(answers, items);
    if let Ok(turns) = turns_of(answers, items) {
        assert(Seq::<TurnView>::empty() + turns =~= turns);
    }
}

/// Where nothing separates items, they are one segment, and none has ended.
proof fn lemma_one_segment(answers: AnswersView, items: Seq<ItemView>)
    requires
        forall|i: int|
            0 <= i < items.len() ==> !((#[trigger] items[i]) is SessionMeta)
                && !(items[i] is MergeBoundary),
    ensures
        last_segment(items) == items,
        ended_turns(answers, items) == Ok::<_, RequestView>(Seq::<TurnView>::empty()),
    decreases items.len(),
{
    if items.len() > 0 {
        let rest = items.drop_last();
        assert(items.last() == items[items.len() - 1]);
        assert forall|i: int| 0 <= i < rest.len() implies !((#[trigger] rest[i]) is SessionMeta)
            && !(rest[i] is MergeBoundary) by {
            assert(rest[i] == items[i]);
        }
        lemma_one_segment(answers, rest);
        assert(rest.push(items.last()) =~= items);
    } else {
        assert(last_segment(items) =~= items);
    }
}

/// Histories with session metadata or a mark between them are played back each
/// by itself: the turns are those of the one and then those of the other, and
/// what the first leaves open is asked for first.
pub proof fn lemma_two_histories(
    answers: AnswersView,
    first: Seq<ItemView>,
    item: ItemView,
    second: Seq<ItemView>,
)
    requires
        item is SessionMeta || item is MergeBoundary,
    ensures
        segmented_turns(answers, first + seq![item] + second) == (match (
            segmented_turns(answers, first),
            segmented_turns(answers, second),
        ) {
            (Err(request), _) => Err(request),
            (Ok(_), Err(request)) => Err(request),
            (Ok(a), Ok(b)) => Ok(a + b),
        }),
{
    lemma_ended_histories(answers, first, item, second);
    if segmented_turns(answers, first) is Ok && segmented_turns(answers, second) is Ok {
        let a = segmented_turns(answers, first)->Ok_0;
        let earlier = ended_turns(answers, second)->Ok_0;
        let turns = turns_of(answers, last_segment(second))->Ok_0;
        assert((a + earlier) + turns =~= a + (earlier + turns));
    }
}

/// The turns before the last segment, where an item separates two histories.
proof fn lemma_ended_histories(
    answers: AnswersView,
    first: Seq<ItemView>,
    item: ItemView,
    second: Seq<ItemView>,
)
    requires
        item is SessionMeta || item is MergeBoundary,
    ensures
        last_segment(first + seq![item] + second) == last_segment(second),
        ended_turns(answers, first + seq![item] + second) == (match (
            segmented_turns(answers, first),
            ended_turns(answers, second),
        ) {
            (Err(request), _) => Err(request),
            (Ok(_), Err(request)) => Err(request),
            (Ok(a), Ok(b)) => Ok(a + b),
        }),
    decreases second.len(),
{
    let all = first + seq![item] + second;
    if second.len() == 0 {
        assert(all =~= first.push(item));
        assert(all.drop_last() =~= first);
        if let Ok(a) = segmented_turns(answers, first) {
            assert(a + Seq::<TurnView>::empty() =~= a);
        }
    } else {
        let rest = second.drop_last();
        lemma_ended_histories(answers, first, item, rest);
        assert(all.drop_last() =~= first + seq![item] + rest);
        assert(all.last() == second.last());
        if segmented_turns(answers, first) is Ok && ended_turns(answers, rest) is Ok && turns_of(
            answers,
            last_segment(rest),
        ) is Ok {
            let a = segmented_turns(answers, first)->Ok_0;
            let earlier = ended_turns(answers, rest)->Ok_0;
            let turns = turns_of(answers, last_segment(rest))->Ok_0;
            assert((a + earlier) + turns =~= a + (earlier + turns));
        }
    }
}

} // verus!
