//! What holds of lines of descent, and of the order in which threads are
//! merged.

use vstd::prelude::*;

use crate::answers::{AnswersView, RequestView};
use crate::lineage::{has_ancestor, nth_parent, nth_rollout};
use crate::path::{ComponentView, PathView};
use crate::thread_merge::{insertion_point, is_ancestor, ordered_sources, SourceView};

verus! {

/// A thread comes from the one that it was forked from.
pub proof fn lemma_fork_has_ancestor(
    answers: AnswersView,
    codex_home: Seq<ComponentView>,
    path: PathView,
    parent: Seq<char>,
)
    requires
        answers.session_metas.contains_key(path),
        answers.session_metas[path].meta.forked_from_id == Some(parent),
    ensures
        has_ancestor(answers, codex_home, path, parent),
{
    assert(nth_parent(answers, codex_home, path, 0) == Ok::<_, RequestView>(Some(parent)));
}

/// From a thread that was reached, the way goes on as from its rollout.
proof fn lemma_way_goes_on(
    answers: AnswersView,
    codex_home: Seq<ComponentView>,
    path: PathView,
    reached: PathView,
    n: nat,
    m: nat,
)
    requires
        nth_rollout(answers, codex_home, path, n) == Ok::<_, RequestView>(Some(reached)),
    ensures
        nth_rollout(answers, codex_home, path, n + m) == nth_rollout(
            answers,
            codex_home,
            reached,
            m,
        ),
    decreases m,
{
    if m > 0 {
        lemma_way_goes_on(answers, codex_home, path, reached, n, (m - 1) as nat);
    }
}

/// What a thread comes from, those come from that come from it, where its
/// rollout is found under its id.
pub proof fn lemma_ancestry_transitive(
    answers: AnswersView,
    codex_home: Seq<ComponentView>,
    ancestor: Seq<char>,
    middle: SourceView,
    descendant: PathView,
)
    requires
        answers.thread_paths.contains_key((codex_home, middle.thread_id)),
        answers.thread_paths[(codex_home, middle.thread_id)] == Some(middle.path),
        has_ancestor(answers, codex_home, middle.path, ancestor),
        has_ancestor(answers, codex_home, descendant, middle.thread_id),
    ensures
        has_ancestor(answers, codex_home, descendant, ancestor),
{
    let n = choose|n: nat|
        #[trigger] nth_parent(answers, codex_home, descendant, n) == Ok::<_, RequestView>(
            Some(middle.thread_id),
        );
    let m = choose|m: nat|
        #[trigger] nth_parent(answers, codex_home, middle.path, m) == Ok::<_, RequestView>(
            Some(ancestor),
        );
    assert(nth_rollout(answers, codex_home, descendant, n + 1) == Ok::<_, RequestView>(
        Some(middle.path),
    ));
    lemma_way_goes_on(answers, codex_home, descendant, middle.path, n + 1, m);
    assert(nth_parent(answers, codex_home, descendant, n + 1 + m) == Ok::<_, RequestView>(
        Some(ancestor),
    ));
}

/// Whether `a` is a thread that `b` comes from.
pub open spec fn precedes(
    answers: AnswersView,
    codex_home: Seq<ComponentView>,
    a: SourceView,
    b: SourceView,
) -> bool {
    has_ancestor(answers, codex_home, b.path, a.thread_id)
}

/// Whether no thread in `sources` comes from itself, and each comes from all
/// that those come from which it comes from. So it is of forked threads.
pub open spec fn well_descended(
    answers: AnswersView,
    codex_home: Seq<ComponentView>,
    sources: Seq<SourceView>,
) -> bool {
    &&& forall|a: SourceView|
        sources.contains(a) ==> !#[trigger] precedes(answers, codex_home, a, a)
    &&& forall|a: SourceView, b: SourceView, c: SourceView|
        sources.contains(a) && sources.contains(b) && sources.contains(c)
            && #[trigger] precedes(answers, codex_home, a, b)
            && #[trigger] precedes(answers, codex_home, b, c) ==> precedes(
            answers,
            codex_home,
            a,
            c,
        )
}

/// So it is where the rollout of each thread is found under its id, and no
/// thread comes from itself.
pub proof fn lemma_well_descended(
    answers: AnswersView,
    codex_home: Seq<ComponentView>,
    sources: Seq<SourceView>,
)
    requires
        forall|i: int|
            0 <= i < sources.len() ==> {
                &&& answers.thread_paths.get(
                    (codex_home, (#[trigger] sources[i]).thread_id),
                ) == Some(Some(sources[i].path))
                &&& !has_ancestor(answers, codex_home, sources[i].path, sources[i].thread_id)
            },
    ensures
        well_descended(answers, codex_home, sources),
{
    assert forall|a: SourceView| sources.contains(a) implies !#[trigger] precedes(
        answers,
        codex_home,
        a,
        a,
    ) by {
        let i = choose|i: int| 0 <= i < sources.len() && sources[i] == a;
        assert(sources[i] == a);
    }
    assert forall|a: SourceView, b: SourceView, c: SourceView|
        sources.contains(a) && sources.contains(b) && sources.contains(c) && #[trigger] precedes(
            answers,
            codex_home,
            a,
            b,
        ) && #[trigger] precedes(answers, codex_home, b, c) implies precedes(
        answers,
        codex_home,
        a,
        c,
    ) by {
        let i = choose|i: int| 0 <= i < sources.len() && sources[i] == b;
        assert(sources[i] == b);
        lemma_ancestry_transitive(answers, codex_home, a.thread_id, b, c.path);
    }
}

/// Whether no thread stands behind one that comes from it.
pub open spec fn ancestors_first(
    answers: AnswersView,
    codex_home: Seq<ComponentView>,
    sources: Seq<SourceView>,
) -> bool {
    forall|i: int, j: int|
        0 <= i < j < sources.len() ==> !#[trigger] precedes(
            answers,
            codex_home,
            sources[j],
            sources[i],
        )
}

/// Where a source goes: behind none that comes from it, and, where none does,
/// before none that it comes from.
proof fn lemma_insertion_point(
    answers: AnswersView,
    codex_home: Seq<ComponentView>,
    ordered: Seq<SourceView>,
    source: SourceView,
    idx: nat,
    otherwise: nat,
)
    requires
        idx <= ordered.len(),
        otherwise <= ordered.len(),
        forall|i: int|
            0 <= i < idx ==> !#[trigger] precedes(answers, codex_home, source, ordered[i]),
        forall|i: int|
            otherwise <= i < idx ==> !#[trigger] precedes(answers, codex_home, ordered[i], source),
        insertion_point(answers, codex_home, ordered, source, idx, otherwise) is Ok,
    ensures
        ({
            let at = insertion_point(answers, codex_home, ordered, source, idx, otherwise)->Ok_0;
            &&& at <= ordered.len()
            &&& forall|i: int|
                0 <= i < at ==> !#[trigger] precedes(answers, codex_home, source, ordered[i])
            &&& {
                ||| at < ordered.len() && precedes(answers, codex_home, source, ordered[at as int])
                ||| forall|i: int|
                    at <= i < ordered.len() ==> !#[trigger] precedes(
                        answers,
                        codex_home,
                        ordered[i],
                        source,
                    )
            }
        }),
    decreases ordered.len() - idx,
{
    if idx < ordered.len() {
        let existing = ordered[idx as int];
        if is_ancestor(answers, codex_home, source, existing) == Ok::<_, RequestView>(false) {
            if is_ancestor(answers, codex_home, existing, source) == Ok::<_, RequestView>(true) {
                lemma_insertion_point(answers, codex_home, ordered, source, idx + 1, idx + 1);
            } else {
                lemma_insertion_point(answers, codex_home, ordered, source, idx + 1, otherwise);
            }
        }
    }
}

/// The order holds just the sources.
pub proof fn lemma_order_is_permutation(
    answers: AnswersView,
    codex_home: Seq<ComponentView>,
    sources: Seq<SourceView>,
)
    ensures
        ordered_sources(answers, codex_home, sources) matches Ok(ordered) ==> ordered.len()
            == sources.len() && ordered.to_multiset() == sources.to_multiset(),
    decreases sources.len(),
{
    broadcast use vstd::seq_lib::group_to_multiset_ensures;

    if sources.len() > 0 && ordered_sources(answers, codex_home, sources) is Ok {
        let rest = sources.drop_last();
        let source = sources.last();
        lemma_order_is_permutation(answers, codex_home, rest);
        let before = ordered_sources(answers, codex_home, rest)->Ok_0;
        lemma_insertion_point(answers, codex_home, before, source, 0, before.len());
        let at = insertion_point(
            answers,
            codex_home,
            before,
            source,
            0,
            before.len(),
        )->Ok_0 as int;
        let after = before.insert(at, source);
        assert(after.remove(at) =~= before);
        assert(after[at] == source);
        assert(rest.push(source) =~= sources);
        assert(after.to_multiset() =~= before.to_multiset().insert(source));
    }
}

/// Sources none of which comes from another are merged in the order in which
/// they are given.
pub proof fn lemma_unrelated_keep_order(
    answers: AnswersView,
    codex_home: Seq<ComponentView>,
    sources: Seq<SourceView>,
)
    requires
        forall|i: int, j: int|
            0 <= i < sources.len() && 0 <= j < sources.len() && i != j ==> #[trigger] is_ancestor(
                answers,
                codex_home,
                sources[i],
                sources[j],
            ) == Ok::<_, RequestView>(false),
    ensures
        ordered_sources(answers, codex_home, sources) == Ok::<_, RequestView>(sources),
    decreases sources.len(),
{
    if sources.len() > 0 {
        let rest = sources.drop_last();
        assert forall|i: int, j: int|
            0 <= i < rest.len() && 0 <= j < rest.len() && i != j implies #[trigger] is_ancestor(
            answers,
            codex_home,
            rest[i],
            rest[j],
        ) == Ok::<_, RequestView>(false) by {
            assert(is_ancestor(answers, codex_home, sources[i], sources[j]) == Ok::<_, RequestView>(
                false,
            ));
        }
        lemma_unrelated_keep_order(answers, codex_home, rest);
        lemma_goes_last(answers, codex_home, sources, 0);
        assert(rest.insert(rest.len() as int, sources.last()) =~= sources);
    } else {
        assert(sources =~= Seq::<SourceView>::empty());
    }
}

/// A source that has nothing to do with those before it goes behind them.
proof fn lemma_goes_last(
    answers: AnswersView,
    codex_home: Seq<ComponentView>,
    sources: Seq<SourceView>,
    idx: nat,
)
    requires
        sources.len() > 0,
        idx < sources.len(),
        forall|i: int, j: int|
            0 <= i < sources.len() && 0 <= j < sources.len() && i != j ==> #[trigger] is_ancestor(
                answers,
                codex_home,
                sources[i],
                sources[j],
            ) == Ok::<_, RequestView>(false),
    ensures
        insertion_point(
            answers,
            codex_home,
            sources.drop_last(),
            sources.last(),
            idx,
            sources.drop_last().len(),
        ) == Ok::<_, RequestView>(sources.drop_last().len()),
    decreases sources.len() - idx,
{
    let n = sources.len() - 1;
    if idx < n {
        assert(is_ancestor(answers, codex_home, sources[n], sources[idx as int]) == Ok::<
            _,
            RequestView,
        >(false));
        assert(is_ancestor(answers, codex_home, sources[idx as int], sources[n]) == Ok::<
            _,
            RequestView,
        >(false));
        lemma_goes_last(answers, codex_home, sources, idx + 1);
    }
}

/// However the sources are given, those that others come from are merged
/// before them.
pub proof fn lemma_ancestors_first(
    answers: AnswersView,
    codex_home: Seq<ComponentView>,
    sources: Seq<SourceView>,
)
    requires
        well_descended(answers, codex_home, sources),
    ensures
        ordered_sources(answers, codex_home, sources) matches Ok(ordered) ==> ancestors_first(
            answers,
            codex_home,
            ordered,
        ),
    decreases sources.len(),
{
    if sources.len() > 0 && ordered_sources(answers, codex_home, sources) is Ok {
        let rest = sources.drop_last();
        let source = sources.last();
        assert(sources.contains(source));
        assert forall|a: SourceView| rest.contains(a) implies sources.contains(a) by {
            let i = choose|i: int| 0 <= i < rest.len() && rest[i] == a;
            assert(sources[i] == a);
        }
        lemma_ancestors_first(answers, codex_home, rest);
        let before = ordered_sources(answers, codex_home, rest)->Ok_0;
        lemma_order_members(answers, codex_home, rest);
        lemma_insertion_point(answers, codex_home, before, source, 0, before.len());
        let at = insertion_point(
            answers,
            codex_home,
            before,
            source,
            0,
            before.len(),
        )->Ok_0 as int;
        // None of those behind it is one that it comes from.
        assert forall|i: int| at <= i < before.len() implies !#[trigger] precedes(
            answers,
            codex_home,
            before[i],
            source,
        ) by {
            assert(rest.contains(before[i]));
            if at < before.len() && precedes(answers, codex_home, source, before[at]) {
                assert(rest.contains(before[at]));
                if precedes(answers, codex_home, before[i], source) {
                    assert(precedes(answers, codex_home, before[i], before[at]));
                    assert(false);
                }
            }
        }
        let after = before.insert(at, source);
        assert forall|i: int, j: int| 0 <= i < j < after.len() implies !#[trigger] precedes(
            answers,
            codex_home,
            after[j],
            after[i],
        ) by {
            let i0 = if i < at {
                i
            } else {
                i - 1
            };
            let j0 = if j < at {
                j
            } else {
                j - 1
            };
            if i == at {
                assert(after[j] == before[j0]);
                assert(!precedes(answers, codex_home, before[j0], source));
            } else if j == at {
                assert(after[i] == before[i0]);
                assert(!precedes(answers, codex_home, source, before[i0]));
            } else {
                assert(after[i] == before[i0]);
                assert(after[j] == before[j0]);
                assert(!precedes(answers, codex_home, before[j0], before[i0]));
            }
        }
    }
}

/// What is in the order is one of the sources.
proof fn lemma_order_members(
    answers: AnswersView,
    codex_home: Seq<ComponentView>,
    sources: Seq<SourceView>,
)
    ensures
        ordered_sources(answers, codex_home, sources) matches Ok(ordered) ==> forall|i: int|
            0 <= i < ordered.len() ==> sources.contains(#[trigger] ordered[i]),
{
    broadcast use vstd::seq_lib::group_to_multiset_ensures;

    if let Ok(ordered) = ordered_sources(answers, codex_home, sources) {
        lemma_order_is_permutation(answers, codex_home, sources);
        assert forall|i: int| 0 <= i < ordered.len() implies sources.contains(
            #[trigger] ordered[i],
        ) by {
            assert(ordered.contains(ordered[i]));
            assert(ordered.to_multiset().count(ordered[i]) > 0);
            assert(sources.to_multiset().count(ordered[i]) > 0);
        }
    }
}

} // verus!
