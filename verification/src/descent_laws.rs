//! Who comes from whom, told by the lines of forks on record, and where that
//! puts a source among those to be merged.

use vstd::prelude::*;

use crate::answers::{AnswersView, RequestView};
use crate::error::InvalidRequestView;
use crate::lineage::{
    descent, has_ancestor, lemma_lost_at_one, lost_at, nth_parent, nth_rollout,
};
use crate::path::{nth_ancestor, parent, ComponentView, PathView};
use crate::thread_merge::{
    codex_home, insertion_point, is_ancestor, ordered_sources, SourceView,
};

verus! {

/// The thread that the rollout at `path` says it was forked from.
pub open spec fn forked_from(answers: AnswersView, path: PathView) -> Option<Seq<char>> {
    if answers.session_metas.contains_key(path) {
        answers.session_metas[path].meta.forked_from_id
    } else {
        None
    }
}

/// Whether `line` is a line of rollouts each of which, but for the last, was
/// forked from a thread whose rollout is found to be the next.
pub open spec fn is_line(
    answers: AnswersView,
    codex_home: Seq<ComponentView>,
    line: Seq<PathView>,
) -> bool {
    &&& line.len() > 0
    &&& forall|i: int|
        0 <= i < line.len() - 1 ==> {
            let fork = forked_from(answers, #[trigger] line[i]);
            &&& fork is Some
            &&& answers.thread_paths.contains_key((codex_home, fork->0))
            &&& answers.thread_paths[(codex_home, fork->0)] == Some(line[i + 1])
        }
}

/// Whether `line` leads from `path` to a rollout that was forked from
/// `ancestor`.
pub open spec fn leads_to(
    answers: AnswersView,
    codex_home: Seq<ComponentView>,
    path: PathView,
    ancestor: Seq<char>,
    line: Seq<PathView>,
) -> bool {
    &&& is_line(answers, codex_home, line)
    &&& line.first() == path
    &&& forked_from(answers, line.last()) == Some(ancestor)
}

/// Whether `line` leads from `path` to a rollout whose session metadata have
/// not been read, or whose parent has not been looked for, and `request` asks
/// for just that.
pub open spec fn breaks_at(
    answers: AnswersView,
    codex_home: Seq<ComponentView>,
    path: PathView,
    request: RequestView,
    line: Seq<PathView>,
) -> bool {
    let last = line.last();
    &&& is_line(answers, codex_home, line)
    &&& line.first() == path
    &&& {
        ||| !answers.session_metas.contains_key(last) && request == RequestView::SessionMeta {
            path: last,
        }
        ||| {
            &&& forked_from(answers, last) is Some
            &&& !answers.thread_paths.contains_key((codex_home, forked_from(answers, last)->0))
            &&& request == RequestView::ThreadPath {
                codex_home,
                thread_id: forked_from(answers, last)->0,
            }
        }
    }
}

/// A line is what is met step by step.
proof fn lemma_line_is_way(
    answers: AnswersView,
    codex_home: Seq<ComponentView>,
    line: Seq<PathView>,
    n: nat,
)
    requires
        is_line(answers, codex_home, line),
        n < line.len(),
    ensures
        nth_rollout(answers, codex_home, line.first(), n) == Ok::<_, RequestView>(
            Some(line[n as int]),
        ),
    decreases n,
{
    if n > 0 {
        lemma_line_is_way(answers, codex_home, line, (n - 1) as nat);
        assert(forked_from(answers, line[n - 1]) is Some);
    }
}

/// What is met step by step is a line.
proof fn lemma_way_is_line(
    answers: AnswersView,
    codex_home: Seq<ComponentView>,
    path: PathView,
    n: nat,
) -> (line: Seq<PathView>)
    requires
        nth_rollout(answers, codex_home, path, n) is Ok,
        nth_rollout(answers, codex_home, path, n)->Ok_0 is Some,
    ensures
        is_line(answers, codex_home, line),
        line.first() == path,
        line.last() == nth_rollout(answers, codex_home, path, n)->Ok_0->0,
    decreases n,
{
    let reached = nth_rollout(answers, codex_home, path, n)->Ok_0->0;
    if n == 0 {
        seq![path]
    } else {
        let before = lemma_way_is_line(answers, codex_home, path, (n - 1) as nat);
        let line = before.push(reached);
        assert forall|i: int| 0 <= i < line.len() - 1 implies {
            let fork = forked_from(answers, #[trigger] line[i]);
            &&& fork is Some
            &&& answers.thread_paths.contains_key((codex_home, fork->0))
            &&& answers.thread_paths[(codex_home, fork->0)] == Some(line[i + 1])
        } by {
            assert(line[i] == before[i]);
            if i < before.len() - 1 {
                assert(line[i + 1] == before[i + 1]);
            } else {
                assert(line[i] == before.last());
            }
        }
        line
    }
}

/// Where a way is lost, the line up to there breaks at what is asked for.
proof fn lemma_lost_is_break(
    answers: AnswersView,
    codex_home: Seq<ComponentView>,
    path: PathView,
    n: nat,
) -> (line: Seq<PathView>)
    requires
        nth_parent(answers, codex_home, path, n) is Err,
    ensures
        breaks_at(
            answers,
            codex_home,
            path,
            nth_parent(answers, codex_home, path, n)->Err_0,
            line,
        ),
    decreases n,
{
    if nth_rollout(answers, codex_home, path, n) is Ok {
        lemma_way_is_line(answers, codex_home, path, n)
    } else {
        let k = (n - 1) as nat;
        if nth_rollout(answers, codex_home, path, k) is Err || nth_parent(
            answers,
            codex_home,
            path,
            k,
        ) is Err {
            lemma_lost_is_break(answers, codex_home, path, k)
        } else {
            lemma_way_is_line(answers, codex_home, path, k)
        }
    }
}

/// One thread comes from another just where a line of forks leads to it. Where
/// none does, but a line breaks, what it breaks at is asked for; and where none
/// breaks, it does not come from it, though the line go round.
pub proof fn lemma_descent_by_lines(
    answers: AnswersView,
    codex_home: Seq<ComponentView>,
    path: PathView,
    ancestor: Seq<char>,
    request: RequestView,
)
    ensures
        descent(answers, codex_home, path, ancestor) == Ok::<_, RequestView>(true) <==> exists|
            line: Seq<PathView>,
        | #[trigger] leads_to(answers, codex_home, path, ancestor, line),
        descent(answers, codex_home, path, ancestor) == Err::<bool, _>(request) <==> {
            &&& !(exists|line: Seq<PathView>| #[trigger]
                leads_to(answers, codex_home, path, ancestor, line))
            &&& exists|line: Seq<PathView>| #[trigger]
                breaks_at(answers, codex_home, path, request, line)
        },
{
    if has_ancestor(answers, codex_home, path, ancestor) {
        let n = choose|n: nat|
            #[trigger] nth_parent(answers, codex_home, path, n) == Ok::<_, RequestView>(
                Some(ancestor),
            );
        let line = lemma_way_is_line(answers, codex_home, path, n);
        assert(leads_to(answers, codex_home, path, ancestor, line));
    }
    if exists|line: Seq<PathView>| #[trigger]
        leads_to(answers, codex_home, path, ancestor, line) {
        let line = choose|line: Seq<PathView>| #[trigger]
            leads_to(answers, codex_home, path, ancestor, line);
        let n = (line.len() - 1) as nat;
        lemma_line_is_way(answers, codex_home, line, n);
        assert(nth_parent(answers, codex_home, path, n) == Ok::<_, RequestView>(Some(ancestor)));
    }
    if descent(answers, codex_home, path, ancestor) == Err::<bool, _>(request) {
        assert(lost_at(answers, codex_home, path, request));
        let n = choose|n: nat|
            #[trigger] nth_parent(answers, codex_home, path, n) == Err::<Option<Seq<char>>, _>(
                request,
            );
        let line = lemma_lost_is_break(answers, codex_home, path, n);
        assert(breaks_at(answers, codex_home, path, request, line));
    }
    if exists|line: Seq<PathView>| #[trigger]
        breaks_at(answers, codex_home, path, request, line) {
        let line = choose|line: Seq<PathView>| #[trigger]
            breaks_at(answers, codex_home, path, request, line);
        let n = (line.len() - 1) as nat;
        lemma_line_is_way(answers, codex_home, line, n);
        if answers.session_metas.contains_key(line.last()) {
            assert(nth_rollout(answers, codex_home, path, n + 1) is Err);
            assert(nth_parent(answers, codex_home, path, n + 1) == Err::<Option<Seq<char>>, _>(
                request,
            ));
        } else {
            assert(nth_parent(answers, codex_home, path, n) == Err::<Option<Seq<char>>, _>(
                request,
            ));
        }
        assert(lost_at(answers, codex_home, path, request));
        if descent(answers, codex_home, path, ancestor) is Err {
            lemma_lost_at_one(
                answers,
                codex_home,
                path,
                request,
                descent(answers, codex_home, path, ancestor)->Err_0,
            );
        }
    }
}

/// Whether `a` is known to come from `b`.
pub open spec fn comes_from(
    answers: AnswersView,
    codex_home: Seq<ComponentView>,
    a: SourceView,
    b: SourceView,
) -> bool {
    descent(answers, codex_home, a.path, b.thread_id) == Ok::<_, RequestView>(true)
}

/// Whether `a` is known not to come from `b`.
pub open spec fn apart_from(
    answers: AnswersView,
    codex_home: Seq<ComponentView>,
    a: SourceView,
    b: SourceView,
) -> bool {
    descent(answers, codex_home, a.path, b.thread_id) == Ok::<_, RequestView>(false)
}

/// Whether one source is an ancestor of another is whether the other comes from
/// its thread.
pub proof fn lemma_ancestor_is_descent(
    answers: AnswersView,
    codex_home: Seq<ComponentView>,
    ancestor: SourceView,
    descendant: SourceView,
)
    ensures
        is_ancestor(answers, codex_home, ancestor, descendant) == descent(
            answers,
            codex_home,
            descendant.path,
            ancestor.thread_id,
        ),
{
}

/// Whether `x` belongs at `at` among `ordered`: right before the first that
/// comes from it; or, where none does, right behind the last that it comes
/// from; or, where there is none of either, behind them all.
pub open spec fn belongs_at(
    answers: AnswersView,
    codex_home: Seq<ComponentView>,
    ordered: Seq<SourceView>,
    x: SourceView,
    at: int,
) -> bool {
    &&& 0 <= at <= ordered.len()
    &&& forall|i: int| 0 <= i < at ==> #[trigger] apart_from(answers, codex_home, ordered[i], x)
    &&& {
        ||| at < ordered.len() && comes_from(answers, codex_home, ordered[at], x)
        ||| {
            &&& forall|i: int|
                0 <= i < ordered.len() ==> #[trigger] apart_from(
                    answers,
                    codex_home,
                    ordered[i],
                    x,
                )
            &&& forall|i: int|
                at <= i < ordered.len() ==> #[trigger] apart_from(
                    answers,
                    codex_home,
                    x,
                    ordered[i],
                )
            &&& at == ordered.len() && (forall|i: int|
                0 <= i < ordered.len() ==> #[trigger] apart_from(
                    answers,
                    codex_home,
                    x,
                    ordered[i],
                )) || at > 0 && comes_from(answers, codex_home, x, ordered[at - 1])
        }
    }
}

/// A source belongs at one place.
pub proof fn lemma_belongs_at_one(
    answers: AnswersView,
    codex_home: Seq<ComponentView>,
    ordered: Seq<SourceView>,
    x: SourceView,
    a: int,
    b: int,
)
    requires
        belongs_at(answers, codex_home, ordered, x, a),
        belongs_at(answers, codex_home, ordered, x, b),
    ensures
        a == b,
{
    if a <= b {
        lemma_belongs_not_before(answers, codex_home, ordered, x, a, b);
    } else {
        lemma_belongs_not_before(answers, codex_home, ordered, x, b, a);
    }
}

/// Where a source belongs at two places, the one is not before the other.
proof fn lemma_belongs_not_before(
    answers: AnswersView,
    codex_home: Seq<ComponentView>,
    ordered: Seq<SourceView>,
    x: SourceView,
    a: int,
    b: int,
)
    requires
        belongs_at(answers, codex_home, ordered, x, a),
        belongs_at(answers, codex_home, ordered, x, b),
        a <= b,
    ensures
        a == b,
{
    if a < b {
        assert(apart_from(answers, codex_home, ordered[a], x));
        assert(a > 0 && comes_from(answers, codex_home, x, ordered[a - 1]));
        if b < ordered.len() {
            assert(apart_from(answers, codex_home, ordered[b], x));
        }
        if b == ordered.len() && !comes_from(answers, codex_home, x, ordered[b - 1]) {
            assert(apart_from(answers, codex_home, x, ordered[a - 1]));
        }
        assert(apart_from(answers, codex_home, x, ordered[b - 1]));
    }
}

/// Where the search for the place of a source ends, when it has come to `idx`.
proof fn lemma_search(
    answers: AnswersView,
    codex_home: Seq<ComponentView>,
    ordered: Seq<SourceView>,
    x: SourceView,
    idx: nat,
    otherwise: nat,
)
    requires
        idx <= ordered.len(),
        otherwise == ordered.len() || 0 < otherwise <= idx && comes_from(
            answers,
            codex_home,
            x,
            ordered[otherwise - 1],
        ),
        forall|i: int| 0 <= i < idx ==> #[trigger] apart_from(answers, codex_home, ordered[i], x),
        forall|i: int|
            (if otherwise == ordered.len() && !(otherwise > 0 && otherwise <= idx && comes_from(
                answers,
                codex_home,
                x,
                ordered[otherwise - 1],
            )) {
                0
            } else {
                otherwise as int
            }) <= i < idx ==> #[trigger] apart_from(answers, codex_home, x, ordered[i]),
    ensures
        insertion_point(answers, codex_home, ordered, x, idx, otherwise) matches Ok(at)
            ==> belongs_at(answers, codex_home, ordered, x, at as int),
    decreases ordered.len() - idx,
{
    if idx < ordered.len() {
        let existing = ordered[idx as int];
        if apart_from(answers, codex_home, existing, x) {
            if comes_from(answers, codex_home, x, existing) {
                lemma_search(answers, codex_home, ordered, x, idx + 1, idx + 1);
            } else if apart_from(answers, codex_home, x, existing) {
                lemma_search(answers, codex_home, ordered, x, idx + 1, otherwise);
            }
        }
    }
}

/// The search for the place of a source ends where all that it asks is known.
proof fn lemma_search_ends(
    answers: AnswersView,
    codex_home: Seq<ComponentView>,
    ordered: Seq<SourceView>,
    x: SourceView,
    idx: nat,
    otherwise: nat,
)
    requires
        forall|i: int|
            0 <= i < ordered.len() ==> {
                &&& descent(answers, codex_home, (#[trigger] ordered[i]).path, x.thread_id) is Ok
                &&& descent(answers, codex_home, x.path, ordered[i].thread_id) is Ok
            },
    ensures
        insertion_point(answers, codex_home, ordered, x, idx, otherwise) is Ok,
    decreases ordered.len() - idx,
{
    if idx < ordered.len() {
        let existing = ordered[idx as int];
        assert(descent(answers, codex_home, existing.path, x.thread_id) is Ok);
        lemma_search_ends(answers, codex_home, ordered, x, idx + 1, idx + 1);
        lemma_search_ends(answers, codex_home, ordered, x, idx + 1, otherwise);
    }
}

/// No sources are in order.
pub proof fn lemma_order_of_none(answers: AnswersView, codex_home: Seq<ComponentView>)
    ensures
        ordered_sources(answers, codex_home, Seq::empty()) == Ok::<_, RequestView>(
            Seq::<SourceView>::empty(),
        ),
{
}

/// One source more is put where it belongs among those before it, which keep
/// their order. Where all is known that this depends on, there is an order.
pub proof fn lemma_order_of_one_more(
    answers: AnswersView,
    codex_home: Seq<ComponentView>,
    sources: Seq<SourceView>,
    x: SourceView,
)
    ensures
        ordered_sources(answers, codex_home, sources) matches Err(request) ==> ordered_sources(
            answers,
            codex_home,
            sources.push(x),
        ) == Err::<Seq<SourceView>, _>(request),
        ordered_sources(answers, codex_home, sources.push(x)) matches Ok(result) ==> {
            &&& ordered_sources(answers, codex_home, sources) is Ok
            &&& exists|at: int| #[trigger]
                belongs_at(
                    answers,
                    codex_home,
                    ordered_sources(answers, codex_home, sources)->Ok_0,
                    x,
                    at,
                ) && result == ordered_sources(answers, codex_home, sources)->Ok_0.insert(at, x)
        },
        ({
            &&& ordered_sources(answers, codex_home, sources) matches Ok(ordered)
            &&& forall|i: int|
                0 <= i < ordered.len() ==> {
                    &&& descent(
                        answers,
                        codex_home,
                        (#[trigger] ordered[i]).path,
                        x.thread_id,
                    ) is Ok
                    &&& descent(answers, codex_home, x.path, ordered[i].thread_id) is Ok
                }
        }) ==> ordered_sources(answers, codex_home, sources.push(x)) is Ok,
{
    let all = sources.push(x);
    assert(all.drop_last() =~= sources);
    assert(all.last() == x);
    if let Ok(ordered) = ordered_sources(answers, codex_home, sources) {
        lemma_search(answers, codex_home, ordered, x, 0, ordered.len());
        if forall|i: int|
            0 <= i < ordered.len() ==> {
                &&& descent(answers, codex_home, (#[trigger] ordered[i]).path, x.thread_id) is Ok
                &&& descent(answers, codex_home, x.path, ordered[i].thread_id) is Ok
            } {
            lemma_search_ends(answers, codex_home, ordered, x, 0, ordered.len());
        }
        if let Ok(at) = insertion_point(answers, codex_home, ordered, x, 0, ordered.len()) {
            assert(belongs_at(answers, codex_home, ordered, x, at as int));
            assert(ordered_sources(answers, codex_home, all)->Ok_0 == ordered.insert(
                at as int,
                x,
            ));
        }
    }
}

/// Where the place of a source cannot be told, what is asked is what there is
/// to ask of whether it comes from another, or the other from it.
proof fn lemma_search_asks(
    answers: AnswersView,
    codex_home: Seq<ComponentView>,
    ordered: Seq<SourceView>,
    x: SourceView,
    idx: nat,
    otherwise: nat,
) -> (i: int)
    requires
        insertion_point(answers, codex_home, ordered, x, idx, otherwise) is Err,
    ensures
        0 <= i < ordered.len(),
        ({
            let request = insertion_point(answers, codex_home, ordered, x, idx, otherwise)->Err_0;
            ||| descent(answers, codex_home, ordered[i].path, x.thread_id) == Err::<bool, _>(
                request,
            )
            ||| descent(answers, codex_home, x.path, ordered[i].thread_id) == Err::<bool, _>(
                request,
            )
        }),
    decreases ordered.len() - idx,
{
    let existing = ordered[idx as int];
    if !apart_from(answers, codex_home, existing, x) {
        idx as int
    } else if comes_from(answers, codex_home, x, existing) {
        lemma_search_asks(answers, codex_home, ordered, x, idx + 1, idx + 1)
    } else if apart_from(answers, codex_home, x, existing) {
        lemma_search_asks(answers, codex_home, ordered, x, idx + 1, otherwise)
    } else {
        idx as int
    }
}

/// Where sources could be put in order, but not with one more, what is asked is
/// what there is to ask of whether that one comes from another, or the other
/// from it.
pub proof fn lemma_order_asks(
    answers: AnswersView,
    codex_home: Seq<ComponentView>,
    sources: Seq<SourceView>,
    x: SourceView,
) -> (i: int)
    requires
        ordered_sources(answers, codex_home, sources) is Ok,
        ordered_sources(answers, codex_home, sources.push(x)) is Err,
    ensures
        ({
            let ordered = ordered_sources(answers, codex_home, sources)->Ok_0;
            let request = ordered_sources(answers, codex_home, sources.push(x))->Err_0;
            &&& 0 <= i < ordered.len()
            &&& {
                ||| descent(answers, codex_home, ordered[i].path, x.thread_id) == Err::<bool, _>(
                    request,
                )
                ||| descent(answers, codex_home, x.path, ordered[i].thread_id) == Err::<bool, _>(
                    request,
                )
            }
        }),
{
    assert(sources.push(x).drop_last() =~= sources);
    let ordered = ordered_sources(answers, codex_home, sources)->Ok_0;
    lemma_search_asks(answers, codex_home, ordered, x, 0, ordered.len())
}

/// A source that comes from one before it is put directly behind the last that
/// it comes from, where none comes from it: nothing goes between a thread and
/// the one that carries it on.
pub proof fn lemma_order_behind_last_ancestor(
    answers: AnswersView,
    codex_home: Seq<ComponentView>,
    sources: Seq<SourceView>,
    x: SourceView,
    k: int,
)
    requires
        ordered_sources(answers, codex_home, sources) is Ok,
        ({
            let ordered = ordered_sources(answers, codex_home, sources)->Ok_0;
            &&& 0 <= k < ordered.len()
            &&& comes_from(answers, codex_home, x, ordered[k])
            &&& forall|i: int|
                0 <= i < ordered.len() ==> #[trigger] apart_from(
                    answers,
                    codex_home,
                    ordered[i],
                    x,
                )
            &&& forall|i: int|
                k < i < ordered.len() ==> #[trigger] apart_from(
                    answers,
                    codex_home,
                    x,
                    ordered[i],
                )
            &&& forall|i: int|
                0 <= i < k ==> descent(
                    answers,
                    codex_home,
                    x.path,
                    (#[trigger] ordered[i]).thread_id,
                ) is Ok
        }),
    ensures
        ordered_sources(answers, codex_home, sources.push(x)) == Ok::<_, RequestView>(
            ordered_sources(answers, codex_home, sources)->Ok_0.insert(k + 1, x),
        ),
{
    let ordered = ordered_sources(answers, codex_home, sources)->Ok_0;
    assert forall|i: int| 0 <= i < ordered.len() implies {
        &&& descent(answers, codex_home, (#[trigger] ordered[i]).path, x.thread_id) is Ok
        &&& descent(answers, codex_home, x.path, ordered[i].thread_id) is Ok
    } by {
        assert(apart_from(answers, codex_home, ordered[i], x));
        if i > k {
            assert(apart_from(answers, codex_home, x, ordered[i]));
        }
    }
    lemma_order_of_one_more(answers, codex_home, sources, x);
    let at = choose|at: int| #[trigger]
        belongs_at(answers, codex_home, ordered, x, at) && ordered_sources(
            answers,
            codex_home,
            sources.push(x),
        )->Ok_0 == ordered.insert(at, x);
    assert(belongs_at(answers, codex_home, ordered, x, k + 1));
    lemma_belongs_at_one(answers, codex_home, ordered, x, at, k + 1);
}

/// A descendant that is named last goes right behind its parent, past a thread
/// that has nothing to do with either.
pub proof fn lemma_order_past_unrelated(
    answers: AnswersView,
    codex_home: Seq<ComponentView>,
    parent: SourceView,
    unrelated: SourceView,
    child: SourceView,
)
    requires
        comes_from(answers, codex_home, child, parent),
        apart_from(answers, codex_home, parent, child),
        apart_from(answers, codex_home, parent, unrelated),
        apart_from(answers, codex_home, unrelated, parent),
        apart_from(answers, codex_home, unrelated, child),
        apart_from(answers, codex_home, child, unrelated),
    ensures
        ordered_sources(answers, codex_home, seq![parent, unrelated, child]) == Ok::<
            _,
            RequestView,
        >(seq![parent, child, unrelated]),
{
    let none = Seq::<SourceView>::empty();
    let one = seq![parent];
    let two = seq![parent, unrelated];
    lemma_order_of_none(answers, codex_home);
    lemma_order_of_one_more(answers, codex_home, none, parent);
    assert(none.push(parent) =~= one);
    assert(none.insert(0, parent) =~= one);
    lemma_order_of_one_more(answers, codex_home, one, unrelated);
    assert(one.push(unrelated) =~= two);
    assert(ordered_sources(answers, codex_home, two) == Ok::<_, RequestView>(two)) by {
        assert(descent(answers, codex_home, one[0].path, unrelated.thread_id) is Ok);
        let result = ordered_sources(answers, codex_home, two)->Ok_0;
        let at = choose|at: int| #[trigger]
            belongs_at(answers, codex_home, one, unrelated, at) && result == one.insert(
                at,
                unrelated,
            );
        assert(apart_from(answers, codex_home, one[0], unrelated));
        assert(apart_from(answers, codex_home, unrelated, one[0]));
        assert(belongs_at(answers, codex_home, one, unrelated, 1));
        lemma_belongs_at_one(answers, codex_home, one, unrelated, at, 1);
        assert(one.insert(1, unrelated) =~= two);
    }
    assert forall|i: int| 0 <= i < two.len() implies #[trigger] apart_from(
        answers,
        codex_home,
        two[i],
        child,
    ) by {}
    lemma_order_behind_last_ancestor(answers, codex_home, two, child, 0);
    assert(two.push(child) =~= seq![parent, unrelated, child]);
    assert(two.insert(1, child) =~= seq![parent, child, unrelated]);
}

/// Whether a path has a directory five above it: it has five components at
/// least, and none of the last five is a root or a prefix.
pub open spec fn lies_five_deep(path: PathView) -> bool {
    let n = path.components.len();
    &&& n >= 5
    &&& forall|i: int|
        n - 5 <= i < n ==> !((#[trigger] path.components[i]) is RootDir)
            && !(path.components[i] is Prefix)
}

/// A path has an `n`-th ancestor where it has so many components at the end
/// that are neither roots nor prefixes, and the ancestor is what is before
/// them.
pub proof fn lemma_ancestor_by_components(components: Seq<ComponentView>, n: nat)
    ensures
        nth_ancestor(components, n) == if n <= components.len() && (forall|i: int|
            components.len() - n <= i < components.len() ==> !((
            #[trigger] components[i]) is RootDir) && !(components[i] is Prefix)) {
            Some(components.take(components.len() - n))
        } else {
            None
        },
    decreases n,
{
    let len = components.len();
    if n == 0 {
        assert(components.take(len as int) =~= components);
    } else if len > 0 {
        let rest = components.drop_last();
        lemma_ancestor_by_components(rest, (n - 1) as nat);
        assert(components.last() == components[len - 1]);
        if n <= len {
            assert(rest.take(rest.len() - (n - 1)) =~= components.take(len - n));
        }
        if parent(components) is Some {
            let all = forall|i: int|
                len - n <= i < len ==> !((#[trigger] components[i]) is RootDir) && !(
                components[i] is Prefix);
            let most = forall|i: int|
                rest.len() - (n - 1) <= i < rest.len() ==> !((#[trigger] rest[i]) is RootDir) && !(
                rest[i] is Prefix);
            if n <= len {
                if most {
                    assert forall|i: int| len - n <= i < len implies !((
                    #[trigger] components[i]) is RootDir) && !(components[i] is Prefix) by {
                        if i < len - 1 {
                            assert(rest[i] == components[i]);
                        }
                    }
                }
                if all {
                    assert forall|i: int| rest.len() - (n - 1) <= i < rest.len() implies !((
                    #[trigger] rest[i]) is RootDir) && !(rest[i] is Prefix) by {
                        assert(rest[i] == components[i]);
                    }
                }
            }
        }
    }
}

/// The home of a rollout is what is left of its path without the last five
/// components; a path that does not lie so deep is refused, as it is displayed.
pub proof fn lemma_home_by_components(path: PathView)
    ensures
        lies_five_deep(path) ==> codex_home(path) == Ok::<_, InvalidRequestView>(
            path.components.take(path.components.len() - 5),
        ),
        !lies_five_deep(path) ==> codex_home(path) == Err::<Seq<ComponentView>, _>(
            InvalidRequestView::NoCodexHome { path: path.text },
        ),
{
    lemma_ancestor_by_components(path.components, 5);
}

} // verus!
