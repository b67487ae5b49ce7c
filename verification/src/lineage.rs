//! Which threads were forked from which.

use vstd::prelude::*;

use crate::answers::{Answers, AnswersView, Request, RequestView};
use crate::path::{ComponentView, PathComponent, PathRecord, PathView};
use crate::protocol::ThreadId;
use crate::same_value::{holds, result_view, SameValue};

verus! {

/// The thread that the one with the rollout at `path` was forked from, if any.
pub open spec fn parent_id(answers: AnswersView, path: PathView) -> Result<
    Option<Seq<char>>,
    RequestView,
> {
    match answers.session_metas.get(path) {
        None => Err(RequestView::SessionMeta { path }),
        Some(line) => Ok(line.meta.forked_from_id),
    }
}

/// The rollout of that thread. There is none of a thread that was not forked,
/// nor where it is not found.
pub open spec fn parent_rollout(
    answers: AnswersView,
    codex_home: Seq<ComponentView>,
    path: PathView,
) -> Result<Option<PathView>, RequestView> {
    match parent_id(answers, path) {
        Err(request) => Err(request),
        Ok(None) => Ok(None),
        Ok(Some(thread_id)) => match answers.thread_paths.get((codex_home, thread_id)) {
            None => Err(RequestView::ThreadPath { codex_home, thread_id }),
            Some(found) => Ok(found),
        },
    }
}

/// The rollout that is reached from the one at `path` by going `n` times to
/// the thread that was forked.
pub open spec fn nth_rollout(
    answers: AnswersView,
    codex_home: Seq<ComponentView>,
    path: PathView,
    n: nat,
) -> Result<Option<PathView>, RequestView>
    decreases n,
{
    if n == 0 {
        Ok(Some(path))
    } else {
        match nth_rollout(answers, codex_home, path, (n - 1) as nat) {
            Err(request) => Err(request),
            Ok(None) => Ok(None),
            Ok(Some(reached)) => parent_rollout(answers, codex_home, reached),
        }
    }
}

/// The thread that the one reached after `n` steps was forked from, if any.
pub open spec fn nth_parent(
    answers: AnswersView,
    codex_home: Seq<ComponentView>,
    path: PathView,
    n: nat,
) -> Result<Option<Seq<char>>, RequestView> {
    match nth_rollout(answers, codex_home, path, n) {
        Err(request) => Err(request),
        Ok(None) => Ok(None),
        Ok(Some(reached)) => parent_id(answers, reached),
    }
}

/// Whether the thread with the rollout at `path` comes from `ancestor`,
/// through one fork or through several.
pub open spec fn has_ancestor(
    answers: AnswersView,
    codex_home: Seq<ComponentView>,
    path: PathView,
    ancestor: Seq<char>,
) -> bool {
    exists|n: nat|
        #[trigger] nth_parent(answers, codex_home, path, n) == Ok::<_, RequestView>(Some(ancestor))
}

/// Whether the line of threads that the one at `path` comes from is lost at
/// `request`.
pub open spec fn lost_at(
    answers: AnswersView,
    codex_home: Seq<ComponentView>,
    path: PathView,
    request: RequestView,
) -> bool {
    exists|n: nat|
        #[trigger] nth_parent(answers, codex_home, path, n) == Err::<Option<Seq<char>>, _>(request)
}

/// Whether the thread with the rollout at `path` comes from `ancestor`, or
/// what there is to ask to tell.
pub open spec fn descent(
    answers: AnswersView,
    codex_home: Seq<ComponentView>,
    path: PathView,
    ancestor: Seq<char>,
) -> Result<bool, RequestView> {
    if has_ancestor(answers, codex_home, path, ancestor) {
        Ok(true)
    } else if exists|request: RequestView| lost_at(answers, codex_home, path, request) {
        Err(choose|request: RequestView| lost_at(answers, codex_home, path, request))
    } else {
        Ok(false)
    }
}

/// Where the line is lost, it stays lost.
proof fn lemma_stays_lost(
    answers: AnswersView,
    codex_home: Seq<ComponentView>,
    path: PathView,
    n: nat,
    m: nat,
)
    requires
        n <= m,
        nth_parent(answers, codex_home, path, n) is Err,
    ensures
        nth_parent(answers, codex_home, path, m) == nth_parent(answers, codex_home, path, n),
    decreases m,
{
    if n < m {
        lemma_stays_lost(answers, codex_home, path, n, (m - 1) as nat);
    }
}

/// The line of threads is lost at one request, at most.
pub proof fn lemma_lost_at_one(
    answers: AnswersView,
    codex_home: Seq<ComponentView>,
    path: PathView,
    first: RequestView,
    second: RequestView,
)
    requires
        lost_at(answers, codex_home, path, first),
        lost_at(answers, codex_home, path, second),
    ensures
        first == second,
{
    let n = choose|n: nat|
        #[trigger] nth_parent(answers, codex_home, path, n) == Err::<Option<Seq<char>>, _>(first);
    let m = choose|m: nat|
        #[trigger] nth_parent(answers, codex_home, path, m) == Err::<Option<Seq<char>>, _>(second);
    if n <= m {
        lemma_stays_lost(answers, codex_home, path, n, m);
    } else {
        lemma_stays_lost(answers, codex_home, path, m, n);
    }
}

/// Where the way ends, it has ended.
proof fn lemma_stays_ended(
    answers: AnswersView,
    codex_home: Seq<ComponentView>,
    path: PathView,
    n: nat,
    m: nat,
)
    requires
        n <= m,
        nth_parent(answers, codex_home, path, n) == Ok::<Option<Seq<char>>, RequestView>(None),
    ensures
        nth_parent(answers, codex_home, path, m) == Ok::<Option<Seq<char>>, RequestView>(None),
    decreases m,
{
    if n < m {
        lemma_stays_ended(answers, codex_home, path, n, (m - 1) as nat);
    }
}

/// When one thread is met twice, the way goes round: it is met again and again,
/// with those between, and no other.
proof fn lemma_goes_round(
    answers: AnswersView,
    codex_home: Seq<ComponentView>,
    path: PathView,
    first: nat,
    again: nat,
    n: nat,
) -> (i: nat)
    requires
        first < again,
        nth_parent(answers, codex_home, path, first) is Ok,
        nth_parent(answers, codex_home, path, first)->Ok_0 is Some,
        nth_parent(answers, codex_home, path, again) == nth_parent(
            answers,
            codex_home,
            path,
            first,
        ),
    ensures
        i <= again,
        nth_parent(answers, codex_home, path, n) == nth_parent(answers, codex_home, path, i),
    decreases n,
{
    if n <= again {
        n
    } else {
        lemma_same_steps(answers, codex_home, path, first, again, (n - again - 1) as nat);
        lemma_goes_round(answers, codex_home, path, first, again, (first + (n - again)) as nat)
    }
}

/// From the same thread on, the same steps follow.
proof fn lemma_same_steps(
    answers: AnswersView,
    codex_home: Seq<ComponentView>,
    path: PathView,
    first: nat,
    again: nat,
    k: nat,
)
    requires
        nth_parent(answers, codex_home, path, first) is Ok,
        nth_parent(answers, codex_home, path, first)->Ok_0 is Some,
        nth_parent(answers, codex_home, path, again) == nth_parent(
            answers,
            codex_home,
            path,
            first,
        ),
    ensures
        nth_rollout(answers, codex_home, path, again + 1 + k) == nth_rollout(
            answers,
            codex_home,
            path,
            first + 1 + k,
        ),
    decreases k,
{
    if k > 0 {
        lemma_same_steps(answers, codex_home, path, first, again, (k - 1) as nat);
    }
}

/// Distinct threads whose rollouts have been looked up are no more than the
/// lookups.
proof fn lemma_finitely_many(
    answers: &Answers,
    codex_home: Seq<ComponentView>,
    thread_ids: Seq<Seq<char>>,
)
    requires
        thread_ids.no_duplicates(),
        forall|i: int|
            0 <= i < thread_ids.len() ==> answers.deep_view().thread_paths.contains_key(
                (codex_home, #[trigger] thread_ids[i]),
            ),
    ensures
        thread_ids.len() <= answers.deep_view().thread_paths.dom().len(),
{
    let keys = thread_ids.map_values(|thread_id: Seq<char>| (codex_home, thread_id));
    let dom = answers.deep_view().thread_paths.dom();
    answers.thread_paths.lemma_finite();
    assert(keys.no_duplicates()) by {
        assert forall|i: int, j: int| 0 <= i < j < keys.len() implies keys[i] != keys[j] by {
            assert(thread_ids[i] != thread_ids[j]);
        }
    }
    keys.unique_seq_to_set();
    assert(keys.to_set().subset_of(dom)) by {
        assert forall|key| keys.to_set().contains(key) implies dom.contains(key) by {
            let i = choose|i: int| 0 <= i < keys.len() && keys[i] == key;
            assert(answers.deep_view().thread_paths.contains_key((codex_home, thread_ids[i])));
        }
    }
    vstd::set_lib::lemma_len_subset(keys.to_set(), dom);
}

/// Whether the thread with the rollout at `descendant_path` comes from
/// `ancestor_thread_id`, through one fork or through several.
pub fn is_descendant_of_thread(
    answers: &Answers,
    codex_home: &Vec<PathComponent>,
    descendant_path: &PathRecord,
    ancestor_thread_id: &ThreadId,
) -> (result: Result<bool, Request>)
    ensures
        result_view(result) == descent(
            answers.deep_view(),
            codex_home.deep_view(),
            descendant_path.deep_view(),
            ancestor_thread_id.deep_view(),
        ),
{
    let ghost known = answers.deep_view();
    let ghost home = codex_home.deep_view();
    let ghost start = descendant_path.deep_view();
    let ghost ancestor = ancestor_thread_id.deep_view();
    let mut current_path: PathRecord = descendant_path.clone();
    let mut seen: Vec<ThreadId> = Vec::new();
    proof {
        lemma_finitely_many(answers, home, seen.deep_view());
    }
    loop
        invariant
            known == answers.deep_view(),
            home == codex_home.deep_view(),
            start == descendant_path.deep_view(),
            ancestor == ancestor_thread_id.deep_view(),
            nth_rollout(known, home, start, seen.len() as nat) == Ok::<_, RequestView>(
                Some(current_path.deep_view()),
            ),
            forall|i: nat|
                i < seen.len() ==> {
                    &&& #[trigger] nth_parent(known, home, start, i) == Ok::<_, RequestView>(
                        Some(seen.deep_view()[i as int]),
                    )
                    &&& seen.deep_view()[i as int] != ancestor
                },
            forall|i: int|
                0 <= i < seen.len() ==> known.thread_paths.contains_key(
                    (home, #[trigger] seen.deep_view()[i]),
                ),
            seen.deep_view().no_duplicates(),
            seen.len() <= known.thread_paths.dom().len(),
        decreases known.thread_paths.dom().len() - seen.len(),
    {
        let ghost n: nat = seen.len() as nat;
        let meta_line = match answers.session_metas.get(&current_path) {
            Some(meta_line) => meta_line,
            None => {
                let request = Request::SessionMeta { path: current_path };
                proof {
                    lemma_lost(known, home, start, ancestor, n, request.deep_view());
                }
                return Err(request);
            },
        };
        let parent_thread_id = match &meta_line.meta.forked_from_id {
            Some(parent_thread_id) => parent_thread_id,
            None => {
                proof {
                    lemma_ended(known, home, start, ancestor, n);
                }
                return Ok(false);
            },
        };
        assert(nth_parent(known, home, start, n) == Ok::<_, RequestView>(
            Some(parent_thread_id.deep_view()),
        ));
        if parent_thread_id.same(ancestor_thread_id) {
            return Ok(true);
        }
        if holds(seen.as_slice(), parent_thread_id) {
            proof {
                let first = choose|i: int|
                    0 <= i < seen.deep_view().len() && seen.deep_view()[i]
                        == parent_thread_id.deep_view();
                lemma_cycle(known, home, start, ancestor, first as nat, n);
            }
            return Ok(false);
        }
        let key = (codex_home.clone(), parent_thread_id.clone());
        assert(key.0.deep_view() =~= home);
        let parent_path = match answers.thread_paths.get(&key) {
            Some(Some(parent_path)) => parent_path,
            Some(None) => {
                proof {
                    lemma_ended(known, home, start, ancestor, n + 1);
                }
                return Ok(false);
            },
            None => {
                let request = Request::ThreadPath { codex_home: key.0, thread_id: key.1 };
                proof {
                    lemma_lost(known, home, start, ancestor, n + 1, request.deep_view());
                }
                return Err(request);
            },
        };
        current_path = parent_path.clone();
        let ghost before = seen.deep_view();
        seen.push(parent_thread_id.clone());
        proof {
            assert(seen.deep_view() =~= before.push(parent_thread_id.deep_view()));
            assert(seen.deep_view().no_duplicates());
            lemma_finitely_many(answers, home, seen.deep_view());
        }
    }
}

/// A line of threads that is lost before it reaches `ancestor`.
proof fn lemma_lost(
    answers: AnswersView,
    codex_home: Seq<ComponentView>,
    path: PathView,
    ancestor: Seq<char>,
    n: nat,
    request: RequestView,
)
    requires
        nth_parent(answers, codex_home, path, n) == Err::<Option<Seq<char>>, _>(request),
        forall|i: nat|
            i < n ==> #[trigger] nth_parent(answers, codex_home, path, i) != Ok::<_, RequestView>(
                Some(ancestor),
            ),
    ensures
        descent(answers, codex_home, path, ancestor) == Err::<bool, _>(request),
{
    assert forall|i: nat| #[trigger]
        nth_parent(answers, codex_home, path, i) != Ok::<_, RequestView>(Some(ancestor)) by {
        if i >= n {
            lemma_stays_lost(answers, codex_home, path, n, i);
        }
    }
    assert(lost_at(answers, codex_home, path, request));
    let chosen = choose|request: RequestView| lost_at(answers, codex_home, path, request);
    lemma_lost_at_one(answers, codex_home, path, chosen, request);
}

/// A line of threads that ends before it reaches `ancestor`.
proof fn lemma_ended(
    answers: AnswersView,
    codex_home: Seq<ComponentView>,
    path: PathView,
    ancestor: Seq<char>,
    n: nat,
)
    requires
        nth_parent(answers, codex_home, path, n) == Ok::<Option<Seq<char>>, RequestView>(None),
        forall|i: nat|
            i < n ==> {
                &&& #[trigger] nth_parent(answers, codex_home, path, i) is Ok
                &&& nth_parent(answers, codex_home, path, i) != Ok::<_, RequestView>(
                    Some(ancestor),
                )
            },
    ensures
        descent(answers, codex_home, path, ancestor) == Ok::<_, RequestView>(false),
{
    assert forall|i: nat|
        {
            &&& #[trigger] nth_parent(answers, codex_home, path, i) is Ok
            &&& nth_parent(answers, codex_home, path, i) != Ok::<_, RequestView>(Some(ancestor))
        } by {
        if i >= n {
            lemma_stays_ended(answers, codex_home, path, n, i);
        }
    }
}

/// A line of threads that goes round without `ancestor`.
proof fn lemma_cycle(
    answers: AnswersView,
    codex_home: Seq<ComponentView>,
    path: PathView,
    ancestor: Seq<char>,
    first: nat,
    again: nat,
)
    requires
        first < again,
        nth_parent(answers, codex_home, path, again) == nth_parent(
            answers,
            codex_home,
            path,
            first,
        ),
        forall|i: nat|
            i <= again ==> {
                &&& #[trigger] nth_parent(answers, codex_home, path, i) is Ok
                &&& nth_parent(answers, codex_home, path, i)->Ok_0 is Some
                &&& nth_parent(answers, codex_home, path, i) != Ok::<_, RequestView>(
                    Some(ancestor),
                )
            },
    ensures
        descent(answers, codex_home, path, ancestor) == Ok::<_, RequestView>(false),
{
    assert forall|n: nat|
        {
            &&& #[trigger] nth_parent(answers, codex_home, path, n) is Ok
            &&& nth_parent(answers, codex_home, path, n) != Ok::<_, RequestView>(Some(ancestor))
        } by {
        let i = lemma_goes_round(answers, codex_home, path, first, again, n);
    }
}

} // verus!
