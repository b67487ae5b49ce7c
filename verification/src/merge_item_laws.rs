//! What a merged rollout holds, item by item, and when there is none, told by
//! what the items of the base and of the sources are.

use vstd::prelude::*;

use crate::answers::{AnswersView, HaltView, RequestView};
use crate::descent_laws::{lemma_home_by_components, lies_five_deep};
use crate::error::InvalidRequestView;
use crate::lineage::descent;
use crate::merge_laws::{
    lemma_first_removal_is_first, lemma_most_shared_bounds, lemma_most_shared_is_largest,
    seen_shared,
};
use crate::path::{ComponentView, PathView};
use crate::playback_laws::{is_rollback, is_user_message};
use crate::protocol::{ItemView, MetaLineView};
use crate::thread_merge::{
    codex_home, first_obstacle, first_removal, lead_in_start, lemma_lead_in, merge_all,
    merge_base_items, merge_one, merged_rollout, most_shared, ordered_sources, removes_shared,
    source_obstacle, suffix_start, without_boundaries, SourceView,
};
use crate::turns::{
    common_prefix_len, lemma_scan_stops, lemma_turns_start_inside, scan, turns_of, TurnView,
};

verus! {

/// How many of the first `n` items are marks between items of different
/// threads.
pub open spec fn marks_before(items: Seq<ItemView>, n: int) -> nat
    decreases n,
{
    if n <= 0 {
        0
    } else if items[n - 1] is MergeBoundary {
        marks_before(items, n - 1) + 1
    } else {
        marks_before(items, n - 1)
    }
}

/// Whether `out` holds every item of `items` that is no mark, in order and
/// without a gap, and nothing else.
pub open spec fn holds_unmarked(items: Seq<ItemView>, out: Seq<ItemView>) -> bool {
    &&& out.len() + marks_before(items, items.len() as int) == items.len()
    &&& forall|i: int|
        0 <= i < items.len() && !((#[trigger] items[i]) is MergeBoundary) ==> {
            &&& marks_before(items, i) <= i
            &&& i - marks_before(items, i) < out.len()
            &&& out[i - marks_before(items, i)] == items[i]
        }
}

/// The marks among the first items are those among the first of all.
proof fn lemma_marks_before_prefix(a: Seq<ItemView>, b: Seq<ItemView>, n: int)
    requires
        0 <= n <= a.len(),
        a.is_prefix_of(b),
    ensures
        marks_before(a, n) == marks_before(b, n),
        marks_before(a, n) <= n,
    decreases n,
{
    if n > 0 {
        assert(a[n - 1] == b[n - 1]);
        lemma_marks_before_prefix(a, b, n - 1);
    }
}

/// Leaving out the marks leaves every other item.
proof fn lemma_unmarked(items: Seq<ItemView>)
    ensures
        holds_unmarked(items, without_boundaries(items)),
    decreases items.len(),
{
    reveal(Seq::filter);
    if items.len() > 0 {
        let rest = items.drop_last();
        let last = items.len() - 1;
        lemma_unmarked(rest);
        let before = without_boundaries(rest);
        let out = without_boundaries(items);
        lemma_marks_before_prefix(rest, items, last);
        assert(items[last] == items.last());
        assert forall|i: int|
            0 <= i < items.len() && !((#[trigger] items[i]) is MergeBoundary) implies {
            &&& marks_before(items, i) <= i
            &&& i - marks_before(items, i) < out.len()
            &&& out[i - marks_before(items, i)] == items[i]
        } by {
            lemma_marks_before_prefix(items, items, i);
            if i < last {
                assert(rest[i] == items[i]);
                lemma_marks_before_prefix(rest, items, i);
                assert(before[i - marks_before(rest, i)] == rest[i]);
            }
        }
    }
}

/// There is one list that holds the items that are no marks.
pub proof fn lemma_unmarked_one(items: Seq<ItemView>, a: Seq<ItemView>, b: Seq<ItemView>)
    requires
        holds_unmarked(items, a),
        holds_unmarked(items, b),
    ensures
        a == b,
    decreases items.len(),
{
    if items.len() > 0 {
        let rest = items.drop_last();
        let last = items.len() - 1;
        lemma_marks_before_prefix(rest, items, last);
        if items[last] is MergeBoundary {
            lemma_unmarked_drop_last(items, a, a);
            lemma_unmarked_drop_last(items, b, b);
            lemma_unmarked_one(rest, a, b);
        } else {
            lemma_unmarked_drop_last(items, a, a.drop_last());
            lemma_unmarked_drop_last(items, b, b.drop_last());
            lemma_unmarked_one(rest, a.drop_last(), b.drop_last());
            assert(a.last() == items[last]);
            assert(b.last() == items[last]);
            assert(a =~= a.drop_last().push(items[last]));
            assert(b =~= b.drop_last().push(items[last]));
        }
    } else {
        assert(a =~= b);
    }
}

/// Without the last item, the list is shorter by it, where it is no mark.
proof fn lemma_unmarked_drop_last(items: Seq<ItemView>, out: Seq<ItemView>, part: Seq<ItemView>)
    requires
        items.len() > 0,
        holds_unmarked(items, out),
        part == if items.last() is MergeBoundary {
            out
        } else {
            out.drop_last()
        },
    ensures
        holds_unmarked(items.drop_last(), part),
        !(items.last() is MergeBoundary) ==> out.len() > 0 && out.last() == items.last(),
{
    let rest = items.drop_last();
    let last = items.len() - 1;
    assert(items[last] == items.last());
    lemma_marks_before_prefix(rest, items, last);
    assert forall|i: int| 0 <= i < rest.len() && !((#[trigger] rest[i]) is MergeBoundary) implies {
        &&& marks_before(rest, i) <= i
        &&& i - marks_before(rest, i) < part.len()
        &&& part[i - marks_before(rest, i)] == rest[i]
    } by {
        assert(rest[i] == items[i]);
        lemma_marks_before_prefix(rest, items, i);
        lemma_marks_grow(items, i + 1, last);
    }
}

/// Between two places there are no more marks than items.
proof fn lemma_marks_grow(items: Seq<ItemView>, a: int, b: int)
    requires
        0 <= a <= b,
    ensures
        marks_before(items, a) <= marks_before(items, b) <= marks_before(items, a) + (b - a),
    decreases b - a,
{
    if a < b {
        lemma_marks_grow(items, a, b - 1);
    }
}

/// Where there are no marks, all items are held, as they are.
pub proof fn lemma_unmarked_is_all(items: Seq<ItemView>, out: Seq<ItemView>)
    requires
        holds_unmarked(items, out),
        forall|i: int| 0 <= i < items.len() ==> !((#[trigger] items[i]) is MergeBoundary),
    ensures
        out == items,
{
    assert forall|n: int| 0 <= n <= items.len() implies #[trigger] marks_before(items, n) == 0 by {
        lemma_no_marks(items, n);
    }
    assert(out =~= items) by {
        assert forall|i: int| 0 <= i < items.len() implies out[i] == #[trigger] items[i] by {
            assert(marks_before(items, i) == 0);
        }
    }
}

/// Where no item is a mark, none of the first is.
proof fn lemma_no_marks(items: Seq<ItemView>, n: int)
    requires
        n <= items.len(),
        forall|i: int| 0 <= i < items.len() ==> !((#[trigger] items[i]) is MergeBoundary),
    ensures
        marks_before(items, n) == 0,
    decreases n,
{
    if n > 0 {
        assert(!(items[n - 1] is MergeBoundary));
        lemma_no_marks(items, n - 1);
    }
}

/// Whether `b` are the session metadata `a`, but for what they tell of a merge,
/// which is nothing.
pub open spec fn tells_of_no_merge(a: MetaLineView, b: MetaLineView) -> bool {
    &&& b.git == a.git
    &&& b.meta.id == a.meta.id
    &&& b.meta.forked_from_id == a.meta.forked_from_id
    &&& b.meta.cwd == a.meta.cwd
    &&& b.meta.details == a.meta.details
    &&& b.meta.merge_base_thread_id is None
    &&& b.meta.merged_from_thread_ids is None
}

/// Whether `out` is what a merge starts from: every item of the base that is no
/// mark, unchanged but for the first, which are session metadata that tell of
/// no merge any more.
pub open spec fn opens_as(base: Seq<ItemView>, out: Seq<ItemView>) -> bool {
    &&& out.len() > 0
    &&& out[0] is SessionMeta
    &&& exists|line: MetaLineView|
        {
            &&& #[trigger] holds_unmarked(base, out.update(0, ItemView::SessionMeta(line)))
            &&& tells_of_no_merge(line, out[0]->SessionMeta_0)
        }
}

/// A merge starts from the items of the base, where the first that is no mark
/// are session metadata.
pub proof fn lemma_start_items(base: Seq<ItemView>)
    ensures
        merge_base_items(base) matches Some(out) ==> opens_as(base, out),
        merge_base_items(base) is Some <==> exists|i: int|
            {
                &&& 0 <= i < base.len()
                &&& (#[trigger] base[i]) is SessionMeta
                &&& forall|j: int| 0 <= j < i ==> (#[trigger] base[j]) is MergeBoundary
            },
{
    let kept = without_boundaries(base);
    lemma_unmarked(base);
    if let Some(out) = merge_base_items(base) {
        let line = kept[0]->SessionMeta_0;
        assert(out.update(0, ItemView::SessionMeta(line)) =~= kept);
        assert(holds_unmarked(base, out.update(0, ItemView::SessionMeta(line))));
    }
    if kept.len() > 0 {
        let i = lemma_first_unmarked(base);
        lemma_all_marks(base, i);
        assert(kept[0] == base[i]);
    }
    if exists|i: int|
        {
            &&& 0 <= i < base.len()
            &&& (#[trigger] base[i]) is SessionMeta
            &&& forall|j: int| 0 <= j < i ==> (#[trigger] base[j]) is MergeBoundary
        } {
        let i = choose|i: int|
            {
                &&& 0 <= i < base.len()
                &&& (#[trigger] base[i]) is SessionMeta
                &&& forall|j: int| 0 <= j < i ==> (#[trigger] base[j]) is MergeBoundary
            };
        lemma_all_marks(base, i);
        assert(kept[0] == base[i]);
    }
}

/// Where all before are marks, there are as many marks as items before.
proof fn lemma_all_marks(items: Seq<ItemView>, n: int)
    requires
        0 <= n <= items.len(),
        forall|j: int| 0 <= j < n ==> (#[trigger] items[j]) is MergeBoundary,
    ensures
        marks_before(items, n) == n,
    decreases n,
{
    if n > 0 {
        assert(items[n - 1] is MergeBoundary);
        lemma_all_marks(items, n - 1);
    }
}

/// Where not all items are marks, the first that is none.
proof fn lemma_first_unmarked(items: Seq<ItemView>) -> (i: int)
    requires
        marks_before(items, items.len() as int) < items.len(),
    ensures
        0 <= i < items.len(),
        !(items[i] is MergeBoundary),
        forall|j: int| 0 <= j < i ==> (#[trigger] items[j]) is MergeBoundary,
    decreases items.len(),
{
    let rest = items.drop_last();
    let last = items.len() - 1;
    lemma_marks_before_prefix(rest, items, last);
    if marks_before(rest, last) < last {
        let i = lemma_first_unmarked(rest);
        assert(rest[i] == items[i]);
        assert forall|j: int| 0 <= j < i implies (#[trigger] items[j]) is MergeBoundary by {
            assert(rest[j] == items[j]);
        }
        i
    } else {
        assert forall|j: int| 0 <= j < last implies (#[trigger] items[j]) is MergeBoundary by {
            lemma_marks_grow(items, 0, j);
            lemma_marks_grow(items, j + 1, last);
            if !(items[j] is MergeBoundary) {
                assert(marks_before(items, j + 1) == marks_before(items, j));
            }
        }
        last
    }
}

/// How many turns the first `n` items have in common with `merged_turns`.
pub open spec fn shared_after(
    answers: AnswersView,
    merged_turns: Seq<TurnView>,
    items: Seq<ItemView>,
    n: int,
) -> nat {
    common_prefix_len(merged_turns, turns_of(answers, items.take(n))->Ok_0)
}

/// Whether a rollout is looked at when `n` of its items have been played back:
/// right before a message of the user, a compaction or a rollback, and right
/// after a compaction.
pub open spec fn looked_at(items: Seq<ItemView>, n: int) -> bool {
    &&& 0 <= n <= items.len()
    &&& {
        ||| n < items.len() && (is_user_message(items[n]) || items[n] is Compacted || is_rollback(
            items[n],
        ))
        ||| n > 0 && items[n - 1] is Compacted
    }
}

/// Whether the item `i` takes back turns in common: it is a rollback, and there
/// were once more turns in common than there are after it, and more than
/// `final_len`.
pub open spec fn takes_back(
    answers: AnswersView,
    merged_turns: Seq<TurnView>,
    items: Seq<ItemView>,
    i: int,
    final_len: nat,
) -> bool {
    &&& 0 <= i < items.len()
    &&& is_rollback(items[i])
    &&& exists|n: int|
        {
            &&& 0 <= n <= i
            &&& #[trigger] looked_at(items, n)
            &&& shared_after(answers, merged_turns, items, n) > final_len
            &&& shared_after(answers, merged_turns, items, n) > shared_after(
                answers,
                merged_turns,
                items,
                i + 1,
            )
        }
}

/// More items do not make the most turns in common fewer.
proof fn lemma_most_shared_grows(
    answers: AnswersView,
    merged_turns: Seq<TurnView>,
    items: Seq<ItemView>,
    n: int,
)
    requires
        0 <= n <= items.len(),
    ensures
        most_shared(answers, merged_turns, items.take(n)) <= most_shared(
            answers,
            merged_turns,
            items,
        ),
    decreases items.len(),
{
    if n < items.len() {
        lemma_most_shared_grows(answers, merged_turns, items.drop_last(), n);
        assert(items.drop_last().take(n) =~= items.take(n));
    } else {
        assert(items.take(n) =~= items);
    }
}

/// The turns in common at a place that is looked at are no more than the most.
proof fn lemma_looked_at_bound(
    answers: AnswersView,
    merged_turns: Seq<TurnView>,
    items: Seq<ItemView>,
    n: int,
)
    requires
        scan(answers, items) is Ok,
        looked_at(items, n),
    ensures
        shared_after(answers, merged_turns, items, n) <= most_shared(answers, merged_turns, items),
{
    lemma_scan_stops(answers, items, n);
    lemma_most_shared_is_largest(answers, merged_turns, items);
    let state = scan(answers, items.take(n))->Ok_0;
    let shared = shared_after(answers, merged_turns, items, n);
    if state.active is None {
        lemma_most_shared_bounds(answers, merged_turns, items.take(n));
        lemma_most_shared_grows(answers, merged_turns, items, n);
    } else if n < items.len() && (is_user_message(items[n]) || items[n] is Compacted
        || is_rollback(items[n])) {
        assert(seen_shared(answers, merged_turns, items, n, shared));
    } else {
        assert(items.take(n).last() == items[n - 1]);
    }
}

/// The most turns in common were there at a place that is looked at.
proof fn lemma_most_is_looked_at(
    answers: AnswersView,
    merged_turns: Seq<TurnView>,
    items: Seq<ItemView>,
) -> (n: int)
    requires
        scan(answers, items) is Ok,
        most_shared(answers, merged_turns, items) > 0,
    ensures
        looked_at(items, n),
        shared_after(answers, merged_turns, items, n) == most_shared(answers, merged_turns, items),
{
    lemma_most_shared_is_largest(answers, merged_turns, items);
    let most = most_shared(answers, merged_turns, items);
    let n = choose|n: int| #[trigger] seen_shared(answers, merged_turns, items, n, most);
    lemma_scan_stops(answers, items, n);
    lemma_scan_stops(answers, items, n + 1);
    let before = scan(answers, items.take(n))->Ok_0;
    let after = scan(answers, items.take(n + 1))->Ok_0;
    if items[n] is Compacted && most == common_prefix_len(merged_turns, after.turns) {
        assert(items.take(n + 1).last() == items[n]);
        assert(after.active is None);
        n + 1
    } else {
        n
    }
}

/// What is looked for is what takes back turns in common.
proof fn lemma_removal_is_taking_back(
    answers: AnswersView,
    merged_turns: Seq<TurnView>,
    items: Seq<ItemView>,
    i: int,
    final_len: nat,
)
    requires
        scan(answers, items) is Ok,
        0 <= i < items.len(),
    ensures
        removes_shared(answers, merged_turns, items.take(i + 1), final_len) <==> takes_back(
            answers,
            merged_turns,
            items,
            i,
            final_len,
        ),
{
    let upto = items.take(i + 1);
    lemma_scan_stops(answers, items, i + 1);
    assert(upto.last() == items[i]);
    if is_rollback(items[i]) {
        let after = scan(answers, upto)->Ok_0;
        assert(after.active is None);
        if removes_shared(answers, merged_turns, upto, final_len) {
            let n = lemma_most_is_looked_at(answers, merged_turns, upto);
            assert(n <= i) by {
                if n == i + 1 {
                    assert(upto[n - 1] == items[i]);
                }
            }
            assert(upto.take(n) =~= items.take(n));
            assert(looked_at(items, n)) by {
                assert(upto[n] == items[n]);
                if n > 0 {
                    assert(upto[n - 1] == items[n - 1]);
                }
            }
        }
        if takes_back(answers, merged_turns, items, i, final_len) {
            let n = choose|n: int|
                {
                    &&& 0 <= n <= i
                    &&& #[trigger] looked_at(items, n)
                    &&& shared_after(answers, merged_turns, items, n) > final_len
                    &&& shared_after(answers, merged_turns, items, n) > shared_after(
                        answers,
                        merged_turns,
                        items,
                        i + 1,
                    )
                };
            assert(upto.take(n) =~= items.take(n));
            assert(looked_at(upto, n)) by {
                assert(upto[n] == items[n]);
                if n > 0 {
                    assert(upto[n - 1] == items[n - 1]);
                }
            }
            lemma_looked_at_bound(answers, merged_turns, upto, n);
        }
    }
}

/// The rollback that a merge looks for in a source is the first that takes back
/// turns in common, if there is one.
pub proof fn lemma_removal_by_turns(
    answers: AnswersView,
    merged_turns: Seq<TurnView>,
    items: Seq<ItemView>,
    final_len: nat,
)
    requires
        turns_of(answers, items) is Ok,
    ensures
        first_removal(answers, merged_turns, items, final_len) is Ok,
        match first_removal(answers, merged_turns, items, final_len)->Ok_0 {
            None => forall|i: int| !#[trigger]
                takes_back(answers, merged_turns, items, i, final_len),
            Some(idx) => takes_back(answers, merged_turns, items, idx as int, final_len)
                && forall|i: int|
                i < idx ==> !#[trigger] takes_back(answers, merged_turns, items, i, final_len),
        },
{
    lemma_removal_ok(answers, merged_turns, items, final_len);
    lemma_first_removal_is_first(answers, merged_turns, items, final_len);
    assert forall|i: int| 0 <= i < items.len() implies (removes_shared(
        answers,
        merged_turns,
        items.take(i + 1),
        final_len,
    ) <==> #[trigger] takes_back(answers, merged_turns, items, i, final_len)) by {
        lemma_removal_is_taking_back(answers, merged_turns, items, i, final_len);
    }
    match first_removal(answers, merged_turns, items, final_len)->Ok_0 {
        None => {
            assert forall|i: int| !#[trigger]
                takes_back(answers, merged_turns, items, i, final_len) by {
                if 0 <= i < items.len() {
                    assert(!removes_shared(answers, merged_turns, items.take(i + 1), final_len));
                }
            }
        },
        Some(idx) => {
            assert(takes_back(answers, merged_turns, items, idx as int, final_len));
            assert forall|i: int| i < idx implies !#[trigger]
                takes_back(answers, merged_turns, items, i, final_len) by {
                if 0 <= i < items.len() {
                    assert(!removes_shared(answers, merged_turns, items.take(i + 1), final_len));
                }
            }
        },
    }
}

/// In items that can be played back the search comes to an end.
proof fn lemma_removal_ok(
    answers: AnswersView,
    merged_turns: Seq<TurnView>,
    items: Seq<ItemView>,
    final_len: nat,
)
    requires
        scan(answers, items) is Ok,
    ensures
        first_removal(answers, merged_turns, items, final_len) is Ok,
    decreases items.len(),
{
    if items.len() > 0 {
        lemma_removal_ok(answers, merged_turns, items.drop_last(), final_len);
    }
}

/// Where items cannot be played back beyond the first `n`, a rollback among
/// these is found, and else what the playback asks for is asked.
pub proof fn lemma_removal_stopped(
    answers: AnswersView,
    merged_turns: Seq<TurnView>,
    items: Seq<ItemView>,
    final_len: nat,
    n: int,
)
    requires
        0 <= n < items.len(),
        turns_of(answers, items.take(n)) is Ok,
        turns_of(answers, items.take(n + 1)) is Err,
    ensures
        first_removal(answers, merged_turns, items, final_len) == (match first_removal(
            answers,
            merged_turns,
            items.take(n),
            final_len,
        )->Ok_0 {
            Some(idx) => Ok(Some(idx)),
            None => Err(turns_of(answers, items.take(n + 1))->Err_0),
        }),
    decreases items.len(),
{
    lemma_removal_ok(answers, merged_turns, items.take(n), final_len);
    if n + 1 == items.len() {
        assert(items.take(n + 1) =~= items);
        assert(items.drop_last() =~= items.take(n));
    } else {
        let rest = items.drop_last();
        assert(rest.take(n) =~= items.take(n));
        assert(rest.take(n + 1) =~= items.take(n + 1));
        lemma_removal_stopped(answers, merged_turns, rest, final_len, n);
        lemma_scan_stops(answers, items, n + 1);
    }
}

/// Whether `cut` is where what leads into the item `start` begins: from there
/// to it there are compactions and contexts of turns alone, and right before
/// there is neither.
pub open spec fn leads_from(items: Seq<ItemView>, start: int, cut: int) -> bool {
    &&& 0 <= cut <= start
    &&& forall|i: int|
        cut <= i < start ==> (#[trigger] items[i]) is Compacted || items[i] is TurnContext
    &&& 0 < cut <= items.len() ==> !(items[cut - 1] is Compacted) && !(items[cut
        - 1] is TurnContext)
}

/// What leads into an item begins where it is said to, and nowhere else.
pub proof fn lemma_lead_in_by_items(items: Seq<ItemView>, start: nat, cut: int)
    requires
        start <= items.len(),
    ensures
        leads_from(items, start as int, cut) <==> cut == lead_in_start(items, start),
{
    lemma_lead_in(items, start);
    let found = lead_in_start(items, start) as int;
    assert(leads_from(items, start as int, found));
    if leads_from(items, start as int, cut) {
        if cut < found {
            assert(items[found - 1] is Compacted || items[found - 1] is TurnContext);
        }
        if found < cut {
            assert(items[cut - 1] is Compacted || items[cut - 1] is TurnContext);
        }
    }
}

/// Where the part of a source begins that a merge adds: at the first rollback
/// that takes back turns in common, or at what leads into the first turn that
/// is not in common, whichever comes first. There is none where there is
/// neither.
pub proof fn lemma_cut_by_turns(
    answers: AnswersView,
    items: Seq<ItemView>,
    merged_turns: Seq<TurnView>,
    source_turns: Seq<TurnView>,
    common_len: nat,
)
    requires
        turns_of(answers, items) is Ok,
    ensures
        suffix_start(answers, items, merged_turns, source_turns, common_len) is Ok,
        match suffix_start(answers, items, merged_turns, source_turns, common_len)->Ok_0 {
            None => {
                &&& common_len >= source_turns.len()
                &&& forall|i: int| !#[trigger]
                    takes_back(answers, merged_turns, items, i, common_len)
            },
            Some(cut) => {
                &&& forall|i: int|
                    i < cut ==> !#[trigger] takes_back(answers, merged_turns, items, i, common_len)
                &&& common_len < source_turns.len() ==> exists|t: int| #[trigger]
                    leads_from(items, source_turns[common_len as int].start_idx as int, t) && cut
                        <= t
                &&& {
                    ||| takes_back(answers, merged_turns, items, cut as int, common_len)
                    ||| common_len < source_turns.len() && leads_from(
                        items,
                        source_turns[common_len as int].start_idx as int,
                        cut as int,
                    )
                }
            },
        },
{
    lemma_removal_by_turns(answers, merged_turns, items, common_len);
    if common_len < source_turns.len() {
        let start = source_turns[common_len as int].start_idx;
        lemma_lead_in(items, start);
        assert(leads_from(items, start as int, lead_in_start(items, start) as int));
    }
}

/// What merging the rollout at `path` comes to: what is there stays, and behind
/// it come, from the cut on, all items of the source that are no marks.
/// Nothing comes where there is no cut. It can be told where the rollout is
/// there and both can be played back; else what is wanting is asked for.
pub proof fn lemma_merge_one_items(answers: AnswersView, merged: Seq<ItemView>, path: PathView)
    ensures
        !answers.rollout_histories.contains_key(path) ==> merge_one(answers, merged, path) == Err::<
            Seq<ItemView>,
            _,
        >(RequestView::RolloutHistory { path }),
        answers.rollout_histories.contains_key(path) ==> {
            let source = answers.rollout_histories[path];
            match (turns_of(answers, merged), turns_of(answers, source)) {
                (Err(request), _) => merge_one(answers, merged, path) == Err::<Seq<ItemView>, _>(
                    request,
                ),
                (Ok(_), Err(request)) => merge_one(answers, merged, path) == Err::<
                    Seq<ItemView>,
                    _,
                >(request),
                (Ok(merged_turns), Ok(source_turns)) => {
                    let common = common_prefix_len(merged_turns, source_turns);
                    let cut = suffix_start(answers, source, merged_turns, source_turns, common);
                    &&& cut is Ok
                    &&& merge_one(answers, merged, path) matches Ok(result)
                    &&& result.len() >= merged.len()
                    &&& result.take(merged.len() as int) == merged
                    &&& match cut->Ok_0 {
                        None => result == merged,
                        Some(cut) => holds_unmarked(
                            source.skip(cut as int),
                            result.skip(merged.len() as int),
                        ),
                    }
                },
            }
        },
{
    if answers.rollout_histories.contains_key(path) {
        let source = answers.rollout_histories[path];
        if turns_of(answers, merged) is Ok && turns_of(answers, source) is Ok {
            let merged_turns = turns_of(answers, merged)->Ok_0;
            let source_turns = turns_of(answers, source)->Ok_0;
            let common = common_prefix_len(merged_turns, source_turns);
            lemma_cut_by_turns(answers, source, merged_turns, source_turns, common);
            let result = merge_one(answers, merged, path)->Ok_0;
            assert(result.take(merged.len() as int) =~= merged);
            if let Some(cut) = suffix_start(
                answers,
                source,
                merged_turns,
                source_turns,
                common,
            )->Ok_0 {
                let part = source.skip(cut as int);
                lemma_unmarked(part);
                assert(result.skip(merged.len() as int) =~= without_boundaries(part));
            }
        }
    }
}

/// Whether `steps` are the rollouts that come about one after the other when
/// the rollouts of `ordered` are merged, each into what came of those before.
pub open spec fn are_steps(
    answers: AnswersView,
    ordered: Seq<SourceView>,
    steps: Seq<Seq<ItemView>>,
) -> bool {
    &&& steps.len() == ordered.len() + 1
    &&& forall|i: int|
        0 <= i < ordered.len() ==> merge_one(
            answers,
            #[trigger] steps[i],
            ordered[i].path,
        ) == Ok::<_, RequestView>(steps[i + 1])
}

/// The steps of merging one source after the other.
proof fn lemma_steps(
    answers: AnswersView,
    merged: Seq<ItemView>,
    ordered: Seq<SourceView>,
) -> (steps: Seq<Seq<ItemView>>)
    requires
        merge_all(answers, merged, ordered) is Ok,
    ensures
        are_steps(answers, ordered, steps),
        steps.first() == merged,
        steps.last() == merge_all(answers, merged, ordered)->Ok_0,
    decreases ordered.len(),
{
    if ordered.len() == 0 {
        seq![merged]
    } else {
        let before = lemma_steps(answers, merged, ordered.drop_last());
        let steps = before.push(merge_all(answers, merged, ordered)->Ok_0);
        assert forall|i: int| 0 <= i < ordered.len() implies merge_one(
            answers,
            #[trigger] steps[i],
            ordered[i].path,
        ) == Ok::<_, RequestView>(steps[i + 1]) by {
            assert(steps[i] == before[i]);
            if i < ordered.len() - 1 {
                assert(steps[i + 1] == before[i + 1]);
                assert(ordered.drop_last()[i] == ordered[i]);
            }
        }
        steps
    }
}

/// Where there are such steps, the last is what merging comes to.
proof fn lemma_steps_come_to(
    answers: AnswersView,
    ordered: Seq<SourceView>,
    steps: Seq<Seq<ItemView>>,
)
    requires
        are_steps(answers, ordered, steps),
    ensures
        merge_all(answers, steps.first(), ordered) == Ok::<_, RequestView>(steps.last()),
    decreases ordered.len(),
{
    if ordered.len() > 0 {
        let before = steps.drop_last();
        let rest = ordered.drop_last();
        assert forall|i: int| 0 <= i < rest.len() implies merge_one(
            answers,
            #[trigger] before[i],
            rest[i].path,
        ) == Ok::<_, RequestView>(before[i + 1]) by {
            assert(steps[i] == before[i]);
        }
        lemma_steps_come_to(answers, rest, before);
        assert(before.last() == steps[ordered.len() - 1]);
    }
}

/// Whether the source `i` names a thread that one before it names.
pub open spec fn is_repeated(sources: Seq<SourceView>, i: int) -> bool {
    exists|j: int| 0 <= j < i && (#[trigger] sources[j]).thread_id == sources[i].thread_id
}

/// Whether nothing stands against the source `i`: no one before it names its
/// thread, and it is known to come from the base.
pub open spec fn is_welcome(
    answers: AnswersView,
    codex_home: Seq<ComponentView>,
    base: Seq<char>,
    sources: Seq<SourceView>,
    i: int,
) -> bool {
    &&& !is_repeated(sources, i)
    &&& descent(answers, codex_home, sources[i].path, base) == Ok::<_, RequestView>(true)
}

/// What stands against the source `i`.
pub open spec fn stands_against(
    answers: AnswersView,
    codex_home: Seq<ComponentView>,
    base: Seq<char>,
    sources: Seq<SourceView>,
    i: int,
) -> HaltView {
    if is_repeated(sources, i) {
        HaltView::Rejected(
            InvalidRequestView::DuplicateMergeSource { thread_id: sources[i].thread_id },
        )
    } else {
        match descent(answers, codex_home, sources[i].path, base) {
            Err(request) => HaltView::Asks(request),
            Ok(_) => HaltView::Rejected(
                InvalidRequestView::NotDescendant {
                    thread_id: sources[i].thread_id,
                    base_thread_id: base,
                },
            ),
        }
    }
}

/// The obstacle to a merge is what stands against the first source that
/// something stands against.
pub proof fn lemma_obstacle_by_sources(
    answers: AnswersView,
    codex_home: Seq<ComponentView>,
    base: Seq<char>,
    sources: Seq<SourceView>,
)
    ensures
        first_obstacle(answers, codex_home, base, sources) is None <==> forall|i: int|
            0 <= i < sources.len() ==> #[trigger] is_welcome(answers, codex_home, base, sources, i),
        forall|i: int|
            {
                &&& 0 <= i < sources.len()
                &&& !#[trigger] is_welcome(answers, codex_home, base, sources, i)
                &&& forall|j: int|
                    0 <= j < i ==> #[trigger] is_welcome(answers, codex_home, base, sources, j)
            } ==> first_obstacle(answers, codex_home, base, sources) == Some(
                stands_against(answers, codex_home, base, sources, i),
            ),
    decreases sources.len(),
{
    if sources.len() > 0 {
        let rest = sources.drop_last();
        let last = sources.len() - 1;
        lemma_obstacle_by_sources(answers, codex_home, base, rest);
        assert forall|i: int| 0 <= i < last implies {
            &&& #[trigger] is_welcome(answers, codex_home, base, sources, i) == is_welcome(
                answers,
                codex_home,
                base,
                rest,
                i,
            )
            &&& stands_against(answers, codex_home, base, sources, i) == stands_against(
                answers,
                codex_home,
                base,
                rest,
                i,
            )
        } by {
            assert(rest[i] == sources[i]);
            if is_repeated(sources, i) {
                let j = choose|j: int|
                    0 <= j < i && (#[trigger] sources[j]).thread_id == sources[i].thread_id;
                assert(rest[j].thread_id == rest[i].thread_id);
            }
            if is_repeated(rest, i) {
                let j = choose|j: int|
                    0 <= j < i && (#[trigger] rest[j]).thread_id == rest[i].thread_id;
                assert(sources[j].thread_id == sources[i].thread_id);
            }
        }
        let ids = rest.map_values(|s: SourceView| s.thread_id);
        assert(is_repeated(sources, last) <==> ids.contains(sources[last].thread_id)) by {
            if is_repeated(sources, last) {
                let j = choose|j: int|
                    0 <= j < last && (#[trigger] sources[j]).thread_id == sources[last].thread_id;
                assert(ids[j] == sources[last].thread_id);
            }
            if ids.contains(sources[last].thread_id) {
                let j = choose|j: int|
                    0 <= j < ids.len() && ids[j] == sources[last].thread_id;
                assert(sources[j].thread_id == sources[last].thread_id);
            }
        }
        assert(source_obstacle(answers, codex_home, base, sources) == if is_welcome(
            answers,
            codex_home,
            base,
            sources,
            last,
        ) {
            None
        } else {
            Some(stands_against(answers, codex_home, base, sources, last))
        });
        if first_obstacle(answers, codex_home, base, rest) is Some {
            let i = choose|i: int|
                0 <= i < rest.len() && !#[trigger] is_welcome(answers, codex_home, base, rest, i);
            assert(!is_welcome(answers, codex_home, base, sources, i));
            assert forall|i: int|
                {
                    &&& 0 <= i < sources.len()
                    &&& !#[trigger] is_welcome(answers, codex_home, base, sources, i)
                    &&& forall|j: int|
                        0 <= j < i ==> #[trigger] is_welcome(answers, codex_home, base, sources, j)
                } implies first_obstacle(answers, codex_home, base, sources) == Some(
                stands_against(answers, codex_home, base, sources, i),
            ) by {
                assert(i < last);
                assert(!is_welcome(answers, codex_home, base, rest, i));
                assert forall|j: int| 0 <= j < i implies #[trigger] is_welcome(
                    answers,
                    codex_home,
                    base,
                    rest,
                    j,
                ) by {
                    assert(is_welcome(answers, codex_home, base, sources, j));
                }
            }
        } else {
            assert forall|i: int| 0 <= i < last implies #[trigger] is_welcome(
                answers,
                codex_home,
                base,
                sources,
                i,
            ) by {
                assert(is_welcome(answers, codex_home, base, rest, i));
            }
        }
    }
}

/// When a merge is refused, or asks for something, before its sources are put
/// in order: for a path that does not lie deep enough, for the first source
/// that something stands against, for a base that is not there, or that does
/// not open with session metadata, marks aside. It is refused for nothing else.
pub proof fn lemma_merge_halts(
    answers: AnswersView,
    base_thread_id: Seq<char>,
    base_path: PathView,
    sources: Seq<SourceView>,
)
    ensures
        ({
            let home = base_path.components.take(base_path.components.len() - 5);
            let result = merged_rollout(answers, base_thread_id, base_path, sources);
            if !lies_five_deep(base_path) {
                result == Err::<Seq<ItemView>, _>(
                    HaltView::Rejected(InvalidRequestView::NoCodexHome { path: base_path.text }),
                )
            } else if exists|i: int|
                0 <= i < sources.len() && !#[trigger] is_welcome(
                    answers,
                    home,
                    base_thread_id,
                    sources,
                    i,
                ) {
                forall|i: int|
                    {
                        &&& 0 <= i < sources.len()
                        &&& !#[trigger] is_welcome(answers, home, base_thread_id, sources, i)
                        &&& forall|j: int|
                            0 <= j < i ==> #[trigger] is_welcome(
                                answers,
                                home,
                                base_thread_id,
                                sources,
                                j,
                            )
                    } ==> result == Err::<Seq<ItemView>, _>(
                        stands_against(answers, home, base_thread_id, sources, i),
                    )
            } else if !answers.rollout_histories.contains_key(base_path) {
                result == Err::<Seq<ItemView>, _>(
                    HaltView::Asks(RequestView::RolloutHistory { path: base_path }),
                )
            } else if !(exists|i: int|
                {
                    let base = answers.rollout_histories[base_path];
                    &&& 0 <= i < base.len()
                    &&& (#[trigger] answers.rollout_histories[base_path][i]) is SessionMeta
                    &&& forall|j: int|
                        0 <= j < i ==> (
                        #[trigger] answers.rollout_histories[base_path][j]) is MergeBoundary
                }) {
                result == Err::<Seq<ItemView>, _>(
                    HaltView::Rejected(InvalidRequestView::MissingBaseMeta { path: base_path.text }),
                )
            } else {
                !(result matches Err(HaltView::Rejected(_)))
            }
        }),
{
    lemma_home_by_components(base_path);
    if lies_five_deep(base_path) {
        let home = base_path.components.take(base_path.components.len() - 5);
        lemma_obstacle_by_sources(answers, home, base_thread_id, sources);
        if answers.rollout_histories.contains_key(base_path) {
            lemma_start_items(answers.rollout_histories[base_path]);
        }
    }
}

/// What a merged rollout is: what a merge starts from, and then what merging
/// the sources into it in their order comes to, step by step.
pub proof fn lemma_merge_by_steps(
    answers: AnswersView,
    base_thread_id: Seq<char>,
    base_path: PathView,
    sources: Seq<SourceView>,
)
    ensures
        merged_rollout(answers, base_thread_id, base_path, sources) matches Ok(result) ==> {
            let home = base_path.components.take(base_path.components.len() - 5);
            &&& answers.rollout_histories.contains_key(base_path)
            &&& ordered_sources(answers, home, sources) is Ok
            &&& exists|steps: Seq<Seq<ItemView>>|
                {
                    &&& #[trigger] are_steps(
                        answers,
                        ordered_sources(
                            answers,
                            base_path.components.take(base_path.components.len() - 5),
                            sources,
                        )->Ok_0,
                        steps,
                    )
                    &&& opens_as(answers.rollout_histories[base_path], steps.first())
                    &&& steps.last() == result
                }
        },
{
    if let Ok(result) = merged_rollout(answers, base_thread_id, base_path, sources) {
        lemma_home_by_components(base_path);
        let home = codex_home(base_path)->Ok_0;
        let base = answers.rollout_histories[base_path];
        lemma_start_items(base);
        let ordered = ordered_sources(answers, home, sources)->Ok_0;
        let steps = lemma_steps(answers, merge_base_items(base)->0, ordered);
        assert(are_steps(answers, ordered, steps));
    }
}

/// There is a merged rollout where nothing stands against the sources, they can
/// be put in order, and each step can be done.
pub proof fn lemma_merge_succeeds(
    answers: AnswersView,
    base_thread_id: Seq<char>,
    base_path: PathView,
    sources: Seq<SourceView>,
    steps: Seq<Seq<ItemView>>,
)
    requires
        lies_five_deep(base_path),
        answers.rollout_histories.contains_key(base_path),
        ({
            let home = base_path.components.take(base_path.components.len() - 5);
            &&& forall|i: int|
                0 <= i < sources.len() ==> #[trigger] is_welcome(
                    answers,
                    home,
                    base_thread_id,
                    sources,
                    i,
                )
            &&& ordered_sources(answers, home, sources) is Ok
            &&& are_steps(answers, ordered_sources(answers, home, sources)->Ok_0, steps)
            &&& opens_as(answers.rollout_histories[base_path], steps.first())
        }),
    ensures
        merged_rollout(answers, base_thread_id, base_path, sources) == Ok::<_, HaltView>(
            steps.last(),
        ),
{
    lemma_home_by_components(base_path);
    let home = codex_home(base_path)->Ok_0;
    lemma_obstacle_by_sources(answers, home, base_thread_id, sources);
    lemma_opens_as_start(answers.rollout_histories[base_path], steps.first());
    lemma_steps_come_to(answers, ordered_sources(answers, home, sources)->Ok_0, steps);
}

/// Where nothing stands against the sources and the base is there, but they
/// cannot be put in order, or a step cannot be done, what is wanting for that is
/// asked for.
pub proof fn lemma_merge_asks_next(
    answers: AnswersView,
    base_thread_id: Seq<char>,
    base_path: PathView,
    sources: Seq<SourceView>,
    steps: Seq<Seq<ItemView>>,
    k: int,
)
    requires
        lies_five_deep(base_path),
        answers.rollout_histories.contains_key(base_path),
        steps.len() > 0,
        opens_as(answers.rollout_histories[base_path], steps.first()),
        forall|i: int|
            0 <= i < sources.len() ==> #[trigger] is_welcome(
                answers,
                base_path.components.take(base_path.components.len() - 5),
                base_thread_id,
                sources,
                i,
            ),
    ensures
        ({
            let home = base_path.components.take(base_path.components.len() - 5);
            match ordered_sources(answers, home, sources) {
                Err(request) => merged_rollout(answers, base_thread_id, base_path, sources) == Err::<
                    Seq<ItemView>,
                    _,
                >(HaltView::Asks(request)),
                Ok(ordered) => 0 <= k < ordered.len() && are_steps(answers, ordered.take(k), steps)
                    ==> (merge_one(answers, steps.last(), ordered[k].path) matches Err(request)
                    ==> merged_rollout(answers, base_thread_id, base_path, sources) == Err::<
                    Seq<ItemView>,
                    _,
                >(HaltView::Asks(request))),
            }
        }),
{
    lemma_home_by_components(base_path);
    let home = codex_home(base_path)->Ok_0;
    lemma_obstacle_by_sources(answers, home, base_thread_id, sources);
    lemma_opens_as_start(answers.rollout_histories[base_path], steps.first());
    if let Ok(ordered) = ordered_sources(answers, home, sources) {
        if 0 <= k < ordered.len() && are_steps(answers, ordered.take(k), steps) {
            lemma_steps_come_to(answers, ordered.take(k), steps);
            lemma_merge_all_fails(answers, steps.first(), ordered, k);
        }
    }
}

/// Where a step cannot be done, merging cannot.
proof fn lemma_merge_all_fails(
    answers: AnswersView,
    merged: Seq<ItemView>,
    ordered: Seq<SourceView>,
    k: int,
)
    requires
        0 <= k < ordered.len(),
        merge_all(answers, merged, ordered.take(k)) is Ok,
    ensures
        merge_one(
            answers,
            merge_all(answers, merged, ordered.take(k))->Ok_0,
            ordered[k].path,
        ) matches Err(request) ==> merge_all(answers, merged, ordered) == Err::<Seq<ItemView>, _>(
            request,
        ),
    decreases ordered.len(),
{
    let rest = ordered.drop_last();
    if k == ordered.len() - 1 {
        assert(ordered.take(k) =~= rest);
    } else {
        assert(rest.take(k) =~= ordered.take(k));
        assert(rest[k] == ordered[k]);
        lemma_merge_all_fails(answers, merged, rest, k);
    }
}

/// What opens as the base is what a merge starts from.
proof fn lemma_opens_as_start(base: Seq<ItemView>, out: Seq<ItemView>)
    requires
        opens_as(base, out),
    ensures
        merge_base_items(base) == Some(out),
{
    let line = choose|line: MetaLineView|
        {
            &&& #[trigger] holds_unmarked(base, out.update(0, ItemView::SessionMeta(line)))
            &&& tells_of_no_merge(line, out[0]->SessionMeta_0)
        };
    lemma_unmarked(base);
    let kept = without_boundaries(base);
    lemma_unmarked_one(base, kept, out.update(0, ItemView::SessionMeta(line)));
    assert(kept[0] == ItemView::SessionMeta(line));
    let start = merge_base_items(base)->0;
    assert(start[0]->SessionMeta_0.meta =~= out[0]->SessionMeta_0.meta);
    assert(start[0]->SessionMeta_0 =~= out[0]->SessionMeta_0);
    assert forall|i: int| 0 <= i < out.len() implies start[i] == #[trigger] out[i] by {
        if i > 0 {
            assert(kept[i] == out[i]);
        }
    }
    assert(start =~= out);
}

/// Every item of the base that is no mark is in the merged rollout, at its
/// place less the marks before it, unchanged but for the session metadata,
/// which no longer tell of a merge.
pub proof fn lemma_merged_keeps_base_items(
    answers: AnswersView,
    base_thread_id: Seq<char>,
    base_path: PathView,
    sources: Seq<SourceView>,
    i: int,
)
    requires
        merged_rollout(answers, base_thread_id, base_path, sources) is Ok,
        0 <= i < answers.rollout_histories[base_path].len(),
        !(answers.rollout_histories[base_path][i] is MergeBoundary),
    ensures
        ({
            let base = answers.rollout_histories[base_path];
            let result = merged_rollout(answers, base_thread_id, base_path, sources)->Ok_0;
            let at = i - marks_before(base, i);
            &&& 0 <= at < result.len()
            &&& at > 0 ==> result[at] == base[i]
            &&& at == 0 ==> base[i] is SessionMeta && result[0] is SessionMeta && tells_of_no_merge(
                base[i]->SessionMeta_0,
                result[0]->SessionMeta_0,
            )
        }),
{
    lemma_merge_by_steps(answers, base_thread_id, base_path, sources);
    let base = answers.rollout_histories[base_path];
    let result = merged_rollout(answers, base_thread_id, base_path, sources)->Ok_0;
    let home = base_path.components.take(base_path.components.len() - 5);
    let ordered = ordered_sources(answers, home, sources)->Ok_0;
    let steps = choose|steps: Seq<Seq<ItemView>>|
        {
            &&& #[trigger] are_steps(answers, ordered, steps)
            &&& opens_as(base, steps.first())
            &&& steps.last() == result
        };
    lemma_steps_extend(answers, ordered, steps, ordered.len() as int);
    let out = steps.first();
    let line = choose|line: MetaLineView|
        {
            &&& #[trigger] holds_unmarked(base, out.update(0, ItemView::SessionMeta(line)))
            &&& tells_of_no_merge(line, out[0]->SessionMeta_0)
        };
    let at = i - marks_before(base, i);
    assert(out.update(0, ItemView::SessionMeta(line))[at] == base[i]);
    assert(result[at] == out[at]);
}

/// Each step only adds.
proof fn lemma_steps_extend(
    answers: AnswersView,
    ordered: Seq<SourceView>,
    steps: Seq<Seq<ItemView>>,
    n: int,
)
    requires
        are_steps(answers, ordered, steps),
        0 <= n < steps.len(),
    ensures
        steps.first().is_prefix_of(steps[n]),
    decreases n,
{
    if n > 0 {
        lemma_steps_extend(answers, ordered, steps, n - 1);
        lemma_merge_one_items(answers, steps[n - 1], ordered[n - 1].path);
        assert(merge_one(answers, steps[n - 1], ordered[n - 1].path) == Ok::<_, RequestView>(
            steps[n],
        ));
        assert(steps[n].take(steps[n - 1].len() as int) == steps[n - 1]);
    }
}

/// Where the source holds no mark, merging it adds a part of it up to its end,
/// as it is.
pub proof fn lemma_merge_one_without_marks(
    answers: AnswersView,
    merged: Seq<ItemView>,
    path: PathView,
) -> (cut: int)
    requires
        merge_one(answers, merged, path) is Ok,
        forall|i: int|
            0 <= i < answers.rollout_histories[path].len() ==> !((
            #[trigger] answers.rollout_histories[path][i]) is MergeBoundary),
    ensures
        0 <= cut <= answers.rollout_histories[path].len(),
        merge_one(answers, merged, path)->Ok_0 == merged + answers.rollout_histories[path].skip(
            cut,
        ),
{
    let items = answers.rollout_histories[path];
    let result = merge_one(answers, merged, path)->Ok_0;
    lemma_merge_one_items(answers, merged, path);
    let merged_turns = turns_of(answers, merged)->Ok_0;
    let source_turns = turns_of(answers, items)->Ok_0;
    let common = common_prefix_len(merged_turns, source_turns);
    let found = suffix_start(answers, items, merged_turns, source_turns, common)->Ok_0;
    assert(result =~= result.take(merged.len() as int) + result.skip(merged.len() as int));
    match found {
        None => {
            let cut = items.len() as int;
            assert(merged + items.skip(cut) =~= merged);
            cut
        },
        Some(cut) => {
            let cut = cut as int;
            assert(cut <= items.len()) by {
                lemma_turns_start_inside(answers, items);
                lemma_cut_by_turns(answers, items, merged_turns, source_turns, common);
                if common < source_turns.len() {
                    assert(scan(answers, items)->Ok_0.all_turns()[common as int].start_idx
                        < items.len());
                }
            }
            let part = items.skip(cut);
            assert forall|i: int| 0 <= i < part.len() implies !((
            #[trigger] part[i]) is MergeBoundary) by {
                assert(part[i] == items[cut + i]);
            }
            lemma_unmarked_is_all(part, result.skip(merged.len() as int));
            cut
        },
    }
}

/// What a merge starts from, where the base holds no mark.
proof fn lemma_opens_without_marks(base: Seq<ItemView>, out: Seq<ItemView>)
    requires
        opens_as(base, out),
        forall|i: int| 0 <= i < base.len() ==> !((#[trigger] base[i]) is MergeBoundary),
    ensures
        base.len() == out.len() > 0,
        base[0] is SessionMeta,
        out[0] is SessionMeta,
        tells_of_no_merge(base[0]->SessionMeta_0, out[0]->SessionMeta_0),
        out.skip(1) == base.skip(1),
{
    let line = choose|line: MetaLineView|
        {
            &&& #[trigger] holds_unmarked(base, out.update(0, ItemView::SessionMeta(line)))
            &&& tells_of_no_merge(line, out[0]->SessionMeta_0)
        };
    lemma_unmarked_is_all(base, out.update(0, ItemView::SessionMeta(line)));
    assert(out.skip(1) =~= base.skip(1));
}

/// Where neither the base nor its one source holds a mark, the merged rollout
/// is the base, but for the session metadata, and then a part of the source up
/// to its end.
pub proof fn lemma_merge_without_marks(
    answers: AnswersView,
    base_thread_id: Seq<char>,
    base_path: PathView,
    source: SourceView,
) -> (cut: int)
    requires
        merged_rollout(answers, base_thread_id, base_path, seq![source]) is Ok,
        ({
            let base = answers.rollout_histories[base_path];
            let items = answers.rollout_histories[source.path];
            &&& forall|i: int| 0 <= i < base.len() ==> !((#[trigger] base[i]) is MergeBoundary)
            &&& forall|i: int| 0 <= i < items.len() ==> !((#[trigger] items[i]) is MergeBoundary)
        }),
    ensures
        ({
            let base = answers.rollout_histories[base_path];
            let items = answers.rollout_histories[source.path];
            let result = merged_rollout(answers, base_thread_id, base_path, seq![source])->Ok_0;
            &&& 0 <= cut <= items.len()
            &&& base.len() > 0 && result.len() > 0
            &&& base[0] is SessionMeta && result[0] is SessionMeta
            &&& tells_of_no_merge(base[0]->SessionMeta_0, result[0]->SessionMeta_0)
            &&& result.skip(1) == base.skip(1) + items.skip(cut)
        }),
{
    let base = answers.rollout_histories[base_path];
    let items = answers.rollout_histories[source.path];
    let result = merged_rollout(answers, base_thread_id, base_path, seq![source])->Ok_0;
    let home = base_path.components.take(base_path.components.len() - 5);
    lemma_merge_by_steps(answers, base_thread_id, base_path, seq![source]);
    let ordered = ordered_sources(answers, home, seq![source])->Ok_0;
    assert(ordered =~= seq![source]) by {
        let none = Seq::<SourceView>::empty();
        assert(seq![source].drop_last() =~= none);
        assert(ordered_sources(answers, home, none) == Ok::<_, RequestView>(none));
        assert(none.insert(0, source) =~= seq![source]);
    }
    let steps = choose|steps: Seq<Seq<ItemView>>|
        {
            &&& #[trigger] are_steps(answers, ordered, steps)
            &&& opens_as(base, steps.first())
            &&& steps.last() == result
        };
    let out = steps[0];
    assert(merge_one(answers, steps[0], ordered[0].path) == Ok::<_, RequestView>(steps[1]));
    lemma_opens_without_marks(base, out);
    let cut = lemma_merge_one_without_marks(answers, out, source.path);
    assert(result[0] == out[0]);
    assert(result.skip(1) =~= out.skip(1) + items.skip(cut));
    cut
}

} // verus!
