//! What holds of merging, whatever the threads.

use vstd::prelude::*;

use crate::answers::{AnswersView, HaltView, RequestView};
use crate::error::InvalidRequestView;
use crate::lineage::{descent, has_ancestor};
use crate::path::{ComponentView, PathView};
use crate::protocol::{EventView, ItemView, ResponseView};
use crate::thread_merge::{
    codex_home, ends_turn, first_obstacle, first_removal, insertion_point, is_boundary,
    lead_in_start, leads_in, lemma_first_removal_stays, lemma_lead_in, merge_all, merge_base_items, merge_one,
    merged_rollout, most_shared, ordered_sources, removes_shared, source_obstacle, suffix_start,
    without_boundaries, without_provenance, SourceView,
};
use crate::turn_laws::{
    end_alike, lemma_end_alike_turns, lemma_ending_alike, lemma_plain_drop_last, lemma_plain_starts,
    lemma_plain_tail, lemma_plain_without_boundaries, lemma_said_append, lemma_said_without_boundaries,
    lemma_same_tail, lemma_turns_in_anywhere, lemma_turns_in_second_part, opens_turn,
    opens_with_turn, plain, rewrites, said, signatures,
};
use crate::turns::{
    common_prefix_len, compacted_history, lemma_common_prefix, lemma_common_prefix_unique,
    lemma_scan_stops, lemma_turns_in_start, scan, turns_in, turns_of, ScanView, TurnView,
};

verus! {

/// In plain items there is no rollback to find.
proof fn lemma_plain_no_removal(
    answers: AnswersView,
    merged_turns: Seq<TurnView>,
    items: Seq<ItemView>,
    final_len: nat,
)
    requires
        plain(items),
    ensures
        first_removal(answers, merged_turns, items, final_len) == Ok::<Option<nat>, RequestView>(
            None,
        ),
    decreases items.len(),
{
    if items.len() > 0 {
        let rest = items.drop_last();
        lemma_plain_drop_last(items);
        lemma_plain_no_removal(answers, merged_turns, rest, final_len);
        lemma_plain_starts(answers, items);
    }
}

/// Items that lead into a turn say nothing, where they are plain.
proof fn lemma_lead_in_says_nothing(items: Seq<ItemView>)
    requires
        forall|i: int| 0 <= i < items.len() ==> leads_in(#[trigger] items[i]),
    ensures
        said(items) == Seq::<ResponseView>::empty(),
    decreases items.len(),
{
    if items.len() > 0 {
        assert(leads_in(items[items.len() - 1]));
        assert forall|i: int| 0 <= i < items.drop_last().len() implies leads_in(
            #[trigger] items.drop_last()[i],
        ) by {
            assert(leads_in(items[i]));
        }
        lemma_lead_in_says_nothing(items.drop_last());
    }
}

/// The part of a plain rollout from its turn `k` on, with what leads into it,
/// has the turns from that one on. Where the turn is not the first, the part
/// opens with its message.
proof fn lemma_plain_suffix(answers: AnswersView, items: Seq<ItemView>, k: nat)
    requires
        plain(items),
        turns_of(answers, items) is Ok,
        k < turns_of(answers, items)->Ok_0.len(),
    ensures
        ({
            let turns = turns_of(answers, items)->Ok_0;
            let cut = lead_in_start(items, turns[k as int].start_idx);
            &&& cut < items.len()
            &&& plain(items.skip(cut as int))
            &&& signatures(turns_in(said(items.skip(cut as int)), 0)) == signatures(turns).skip(
                k as int,
            )
            &&& k > 0 ==> opens_with_turn(said(items.skip(cut as int)))
        }),
{
    lemma_plain_starts(answers, items);
    let turns = turns_of(answers, items)->Ok_0;
    assert(scan(answers, items)->Ok_0.all_turns() == turns);
    let start = turns[k as int].start_idx;
    let cut = lead_in_start(items, start);
    lemma_lead_in(items, start);
    let head = items.take(cut as int);
    let lead = items.subrange(cut as int, start as int);
    let tail = items.skip(cut as int);
    assert forall|i: int| 0 <= i < lead.len() implies leads_in(#[trigger] lead[i]) by {
        assert(lead[i] == items[cut + i]);
    }
    lemma_lead_in_says_nothing(lead);
    lemma_said_append(head, lead);
    assert(head + lead =~= items.take(start as int));
    assert(said(head) + said(lead) =~= said(head));
    lemma_said_append(head, tail);
    assert(head + tail =~= items);
    lemma_turns_in_second_part(said(head), said(tail));
    assert forall|i: int| 0 <= i < tail.len() implies !rewrites(#[trigger] tail[i]) by {
        assert(!rewrites(items[cut + i]));
    }
    if k > 0 {
        let rest = items.skip(start as int);
        lemma_said_append(lead, rest);
        assert(lead + rest =~= tail);
        assert(said(lead) + said(rest) =~= said(rest));
        assert(opens_turn(items[start as int]));
        let first = items.subrange(start as int, start as int + 1);
        let others = items.skip(start as int + 1);
        lemma_said_append(first, others);
        assert(first + others =~= rest);
        assert(first.drop_last() =~= Seq::<ItemView>::empty());
        assert(said(first).len() == 1 && said(first)[0].user_message) by {
            reveal_with_fuel(said, 2);
        }
        assert(said(rest)[0] == said(first)[0]);
    }
}

/// Where the source of a merge neither takes back turns nor replaces any, just
/// those of its turns are added that come behind the ones in common, and
/// nothing is added where there are none. The part that is added must open
/// with a message of the user, as it does behind the first turn in common, or
/// there must be no turn under way that could take up what comes before it.
pub proof fn lemma_merge_adds_new_turns(answers: AnswersView, merged: Seq<ItemView>, path: PathView)
    requires
        answers.rollout_histories.contains_key(path),
        plain(answers.rollout_histories[path]),
        turns_of(answers, merged) is Ok,
    ensures
        turns_of(answers, answers.rollout_histories[path]) is Ok,
        ({
            let source = answers.rollout_histories[path];
            let merged_turns = turns_of(answers, merged)->Ok_0;
            let source_turns = turns_of(answers, source)->Ok_0;
            let common = common_prefix_len(merged_turns, source_turns);
            &&& merge_one(answers, merged, path) is Ok
            &&& common == source_turns.len() ==> merge_one(answers, merged, path)->Ok_0 == merged
            &&& common < source_turns.len() ==> {
                let part = said(
                    source.skip(lead_in_start(source, source_turns[common as int].start_idx) as int),
                );
                &&& common > 0 ==> opens_with_turn(part)
                &&& opens_with_turn(part) || scan(answers, merged)->Ok_0.active is None ==> {
                    let result = turns_of(answers, merge_one(answers, merged, path)->Ok_0);
                    &&& result is Ok
                    &&& signatures(result->Ok_0) == signatures(merged_turns) + signatures(
                        source_turns,
                    ).skip(common as int)
                }
            }
        }),
{
    let source = answers.rollout_histories[path];
    lemma_plain_starts(answers, source);
    let merged_turns = turns_of(answers, merged)->Ok_0;
    let source_turns = turns_of(answers, source)->Ok_0;
    let common = common_prefix_len(merged_turns, source_turns);
    lemma_common_prefix(merged_turns, source_turns);
    lemma_plain_no_removal(answers, merged_turns, source, common);
    if common < source_turns.len() {
        lemma_plain_suffix(answers, source, common);
        let cut = lead_in_start(source, source_turns[common as int].start_idx);
        let tail = source.skip(cut as int);
        lemma_plain_without_boundaries(tail);
        lemma_said_without_boundaries(tail);
        if opens_with_turn(said(tail)) || scan(answers, merged)->Ok_0.active is None {
            lemma_plain_tail(answers, merged, without_boundaries(tail));
        }
    }
}

/// Where such a source begins with all the turns that the merged rollout has,
/// as that of a thread does which was forked from it and went on, the merged
/// rollout then has its turns. Merging it once more adds nothing.
pub proof fn lemma_merge_continuation(answers: AnswersView, merged: Seq<ItemView>, path: PathView)
    requires
        answers.rollout_histories.contains_key(path),
        plain(answers.rollout_histories[path]),
        turns_of(answers, merged) is Ok,
        common_prefix_len(
            turns_of(answers, merged)->Ok_0,
            turns_of(answers, answers.rollout_histories[path])->Ok_0,
        ) == turns_of(answers, merged)->Ok_0.len(),
    ensures
        turns_of(answers, answers.rollout_histories[path]) is Ok,
        merge_one(answers, merged, path) is Ok,
        ({
            let source_turns = turns_of(answers, answers.rollout_histories[path])->Ok_0;
            let result = merge_one(answers, merged, path)->Ok_0;
            &&& turns_of(answers, result) is Ok
            &&& signatures(turns_of(answers, result)->Ok_0) == signatures(source_turns)
            &&& merge_one(answers, result, path) == Ok::<_, RequestView>(result)
        }),
{
    lemma_merge_adds_new_turns(answers, merged, path);
    let source = answers.rollout_histories[path];
    let merged_turns = turns_of(answers, merged)->Ok_0;
    let source_turns = turns_of(answers, source)->Ok_0;
    let common = common_prefix_len(merged_turns, source_turns);
    lemma_common_prefix(merged_turns, source_turns);
    let result = merge_one(answers, merged, path)->Ok_0;
    if common == source_turns.len() {
        assert(signatures(merged_turns) =~= signatures(source_turns));
    } else {
        let result_turns = turns_of(answers, result)->Ok_0;
        assert(signatures(merged_turns) + signatures(source_turns).skip(common as int)
            =~= signatures(source_turns)) by {
            assert forall|i: int| 0 <= i < common implies signatures(merged_turns)[i]
                == #[trigger] signatures(source_turns)[i] by {
                assert(merged_turns[i].signature == source_turns[i].signature);
            }
        }
        assert(signatures(result_turns).len() == signatures(source_turns).len());
        assert forall|i: int| 0 <= i < source_turns.len() implies #[trigger] result_turns[i].signature
            == source_turns[i].signature by {
            assert(signatures(result_turns)[i] == signatures(source_turns)[i]);
        }
        lemma_common_prefix_unique(result_turns, source_turns, source_turns.len());
        lemma_merge_adds_new_turns(answers, result, path);
    }
}

/// The turns of the rollout at `path`, where it can be played back.
pub open spec fn turns_at(answers: AnswersView, path: PathView) -> Seq<TurnView> {
    turns_of(answers, answers.rollout_histories[path])->Ok_0
}

/// Whether `sources` carry on from one another: the rollout of each is there,
/// neither takes back turns nor replaces any, and begins with all the turns
/// that the one before it has, the first with `turns`.
pub open spec fn carry_on(
    answers: AnswersView,
    turns: Seq<TurnView>,
    sources: Seq<SourceView>,
) -> bool {
    forall|i: int|
        0 <= i < sources.len() ==> {
            let path = (#[trigger] sources[i]).path;
            let before = if i == 0 {
                turns
            } else {
                turns_at(answers, sources[i - 1].path)
            };
            &&& answers.rollout_histories.contains_key(path)
            &&& plain(answers.rollout_histories[path])
            &&& common_prefix_len(before, turns_at(answers, path)) == before.len()
        }
}

/// How many turns are in common with `rhs` depends on what is said in `lhs`,
/// not on where its turns start.
proof fn lemma_common_prefix_said(a: Seq<TurnView>, b: Seq<TurnView>, rhs: Seq<TurnView>)
    requires
        signatures(a) == signatures(b),
    ensures
        a.len() == b.len(),
        common_prefix_len(a, rhs) == common_prefix_len(b, rhs),
{
    assert(signatures(a).len() == a.len());
    assert(signatures(b).len() == b.len());
    let n = common_prefix_len(b, rhs);
    lemma_common_prefix(b, rhs);
    assert forall|i: int| 0 <= i < n implies #[trigger] a[i].signature == rhs[i].signature by {
        assert(a[i].signature == signatures(a)[i]);
        assert(b[i].signature == signatures(b)[i]);
        assert(b[i].signature == rhs[i].signature);
    }
    if n < a.len() && n < rhs.len() {
        assert(a[n as int].signature == signatures(a)[n as int]);
        assert(b[n as int].signature == signatures(b)[n as int]);
    }
    lemma_common_prefix_unique(a, rhs, n);
}

/// Threads that carry on from one another, merged one after the other, come to
/// the turns of the last: nothing that they have in common is there twice.
pub proof fn lemma_merge_chain(
    answers: AnswersView,
    merged: Seq<ItemView>,
    sources: Seq<SourceView>,
)
    requires
        turns_of(answers, merged) is Ok,
        sources.len() > 0,
        carry_on(answers, turns_of(answers, merged)->Ok_0, sources),
    ensures
        merge_all(answers, merged, sources) is Ok,
        ({
            let result = turns_of(answers, merge_all(answers, merged, sources)->Ok_0);
            &&& result is Ok
            &&& signatures(result->Ok_0) == signatures(turns_at(answers, sources.last().path))
        }),
    decreases sources.len(),
{
    let rest = sources.drop_last();
    let n = sources.len() - 1;
    assert(sources[n] == sources.last());
    if n == 0 {
        assert(merge_all(answers, merged, rest) == Ok::<_, RequestView>(merged));
        lemma_merge_continuation(answers, merged, sources[0].path);
    } else {
        let turns = turns_of(answers, merged)->Ok_0;
        assert(carry_on(answers, turns, rest)) by {
            assert forall|i: int| 0 <= i < rest.len() implies {
                let path = (#[trigger] rest[i]).path;
                let before = if i == 0 {
                    turns
                } else {
                    turns_at(answers, rest[i - 1].path)
                };
                &&& answers.rollout_histories.contains_key(path)
                &&& plain(answers.rollout_histories[path])
                &&& common_prefix_len(before, turns_at(answers, path)) == before.len()
            } by {
                assert(rest[i] == sources[i]);
            }
        }
        lemma_merge_chain(answers, merged, rest);
        let before = merge_all(answers, merged, rest)->Ok_0;
        assert(rest.last() == sources[n - 1]);
        lemma_common_prefix_said(
            turns_of(answers, before)->Ok_0,
            turns_at(answers, sources[n - 1].path),
            turns_at(answers, sources[n].path),
        );
        lemma_merge_continuation(answers, before, sources[n].path);
    }
}

/// Two threads that were forked from one and went apart at once are merged one
/// behind the other: the turns of the first, then those that the second has of
/// its own.
pub proof fn lemma_merge_siblings(
    answers: AnswersView,
    merged: Seq<ItemView>,
    first: PathView,
    second: PathView,
)
    requires
        answers.rollout_histories.contains_key(first),
        answers.rollout_histories.contains_key(second),
        plain(answers.rollout_histories[first]),
        plain(answers.rollout_histories[second]),
        turns_of(answers, merged) is Ok,
        turns_of(answers, merged)->Ok_0.len() > 0,
        ({
            let merged_turns = turns_of(answers, merged)->Ok_0;
            let first_turns = turns_of(answers, answers.rollout_histories[first])->Ok_0;
            let second_turns = turns_of(answers, answers.rollout_histories[second])->Ok_0;
            &&& common_prefix_len(merged_turns, first_turns) == merged_turns.len()
            &&& common_prefix_len(first_turns, second_turns) == merged_turns.len()
        }),
    ensures
        merge_one(answers, merged, first) is Ok,
        merge_one(answers, merge_one(answers, merged, first)->Ok_0, second) is Ok,
        ({
            let merged_turns = turns_of(answers, merged)->Ok_0;
            let first_turns = turns_of(answers, answers.rollout_histories[first])->Ok_0;
            let second_turns = turns_of(answers, answers.rollout_histories[second])->Ok_0;
            let once = merge_one(answers, merged, first)->Ok_0;
            let twice = merge_one(answers, once, second)->Ok_0;
            &&& turns_of(answers, twice) is Ok
            &&& signatures(turns_of(answers, twice)->Ok_0) == signatures(first_turns)
                + signatures(second_turns).skip(merged_turns.len() as int)
        }),
{
    lemma_merge_continuation(answers, merged, first);
    let once = merge_one(answers, merged, first)->Ok_0;
    let once_turns = turns_of(answers, once)->Ok_0;
    let first_turns = turns_of(answers, answers.rollout_histories[first])->Ok_0;
    lemma_plain_starts(answers, answers.rollout_histories[second]);
    let second_turns = turns_of(answers, answers.rollout_histories[second])->Ok_0;
    lemma_common_prefix(first_turns, second_turns);
    let n = common_prefix_len(first_turns, second_turns);
    assert(signatures(once_turns).len() == signatures(first_turns).len());
    assert forall|i: int| 0 <= i < once_turns.len() implies once_turns[i].signature
        == #[trigger] first_turns[i].signature by {
        assert(signatures(once_turns)[i] == signatures(first_turns)[i]);
    }
    assert forall|i: int| 0 <= i < n implies #[trigger] once_turns[i].signature
        == second_turns[i].signature by {
        assert(once_turns[i].signature == first_turns[i].signature);
        assert(first_turns[i].signature == second_turns[i].signature);
    }
    if n < once_turns.len() && n < second_turns.len() {
        assert(once_turns[n as int].signature == first_turns[n as int].signature);
    }
    lemma_common_prefix_unique(once_turns, second_turns, n);
    lemma_merge_adds_new_turns(answers, once, second);
    if n == second_turns.len() {
        assert(signatures(first_turns) + signatures(second_turns).skip(n as int) =~= signatures(
            first_turns,
        ));
    }
}

/// Behind a point where no turn is under way, each turn either started before
/// it, and is unchanged, or starts behind it.
proof fn lemma_later_starts(answers: AnswersView, head: Seq<ItemView>, tail: Seq<ItemView>)
    requires
        scan(answers, head) matches Ok(state) && state.active is None && state.pending is None,
    ensures
        scan(answers, head + tail) matches Ok(after) ==> {
            let turns = scan(answers, head)->Ok_0.turns;
            &&& after.pending matches Some(idx) ==> idx >= head.len()
            &&& after.active matches Some(turn) ==> turn.start_idx >= head.len()
            &&& forall|i: int|
                0 <= i < after.all_turns().len() ==> {
                    ||| (#[trigger] after.all_turns()[i]).start_idx >= head.len()
                    ||| i < turns.len() && after.all_turns()[i] == turns[i]
                }
        },
    decreases tail.len(),
{
    let turns = scan(answers, head)->Ok_0.turns;
    if tail.len() == 0 {
        assert(head + tail =~= head);
    } else {
        let rest = tail.drop_last();
        let item = tail.last();
        let idx = ((head + tail).len() - 1) as nat;
        lemma_later_starts(answers, head, rest);
        assert((head + tail).drop_last() =~= head + rest);
        if scan(answers, head + tail) is Ok {
            let before = scan(answers, head + rest)->Ok_0;
            let after = scan(answers, head + tail)->Ok_0;
            match item {
                ItemView::Compacted(compacted) => {
                    let history = compacted_history(
                        answers,
                        before.all_turns(),
                        compacted,
                    )->Ok_0;
                    lemma_turns_in_start(history, idx);
                },
                _ => {
                    assert forall|i: int| 0 <= i < after.all_turns().len() implies {
                        ||| (#[trigger] after.all_turns()[i]).start_idx >= head.len()
                        ||| i < turns.len() && after.all_turns()[i] == turns[i]
                    } by {
                        if i < before.all_turns().len() {
                            assert(before.all_turns()[i].start_idx >= head.len() || (i
                                < turns.len() && before.all_turns()[i] == turns[i]));
                        }
                    }
                },
            }
        }
    }
}

/// The most turns that were ever in common are no more than there are to have
/// in common, and no fewer than those that later items no longer add to.
pub proof fn lemma_most_shared_bounds(
    answers: AnswersView,
    merged_turns: Seq<TurnView>,
    items: Seq<ItemView>,
)
    ensures
        most_shared(answers, merged_turns, items) <= merged_turns.len(),
        scan(answers, items) matches Ok(after) ==> common_prefix_len(merged_turns, after.turns)
            <= most_shared(answers, merged_turns, items),
    decreases items.len(),
{
    if items.len() > 0 {
        let rest = items.drop_last();
        lemma_most_shared_bounds(answers, merged_turns, rest);
        if let Ok(before) = scan(answers, rest) {
            lemma_common_prefix(merged_turns, before.all_turns());
            if let Ok(after) = scan(answers, items) {
                lemma_common_prefix(merged_turns, after.turns);
                if let ItemView::EventMsg(EventView::ThreadRolledBack { num_turns }) = items.last() {
                    lemma_fewer_in_common(merged_turns, before.all_turns(), after.turns);
                }
            }
        }
    }
}

/// Whether `shared` turns were seen to be in common with `merged_turns` at the
/// item `n` of a rollout: right before it, where it ends the turn under way, or
/// right after it, where it is a compaction.
pub open spec fn seen_shared(
    answers: AnswersView,
    merged_turns: Seq<TurnView>,
    items: Seq<ItemView>,
    n: int,
    shared: nat,
) -> bool {
    &&& 0 <= n < items.len()
    &&& {
        let before = scan(answers, items.take(n))->Ok_0;
        let after = scan(answers, items.take(n + 1))->Ok_0;
        ||| ends_turn(items[n]) && before.active is Some && shared == common_prefix_len(
            merged_turns,
            before.all_turns(),
        )
        ||| items[n] is Compacted && shared == common_prefix_len(merged_turns, after.turns)
    }
}

/// The most turns that a rollout ever had in common is the largest number that
/// was seen, and none where none was seen.
pub proof fn lemma_most_shared_is_largest(
    answers: AnswersView,
    merged_turns: Seq<TurnView>,
    items: Seq<ItemView>,
)
    requires
        scan(answers, items) is Ok,
    ensures
        forall|n: int, shared: nat| #[trigger]
            seen_shared(answers, merged_turns, items, n, shared) ==> shared <= most_shared(
                answers,
                merged_turns,
                items,
            ),
        (exists|n: int, shared: nat| #[trigger]
            seen_shared(answers, merged_turns, items, n, shared)) ==> exists|n: int| #[trigger]
            seen_shared(answers, merged_turns, items, n, most_shared(answers, merged_turns, items)),
        !(exists|n: int, shared: nat| #[trigger]
            seen_shared(answers, merged_turns, items, n, shared)) ==> most_shared(
            answers,
            merged_turns,
            items,
        ) == 0,
    decreases items.len(),
{
    let most = most_shared(answers, merged_turns, items);
    if items.len() > 0 {
        let rest = items.drop_last();
        let last = items.len() - 1;
        lemma_most_shared_is_largest(answers, merged_turns, rest);
        let earlier = most_shared(answers, merged_turns, rest);
        assert(items.take(last) =~= rest);
        assert(items.take(last + 1) =~= items);
        assert forall|n: int, shared: nat| n < last implies #[trigger] seen_shared(
            answers,
            merged_turns,
            items,
            n,
            shared,
        ) == seen_shared(answers, merged_turns, rest, n, shared) by {
            if 0 <= n {
                assert(items.take(n) =~= rest.take(n));
                assert(items.take(n + 1) =~= rest.take(n + 1));
            }
        }
        assert forall|n: int, shared: nat| #[trigger]
            seen_shared(answers, merged_turns, items, n, shared) implies shared <= most by {
            if n < last {
                assert(seen_shared(answers, merged_turns, rest, n, shared));
            }
        }
        if most != earlier {
            assert(seen_shared(answers, merged_turns, items, last, most));
        } else if exists|n: int, shared: nat| #[trigger]
            seen_shared(answers, merged_turns, rest, n, shared) {
            let n = choose|n: int| #[trigger]
                seen_shared(answers, merged_turns, rest, n, earlier);
            assert(seen_shared(answers, merged_turns, items, n, most));
        } else if exists|n: int, shared: nat| #[trigger]
            seen_shared(answers, merged_turns, items, n, shared) {
            let (n, shared) = choose|n: int, shared: nat| #[trigger]
                seen_shared(answers, merged_turns, items, n, shared);
            assert(!seen_shared(answers, merged_turns, rest, n, shared));
            assert(shared <= most);
            assert(seen_shared(answers, merged_turns, items, n, most));
        }
    }
}

/// A part of the turns from the start has no more in common than all of them.
proof fn lemma_fewer_in_common(lhs: Seq<TurnView>, rhs: Seq<TurnView>, part: Seq<TurnView>)
    requires
        part.is_prefix_of(rhs),
    ensures
        common_prefix_len(lhs, part) <= common_prefix_len(lhs, rhs),
{
    lemma_common_prefix(lhs, part);
    lemma_common_prefix(lhs, rhs);
    let m = common_prefix_len(lhs, rhs);
    if m < common_prefix_len(lhs, part) {
        assert(lhs[m as int].signature == part[m as int].signature);
        assert(part[m as int] == rhs[m as int]);
    }
}

/// Where all turns are in common in the end, no rollback is found.
proof fn lemma_all_shared_no_removal(
    answers: AnswersView,
    merged_turns: Seq<TurnView>,
    items: Seq<ItemView>,
)
    requires
        scan(answers, items) is Ok,
    ensures
        first_removal(answers, merged_turns, items, merged_turns.len()) == Ok::<
            Option<nat>,
            RequestView,
        >(None),
    decreases items.len(),
{
    if items.len() > 0 {
        lemma_all_shared_no_removal(answers, merged_turns, items.drop_last());
        lemma_most_shared_bounds(answers, merged_turns, items);
    }
}

/// Where a rollout ends in items that lead into a turn, a compaction among
/// them, the next turn is to start there.
proof fn lemma_pending_after_compaction(answers: AnswersView, items: Seq<ItemView>, j: int)
    requires
        0 <= j < items.len(),
        items[j] is Compacted,
        forall|i: int| j <= i < items.len() ==> leads_in(#[trigger] items[i]),
        scan(answers, items) is Ok,
    ensures
        scan(answers, items)->Ok_0.pending is Some,
    decreases items.len(),
{
    let rest = items.drop_last();
    assert(leads_in(items[items.len() - 1]));
    if j < rest.len() {
        assert forall|i: int| j <= i < rest.len() implies leads_in(#[trigger] rest[i]) by {
            assert(leads_in(items[i]));
        }
        lemma_pending_after_compaction(answers, rest, j);
    }
}

/// The first turn that opens in the plain items behind a rollout, where none is
/// to start within it, starts among them, with nothing said before it.
proof fn lemma_first_new_start(answers: AnswersView, head: Seq<ItemView>, tail: Seq<ItemView>)
    requires
        scan(answers, head) matches Ok(state) && state.pending is None,
        plain(tail),
        opens_with_turn(said(tail)),
    ensures
        scan(answers, head + tail) matches Ok(after) && {
            let before = scan(answers, head)->Ok_0.all_turns();
            &&& before.len() <= after.all_turns().len()
            &&& said(tail).len() == 0 ==> after.all_turns() == before && (
            after.pending matches Some(idx) ==> head.len() <= idx < head.len() + tail.len())
            &&& said(tail).len() > 0 ==> before.len() < after.all_turns().len() && {
                let start = after.all_turns()[before.len() as int].start_idx;
                &&& head.len() <= start < head.len() + tail.len()
                &&& said(tail.take(start - head.len())).len() == 0
            }
        },
    decreases tail.len(),
{
    let before = scan(answers, head)->Ok_0.all_turns();
    if tail.len() == 0 {
        assert(head + tail =~= head);
    } else {
        let rest = tail.drop_last();
        let item = tail.last();
        let idx = (head.len() + rest.len()) as nat;
        lemma_plain_drop_last(tail);
        if said(rest).len() > 0 {
            assert(said(tail)[0] == said(rest)[0]);
        }
        lemma_first_new_start(answers, head, rest);
        assert((head + tail).drop_last() =~= head + rest);
        assert((head + tail).last() == item);
        let mid = scan(answers, head + rest)->Ok_0;
        let after = scan(answers, head + tail)->Ok_0;
        if said(rest).len() > 0 {
            let start = mid.all_turns()[before.len() as int].start_idx;
            assert(tail.take(start - head.len()) =~= rest.take(start - head.len()));
            assert(after.all_turns()[before.len() as int].start_idx == start);
        } else if let ItemView::ResponseItem(response) = item {
            assert(said(tail)[0] == response);
            let start = after.all_turns()[before.len() as int].start_idx;
            assert(start <= idx);
            assert(tail.take(start - head.len()) =~= rest.take(start - head.len()));
            let early = rest.take(start - head.len());
            let late = rest.skip(start - head.len());
            lemma_said_append(early, late);
            assert(early + late =~= rest);
        }
    }
}

/// Where the next turn is to start within a rollout, no turn is under way, and
/// what is there is a compaction or the context of a turn. From there on no
/// turn opens, is taken back or is replaced, and right before a context there
/// is nothing that leads into it.
proof fn lemma_pending_start(answers: AnswersView, items: Seq<ItemView>)
    requires
        scan(answers, items) matches Ok(state) && state.pending is Some,
    ensures
        ({
            let after = scan(answers, items)->Ok_0;
            let idx = after.pending->0;
            &&& after.active is None
            &&& idx < items.len()
            &&& leads_in(items[idx as int])
            &&& items[idx as int] is TurnContext && idx > 0 ==> !leads_in(items[idx - 1])
            &&& forall|i: int|
                idx < i < items.len() ==> !rewrites(#[trigger] items[i]) && !opens_turn(items[i])
        }),
    decreases items.len(),
{
    if items.len() > 0 {
        let rest = items.drop_last();
        let before = scan(answers, rest)->Ok_0;
        let after = scan(answers, items)->Ok_0;
        let last = items.len() - 1;
        if after.pending == Some(last as nat) && before.pending is None {
            if rest.len() > 0 && leads_in(rest.last()) {
                let earlier = scan(answers, rest.drop_last())->Ok_0;
                assert(earlier.advance(answers, rest.last(), (rest.len() - 1) as nat) == Ok::<
                    _,
                    RequestView,
                >(before));
            }
            if last > 0 {
                assert(items[last - 1] == rest.last());
            }
        } else if !(items.last() is Compacted) {
            lemma_pending_start(answers, rest);
            let idx = after.pending->0;
            assert(rest[idx as int] == items[idx as int]);
            if idx > 0 {
                assert(rest[idx - 1] == items[idx - 1]);
            }
            assert forall|i: int| idx < i < items.len() implies !rewrites(#[trigger] items[i])
                && !opens_turn(items[i]) by {
                if i < rest.len() {
                    assert(rest[i] == items[i]);
                }
            }
        }
    }
}

/// The first turn that opens in the plain items behind a rollout starts where
/// the next turn is to start within it.
proof fn lemma_pending_is_taken(answers: AnswersView, head: Seq<ItemView>, tail: Seq<ItemView>)
    requires
        scan(answers, head) matches Ok(state) && state.pending is Some,
        plain(tail),
        opens_with_turn(said(tail)),
    ensures
        scan(answers, head + tail) matches Ok(after) && {
            let before = scan(answers, head)->Ok_0;
            &&& said(tail).len() == 0 ==> after == before
            &&& said(tail).len() > 0 ==> before.all_turns().len() < after.all_turns().len()
                && after.all_turns()[before.all_turns().len() as int].start_idx
                == before.pending->0
        },
    decreases tail.len(),
{
    lemma_pending_start(answers, head);
    let before = scan(answers, head)->Ok_0;
    let n = before.all_turns().len() as int;
    if tail.len() == 0 {
        assert(head + tail =~= head);
    } else {
        let rest = tail.drop_last();
        lemma_plain_drop_last(tail);
        if said(rest).len() > 0 {
            assert(said(tail)[0] == said(rest)[0]);
        }
        lemma_pending_is_taken(answers, head, rest);
        assert((head + tail).drop_last() =~= head + rest);
        assert((head + tail).last() == tail.last());
        let mid = scan(answers, head + rest)->Ok_0;
        let after = scan(answers, head + tail)->Ok_0;
        if said(rest).len() > 0 {
            assert(after.all_turns()[n].start_idx == mid.all_turns()[n].start_idx);
        } else if let ItemView::ResponseItem(response) = tail.last() {
            assert(said(tail)[0] == response);
        }
    }
}

/// What leads into an item does not depend on what follows it.
proof fn lemma_lead_in_of_head(head: Seq<ItemView>, tail: Seq<ItemView>, idx: nat)
    requires
        idx <= head.len(),
    ensures
        lead_in_start(head + tail, idx) == lead_in_start(head, idx),
    decreases idx,
{
    if idx > 0 {
        assert((head + tail)[idx - 1] == head[idx - 1]);
        lemma_lead_in_of_head(head, tail, (idx - 1) as nat);
    }
}

/// Items among which no turn opens have no turn.
proof fn lemma_no_turn_opens(items: Seq<ItemView>)
    requires
        forall|i: int| 0 <= i < items.len() ==> !opens_turn(#[trigger] items[i]),
    ensures
        turns_in(said(items), 0).len() == 0,
    decreases items.len(),
{
    if items.len() > 0 {
        let rest = items.drop_last();
        assert(!opens_turn(items[items.len() - 1]));
        assert forall|i: int| 0 <= i < rest.len() implies !opens_turn(#[trigger] rest[i]) by {
            assert(!opens_turn(items[i]));
        }
        lemma_no_turn_opens(rest);
        if let ItemView::ResponseItem(response) = items.last() {
            assert(said(items).drop_last() =~= said(rest));
        }
    }
}

/// Whether an item is no compaction, or one that records its replacement.
pub open spec fn recorded(item: ItemView) -> bool {
    item matches ItemView::Compacted(compacted) ==> compacted.replacement_history is Some
}

/// Whether each compaction in `items` records its replacement.
pub open spec fn all_recorded(items: Seq<ItemView>) -> bool {
    forall|i: int| 0 <= i < items.len() ==> recorded(#[trigger] items[i])
}

/// Where each compaction records its replacement, nothing is asked for.
proof fn lemma_recorded_asks_nothing(
    answers: AnswersView,
    items: Seq<ItemView>,
    tail: Seq<ItemView>,
)
    requires
        scan(answers, items) is Ok,
        all_recorded(tail),
    ensures
        scan(answers, items + tail) is Ok,
        scan(answers, items + without_boundaries(tail)) is Ok,
    decreases tail.len(),
{
    reveal(Seq::filter);
    if tail.len() == 0 {
        assert(items + tail =~= items);
        assert(items + without_boundaries(tail) =~= items);
    } else {
        let rest = tail.drop_last();
        assert(recorded(tail[tail.len() - 1]));
        assert forall|i: int| 0 <= i < rest.len() implies recorded(#[trigger] rest[i]) by {
            assert(recorded(tail[i]));
        }
        lemma_recorded_asks_nothing(answers, items, rest);
        assert((items + tail).drop_last() =~= items + rest);
        if !is_boundary(tail.last()) {
            let kept = without_boundaries(rest);
            assert(without_boundaries(tail) == kept.push(tail.last()));
            assert((items + kept.push(tail.last())).drop_last() =~= items + kept);
        }
    }
}

/// Whether a rollout `merged` can take up what comes behind `head`, where the
/// next turn is to start within `head`: the compactions that are repeated on
/// that account record their replacements; or, where there are none, no turn is
/// under way that could take up what is said again.
pub open spec fn takes_up(
    answers: AnswersView,
    merged: Seq<ItemView>,
    head: Seq<ItemView>,
) -> bool {
    match scan(answers, head)->Ok_0.pending {
        None => true,
        Some(idx) => if head[idx as int] is Compacted {
            forall|i: int|
                lead_in_start(head, idx) <= i <= idx ==> recorded(#[trigger] head[i])
        } else {
            scan(answers, merged)->Ok_0.active is None || said(head.skip(idx as int)).len() == 0
        },
    }
}

/// Where the source of a merge was forked from what the merged rollout has,
/// however that came about, and then went on, what it has said since is added,
/// and the merged rollout has its turns.
///
/// What it went on with must open with a message of the user, and neither take
/// back turns nor replace any. Left out is a fork right behind a compaction
/// whose replacement is not recorded: the compaction is repeated, and comes to
/// something else. So is one behind something said after the context of a turn
/// without a message, where the merged rollout has a turn under way: that turn
/// takes it up.
pub proof fn lemma_merge_fork(
    answers: AnswersView,
    merged: Seq<ItemView>,
    path: PathView,
    head: Seq<ItemView>,
    tail: Seq<ItemView>,
)
    requires
        answers.rollout_histories.contains_key(path),
        answers.rollout_histories[path] == head + tail,
        turns_of(answers, merged) is Ok,
        scan(answers, head) is Ok,
        signatures(turns_of(answers, head)->Ok_0) == signatures(turns_of(answers, merged)->Ok_0),
        takes_up(answers, merged, head),
        plain(tail),
        opens_with_turn(said(tail)),
    ensures
        turns_of(answers, answers.rollout_histories[path]) is Ok,
        merge_one(answers, merged, path) is Ok,
        ({
            let merged_turns = turns_of(answers, merged)->Ok_0;
            let source_turns = turns_at(answers, path);
            let result = turns_of(answers, merge_one(answers, merged, path)->Ok_0);
            &&& result is Ok
            &&& signatures(result->Ok_0) == signatures(source_turns)
            &&& signatures(result->Ok_0) == signatures(merged_turns) + signatures(
                turns_in(said(tail), 0),
            )
        }),
{
    let source = head + tail;
    let head_turns = turns_of(answers, head)->Ok_0;
    let merged_turns = turns_of(answers, merged)->Ok_0;
    let new_turns = turns_in(said(tail), 0);
    lemma_plain_tail(answers, head, tail);
    let source_turns = turns_of(answers, source)->Ok_0;
    assert(signatures(head_turns).len() == head_turns.len());
    assert(signatures(merged_turns).len() == merged_turns.len());
    assert(signatures(source_turns).len() == source_turns.len());
    assert(signatures(new_turns).len() == new_turns.len());
    assert forall|i: int| 0 <= i < merged_turns.len() implies #[trigger] merged_turns[i].signature
        == source_turns[i].signature by {
        assert(merged_turns[i].signature == signatures(merged_turns)[i]);
        assert(source_turns[i].signature == signatures(source_turns)[i]);
    }
    lemma_common_prefix_unique(merged_turns, source_turns, merged_turns.len());
    lemma_all_shared_no_removal(answers, merged_turns, source);
    if said(tail).len() == 0 {
        assert(new_turns.len() == 0);
        assert(signatures(merged_turns) + signatures(new_turns) =~= signatures(merged_turns));
    } else if scan(answers, head)->Ok_0.pending is Some {
        lemma_pending_start(answers, head);
        lemma_pending_is_taken(answers, head, tail);
        let start = scan(answers, head)->Ok_0.pending->0;
        assert(source_turns[merged_turns.len() as int].start_idx == start);
        lemma_lead_in_of_head(head, tail, start);
        let cut = lead_in_start(source, start);
        lemma_lead_in(source, start);
        let part = source.skip(cut as int);
        assert(suffix_start(answers, source, merged_turns, source_turns, merged_turns.len())
            == Ok::<_, RequestView>(Some(cut)));
        if head[start as int] is Compacted {
            assert(all_recorded(part)) by {
                assert forall|i: int| 0 <= i < part.len() implies recorded(#[trigger] part[i]) by {
                    let j = cut + i;
                    assert(part[i] == source[j]);
                    if j <= start {
                        assert(recorded(head[j]));
                    } else if j < head.len() {
                        assert(!rewrites(head[j]));
                    } else {
                        assert(!rewrites(tail[j - head.len()]));
                    }
                }
            }
            assert(recorded(head[start as int]));
            assert(source[start as int] == head[start as int]);
            lemma_recorded_asks_nothing(answers, merged, part);
            lemma_merge_keeps_compaction(answers, merged, path, cut, start as int);
        } else {
            assert(cut == start) by {
                if start > 0 {
                    assert(source[start - 1] == head[start - 1]);
                }
            }
            lemma_pending_part(answers, head, tail);
            lemma_plain_without_boundaries(part);
            lemma_said_without_boundaries(part);
            lemma_plain_tail(answers, merged, without_boundaries(part));
        }
    } else {
        lemma_first_new_start(answers, head, tail);
        let start = source_turns[merged_turns.len() as int].start_idx;
        let cut = lead_in_start(source, start);
        lemma_lead_in(source, start);
        let part = source.skip(cut as int);
        lemma_fork_part(answers, head, tail, start);
        lemma_plain_without_boundaries(part);
        lemma_said_without_boundaries(part);
        lemma_plain_tail(answers, merged, without_boundaries(part));
    }
}

/// The part of a fork from the context on that the next turn is to start at is
/// plain, and has the turns of what was said since.
proof fn lemma_pending_part(answers: AnswersView, head: Seq<ItemView>, tail: Seq<ItemView>)
    requires
        scan(answers, head) matches Ok(state) && state.pending is Some,
        head[scan(answers, head)->Ok_0.pending->0 as int] is TurnContext,
        plain(tail),
        opens_with_turn(said(tail)),
    ensures
        ({
            let start = scan(answers, head)->Ok_0.pending->0;
            let part = (head + tail).skip(start as int);
            &&& plain(part)
            &&& signatures(turns_in(said(part), 0)) == signatures(turns_in(said(tail), 0))
            &&& said(head.skip(start as int)).len() == 0 ==> opens_with_turn(said(part))
        }),
{
    lemma_pending_start(answers, head);
    let start = scan(answers, head)->Ok_0.pending->0;
    let lead = head.skip(start as int);
    let part = (head + tail).skip(start as int);
    assert(lead + tail =~= part);
    assert forall|i: int| 0 <= i < lead.len() implies !opens_turn(#[trigger] lead[i]) by {
        assert(lead[i] == head[start + i]);
    }
    assert forall|i: int| 0 <= i < part.len() implies !rewrites(#[trigger] part[i]) by {
        if i < lead.len() {
            assert(part[i] == head[start + i]);
        } else {
            assert(part[i] == tail[i - lead.len()]);
        }
    }
    lemma_no_turn_opens(lead);
    lemma_said_append(lead, tail);
    lemma_turns_in_second_part(said(lead), said(tail));
    let all = signatures(turns_in(said(part), 0));
    assert(all.skip(0) =~= all);
    if said(lead).len() == 0 {
        assert(said(part) =~= said(tail));
    }
}

/// The part of a fork that is added is plain, and says what was said since.
proof fn lemma_fork_part(
    answers: AnswersView,
    head: Seq<ItemView>,
    tail: Seq<ItemView>,
    start: nat,
)
    requires
        scan(answers, head) matches Ok(state) && state.pending is None,
        plain(tail),
        head.len() <= start < head.len() + tail.len(),
        said(tail.take(start - head.len())).len() == 0,
    ensures
        ({
            let part = (head + tail).skip(lead_in_start(head + tail, start) as int);
            &&& plain(part)
            &&& said(part) == said(tail)
        }),
{
    let source = head + tail;
    let cut = lead_in_start(source, start);
    lemma_lead_in(source, start);
    let part = source.skip(cut as int);
    if cut < head.len() {
        let lead = head.skip(cut as int);
        assert forall|i: int| 0 <= i < lead.len() implies leads_in(#[trigger] lead[i]) by {
            assert(lead[i] == source[cut + i]);
        }
        lemma_lead_in_says_nothing(lead);
        lemma_said_append(lead, tail);
        assert(lead + tail =~= part);
        assert(said(lead) + said(tail) =~= said(tail));
    } else {
        let early = tail.take(cut - head.len());
        let rest = tail.skip(cut - head.len());
        let before = tail.take(start - head.len());
        let between = before.skip(cut - head.len());
        lemma_said_append(early, between);
        assert(early + between =~= before);
        lemma_said_append(early, rest);
        assert(early + rest =~= tail);
        assert(rest =~= part);
        assert(said(early) + said(rest) =~= said(rest));
    }
    assert forall|i: int| 0 <= i < part.len() implies !rewrites(#[trigger] part[i]) by {
        let j = cut + i;
        assert(part[i] == source[j]);
        if j < head.len() {
            assert(leads_in(source[j]));
            if head[j] is Compacted {
                assert forall|k: int| j <= k < head.len() implies leads_in(#[trigger] head[k]) by {
                    assert(leads_in(source[k]));
                }
                lemma_pending_after_compaction(answers, head, j);
            }
        } else {
            assert(!rewrites(tail[j - head.len()]));
        }
    }
}

/// The item that records a rollback.
pub open spec fn rollback_item(num_turns: nat) -> ItemView {
    ItemView::EventMsg(EventView::ThreadRolledBack { num_turns })
}

/// Where the source of a merge has said what the merged rollout has, then
/// takes back some of it and does not say all of it again, the rollback and all
/// that follows it is added, and the merged rollout has the turns that the
/// source has in the end. No earlier rollback must have taken back turns in
/// common.
pub proof fn lemma_merge_keeps_rollback(
    answers: AnswersView,
    merged: Seq<ItemView>,
    path: PathView,
    head: Seq<ItemView>,
    num_turns: nat,
    tail: Seq<ItemView>,
)
    requires
        answers.rollout_histories.contains_key(path),
        answers.rollout_histories[path] == head + seq![rollback_item(num_turns)] + tail,
        turns_of(answers, merged) is Ok,
        turns_of(answers, answers.rollout_histories[path]) is Ok,
        signatures(turns_of(answers, head)->Ok_0) == signatures(turns_of(answers, merged)->Ok_0),
        first_removal(
            answers,
            turns_of(answers, merged)->Ok_0,
            head,
            common_prefix_len(
                turns_of(answers, merged)->Ok_0,
                turns_of(answers, answers.rollout_histories[path])->Ok_0,
            ),
        ) == Ok::<Option<nat>, RequestView>(None),
        num_turns > 0,
        common_prefix_len(
            turns_of(answers, merged)->Ok_0,
            turns_of(answers, answers.rollout_histories[path])->Ok_0,
        ) < turns_of(answers, merged)->Ok_0.len(),
    ensures
        merge_one(answers, merged, path) == Ok::<_, RequestView>(
            merged + seq![rollback_item(num_turns)] + without_boundaries(tail),
        ),
        ({
            let result = turns_of(answers, merge_one(answers, merged, path)->Ok_0);
            let source_turns = turns_of(answers, answers.rollout_histories[path])->Ok_0;
            &&& result is Ok
            &&& signatures(result->Ok_0) == signatures(source_turns)
        }),
{
    let source = answers.rollout_histories[path];
    let rollback = rollback_item(num_turns);
    let upto = head + seq![rollback];
    let merged_turns = turns_of(answers, merged)->Ok_0;
    let source_turns = turns_of(answers, source)->Ok_0;
    let common = common_prefix_len(merged_turns, source_turns);
    lemma_common_prefix(merged_turns, source_turns);
    assert(source.take(head.len() as int) =~= head);
    lemma_scan_stops(answers, source, head.len() as int);
    let before = scan(answers, head)->Ok_0;
    let head_turns = before.all_turns();
    assert(signatures(head_turns).len() == signatures(merged_turns).len());
    assert(upto.drop_last() =~= head);
    assert(upto.last() == rollback);
    let after = scan(answers, upto)->Ok_0;

    // The rollback is the first that takes back turns in common.
    assert forall|i: int| 0 <= i < head_turns.len() implies #[trigger] merged_turns[i].signature
        == head_turns[i].signature by {
        assert(signatures(merged_turns)[i] == signatures(head_turns)[i]);
    }
    lemma_common_prefix_unique(merged_turns, head_turns, merged_turns.len());
    lemma_most_shared_bounds(answers, merged_turns, head);
    lemma_common_prefix(merged_turns, after.turns);
    assert(most_shared(answers, merged_turns, upto) >= merged_turns.len());
    assert(first_removal(answers, merged_turns, upto, common) == Ok::<_, RequestView>(
        Some(head.len()),
    ));
    assert(source.take(upto.len() as int) =~= upto);
    lemma_first_removal_stays(answers, merged_turns, source, common, upto.len() as int);

    // The first turn that is not in common starts behind it.
    assert(upto + tail =~= source);
    lemma_later_starts(answers, upto, tail);
    if common < source_turns.len() {
        let start = source_turns[common as int].start_idx;
        assert(scan(answers, source)->Ok_0.all_turns() == source_turns);
        if start < upto.len() {
            assert(source_turns[common as int] == after.turns[common as int]);
            assert(after.turns[common as int] == head_turns[common as int]);
            assert(false);
        }
        lemma_lead_in(source, start);
        if lead_in_start(source, start) <= head.len() {
            assert(leads_in(source[head.len() as int]));
            assert(source[head.len() as int] == rollback);
            assert(false);
        }
    }
    assert(suffix_start(answers, source, merged_turns, source_turns, common) == Ok::<
        _,
        RequestView,
    >(Some(head.len())));

    // From the rollback on, both rollouts go the same way.
    assert(source.skip(head.len() as int) =~= seq![rollback] + tail);
    lemma_without_boundaries_append(seq![rollback], tail);
    lemma_without_boundaries_one(rollback);
    assert(merged + (seq![rollback] + without_boundaries(tail)) =~= merged + seq![rollback]
        + without_boundaries(tail));
    lemma_merge_from_same_turns(answers, merged, path, head.len());
}

/// Where the part that a merge adds begins with an item that ends a turn, and
/// the source had said up to there just what the merged rollout has, the merged
/// rollout has the turns that the source has in the end.
pub proof fn lemma_merge_from_same_turns(
    answers: AnswersView,
    merged: Seq<ItemView>,
    path: PathView,
    cut: nat,
)
    requires
        answers.rollout_histories.contains_key(path),
        turns_of(answers, merged) is Ok,
        turns_of(answers, answers.rollout_histories[path]) is Ok,
        ({
            let source = answers.rollout_histories[path];
            let merged_turns = turns_of(answers, merged)->Ok_0;
            let source_turns = turns_of(answers, source)->Ok_0;
            let common = common_prefix_len(merged_turns, source_turns);
            &&& suffix_start(answers, source, merged_turns, source_turns, common) == Ok::<
                _,
                RequestView,
            >(Some(cut))
            &&& cut < source.len()
            &&& ends_turn(source[cut as int])
            &&& signatures(turns_of(answers, source.take(cut as int))->Ok_0) == signatures(
                merged_turns,
            )
        }),
    ensures
        merge_one(answers, merged, path) is Ok,
        ({
            let result = turns_of(answers, merge_one(answers, merged, path)->Ok_0);
            let source_turns = turns_of(answers, answers.rollout_histories[path])->Ok_0;
            &&& result is Ok
            &&& signatures(result->Ok_0) == signatures(source_turns)
        }),
{
    let source = answers.rollout_histories[path];
    let head = source.take(cut as int);
    let item = source[cut as int];
    let tail = source.skip(cut as int + 1);
    let one = seq![item];
    lemma_scan_stops(answers, source, cut as int);
    lemma_scan_stops(answers, source, cut as int + 1);
    let upto = head + one;
    assert(upto =~= source.take(cut as int + 1));
    assert(upto.drop_last() =~= head);
    assert(upto + tail =~= source);
    let extended = merged + one;
    assert(extended.drop_last() =~= merged);
    assert(source.skip(cut as int) =~= one + tail);
    lemma_without_boundaries_append(one, tail);
    lemma_without_boundaries_one(item);
    assert(merged + (one + without_boundaries(tail)) =~= extended + without_boundaries(tail));
    lemma_ending_alike(
        answers,
        scan(answers, merged)->Ok_0,
        scan(answers, head)->Ok_0,
        item,
        merged.len(),
        head.len(),
    );
    lemma_same_tail(answers, extended, upto, tail);
    lemma_end_alike_turns(answers, extended + without_boundaries(tail), source);
}

/// Leaving out the marks of two parts is leaving out those of each.
proof fn lemma_without_boundaries_append(a: Seq<ItemView>, b: Seq<ItemView>)
    ensures
        without_boundaries(a + b) == without_boundaries(a) + without_boundaries(b),
{
    Seq::filter_distributes_over_add(a, b, |item: ItemView| !is_boundary(item));
}

/// An item that is no mark stays.
proof fn lemma_without_boundaries_one(item: ItemView)
    requires
        !is_boundary(item),
    ensures
        without_boundaries(seq![item]) == seq![item],
{
    reveal_with_fuel(Seq::filter, 2);
    assert(without_boundaries(seq![item]) =~= seq![item]);
}

/// Where the part that a merge adds holds a compaction whose replacement is
/// recorded, the merged rollout has the turns that the source has in the end,
/// whatever it had before.
pub proof fn lemma_merge_keeps_compaction(
    answers: AnswersView,
    merged: Seq<ItemView>,
    path: PathView,
    cut: nat,
    k: int,
)
    requires
        answers.rollout_histories.contains_key(path),
        turns_of(answers, merged) is Ok,
        turns_of(answers, answers.rollout_histories[path]) is Ok,
        ({
            let source = answers.rollout_histories[path];
            let merged_turns = turns_of(answers, merged)->Ok_0;
            let source_turns = turns_of(answers, source)->Ok_0;
            let common = common_prefix_len(merged_turns, source_turns);
            &&& suffix_start(answers, source, merged_turns, source_turns, common) == Ok::<
                _,
                RequestView,
            >(Some(cut))
            &&& cut <= k < source.len()
            &&& source[k] matches ItemView::Compacted(compacted)
                && compacted.replacement_history is Some
        }),
    ensures
        merge_one(answers, merged, path) is Ok,
        ({
            let result = turns_of(answers, merge_one(answers, merged, path)->Ok_0);
            let source_turns = turns_of(answers, answers.rollout_histories[path])->Ok_0;
            result matches Ok(turns) ==> signatures(turns) == signatures(source_turns)
        }),
{
    let source = answers.rollout_histories[path];
    let lead = source.subrange(cut as int, k);
    let item = source[k];
    let tail = source.skip(k + 1);
    let one = seq![item];
    assert(source.skip(cut as int) =~= (lead + one) + tail);
    lemma_without_boundaries_append(lead + one, tail);
    lemma_without_boundaries_append(lead, one);
    lemma_without_boundaries_one(item);
    let result = merge_one(answers, merged, path)->Ok_0;
    let a = merged + without_boundaries(lead) + one;
    let b = source.take(k + 1);
    assert(result =~= a + without_boundaries(tail));
    assert(b + tail =~= source);
    if turns_of(answers, result) is Ok {
        assert(result.take(a.len() as int) =~= a);
        assert(result.take(a.len() - 1) =~= a.drop_last());
        lemma_scan_stops(answers, result, a.len() as int);
        lemma_scan_stops(answers, result, a.len() - 1);
        lemma_scan_stops(answers, source, k + 1);
        lemma_scan_stops(answers, source, k);
        assert(b.drop_last() =~= source.take(k));
        assert(a.last() == item && b.last() == item);
        let history = item->Compacted_0.replacement_history->0;
        lemma_turns_in_anywhere(history, (a.len() - 1) as nat, (b.len() - 1) as nat);
        assert(end_alike(scan(answers, a), scan(answers, b)));
        lemma_same_tail(answers, a, b, tail);
        lemma_end_alike_turns(answers, result, source);
    }
}

/// The rollback that is found is the first among those that take back turns in
/// common, and none is found where there is none.
pub proof fn lemma_first_removal_is_first(
    answers: AnswersView,
    merged_turns: Seq<TurnView>,
    items: Seq<ItemView>,
    final_len: nat,
)
    ensures
        first_removal(answers, merged_turns, items, final_len) matches Ok(Some(idx)) ==> {
            &&& idx < items.len()
            &&& removes_shared(answers, merged_turns, items.take(idx as int + 1), final_len)
            &&& forall|n: int|
                0 <= n <= idx ==> !#[trigger] removes_shared(
                    answers,
                    merged_turns,
                    items.take(n),
                    final_len,
                )
        },
        first_removal(answers, merged_turns, items, final_len) == Ok::<Option<nat>, RequestView>(
            None,
        ) ==> forall|n: int|
            0 <= n <= items.len() ==> !#[trigger] removes_shared(
                answers,
                merged_turns,
                items.take(n),
                final_len,
            ),
    decreases items.len(),
{
    if items.len() > 0 {
        let rest = items.drop_last();
        lemma_first_removal_is_first(answers, merged_turns, rest, final_len);
        assert(items.take(items.len() as int) =~= items);
        assert forall|n: int| 0 <= n <= rest.len() implies #[trigger] items.take(n) == rest.take(
            n,
        ) by {
            assert(items.take(n) =~= rest.take(n));
        }
    }
}

/// Merging only adds: what the merged rollout had stays as it was.
pub proof fn lemma_merge_one_extends(answers: AnswersView, merged: Seq<ItemView>, path: PathView)
    ensures
        merge_one(answers, merged, path) matches Ok(result) ==> merged.is_prefix_of(result),
{
}

/// Merging one source after the other only adds.
pub proof fn lemma_merge_all_extends(
    answers: AnswersView,
    merged: Seq<ItemView>,
    sources: Seq<SourceView>,
)
    ensures
        merge_all(answers, merged, sources) matches Ok(result) ==> merged.is_prefix_of(result),
    decreases sources.len(),
{
    if sources.len() > 0 {
        lemma_merge_all_extends(answers, merged, sources.drop_last());
    }
}

/// No marks are left, and none are added.
proof fn lemma_merge_all_no_boundary(
    answers: AnswersView,
    merged: Seq<ItemView>,
    sources: Seq<SourceView>,
)
    requires
        forall|i: int| 0 <= i < merged.len() ==> !is_boundary(#[trigger] merged[i]),
    ensures
        merge_all(answers, merged, sources) matches Ok(result) ==> forall|i: int|
            0 <= i < result.len() ==> !is_boundary(#[trigger] result[i]),
    decreases sources.len(),
{
    if sources.len() > 0 {
        lemma_merge_all_no_boundary(answers, merged, sources.drop_last());
        if let Ok(result) = merge_all(answers, merged, sources) {
            let before = merge_all(answers, merged, sources.drop_last())->Ok_0;
            let source = answers.rollout_histories[sources.last().path];
            assert forall|i: int| 0 <= i < result.len() implies !is_boundary(
                #[trigger] result[i],
            ) by {
                if i >= before.len() {
                    let cut = suffix_start(
                        answers,
                        source,
                        turns_of(answers, before)->Ok_0,
                        turns_of(answers, source)->Ok_0,
                        common_prefix_len(
                            turns_of(answers, before)->Ok_0,
                            turns_of(answers, source)->Ok_0,
                        ),
                    )->Ok_0->0;
                    lemma_without_boundaries_none(source.skip(cut as int));
                    assert(result[i] == without_boundaries(source.skip(cut as int))[i
                        - before.len()]);
                }
            }
        }
    }
}

/// No mark is left where they are left out.
proof fn lemma_without_boundaries_none(items: Seq<ItemView>)
    ensures
        forall|i: int|
            0 <= i < without_boundaries(items).len() ==> !is_boundary(
                #[trigger] without_boundaries(items)[i],
            ),
{
    let keep = |item: ItemView| !is_boundary(item);
    assert forall|i: int| 0 <= i < without_boundaries(items).len() implies !is_boundary(
        #[trigger] without_boundaries(items)[i],
    ) by {
        items.lemma_filter_pred(keep, i);
    }
}

/// A merged rollout opens with the items of the base, and has no mark between
/// items of different threads. Its session metadata are those of the base, but
/// tell of no merge.
pub proof fn lemma_merged_rollout_opens_with_base(
    answers: AnswersView,
    base_thread_id: Seq<char>,
    base_path: PathView,
    sources: Seq<SourceView>,
)
    ensures
        merged_rollout(answers, base_thread_id, base_path, sources) matches Ok(result) ==> {
            let kept = without_boundaries(answers.rollout_histories[base_path]);
            &&& kept.len() > 0
            &&& kept[0] matches ItemView::SessionMeta(line) && kept.update(
                0,
                ItemView::SessionMeta(without_provenance(line)),
            ).is_prefix_of(result)
            &&& forall|i: int| 0 <= i < result.len() ==> !is_boundary(#[trigger] result[i])
        },
{
    if let Ok(result) = merged_rollout(answers, base_thread_id, base_path, sources) {
        let home = codex_home(base_path)->Ok_0;
        let items = answers.rollout_histories[base_path];
        let start = merge_base_items(items)->0;
        let ordered = ordered_sources(answers, home, sources)->Ok_0;
        lemma_merge_all_extends(answers, start, ordered);
        lemma_without_boundaries_none(items);
        assert forall|i: int| 0 <= i < start.len() implies !is_boundary(#[trigger] start[i]) by {
            if i > 0 {
                assert(start[i] == without_boundaries(items)[i]);
            }
        }
        lemma_merge_all_no_boundary(answers, start, ordered);
    }
}

/// A merge starts from the turns of the base.
pub proof fn lemma_merge_starts_from_base_turns(answers: AnswersView, items: Seq<ItemView>)
    requires
        merge_base_items(items) is Some,
        turns_of(answers, items) is Ok,
    ensures
        turns_of(answers, merge_base_items(items)->0) is Ok,
        end_alike(scan(answers, merge_base_items(items)->0), scan(answers, items)),
        signatures(turns_of(answers, merge_base_items(items)->0)->Ok_0) == signatures(
            turns_of(answers, items)->Ok_0,
        ),
{
    let kept = without_boundaries(items);
    let start = merge_base_items(items)->0;
    let none = Seq::<ItemView>::empty();
    assert(end_alike(scan(answers, kept), scan(answers, items))) by {
        lemma_same_tail(answers, none, none, items);
        assert(none + kept =~= kept);
        assert(none + items =~= items);
    }
    let first = seq![kept[0]];
    let other = seq![start[0]];
    let rest = kept.skip(1);
    assert(first.drop_last() =~= none);
    assert(other.drop_last() =~= none);
    assert(scan(answers, first) == scan(answers, other)) by {
        reveal_with_fuel(scan, 2);
    }
    assert(without_boundaries(rest) =~= rest) by {
        lemma_without_boundaries_none(items);
        assert forall|i: int| 0 <= i < rest.len() implies !is_boundary(#[trigger] rest[i]) by {
            assert(rest[i] == kept[i + 1]);
        }
        lemma_without_boundaries_keeps(rest);
    }
    assert(scan(answers, other) is Ok) by {
        reveal_with_fuel(scan, 2);
    }
    assert(end_alike(scan(answers, start), scan(answers, kept))) by {
        lemma_same_tail(answers, other, first, rest);
        assert(first + rest =~= kept);
        assert(other + rest =~= start);
    }
    lemma_end_alike_turns(answers, kept, items);
    lemma_end_alike_turns(answers, start, kept);
}

/// Items without marks stay as they are.
proof fn lemma_without_boundaries_keeps(items: Seq<ItemView>)
    requires
        forall|i: int| 0 <= i < items.len() ==> !is_boundary(#[trigger] items[i]),
    ensures
        without_boundaries(items) == items,
    decreases items.len(),
{
    reveal(Seq::filter);
    if items.len() > 0 {
        let rest = items.drop_last();
        assert(!is_boundary(items[items.len() - 1]));
        assert forall|i: int| 0 <= i < rest.len() implies !is_boundary(#[trigger] rest[i]) by {
            assert(!is_boundary(items[i]));
        }
        lemma_without_boundaries_keeps(rest);
        assert(rest.push(items.last()) =~= items);
    } else {
        assert(without_boundaries(items) =~= items);
    }
}

/// With one descendant of the base, a merge is that of its rollout into what
/// the base has.
proof fn lemma_single_source(
    answers: AnswersView,
    base_thread_id: Seq<char>,
    base_path: PathView,
    source: SourceView,
)
    requires
        codex_home(base_path) is Ok,
        has_ancestor(answers, codex_home(base_path)->Ok_0, source.path, base_thread_id),
        answers.rollout_histories.contains_key(base_path),
        merge_base_items(answers.rollout_histories[base_path]) is Some,
    ensures
        merged_rollout(answers, base_thread_id, base_path, seq![source]) == (match merge_one(
            answers,
            merge_base_items(answers.rollout_histories[base_path])->0,
            source.path,
        ) {
            Err(request) => Err(HaltView::Asks(request)),
            Ok(result) => Ok(result),
        }),
{
    let home = codex_home(base_path)->Ok_0;
    let sources = seq![source];
    let start = merge_base_items(answers.rollout_histories[base_path])->0;
    assert(sources.drop_last() =~= Seq::<SourceView>::empty());
    assert(sources.last() == source);
    let ids = sources.drop_last().map_values(|s: SourceView| s.thread_id);
    assert(ids.len() == 0);
    assert(first_obstacle(answers, home, base_thread_id, sources.drop_last()) is None);
    assert(source_obstacle(answers, home, base_thread_id, sources) is None);
    assert(first_obstacle(answers, home, base_thread_id, sources) is None);
    assert(ordered_sources(answers, home, sources.drop_last()) == Ok::<_, RequestView>(
        Seq::<SourceView>::empty(),
    ));
    assert(Seq::<SourceView>::empty().insert(0, source) =~= sources);
    assert(ordered_sources(answers, home, sources) == Ok::<_, RequestView>(sources));
    assert(merge_all(answers, start, sources.drop_last()) == Ok::<_, RequestView>(start));
    assert(merge_all(answers, start, sources) == merge_one(answers, start, source.path));
}

/// A thread with one descendant merged into it, which was forked from it with
/// the turns that it has now and then went on, has the turns of the descendant.
///
/// What the descendant went on with must open with a message of the user, and
/// neither take back turns nor replace any. Before the fork anything may have
/// been taken back, and compacted, but for what `takes_up` leaves out: a fork
/// right behind a compaction whose replacement is not recorded, or behind
/// something said after the context of a turn without a message, where the
/// thread has a turn under way.
pub proof fn lemma_merge_forked_descendant(
    answers: AnswersView,
    base_thread_id: Seq<char>,
    base_path: PathView,
    source: SourceView,
    head: Seq<ItemView>,
    tail: Seq<ItemView>,
)
    requires
        codex_home(base_path) is Ok,
        has_ancestor(answers, codex_home(base_path)->Ok_0, source.path, base_thread_id),
        answers.rollout_histories.contains_key(base_path),
        answers.rollout_histories.contains_key(source.path),
        merge_base_items(answers.rollout_histories[base_path]) is Some,
        turns_of(answers, answers.rollout_histories[base_path]) is Ok,
        answers.rollout_histories[source.path] == head + tail,
        scan(answers, head) is Ok,
        signatures(turns_of(answers, head)->Ok_0) == signatures(turns_at(answers, base_path)),
        takes_up(answers, answers.rollout_histories[base_path], head),
        plain(tail),
        opens_with_turn(said(tail)),
    ensures
        merged_rollout(answers, base_thread_id, base_path, seq![source]) is Ok,
        ({
            let result = turns_of(
                answers,
                merged_rollout(answers, base_thread_id, base_path, seq![source])->Ok_0,
            );
            &&& result is Ok
            &&& signatures(result->Ok_0) == signatures(turns_at(answers, source.path))
        }),
{
    let items = answers.rollout_histories[base_path];
    lemma_single_source(answers, base_thread_id, base_path, source);
    lemma_merge_starts_from_base_turns(answers, items);
    lemma_merge_fork(answers, merge_base_items(items)->0, source.path, head, tail);
}

/// Whether each answer in `items` comes behind a message of the user.
pub open spec fn user_first(items: Seq<ItemView>) -> bool {
    forall|i: int|
        0 <= i < items.len() && (#[trigger] items[i]) is ResponseItem && !opens_turn(items[i])
            ==> exists|j: int| 0 <= j < i && opens_turn(#[trigger] items[j])
}

/// What is said in such items opens with a message of the user.
proof fn lemma_user_first(items: Seq<ItemView>)
    requires
        user_first(items),
    ensures
        opens_with_turn(said(items)),
        (exists|j: int| 0 <= j < items.len() && opens_turn(#[trigger] items[j])) ==> said(
            items,
        ).len() > 0,
    decreases items.len(),
{
    if items.len() > 0 {
        let rest = items.drop_last();
        assert(user_first(rest)) by {
            assert forall|i: int|
                0 <= i < rest.len() && (#[trigger] rest[i]) is ResponseItem && !opens_turn(
                    rest[i],
                ) implies exists|j: int| 0 <= j < i && opens_turn(#[trigger] rest[j]) by {
                assert(items[i] == rest[i]);
                let j = choose|j: int| 0 <= j < i && opens_turn(#[trigger] items[j]);
                assert(opens_turn(rest[j]));
            }
        }
        lemma_user_first(rest);
        let last = items.len() - 1;
        if exists|j: int| 0 <= j < items.len() && opens_turn(#[trigger] items[j]) {
            let j = choose|j: int| 0 <= j < items.len() && opens_turn(#[trigger] items[j]);
            if j < last {
                assert(opens_turn(rest[j]));
            }
        }
        if items[last] is ResponseItem && !opens_turn(items[last]) {
            let j = choose|j: int| 0 <= j < last && opens_turn(#[trigger] items[j]);
            assert(opens_turn(rest[j]));
        }
    }
}

/// A thread with one descendant merged into it, whose rollout is a copy of its
/// own but for the session metadata, with more behind it, has the turns of the
/// descendant.
///
/// What is behind the copy must open with a message of the user, and neither
/// take back turns nor replace any. In the copy anything may have been taken
/// back, and compacted, as long as each compaction records its replacement.
pub proof fn lemma_merge_copied_fork(
    answers: AnswersView,
    base_thread_id: Seq<char>,
    base_path: PathView,
    source: SourceView,
    tail: Seq<ItemView>,
)
    requires
        codex_home(base_path) is Ok,
        has_ancestor(answers, codex_home(base_path)->Ok_0, source.path, base_thread_id),
        answers.rollout_histories.contains_key(base_path),
        answers.rollout_histories.contains_key(source.path),
        ({
            let base_items = answers.rollout_histories[base_path];
            let source_items = answers.rollout_histories[source.path];
            &&& base_items.len() > 0 && base_items[0] is SessionMeta
            &&& source_items.len() > 0 && source_items[0] is SessionMeta
            &&& source_items.skip(1) == base_items.skip(1) + tail
            &&& all_recorded(base_items)
        }),
        plain(tail),
        user_first(tail),
    ensures
        merged_rollout(answers, base_thread_id, base_path, seq![source]) is Ok,
        turns_of(answers, answers.rollout_histories[source.path]) is Ok,
        ({
            let result = turns_of(
                answers,
                merged_rollout(answers, base_thread_id, base_path, seq![source])->Ok_0,
            );
            &&& result is Ok
            &&& signatures(result->Ok_0) == signatures(turns_at(answers, source.path))
        }),
{
    let base_items = answers.rollout_histories[base_path];
    let source_items = answers.rollout_histories[source.path];
    let none = Seq::<ItemView>::empty();
    let first = seq![base_items[0]];
    let other = seq![source_items[0]];
    let rest = base_items.skip(1);
    let head = other + rest;
    assert(head + tail =~= other + source_items.skip(1));
    assert(head + tail =~= source_items);
    assert(first + rest =~= base_items);

    // The base opens with its session metadata, marks left out or not.
    lemma_without_boundaries_append(first, rest);
    lemma_without_boundaries_one(base_items[0]);
    assert(without_boundaries(base_items)[0] == base_items[0]);
    let start = merge_base_items(base_items)->0;
    let opening = seq![start[0]];
    assert(opening + without_boundaries(rest) =~= start);

    // What a merge starts from and the copy are played back alike.
    assert(opening.drop_last() =~= none);
    assert(other.drop_last() =~= none);
    assert(scan(answers, opening) == Ok::<_, RequestView>(ScanView::start()) && scan(answers, other)
        == Ok::<_, RequestView>(ScanView::start())) by {
        reveal_with_fuel(scan, 2);
    }
    lemma_same_tail(answers, opening, other, rest);
    assert forall|i: int| 0 <= i < rest.len() implies recorded(#[trigger] rest[i]) by {
        assert(rest[i] == base_items[i + 1]);
    }
    lemma_recorded_asks_nothing(answers, other, rest);
    lemma_end_alike_turns(answers, start, head);
    assert(takes_up(answers, start, head)) by {
        assert forall|i: int| 0 <= i < head.len() implies recorded(#[trigger] head[i]) by {
            if i > 0 {
                assert(head[i] == rest[i - 1]);
            }
        }
        if scan(answers, head)->Ok_0.pending is Some {
            lemma_pending_start(answers, head);
        }
    }
    lemma_user_first(tail);
    lemma_merge_fork(answers, start, source.path, head, tail);
    lemma_single_source(answers, base_thread_id, base_path, source);
}

/// A thread with one descendant merged into it, which has all its turns and
/// then some of its own, has the turns of the descendant.
pub proof fn lemma_merge_one_descendant(
    answers: AnswersView,
    base_thread_id: Seq<char>,
    base_path: PathView,
    source: SourceView,
)
    requires
        codex_home(base_path) is Ok,
        has_ancestor(answers, codex_home(base_path)->Ok_0, source.path, base_thread_id),
        answers.rollout_histories.contains_key(base_path),
        answers.rollout_histories.contains_key(source.path),
        merge_base_items(answers.rollout_histories[base_path]) is Some,
        turns_of(answers, answers.rollout_histories[base_path]) is Ok,
        plain(answers.rollout_histories[source.path]),
        ({
            let base_turns = turns_of(answers, answers.rollout_histories[base_path])->Ok_0;
            let source_turns = turns_of(answers, answers.rollout_histories[source.path])->Ok_0;
            common_prefix_len(base_turns, source_turns) == base_turns.len()
        }),
    ensures
        merged_rollout(answers, base_thread_id, base_path, seq![source]) is Ok,
        ({
            let source_turns = turns_of(answers, answers.rollout_histories[source.path])->Ok_0;
            let result = turns_of(
                answers,
                merged_rollout(answers, base_thread_id, base_path, seq![source])->Ok_0,
            );
            &&& result is Ok
            &&& signatures(result->Ok_0) == signatures(source_turns)
        }),
{
    let items = answers.rollout_histories[base_path];
    let start = merge_base_items(items)->0;
    lemma_merge_starts_from_base_turns(answers, items);
    let base_turns = turns_of(answers, items)->Ok_0;
    let start_turns = turns_of(answers, start)->Ok_0;
    lemma_plain_starts(answers, answers.rollout_histories[source.path]);
    let source_turns = turns_of(answers, answers.rollout_histories[source.path])->Ok_0;
    lemma_common_prefix(base_turns, source_turns);
    assert(signatures(start_turns).len() == signatures(base_turns).len());
    assert forall|i: int| 0 <= i < start_turns.len() implies #[trigger] start_turns[i].signature
        == source_turns[i].signature by {
        assert(signatures(start_turns)[i] == signatures(base_turns)[i]);
        assert(base_turns[i].signature == source_turns[i].signature);
    }
    lemma_common_prefix_unique(start_turns, source_turns, start_turns.len());
    lemma_merge_continuation(answers, start, source.path);
    lemma_single_source(answers, base_thread_id, base_path, source);
}

/// A thread with a child and a grandchild merged into it, each of which carries
/// on from the one before, has the turns of the grandchild, whichever of the
/// two is named first.
pub proof fn lemma_merge_child_and_grandchild(
    answers: AnswersView,
    base_thread_id: Seq<char>,
    base_path: PathView,
    child: SourceView,
    grandchild: SourceView,
)
    requires
        codex_home(base_path) is Ok,
        ({
            let home = codex_home(base_path)->Ok_0;
            &&& has_ancestor(answers, home, child.path, base_thread_id)
            &&& has_ancestor(answers, home, grandchild.path, base_thread_id)
            &&& has_ancestor(answers, home, grandchild.path, child.thread_id)
            &&& descent(answers, home, child.path, grandchild.thread_id) == Ok::<_, RequestView>(
                false,
            )
        }),
        child.thread_id != grandchild.thread_id,
        answers.rollout_histories.contains_key(base_path),
        merge_base_items(answers.rollout_histories[base_path]) is Some,
        turns_of(answers, answers.rollout_histories[base_path]) is Ok,
        carry_on(answers, turns_at(answers, base_path), seq![child, grandchild]),
    ensures
        merged_rollout(answers, base_thread_id, base_path, seq![child, grandchild]) is Ok,
        merged_rollout(answers, base_thread_id, base_path, seq![grandchild, child])
            == merged_rollout(answers, base_thread_id, base_path, seq![child, grandchild]),
        ({
            let result = turns_of(
                answers,
                merged_rollout(answers, base_thread_id, base_path, seq![child, grandchild])->Ok_0,
            );
            &&& result is Ok
            &&& signatures(result->Ok_0) == signatures(turns_at(answers, grandchild.path))
        }),
{
    let home = codex_home(base_path)->Ok_0;
    let items = answers.rollout_histories[base_path];
    let start = merge_base_items(items)->0;
    let chain = seq![child, grandchild];
    let reversed = seq![grandchild, child];
    lemma_two_sources(answers, home, base_thread_id, child, grandchild);
    lemma_two_sources(answers, home, base_thread_id, grandchild, child);
    assert(insertion_point(answers, home, seq![child], grandchild, 0, 1) == Ok::<_, RequestView>(
        1nat,
    )) by {
        reveal_with_fuel(insertion_point, 2);
    }
    assert(seq![child].insert(1, grandchild) =~= chain);
    assert(insertion_point(answers, home, seq![grandchild], child, 0, 1) == Ok::<_, RequestView>(
        0nat,
    ));
    assert(seq![grandchild].insert(0, child) =~= chain);

    lemma_merge_starts_from_base_turns(answers, items);
    let start_turns = turns_of(answers, start)->Ok_0;
    let base_turns = turns_at(answers, base_path);
    assert(chain[0] == child);
    lemma_common_prefix_said(start_turns, base_turns, turns_at(answers, child.path));
    assert(carry_on(answers, start_turns, chain)) by {
        assert forall|i: int| 0 <= i < chain.len() implies {
            let path = (#[trigger] chain[i]).path;
            let before = if i == 0 {
                start_turns
            } else {
                turns_at(answers, chain[i - 1].path)
            };
            &&& answers.rollout_histories.contains_key(path)
            &&& plain(answers.rollout_histories[path])
            &&& common_prefix_len(before, turns_at(answers, path)) == before.len()
        } by {
            assert(seq![child, grandchild][i] == chain[i]);
        }
    }
    lemma_merge_chain(answers, start, chain);
}

/// Two different descendants are no obstacle to a merge, and their order is
/// that of the second put next to the first.
proof fn lemma_two_sources(
    answers: AnswersView,
    codex_home: Seq<ComponentView>,
    base: Seq<char>,
    first: SourceView,
    second: SourceView,
)
    requires
        has_ancestor(answers, codex_home, first.path, base),
        has_ancestor(answers, codex_home, second.path, base),
        first.thread_id != second.thread_id,
    ensures
        first_obstacle(answers, codex_home, base, seq![first, second]) is None,
        ordered_sources(answers, codex_home, seq![first, second]) == (match insertion_point(
            answers,
            codex_home,
            seq![first],
            second,
            0,
            1,
        ) {
            Err(request) => Err(request),
            Ok(at) => Ok(seq![first].insert(at as int, second)),
        }),
{
    let sources = seq![first, second];
    let one = seq![first];
    let none = Seq::<SourceView>::empty();
    assert(sources.drop_last() =~= one);
    assert(one.drop_last() =~= none);
    assert(first_obstacle(answers, codex_home, base, none) is None);
    let ids = none.map_values(|s: SourceView| s.thread_id);
    assert(ids.len() == 0);
    assert(source_obstacle(answers, codex_home, base, one) is None);
    assert(first_obstacle(answers, codex_home, base, one) is None);
    let ids = one.map_values(|s: SourceView| s.thread_id);
    assert(ids =~= seq![first.thread_id]);
    assert(source_obstacle(answers, codex_home, base, sources) is None);
    assert(ordered_sources(answers, codex_home, none) == Ok::<_, RequestView>(none));
    assert(none.insert(0, first) =~= one);
    assert(ordered_sources(answers, codex_home, one) == Ok::<_, RequestView>(one));
}

/// Without sources, a merge is a copy of the base without its marks and
/// provenance.
pub proof fn lemma_merge_nothing(
    answers: AnswersView,
    base_thread_id: Seq<char>,
    base_path: PathView,
)
    requires
        codex_home(base_path) is Ok,
        answers.rollout_histories.contains_key(base_path),
        merge_base_items(answers.rollout_histories[base_path]) is Some,
    ensures
        merged_rollout(answers, base_thread_id, base_path, Seq::empty()) == Ok::<_, HaltView>(
            merge_base_items(answers.rollout_histories[base_path])->0,
        ),
{
}

/// Where there is no obstacle, no two sources name one thread, and each comes
/// from the base.
proof fn lemma_no_obstacle(
    answers: AnswersView,
    codex_home: Seq<ComponentView>,
    base: Seq<char>,
    sources: Seq<SourceView>,
)
    requires
        first_obstacle(answers, codex_home, base, sources) is None,
    ensures
        forall|i: int|
            0 <= i < sources.len() ==> has_ancestor(
                answers,
                codex_home,
                (#[trigger] sources[i]).path,
                base,
            ),
        forall|i: int, j: int|
            0 <= i < j < sources.len() ==> (#[trigger] sources[i]).thread_id != (
            #[trigger] sources[j]).thread_id,
    decreases sources.len(),
{
    if sources.len() > 0 {
        let rest = sources.drop_last();
        lemma_no_obstacle(answers, codex_home, base, rest);
        assert(source_obstacle(answers, codex_home, base, sources) is None);
        assert forall|i: int| 0 <= i < sources.len() implies has_ancestor(
            answers,
            codex_home,
            (#[trigger] sources[i]).path,
            base,
        ) by {
            if i < rest.len() {
                assert(rest[i] == sources[i]);
            }
        }
        assert forall|i: int, j: int| 0 <= i < j < sources.len() implies (
        #[trigger] sources[i]).thread_id != (#[trigger] sources[j]).thread_id by {
            assert(rest[i] == sources[i]);
            if j < rest.len() {
                assert(rest[j] == sources[j]);
            } else {
                let ids = rest.map_values(|s: SourceView| s.thread_id);
                assert(ids[i] == sources[i].thread_id);
            }
        }
    }
}

/// What is merged are descendants of the base, each once.
pub proof fn lemma_merged_are_descendants(
    answers: AnswersView,
    base_thread_id: Seq<char>,
    base_path: PathView,
    sources: Seq<SourceView>,
)
    requires
        merged_rollout(answers, base_thread_id, base_path, sources) is Ok,
    ensures
        codex_home(base_path) is Ok,
        forall|i: int|
            0 <= i < sources.len() ==> has_ancestor(
                answers,
                codex_home(base_path)->Ok_0,
                (#[trigger] sources[i]).path,
                base_thread_id,
            ),
        forall|i: int, j: int|
            0 <= i < j < sources.len() ==> (#[trigger] sources[i]).thread_id != (
            #[trigger] sources[j]).thread_id,
{
    lemma_no_obstacle(answers, codex_home(base_path)->Ok_0, base_thread_id, sources);
}

/// Of an obstacle among the sources, the first source that it stands in the way
/// of.
proof fn lemma_obstacle_is_one(
    answers: AnswersView,
    codex_home: Seq<ComponentView>,
    base: Seq<char>,
    sources: Seq<SourceView>,
) -> (n: int)
    requires
        first_obstacle(answers, codex_home, base, sources) is Some,
    ensures
        0 < n <= sources.len(),
        first_obstacle(answers, codex_home, base, sources) == source_obstacle(
            answers,
            codex_home,
            base,
            sources.take(n),
        ),
    decreases sources.len(),
{
    if first_obstacle(answers, codex_home, base, sources.drop_last()) is Some {
        let n = lemma_obstacle_is_one(answers, codex_home, base, sources.drop_last());
        assert(sources.drop_last().take(n) =~= sources.take(n));
        n
    } else {
        assert(sources.take(sources.len() as int) =~= sources);
        sources.len() as int
    }
}

/// A merge is refused for a thread named twice only where one is, and for one
/// that is no descendant of the base only where one is none.
pub proof fn lemma_merge_refused_for_cause(
    answers: AnswersView,
    base_thread_id: Seq<char>,
    base_path: PathView,
    sources: Seq<SourceView>,
)
    ensures
        merged_rollout(answers, base_thread_id, base_path, sources) matches Err(
            HaltView::Rejected(InvalidRequestView::DuplicateMergeSource { thread_id }),
        ) ==> exists|i: int, j: int|
            0 <= i < j < sources.len() && (#[trigger] sources[i]).thread_id == thread_id && (
            #[trigger] sources[j]).thread_id == thread_id,
        merged_rollout(answers, base_thread_id, base_path, sources) matches Err(
            HaltView::Rejected(
                InvalidRequestView::NotDescendant { thread_id, base_thread_id: named },
            ),
        ) ==> named == base_thread_id && exists|i: int|
            0 <= i < sources.len() && (#[trigger] sources[i]).thread_id == thread_id
                && !has_ancestor(
                answers,
                codex_home(base_path)->Ok_0,
                sources[i].path,
                base_thread_id,
            ),
{
    if let Ok(home) = codex_home(base_path) {
        if first_obstacle(answers, home, base_thread_id, sources) is Some {
            let n = lemma_obstacle_is_one(answers, home, base_thread_id, sources);
            let upto = sources.take(n);
            assert(upto.last() == sources[n - 1]);
            let ids = upto.drop_last().map_values(|s: SourceView| s.thread_id);
            if ids.contains(upto.last().thread_id) {
                let i = choose|i: int| 0 <= i < ids.len() && ids[i] == upto.last().thread_id;
                assert(sources[i].thread_id == upto.last().thread_id);
            }
        }
    }
}

} // verus!
