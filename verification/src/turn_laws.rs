//! What holds of the turns in effect, whatever the rollout.

use vstd::prelude::*;

use crate::answers::{AnswersView, RequestView};
use crate::protocol::{CompactedView, EventView, ItemView, ResponseView};
use crate::thread_merge::{ends_turn, is_boundary, without_boundaries};
use crate::turns::{
    compacted_history, conversation, rolled_back, scan, turns_in, turns_of, ScanView, TurnView,
};

verus! {

/// What is said in `turns`, wherever they start.
pub open spec fn signatures(turns: Seq<TurnView>) -> Seq<Seq<ResponseView>> {
    turns.map_values(|turn: TurnView| turn.signature)
}

/// Whether two states differ in nothing but where turns start.
pub open spec fn alike(a: ScanView, b: ScanView) -> bool {
    &&& signatures(a.turns) == signatures(b.turns)
    &&& match (a.active, b.active) {
        (None, None) => true,
        (Some(x), Some(y)) => x.signature == y.signature,
        _ => false,
    }
}

/// Whether two playbacks come out alike, or stop at the same request.
pub open spec fn end_alike(
    a: Result<ScanView, RequestView>,
    b: Result<ScanView, RequestView>,
) -> bool {
    match (a, b) {
        (Ok(x), Ok(y)) => alike(x, y),
        (Err(p), Err(q)) => p == q,
        _ => false,
    }
}

/// In states that are alike the same has been said.
proof fn lemma_alike_all_turns(a: ScanView, b: ScanView)
    requires
        alike(a, b),
    ensures
        signatures(a.all_turns()) == signatures(b.all_turns()),
        a.all_turns().len() == b.all_turns().len(),
        conversation(a.all_turns()) == conversation(b.all_turns()),
{
    assert(signatures(a.turns).len() == signatures(b.turns).len());
    assert forall|i: int| 0 <= i < a.all_turns().len() implies #[trigger] signatures(
        a.all_turns(),
    )[i] == signatures(b.all_turns())[i] by {
        if i < a.turns.len() {
            assert(signatures(a.turns)[i] == signatures(b.turns)[i]);
        }
    }
    assert(signatures(a.all_turns()) =~= signatures(b.all_turns()));
}

/// What is said in the turns of a plain conversation does not depend on where
/// they are said to start.
pub proof fn lemma_turns_in_anywhere(items: Seq<ResponseView>, i: nat, j: nat)
    ensures
        signatures(turns_in(items, i)) == signatures(turns_in(items, j)),
    decreases items.len(),
{
    if items.len() > 0 {
        lemma_turns_in_anywhere(items.drop_last(), i, j);
        let a = turns_in(items.drop_last(), i);
        let b = turns_in(items.drop_last(), j);
        assert(signatures(a).len() == signatures(b).len());
        if a.len() > 0 {
            assert(signatures(a)[a.len() - 1] == signatures(b)[a.len() - 1]);
        }
        assert forall|k: int| 0 <= k < turns_in(items, i).len() implies #[trigger] signatures(
            turns_in(items, i),
        )[k] == signatures(turns_in(items, j))[k] by {
            if k < a.len() {
                assert(signatures(a)[k] == signatures(b)[k]);
            }
        }
        assert(signatures(turns_in(items, i)) =~= signatures(turns_in(items, j)));
    }
}

/// Taking back turns takes back what was said in them.
pub proof fn lemma_rolled_back_signatures(turns: Seq<TurnView>, num_turns: nat)
    ensures
        signatures(rolled_back(turns, num_turns)) == signatures(turns).take(
            if num_turns < turns.len() {
                turns.len() - num_turns
            } else {
                0
            },
        ),
{
    assert(signatures(rolled_back(turns, num_turns)) =~= signatures(turns).take(
        if num_turns < turns.len() {
            turns.len() - num_turns
        } else {
            0
        },
    ));
}

/// The same item keeps alike states alike, wherever it stands.
proof fn lemma_advance_alike(
    answers: AnswersView,
    a: ScanView,
    b: ScanView,
    item: ItemView,
    i: nat,
    j: nat,
)
    requires
        alike(a, b),
    ensures
        end_alike(a.advance(answers, item, i), b.advance(answers, item, j)),
{
    lemma_alike_all_turns(a, b);
    match item {
        ItemView::Compacted(compacted) => {
            if let Ok(history) = compacted_history(answers, a.all_turns(), compacted) {
                lemma_turns_in_anywhere(history, i, j);
            }
        },
        ItemView::EventMsg(EventView::ThreadRolledBack { num_turns }) => {
            lemma_rolled_back_signatures(a.all_turns(), num_turns);
            lemma_rolled_back_signatures(b.all_turns(), num_turns);
        },
        _ => {},
    }
}

/// An item that ends the turn under way makes states alike in which the same
/// has been said.
pub proof fn lemma_ending_alike(
    answers: AnswersView,
    a: ScanView,
    b: ScanView,
    item: ItemView,
    i: nat,
    j: nat,
)
    requires
        signatures(a.all_turns()) == signatures(b.all_turns()),
        ends_turn(item),
    ensures
        end_alike(a.advance(answers, item, i), b.advance(answers, item, j)),
{
    assert(signatures(a.all_turns()).len() == signatures(b.all_turns()).len());
    match item {
        ItemView::Compacted(compacted) => {
            if let Ok(history) = compacted_history(answers, a.all_turns(), compacted) {
                lemma_turns_in_anywhere(history, i, j);
            }
        },
        ItemView::EventMsg(EventView::ThreadRolledBack { num_turns }) => {
            lemma_rolled_back_signatures(a.all_turns(), num_turns);
            lemma_rolled_back_signatures(b.all_turns(), num_turns);
        },
        _ => {},
    }
}

/// The same items behind alike beginnings end alike, with the marks between
/// items of different threads or without.
pub proof fn lemma_same_tail(
    answers: AnswersView,
    a: Seq<ItemView>,
    b: Seq<ItemView>,
    tail: Seq<ItemView>,
)
    requires
        end_alike(scan(answers, a), scan(answers, b)),
    ensures
        end_alike(scan(answers, a + without_boundaries(tail)), scan(answers, b + tail)),
    decreases tail.len(),
{
    reveal(Seq::filter);
    if tail.len() == 0 {
        assert(a + without_boundaries(tail) =~= a);
        assert(b + tail =~= b);
    } else {
        lemma_same_tail(answers, a, b, tail.drop_last());
        let rest = without_boundaries(tail.drop_last());
        assert((b + tail).drop_last() =~= b + tail.drop_last());
        if is_boundary(tail.last()) {
            assert(without_boundaries(tail) == rest);
        } else {
            assert(without_boundaries(tail) == rest.push(tail.last()));
            assert((a + without_boundaries(tail)).drop_last() =~= a + rest);
            if let Ok(x) = scan(answers, a + rest) {
                let y = scan(answers, b + tail.drop_last())->Ok_0;
                lemma_advance_alike(
                    answers,
                    x,
                    y,
                    tail.last(),
                    (a + rest).len(),
                    (b + tail.drop_last()).len(),
                );
            }
        }
    }
}

/// Whether an item changes nothing of what was said: session metadata, the
/// context of a turn, a mark between items of different threads, or an event
/// that takes back no turns.
pub open spec fn is_silent(item: ItemView) -> bool {
    match item {
        ItemView::Compacted(_) => false,
        ItemView::ResponseItem(_) => false,
        ItemView::EventMsg(EventView::ThreadRolledBack { .. }) => false,
        _ => true,
    }
}

/// `items` without those that change nothing of what was said.
pub open spec fn without_silent(items: Seq<ItemView>) -> Seq<ItemView> {
    items.filter(|item: ItemView| !is_silent(item))
}

/// A playback ends alike with the silent items or without.
proof fn lemma_silent_end_alike(answers: AnswersView, items: Seq<ItemView>)
    ensures
        end_alike(scan(answers, without_silent(items)), scan(answers, items)),
    decreases items.len(),
{
    reveal(Seq::filter);
    if items.len() > 0 {
        let item = items.last();
        let rest = items.drop_last();
        let kept = without_silent(rest);
        lemma_silent_end_alike(answers, rest);
        if !is_silent(item) {
            assert(without_silent(items) == kept.push(item));
            assert(kept.push(item).drop_last() =~= kept);
            if let Ok(x) = scan(answers, kept) {
                let y = scan(answers, rest)->Ok_0;
                lemma_advance_alike(answers, x, y, item, kept.len(), rest.len());
            }
        } else {
            assert(without_silent(items) == kept);
        }
    }
}

/// Leaving out session metadata, contexts of turns, marks, and events that take
/// back no turns changes nothing of what is said in the turns in effect, nor
/// what is asked for where they cannot be told.
pub proof fn lemma_silent_items(answers: AnswersView, items: Seq<ItemView>)
    ensures
        match (turns_of(answers, without_silent(items)), turns_of(answers, items)) {
            (Ok(kept), Ok(all)) => signatures(kept) == signatures(all),
            (Err(kept), Err(all)) => kept == all,
            _ => false,
        },
{
    lemma_silent_end_alike(answers, items);
    if scan(answers, items) is Ok {
        lemma_end_alike_turns(answers, without_silent(items), items);
    }
}

/// Playbacks that end alike have the same said in the end.
pub proof fn lemma_end_alike_turns(
    answers: AnswersView,
    a: Seq<ItemView>,
    b: Seq<ItemView>,
)
    requires
        end_alike(scan(answers, a), scan(answers, b)),
        scan(answers, b) is Ok,
    ensures
        turns_of(answers, a) is Ok,
        turns_of(answers, b) is Ok,
        signatures(turns_of(answers, a)->Ok_0) == signatures(turns_of(answers, b)->Ok_0),
{
    lemma_alike_all_turns(scan(answers, a)->Ok_0, scan(answers, b)->Ok_0);
}

/// A rollback takes back the last turns, as many as it says.
pub proof fn lemma_rollback(answers: AnswersView, items: Seq<ItemView>, num_turns: nat)
    ensures
        turns_of(
            answers,
            items.push(ItemView::EventMsg(EventView::ThreadRolledBack { num_turns })),
        ) == (match turns_of(answers, items) {
            Err(request) => Err(request),
            Ok(turns) => Ok(rolled_back(turns, num_turns)),
        }),
{
    let item = ItemView::EventMsg(EventView::ThreadRolledBack { num_turns });
    assert(items.push(item).drop_last() =~= items);
}

/// A compaction whose replacement is recorded leaves nothing of what came
/// before it.
pub proof fn lemma_compaction(answers: AnswersView, items: Seq<ItemView>, compacted: CompactedView)
    requires
        scan(answers, items) is Ok,
        compacted.replacement_history is Some,
    ensures
        turns_of(answers, items.push(ItemView::Compacted(compacted))) == Ok::<_, RequestView>(
            turns_in(compacted.replacement_history->0, items.len()),
        ),
{
    assert(items.push(ItemView::Compacted(compacted)).drop_last() =~= items);
}

/// What takes the place of turns at a compaction depends on them through the
/// messages of the user alone.
pub proof fn lemma_compaction_by_user_messages(
    answers: AnswersView,
    a: Seq<TurnView>,
    b: Seq<TurnView>,
    compacted: CompactedView,
)
    requires
        answers.user_messages.contains_key(conversation(a)),
        answers.user_messages.contains_key(conversation(b)),
        answers.user_messages[conversation(a)] == answers.user_messages[conversation(b)],
    ensures
        compacted_history(answers, a, compacted) == compacted_history(answers, b, compacted),
{
}

/// Whether an item takes back turns or replaces them.
pub open spec fn rewrites(item: ItemView) -> bool {
    item is Compacted || item matches ItemView::EventMsg(EventView::ThreadRolledBack { .. })
}

/// Whether nothing in `items` takes back turns or replaces them.
pub open spec fn plain(items: Seq<ItemView>) -> bool {
    forall|i: int| 0 <= i < items.len() ==> !rewrites(#[trigger] items[i])
}

/// Plain items stay plain without the last one.
pub proof fn lemma_plain_drop_last(items: Seq<ItemView>)
    requires
        plain(items),
        items.len() > 0,
    ensures
        plain(items.drop_last()),
        !rewrites(items.last()),
{
    let rest = items.drop_last();
    assert forall|i: int| 0 <= i < rest.len() implies !rewrites(#[trigger] rest[i]) by {
        assert(!rewrites(items[i]));
    }
    assert(!rewrites(items[items.len() - 1]));
}

/// All that is said in `items`.
pub open spec fn said(items: Seq<ItemView>) -> Seq<ResponseView>
    decreases items.len(),
{
    if items.len() == 0 {
        Seq::empty()
    } else {
        match items.last() {
            ItemView::ResponseItem(response) => said(items.drop_last()).push(response),
            _ => said(items.drop_last()),
        }
    }
}

/// Whether an item is a message of the user.
pub open spec fn opens_turn(item: ItemView) -> bool {
    match item {
        ItemView::ResponseItem(response) => response.user_message,
        _ => false,
    }
}

/// Whether a conversation opens with a message of the user, if with anything.
pub open spec fn opens_with_turn(conversation: Seq<ResponseView>) -> bool {
    conversation.len() > 0 ==> conversation[0].user_message
}

/// A conversation that opens with a message of the user has a turn.
proof fn lemma_has_turn(conversation: Seq<ResponseView>)
    requires
        conversation.len() > 0,
        conversation[0].user_message,
    ensures
        turns_in(conversation, 0).len() > 0,
    decreases conversation.len(),
{
    if conversation.len() > 1 {
        lemma_has_turn(conversation.drop_last());
    }
}

/// What is said in two parts is what is said in the first and then the second.
pub proof fn lemma_said_append(a: Seq<ItemView>, b: Seq<ItemView>)
    ensures
        said(a + b) == said(a) + said(b),
    decreases b.len(),
{
    if b.len() == 0 {
        assert(a + b =~= a);
        assert(said(a) + said(b) =~= said(a));
    } else {
        lemma_said_append(a, b.drop_last());
        assert((a + b).drop_last() =~= a + b.drop_last());
        assert(said(a + b) =~= said(a) + said(b));
    }
}

/// The marks between items of different threads say nothing.
pub proof fn lemma_said_without_boundaries(items: Seq<ItemView>)
    ensures
        said(without_boundaries(items)) == said(items),
    decreases items.len(),
{
    reveal(Seq::filter);
    if items.len() > 0 {
        lemma_said_without_boundaries(items.drop_last());
        let rest = without_boundaries(items.drop_last());
        if !is_boundary(items.last()) {
            assert(without_boundaries(items) == rest.push(items.last()));
            assert(rest.push(items.last()).drop_last() =~= rest);
        }
    }
}

/// Plain items stay plain without the marks between those of different threads.
pub proof fn lemma_plain_without_boundaries(items: Seq<ItemView>)
    requires
        plain(items),
    ensures
        plain(without_boundaries(items)),
    decreases items.len(),
{
    reveal(Seq::filter);
    if items.len() > 0 {
        lemma_plain_drop_last(items);
        lemma_plain_without_boundaries(items.drop_last());
    }
}

/// Plain items behind a rollout add their turns to its own, where they open
/// with a message of the user, or where no turn is under way that could take
/// up what comes before it.
pub proof fn lemma_plain_tail(answers: AnswersView, items: Seq<ItemView>, tail: Seq<ItemView>)
    requires
        scan(answers, items) is Ok,
        plain(tail),
        opens_with_turn(said(tail)) || scan(answers, items)->Ok_0.active is None,
    ensures
        scan(answers, items + tail) is Ok,
        signatures(scan(answers, items + tail)->Ok_0.all_turns()) == signatures(
            scan(answers, items)->Ok_0.all_turns(),
        ) + signatures(turns_in(said(tail), 0)),
        turns_in(said(tail), 0).len() > 0 ==> scan(answers, items + tail)->Ok_0.active is Some,
        turns_in(said(tail), 0).len() == 0 ==> (scan(answers, items + tail)->Ok_0.active is Some
            <==> scan(answers, items)->Ok_0.active is Some),
    decreases tail.len(),
{
    let before = scan(answers, items)->Ok_0;
    if tail.len() == 0 {
        assert(items + tail =~= items);
        assert(signatures(before.all_turns()) + signatures(turns_in(said(tail), 0)) =~= signatures(
            before.all_turns(),
        ));
    } else {
        let rest = tail.drop_last();
        let item = tail.last();
        lemma_plain_drop_last(tail);
        assert(opens_with_turn(said(tail)) ==> opens_with_turn(said(rest))) by {
            if said(rest).len() > 0 {
                assert(said(tail)[0] == said(rest)[0]);
            }
        }
        lemma_plain_tail(answers, items, rest);
        assert((items + tail).drop_last() =~= items + rest);
        let mid = scan(answers, items + rest)->Ok_0;
        let after = scan(answers, items + tail)->Ok_0;
        let old_turns = turns_in(said(rest), 0);
        let new_turns = turns_in(said(tail), 0);
        match item {
            ItemView::ResponseItem(response) => {
                assert(said(tail).drop_last() =~= said(rest));
                if response.user_message {
                    assert(signatures(after.all_turns()) =~= signatures(mid.all_turns()).push(
                        seq![response],
                    ));
                    assert(signatures(new_turns) =~= signatures(old_turns).push(seq![response]));
                } else if old_turns.len() > 0 {
                    let n = mid.all_turns().len();
                    assert(signatures(mid.all_turns())[n - 1] == signatures(
                        old_turns,
                    )[old_turns.len() - 1]);
                    assert(signatures(after.all_turns()) =~= signatures(mid.all_turns()).update(
                        n - 1,
                        mid.active->0.signature.push(response),
                    ));
                    assert(signatures(new_turns) =~= signatures(old_turns).update(
                        old_turns.len() - 1,
                        mid.active->0.signature.push(response),
                    ));
                } else {
                    if opens_with_turn(said(tail)) {
                        if said(rest).len() > 0 {
                            lemma_has_turn(said(rest));
                        }
                        assert(said(tail)[0] == response);
                    }
                    assert(mid.active is None);
                }
            },
            _ => {},
        }
        assert(signatures(after.all_turns()) =~= signatures(before.all_turns()) + signatures(
            new_turns,
        ));
    }
}

/// The turns of a conversation in two parts, from the first turn on that opens
/// in the second part, are those of the second part.
pub proof fn lemma_turns_in_second_part(a: Seq<ResponseView>, b: Seq<ResponseView>)
    ensures
        turns_in(a + b, 0).len() == turns_in(a, 0).len() + turns_in(b, 0).len(),
        signatures(turns_in(a + b, 0)).skip(turns_in(a, 0).len() as int) == signatures(
            turns_in(b, 0),
        ),
    decreases b.len(),
{
    let k = turns_in(a, 0).len() as int;
    if b.len() == 0 {
        assert(a + b =~= a);
        assert(signatures(turns_in(a, 0)).skip(k) =~= signatures(turns_in(b, 0)));
    } else {
        lemma_turns_in_second_part(a, b.drop_last());
        assert((a + b).drop_last() =~= a + b.drop_last());
        let old_all = turns_in(a + b.drop_last(), 0);
        let old_part = turns_in(b.drop_last(), 0);
        let new_all = turns_in(a + b, 0);
        let new_part = turns_in(b, 0);
        assert forall|i: int| 0 <= i < new_part.len() implies signatures(new_all).skip(k)[i]
            == #[trigger] signatures(new_part)[i] by {
            if i < old_part.len() {
                assert(signatures(old_all).skip(k)[i] == signatures(old_part)[i]);
            }
        }
        assert(signatures(new_all).skip(k) =~= signatures(new_part));
    }
}

/// Where the turns of a plain rollout start: each start lies behind as many
/// turns as come before it. All but the first start at their own message.
pub proof fn lemma_plain_starts(answers: AnswersView, items: Seq<ItemView>)
    requires
        plain(items),
    ensures
        scan(answers, items) matches Ok(after) && {
            &&& signatures(after.all_turns()) == signatures(turns_in(said(items), 0))
            &&& after.active is Some <==> after.all_turns().len() > 0
            &&& after.pending matches Some(idx) ==> idx <= items.len() && turns_in(
                said(items.take(idx as int)),
                0,
            ).len() == 0 && after.all_turns().len() == 0
            &&& forall|k: int|
                0 <= k < after.all_turns().len() ==> {
                    let start_idx = (#[trigger] after.all_turns()[k]).start_idx;
                    &&& start_idx < items.len()
                    &&& turns_in(said(items.take(start_idx as int)), 0).len() == k
                    &&& k > 0 ==> opens_turn(items[start_idx as int])
                }
        },
    decreases items.len(),
{
    if items.len() == 0 {
        assert(signatures(ScanView::start().all_turns()) =~= signatures(turns_in(said(items), 0)));
    } else {
        let rest = items.drop_last();
        let idx = (items.len() - 1) as nat;
        lemma_plain_drop_last(items);
        lemma_plain_starts(answers, rest);
        let before = scan(answers, rest)->Ok_0;
        let after = scan(answers, items)->Ok_0;
        lemma_plain_tail(answers, Seq::empty(), items);
        assert(Seq::<ItemView>::empty() + items =~= items);
        assert(signatures(ScanView::start().all_turns()) + signatures(turns_in(said(items), 0))
            =~= signatures(turns_in(said(items), 0)));
        assert(items.take(idx as int) =~= rest);
        assert(signatures(before.all_turns()).len() == turns_in(said(rest), 0).len());
        if let Some(p) = before.pending {
            assert(rest.take(p as int) =~= items.take(p as int));
        }
        assert forall|k: int| 0 <= k < after.all_turns().len() implies {
            let start_idx = (#[trigger] after.all_turns()[k]).start_idx;
            &&& start_idx < items.len()
            &&& turns_in(said(items.take(start_idx as int)), 0).len() == k
            &&& k > 0 ==> opens_turn(items[start_idx as int])
        } by {
            if k < before.all_turns().len() {
                let start_idx = before.all_turns()[k].start_idx;
                assert(after.all_turns()[k].start_idx == start_idx);
                assert(rest.take(start_idx as int) =~= items.take(start_idx as int));
                assert(rest[start_idx as int] == items[start_idx as int]);
            } else {
                assert(opens_turn(items.last()));
            }
        }
    }
}

/// Whether a turn opens with a message of the user, and holds no other.
pub open spec fn is_turn(signature: Seq<ResponseView>) -> bool {
    &&& signature.len() > 0
    &&& signature[0].user_message
    &&& forall|i: int| 0 < i < signature.len() ==> !(#[trigger] signature[i]).user_message
}

/// Whether all turns open with a message of the user, and hold no other.
pub open spec fn all_are_turns(turns: Seq<TurnView>) -> bool {
    forall|i: int| 0 <= i < turns.len() ==> is_turn((#[trigger] turns[i]).signature)
}

/// The turns of a plain conversation are turns.
pub proof fn lemma_turns_in_are_turns(items: Seq<ResponseView>, start_idx: nat)
    ensures
        all_are_turns(turns_in(items, start_idx)),
    decreases items.len(),
{
    if items.len() > 0 {
        lemma_turns_in_are_turns(items.drop_last(), start_idx);
        let before = turns_in(items.drop_last(), start_idx);
        let after = turns_in(items, start_idx);
        assert forall|i: int| 0 <= i < after.len() implies is_turn(
            (#[trigger] after[i]).signature,
        ) by {
            if i < before.len() {
                assert(is_turn(before[i].signature));
            }
        }
    }
}

/// The turns in effect are turns, whatever was compacted or taken back.
pub proof fn lemma_effective_turns_are_turns(answers: AnswersView, items: Seq<ItemView>)
    ensures
        scan(answers, items) matches Ok(after) ==> all_are_turns(after.all_turns()),
    decreases items.len(),
{
    if items.len() > 0 && scan(answers, items) is Ok {
        lemma_effective_turns_are_turns(answers, items.drop_last());
        let before = scan(answers, items.drop_last())->Ok_0;
        let after = scan(answers, items)->Ok_0;
        match items.last() {
            ItemView::Compacted(compacted) => {
                let history = compacted_history(answers, before.all_turns(), compacted)->Ok_0;
                lemma_turns_in_are_turns(history, (items.len() - 1) as nat);
            },
            _ => {
                assert forall|i: int| 0 <= i < after.all_turns().len() implies is_turn(
                    (#[trigger] after.all_turns()[i]).signature,
                ) by {
                    if i < before.all_turns().len() {
                        assert(is_turn(before.all_turns()[i].signature));
                    }
                }
            },
        }
    }
}

/// Nothing is lost: the turns of a conversation that opens with a message of
/// the user make it up again.
pub proof fn lemma_turns_make_up_conversation(items: Seq<ResponseView>, start_idx: nat)
    requires
        opens_with_turn(items),
    ensures
        conversation(turns_in(items, start_idx)) == items,
    decreases items.len(),
{
    let after = turns_in(items, start_idx);
    if items.len() == 0 {
        assert(signatures(after).flatten() =~= items);
    } else {
        let rest = items.drop_last();
        let item = items.last();
        let before = turns_in(rest, start_idx);
        lemma_turns_make_up_conversation(rest, start_idx);
        if item.user_message {
            assert(signatures(after) =~= signatures(before).push(seq![item]));
            signatures(before).lemma_flatten_push(seq![item]);
            assert(conversation(before) + seq![item] =~= items);
        } else {
            lemma_has_turn(rest);
            lemma_turns_in_anywhere(rest, start_idx, 0);
            assert(signatures(before).len() == signatures(turns_in(rest, 0)).len());
            let earlier = signatures(before).drop_last();
            let last = before.last().signature;
            assert(signatures(before) =~= earlier.push(last));
            assert(signatures(after) =~= earlier.push(last.push(item)));
            earlier.lemma_flatten_push(last);
            earlier.lemma_flatten_push(last.push(item));
            assert(earlier.flatten() + last.push(item) =~= (earlier.flatten() + last).push(item));
            assert(rest.push(item) =~= items);
        }
    }
}

} // verus!
