//! How each item of a rollout changes the turns in effect, told by what the
//! item is and by what stands before it.

use vstd::prelude::*;

use crate::answers::{AnswersView, RequestView};
use crate::protocol::{CompactedView, EventView, ItemView, ResponseView};
use crate::turns::{compacted_history, scan, turns_in, turns_of, TurnView};

verus! {

/// Whether an item is a message of the user.
pub open spec fn is_user_message(item: ItemView) -> bool {
    item matches ItemView::ResponseItem(response) && response.user_message
}

/// Whether an item takes back turns.
pub open spec fn is_rollback(item: ItemView) -> bool {
    item matches ItemView::EventMsg(EventView::ThreadRolledBack { .. })
}

/// Whether `m` is the index of the last item that is a message of the user, a
/// compaction or a rollback; it is -1 where there is none.
pub open spec fn turning_point(items: Seq<ItemView>, m: int) -> bool {
    &&& -1 <= m < items.len()
    &&& m >= 0 ==> is_user_message(items[m]) || items[m] is Compacted || is_rollback(items[m])
    &&& forall|i: int|
        m < i < items.len() ==> !is_user_message(#[trigger] items[i]) && !(items[i] is Compacted)
            && !is_rollback(items[i])
}

/// Every rollout has its last turning point.
pub proof fn lemma_turning_point(items: Seq<ItemView>) -> (m: int)
    ensures
        turning_point(items, m),
    decreases items.len(),
{
    if items.len() == 0 {
        -1
    } else {
        let last = items.len() - 1;
        if is_user_message(items[last]) || items[last] is Compacted || is_rollback(items[last]) {
            last
        } else {
            let rest = items.drop_last();
            let m = lemma_turning_point(rest);
            assert forall|i: int| m < i < items.len() implies !is_user_message(#[trigger] items[i])
                && !(items[i] is Compacted) && !is_rollback(items[i]) by {
                if i < last {
                    assert(rest[i] == items[i]);
                }
            }
            m
        }
    }
}

/// Whether a turn whose message comes right behind `items` starts at `start`:
/// at a compaction that was the last turning point; right at the message behind
/// a turn; and else at the first context of a turn since, if there is one.
pub open spec fn starts_at(items: Seq<ItemView>, m: int, start: int) -> bool {
    if m >= 0 && items[m] is Compacted {
        start == m
    } else if m >= 0 && is_user_message(items[m]) {
        start == items.len()
    } else {
        &&& m < start <= items.len()
        &&& start < items.len() ==> items[start] is TurnContext
        &&& forall|i: int| m < i < start ==> !((#[trigger] items[i]) is TurnContext)
    }
}

/// How the state of a playback follows from the last turning point.
proof fn lemma_state(answers: AnswersView, items: Seq<ItemView>, m: int)
    requires
        turning_point(items, m),
        scan(answers, items) is Ok,
    ensures
        ({
            let after = scan(answers, items)->Ok_0;
            &&& after.active is Some <==> m >= 0 && is_user_message(items[m])
            &&& after.active is Some ==> after.pending is None
            &&& after.pending matches Some(idx) ==> idx < items.len()
            &&& starts_at(
                items,
                m,
                match after.pending {
                    None => items.len() as int,
                    Some(idx) => idx as int,
                },
            )
        }),
    decreases items.len(),
{
    if items.len() > 0 {
        let rest = items.drop_last();
        let last = items.len() - 1;
        assert(items[last] == items.last());
        if m == last {
            let k = lemma_turning_point(rest);
            lemma_state(answers, rest, k);
        } else {
            assert(turning_point(rest, m)) by {
                assert forall|i: int| m < i < rest.len() implies !is_user_message(
                    #[trigger] rest[i],
                ) && !(rest[i] is Compacted) && !is_rollback(rest[i]) by {
                    assert(rest[i] == items[i]);
                }
            }
            lemma_state(answers, rest, m);
            let before = scan(answers, rest)->Ok_0;
            let after = scan(answers, items)->Ok_0;
            if m >= 0 {
                assert(rest[m] == items[m]);
            }
            if !(m >= 0 && (items[m] is Compacted || is_user_message(items[m]))) {
                let start = match after.pending {
                    None => items.len() as int,
                    Some(idx) => idx as int,
                };
                let earlier = match before.pending {
                    None => rest.len() as int,
                    Some(idx) => idx as int,
                };
                assert forall|i: int| m < i < start implies !((
                #[trigger] items[i]) is TurnContext) by {
                    if i < last {
                        assert(rest[i] == items[i]);
                        assert(i < earlier);
                    }
                }
                if start < last {
                    assert(rest[start] == items[start]);
                }
            }
        }
    }
}

/// A rollout without items has no turns.
pub proof fn lemma_play_nothing(answers: AnswersView)
    ensures
        turns_of(answers, Seq::empty()) == Ok::<_, RequestView>(Seq::<TurnView>::empty()),
{
}

/// Where the turns cannot be told, they cannot with one item more, for the same
/// reason.
pub proof fn lemma_play_stopped(answers: AnswersView, items: Seq<ItemView>, item: ItemView)
    ensures
        turns_of(answers, items) matches Err(request) ==> turns_of(answers, items.push(item))
            == Err::<Seq<TurnView>, _>(request),
{
    assert(items.push(item).drop_last() =~= items);
}

/// A message of the user opens a turn that holds just it. Where the turn starts
/// is told by what came since the last turning point.
pub proof fn lemma_play_user_message(
    answers: AnswersView,
    items: Seq<ItemView>,
    response: ResponseView,
    m: int,
)
    requires
        response.user_message,
        turning_point(items, m),
        turns_of(answers, items) is Ok,
    ensures
        turns_of(answers, items.push(ItemView::ResponseItem(response))) matches Ok(turns) && {
            let before = turns_of(answers, items)->Ok_0;
            &&& turns.len() == before.len() + 1
            &&& turns.drop_last() == before
            &&& turns.last().signature == seq![response]
            &&& starts_at(items, m, turns.last().start_idx as int)
        },
{
    let item = ItemView::ResponseItem(response);
    assert(items.push(item).drop_last() =~= items);
    lemma_state(answers, items, m);
    let before = turns_of(answers, items)->Ok_0;
    let turns = turns_of(answers, items.push(item))->Ok_0;
    assert(turns.drop_last() =~= before);
}

/// Any other item of the conversation goes to the end of the last turn, where
/// the last turning point was the message that opened it, and nowhere else.
pub proof fn lemma_play_answer(
    answers: AnswersView,
    items: Seq<ItemView>,
    response: ResponseView,
    m: int,
)
    requires
        !response.user_message,
        turning_point(items, m),
        turns_of(answers, items) is Ok,
    ensures
        turns_of(answers, items.push(ItemView::ResponseItem(response))) matches Ok(turns) && {
            let before = turns_of(answers, items)->Ok_0;
            if m >= 0 && is_user_message(items[m]) {
                &&& before.len() > 0
                &&& turns.len() == before.len()
                &&& turns.drop_last() == before.drop_last()
                &&& turns.last().start_idx == before.last().start_idx
                &&& turns.last().signature == before.last().signature.push(response)
            } else {
                turns == before
            }
        },
{
    let item = ItemView::ResponseItem(response);
    assert(items.push(item).drop_last() =~= items);
    lemma_state(answers, items, m);
    let before = turns_of(answers, items)->Ok_0;
    let turns = turns_of(answers, items.push(item))->Ok_0;
    if m >= 0 && is_user_message(items[m]) {
        assert(turns.drop_last() =~= before.drop_last());
    }
}

/// A rollback takes back the last turns, as many as it says, or all where there
/// are fewer.
pub proof fn lemma_play_rollback(answers: AnswersView, items: Seq<ItemView>, num_turns: nat)
    requires
        turns_of(answers, items) is Ok,
    ensures
        turns_of(
            answers,
            items.push(ItemView::EventMsg(EventView::ThreadRolledBack { num_turns })),
        ) matches Ok(turns) && {
            let before = turns_of(answers, items)->Ok_0;
            &&& turns.is_prefix_of(before)
            &&& num_turns <= before.len() ==> turns.len() + num_turns == before.len()
            &&& num_turns > before.len() ==> turns.len() == 0
        },
{
    let item = ItemView::EventMsg(EventView::ThreadRolledBack { num_turns });
    assert(items.push(item).drop_last() =~= items);
}

/// A compaction that records its replacement leaves the turns of that, all of
/// them starting at the compaction.
pub proof fn lemma_play_recorded_compaction(
    answers: AnswersView,
    items: Seq<ItemView>,
    compacted: CompactedView,
)
    requires
        turns_of(answers, items) is Ok,
        compacted.replacement_history is Some,
    ensures
        turns_of(answers, items.push(ItemView::Compacted(compacted))) == Ok::<_, RequestView>(
            turns_in(compacted.replacement_history->0, items.len()),
        ),
{
    assert(items.push(ItemView::Compacted(compacted)).drop_last() =~= items);
}

/// One that does not leaves the turns of what is built from its summary and the
/// messages of the user in all that was said in the turns before it. Where
/// these, or what is built from them, are not known, they are asked for.
pub proof fn lemma_play_unrecorded_compaction(
    answers: AnswersView,
    items: Seq<ItemView>,
    compacted: CompactedView,
    all_said: Seq<ResponseView>,
)
    requires
        turns_of(answers, items) is Ok,
        compacted.replacement_history is None,
        all_said == turns_of(answers, items)->Ok_0.map_values(
            |turn: TurnView| turn.signature,
        ).flatten(),
    ensures
        ({
            let result = turns_of(answers, items.push(ItemView::Compacted(compacted)));
            if !answers.user_messages.contains_key(all_said) {
                result == Err::<Seq<TurnView>, _>(RequestView::UserMessages { history: all_said })
            } else {
                let user_messages = answers.user_messages[all_said];
                if !answers.compacted_histories.contains_key((user_messages, compacted.message)) {
                    result == Err::<Seq<TurnView>, _>(
                        RequestView::CompactedHistory {
                            user_messages,
                            message: compacted.message,
                        },
                    )
                } else {
                    result == Ok::<_, RequestView>(
                        turns_in(
                            answers.compacted_histories[(user_messages, compacted.message)],
                            items.len(),
                        ),
                    )
                }
            }
        }),
{
    assert(items.push(ItemView::Compacted(compacted)).drop_last() =~= items);
}

/// What takes the place of any turns at a compaction: what it records; or else
/// what is known to be built from its summary and the messages of the user that
/// are known to be in all that was said in the turns.
pub proof fn lemma_replacement(
    answers: AnswersView,
    turns: Seq<TurnView>,
    compacted: CompactedView,
    all_said: Seq<ResponseView>,
)
    requires
        all_said == turns.map_values(|turn: TurnView| turn.signature).flatten(),
    ensures
        compacted.replacement_history is Some ==> compacted_history(answers, turns, compacted)
            == Ok::<_, RequestView>(compacted.replacement_history->0),
        compacted.replacement_history is None && !answers.user_messages.contains_key(all_said)
            ==> compacted_history(answers, turns, compacted) == Err::<Seq<ResponseView>, _>(
            RequestView::UserMessages { history: all_said },
        ),
        compacted.replacement_history is None && answers.user_messages.contains_key(all_said) ==> {
            let key = (answers.user_messages[all_said], compacted.message);
            &&& answers.compacted_histories.contains_key(key) ==> compacted_history(
                answers,
                turns,
                compacted,
            ) == Ok::<_, RequestView>(answers.compacted_histories[key])
            &&& !answers.compacted_histories.contains_key(key) ==> compacted_history(
                answers,
                turns,
                compacted,
            ) == Err::<Seq<ResponseView>, _>(
                RequestView::CompactedHistory { user_messages: key.0, message: key.1 },
            )
        },
{
}

/// No other item changes the turns.
pub proof fn lemma_play_other(answers: AnswersView, items: Seq<ItemView>, item: ItemView)
    requires
        !(item is ResponseItem),
        !(item is Compacted),
        !is_rollback(item),
    ensures
        turns_of(answers, items.push(item)) == turns_of(answers, items),
{
    assert(items.push(item).drop_last() =~= items);
}

/// A conversation without a message of the user has no turns.
pub proof fn lemma_conversation_without_user(items: Seq<ResponseView>, start_idx: nat)
    requires
        forall|i: int| 0 <= i < items.len() ==> !(#[trigger] items[i]).user_message,
    ensures
        turns_in(items, start_idx) == Seq::<TurnView>::empty(),
    decreases items.len(),
{
    if items.len() > 0 {
        let rest = items.drop_last();
        assert(!items[items.len() - 1].user_message);
        assert forall|i: int| 0 <= i < rest.len() implies !(#[trigger] rest[i]).user_message by {
            assert(!items[i].user_message);
        }
        lemma_conversation_without_user(rest, start_idx);
    }
}

/// The last message of the user in a conversation, with all that follows it, is
/// its last turn; what comes before makes up the others.
pub proof fn lemma_conversation_last_turn(items: Seq<ResponseView>, start_idx: nat, k: int)
    requires
        0 <= k < items.len(),
        items[k].user_message,
        forall|i: int| k < i < items.len() ==> !(#[trigger] items[i]).user_message,
    ensures
        ({
            let turns = turns_in(items, start_idx);
            &&& turns.len() > 0
            &&& turns.drop_last() == turns_in(items.take(k), start_idx)
            &&& turns.last().start_idx == start_idx
            &&& turns.last().signature == items.skip(k)
        }),
    decreases items.len(),
{
    let rest = items.drop_last();
    let turns = turns_in(items, start_idx);
    if k == items.len() - 1 {
        assert(rest =~= items.take(k));
        assert(turns.drop_last() =~= turns_in(rest, start_idx));
        assert(items.skip(k) =~= seq![items.last()]);
    } else {
        assert(!items[items.len() - 1].user_message);
        assert forall|i: int| k < i < rest.len() implies !(#[trigger] rest[i]).user_message by {
            assert(!items[i].user_message);
        }
        lemma_conversation_last_turn(rest, start_idx, k);
        assert(rest.take(k) =~= items.take(k));
        assert(turns.drop_last() =~= turns_in(rest, start_idx).drop_last());
        assert(items.skip(k) =~= rest.skip(k).push(items.last()));
    }
}

} // verus!
