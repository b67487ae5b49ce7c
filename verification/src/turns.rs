//! The turns of a conversation that are in effect once all compactions and
//! rollbacks of its rollout have been played back.

use vstd::prelude::*;

use crate::answers::{Answers, AnswersView, Request, RequestView};
use crate::protocol::{
    CompactedItem, CompactedView, EventMsg, EventView, ItemView, ResponseItem, ResponseView,
    RolloutItem,
};
use crate::same_value::{result_view, SameValue};

verus! {

/// A turn: a message of the user, with all that followed it.
#[derive(Debug)]
pub struct EffectiveTurn {
    /// Where in the rollout the turn starts.
    pub start_idx: usize,
    /// The message of the user and the items that followed it.
    pub signature: Vec<ResponseItem>,
}

/// The deep view of an `EffectiveTurn`.
#[verifier::ext_equal]
pub struct TurnView {
    pub start_idx: nat,
    pub signature: Seq<ResponseView>,
}

/// How far a rollout has been played back.
#[derive(Debug)]
pub struct TurnScan {
    /// The turns that later items no longer add to.
    pub turns: Vec<EffectiveTurn>,
    /// The turn that later items add to.
    pub active_turn: Option<EffectiveTurn>,
    /// Where the next turn starts, if before its message.
    pub pending_start_idx: Option<usize>,
}

/// The deep view of a `TurnScan`.
#[verifier::ext_equal]
pub struct ScanView {
    pub turns: Seq<TurnView>,
    pub active: Option<TurnView>,
    pub pending: Option<nat>,
}

impl DeepView for EffectiveTurn {
    type V = TurnView;

    open spec fn deep_view(&self) -> TurnView {
        TurnView { start_idx: self.start_idx as nat, signature: self.signature.deep_view() }
    }
}

impl DeepView for TurnScan {
    type V = ScanView;

    open spec fn deep_view(&self) -> ScanView {
        ScanView {
            turns: self.turns.deep_view(),
            active: self.active_turn.deep_view(),
            pending: match self.pending_start_idx {
                None => None,
                Some(idx) => Some(idx as nat),
            },
        }
    }
}

impl Clone for EffectiveTurn {
    fn clone(&self) -> (result: Self)
        ensures
            result.deep_view() == self.deep_view(),
    {
        let copy = EffectiveTurn { start_idx: self.start_idx, signature: self.signature.clone() };
        assert(copy.deep_view() =~= self.deep_view());
        copy
    }
}

/// The turns of a plain conversation, all of them said to start at
/// `start_idx`: each message of the user opens one, and what comes before the
/// first message belongs to none.
pub open spec fn turns_in(items: Seq<ResponseView>, start_idx: nat) -> Seq<TurnView>
    decreases items.len(),
{
    if items.len() == 0 {
        Seq::empty()
    } else {
        let turns = turns_in(items.drop_last(), start_idx);
        let item = items.last();
        if item.user_message {
            turns.push(TurnView { start_idx, signature: seq![item] })
        } else if turns.len() > 0 {
            turns.drop_last().push(
                TurnView { start_idx, signature: turns.last().signature.push(item) },
            )
        } else {
            turns
        }
    }
}

/// The conversation that makes up `turns`.
pub open spec fn conversation(turns: Seq<TurnView>) -> Seq<ResponseView> {
    turns.map_values(|turn: TurnView| turn.signature).flatten()
}

/// The history that takes the place of `turns` at a compaction: the one that
/// it records, or else the one that is built from the messages of the user in
/// `turns` and the summary.
pub open spec fn compacted_history(
    answers: AnswersView,
    turns: Seq<TurnView>,
    compacted: CompactedView,
) -> Result<Seq<ResponseView>, RequestView> {
    match compacted.replacement_history {
        Some(history) => Ok(history),
        None => match answers.user_messages.get(conversation(turns)) {
            None => Err(RequestView::UserMessages { history: conversation(turns) }),
            Some(user_messages) => match answers.compacted_histories.get(
                (user_messages, compacted.message),
            ) {
                None => Err(
                    RequestView::CompactedHistory { user_messages, message: compacted.message },
                ),
                Some(history) => Ok(history),
            },
        },
    }
}

/// `turns` without the last `num_turns`.
pub open spec fn rolled_back(turns: Seq<TurnView>, num_turns: nat) -> Seq<TurnView> {
    if num_turns < turns.len() {
        turns.take(turns.len() - num_turns)
    } else {
        Seq::empty()
    }
}

impl ScanView {
    /// Nothing played back.
    pub open spec fn start() -> ScanView {
        ScanView { turns: Seq::empty(), active: None, pending: None }
    }

    /// All turns so far.
    pub open spec fn all_turns(self) -> Seq<TurnView> {
        match self.active {
            None => self.turns,
            Some(turn) => self.turns.push(turn),
        }
    }

    /// With no turn that later items add to.
    pub open spec fn committed(self) -> ScanView {
        ScanView { turns: self.all_turns(), active: None, ..self }
    }

    /// What one more item, the one at `idx`, makes of the turns so far.
    pub open spec fn advance(self, answers: AnswersView, item: ItemView, idx: nat) -> Result<
        ScanView,
        RequestView,
    > {
        match item {
            ItemView::Compacted(compacted) => {
                match compacted_history(answers, self.all_turns(), compacted) {
                    Err(request) => Err(request),
                    Ok(history) => Ok(
                        ScanView {
                            turns: turns_in(history, idx),
                            active: None,
                            pending: Some(idx),
                        },
                    ),
                }
            },
            ItemView::TurnContext { .. } => {
                if self.active is None && self.pending is None {
                    Ok(ScanView { pending: Some(idx), ..self })
                } else {
                    Ok(self)
                }
            },
            ItemView::ResponseItem(response) => {
                if response.user_message {
                    Ok(
                        ScanView {
                            turns: self.all_turns(),
                            active: Some(
                                TurnView {
                                    start_idx: match self.pending {
                                        None => idx,
                                        Some(start_idx) => start_idx,
                                    },
                                    signature: seq![response],
                                },
                            ),
                            pending: None,
                        },
                    )
                } else {
                    match self.active {
                        None => Ok(self),
                        Some(turn) => Ok(
                            ScanView {
                                active: Some(
                                    TurnView { signature: turn.signature.push(response), ..turn },
                                ),
                                ..self
                            },
                        ),
                    }
                }
            },
            ItemView::EventMsg(EventView::ThreadRolledBack { num_turns }) => Ok(
                ScanView {
                    turns: rolled_back(self.all_turns(), num_turns),
                    active: None,
                    pending: None,
                },
            ),
            _ => Ok(self),
        }
    }
}

/// The state after all of `items`.
pub open spec fn scan(answers: AnswersView, items: Seq<ItemView>) -> Result<ScanView, RequestView>
    decreases items.len(),
{
    if items.len() == 0 {
        Ok(ScanView::start())
    } else {
        match scan(answers, items.drop_last()) {
            Err(request) => Err(request),
            Ok(before) => before.advance(answers, items.last(), (items.len() - 1) as nat),
        }
    }
}

/// The turns in effect after all of `items`.
pub open spec fn turns_of(answers: AnswersView, items: Seq<ItemView>) -> Result<
    Seq<TurnView>,
    RequestView,
> {
    match scan(answers, items) {
        Err(request) => Err(request),
        Ok(after) => Ok(after.all_turns()),
    }
}

/// All turns of a plain conversation start where they are said to.
pub proof fn lemma_turns_in_start(items: Seq<ResponseView>, start_idx: nat)
    ensures
        forall|i: int|
            0 <= i < turns_in(items, start_idx).len() ==> (#[trigger] turns_in(
                items,
                start_idx,
            )[i]).start_idx == start_idx,
    decreases items.len(),
{
    if items.len() > 0 {
        lemma_turns_in_start(items.drop_last(), start_idx);
        let before = turns_in(items.drop_last(), start_idx);
        let after = turns_in(items, start_idx);
        assert forall|i: int| 0 <= i < after.len() implies (#[trigger] after[i]).start_idx
            == start_idx by {
            if i < before.len() {
                assert(before[i].start_idx == start_idx);
            }
        }
    }
}

/// Each turn in effect starts at an item of the rollout.
pub proof fn lemma_turns_start_inside(answers: AnswersView, items: Seq<ItemView>)
    ensures
        scan(answers, items) matches Ok(after) ==> {
            &&& forall|i: int|
                0 <= i < after.all_turns().len() ==> (#[trigger] after.all_turns()[i]).start_idx
                    < items.len()
            &&& after.pending matches Some(idx) ==> idx < items.len()
        },
    decreases items.len(),
{
    if items.len() > 0 && scan(answers, items) is Ok {
        lemma_turns_start_inside(answers, items.drop_last());
        let before = scan(answers, items.drop_last())->Ok_0;
        let after = scan(answers, items)->Ok_0;
        let idx = (items.len() - 1) as nat;
        match items.last() {
            ItemView::Compacted(compacted) => {
                let history = compacted_history(answers, before.all_turns(), compacted)->Ok_0;
                lemma_turns_in_start(history, idx);
            },
            ItemView::ResponseItem(response) => {
                if response.user_message {
                    assert forall|i: int| 0 <= i < after.all_turns().len() implies (
                    #[trigger] after.all_turns()[i]).start_idx < items.len() by {
                        if i < before.all_turns().len() {
                            assert(after.all_turns()[i] == before.all_turns()[i]);
                        }
                    }
                } else if before.active is Some {
                    assert forall|i: int| 0 <= i < after.all_turns().len() implies (
                    #[trigger] after.all_turns()[i]).start_idx < items.len() by {
                        assert(after.all_turns()[i].start_idx == before.all_turns()[i].start_idx);
                    }
                }
            },
            ItemView::EventMsg(EventView::ThreadRolledBack { num_turns }) => {
                assert forall|i: int| 0 <= i < after.all_turns().len() implies (
                #[trigger] after.all_turns()[i]).start_idx < items.len() by {
                    assert(after.all_turns()[i] == before.all_turns()[i]);
                }
            },
            _ => {},
        }
    }
}

/// The turns in effect start one behind the other: no start lies before that of
/// an earlier turn, and the next turn is not to start before any of them.
pub proof fn lemma_turns_start_in_order(answers: AnswersView, items: Seq<ItemView>)
    ensures
        scan(answers, items) matches Ok(after) ==> {
            &&& forall|i: int, j: int|
                0 <= i <= j < after.all_turns().len() ==> (#[trigger] after.all_turns()[i]).start_idx
                    <= (#[trigger] after.all_turns()[j]).start_idx
            &&& after.pending matches Some(idx) ==> forall|i: int|
                0 <= i < after.all_turns().len() ==> (#[trigger] after.all_turns()[i]).start_idx
                    <= idx
        },
    decreases items.len(),
{
    if items.len() > 0 && scan(answers, items) is Ok {
        let rest = items.drop_last();
        lemma_turns_start_in_order(answers, rest);
        lemma_turns_start_inside(answers, rest);
        let before = scan(answers, rest)->Ok_0;
        let after = scan(answers, items)->Ok_0;
        match items.last() {
            ItemView::Compacted(compacted) => {
                let history = compacted_history(answers, before.all_turns(), compacted)->Ok_0;
                lemma_turns_in_start(history, (items.len() - 1) as nat);
            },
            _ => {
                assert forall|i: int| 0 <= i < before.all_turns().len() && i
                    < after.all_turns().len() implies (#[trigger] after.all_turns()[i]).start_idx
                    == before.all_turns()[i].start_idx by {}
                assert forall|i: int, j: int| 0 <= i <= j < after.all_turns().len() implies (
                #[trigger] after.all_turns()[i]).start_idx <= (
                #[trigger] after.all_turns()[j]).start_idx by {
                    if j < before.all_turns().len() {
                        assert(before.all_turns()[i].start_idx <= before.all_turns()[j].start_idx);
                    } else if i < before.all_turns().len() {
                        assert(before.all_turns()[i].start_idx < rest.len());
                    }
                }
                if let Some(idx) = after.pending {
                    assert forall|i: int| 0 <= i < after.all_turns().len() implies (
                    #[trigger] after.all_turns()[i]).start_idx <= idx by {
                        assert(before.all_turns()[i].start_idx < rest.len());
                    }
                }
            },
        }
    }
}

/// How many turns `lhs` and `rhs` have in common from the start. Turns are
/// compared by their items, wherever they start.
pub open spec fn common_prefix_len(lhs: Seq<TurnView>, rhs: Seq<TurnView>) -> nat
    decreases lhs.len(),
{
    if lhs.len() == 0 || rhs.len() == 0 || lhs[0].signature != rhs[0].signature {
        0
    } else {
        1 + common_prefix_len(lhs.drop_first(), rhs.drop_first())
    }
}

/// The common turns are the same pairwise, and the next ones differ.
pub proof fn lemma_common_prefix(lhs: Seq<TurnView>, rhs: Seq<TurnView>)
    ensures
        common_prefix_len(lhs, rhs) <= lhs.len(),
        common_prefix_len(lhs, rhs) <= rhs.len(),
        forall|i: int|
            0 <= i < common_prefix_len(lhs, rhs) ==> #[trigger] lhs[i].signature
                == rhs[i].signature,
        common_prefix_len(lhs, rhs) < lhs.len() && common_prefix_len(lhs, rhs) < rhs.len()
            ==> lhs[common_prefix_len(lhs, rhs) as int].signature != rhs[common_prefix_len(
            lhs,
            rhs,
        ) as int].signature,
    decreases lhs.len(),
{
    if lhs.len() == 0 || rhs.len() == 0 || lhs[0].signature != rhs[0].signature {
    } else {
        let l = lhs.drop_first();
        let r = rhs.drop_first();
        lemma_common_prefix(l, r);
        assert forall|i: int| 0 <= i < common_prefix_len(lhs, rhs) implies #[trigger] lhs[i].signature
            == rhs[i].signature by {
            if i > 0 {
                assert(l[i - 1].signature == r[i - 1].signature);
            }
        }
    }
}

/// `n` turns are common, and no more, when they are the same pairwise and one
/// of the lists ends there or the next ones differ.
pub proof fn lemma_common_prefix_unique(lhs: Seq<TurnView>, rhs: Seq<TurnView>, n: nat)
    requires
        n <= lhs.len(),
        n <= rhs.len(),
        forall|i: int| 0 <= i < n ==> #[trigger] lhs[i].signature == rhs[i].signature,
        n < lhs.len() && n < rhs.len() ==> lhs[n as int].signature != rhs[n as int].signature,
    ensures
        common_prefix_len(lhs, rhs) == n,
{
    lemma_common_prefix(lhs, rhs);
    let m = common_prefix_len(lhs, rhs);
    if m < n {
        assert(lhs[m as int].signature == rhs[m as int].signature);
    }
    if n < m {
        assert(lhs[n as int].signature == rhs[n as int].signature);
    }
}

/// The turns of a plain conversation, all of them said to start at `start_idx`.
pub fn effective_turns_from_response_items(items: &[ResponseItem], start_idx: usize) -> (result: Vec<
    EffectiveTurn,
>)
    ensures
        result.deep_view() == turns_in(items.deep_view(), start_idx as nat),
{
    let mut turns: Vec<EffectiveTurn> = Vec::new();
    let mut active_turn: Option<EffectiveTurn> = None;
    assert(turns.deep_view() =~= Seq::<TurnView>::empty());
    for i in 0..items.len()
        invariant
            turns_in(items.deep_view().take(i as int), start_idx as nat) == (match active_turn {
                None => turns.deep_view(),
                Some(turn) => turns.deep_view().push(turn.deep_view()),
            }),
            active_turn is None ==> turns.deep_view().len() == 0,
            active_turn is Some ==> active_turn->0.start_idx == start_idx,
    {
        let item = &items[i];
        let ghost before = items.deep_view().take(i as int);
        let ghost after = items.deep_view().take(i + 1);
        let ghost turns_before = turns.deep_view();
        assert(after.drop_last() =~= before);
        if item.user_message {
            if let Some(turn) = active_turn {
                turns.push(turn);
                assert(turns.deep_view() =~= turns_before.push(turn.deep_view()));
            }
            let first = item.clone();
            let turn = EffectiveTurn { start_idx, signature: vec![first] };
            assert(turn.signature.deep_view() =~= seq![item.deep_view()]);
            active_turn = Some(turn);
        } else {
            match active_turn {
                None => {
                    active_turn = None;
                },
                Some(turn) => {
                    let mut turn = turn;
                    let ghost signature = turn.signature.deep_view();
                    turn.signature.push(item.clone());
                    assert(turn.signature.deep_view() =~= signature.push(item.deep_view()));
                    let ghost turn_before = TurnView { start_idx: start_idx as nat, signature };
                    assert(turns_before.push(turn_before).drop_last() =~= turns_before);
                    active_turn = Some(turn);
                },
            }
        }
    }
    assert(items.deep_view().take(items.len() as int) =~= items.deep_view());
    if let Some(turn) = active_turn {
        let ghost turns_before = turns.deep_view();
        turns.push(turn);
        assert(turns.deep_view() =~= turns_before.push(turn.deep_view()));
    }
    turns
}

/// The turns in effect right after a compaction at `start_idx`.
pub fn effective_turns_after_compaction(
    answers: &Answers,
    turns: &[EffectiveTurn],
    compacted: &CompactedItem,
    start_idx: usize,
) -> (result: Result<Vec<EffectiveTurn>, Request>)
    ensures
        result_view(result) == (match compacted_history(
            answers.deep_view(),
            turns.deep_view(),
            compacted.deep_view(),
        ) {
            Err(request) => Err(request),
            Ok(history) => Ok(turns_in(history, start_idx as nat)),
        }),
{
    match &compacted.replacement_history {
        Some(history) => Ok(effective_turns_from_response_items(history, start_idx)),
        None => {
            let history = joined_signatures(turns);
            let user_messages = match answers.user_messages.get(&history) {
                Some(user_messages) => user_messages.clone(),
                None => {
                    return Err(Request::UserMessages { history });
                },
            };
            assert(user_messages.deep_view() =~= answers.deep_view().user_messages[conversation(
                turns.deep_view(),
            )]);
            let key = (user_messages, compacted.message.clone());
            match answers.compacted_histories.get(&key) {
                Some(replacement) => Ok(
                    effective_turns_from_response_items(replacement, start_idx),
                ),
                None => Err(Request::CompactedHistory { user_messages: key.0, message: key.1 }),
            }
        },
    }
}

/// The conversation that makes up `turns`.
fn joined_signatures(turns: &[EffectiveTurn]) -> (result: Vec<ResponseItem>)
    ensures
        result.deep_view() == conversation(turns.deep_view()),
{
    let ghost signatures = turns.deep_view().map_values(|turn: TurnView| turn.signature);
    let mut history: Vec<ResponseItem> = Vec::new();
    assert(history.deep_view() =~= Seq::<ResponseView>::empty());
    for i in 0..turns.len()
        invariant
            signatures == turns.deep_view().map_values(|turn: TurnView| turn.signature),
            history.deep_view() == signatures.take(i as int).flatten(),
    {
        let ghost before = history.deep_view();
        let mut signature = turns[i].signature.clone();
        assert(signature.deep_view() =~= turns[i as int].signature.deep_view());
        let ghost added = signature.deep_view();
        history.append(&mut signature);
        assert(history.deep_view() =~= before + added);
        proof {
            signatures.take(i as int).lemma_flatten_push(signatures[i as int]);
            assert(signatures.take(i + 1) =~= signatures.take(i as int).push(signatures[i as int]));
        }
    }
    assert(signatures.take(turns.len() as int) =~= signatures);
    history
}

impl TurnScan {
    /// Nothing played back.
    pub fn new() -> (result: Self)
        ensures
            result.deep_view() == ScanView::start(),
    {
        let result = TurnScan {
            turns: Vec::new(),
            active_turn: None,
            pending_start_idx: None,
        };
        assert(result.turns.deep_view() =~= Seq::<TurnView>::empty());
        result
    }

    /// Ends the active turn.
    pub fn commit_active_turn(&mut self)
        ensures
            final(self).deep_view() == old(self).deep_view().committed(),
    {
        let ghost before = self.turns.deep_view();
        if let Some(turn) = self.active_turn.take() {
            self.turns.push(turn);
            assert(self.turns.deep_view() =~= before.push(turn.deep_view()));
        }
    }

    /// Plays back one more item, the one at `idx`. Where an answer is wanting,
    /// only the active turn has been ended.
    pub fn advance(&mut self, answers: &Answers, item: &RolloutItem, idx: usize) -> (result: Result<
        (),
        Request,
    >)
        ensures
            old(self).deep_view().advance(answers.deep_view(), item.deep_view(), idx as nat) == (
            match result {
                Ok(_) => Ok(final(self).deep_view()),
                Err(request) => Err(request.deep_view()),
            }),
            result is Err ==> final(self).deep_view() == old(self).deep_view().committed(),
    {
        match item {
            RolloutItem::Compacted(compacted) => {
                self.commit_active_turn();
                let turns = effective_turns_after_compaction(
                    answers,
                    self.turns.as_slice(),
                    compacted,
                    idx,
                );
                match turns {
                    Err(request) => {
                        return Err(request);
                    },
                    Ok(turns) => {
                        self.turns = turns;
                        self.pending_start_idx = Some(idx);
                    },
                }
            },
            RolloutItem::TurnContext { .. } => {
                if self.active_turn.is_none() && self.pending_start_idx.is_none() {
                    self.pending_start_idx = Some(idx);
                }
            },
            RolloutItem::ResponseItem(response_item) => {
                if response_item.user_message {
                    self.commit_active_turn();
                    let first = response_item.clone();
                    let start_idx: usize = match self.pending_start_idx.take() {
                        Some(start_idx) => start_idx,
                        None => idx,
                    };
                    let turn = EffectiveTurn { start_idx, signature: vec![first] };
                    assert(turn.signature.deep_view() =~= seq![response_item.deep_view()]);
                    self.active_turn = Some(turn);
                } else if let Some(turn) = self.active_turn.take() {
                    let mut turn = turn;
                    let ghost before = turn.signature.deep_view();
                    turn.signature.push(response_item.clone());
                    assert(turn.signature.deep_view() =~= before.push(response_item.deep_view()));
                    self.active_turn = Some(turn);
                }
            },
            RolloutItem::EventMsg(EventMsg::ThreadRolledBack(rollback)) => {
                self.commit_active_turn();
                let ghost before = self.turns.deep_view();
                let len: usize = self.turns.len();
                let kept: usize = if rollback.num_turns < len as u64 {
                    len - rollback.num_turns as usize
                } else {
                    0
                };
                self.turns.truncate(kept);
                assert(self.turns.deep_view() =~= rolled_back(before, rollback.num_turns as nat));
                self.pending_start_idx = None;
            },
            _ => {},
        }
        Ok(())
    }
}

/// The turns in effect after all of `items`.
pub fn effective_turns(answers: &Answers, items: &[RolloutItem]) -> (result: Result<
    Vec<EffectiveTurn>,
    Request,
>)
    ensures
        result_view(result) == turns_of(answers.deep_view(), items.deep_view()),
{
    let mut state = TurnScan::new();
    for idx in 0..items.len()
        invariant
            scan(answers.deep_view(), items.deep_view().take(idx as int)) == Ok::<
                ScanView,
                RequestView,
            >(state.deep_view()),
    {
        assert(items.deep_view().take(idx + 1).drop_last() =~= items.deep_view().take(idx as int));
        match state.advance(answers, &items[idx], idx) {
            Err(request) => {
                proof {
                    lemma_scan_stops(answers.deep_view(), items.deep_view(), idx + 1);
                }
                return Err(request);
            },
            Ok(_) => {},
        }
    }
    assert(items.deep_view().take(items.len() as int) =~= items.deep_view());
    state.commit_active_turn();
    Ok(state.turns)
}

/// Where the playback stops for want of an answer, no later item changes that.
pub proof fn lemma_scan_stops(answers: AnswersView, items: Seq<ItemView>, n: int)
    requires
        0 <= n <= items.len(),
    ensures
        scan(answers, items.take(n)) matches Err(request) ==> scan(answers, items) == Err::<
            ScanView,
            RequestView,
        >(request),
    decreases items.len(),
{
    if n < items.len() {
        lemma_scan_stops(answers, items.drop_last(), n);
        assert(items.drop_last().take(n) =~= items.take(n));
    } else {
        assert(items.take(n) =~= items);
    }
}

/// How many turns `lhs` and `rhs` have in common from the start.
pub fn longest_common_prefix_len(lhs: &[EffectiveTurn], rhs: &[EffectiveTurn]) -> (result: usize)
    ensures
        result == common_prefix_len(lhs.deep_view(), rhs.deep_view()),
{
    let mut n: usize = 0;
    while n < lhs.len() && n < rhs.len() && lhs[n].signature.same(&rhs[n].signature)
        invariant
            n <= lhs.len(),
            n <= rhs.len(),
            forall|i: int|
                0 <= i < n ==> #[trigger] lhs.deep_view()[i].signature
                    == rhs.deep_view()[i].signature,
        decreases lhs.len() - n,
    {
        assert(lhs.deep_view()[n as int].signature == rhs.deep_view()[n as int].signature);
        n = n + 1;
    }
    proof {
        if n < lhs.len() && n < rhs.len() {
            assert(lhs.deep_view()[n as int].signature != rhs.deep_view()[n as int].signature);
        }
        lemma_common_prefix_unique(lhs.deep_view(), rhs.deep_view(), n as nat);
    }
    n
}

} // verus!
