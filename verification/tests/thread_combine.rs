use thread_rollout::answers::{Answers, Halt, Request};
use thread_rollout::error::InvalidRequest;
use thread_rollout::path::{PathComponent, PathRecord};
use thread_rollout::protocol::{
    CompactedItem, ContentItem, EventMsg, InitialHistory, MergeBoundaryItem, ResponseBody,
    ResponseItem, ResumedHistory, RolloutItem, SessionMeta, SessionMetaLine, ThreadId,
    ThreadRolledBackEvent,
};
use thread_rollout::thread_combine::{build_combined_rollout, effective_turns, CombineSource};
use thread_rollout::turns::EffectiveTurn;

/// The rollouts that a test has written, and the way to look into them.
struct Disk {
    rollouts: Vec<(PathRecord, ThreadId, Vec<RolloutItem>)>,
    requests: usize,
}

fn id(text: &str) -> ThreadId {
    ThreadId { text: text.to_string() }
}

fn path_record(text: &str) -> PathRecord {
    let mut components = Vec::new();
    if text.starts_with('/') {
        components.push(PathComponent::RootDir);
    }
    for name in text.split('/') {
        if !name.is_empty() {
            components.push(PathComponent::Normal(name.as_bytes().to_vec()));
        }
    }
    PathRecord { text: text.to_string(), components }
}

fn rollout_path(thread_id: &str) -> PathRecord {
    path_record(&format!(
        "/home/user/.codex/sessions/2026/01/01/rollout-2026-01-01T00-00-00-{thread_id}.jsonl"
    ))
}

fn response_message(role: &str, text: &str) -> ResponseItem {
    ResponseItem {
        user_message: role == "user",
        body: ResponseBody::Message {
            id: None,
            role: role.to_string(),
            content: vec![match role {
                "assistant" => ContentItem::OutputText { text: text.to_string() },
                _ => ContentItem::InputText { text: text.to_string() },
            }],
            end_turn: None,
            phase: None,
        },
    }
}

fn rollout_items_for_turns(turns: &[(&str, &str)]) -> Vec<RolloutItem> {
    let mut items = Vec::new();
    for (user, assistant) in turns {
        items.push(RolloutItem::ResponseItem(response_message("user", user)));
        items.push(RolloutItem::ResponseItem(response_message("assistant", assistant)));
    }
    items
}

fn session_meta(thread_id: &str, forked_from_id: Option<&str>) -> RolloutItem {
    RolloutItem::SessionMeta(SessionMetaLine {
        meta: SessionMeta {
            id: id(thread_id),
            forked_from_id: forked_from_id.map(id),
            merge_base_thread_id: None,
            merged_from_thread_ids: None,
            cwd: path_record("/home/user"),
            details: "timestamp 2026-01-01T00:00:00.000Z, originator test".to_string(),
        },
        git: None,
    })
}

impl Disk {
    fn new() -> Self {
        Disk { rollouts: Vec::new(), requests: 0 }
    }

    fn write_rollout(
        &mut self,
        thread_id: &str,
        forked_from_id: Option<&str>,
        turns: &[(&str, &str)],
    ) -> PathRecord {
        self.write_rollout_items(thread_id, forked_from_id, rollout_items_for_turns(turns))
    }

    fn write_rollout_items(
        &mut self,
        thread_id: &str,
        forked_from_id: Option<&str>,
        items: Vec<RolloutItem>,
    ) -> PathRecord {
        let mut lines = vec![session_meta(thread_id, forked_from_id)];
        lines.extend(items);
        self.write_lines(thread_id, lines)
    }

    fn write_lines(&mut self, thread_id: &str, lines: Vec<RolloutItem>) -> PathRecord {
        let path = rollout_path(thread_id);
        self.rollouts.push((path.clone(), id(thread_id), lines));
        path
    }

    fn items(&self, path: &PathRecord) -> &Vec<RolloutItem> {
        match self.rollouts.iter().find(|(at, _, _)| at == path) {
            Some((_, _, items)) => items,
            None => panic!("no rollout at {}", path.text),
        }
    }

    fn answer(&mut self, answers: &mut Answers, request: Request) {
        self.requests += 1;
        match request {
            Request::RolloutHistory { path } => {
                let items = self.items(&path).clone();
                answers.rollout_histories.record(
                    path,
                    InitialHistory::Resumed(ResumedHistory { history: items }),
                );
            }
            Request::SessionMeta { path } => {
                let line = match self.items(&path).first() {
                    Some(RolloutItem::SessionMeta(line)) => line.clone(),
                    other => panic!("no session metadata but {other:?}"),
                };
                answers.session_metas.record(path, line);
            }
            Request::ThreadPath { codex_home, thread_id } => {
                let home = path_record("/home/user/.codex").components;
                assert_eq!(codex_home, home);
                let found = self
                    .rollouts
                    .iter()
                    .find(|(_, of, _)| *of == thread_id)
                    .map(|(path, _, _)| path.clone());
                answers.thread_paths.record((codex_home, thread_id), found);
            }
            Request::UserMessages { history } => {
                let user_messages = history
                    .iter()
                    .filter(|item| item.user_message)
                    .map(|item| text_of(item).unwrap_or_default())
                    .collect();
                answers.user_messages.record(history, user_messages);
            }
            Request::CompactedHistory { user_messages, message } => {
                let mut compacted: Vec<ResponseItem> =
                    user_messages.iter().map(|text| response_message("user", text)).collect();
                compacted.push(response_message("user", &message));
                answers.compacted_histories.record((user_messages, message), compacted);
            }
            Request::MergedFromThreadIds { items } => {
                let mut thread_ids = Vec::new();
                for item in &items {
                    match item {
                        RolloutItem::SessionMeta(line) => {
                            if let Some(ids) = &line.meta.merged_from_thread_ids {
                                thread_ids.extend(ids.iter().cloned());
                            }
                        }
                        RolloutItem::MergeBoundary(boundary) => {
                            if !thread_ids.contains(&boundary.source_thread_id) {
                                thread_ids.push(boundary.source_thread_id.clone());
                            }
                        }
                        _ => {}
                    }
                }
                answers.merged_from_thread_ids.record(items, thread_ids);
            }
        }
    }

    fn combine(
        &mut self,
        base: &str,
        base_path: &PathRecord,
        sources: &[(&str, &PathRecord)],
    ) -> Result<Vec<RolloutItem>, InvalidRequest> {
        let sources: Vec<CombineSource> = sources
            .iter()
            .map(|(thread_id, path)| CombineSource {
                thread_id: id(thread_id),
                path: (*path).clone(),
            })
            .collect();
        let mut answers = Answers::new();
        loop {
            match build_combined_rollout(&answers, &id(base), base_path, &sources) {
                Ok(items) => return Ok(items),
                Err(Halt::Rejected(error)) => return Err(error),
                Err(Halt::Asks(request)) => self.answer(&mut answers, request),
            }
        }
    }

    fn logical_turn_pairs(&mut self, items: &[RolloutItem]) -> Vec<(String, Option<String>)> {
        let mut answers = Answers::new();
        loop {
            match effective_turns(&answers, items) {
                Ok(turns) => return pairs(&turns),
                Err(request) => self.answer(&mut answers, request),
            }
        }
    }
}

fn text_of(item: &ResponseItem) -> Option<String> {
    match &item.body {
        ResponseBody::Message { content, .. } => {
            content.iter().find_map(|content_item| match content_item {
                ContentItem::InputText { text } | ContentItem::OutputText { text } => {
                    Some(text.clone())
                }
                ContentItem::InputImage { .. } => None,
            })
        }
        ResponseBody::Other { .. } => None,
    }
}

fn pairs(turns: &[EffectiveTurn]) -> Vec<(String, Option<String>)> {
    let mut result = Vec::new();
    for turn in turns {
        let mut user = None;
        let mut assistant = None;
        for item in &turn.signature {
            if let ResponseBody::Message { role, .. } = &item.body {
                let text = text_of(item).unwrap_or_default();
                if role == "user" {
                    user = Some(text);
                } else if role == "assistant" {
                    assistant = Some(text);
                }
            }
        }
        result.push((user.unwrap_or_default(), assistant));
    }
    result
}

fn pair(user: &str, assistant: &str) -> (String, Option<String>) {
    (user.to_string(), Some(assistant.to_string()))
}

fn compacted(message: &str, replacement: Option<Vec<ResponseItem>>) -> RolloutItem {
    RolloutItem::Compacted(CompactedItem {
        message: message.to_string(),
        replacement_history: replacement,
    })
}

fn rolled_back(num_turns: u64) -> RolloutItem {
    RolloutItem::EventMsg(EventMsg::ThreadRolledBack(ThreadRolledBackEvent { num_turns }))
}

fn event(payload: &str) -> RolloutItem {
    RolloutItem::EventMsg(EventMsg::Other { payload: payload.to_string() })
}

fn turn_context() -> RolloutItem {
    RolloutItem::TurnContext { payload: "context".to_string() }
}

fn first_meta(items: &[RolloutItem]) -> &SessionMeta {
    items
        .iter()
        .find_map(|item| match item {
            RolloutItem::SessionMeta(meta_line) => Some(&meta_line.meta),
            _ => None,
        })
        .unwrap()
}

#[test]
fn combine_accepts_unrelated_thread() {
    let mut disk = Disk::new();
    let base_path = disk.write_rollout("base-id", None, &[("base", "base answer")]);
    let other_path = disk.write_rollout("other-id", None, &[("other", "other answer")]);
    let merged = disk.combine("base-id", &base_path, &[("other-id", &other_path)]).unwrap();
    assert_eq!(
        disk.logical_turn_pairs(&merged),
        vec![pair("base", "base answer"), pair("other", "other answer")]
    );
}

#[test]
fn combine_appends_direct_child_full_history() {
    let mut disk = Disk::new();
    let base_path = disk.write_rollout("base-id", None, &[("b1", "a1"), ("b2", "a2")]);
    let child_path = disk.write_rollout(
        "child-id",
        Some("base-id"),
        &[("b1", "a1"), ("b2", "a2"), ("c1", "c1 answer")],
    );
    let merged = disk.combine("base-id", &base_path, &[("child-id", &child_path)]).unwrap();
    assert_eq!(
        disk.logical_turn_pairs(&merged),
        vec![
            pair("b1", "a1"),
            pair("b2", "a2"),
            pair("b1", "a1"),
            pair("b2", "a2"),
            pair("c1", "c1 answer"),
        ]
    );
}

#[test]
fn combine_records_provenance_in_session_meta() {
    let mut disk = Disk::new();
    let base_path = disk.write_rollout("base-id", None, &[("base", "base answer")]);
    let other_path = disk.write_rollout("other-id", None, &[("other", "other answer")]);
    let merged = disk.combine("base-id", &base_path, &[("other-id", &other_path)]).unwrap();
    let meta = first_meta(&merged);
    assert_eq!(meta.merge_base_thread_id, Some(id("base-id")));
    assert_eq!(meta.merged_from_thread_ids, Some(vec![id("other-id")]));
}

#[test]
fn combine_inserts_merge_boundary_before_each_source() {
    let mut disk = Disk::new();
    let base_path = disk.write_rollout("base-id", None, &[("base", "base answer")]);
    let first_path = disk.write_rollout("first-id", None, &[("first", "first answer")]);
    let second_path = disk.write_rollout("second-id", None, &[("second", "second answer")]);
    let combined = disk
        .combine("base-id", &base_path, &[("first-id", &first_path), ("second-id", &second_path)])
        .unwrap();
    let boundary_ids = combined
        .iter()
        .filter_map(|item| match item {
            RolloutItem::MergeBoundary(boundary) => Some(boundary.source_thread_id.clone()),
            _ => None,
        })
        .collect::<Vec<_>>();
    assert_eq!(boundary_ids, vec![id("first-id"), id("second-id")]);
    assert!(matches!(combined[3], RolloutItem::MergeBoundary(_)));
    assert!(matches!(combined[6], RolloutItem::MergeBoundary(_)));
    assert_eq!(combined.len(), 9);
}

#[test]
fn combine_records_nested_source_provenance_in_session_meta() {
    let mut disk = Disk::new();
    let base_path = disk.write_rollout("base-id", None, &[("base", "base answer")]);
    let mut items = vec![RolloutItem::MergeBoundary(MergeBoundaryItem {
        source_thread_id: id("nested-id"),
    })];
    items.extend(rollout_items_for_turns(&[("source", "source answer")]));
    let source_path = disk.write_rollout_items("source-id", None, items);
    let combined = disk.combine("base-id", &base_path, &[("source-id", &source_path)]).unwrap();
    assert_eq!(
        first_meta(&combined).merged_from_thread_ids,
        Some(vec![id("source-id"), id("nested-id")])
    );
}

#[test]
fn combine_appends_grandchild_full_history() {
    let mut disk = Disk::new();
    let base_path = disk.write_rollout("base-id", None, &[("b1", "a1")]);
    disk.write_rollout("child-id", Some("base-id"), &[("b1", "a1"), ("c1", "child answer")]);
    let grandchild_path = disk.write_rollout(
        "grandchild-id",
        Some("child-id"),
        &[("b1", "a1"), ("c1", "child answer"), ("g1", "grandchild answer")],
    );
    let merged =
        disk.combine("base-id", &base_path, &[("grandchild-id", &grandchild_path)]).unwrap();
    assert_eq!(
        disk.logical_turn_pairs(&merged),
        vec![
            pair("b1", "a1"),
            pair("b1", "a1"),
            pair("c1", "child answer"),
            pair("g1", "grandchild answer"),
        ]
    );
}

#[test]
fn combine_preserves_child_and_grandchild_histories() {
    let mut disk = Disk::new();
    let base_path = disk.write_rollout("base-id", None, &[("b1", "a1")]);
    let child_path =
        disk.write_rollout("child-id", Some("base-id"), &[("b1", "a1"), ("c1", "child answer")]);
    let grandchild_path = disk.write_rollout(
        "grandchild-id",
        Some("child-id"),
        &[("b1", "a1"), ("c1", "child answer"), ("g1", "grandchild answer")],
    );
    let merged = disk
        .combine(
            "base-id",
            &base_path,
            &[("child-id", &child_path), ("grandchild-id", &grandchild_path)],
        )
        .unwrap();
    assert_eq!(
        disk.logical_turn_pairs(&merged),
        vec![
            pair("b1", "a1"),
            pair("b1", "a1"),
            pair("c1", "child answer"),
            pair("b1", "a1"),
            pair("c1", "child answer"),
            pair("g1", "grandchild answer"),
        ]
    );
}

#[test]
fn combine_preserves_selected_order_even_if_reversed() {
    let mut disk = Disk::new();
    let base_path = disk.write_rollout("base-id", None, &[("b1", "a1")]);
    let child_path =
        disk.write_rollout("child-id", Some("base-id"), &[("b1", "a1"), ("c1", "child answer")]);
    let grandchild_path = disk.write_rollout(
        "grandchild-id",
        Some("child-id"),
        &[("b1", "a1"), ("c1", "child answer"), ("g1", "grandchild answer")],
    );
    let merged = disk
        .combine(
            "base-id",
            &base_path,
            &[("grandchild-id", &grandchild_path), ("child-id", &child_path)],
        )
        .unwrap();
    assert_eq!(
        disk.logical_turn_pairs(&merged),
        vec![
            pair("b1", "a1"),
            pair("b1", "a1"),
            pair("c1", "child answer"),
            pair("g1", "grandchild answer"),
            pair("b1", "a1"),
            pair("c1", "child answer"),
        ]
    );
}

#[test]
fn combine_siblings_preserve_user_order_without_interleaving() {
    let mut disk = Disk::new();
    let base_path = disk.write_rollout("base-id", None, &[("base", "base answer")]);
    let first_path = disk.write_rollout(
        "first-id",
        Some("base-id"),
        &[("base", "base answer"), ("first", "first answer")],
    );
    let second_path = disk.write_rollout(
        "second-id",
        Some("base-id"),
        &[("base", "base answer"), ("second", "second answer")],
    );
    let merged = disk
        .combine("base-id", &base_path, &[("first-id", &first_path), ("second-id", &second_path)])
        .unwrap();
    assert_eq!(
        disk.logical_turn_pairs(&merged),
        vec![
            pair("base", "base answer"),
            pair("base", "base answer"),
            pair("first", "first answer"),
            pair("base", "base answer"),
            pair("second", "second answer"),
        ]
    );
}

#[test]
fn combine_uses_logical_state_after_compaction() {
    let mut disk = Disk::new();
    let shared_turn = ("base", "base answer");
    let base_path = disk.write_rollout("base-id", None, &[shared_turn]);
    let mut items = rollout_items_for_turns(&[shared_turn]);
    items.push(compacted("summary", Some(vec![response_message("user", "summary")])));
    items.extend(rollout_items_for_turns(&[("branch", "branch answer")]));
    let branch_path = disk.write_rollout_items("branch-id", Some("base-id"), items);
    let merged = disk.combine("base-id", &base_path, &[("branch-id", &branch_path)]).unwrap();
    assert_eq!(
        disk.logical_turn_pairs(&merged),
        vec![
            pair("base", "base answer"),
            ("summary".to_string(), None),
            pair("branch", "branch answer"),
        ]
    );
}

#[test]
fn combine_compacted_source_before_sibling_keeps_both_histories() {
    let mut disk = Disk::new();
    let shared_turn = ("base", "base answer");
    let base_path = disk.write_rollout("base-id", None, &[shared_turn]);
    let mut items = rollout_items_for_turns(&[shared_turn]);
    items.push(compacted("summary", Some(vec![response_message("user", "summary")])));
    items.extend(rollout_items_for_turns(&[("first", "first answer")]));
    let compacted_path = disk.write_rollout_items("compacted-id", Some("base-id"), items);
    let sibling_path = disk.write_rollout(
        "sibling-id",
        Some("base-id"),
        &[shared_turn, ("second", "second answer")],
    );
    let merged = disk
        .combine(
            "base-id",
            &base_path,
            &[("compacted-id", &compacted_path), ("sibling-id", &sibling_path)],
        )
        .unwrap();
    assert_eq!(
        disk.logical_turn_pairs(&merged),
        vec![
            pair("base", "base answer"),
            ("summary".to_string(), None),
            pair("first", "first answer"),
            pair("base", "base answer"),
            pair("second", "second answer"),
        ]
    );
}

#[test]
fn combine_preserves_rollback_with_duplicate_inherited_turns() {
    let mut disk = Disk::new();
    let turns = [("base-1", "base-1 answer"), ("base-2", "base-2 answer")];
    let base_path = disk.write_rollout("base-id", None, &turns);
    let mut items = rollout_items_for_turns(&turns);
    items.push(rolled_back(1));
    let branch_path = disk.write_rollout_items("branch-id", Some("base-id"), items);
    let merged = disk.combine("base-id", &base_path, &[("branch-id", &branch_path)]).unwrap();
    assert_eq!(
        disk.logical_turn_pairs(&merged),
        vec![
            pair("base-1", "base-1 answer"),
            pair("base-2", "base-2 answer"),
            pair("base-1", "base-1 answer"),
        ]
    );
}

#[test]
fn combine_preserves_rollback_before_new_turn() {
    let mut disk = Disk::new();
    let turns = [("base-1", "base-1 answer"), ("base-2", "base-2 answer")];
    let base_path = disk.write_rollout("base-id", None, &turns);
    let mut items = rollout_items_for_turns(&turns);
    items.push(rolled_back(1));
    items.extend(rollout_items_for_turns(&[("branch", "branch answer")]));
    let branch_path = disk.write_rollout_items("branch-id", Some("base-id"), items);
    let merged = disk.combine("base-id", &base_path, &[("branch-id", &branch_path)]).unwrap();
    assert_eq!(
        disk.logical_turn_pairs(&merged),
        vec![
            pair("base-1", "base-1 answer"),
            pair("base-2", "base-2 answer"),
            pair("base-1", "base-1 answer"),
            pair("branch", "branch answer"),
        ]
    );
}

#[test]
fn combine_uses_logical_state_after_rollback() {
    let mut disk = Disk::new();
    let base_path = disk.write_rollout("base-id", None, &[("base", "base answer")]);
    let mut items =
        rollout_items_for_turns(&[("base", "base answer"), ("branch", "branch answer")]);
    items.push(rolled_back(1));
    let branch_path = disk.write_rollout_items("branch-id", Some("base-id"), items);
    let merged = disk.combine("base-id", &base_path, &[("branch-id", &branch_path)]).unwrap();
    assert_eq!(
        disk.logical_turn_pairs(&merged),
        vec![pair("base", "base answer"), pair("base", "base answer")]
    );
}

#[test]
fn combine_duplicate_source_ids_in_single_request_errors() {
    let mut disk = Disk::new();
    let base_path = disk.write_rollout("base-id", None, &[("base", "base answer")]);
    let child_path = disk.write_rollout(
        "child-id",
        Some("base-id"),
        &[("base", "base answer"), ("child", "child answer")],
    );
    let err = disk
        .combine("base-id", &base_path, &[("child-id", &child_path), ("child-id", &child_path)])
        .unwrap_err();
    assert_eq!(err.message(), "duplicate combine source id child-id");
    assert_eq!(disk.requests, 0);
}

#[test]
fn combine_source_id_must_match_rollout_session_id() {
    let mut disk = Disk::new();
    let base_path = disk.write_rollout("base-id", None, &[("base", "base answer")]);
    let source_path = disk.write_rollout("actual-id", None, &[("source", "source answer")]);
    let err =
        disk.combine("base-id", &base_path, &[("mismatched-id", &source_path)]).unwrap_err();
    assert_eq!(
        err.message(),
        format!(
            "combine source id mismatched-id does not match rollout session id actual-id for `{}`",
            source_path.text
        )
    );
}

#[test]
fn combine_without_session_metadata_is_refused() {
    let mut disk = Disk::new();
    let base_path = disk.write_rollout("base-id", None, &[("base", "base answer")]);
    let source_path = disk.write_lines("source-id", rollout_items_for_turns(&[("u", "a")]));
    let err = disk.combine("base-id", &base_path, &[("source-id", &source_path)]).unwrap_err();
    assert_eq!(
        err.message(),
        format!("missing session metadata in combine source rollout `{}`", source_path.text)
    );
    let bare_path = disk.write_lines("bare-id", vec![turn_context(), event("x")]);
    let err = disk.combine("bare-id", &bare_path, &[]).unwrap_err();
    assert_eq!(
        err.message(),
        format!("missing session metadata in base rollout `{}`", bare_path.text)
    );
}

#[test]
fn combine_of_no_source_keeps_the_base_and_clears_its_merge_base() {
    let mut disk = Disk::new();
    let mut lines = vec![session_meta("base-id", None)];
    if let RolloutItem::SessionMeta(line) = &mut lines[0] {
        line.meta.merge_base_thread_id = Some(id("older"));
    }
    let base_path = disk.write_lines("base-id", lines);
    let combined = disk.combine("base-id", &base_path, &[]).unwrap();
    assert_eq!(combined, vec![session_meta("base-id", None)]);
}

#[test]
fn combine_names_each_thread_once() {
    let mut disk = Disk::new();
    let mark = |name: &str| {
        RolloutItem::MergeBoundary(MergeBoundaryItem { source_thread_id: id(name) })
    };
    let base_path = disk.write_rollout_items("base-id", None, vec![mark("x"), mark("a")]);
    let a_path = disk.write_rollout_items("a", None, vec![mark("y"), mark("b")]);
    let b_path = disk.write_rollout_items("b", None, vec![mark("z"), mark("x")]);
    let combined =
        disk.combine("base-id", &base_path, &[("a", &a_path), ("b", &b_path)]).unwrap();
    assert_eq!(
        first_meta(&combined).merged_from_thread_ids,
        Some(vec![id("x"), id("a"), id("y"), id("b"), id("z")])
    );
}

#[test]
fn combine_keeps_a_compaction_without_recorded_replacement_to_its_own_history() {
    let mut disk = Disk::new();
    let base_path = disk.write_rollout("base-id", None, &[("base", "base answer")]);
    let mut items = rollout_items_for_turns(&[("u1", "a1")]);
    items.push(compacted("summary", None));
    let source_path = disk.write_rollout_items("source-id", None, items);
    let combined = disk.combine("base-id", &base_path, &[("source-id", &source_path)]).unwrap();
    assert_eq!(
        disk.logical_turn_pairs(&combined),
        vec![
            pair("base", "base answer"),
            ("u1".to_string(), None),
            ("summary".to_string(), None),
        ]
    );
}
