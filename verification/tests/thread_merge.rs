use thread_rollout::answers::{Answers, Halt, Request};
use thread_rollout::error::InvalidRequest;
use thread_rollout::path::{PathComponent, PathRecord};
use thread_rollout::protocol::{
    CompactedItem, ContentItem, EventMsg, InitialHistory, MergeBoundaryItem, ResponseBody,
    ResponseItem, ResumedHistory, RolloutItem, SessionMeta, SessionMetaLine, ThreadId,
    ThreadRolledBackEvent,
};
use thread_rollout::thread_merge::{
    build_merged_rollout, first_rollback_that_removes_shared_turns, MergeSource,
};
use thread_rollout::turns::{effective_turns, EffectiveTurn};

/// The rollouts that a test has written, and the way to look into them.
struct Disk {
    rollouts: Vec<(PathRecord, ThreadId, Vec<RolloutItem>)>,
    requests: usize,
}

fn id(text: &str) -> ThreadId {
    ThreadId { text: text.to_string() }
}

fn path_record(text: &str) -> PathRecord {
    let mut components = Vec::new();
    if text.starts_with('/') {
        components.push(PathComponent::RootDir);
    }
    for name in text.split('/') {
        if !name.is_empty() {
            components.push(PathComponent::Normal(name.as_bytes().to_vec()));
        }
    }
    PathRecord { text: text.to_string(), components }
}

fn rollout_path(thread_id: &str) -> PathRecord {
    path_record(&format!(
        "/home/user/.codex/sessions/2026/01/01/rollout-2026-01-01T00-00-00-{thread_id}.jsonl"
    ))
}

fn response_message(role: &str, text: &str) -> ResponseItem {
    ResponseItem {
        user_message: role == "user",
        body: ResponseBody::Message {
            id: None,
            role: role.to_string(),
            content: vec![match role {
                "assistant" => ContentItem::OutputText { text: text.to_string() },
                _ => ContentItem::InputText { text: text.to_string() },
            }],
            end_turn: None,
            phase: None,
        },
    }
}

fn rollout_items_for_turns(turns: &[(&str, &str)]) -> Vec<RolloutItem> {
    let mut items = Vec::new();
    for (user, assistant) in turns {
        items.push(RolloutItem::ResponseItem(response_message("user", user)));
        items.push(RolloutItem::ResponseItem(response_message("assistant", assistant)));
    }
    items
}

fn session_meta(thread_id: &str, forked_from_id: Option<&str>) -> RolloutItem {
    RolloutItem::SessionMeta(SessionMetaLine {
        meta: SessionMeta {
            id: id(thread_id),
            forked_from_id: forked_from_id.map(id),
            merge_base_thread_id: None,
            merged_from_thread_ids: None,
            cwd: path_record("/home/user"),
            details: "timestamp 2026-01-01T00:00:00.000Z, originator test".to_string(),
        },
        git: None,
    })
}

impl Disk {
    fn new() -> Self {
        Disk { rollouts: Vec::new(), requests: 0 }
    }

    fn write_rollout(
        &mut self,
        thread_id: &str,
        forked_from_id: Option<&str>,
        turns: &[(&str, &str)],
    ) -> PathRecord {
        self.write_rollout_items(thread_id, forked_from_id, rollout_items_for_turns(turns))
    }

    fn write_rollout_items(
        &mut self,
        thread_id: &str,
        forked_from_id: Option<&str>,
        items: Vec<RolloutItem>,
    ) -> PathRecord {
        let mut lines = vec![session_meta(thread_id, forked_from_id)];
        lines.extend(items);
        self.write_lines(thread_id, lines)
    }

    fn write_lines(&mut self, thread_id: &str, lines: Vec<RolloutItem>) -> PathRecord {
        let path = rollout_path(thread_id);
        self.rollouts.push((path.clone(), id(thread_id), lines));
        path
    }

    fn items(&self, path: &PathRecord) -> &Vec<RolloutItem> {
        match self.rollouts.iter().find(|(at, _, _)| at == path) {
            Some((_, _, items)) => items,
            None => panic!("no rollout at {}", path.text),
        }
    }

    fn answer(&mut self, answers: &mut Answers, request: Request) {
        self.requests += 1;
        match request {
            Request::RolloutHistory { path } => {
                let items = self.items(&path).clone();
                answers.rollout_histories.record(
                    path,
                    InitialHistory::Resumed(ResumedHistory { history: items }),
                );
            }
            Request::SessionMeta { path } => {
                let line = match self.items(&path).first() {
                    Some(RolloutItem::SessionMeta(line)) => line.clone(),
                    other => panic!("no session metadata but {other:?}"),
                };
                answers.session_metas.record(path, line);
            }
            Request::ThreadPath { codex_home, thread_id } => {
                let home = path_record("/home/user/.codex").components;
                assert_eq!(codex_home, home);
                let found = self
                    .rollouts
                    .iter()
                    .find(|(_, of, _)| *of == thread_id)
                    .map(|(path, _, _)| path.clone());
                answers.thread_paths.record((codex_home, thread_id), found);
            }
            Request::UserMessages { history } => {
                let user_messages = history
                    .iter()
                    .filter(|item| item.user_message)
                    .map(|item| text_of(item).unwrap_or_default())
                    .collect();
                answers.user_messages.record(history, user_messages);
            }
            Request::CompactedHistory { user_messages, message } => {
                let mut compacted: Vec<ResponseItem> =
                    user_messages.iter().map(|text| response_message("user", text)).collect();
                compacted.push(response_message("user", &message));
                answers.compacted_histories.record((user_messages, message), compacted);
            }
            Request::MergedFromThreadIds { items } => {
                let mut thread_ids = Vec::new();
                for item in &items {
                    match item {
                        RolloutItem::SessionMeta(line) => {
                            if let Some(ids) = &line.meta.merged_from_thread_ids {
                                thread_ids.extend(ids.iter().cloned());
                            }
                        }
                        RolloutItem::MergeBoundary(boundary) => {
                            if !thread_ids.contains(&boundary.source_thread_id) {
                                thread_ids.push(boundary.source_thread_id.clone());
                            }
                        }
                        _ => {}
                    }
                }
                answers.merged_from_thread_ids.record(items, thread_ids);
            }
        }
    }

    fn merge(
        &mut self,
        base: &str,
        base_path: &PathRecord,
        sources: &[(&str, &PathRecord)],
    ) -> Result<Vec<RolloutItem>, InvalidRequest> {
        let sources: Vec<MergeSource> = sources
            .iter()
            .map(|(thread_id, path)| MergeSource { thread_id: id(thread_id), path: (*path).clone() })
            .collect();
        let mut answers = Answers::new();
        loop {
            match build_merged_rollout(&answers, &id(base), base_path, &sources) {
                Ok(items) => return Ok(items),
                Err(Halt::Rejected(error)) => return Err(error),
                Err(Halt::Asks(request)) => self.answer(&mut answers, request),
            }
        }
    }

    fn logical_turn_pairs(&mut self, items: &[RolloutItem]) -> Vec<(String, Option<String>)> {
        let mut answers = Answers::new();
        loop {
            match effective_turns(&answers, items) {
                Ok(turns) => return pairs(&turns),
                Err(request) => self.answer(&mut answers, request),
            }
        }
    }
}

fn text_of(item: &ResponseItem) -> Option<String> {
    match &item.body {
        ResponseBody::Message { content, .. } => {
            content.iter().find_map(|content_item| match content_item {
                ContentItem::InputText { text } | ContentItem::OutputText { text } => {
                    Some(text.clone())
                }
                ContentItem::InputImage { .. } => None,
            })
        }
        ResponseBody::Other { .. } => None,
    }
}

fn pairs(turns: &[EffectiveTurn]) -> Vec<(String, Option<String>)> {
    let mut result = Vec::new();
    for turn in turns {
        let mut user = None;
        let mut assistant = None;
        for item in &turn.signature {
            if let ResponseBody::Message { role, .. } = &item.body {
                let text = text_of(item).unwrap_or_default();
                if role == "user" {
                    user = Some(text);
                } else if role == "assistant" {
                    assistant = Some(text);
                }
            }
        }
        result.push((user.unwrap_or_default(), assistant));
    }
    result
}

fn pair(user: &str, assistant: &str) -> (String, Option<String>) {
    (user.to_string(), Some(assistant.to_string()))
}

fn compacted(message: &str, replacement: Option<Vec<ResponseItem>>) -> RolloutItem {
    RolloutItem::Compacted(CompactedItem {
        message: message.to_string(),
        replacement_history: replacement,
    })
}

fn rolled_back(num_turns: u64) -> RolloutItem {
    RolloutItem::EventMsg(EventMsg::ThreadRolledBack(ThreadRolledBackEvent { num_turns }))
}

fn event(payload: &str) -> RolloutItem {
    RolloutItem::EventMsg(EventMsg::Other { payload: payload.to_string() })
}

fn turn_context() -> RolloutItem {
    RolloutItem::TurnContext { payload: "context".to_string() }
}

#[test]
fn merge_rejects_non_descendant() {
    let mut disk = Disk::new();
    let base_path = disk.write_rollout("base-id", None, &[("base", "base answer")]);
    let other_path = disk.write_rollout("other-id", None, &[("other", "other answer")]);
    let err = disk.merge("base-id", &base_path, &[("other-id", &other_path)]).unwrap_err();
    assert_eq!(err.message(), "thread other-id is not a descendant of base-id");
}

#[test]
fn merge_direct_child_appends_only_child_suffix() {
    let mut disk = Disk::new();
    let base_path = disk.write_rollout("base-id", None, &[("b1", "a1"), ("b2", "a2")]);
    let child_path = disk.write_rollout(
        "child-id",
        Some("base-id"),
        &[("b1", "a1"), ("b2", "a2"), ("c1", "c1 answer")],
    );
    let merged = disk.merge("base-id", &base_path, &[("child-id", &child_path)]).unwrap();
    assert_eq!(
        disk.logical_turn_pairs(&merged),
        vec![pair("b1", "a1"), pair("b2", "a2"), pair("c1", "c1 answer")]
    );
    // Nothing is there twice.
    assert_eq!(merged.len(), 7);
}

#[test]
fn merge_grandchild_appends_full_descendant_suffix() {
    let mut disk = Disk::new();
    let base_path = disk.write_rollout("base-id", None, &[("b1", "a1")]);
    disk.write_rollout("child-id", Some("base-id"), &[("b1", "a1"), ("c1", "child answer")]);
    let grandchild_path = disk.write_rollout(
        "grandchild-id",
        Some("child-id"),
        &[("b1", "a1"), ("c1", "child answer"), ("g1", "grandchild answer")],
    );
    let merged =
        disk.merge("base-id", &base_path, &[("grandchild-id", &grandchild_path)]).unwrap();
    assert_eq!(
        disk.logical_turn_pairs(&merged),
        vec![pair("b1", "a1"), pair("c1", "child answer"), pair("g1", "grandchild answer")]
    );
}

#[test]
fn merge_child_and_grandchild_do_not_duplicate_shared_child_turns() {
    let mut disk = Disk::new();
    let base_path = disk.write_rollout("base-id", None, &[("b1", "a1")]);
    let child_path =
        disk.write_rollout("child-id", Some("base-id"), &[("b1", "a1"), ("c1", "child answer")]);
    let grandchild_path = disk.write_rollout(
        "grandchild-id",
        Some("child-id"),
        &[("b1", "a1"), ("c1", "child answer"), ("g1", "grandchild answer")],
    );
    let merged = disk
        .merge(
            "base-id",
            &base_path,
            &[("child-id", &child_path), ("grandchild-id", &grandchild_path)],
        )
        .unwrap();
    assert_eq!(
        disk.logical_turn_pairs(&merged),
        vec![pair("b1", "a1"), pair("c1", "child answer"), pair("g1", "grandchild answer")]
    );
}

#[test]
fn merge_forces_ancestor_before_descendant_even_if_selected_reversed() {
    let mut disk = Disk::new();
    let base_path = disk.write_rollout("base-id", None, &[("b1", "a1")]);
    let child_path =
        disk.write_rollout("child-id", Some("base-id"), &[("b1", "a1"), ("c1", "child answer")]);
    let grandchild_path = disk.write_rollout(
        "grandchild-id",
        Some("child-id"),
        &[("b1", "a1"), ("c1", "child answer"), ("g1", "grandchild answer")],
    );
    let merged = disk
        .merge(
            "base-id",
            &base_path,
            &[("grandchild-id", &grandchild_path), ("child-id", &child_path)],
        )
        .unwrap();
    assert_eq!(
        disk.logical_turn_pairs(&merged),
        vec![pair("b1", "a1"), pair("c1", "child answer"), pair("g1", "grandchild answer")]
    );
}

#[test]
fn merge_siblings_preserve_user_order_without_interleaving() {
    let mut disk = Disk::new();
    let base_path = disk.write_rollout("base-id", None, &[("base", "base answer")]);
    let first_path = disk.write_rollout(
        "first-id",
        Some("base-id"),
        &[("base", "base answer"), ("first", "first answer")],
    );
    let second_path = disk.write_rollout(
        "second-id",
        Some("base-id"),
        &[("base", "base answer"), ("second", "second answer")],
    );
    let merged = disk
        .merge("base-id", &base_path, &[("first-id", &first_path), ("second-id", &second_path)])
        .unwrap();
    assert_eq!(
        disk.logical_turn_pairs(&merged),
        vec![
            pair("base", "base answer"),
            pair("first", "first answer"),
            pair("second", "second answer"),
        ]
    );
}

#[test]
fn merge_uses_logical_state_after_compaction() {
    let mut disk = Disk::new();
    let shared_turn = ("base", "base answer");
    let base_path = disk.write_rollout("base-id", None, &[shared_turn]);
    let mut items = rollout_items_for_turns(&[shared_turn]);
    items.push(compacted("summary", Some(vec![response_message("user", "summary")])));
    items.extend(rollout_items_for_turns(&[("branch", "branch answer")]));
    let branch_path = disk.write_rollout_items("branch-id", Some("base-id"), items);
    let merged = disk.merge("base-id", &base_path, &[("branch-id", &branch_path)]).unwrap();
    assert_eq!(
        disk.logical_turn_pairs(&merged),
        vec![("summary".to_string(), None), pair("branch", "branch answer")]
    );
}

#[test]
fn merge_compacted_source_before_sibling_replays_shared_prefix() {
    let mut disk = Disk::new();
    let shared_turn = ("base", "base answer");
    let base_path = disk.write_rollout("base-id", None, &[shared_turn]);
    let mut items = rollout_items_for_turns(&[shared_turn]);
    items.push(compacted("summary", Some(vec![response_message("user", "summary")])));
    items.extend(rollout_items_for_turns(&[("first", "first answer")]));
    let compacted_path = disk.write_rollout_items("compacted-id", Some("base-id"), items);
    let sibling_path = disk.write_rollout(
        "sibling-id",
        Some("base-id"),
        &[shared_turn, ("second", "second answer")],
    );
    let merged = disk
        .merge(
            "base-id",
            &base_path,
            &[("compacted-id", &compacted_path), ("sibling-id", &sibling_path)],
        )
        .unwrap();
    assert_eq!(
        disk.logical_turn_pairs(&merged),
        vec![
            ("summary".to_string(), None),
            pair("first", "first answer"),
            pair("base", "base answer"),
            pair("second", "second answer"),
        ]
    );
}

#[test]
fn merge_preserves_rollback_of_inherited_turn_without_new_turns() {
    let mut disk = Disk::new();
    let turns = [("base-1", "base-1 answer"), ("base-2", "base-2 answer")];
    let base_path = disk.write_rollout("base-id", None, &turns);
    let mut items = rollout_items_for_turns(&turns);
    items.push(rolled_back(1));
    let branch_path = disk.write_rollout_items("branch-id", Some("base-id"), items);
    let merged = disk.merge("base-id", &base_path, &[("branch-id", &branch_path)]).unwrap();
    assert_eq!(disk.logical_turn_pairs(&merged), vec![pair("base-1", "base-1 answer")]);
}

#[test]
fn merge_preserves_rollback_of_inherited_turn_before_new_turn() {
    let mut disk = Disk::new();
    let turns = [("base-1", "base-1 answer"), ("base-2", "base-2 answer")];
    let base_path = disk.write_rollout("base-id", None, &turns);
    let mut items = rollout_items_for_turns(&turns);
    items.push(rolled_back(1));
    items.extend(rollout_items_for_turns(&[("branch", "branch answer")]));
    let branch_path = disk.write_rollout_items("branch-id", Some("base-id"), items);
    let merged = disk.merge("base-id", &base_path, &[("branch-id", &branch_path)]).unwrap();
    assert_eq!(
        disk.logical_turn_pairs(&merged),
        vec![pair("base-1", "base-1 answer"), pair("branch", "branch answer")]
    );
}

#[test]
fn merge_uses_logical_state_after_rollback() {
    let mut disk = Disk::new();
    let base_path = disk.write_rollout("base-id", None, &[("base", "base answer")]);
    let mut items =
        rollout_items_for_turns(&[("base", "base answer"), ("branch", "branch answer")]);
    items.push(rolled_back(1));
    let branch_path = disk.write_rollout_items("branch-id", Some("base-id"), items);
    let merged = disk.merge("base-id", &base_path, &[("branch-id", &branch_path)]).unwrap();
    assert_eq!(disk.logical_turn_pairs(&merged), vec![pair("base", "base answer")]);
}

#[test]
fn merge_duplicate_source_ids_in_single_request_errors() {
    let mut disk = Disk::new();
    let base_path = disk.write_rollout("base-id", None, &[("base", "base answer")]);
    let child_path = disk.write_rollout(
        "child-id",
        Some("base-id"),
        &[("base", "base answer"), ("child", "child answer")],
    );
    let err = disk
        .merge("base-id", &base_path, &[("child-id", &child_path), ("child-id", &child_path)])
        .unwrap_err();
    assert_eq!(err.message(), "duplicate merge source id child-id");
}

#[test]
fn thread_merge_rejects_non_descendants() {
    let mut disk = Disk::new();
    let base_path = disk.write_rollout_items("base-id", None, vec![event("base")]);
    let other_path = disk.write_rollout_items("other-id", None, vec![event("other")]);
    let err = disk.merge("base-id", &base_path, &[("other-id", &other_path)]).unwrap_err();
    assert!(err.message().contains("is not a descendant"));
}

#[test]
fn thread_merge_rejects_cyclic_descendants() {
    let mut disk = Disk::new();
    let base_path = disk.write_rollout_items("base-id", None, vec![event("base")]);
    let cyclic_path = disk.write_rollout("cyclic-id", Some("cyclic-id"), &[]);
    let err = disk.merge("base-id", &base_path, &[("cyclic-id", &cyclic_path)]).unwrap_err();
    assert!(err.message().contains("is not a descendant"));
}

fn turns_with_events(turns: &[(&str, &str)]) -> Vec<RolloutItem> {
    let mut items = Vec::new();
    for (user, assistant) in turns {
        items.extend(rollout_items_for_turns(&[(*user, *assistant)]));
        items.push(event(user));
        items.push(event(assistant));
    }
    items
}

#[test]
fn grandchild_selected_first_is_merged_after_its_parent() {
    let mut disk = Disk::new();
    let base_path = disk.write_rollout("base-id", None, &[]);
    let child_path = disk.write_rollout_items(
        "child-id",
        Some("base-id"),
        turns_with_events(&[("child user", "child answer")]),
    );
    let grandchild_path = disk.write_rollout_items(
        "grandchild-id",
        Some("child-id"),
        turns_with_events(&[
            ("child user", "child answer"),
            ("grandchild user", "grandchild answer"),
        ]),
    );
    let merged = disk
        .merge(
            "base-id",
            &base_path,
            &[("grandchild-id", &grandchild_path), ("child-id", &child_path)],
        )
        .unwrap();
    let turns = disk.logical_turn_pairs(&merged);
    assert_eq!(turns.len(), 2);
    assert_eq!(turns[0].0, "child user");
    assert_eq!(turns[1].0, "grandchild user");
}

#[test]
fn branches_of_an_empty_base_are_merged_in_order() {
    let mut disk = Disk::new();
    let base_path = disk.write_rollout("base-id", None, &[]);
    let branch_a = disk.write_rollout_items(
        "branch-a",
        Some("base-id"),
        turns_with_events(&[("branch a user", "branch a answer")]),
    );
    let branch_b = disk.write_rollout_items(
        "branch-b",
        Some("base-id"),
        turns_with_events(&[("branch b user", "branch b answer")]),
    );
    let merged = disk
        .merge("base-id", &base_path, &[("branch-a", &branch_a), ("branch-b", &branch_b)])
        .unwrap();
    let turns = disk.logical_turn_pairs(&merged);
    assert_eq!(turns.len(), 2);
    assert_eq!(turns[0].0, "branch a user");
    assert_eq!(turns[1].0, "branch b user");
}

#[test]
fn thread_merge_preserves_descendant_rollback_of_inherited_turn() {
    let mut disk = Disk::new();
    let turns = [("base-1", "base-1 answer"), ("base-2", "base-2 answer")];
    let base_path = disk.write_rollout_items("base-id", None, turns_with_events(&turns));
    let mut items = turns_with_events(&turns);
    items.push(rolled_back(1));
    items.extend(turns_with_events(&[("branch", "branch answer")]));
    let branch_path = disk.write_rollout_items("branch-id", Some("base-id"), items);
    let merged = disk.merge("base-id", &base_path, &[("branch-id", &branch_path)]).unwrap();
    let turns = disk.logical_turn_pairs(&merged);
    assert_eq!(turns.len(), 2);
    assert_eq!(turns[0].0, "base-1");
    assert_eq!(turns[1].0, "branch");
}

#[test]
fn merge_drops_boundaries_and_provenance() {
    let mut disk = Disk::new();
    let mut lines = vec![session_meta("base-id", None)];
    if let RolloutItem::SessionMeta(line) = &mut lines[0] {
        line.meta.merge_base_thread_id = Some(id("old-base"));
        line.meta.merged_from_thread_ids = Some(vec![id("old-source")]);
    }
    lines.extend(rollout_items_for_turns(&[("b1", "a1")]));
    lines.push(RolloutItem::MergeBoundary(MergeBoundaryItem {
        source_thread_id: id("old-source"),
    }));
    let base_path = disk.write_lines("base-id", lines);
    let mut items = rollout_items_for_turns(&[("b1", "a1"), ("c1", "a2")]);
    items.push(RolloutItem::MergeBoundary(MergeBoundaryItem { source_thread_id: id("x") }));
    let child_path = disk.write_rollout_items("child-id", Some("base-id"), items);
    let merged = disk.merge("base-id", &base_path, &[("child-id", &child_path)]).unwrap();
    let mut expected = vec![session_meta("base-id", None)];
    expected.extend(rollout_items_for_turns(&[("b1", "a1"), ("c1", "a2")]));
    assert_eq!(merged, expected);
}

#[test]
fn merge_without_session_metadata_is_refused() {
    let mut disk = Disk::new();
    let base_path = disk.write_lines("base-id", rollout_items_for_turns(&[("b1", "a1")]));
    let err = disk.merge("base-id", &base_path, &[]).unwrap_err();
    assert_eq!(
        err.message(),
        format!("missing session metadata in base rollout `{}`", base_path.text)
    );
    let mut disk = Disk::new();
    let base_path = disk.write_lines("base-id", Vec::new());
    assert!(disk.merge("base-id", &base_path, &[]).is_err());
}

#[test]
fn merge_of_a_short_path_is_refused() {
    let mut disk = Disk::new();
    let short = path_record("/a/b/c/rollout.jsonl");
    let err = disk.merge("base-id", &short, &[]).unwrap_err();
    assert_eq!(
        err.message(),
        "failed to derive codex home from rollout `/a/b/c/rollout.jsonl`"
    );
    assert_eq!(disk.requests, 0);
}

#[test]
fn merge_is_refused_for_the_first_obstacle() {
    let mut disk = Disk::new();
    let base_path = disk.write_rollout("base-id", None, &[("b1", "a1")]);
    let child_path = disk.write_rollout("child-id", Some("base-id"), &[("b1", "a1")]);
    let other_path = disk.write_rollout("other-id", None, &[]);
    let err = disk
        .merge(
            "base-id",
            &base_path,
            &[("child-id", &child_path), ("other-id", &other_path), ("child-id", &child_path)],
        )
        .unwrap_err();
    assert_eq!(
        err,
        InvalidRequest::NotDescendant {
            thread_id: id("other-id"),
            base_thread_id: id("base-id"),
        }
    );
}

#[test]
fn merge_of_a_thread_whose_parent_is_gone_is_refused() {
    let mut disk = Disk::new();
    let base_path = disk.write_rollout("base-id", None, &[("b1", "a1")]);
    let child_path = disk.write_rollout("child-id", Some("gone-id"), &[("b1", "a1")]);
    let err = disk.merge("base-id", &base_path, &[("child-id", &child_path)]).unwrap_err();
    assert_eq!(err.message(), "thread child-id is not a descendant of base-id");
}

#[test]
fn merge_asks_for_nothing_twice() {
    let mut disk = Disk::new();
    let base_path = disk.write_rollout("base-id", None, &[("b1", "a1")]);
    let child_path =
        disk.write_rollout("child-id", Some("base-id"), &[("b1", "a1"), ("c1", "c")]);
    disk.merge("base-id", &base_path, &[("child-id", &child_path)]).unwrap();
    // The metadata of the child, the base and the child.
    assert_eq!(disk.requests, 3);
}

#[test]
fn merging_a_continuation_twice_adds_nothing() {
    let mut disk = Disk::new();
    let base_path = disk.write_rollout("base-id", None, &[("b1", "a1")]);
    let child_path =
        disk.write_rollout("child-id", Some("base-id"), &[("b1", "a1"), ("c1", "c")]);
    let copy_path =
        disk.write_rollout("copy-id", Some("base-id"), &[("b1", "a1"), ("c1", "c")]);
    let once = disk.merge("base-id", &base_path, &[("child-id", &child_path)]).unwrap();
    let twice = disk
        .merge("base-id", &base_path, &[("child-id", &child_path), ("copy-id", &copy_path)])
        .unwrap();
    assert_eq!(once, twice);
}

#[test]
fn merge_of_no_source_copies_the_base() {
    let mut disk = Disk::new();
    let base_path = disk.write_rollout("base-id", None, &[("b1", "a1")]);
    let merged = disk.merge("base-id", &base_path, &[]).unwrap();
    assert_eq!(&merged, disk.items(&base_path));
}

#[test]
fn merge_takes_along_what_leads_into_the_first_new_turn() {
    let mut disk = Disk::new();
    let base_path = disk.write_rollout("base-id", None, &[("b1", "a1")]);
    let mut items = rollout_items_for_turns(&[("b1", "a1")]);
    items.push(event("done"));
    items.push(turn_context());
    items.push(turn_context());
    items.extend(rollout_items_for_turns(&[("c1", "c")]));
    let child_path = disk.write_rollout_items("child-id", Some("base-id"), items);
    let merged = disk.merge("base-id", &base_path, &[("child-id", &child_path)]).unwrap();
    let mut expected = vec![session_meta("base-id", None)];
    expected.extend(rollout_items_for_turns(&[("b1", "a1")]));
    expected.push(turn_context());
    expected.push(turn_context());
    expected.extend(rollout_items_for_turns(&[("c1", "c")]));
    assert_eq!(merged, expected);
}

#[test]
fn merge_starts_at_the_rollback_also_where_turns_follow_it() {
    let mut disk = Disk::new();
    let turns = [("b1", "a1"), ("b2", "a2"), ("b3", "a3")];
    let base_path = disk.write_rollout("base-id", None, &turns);
    let mut items = rollout_items_for_turns(&turns);
    items.push(rolled_back(2));
    items.extend(rollout_items_for_turns(&[("b2", "a2"), ("n", "new")]));
    items.push(rolled_back(1));
    let branch_path = disk.write_rollout_items("branch-id", Some("base-id"), items);
    let merged = disk.merge("base-id", &base_path, &[("branch-id", &branch_path)]).unwrap();
    assert_eq!(disk.logical_turn_pairs(&merged), vec![pair("b1", "a1"), pair("b2", "a2")]);
}

#[test]
fn turns_after_a_compaction_without_recorded_replacement() {
    let mut disk = Disk::new();
    let mut items = rollout_items_for_turns(&[("u1", "a1"), ("u2", "a2")]);
    items.push(compacted("summary", None));
    items.extend(rollout_items_for_turns(&[("u3", "a3")]));
    assert_eq!(
        disk.logical_turn_pairs(&items),
        vec![
            ("u1".to_string(), None),
            ("u2".to_string(), None),
            ("summary".to_string(), None),
            pair("u3", "a3"),
        ]
    );
    // The messages of the user, and the history built from them.
    assert_eq!(disk.requests, 2);
}

#[test]
fn a_compaction_goes_by_the_messages_of_the_user() {
    let mut disk = Disk::new();
    let compact = |answer: &str| {
        let mut items = rollout_items_for_turns(&[("u1", answer)]);
        items.push(compacted("summary", None));
        items
    };
    let asked = |answers: &Answers, items: &[RolloutItem]| match effective_turns(answers, items) {
        Err(request) => request,
        Ok(turns) => panic!("not asked but {turns:?}"),
    };
    let mut answers = Answers::new();
    match asked(&answers, &compact("a1")) {
        Request::UserMessages { history } => {
            assert_eq!(
                history,
                vec![response_message("user", "u1"), response_message("assistant", "a1")]
            );
            disk.answer(&mut answers, Request::UserMessages { history });
        }
        other => panic!("asked for {other:?}"),
    }
    match asked(&answers, &compact("a1")) {
        Request::CompactedHistory { user_messages, message } => {
            assert_eq!(user_messages, vec!["u1".to_string()]);
            assert_eq!(message, "summary");
            disk.answer(&mut answers, Request::CompactedHistory { user_messages, message });
        }
        other => panic!("asked for {other:?}"),
    }
    let first = effective_turns(&answers, &compact("a1")).unwrap();
    // Another answer to the same message: what was built serves again.
    let request = asked(&answers, &compact("a2"));
    assert!(matches!(request, Request::UserMessages { .. }));
    disk.answer(&mut answers, request);
    let second = effective_turns(&answers, &compact("a2")).unwrap();
    assert_eq!(pairs(&first), pairs(&second));
}

#[test]
fn turns_start_at_what_leads_into_them() {
    let answers = Answers::new();
    let mut items = vec![session_meta("t", None), turn_context()];
    items.extend(rollout_items_for_turns(&[("u1", "a1")]));
    items.push(turn_context());
    items.extend(rollout_items_for_turns(&[("u2", "a2")]));
    let turns = effective_turns(&answers, &items).unwrap();
    assert_eq!(turns.len(), 2);
    assert_eq!(turns[0].start_idx, 1);
    assert_eq!(turns[1].start_idx, 5);
}

#[test]
fn rollback_of_more_turns_than_there_are_leaves_none() {
    let mut disk = Disk::new();
    let mut items = rollout_items_for_turns(&[("u1", "a1"), ("u2", "a2")]);
    items.push(rolled_back(u64::MAX));
    assert_eq!(disk.logical_turn_pairs(&items), Vec::new());
    items.pop();
    items.push(rolled_back(0));
    assert_eq!(disk.logical_turn_pairs(&items).len(), 2);
}

#[test]
fn a_chain_comes_to_the_same_in_every_order() {
    let mut disk = Disk::new();
    let base_path = disk.write_rollout("base-id", None, &[("b", "b")]);
    let one = disk.write_rollout("one", Some("base-id"), &[("b", "b"), ("1", "1")]);
    let two = disk.write_rollout("two", Some("one"), &[("b", "b"), ("1", "1"), ("2", "2")]);
    let forward = disk.merge("base-id", &base_path, &[("one", &one), ("two", &two)]).unwrap();
    let backward = disk.merge("base-id", &base_path, &[("two", &two), ("one", &one)]).unwrap();
    assert_eq!(forward, backward);
}

#[test]
fn a_recorded_answer_stays() {
    let mut answers = Answers::new();
    let path = rollout_path("t");
    assert!(answers.session_metas.get(&path).is_none());
    let line = |name: &str| match session_meta(name, None) {
        RolloutItem::SessionMeta(line) => line,
        other => panic!("no session metadata but {other:?}"),
    };
    answers.session_metas.record(path.clone(), line("t"));
    answers.session_metas.record(path.clone(), line("u"));
    assert_eq!(answers.session_metas.get(&path), Some(&line("t")));
    assert!(answers.session_metas.get(&rollout_path("u")).is_none());
}

#[test]
fn the_first_request_of_a_merge_is_for_the_line_of_descent() {
    let base_path = rollout_path("base-id");
    let sources = [MergeSource { thread_id: id("child-id"), path: rollout_path("child-id") }];
    match build_merged_rollout(&Answers::new(), &id("base-id"), &base_path, &sources) {
        Err(Halt::Asks(Request::SessionMeta { path })) => {
            assert_eq!(path, rollout_path("child-id"));
        }
        other => panic!("not asked but {other:?}"),
    }
}

#[test]
fn a_fork_of_a_compacted_and_rolled_back_thread_adds_what_it_said_since() {
    let mut disk = Disk::new();
    let mut items = rollout_items_for_turns(&[("b1", "a1"), ("b2", "a2")]);
    items.push(compacted("summary", Some(vec![response_message("user", "summary")])));
    items.extend(rollout_items_for_turns(&[("b3", "a3"), ("b4", "a4")]));
    items.push(rolled_back(1));
    let base_path = disk.write_rollout_items("base-id", None, items.clone());
    items.extend(rollout_items_for_turns(&[("c1", "c")]));
    let child_path = disk.write_rollout_items("child-id", Some("base-id"), items);
    let merged = disk.merge("base-id", &base_path, &[("child-id", &child_path)]).unwrap();
    let mut expected = disk.items(&base_path).clone();
    expected.extend(rollout_items_for_turns(&[("c1", "c")]));
    assert_eq!(merged, expected);
    assert_eq!(
        disk.logical_turn_pairs(&merged),
        vec![("summary".to_string(), None), pair("b3", "a3"), pair("c1", "c")]
    );
}

#[test]
fn a_fork_right_behind_a_compaction_repeats_the_compaction() {
    let mut disk = Disk::new();
    let mut items = rollout_items_for_turns(&[("b1", "a1")]);
    items.push(compacted("summary", Some(vec![response_message("user", "summary")])));
    let base_path = disk.write_rollout_items("base-id", None, items.clone());
    items.extend(rollout_items_for_turns(&[("c1", "c")]));
    let child_path = disk.write_rollout_items("child-id", Some("base-id"), items);
    let merged = disk.merge("base-id", &base_path, &[("child-id", &child_path)]).unwrap();
    assert_eq!(merged.len(), 7);
    assert_eq!(
        disk.logical_turn_pairs(&merged),
        vec![("summary".to_string(), None), pair("c1", "c")]
    );
}

#[test]
fn a_copy_of_a_thread_that_ends_in_a_turn_context_adds_what_comes_behind_it() {
    let mut disk = Disk::new();
    let mut items = rollout_items_for_turns(&[("b1", "a1"), ("b2", "a2")]);
    items.push(rolled_back(1));
    items.push(turn_context());
    items.push(RolloutItem::ResponseItem(response_message("assistant", "unasked")));
    let base_path = disk.write_rollout_items("base-id", None, items.clone());
    items.push(turn_context());
    items.extend(rollout_items_for_turns(&[("c1", "c")]));
    let child_path = disk.write_rollout_items("child-id", Some("base-id"), items.clone());
    let merged = disk.merge("base-id", &base_path, &[("child-id", &child_path)]).unwrap();
    // The turn starts at the context, and brings what follows it along.
    let mut expected = disk.items(&base_path).clone();
    expected.extend(items[5..].iter().cloned());
    assert_eq!(merged, expected);
    assert_eq!(disk.logical_turn_pairs(&merged), vec![pair("b1", "a1"), pair("c1", "c")]);
    assert_eq!(disk.logical_turn_pairs(&merged), disk.logical_turn_pairs(&items));
}

#[test]
fn a_fork_right_behind_a_compaction_without_recorded_replacement_compacts_again() {
    let mut disk = Disk::new();
    let mut items = rollout_items_for_turns(&[("b1", "a1")]);
    items.push(compacted("summary", None));
    let base_path = disk.write_rollout_items("base-id", None, items.clone());
    items.extend(rollout_items_for_turns(&[("c1", "c")]));
    let child_path = disk.write_rollout_items("child-id", Some("base-id"), items.clone());
    let once = |user: &str| (user.to_string(), None);
    assert_eq!(
        disk.logical_turn_pairs(&items),
        vec![once("b1"), once("summary"), pair("c1", "c")]
    );
    let merged = disk.merge("base-id", &base_path, &[("child-id", &child_path)]).unwrap();
    assert_eq!(
        disk.logical_turn_pairs(&merged),
        vec![once("b1"), once("summary"), once("summary"), pair("c1", "c")]
    );
}

// A rollback is appended as it stands, so that it takes back as many turns of
// the merged rollout as it took back of the source's. Where some of the
// source's were its own, and are not appended, more of the shared turns go than
// went in the source.
#[test]
fn a_rollback_of_new_and_shared_turns_takes_back_as_many_shared_ones() {
    let mut disk = Disk::new();
    let base_path = disk.write_rollout("base-id", None, &[("b1", "a1"), ("b2", "a2")]);
    let mut items = rollout_items_for_turns(&[("b1", "a1"), ("b2", "a2"), ("n1", "x1")]);
    items.push(rolled_back(2));
    items.extend(rollout_items_for_turns(&[("n2", "x2")]));
    let branch_path = disk.write_rollout_items("branch-id", Some("base-id"), items.clone());
    assert_eq!(disk.logical_turn_pairs(&items), vec![pair("b1", "a1"), pair("n2", "x2")]);
    let merged = disk.merge("base-id", &base_path, &[("branch-id", &branch_path)]).unwrap();
    assert_eq!(disk.logical_turn_pairs(&merged), vec![pair("n2", "x2")]);
}

#[test]
fn a_rollback_of_new_turns_is_passed_over_for_one_of_shared_turns() {
    let mut disk = Disk::new();
    let base_path = disk.write_rollout("base-id", None, &[("b1", "a1"), ("b2", "a2")]);
    let mut items = rollout_items_for_turns(&[("b1", "a1"), ("b2", "a2"), ("n1", "x1")]);
    items.push(rolled_back(1));
    items.push(rolled_back(1));
    let branch_path = disk.write_rollout_items("branch-id", Some("base-id"), items);
    let merged = disk.merge("base-id", &base_path, &[("branch-id", &branch_path)]).unwrap();
    let mut expected = disk.items(&base_path).clone();
    expected.push(rolled_back(1));
    assert_eq!(merged, expected);
    assert_eq!(disk.logical_turn_pairs(&merged), vec![pair("b1", "a1")]);
}

#[test]
fn a_rollback_behind_a_new_turn_that_stays_comes_along() {
    let mut disk = Disk::new();
    let base_path = disk.write_rollout("base-id", None, &[("b1", "a1")]);
    let mut added = rollout_items_for_turns(&[("n1", "x1"), ("n2", "x2")]);
    added.push(rolled_back(1));
    added.extend(rollout_items_for_turns(&[("n3", "x3")]));
    let mut items = rollout_items_for_turns(&[("b1", "a1")]);
    items.extend(added.iter().cloned());
    let branch_path = disk.write_rollout_items("branch-id", Some("base-id"), items);
    let merged = disk.merge("base-id", &base_path, &[("branch-id", &branch_path)]).unwrap();
    let mut expected = disk.items(&base_path).clone();
    expected.extend(added);
    assert_eq!(merged, expected);
    assert_eq!(
        disk.logical_turn_pairs(&merged),
        vec![pair("b1", "a1"), pair("n1", "x1"), pair("n3", "x3")]
    );
}

#[test]
fn items_that_say_nothing_change_no_turn() {
    let mut disk = Disk::new();
    let mut bare = rollout_items_for_turns(&[("u1", "a1"), ("u2", "a2")]);
    bare.push(rolled_back(1));
    bare.extend(rollout_items_for_turns(&[("u3", "a3")]));
    let mut full = vec![session_meta("t", None)];
    for item in &bare {
        full.push(turn_context());
        full.push(event("note"));
        full.push(RolloutItem::MergeBoundary(MergeBoundaryItem { source_thread_id: id("x") }));
        full.push(item.clone());
    }
    assert_eq!(disk.logical_turn_pairs(&bare), vec![pair("u1", "a1"), pair("u3", "a3")]);
    assert_eq!(disk.logical_turn_pairs(&full), disk.logical_turn_pairs(&bare));
}

#[test]
fn turns_start_one_behind_the_other() {
    let mut items = rollout_items_for_turns(&[("u1", "a1")]);
    items.push(compacted(
        "summary",
        Some(vec![response_message("user", "u1"), response_message("user", "summary")]),
    ));
    items.extend(rollout_items_for_turns(&[("u2", "a2"), ("u3", "a3")]));
    let turns = effective_turns(&Answers::new(), &items).unwrap();
    let starts: Vec<usize> = turns.iter().map(|turn| turn.start_idx).collect();
    assert_eq!(starts, vec![2, 2, 2, 5]);
}

#[test]
fn a_rollback_is_judged_by_the_most_turns_ever_in_common() {
    let answers = Answers::new();
    let shared = [("b1", "a1"), ("b2", "a2"), ("b3", "a3")];
    let merged_turns = effective_turns(&answers, &rollout_items_for_turns(&shared)).unwrap();
    // Three turns are in common before the compaction, one after it.
    let mut items = rollout_items_for_turns(&shared);
    items.push(compacted(
        "summary",
        Some(vec![response_message("user", "b1"), response_message("assistant", "a1")]),
    ));
    items.push(rolled_back(0));
    let found = |final_len: usize| {
        first_rollback_that_removes_shared_turns(&answers, &items, &merged_turns, final_len)
            .unwrap()
    };
    assert_eq!(found(1), Some(7));
    assert_eq!(found(2), Some(7));
    assert_eq!(found(3), None);
}

#[test]
fn three_generations_are_put_in_order() {
    let mut disk = Disk::new();
    let base_path = disk.write_rollout("base-id", None, &[("b", "b")]);
    let one = disk.write_rollout("one", Some("base-id"), &[("b", "b"), ("1", "1")]);
    let two = disk.write_rollout("two", Some("one"), &[("b", "b"), ("1", "1"), ("2", "2")]);
    let three = disk.write_rollout(
        "three",
        Some("two"),
        &[("b", "b"), ("1", "1"), ("2", "2"), ("3", "3")],
    );
    let merged = disk
        .merge("base-id", &base_path, &[("three", &three), ("one", &one), ("two", &two)])
        .unwrap();
    assert_eq!(
        disk.logical_turn_pairs(&merged),
        vec![pair("b", "b"), pair("1", "1"), pair("2", "2"), pair("3", "3")]
    );
}
