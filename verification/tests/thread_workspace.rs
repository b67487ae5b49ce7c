use thread_rollout::path::{ancestor, PathComponent, PathRecord};
use thread_rollout::thread_merge::codex_home_from_rollout_path;
use thread_rollout::thread_workspace::{
    paths_share_workspace, resolve_recorded_thread_cwd, RecordedCwd, ResolvedPath, RolloutCwd,
    Workspace,
};

fn path_record(text: &str) -> PathRecord {
    let mut components = Vec::new();
    if text.starts_with('/') {
        components.push(PathComponent::RootDir);
    }
    for name in text.split('/') {
        if !name.is_empty() {
            components.push(PathComponent::Normal(name.as_bytes().to_vec()));
        }
    }
    PathRecord { text: text.to_string(), components }
}

fn resolved(text: &str) -> ResolvedPath {
    ResolvedPath { path: path_record(text), normalized: Some(path_record(text)) }
}

fn workspace(cwd: &str, git_root: Option<&str>) -> Workspace {
    Workspace { cwd: resolved(cwd), git_root: git_root.map(resolved) }
}

#[test]
fn paths_share_workspace_matches_sibling_worktrees_in_same_repo() {
    let workspace_a = workspace("/tmp/repo/workspace-a", Some("/tmp/repo"));
    let workspace_b = workspace("/tmp/repo/workspace-b", Some("/tmp/repo"));
    assert!(paths_share_workspace(&workspace_a, &workspace_b));
}

#[test]
fn paths_share_workspace_rejects_different_repo_roots() {
    let workspace_a = workspace("/tmp/repo-a/workspace", Some("/tmp/repo-a"));
    let workspace_b = workspace("/tmp/repo-b/workspace", Some("/tmp/repo-b"));
    assert!(!paths_share_workspace(&workspace_a, &workspace_b));
}

#[test]
fn paths_are_compared_as_they_are_where_one_cannot_be_normalized() {
    let gone = Workspace {
        cwd: ResolvedPath { path: path_record("/tmp/x"), normalized: None },
        git_root: None,
    };
    let linked = Workspace {
        cwd: ResolvedPath {
            path: path_record("/tmp/x/"),
            normalized: Some(path_record("/private/tmp/x")),
        },
        git_root: None,
    };
    let other = workspace("/private/tmp/x", None);
    assert!(paths_share_workspace(&gone, &linked));
    assert!(paths_share_workspace(&linked, &gone));
    assert!(paths_share_workspace(&linked, &other));
    assert!(!paths_share_workspace(&gone, &other));
    assert!(paths_share_workspace(&gone, &gone));
}

#[test]
fn directories_outside_of_git_projects_are_not_shared() {
    let a = workspace("/tmp/a", None);
    let b = workspace("/tmp/b", Some("/tmp/b"));
    assert!(!paths_share_workspace(&a, &b));
    assert!(!paths_share_workspace(&a, &workspace("/tmp/c", None)));
}

fn found(cwd: RecordedCwd) -> PathRecord {
    match cwd {
        RecordedCwd::Found(path) => path,
        other => panic!("not found but {other:?}"),
    }
}

#[test]
fn resolve_recorded_thread_cwd_prefers_state_db_when_rollout_cwd_is_empty() {
    let expected_cwd = path_record("/tmp/workspace");
    let cwd = resolve_recorded_thread_cwd(
        Some(expected_cwd.clone()),
        RolloutCwd::Read(path_record("")),
    );
    assert_eq!(found(cwd), expected_cwd);
    // The rollout need not even be read.
    let cwd = resolve_recorded_thread_cwd(Some(expected_cwd.clone()), RolloutCwd::NotRead);
    assert_eq!(found(cwd), expected_cwd);
}

#[test]
fn resolve_recorded_thread_cwd_uses_rollout_cwd_when_state_db_is_missing() {
    let expected_cwd = path_record("/tmp/workspace");
    let cwd = resolve_recorded_thread_cwd(None, RolloutCwd::NotRead);
    assert!(matches!(cwd, RecordedCwd::ReadRollout));
    let cwd = resolve_recorded_thread_cwd(None, RolloutCwd::Read(expected_cwd.clone()));
    assert_eq!(found(cwd), expected_cwd);
}

#[test]
fn an_empty_recorded_cwd_counts_for_nothing() {
    let cwd = resolve_recorded_thread_cwd(Some(path_record("")), RolloutCwd::NotRead);
    assert!(matches!(cwd, RecordedCwd::ReadRollout));
    let cwd = resolve_recorded_thread_cwd(Some(path_record("")), RolloutCwd::Unreadable);
    assert!(matches!(cwd, RecordedCwd::Unknown));
    let cwd =
        resolve_recorded_thread_cwd(Some(path_record("")), RolloutCwd::Read(path_record("")));
    assert!(matches!(cwd, RecordedCwd::Unknown));
}

#[test]
fn codex_home_is_five_directories_up() {
    let rollout = path_record("/home/user/.codex/sessions/2026/01/01/rollout.jsonl");
    assert_eq!(
        codex_home_from_rollout_path(&rollout).unwrap(),
        path_record("/home/user/.codex").components
    );
    let relative = path_record("sessions/2026/01/01/rollout.jsonl");
    assert_eq!(codex_home_from_rollout_path(&relative).unwrap(), Vec::new());
    let short = path_record("/2026/01/01/rollout.jsonl");
    assert_eq!(
        codex_home_from_rollout_path(&short).unwrap_err().message(),
        "failed to derive codex home from rollout `/2026/01/01/rollout.jsonl`"
    );
}

#[test]
fn ancestors_stop_at_the_root() {
    let path = path_record("/a/b").components;
    assert_eq!(ancestor(&path, 0), Some(path_record("/a/b").components));
    assert_eq!(ancestor(&path, 1), Some(path_record("/a").components));
    assert_eq!(ancestor(&path, 2), Some(path_record("/").components));
    assert_eq!(ancestor(&path, 3), None);
    let drive = vec![PathComponent::Prefix(b"C:".to_vec())];
    assert_eq!(ancestor(&drive, 1), None);
    let dots = vec![PathComponent::ParentDir, PathComponent::CurDir];
    assert_eq!(ancestor(&dots, 2), Some(Vec::new()));
}
