//! Where threads work, and whether two of them work in the same place.

use vstd::prelude::*;

use crate::path::{PathRecord, PathView};
use crate::same_value::SameValue;

verus! {

/// A directory: its path, and that path in the form that paths are compared
/// in, where it has one.
#[derive(Debug)]
pub struct ResolvedPath {
    pub path: PathRecord,
    pub normalized: Option<PathRecord>,
}

/// The directory that a thread works in, and the root of the git project that
/// it belongs to, if it belongs to one.
#[derive(Debug)]
pub struct Workspace {
    pub cwd: ResolvedPath,
    pub git_root: Option<ResolvedPath>,
}

/// The deep view of a `ResolvedPath`.
pub struct ResolvedView {
    pub path: PathView,
    pub normalized: Option<PathView>,
}

/// The deep view of a `Workspace`.
pub struct WorkspaceView {
    pub cwd: ResolvedView,
    pub git_root: Option<ResolvedView>,
}

impl DeepView for ResolvedPath {
    type V = ResolvedView;

    open spec fn deep_view(&self) -> ResolvedView {
        ResolvedView { path: self.path.deep_view(), normalized: self.normalized.deep_view() }
    }
}

impl DeepView for Workspace {
    type V = WorkspaceView;

    open spec fn deep_view(&self) -> WorkspaceView {
        WorkspaceView { cwd: self.cwd.deep_view(), git_root: self.git_root.deep_view() }
    }
}

/// Whether two paths are of the same directory: they are compared in their
/// normalized forms where both have one, and as they are otherwise.
pub open spec fn same_directory(lhs: ResolvedView, rhs: ResolvedView) -> bool {
    match (lhs.normalized, rhs.normalized) {
        (Some(lhs), Some(rhs)) => lhs.components == rhs.components,
        _ => lhs.path.components == rhs.path.components,
    }
}

/// Whether two workspaces are the same directory, or lie in one git project.
pub open spec fn share_workspace(lhs: WorkspaceView, rhs: WorkspaceView) -> bool {
    ||| same_directory(lhs.cwd, rhs.cwd)
    ||| match (lhs.git_root, rhs.git_root) {
        (Some(lhs_root), Some(rhs_root)) => same_directory(lhs_root, rhs_root),
        _ => false,
    }
}

/// Whether two paths are of the same directory.
pub fn paths_match(lhs: &ResolvedPath, rhs: &ResolvedPath) -> (result: bool)
    ensures
        result == same_directory(lhs.deep_view(), rhs.deep_view()),
{
    if let (Some(lhs), Some(rhs)) = (&lhs.normalized, &rhs.normalized) {
        return lhs.components.same(&rhs.components);
    }
    lhs.path.components.same(&rhs.path.components)
}

/// Whether two workspaces are the same directory, or lie in one git project.
pub fn paths_share_workspace(lhs_cwd: &Workspace, rhs_cwd: &Workspace) -> (result: bool)
    ensures
        result == share_workspace(lhs_cwd.deep_view(), rhs_cwd.deep_view()),
{
    if paths_match(&lhs_cwd.cwd, &rhs_cwd.cwd) {
        return true;
    }
    match (&lhs_cwd.git_root, &rhs_cwd.git_root) {
        (Some(lhs_root), Some(rhs_root)) => paths_match(lhs_root, rhs_root),
        _ => false,
    }
}

/// A workspace is shared with itself.
pub proof fn lemma_share_workspace_reflexive(workspace: WorkspaceView)
    ensures
        share_workspace(workspace, workspace),
{
}

/// Which of two workspaces comes first does not matter.
pub proof fn lemma_share_workspace_symmetric(lhs: WorkspaceView, rhs: WorkspaceView)
    ensures
        share_workspace(lhs, rhs) == share_workspace(rhs, lhs),
{
}

/// What is known of the session metadata that the rollout of a thread opens
/// with.
#[derive(Debug)]
pub enum RolloutCwd {
    /// They have not been read.
    NotRead,
    /// They cannot be read.
    Unreadable,
    /// They give this directory.
    Read(PathRecord),
}

/// The directory that a thread was recorded to work in, or what there is to do
/// to tell.
#[derive(Debug)]
pub enum RecordedCwd {
    /// The session metadata of the rollout are to be read.
    ReadRollout,
    /// The thread works in this directory.
    Found(PathRecord),
    /// Nothing tells where it works.
    Unknown,
}

/// The deep view of a `RolloutCwd`.
pub enum RolloutCwdView {
    NotRead,
    Unreadable,
    Read(PathView),
}

/// The deep view of a `RecordedCwd`.
pub enum RecordedCwdView {
    ReadRollout,
    Found(PathView),
    Unknown,
}

impl DeepView for RolloutCwd {
    type V = RolloutCwdView;

    open spec fn deep_view(&self) -> RolloutCwdView {
        match self {
            RolloutCwd::NotRead => RolloutCwdView::NotRead,
            RolloutCwd::Unreadable => RolloutCwdView::Unreadable,
            RolloutCwd::Read(cwd) => RolloutCwdView::Read(cwd.deep_view()),
        }
    }
}

impl DeepView for RecordedCwd {
    type V = RecordedCwdView;

    open spec fn deep_view(&self) -> RecordedCwdView {
        match self {
            RecordedCwd::ReadRollout => RecordedCwdView::ReadRollout,
            RecordedCwd::Found(cwd) => RecordedCwdView::Found(cwd.deep_view()),
            RecordedCwd::Unknown => RecordedCwdView::Unknown,
        }
    }
}

/// The directory that a thread was recorded to work in: what the state
/// database has, unless that is nothing or the empty path, and else what the
/// rollout has, unless that is the empty path.
pub open spec fn recorded_cwd(
    state_db_cwd: Option<PathView>,
    rollout_cwd: RolloutCwdView,
) -> RecordedCwdView {
    match state_db_cwd {
        Some(cwd) if cwd.components.len() > 0 => RecordedCwdView::Found(cwd),
        _ => match rollout_cwd {
            RolloutCwdView::NotRead => RecordedCwdView::ReadRollout,
            RolloutCwdView::Read(cwd) if cwd.components.len() > 0 => RecordedCwdView::Found(cwd),
            _ => RecordedCwdView::Unknown,
        },
    }
}

/// The directory that a thread was recorded to work in.
pub fn resolve_recorded_thread_cwd(
    state_db_cwd: Option<PathRecord>,
    rollout_cwd: RolloutCwd,
) -> (result: RecordedCwd)
    ensures
        result.deep_view() == recorded_cwd(state_db_cwd.deep_view(), rollout_cwd.deep_view()),
{
    if let Some(cwd) = state_db_cwd {
        if cwd.components.len() > 0 {
            return RecordedCwd::Found(cwd);
        }
    }
    match rollout_cwd {
        RolloutCwd::NotRead => RecordedCwd::ReadRollout,
        RolloutCwd::Unreadable => RecordedCwd::Unknown,
        RolloutCwd::Read(cwd) => {
            if cwd.components.len() > 0 {
                RecordedCwd::Found(cwd)
            } else {
                RecordedCwd::Unknown
            }
        },
    }
}

/// No directory that is found is the empty path.
pub proof fn lemma_recorded_cwd_not_empty(
    state_db_cwd: Option<PathView>,
    rollout_cwd: RolloutCwdView,
)
    ensures
        recorded_cwd(state_db_cwd, rollout_cwd) matches RecordedCwdView::Found(cwd)
            ==> cwd.components.len() > 0,
{
}

/// Once the rollout has been tried, there is nothing more to read.
pub proof fn lemma_recorded_cwd_settled(
    state_db_cwd: Option<PathView>,
    rollout_cwd: RolloutCwdView,
)
    requires
        !(rollout_cwd is NotRead),
    ensures
        !(recorded_cwd(state_db_cwd, rollout_cwd) is ReadRollout),
{
}

} // verus!
