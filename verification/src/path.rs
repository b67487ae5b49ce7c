//! Paths, as the components that make them up.

use vstd::prelude::*;

use crate::same_value::SameValue;

verus! {

/// One component of a path. Names are kept as bytes: they need not be text.
#[derive(Debug, PartialEq, Eq, Hash)]
pub enum PathComponent {
    /// A drive or another prefix.
    Prefix(Vec<u8>),
    /// The root directory.
    RootDir,
    /// The current directory, `.`.
    CurDir,
    /// The parent directory, `..`.
    ParentDir,
    /// A file or directory name.
    Normal(Vec<u8>),
}

/// A path as it was recorded: how it is displayed, and its components.
///
/// Two paths name the same place when their components are equal, however
/// they are displayed. A path without components is the empty path.
#[derive(Debug, PartialEq, Eq, Hash)]
pub struct PathRecord {
    pub text: String,
    pub components: Vec<PathComponent>,
}

/// The deep view of a `PathComponent`.
#[verifier::ext_equal]
pub enum ComponentView {
    Prefix(Seq<u8>),
    RootDir,
    CurDir,
    ParentDir,
    Normal(Seq<u8>),
}

/// The deep view of a `PathRecord`.
#[verifier::ext_equal]
pub struct PathView {
    pub text: Seq<char>,
    pub components: Seq<ComponentView>,
}

impl DeepView for PathComponent {
    type V = ComponentView;

    open spec fn deep_view(&self) -> ComponentView {
        match self {
            PathComponent::Prefix(name) => ComponentView::Prefix(name.deep_view()),
            PathComponent::RootDir => ComponentView::RootDir,
            PathComponent::CurDir => ComponentView::CurDir,
            PathComponent::ParentDir => ComponentView::ParentDir,
            PathComponent::Normal(name) => ComponentView::Normal(name.deep_view()),
        }
    }
}

impl DeepView for PathRecord {
    type V = PathView;

    open spec fn deep_view(&self) -> PathView {
        PathView { text: self.text.deep_view(), components: self.components.deep_view() }
    }
}

impl Clone for PathComponent {
    fn clone(&self) -> (result: Self)
        ensures
            result.deep_view() == self.deep_view(),
    {
        let copy = match self {
            PathComponent::Prefix(name) => PathComponent::Prefix(name.clone()),
            PathComponent::RootDir => PathComponent::RootDir,
            PathComponent::CurDir => PathComponent::CurDir,
            PathComponent::ParentDir => PathComponent::ParentDir,
            PathComponent::Normal(name) => PathComponent::Normal(name.clone()),
        };
        assert(copy.deep_view() =~= self.deep_view());
        copy
    }
}

impl Clone for PathRecord {
    fn clone(&self) -> (result: Self)
        ensures
            result.deep_view() == self.deep_view(),
    {
        let copy = PathRecord { text: self.text.clone(), components: self.components.clone() };
        assert(copy.components.deep_view() =~= self.components.deep_view());
        copy
    }
}

impl SameValue for PathComponent {
    fn same(&self, other: &Self) -> (result: bool) {
        match (self, other) {
            (PathComponent::Prefix(a), PathComponent::Prefix(b)) => a.same(b),
            (PathComponent::RootDir, PathComponent::RootDir) => true,
            (PathComponent::CurDir, PathComponent::CurDir) => true,
            (PathComponent::ParentDir, PathComponent::ParentDir) => true,
            (PathComponent::Normal(a), PathComponent::Normal(b)) => a.same(b),
            _ => false,
        }
    }
}

impl SameValue for PathRecord {
    fn same(&self, other: &Self) -> (result: bool) {
        self.text.same(&other.text) && self.components.same(&other.components)
    }
}

/// The path without its final component. There is none of a path that ends in
/// a root or a prefix, nor of the empty path.
pub open spec fn parent(components: Seq<ComponentView>) -> Option<Seq<ComponentView>> {
    if components.len() == 0 {
        None
    } else {
        match components.last() {
            ComponentView::Prefix(_) => None,
            ComponentView::RootDir => None,
            _ => Some(components.drop_last()),
        }
    }
}

/// The path that is left after taking the parent `n` times.
pub open spec fn nth_ancestor(components: Seq<ComponentView>, n: nat) -> Option<
    Seq<ComponentView>,
>
    decreases n,
{
    if n == 0 {
        Some(components)
    } else {
        match parent(components) {
            None => None,
            Some(rest) => nth_ancestor(rest, (n - 1) as nat),
        }
    }
}

/// An ancestor is the path without its last `n` components.
pub proof fn lemma_ancestor_is_prefix(components: Seq<ComponentView>, n: nat)
    ensures
        nth_ancestor(components, n) matches Some(rest) ==> n <= components.len() && rest
            == components.take(components.len() - n),
    decreases n,
{
    if n == 0 {
        assert(components.take(components.len() as int) =~= components);
    } else if let Some(rest) = parent(components) {
        lemma_ancestor_is_prefix(rest, (n - 1) as nat);
        if let Some(last) = nth_ancestor(rest, (n - 1) as nat) {
            assert(rest.take(rest.len() - (n - 1)) =~= components.take(components.len() - n));
        }
    }
}

/// Taking `n + 1` parents is taking the parent of what `n` parents left.
proof fn lemma_next_ancestor(components: Seq<ComponentView>, n: nat)
    ensures
        nth_ancestor(components, n + 1) == match nth_ancestor(components, n) {
            None => None,
            Some(rest) => parent(rest),
        },
    decreases n,
{
    if n == 0 {
        reveal_with_fuel(nth_ancestor, 2);
    } else if let Some(rest) = parent(components) {
        lemma_next_ancestor(rest, (n - 1) as nat);
    }
}

/// The path that is left of `components` after taking the parent `n` times.
pub fn ancestor(components: &Vec<PathComponent>, n: usize) -> (result: Option<Vec<PathComponent>>)
    ensures
        result.deep_view() == nth_ancestor(components.deep_view(), n as nat),
{
    let mut rest: Vec<PathComponent> = components.clone();
    assert(rest.deep_view() =~= components.deep_view());
    for i in 0..n
        invariant
            nth_ancestor(components.deep_view(), i as nat) == Some(rest.deep_view()),
    {
        proof {
            lemma_next_ancestor(components.deep_view(), i as nat);
            lemma_later_ancestor(components.deep_view(), i as nat + 1, n as nat);
        }
        let ghost before = rest.deep_view();
        match rest.pop() {
            None => {
                return None;
            },
            Some(PathComponent::Prefix(_)) => {
                return None;
            },
            Some(PathComponent::RootDir) => {
                return None;
            },
            Some(_) => {
                assert(rest.deep_view() =~= before.drop_last());
            },
        }
    }
    Some(rest)
}

/// Once there is no ancestor, there is none further up.
proof fn lemma_later_ancestor(components: Seq<ComponentView>, n: nat, m: nat)
    requires
        n <= m,
    ensures
        nth_ancestor(components, n) is None ==> nth_ancestor(components, m) is None,
    decreases m - n,
{
    if n < m {
        lemma_next_ancestor(components, n);
        lemma_later_ancestor(components, n + 1, m);
    }
}

} // verus!
