//! What the policy remembers between events.

use crate::focus::FocusValue;
use crate::path::{CgroupPath, PathModel};
use crate::paths::{PathMap, PathSet, WatchMap};
use vstd::prelude::*;

verus! {

/// What the policy remembers, over mathematical values.
pub struct PolicyModel {
    /// The root of the cgroup file system.
    pub root: PathModel,
    /// Whether there is a set of watches to add to.
    pub watching: bool,
    /// The cgroup behind each watch.
    pub watches: Seq<(i32, PathModel)>,
    /// The watch on each tracked cgroup.
    pub paths: Seq<(PathModel, i32)>,
    /// Cgroups that could not be tracked yet.
    pub pending_registration: Seq<PathModel>,
    /// Cgroups tracked since the last look at the focus.
    pub pending_focus_checks: Seq<PathModel>,
    /// The cgroups that claim the focus, where more than one does.
    pub ambiguous_active: Seq<PathModel>,
    /// The focus attributes last seen.
    pub focus_values: Seq<(PathModel, Option<Seq<u8>>)>,
    /// Cgroups whose boost is outstanding.
    pub pending_apply: Seq<PathModel>,
    /// Cgroups whose restoration is outstanding.
    pub pending_restore: Seq<PathModel>,
    /// The boosted cgroup.
    pub foreground: Option<PathModel>,
}

/// What the policy remembers.
pub struct PolicyState {
    pub root: CgroupPath,
    pub watching: bool,
    pub watches: WatchMap,
    pub paths: PathMap<i32>,
    pub pending_registration: PathSet,
    pub pending_focus_checks: PathSet,
    pub ambiguous_active: PathSet,
    pub focus_values: PathMap<FocusValue>,
    pub pending_apply: PathSet,
    pub pending_restore: PathSet,
    pub foreground: Option<CgroupPath>,
}

/// The model of a path that may be absent.
pub open spec fn optional(path: Option<CgroupPath>) -> Option<PathModel> {
    match path {
        Some(path) => Some(path@),
        None => None,
    }
}

impl View for PolicyState {
    type V = PolicyModel;

    open spec fn view(&self) -> PolicyModel {
        PolicyModel {
            root: self.root@,
            watching: self.watching,
            watches: self.watches@,
            paths: self.paths@,
            pending_registration: self.pending_registration@,
            pending_focus_checks: self.pending_focus_checks@,
            ambiguous_active: self.ambiguous_active@,
            focus_values: self.focus_values@,
            pending_apply: self.pending_apply@,
            pending_restore: self.pending_restore@,
            foreground: optional(self.foreground),
        }
    }
}

/// What a policy remembers at the start: nothing.
pub open spec fn initial(root: PathModel, watching: bool) -> PolicyModel {
    PolicyModel {
        root,
        watching,
        watches: Seq::empty(),
        paths: Seq::empty(),
        pending_registration: Seq::empty(),
        pending_focus_checks: Seq::empty(),
        ambiguous_active: Seq::empty(),
        focus_values: Seq::empty(),
        pending_apply: Seq::empty(),
        pending_restore: Seq::empty(),
        foreground: None,
    }
}

impl PolicyState {
    /// A state that remembers nothing.
    pub fn new(root: CgroupPath, watching: bool) -> (state: Self)
        ensures
            state@ == initial(root@, watching),
    {
        PolicyState {
            root,
            watching,
            watches: WatchMap::new(),
            paths: PathMap::new(),
            pending_registration: PathSet::new(),
            pending_focus_checks: PathSet::new(),
            ambiguous_active: PathSet::new(),
            focus_values: PathMap::new(),
            pending_apply: PathSet::new(),
            pending_restore: PathSet::new(),
            foreground: None,
        }
    }

    /// Whether a cgroup is the boosted one.
    pub fn is_foreground(&self, path: &CgroupPath) -> (is: bool)
        ensures
            is == (self@.foreground == Some(path@)),
    {
        match &self.foreground {
            Some(foreground) => foreground.same(path),
            None => false,
        }
    }
}

}
