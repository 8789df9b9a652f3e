//! Finding the application cgroups beneath a root.

use crate::path;
use crate::path::{CgroupPath, PathModel};
use crate::paths;
use vstd::prelude::*;

verus! {

/// The paths of the entries of a directory.
pub open spec fn entries(directory: PathModel, names: Seq<Seq<u8>>) -> Seq<PathModel> {
    Seq::new(names.len(), |i: int| directory.push(names[i]))
}

/// Those of the paths that are application cgroups beneath a root.
pub open spec fn applications(root: PathModel, all: Seq<PathModel>) -> Seq<PathModel>
    decreases all.len(),
{
    if all.len() == 0 {
        Seq::empty()
    } else {
        let rest = applications(root, all.drop_last());
        if path::application_cgroup(root, all.last()) {
            rest.push(all.last())
        } else {
            rest
        }
    }
}

/// The directories to be listed, once the names of the directories in one are known.
pub open spec fn pending_with(
    pending: Seq<PathModel>,
    directory: PathModel,
    names: Seq<Seq<u8>>,
) -> Seq<PathModel> {
    pending + entries(directory, names)
}

/// The application cgroups found, once the names of the directories in a directory are
/// known.
pub open spec fn found_with(
    root: PathModel,
    found: Seq<PathModel>,
    directory: PathModel,
    names: Seq<Seq<u8>>,
) -> Seq<PathModel> {
    found + applications(root, entries(directory, names))
}

/// A walk through all directories beneath a root.
///
/// Its caller lists the directories; what is not a directory, such as a symbolic link
/// to one, has no place in those lists, so that the walk stays beneath the root.
pub struct Discovery {
    root: CgroupPath,
    pending: Vec<CgroupPath>,
    found: Vec<CgroupPath>,
}

impl Discovery {
    /// The root.
    pub closed spec fn root(&self) -> PathModel {
        self.root@
    }

    /// The directories to be listed, the next one last.
    pub closed spec fn pending(&self) -> Seq<PathModel> {
        paths::path_views(self.pending@)
    }

    /// The application cgroups found so far.
    pub closed spec fn found(&self) -> Seq<PathModel> {
        paths::path_views(self.found@)
    }

    /// Begins at the root.
    pub fn new(root: &CgroupPath) -> (walk: Self)
        ensures
            walk.root() == root@,
            walk.pending() == seq![root@],
            walk.found() == Seq::<PathModel>::empty(),
    {
        let mut pending: Vec<CgroupPath> = Vec::new();
        let start = root.duplicate();
        pending.push(start);
        let walk = Discovery { root: root.duplicate(), pending, found: Vec::new() };
        assert(walk.pending() =~= seq![root@]);
        assert(walk.found() =~= Seq::<PathModel>::empty());
        walk
    }

    /// The next directory to be listed. There is none when the walk is over.
    pub fn next_directory(&mut self) -> (directory: Option<CgroupPath>)
        ensures
            final(self).root() == old(self).root(),
            final(self).found() == old(self).found(),
            if old(self).pending().len() == 0 {
                directory is None && final(self).pending() == old(self).pending()
            } else {
                &&& directory matches Some(next) && next@ == old(self).pending().last()
                &&& final(self).pending() == old(self).pending().drop_last()
            },
    {
        let ghost before = self.pending();
        let directory = self.pending.pop();
        proof {
            if before.len() > 0 {
                assert(self.pending() =~= before.drop_last());
            } else {
                assert(self.pending() =~= before);
            }
        }
        directory
    }

    /// Takes the names of the directories in a directory.
    pub fn add_entries(&mut self, directory: &CgroupPath, names: &Vec<Vec<u8>>)
        ensures
            final(self).root() == old(self).root(),
            final(self).pending() == pending_with(
                old(self).pending(),
                directory@,
                path::views(names@),
            ),
            final(self).found() == found_with(
                old(self).root(),
                old(self).found(),
                directory@,
                path::views(names@),
            ),
    {
        let ghost all = entries(directory@, path::views(names@));
        let ghost pending = self.pending();
        let ghost found = self.found();
        let mut i: usize = 0;
        proof {
            assert(all.take(0) =~= Seq::<PathModel>::empty());
            assert(pending + all.take(0) =~= pending);
            assert(found + Seq::<PathModel>::empty() =~= found);
        }
        while i < names.len()
            invariant
                i <= names@.len(),
                all == entries(directory@, path::views(names@)),
                self.root() == old(self).root(),
                self.pending() == pending + all.take(i as int),
                self.found() == found + applications(self.root(), all.take(i as int)),
            decreases names@.len() - i,
        {
            let path = directory.entry(&names[i]);
            proof {
                assert(path@ == all[i as int]);
                assert(all.take(i + 1).drop_last() =~= all.take(i as int));
                assert(all.take(i + 1).last() == all[i as int]);
            }
            if path::is_application_cgroup(&self.root, &path) {
                let copy = path.duplicate();
                let ghost before = self.found();
                self.found.push(copy);
                proof {
                    assert(self.found() =~= before.push(path@));
                    assert(self.found() =~= found + applications(self.root(), all.take(i + 1)));
                }
            }
            let ghost before = self.pending();
            let ghost added = path@;
            self.pending.push(path);
            proof {
                assert(self.pending() =~= before.push(added));
                assert(self.pending() =~= pending + all.take(i + 1));
            }
            i = i + 1;
        }
        proof {
            assert(all.take(i as int) =~= all);
        }
    }

    /// The application cgroups that were found.
    pub fn into_found(self) -> (found: Vec<CgroupPath>)
        ensures
            paths::path_views(found@) == self.found(),
    {
        self.found
    }
}

/// Everything that a walk finds is an application cgroup beneath its root.
pub proof fn found_are_applications(root: PathModel, all: Seq<PathModel>)
    ensures
        forall|i: int|
            0 <= i < applications(root, all).len() ==> path::application_cgroup(
                root,
                #[trigger] applications(root, all)[i],
            ),
        forall|path: PathModel| #[trigger]
            applications(root, all).contains(path) <==> all.contains(path)
                && path::application_cgroup(root, path),
    decreases all.len(),
{
    if all.len() > 0 {
        let front = all.drop_last();
        let rest = applications(root, front);
        let result = applications(root, all);
        found_are_applications(root, front);
        assert forall|i: int| 0 <= i < result.len() implies path::application_cgroup(
            root,
            #[trigger] result[i],
        ) by {
            if i < rest.len() {
                assert(result[i] == rest[i]);
            }
        }
        assert forall|path: PathModel| #[trigger] result.contains(path) <==> all.contains(path)
            && path::application_cgroup(root, path) by {
            if result.contains(path) {
                let k = choose|k: int| 0 <= k < result.len() && result[k] == path;
                if k < rest.len() {
                    assert(rest[k] == path);
                    assert(rest.contains(path));
                    let m = choose|m: int| 0 <= m < front.len() && front[m] == path;
                    assert(all[m] == path);
                } else {
                    assert(all[all.len() - 1] == path);
                }
            }
            if all.contains(path) && path::application_cgroup(root, path) {
                let m = choose|m: int| 0 <= m < all.len() && all[m] == path;
                if m < front.len() {
                    assert(front[m] == path);
                    assert(rest.contains(path));
                    let k = choose|k: int| 0 <= k < rest.len() && rest[k] == path;
                    assert(result[k] == path);
                } else {
                    assert(result[rest.len() as int] == path);
                }
            }
        }
    }
}

/// A walk, over mathematical values.
pub struct Walk {
    /// The directories to be listed, the next one last.
    pub pending: Seq<PathModel>,
    /// The application cgroups found so far.
    pub found: Seq<PathModel>,
    /// The directories that have been listed.
    pub listed: Seq<PathModel>,
}

/// One step of a walk through a tree, given by the names of the directories in each
/// directory: the next directory is taken, listed, and its entries are added.
pub open spec fn step(tree: spec_fn(PathModel) -> Seq<Seq<u8>>, root: PathModel, walk: Walk) -> Walk {
    if walk.pending.len() == 0 {
        walk
    } else {
        let directory = walk.pending.last();
        let names = tree(directory);
        Walk {
            pending: pending_with(walk.pending.drop_last(), directory, names),
            found: found_with(root, walk.found, directory, names),
            listed: walk.listed.push(directory),
        }
    }
}

/// A walk after so many steps.
pub open spec fn walked(
    tree: spec_fn(PathModel) -> Seq<Seq<u8>>,
    root: PathModel,
    steps: nat,
) -> Walk
    decreases steps,
{
    if steps == 0 {
        Walk { pending: seq![root], found: Seq::empty(), listed: Seq::empty() }
    } else {
        step(tree, root, walked(tree, root, (steps - 1) as nat))
    }
}

/// Whether a directory is the root or beneath it, in a tree.
pub open spec fn reachable(
    tree: spec_fn(PathModel) -> Seq<Seq<u8>>,
    root: PathModel,
    path: PathModel,
) -> bool
    decreases path.len(),
{
    path == root || path.len() > root.len() && tree(path.drop_last()).contains(path.last())
        && reachable(tree, root, path.drop_last())
}

/// No directory lists a name twice.
pub open spec fn names_differ(tree: spec_fn(PathModel) -> Seq<Seq<u8>>) -> bool {
    forall|path: PathModel| (#[trigger] tree(path)).no_duplicates()
}

/// Whether a walk has come across a directory.
pub open spec fn met(walk: Walk, path: PathModel) -> bool {
    walk.pending.contains(path) || walk.listed.contains(path)
}

/// What holds of a walk at every step.
spec fn on_track(tree: spec_fn(PathModel) -> Seq<Seq<u8>>, root: PathModel, walk: Walk) -> bool {
    &&& walk.pending.no_duplicates()
    &&& walk.listed.no_duplicates()
    &&& walk.found.no_duplicates()
    &&& forall|path: PathModel| #[trigger]
        walk.pending.contains(path) ==> !walk.listed.contains(path)
    &&& met(walk, root)
    &&& forall|path: PathModel| #[trigger] met(walk, path) ==> reachable(tree, root, path)
    &&& forall|path: PathModel| #[trigger]
        met(walk, path) && path != root ==> path.len() > root.len() && walk.listed.contains(
            path.drop_last(),
        )
    &&& forall|path: PathModel, name: Seq<u8>| #[trigger]
        walk.listed.contains(path) && #[trigger] tree(path).contains(name) ==> met(
            walk,
            path.push(name),
        )
    &&& forall|path: PathModel| #[trigger]
        walk.found.contains(path) <==> met(walk, path) && path::application_cgroup(root, path)
}

/// The entries of a directory, as a set.
proof fn lemma_entries(directory: PathModel, names: Seq<Seq<u8>>)
    requires
        names.no_duplicates(),
    ensures
        entries(directory, names).no_duplicates(),
        forall|path: PathModel| #[trigger]
            entries(directory, names).contains(path) <==> path.len() > 0 && path.drop_last()
                == directory && names.contains(path.last()),
{
    let all = entries(directory, names);
    assert forall|i: int, j: int| 0 <= i < all.len() && 0 <= j < all.len() && i != j implies all[i]
        != all[j] by {
        assert(all[i].last() == names[i] && all[j].last() == names[j]);
    }
    assert forall|path: PathModel| #[trigger] all.contains(path) <==> path.len() > 0
        && path.drop_last() == directory && names.contains(path.last()) by {
        if all.contains(path) {
            let k = choose|k: int| 0 <= k < all.len() && all[k] == path;
            assert(directory.push(names[k]).drop_last() =~= directory);
            assert(names.contains(names[k]));
        }
        if path.len() > 0 && path.drop_last() == directory && names.contains(path.last()) {
            let k = choose|k: int| 0 <= k < names.len() && names[k] == path.last();
            assert(directory.push(names[k]) =~= path);
            assert(all[k] == path);
        }
    }
}

/// Applications of a list without duplicates have none.
proof fn lemma_applications_differ(root: PathModel, all: Seq<PathModel>)
    requires
        all.no_duplicates(),
    ensures
        applications(root, all).no_duplicates(),
    decreases all.len(),
{
    if all.len() > 0 {
        let front = all.drop_last();
        let rest = applications(root, front);
        let result = applications(root, all);
        assert(front.no_duplicates());
        lemma_applications_differ(root, front);
        found_are_applications(root, front);
        assert(!front.contains(all.last())) by {
            if front.contains(all.last()) {
                let k = choose|k: int| 0 <= k < front.len() && front[k] == all.last();
                assert(all[k] == all[all.len() - 1]);
            }
        }
        assert(!rest.contains(all.last()));
    }
}

/// Two lists without duplicates that have nothing in common.
proof fn lemma_joined(one: Seq<PathModel>, other: Seq<PathModel>)
    ensures
        forall|path: PathModel| #[trigger]
            (one + other).contains(path) <==> one.contains(path) || other.contains(path),
        one.no_duplicates() && other.no_duplicates() && (forall|path: PathModel| #[trigger]
            one.contains(path) ==> !other.contains(path)) ==> (one + other).no_duplicates(),
{
    let both = one + other;
    assert forall|path: PathModel| #[trigger] both.contains(path) <==> one.contains(path)
        || other.contains(path) by {
        if both.contains(path) {
            let k = choose|k: int| 0 <= k < both.len() && both[k] == path;
            if k < one.len() {
                assert(one[k] == path);
            } else {
                assert(other[k - one.len()] == path);
            }
        }
        if one.contains(path) {
            let k = choose|k: int| 0 <= k < one.len() && one[k] == path;
            assert(both[k] == path);
        }
        if other.contains(path) {
            let k = choose|k: int| 0 <= k < other.len() && other[k] == path;
            assert(both[k + one.len()] == path);
        }
    }
    if one.no_duplicates() && other.no_duplicates() && (forall|path: PathModel| #[trigger]
        one.contains(path) ==> !other.contains(path)) {
        assert forall|i: int, j: int|
            0 <= i < both.len() && 0 <= j < both.len() && i != j implies both[i] != both[j] by {
            if i < one.len() && j >= one.len() {
                assert(one.contains(one[i]));
                assert(other.contains(other[j - one.len()]));
            } else if j < one.len() && i >= one.len() {
                assert(one.contains(one[j]));
                assert(other.contains(other[i - one.len()]));
            }
        }
    }
}

proof fn lemma_step(tree: spec_fn(PathModel) -> Seq<Seq<u8>>, root: PathModel, walk: Walk)
    requires
        names_differ(tree),
        on_track(tree, root, walk),
        walk.pending.len() > 0,
    ensures
        on_track(tree, root, step(tree, root, walk)),
{
    let directory = walk.pending.last();
    let rest = walk.pending.drop_last();
    let names = tree(directory);
    let more = entries(directory, names);
    let now = step(tree, root, walk);
    assert(walk.pending[walk.pending.len() - 1] == directory);
    assert(walk.pending.contains(directory));
    assert(met(walk, directory));
    lemma_entries(directory, names);
    lemma_applications_differ(root, more);
    found_are_applications(root, more);
    lemma_joined(rest, more);
    lemma_joined(walk.found, applications(root, more));
    lemma_joined(walk.listed, seq![directory]);
    assert(now.listed =~= walk.listed + seq![directory]);
    assert(seq![directory].no_duplicates());
    assert forall|path: PathModel| #[trigger] seq![directory].contains(path) <==> path
        == directory by {
        assert(seq![directory][0] == directory);
    }
    assert(rest.no_duplicates());
    assert forall|path: PathModel| #[trigger] walk.pending.contains(path) <==> rest.contains(path)
        || path == directory by {
        if walk.pending.contains(path) {
            let k = choose|k: int| 0 <= k < walk.pending.len() && walk.pending[k] == path;
            if k < rest.len() {
                assert(rest[k] == path);
            }
        }
        if rest.contains(path) {
            let k = choose|k: int| 0 <= k < rest.len() && rest[k] == path;
            assert(walk.pending[k] == path);
        }
    }
    assert(!rest.contains(directory)) by {
        if rest.contains(directory) {
            let k = choose|k: int| 0 <= k < rest.len() && rest[k] == directory;
            assert(walk.pending[k] == walk.pending[walk.pending.len() - 1]);
        }
    }
    assert(reachable(tree, root, directory));
    assert(directory.len() >= root.len());
    assert forall|path: PathModel| #[trigger] more.contains(path) implies !met(walk, path) && path
        != root && path.len() > root.len() by {
        assert(path.drop_last() == directory);
        if met(walk, path) {
            assert(path != root);
            assert(walk.listed.contains(path.drop_last()));
        }
    }
    assert forall|path: PathModel| #[trigger] met(now, path) <==> met(walk, path) || more.contains(
        path,
    ) by {}
    assert forall|path: PathModel| #[trigger] rest.contains(path) implies !more.contains(path) by {
        assert(met(walk, path));
    }
    assert forall|path: PathModel| #[trigger] walk.found.contains(path) implies !applications(
        root,
        more,
    ).contains(path) by {
        assert(met(walk, path));
    }
    assert forall|path: PathModel| #[trigger] walk.listed.contains(path) implies !seq![
        directory,
    ].contains(path) by {}
    assert forall|path: PathModel| #[trigger] now.pending.contains(path) implies !now.listed.contains(
        path,
    ) by {
        if more.contains(path) {
            assert(!met(walk, path));
        } else {
            assert(walk.pending.contains(path));
        }
    }
    assert forall|path: PathModel| #[trigger] met(now, path) implies reachable(
        tree,
        root,
        path,
    ) by {
        if more.contains(path) {
            assert(path.drop_last() == directory);
        }
    }
    assert forall|path: PathModel| #[trigger] met(now, path) && path != root implies path.len()
        > root.len() && now.listed.contains(path.drop_last()) by {
        if more.contains(path) {
            assert(path.drop_last() == directory);
        } else {
            assert(met(walk, path));
        }
    }
    assert forall|path: PathModel, name: Seq<u8>| #[trigger]
        now.listed.contains(path) && #[trigger] tree(path).contains(name) implies met(
        now,
        path.push(name),
    ) by {
        if path == directory {
            assert(path.push(name).drop_last() =~= directory);
            assert(more.contains(path.push(name)));
        } else {
            assert(walk.listed.contains(path));
            assert(met(walk, path.push(name)));
        }
    }
}

proof fn lemma_on_track(tree: spec_fn(PathModel) -> Seq<Seq<u8>>, root: PathModel, steps: nat)
    requires
        names_differ(tree),
    ensures
        on_track(tree, root, walked(tree, root, steps)),
    decreases steps,
{
    let walk = walked(tree, root, steps);
    if steps == 0 {
        assert(walk.pending[0] == root);
        assert(walk.pending.contains(root));
        assert forall|path: PathModel| #[trigger] met(walk, path) implies path == root by {}
    } else {
        let before = walked(tree, root, (steps - 1) as nat);
        lemma_on_track(tree, root, (steps - 1) as nat);
        if before.pending.len() > 0 {
            lemma_step(tree, root, before);
        }
    }
}

proof fn lemma_all_met(
    tree: spec_fn(PathModel) -> Seq<Seq<u8>>,
    root: PathModel,
    walk: Walk,
    path: PathModel,
)
    requires
        on_track(tree, root, walk),
        walk.pending.len() == 0,
        reachable(tree, root, path),
    ensures
        walk.listed.contains(path),
    decreases path.len(),
{
    if path == root {
        assert(met(walk, root));
    } else {
        lemma_all_met(tree, root, walk, path.drop_last());
        assert(walk.listed.contains(path.drop_last()));
        assert(tree(path.drop_last()).contains(path.last()));
        assert(path.drop_last().push(path.last()) =~= path);
        assert(met(walk, path));
    }
}

/// However far a walk has come, it has listed no directory twice and found no
/// application twice, and everything that it found is an application cgroup that can be
/// reached from the root. Once no directory is left it has listed every directory that
/// can be reached, and found every application cgroup among them.
pub proof fn a_walk_finds_every_application_once(
    tree: spec_fn(PathModel) -> Seq<Seq<u8>>,
    root: PathModel,
    steps: nat,
)
    requires
        names_differ(tree),
    ensures
        ({
            let walk = walked(tree, root, steps);
            &&& walk.listed.no_duplicates()
            &&& walk.found.no_duplicates()
            &&& forall|path: PathModel| #[trigger]
                walk.listed.contains(path) ==> reachable(tree, root, path)
            &&& forall|path: PathModel| #[trigger]
                walk.found.contains(path) ==> reachable(tree, root, path)
                    && path::application_cgroup(root, path)
            &&& walk.pending.len() == 0 ==> forall|path: PathModel| #[trigger]
                walk.listed.contains(path) <==> reachable(tree, root, path)
            &&& walk.pending.len() == 0 ==> forall|path: PathModel| #[trigger]
                walk.found.contains(path) <==> reachable(tree, root, path)
                    && path::application_cgroup(root, path)
        }),
{
    let walk = walked(tree, root, steps);
    lemma_on_track(tree, root, steps);
    assert forall|path: PathModel| #[trigger] walk.listed.contains(path) implies reachable(
        tree,
        root,
        path,
    ) by {
        assert(met(walk, path));
    }
    assert forall|path: PathModel| #[trigger] walk.found.contains(path) implies reachable(
        tree,
        root,
        path,
    ) && path::application_cgroup(root, path) by {
        assert(met(walk, path));
    }
    if walk.pending.len() == 0 {
        assert forall|path: PathModel| #[trigger] walk.listed.contains(path) <==> reachable(
            tree,
            root,
            path,
        ) by {
            if reachable(tree, root, path) {
                lemma_all_met(tree, root, walk, path);
            }
        }
        assert forall|path: PathModel| #[trigger] walk.found.contains(path) <==> reachable(
            tree,
            root,
            path,
        ) && path::application_cgroup(root, path) by {
            if reachable(tree, root, path) {
                lemma_all_met(tree, root, walk, path);
                assert(met(walk, path));
            }
        }
    }
}

/// A walk lists one directory with every step, as long as any is left.
proof fn lemma_progress(tree: spec_fn(PathModel) -> Seq<Seq<u8>>, root: PathModel, steps: nat)
    ensures
        walked(tree, root, steps).pending.len() > 0 ==> walked(tree, root, steps).listed.len()
            == steps,
    decreases steps,
{
    if steps > 0 {
        lemma_progress(tree, root, (steps - 1) as nat);
    }
}

/// A walk through finitely many directories ends: it takes no more steps than there are
/// directories.
pub proof fn a_walk_ends(
    tree: spec_fn(PathModel) -> Seq<Seq<u8>>,
    root: PathModel,
    all: Set<PathModel>,
)
    requires
        names_differ(tree),
        all.finite(),
        forall|path: PathModel| #[trigger] reachable(tree, root, path) ==> all.contains(path),
    ensures
        walked(tree, root, all.len()).pending.len() == 0,
{
    let walk = walked(tree, root, all.len());
    lemma_on_track(tree, root, all.len());
    lemma_progress(tree, root, all.len());
    if walk.pending.len() > 0 {
        let next = walk.pending.last();
        let more = walk.listed.push(next);
        assert(walk.pending[walk.pending.len() - 1] == next);
        assert(walk.pending.contains(next));
        assert forall|i: int, j: int| 0 <= i < more.len() && 0 <= j < more.len() && i != j implies more[i]
            != more[j] by {
            if i < walk.listed.len() {
                assert(walk.listed.contains(walk.listed[i]));
            }
            if j < walk.listed.len() {
                assert(walk.listed.contains(walk.listed[j]));
            }
        }
        more.unique_seq_to_set();
        assert forall|path: PathModel| #[trigger] more.to_set().contains(path) implies all.contains(
            path,
        ) by {
            let k = choose|k: int| 0 <= k < more.len() && more[k] == path;
            if k < walk.listed.len() {
                assert(walk.listed[k] == path);
                assert(walk.listed.contains(path));
            }
            assert(met(walk, path));
            assert(reachable(tree, root, path));
        }
        vstd::set_lib::lemma_len_subset(more.to_set(), all);
    }
}

}
