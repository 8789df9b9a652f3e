//! Cgroup paths, taken apart into their components.

use crate::text;
use vstd::prelude::*;
use vstd::string::*;
use vstd::utf8::*;

verus! {

/// A path as the sequence of its components: `/` where it is absolute, then its
/// names. Empty names are left out, and so is `.` unless a relative path starts
/// with it.
pub type PathModel = Seq<Seq<u8>>;

/// The byte `/`.
pub const SLASH: u8 = 47;

/// The byte `.`.
pub const DOT: u8 = 46;

/// The number of bytes before the first slash.
pub open spec fn name_length(bytes: Seq<u8>) -> nat
    decreases bytes.len(),
{
    if bytes.len() == 0 || bytes[0] == SLASH {
        0
    } else {
        1 + name_length(bytes.drop_first())
    }
}

/// Whether a name between slashes is a component.
pub open spec fn counts(name: Seq<u8>, leading: bool) -> bool {
    name.len() > 0 && (leading || name != seq![DOT])
}

/// The components of a path without a slash in front; `leading` says that
/// nothing stands before it.
pub open spec fn names(bytes: Seq<u8>, leading: bool) -> PathModel
    decreases bytes.len(),
{
    let n = name_length(bytes);
    let name = bytes.take(n as int);
    let first = if counts(name, leading) {
        seq![name]
    } else {
        Seq::empty()
    };
    if n < bytes.len() {
        first + names(bytes.skip(n as int + 1), false)
    } else {
        first
    }
}

/// The path that a path becomes when another is appended: an absolute one takes
/// its place.
pub open spec fn joined(path: PathModel, other: Seq<u8>) -> PathModel {
    if other.len() > 0 && other[0] == SLASH {
        seq![seq![SLASH]] + names(other.skip(1), false)
    } else {
        path + names(other, path.len() == 0)
    }
}

/// The components of a path.
pub open spec fn components_of(bytes: Seq<u8>) -> PathModel {
    joined(Seq::empty(), bytes)
}

pub open spec fn views(parts: Seq<Vec<u8>>) -> PathModel {
    parts.map_values(|part: Vec<u8>| part@)
}

/// Whether a name ends with a text.
pub open spec fn ends_with(name: Seq<char>, ending: Seq<char>) -> bool {
    name.len() >= ending.len() && name.skip(name.len() - ending.len()) == ending
}

/// Whether a path starts with all the components of another.
pub open spec fn starts_with(path: PathModel, base: PathModel) -> bool {
    base.len() <= path.len() && path.take(base.len() as int) == base
}

/// An application's cgroup: a scope or a service below the root of all
/// applications, named without a way back up.
pub open spec fn application_cgroup(root: PathModel, path: PathModel) -> bool {
    &&& path != root
    &&& starts_with(path, root)
    &&& !path.contains(seq![DOT, DOT])
    &&& path.len() > 0
    &&& text::utf8_text(path.last()) matches Some(name)
    &&& ends_with(name, ".scope"@) || ends_with(name, ".service"@)
}

/// A file or directory in the cgroup file system.
pub struct CgroupPath {
    parts: Vec<Vec<u8>>,
}

impl View for CgroupPath {
    type V = PathModel;

    closed spec fn view(&self) -> PathModel {
        views(self.parts@)
    }
}

/// Whether two byte strings are the same.
pub fn same_bytes(a: &Vec<u8>, b: &Vec<u8>) -> (same: bool)
    ensures
        same == (a@ == b@),
{
    if a.len() != b.len() {
        return false;
    }
    let mut i: usize = 0;
    while i < a.len()
        invariant
            a@.len() == b@.len(),
            i <= a@.len(),
            a@.take(i as int) == b@.take(i as int),
        decreases a@.len() - i,
    {
        if a[i] != b[i] {
            return false;
        }
        i = i + 1;
        proof {
            assert(a@.take(i as int) =~= a@.take(i - 1).push(a@[i - 1]));
            assert(b@.take(i as int) =~= b@.take(i - 1).push(b@[i - 1]));
        }
    }
    proof {
        assert(a@.take(i as int) =~= a@);
        assert(b@.take(i as int) =~= b@);
    }
    true
}

/// A copy of a byte string.
pub fn copy_bytes(bytes: &Vec<u8>) -> (copy: Vec<u8>)
    ensures
        copy@ == bytes@,
{
    vstd::slice::slice_to_vec(bytes.as_slice())
}

proof fn lemma_name_length(bytes: Seq<u8>, n: int)
    requires
        0 <= n <= bytes.len(),
        forall|i: int| 0 <= i < n ==> #[trigger] bytes[i] != SLASH,
        n < bytes.len() ==> bytes[n] == SLASH,
    ensures
        name_length(bytes) == n,
    decreases n,
{
    if n > 0 {
        let rest = bytes.drop_first();
        assert(bytes[0] != SLASH);
        assert forall|i: int| 0 <= i < n - 1 implies #[trigger] rest[i] != SLASH by {
            assert(rest[i] == bytes[i + 1]);
        }
        lemma_name_length(rest, n - 1);
    }
}

impl CgroupPath {
    /// A path without components.
    pub fn empty() -> (path: Self)
        ensures
            path@ == Seq::<Seq<u8>>::empty(),
    {
        let path = CgroupPath { parts: Vec::new() };
        assert(path@ =~= Seq::<Seq<u8>>::empty());
        path
    }

    /// Takes a path apart.
    pub fn new(path: &str) -> (parsed: Self)
        ensures
            parsed@ == components_of(path.spec_bytes()),
    {
        Self::empty().join_bytes(path.as_bytes())
    }

    /// The path with another appended.
    pub fn join(&self, other: &str) -> (path: Self)
        ensures
            path@ == joined(self@, other.spec_bytes()),
    {
        self.join_bytes(other.as_bytes())
    }

    /// The path with another, given as bytes, appended.
    pub fn join_bytes(&self, other: &[u8]) -> (path: Self)
        ensures
            path@ == joined(self@, other@),
    {
        let absolute = other.len() > 0 && other[0] == SLASH;
        let mut parts: Vec<Vec<u8>> = Vec::new();
        let mut from: usize = 0;
        if absolute {
            let mut slash: Vec<u8> = Vec::new();
            slash.push(SLASH);
            proof {
                assert(slash@ =~= seq![SLASH]);
            }
            parts.push(slash);
            from = 1;
        } else {
            let copy = self.duplicate();
            parts = copy.parts;
        }
        let mut leading = parts.len() == 0;
        let ghost base = views(parts@);
        proof {
            assert(absolute ==> base =~= seq![seq![SLASH]]);
            assert(other@.skip(0) =~= other@);
        }
        let mut done = false;
        while !done
            invariant
                from <= other@.len(),
                !done ==> views(parts@) + names(other@.skip(from as int), leading) == base + names(
                    other@.skip(if absolute { 1int } else { 0int }),
                    base.len() == 0,
                ),
                done ==> views(parts@) == base + names(
                    other@.skip(if absolute { 1int } else { 0int }),
                    base.len() == 0,
                ),
            decreases other@.len() - from, if done { 0int } else { 1int },
        {
            let mut end: usize = from;
            while end < other.len() && other[end] != SLASH
                invariant
                    from <= end <= other@.len(),
                    forall|i: int| from <= i < end ==> #[trigger] other@[i] != SLASH,
                decreases other@.len() - end,
            {
                end = end + 1;
            }
            let ghost rest = other@.skip(from as int);
            let ghost had = views(parts@);
            let ghost was_leading = leading;
            let name = vstd::slice::slice_to_vec(
                vstd::slice::slice_subrange(other, from, end),
            );
            proof {
                assert forall|i: int| 0 <= i < end - from implies #[trigger] rest[i] != SLASH by {
                    assert(rest[i] == other@[i + from]);
                }
                lemma_name_length(rest, end - from);
                assert(rest.take(end - from) =~= name@);
            }
            let dot = name.len() == 1 && name[0] == DOT;
            proof {
                assert(dot == (name@ =~= seq![DOT]));
            }
            if name.len() > 0 && (leading || !dot) {
                let ghost added = name@;
                parts.push(name);
                proof {
                    assert(views(parts@) =~= had + seq![added]);
                }
            } else {
                proof {
                    assert(had + Seq::<Seq<u8>>::empty() =~= had);
                }
            }
            let ghost now = views(parts@);
            if end < other.len() {
                proof {
                    assert(rest.skip(end - from + 1) =~= other@.skip(end + 1));
                    let first = if counts(rest.take(end - from), was_leading) {
                        seq![rest.take(end - from)]
                    } else {
                        Seq::empty()
                    };
                    assert(had + (first + names(other@.skip(end + 1), false)) =~= now + names(
                        other@.skip(end + 1),
                        false,
                    ));
                }
                from = end + 1;
                leading = false;
            } else {
                done = true;
            }
        }
        let path = CgroupPath { parts };
        path
    }

    /// The path of a file in the directory that the path names.
    pub fn child(&self, name: &str) -> (path: Self)
        ensures
            path@ == self@.push(name.spec_bytes()),
    {
        let mut parts = self.duplicate().parts;
        let ghost before = views(parts@);
        let name = name.as_bytes_vec();
        let ghost added = name@;
        parts.push(name);
        let path = CgroupPath { parts };
        assert(path@ =~= before.push(added));
        path
    }

    /// The path of an entry of the directory that the path names.
    pub fn entry(&self, name: &Vec<u8>) -> (path: Self)
        ensures
            path@ == self@.push(name@),
    {
        let mut parts = self.duplicate().parts;
        let ghost before = views(parts@);
        parts.push(copy_bytes(name));
        let path = CgroupPath { parts };
        assert(path@ =~= before.push(name@));
        path
    }

    /// The components, from the root on.
    pub fn components(&self) -> (parts: &Vec<Vec<u8>>)
        ensures
            views(parts@) == self@,
    {
        &self.parts
    }

    /// A copy of the path.
    pub fn duplicate(&self) -> (copy: Self)
        ensures
            copy@ == self@,
    {
        let mut parts: Vec<Vec<u8>> = Vec::new();
        let mut i: usize = 0;
        while i < self.parts.len()
            invariant
                i <= self.parts@.len(),
                views(parts@) == self@.take(i as int),
                self@.len() == self.parts@.len(),
            decreases self.parts@.len() - i,
        {
            let part = copy_bytes(&self.parts[i]);
            proof {
                assert(part@ == self@[i as int]);
                assert(views(parts@.push(part)) =~= views(parts@).push(part@));
                assert(self@.take(i + 1) =~= self@.take(i as int).push(self@[i as int]));
            }
            parts.push(part);
            i = i + 1;
        }
        proof {
            assert(self@.take(i as int) =~= self@);
        }
        CgroupPath { parts }
    }

    /// Whether the path starts with all the components of another.
    pub fn starts_with(&self, base: &CgroupPath) -> (within: bool)
        ensures
            within == starts_with(self@, base@),
    {
        if base.parts.len() > self.parts.len() {
            return false;
        }
        let mut i: usize = 0;
        while i < base.parts.len()
            invariant
                i <= base@.len() <= self@.len(),
                self@.len() == self.parts@.len(),
                base@.len() == base.parts@.len(),
                self@.take(i as int) == base@.take(i as int),
            decreases base@.len() - i,
        {
            if !same_bytes(&self.parts[i], &base.parts[i]) {
                proof {
                    assert(self@[i as int] != base@[i as int]);
                    assert(self@.take(base@.len() as int)[i as int] != base@[i as int]);
                }
                return false;
            }
            proof {
                assert(self@[i as int] == base@[i as int]);
                assert(self@.take(i + 1) =~= self@.take(i as int).push(self@[i as int]));
                assert(base@.take(i + 1) =~= base@.take(i as int).push(base@[i as int]));
            }
            i = i + 1;
        }
        proof {
            assert(base@.take(i as int) =~= base@);
        }
        true
    }

    /// Whether two paths have the same components.
    pub fn same(&self, other: &CgroupPath) -> (same: bool)
        ensures
            same == (self@ == other@),
    {
        let same = self.parts.len() == other.parts.len() && self.starts_with(other);
        proof {
            assert(self@.len() == self.parts@.len() && other@.len() == other.parts@.len());
            assert(self@.take(self@.len() as int) =~= self@);
        }
        same
    }

    /// Whether a component leads back up.
    fn climbs(&self) -> (climbs: bool)
        ensures
            climbs == self@.contains(seq![DOT, DOT]),
    {
        let mut i: usize = 0;
        while i < self.parts.len()
            invariant
                i <= self@.len(),
                self@.len() == self.parts@.len(),
                forall|j: int| 0 <= j < i ==> #[trigger] self@[j] != seq![DOT, DOT],
            decreases self@.len() - i,
        {
            let part = &self.parts[i];
            proof {
                assert(part@ == self@[i as int]);
            }
            if part.len() == 2 && part[0] == DOT && part[1] == DOT {
                proof {
                    assert(self@[i as int] =~= seq![DOT, DOT]);
                }
                return true;
            }
            i = i + 1;
        }
        false
    }
}

fn text_ends_with(name: &str, ending: &str) -> (ends: bool)
    ensures
        ends == ends_with(name@, ending@),
{
    let left = text::characters(name);
    let right = text::characters(ending);
    if left.len() < right.len() {
        return false;
    }
    let total: usize = left.len();
    let offset: usize = total - right.len();
    let mut i: usize = 0;
    let ghost tail = name@.skip(offset as int);
    while i < right.len()
        invariant
            left@ == name@,
            right@ == ending@,
            total == left@.len(),
            offset == total - right@.len(),
            tail == name@.skip(offset as int),
            i <= right@.len(),
            forall|j: int| 0 <= j < i ==> tail[j] == #[trigger] right@[j],
        decreases right@.len() - i,
    {
        if left[offset + i] != right[i] {
            proof {
                assert(tail[i as int] != right@[i as int]);
            }
            return false;
        }
        i = i + 1;
    }
    proof {
        assert(tail =~= ending@);
    }
    true
}

/// Whether a path is an application's cgroup below a root.
pub fn is_application_cgroup(root: &CgroupPath, path: &CgroupPath) -> (application: bool)
    ensures
        application == application_cgroup(root@, path@),
{
    if path.same(root) || !path.starts_with(root) || path.climbs() || path.parts.len() == 0 {
        return false;
    }
    let last = &path.parts[path.parts.len() - 1];
    proof {
        assert(last@ == path@.last());
    }
    match text::utf8(last.as_slice()) {
        Some(name) => text_ends_with(name, ".scope") || text_ends_with(name, ".service"),
        None => false,
    }
}

/// A path starts with another exactly if it is that path with something behind it.
pub proof fn what_starts_with_a_path_continues_it(path: PathModel, base: PathModel)
    ensures
        starts_with(path, base) <==> exists|rest: PathModel| path == #[trigger] (base + rest),
{
    if starts_with(path, base) {
        assert(base + path.skip(base.len() as int) =~= path);
    }
    if exists|rest: PathModel| path == #[trigger] (base + rest) {
        let rest = choose|rest: PathModel| path == #[trigger] (base + rest);
        assert(path.take(base.len() as int) =~= base);
    }
}

/// Whatever stands before the ending of its name, and however deep beneath the root it is, a
/// scope or a service is an application cgroup, unless its path leads back up.
pub proof fn scopes_and_services_are_applications(
    root: PathModel,
    between: PathModel,
    name: Seq<u8>,
    stem: Seq<char>,
)
    requires
        valid_utf8(name),
        decode_utf8(name) == stem + ".scope"@ || decode_utf8(name) == stem + ".service"@,
    ensures
        application_cgroup(root, root + between.push(name)) <==> !(root + between.push(
            name,
        )).contains(seq![46u8, 46u8]),
{
    let path = root + between.push(name);
    let text = decode_utf8(name);
    reveal_strlit(".scope");
    reveal_strlit(".service");
    assert(path.last() == name);
    assert(path.take(root.len() as int) =~= root);
    assert(path.len() > root.len());
    if text == stem + ".scope"@ {
        assert(text.skip(text.len() - 6) =~= ".scope"@);
    } else {
        assert(text.skip(text.len() - 8) =~= ".service"@);
    }
}

/// Only what lies beneath the root, does not lead back up and is named as a scope or a
/// service is an application cgroup.
pub proof fn applications_are_scopes_and_services(root: PathModel, path: PathModel)
    requires
        application_cgroup(root, path),
    ensures
        exists|rest: PathModel| rest.len() > 0 && path == #[trigger] (root + rest),
        !path.contains(seq![46u8, 46u8]),
        valid_utf8(path.last()),
        (exists|stem: Seq<char>| decode_utf8(path.last()) == #[trigger] (stem + ".scope"@)) || (
        exists|stem: Seq<char>| decode_utf8(path.last()) == #[trigger] (stem + ".service"@)),
{
    let rest = path.skip(root.len() as int);
    assert(root + rest =~= path);
    if rest.len() == 0 {
        assert(path =~= root);
    }
    let text = decode_utf8(path.last());
    reveal_strlit(".scope");
    reveal_strlit(".service");
    if ends_with(text, ".scope"@) {
        let stem = text.take(text.len() - 6);
        assert(stem + ".scope"@ =~= text) by {
            assert(text.skip(text.len() - 6) == ".scope"@);
            assert(text =~= stem + text.skip(text.len() - 6));
        }
    } else {
        let stem = text.take(text.len() - 8);
        assert(text.skip(text.len() - 8) == ".service"@);
        assert(text =~= stem + text.skip(text.len() - 8));
        assert(text == stem + ".service"@);
    }
}

proof fn lemma_names_split(first: Seq<u8>, second: Seq<u8>, leading: bool)
    ensures
        names(first + seq![SLASH] + second, leading) == names(first, leading) + names(second, false),
    decreases first.len(),
{
    let all = first + seq![SLASH] + second;
    lemma_name_length_meaning(first);
    let n = name_length(first) as int;
    assert forall|i: int| 0 <= i < n implies #[trigger] all[i] != SLASH by {
        assert(all[i] == first[i]);
    }
    if n < first.len() {
        assert(all[n] == first[n]);
    }
    lemma_name_length(all, n);
    assert(all.take(n) =~= first.take(n));
    if n < first.len() {
        let rest = first.skip(n + 1);
        assert(all.skip(n + 1) =~= rest + seq![SLASH] + second);
        lemma_names_split(rest, second, false);
        assert(names(all, leading) =~= names(first, leading) + names(second, false));
    } else {
        assert(all.skip(n + 1) =~= second);
        assert(names(all, leading) =~= names(first, leading) + names(second, false));
    }
}

proof fn lemma_name_length_meaning(bytes: Seq<u8>)
    ensures
        name_length(bytes) <= bytes.len(),
        forall|i: int| 0 <= i < name_length(bytes) ==> #[trigger] bytes[i] != SLASH,
        name_length(bytes) < bytes.len() ==> bytes[name_length(bytes) as int] == SLASH,
    decreases bytes.len(),
{
    if bytes.len() > 0 && bytes[0] != SLASH {
        let rest = bytes.drop_first();
        lemma_name_length_meaning(rest);
        assert forall|i: int| 0 <= i < name_length(bytes) implies #[trigger] bytes[i] != SLASH by {
            if i > 0 {
                assert(bytes[i] == rest[i - 1]);
            }
        }
    }
}

proof fn lemma_one_name(name: Seq<u8>, leading: bool)
    requires
        !name.contains(SLASH),
    ensures
        names(name, leading) == if name.len() > 0 && (leading || name != seq![DOT]) {
            seq![name]
        } else {
            Seq::empty()
        },
{
    assert forall|i: int| 0 <= i < name.len() implies #[trigger] name[i] != SLASH by {
        assert(name.contains(name[i]));
    }
    lemma_name_length(name, name.len() as int);
    assert(name.take(name.len() as int) =~= name);
}

/// A name without a slash is appended as it is. Nothing at all, and `.` behind something,
/// append nothing.
pub proof fn a_name_is_appended(path: PathModel, name: Seq<u8>)
    requires
        !name.contains(47u8),
    ensures
        name.len() > 0 && name != seq![46u8] ==> joined(path, name) == path.push(name),
        name.len() == 0 ==> joined(path, name) == path,
        name == seq![46u8] && path.len() > 0 ==> joined(path, name) == path,
        name == seq![46u8] && path.len() == 0 ==> joined(path, name) == seq![name],
{
    lemma_one_name(name, path.len() == 0);
    if name.len() > 0 {
        assert(name.contains(name[0]));
    }
    assert(path + Seq::<Seq<u8>>::empty() =~= path);
    assert(path + seq![name] =~= path.push(name));
    assert(Seq::<Seq<u8>>::empty() + seq![name] =~= seq![name]);
}

/// What stands on both sides of a slash is appended in turn, and a slash more makes no
/// difference.
pub proof fn names_are_appended_in_turn(path: PathModel, first: Seq<u8>, second: Seq<u8>)
    requires
        first.len() > 0,
        second.len() > 0 ==> second[0] != 47u8,
    ensures
        joined(path, first + seq![47u8] + second) == joined(joined(path, first), second),
        joined(path, first + seq![47u8] + (seq![47u8] + second)) == joined(
            path,
            first + seq![47u8] + second,
        ),
{
    let both = first + seq![SLASH] + second;
    let none = Seq::<u8>::empty();
    let more = seq![SLASH] + second;
    assert(more =~= none + seq![SLASH] + second);
    lemma_names_split(none, second, false);
    assert(!none.contains(SLASH));
    lemma_one_name(none, false);
    assert(names(more, false) =~= names(second, false));
    let wide = first + seq![SLASH] + more;
    assert(both[0] == first[0] && wide[0] == first[0]);
    if first[0] == SLASH {
        let rest = first.skip(1);
        assert(both.skip(1) =~= rest + seq![SLASH] + second);
        assert(wide.skip(1) =~= rest + seq![SLASH] + more);
        lemma_names_split(rest, second, false);
        lemma_names_split(rest, more, false);
        assert(joined(path, both) =~= joined(joined(path, first), second));
        assert(joined(path, wide) =~= joined(path, both));
    } else {
        lemma_names_split(first, second, path.len() == 0);
        lemma_names_split(first, more, path.len() == 0);
        lemma_first_name(first, path.len() == 0);
        assert(joined(path, first).len() > 0);
        assert(joined(path, both) =~= joined(joined(path, first), second));
        assert(joined(path, wide) =~= joined(path, both));
    }
}

/// A path with nothing before it begins with a name.
proof fn lemma_first_name(first: Seq<u8>, leading: bool)
    requires
        first.len() > 0,
        first[0] != SLASH,
    ensures
        leading ==> names(first, leading).len() > 0,
{
    lemma_name_length_meaning(first);
    assert(name_length(first) > 0);
}

/// A path that begins with a slash takes the place of what was before it.
pub proof fn an_absolute_path_stands_alone(path: PathModel, rest: Seq<u8>)
    ensures
        joined(path, seq![47u8] + rest) == joined(Seq::empty(), seq![47u8] + rest),
        rest.len() == 0 ==> joined(path, seq![47u8] + rest) == seq![seq![47u8]],
        rest.len() > 0 && rest[0] != 47u8 ==> joined(path, seq![47u8] + rest) == joined(
            seq![seq![47u8]],
            rest,
        ),
        joined(path, seq![47u8] + (seq![47u8] + rest)) == joined(path, seq![47u8] + rest),
{
    let one = seq![SLASH] + rest;
    let two = seq![SLASH] + one;
    let none = Seq::<u8>::empty();
    assert(one.skip(1) =~= rest);
    assert(two.skip(1) =~= one);
    assert(one =~= none + seq![SLASH] + rest);
    lemma_names_split(none, rest, false);
    assert(!none.contains(SLASH));
    lemma_one_name(none, false);
    assert(names(one, false) =~= names(rest, false));
    if rest.len() == 0 {
        assert(rest =~= none);
        assert(joined(path, one) =~= seq![seq![SLASH]]);
    }
}

}
