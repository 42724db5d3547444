//! Directory entry cache: maps a parent and a name to a child, so that a
//! directory is not read again on every access.
use vstd::prelude::*;
use vstd::string::*;
use crate::text;

verus! {

/// What is known of a directory entry.
#[derive(Debug, Clone, Copy, PartialEq, Eq, Structural)]
pub struct DentryFlags(pub u32);

impl DentryFlags {
    /// There is no such file.
    #[allow(non_snake_case)]
    #[verifier::allow_in_spec]
    pub fn NEGATIVE() -> Self
        returns
            (DentryFlags(0x0001)),
    {
        DentryFlags(0x0001)
    }

    #[allow(non_snake_case)]
    #[verifier::allow_in_spec]
    pub fn REGULAR() -> Self
        returns
            (DentryFlags(0x0002)),
    {
        DentryFlags(0x0002)
    }

    #[allow(non_snake_case)]
    #[verifier::allow_in_spec]
    pub fn DIRECTORY() -> Self
        returns
            (DentryFlags(0x0004)),
    {
        DentryFlags(0x0004)
    }

    #[allow(non_snake_case)]
    #[verifier::allow_in_spec]
    pub fn SYMLINK() -> Self
        returns
            (DentryFlags(0x0008)),
    {
        DentryFlags(0x0008)
    }

    #[allow(non_snake_case)]
    #[verifier::allow_in_spec]
    pub fn SPECIAL() -> Self
        returns
            (DentryFlags(0x0010)),
    {
        DentryFlags(0x0010)
    }

    #[allow(non_snake_case)]
    #[verifier::allow_in_spec]
    pub fn MOUNT_POINT() -> Self
        returns
            (DentryFlags(0x0020)),
    {
        DentryFlags(0x0020)
    }

    #[allow(non_snake_case)]
    #[verifier::allow_in_spec]
    pub fn MISS() -> Self
        returns
            (DentryFlags(0x0040)),
    {
        DentryFlags(0x0040)
    }

    #[verifier::allow_in_spec]
    pub fn empty() -> Self
        returns
            (DentryFlags(0)),
    {
        DentryFlags(0)
    }

    /// All flags of `other` are set.
    pub open spec fn has(self, other: DentryFlags) -> bool {
        self.0 & other.0 == other.0
    }

    /// The flags of both.
    pub open spec fn with(self, other: DentryFlags) -> DentryFlags {
        DentryFlags(self.0 | other.0)
    }

    /// The flags without those of `other`.
    pub open spec fn without(self, other: DentryFlags) -> DentryFlags {
        DentryFlags(self.0 & !other.0)
    }

    pub fn contains(&self, other: Self) -> (r: bool)
        ensures
            r == self.has(other),
    {
        self.0 & other.0 == other.0
    }

    pub fn insert(&mut self, other: Self)
        ensures
            *final(self) == old(self).with(other),
    {
        self.0 = self.0 | other.0;
    }

    pub fn remove(&mut self, other: Self)
        ensures
            *final(self) == old(self).without(other),
    {
        self.0 = self.0 & !other.0;
    }

    /// A file now exists: the entry is no longer negative, and has a type.
    pub fn update_type_from_negative(&mut self, ty: DentryFlags)
        ensures
            *final(self) == old(self).without(DentryFlags::NEGATIVE()).with(ty),
    {
        self.remove(DentryFlags::NEGATIVE());
        self.insert(ty);
    }
}

/// Once a file exists, its entry is not negative and has the file's type.
pub proof fn law_updated_is_not_negative(f: DentryFlags, ty: DentryFlags)
    requires
        ty.0 & 1 == 0,
    ensures
        !f.without(DentryFlags::NEGATIVE()).with(ty).has(DentryFlags::NEGATIVE()),
        f.without(DentryFlags::NEGATIVE()).with(ty).has(ty),
{
    let a = f.0;
    let b = ty.0;
    assert(((a & !1u32) | b) & 1 != 1) by (bit_vector)
        requires
            b & 1 == 0,
    ;
    assert(((a & !1u32) | b) & b == b) by (bit_vector);
}

/// Children by name.
pub struct Children {
    entries: Vec<(String, usize)>,
}

impl View for Children {
    type V = Map<Seq<char>, usize>;

    closed spec fn view(&self) -> Map<Seq<char>, usize> {
        Map::new(
            |name: Seq<char>|
                exists|i: int| 0 <= i < self.entries@.len() && #[trigger] self.entries@[i].0@ == name,
            |name: Seq<char>|
                {
                    let i = choose|i: int|
                        0 <= i < self.entries@.len() && #[trigger] self.entries@[i].0@ == name;
                    self.entries@[i].1
                },
        )
    }
}

impl Children {
    /// No name stands twice.
    pub closed spec fn wf(self) -> bool {
        forall|i: int, j: int|
            0 <= i < j < self.entries@.len() ==> (#[trigger] self.entries@[i]).0@ != (
            #[trigger] self.entries@[j]).0@
    }

    pub fn new() -> (r: Self)
        ensures
            r.wf(),
            r@ == Map::<Seq<char>, usize>::empty(),
    {
        let r = Children { entries: Vec::new() };
        assert(r@ =~= Map::<Seq<char>, usize>::empty());
        r
    }

    fn position(&self, name: &str) -> (r: Option<usize>)
        ensures
            match r {
                Some(i) => i < self.entries@.len() && self.entries@[i as int].0@ == name@,
                None => forall|i: int|
                    0 <= i < self.entries@.len() ==> (#[trigger] self.entries@[i]).0@ != name@,
            },
    {
        let mut i: usize = 0;
        while i < self.entries.len()
            invariant
                i <= self.entries@.len(),
                forall|k: int| 0 <= k < i ==> (#[trigger] self.entries@[k]).0@ != name@,
            decreases self.entries@.len() - i,
        {
            if text::same_text(self.entries[i].0.as_str(), name) {
                return Some(i);
            }
            i += 1;
        }
        None
    }

    /// The child of this name.
    pub fn get(&self, name: &str) -> (r: Option<usize>)
        requires
            self.wf(),
        ensures
            match r {
                Some(id) => self@.contains_key(name@) && self@[name@] == id,
                None => !self@.contains_key(name@),
            },
    {
        match self.position(name) {
            Some(i) => {
                proof {
                    assert(self.entries@[i as int].0@ == name@);
                    let k = choose|k: int|
                        0 <= k < self.entries@.len() && #[trigger] self.entries@[k].0@ == name@;
                    assert(k == i);
                }
                Some(self.entries[i].1)
            },
            None => None,
        }
    }

    /// The child of this name is now another one.
    pub fn insert(&mut self, name: String, id: usize)
        requires
            old(self).wf(),
        ensures
            final(self).wf(),
            final(self)@ == old(self)@.insert(name@, id),
    {
        let ghost before = self.entries@;
        let ghost n = name@;
        match self.position(name.as_str()) {
            Some(i) => {
                self.entries.set(i, (name, id));
                assert(self.entries@[i as int].0@ == n);
                proof {
                    lemma_children_set(before, self.entries@, i as int, n, id);
                }
            },
            None => {
                self.entries.push((name, id));
                proof {
                    lemma_children_set(before, self.entries@, before.len() as int, n, id);
                }
            },
        }
        assert(self@ =~= old(self)@.insert(n, id)) by {
            lemma_children_view(before, self.entries@, n, id);
        }
    }
}

/// `after` holds what `before` does, and `name` with `id` at position `at`.
proof fn lemma_children_set(
    before: Seq<(String, usize)>,
    after: Seq<(String, usize)>,
    at: int,
    name: Seq<char>,
    id: usize,
)
    requires
        0 <= at < after.len(),
        before.len() <= after.len() <= before.len() + 1,
        at == before.len() || after.len() == before.len(),
        after[at].0@ == name,
        after[at].1 == id,
        forall|k: int| 0 <= k < before.len() && k != at ==> #[trigger] after[k] == before[k],
        at < before.len() ==> before[at].0@ == name,
        forall|i: int, j: int|
            0 <= i < j < before.len() ==> (#[trigger] before[i]).0@ != (#[trigger] before[j]).0@,
        at == before.len() ==> forall|k: int|
            0 <= k < before.len() ==> (#[trigger] before[k]).0@ != name,
    ensures
        forall|i: int, j: int|
            0 <= i < j < after.len() ==> (#[trigger] after[i]).0@ != (#[trigger] after[j]).0@,
        exists|k: int| 0 <= k < after.len() && #[trigger] after[k].0@ == name && after[k].1 == id,
        forall|k: int|
            0 <= k < before.len() && (#[trigger] before[k]).0@ != name ==> after[k] == before[k],
        forall|k: int|
            0 <= k < after.len() && (#[trigger] after[k]).0@ != name ==> k < before.len()
                && after[k] == before[k],
{
    assert forall|i: int, j: int| 0 <= i < j < after.len() implies (#[trigger] after[i]).0@ != (
    #[trigger] after[j]).0@ by {
        if i != at && j != at {
            assert(before[i].0@ != before[j].0@);
        } else if i == at && at < before.len() {
            assert(before[at].0@ != before[j].0@);
        } else if j == at && at < before.len() {
            assert(before[i].0@ != before[at].0@);
        } else {
            assert(before[i].0@ != name);
        }
    }
    assert(after[at].0@ == name && after[at].1 == id);
}

proof fn lemma_children_view(
    before: Seq<(String, usize)>,
    after: Seq<(String, usize)>,
    name: Seq<char>,
    id: usize,
)
    requires
        forall|i: int, j: int|
            0 <= i < j < before.len() ==> (#[trigger] before[i]).0@ != (#[trigger] before[j]).0@,
        forall|i: int, j: int|
            0 <= i < j < after.len() ==> (#[trigger] after[i]).0@ != (#[trigger] after[j]).0@,
        exists|k: int| 0 <= k < after.len() && #[trigger] after[k].0@ == name && after[k].1 == id,
        forall|k: int|
            0 <= k < before.len() && (#[trigger] before[k]).0@ != name ==> after[k] == before[k]
                && k < after.len(),
        forall|k: int|
            0 <= k < after.len() && (#[trigger] after[k]).0@ != name ==> k < before.len()
                && after[k] == before[k],
    ensures
        forall|m: Seq<char>| #[trigger] has_name(after, m) <==> m == name || has_name(before, m),
        forall|m: Seq<char>| #[trigger]
            has_name(after, m) ==> id_of(after, m) == (if m == name {
                id
            } else {
                id_of(before, m)
            }),
{
    assert forall|m: Seq<char>| #[trigger] has_name(after, m) <==> m == name || has_name(
        before,
        m,
    ) by {
        if has_name(after, m) && m != name {
            let k = choose|k: int| 0 <= k < after.len() && #[trigger] after[k].0@ == m;
            assert(before[k].0@ == m);
        }
        if has_name(before, m) && m != name {
            let k = choose|k: int| 0 <= k < before.len() && #[trigger] before[k].0@ == m;
            assert(after[k].0@ == m);
        }
    }
    assert forall|m: Seq<char>| #[trigger] has_name(after, m) implies id_of(after, m) == (if m
        == name {
        id
    } else {
        id_of(before, m)
    }) by {
        let a = choose|k: int| 0 <= k < after.len() && #[trigger] after[k].0@ == m;
        if m == name {
            let k = choose|k: int|
                0 <= k < after.len() && #[trigger] after[k].0@ == name && after[k].1 == id;
            assert(a == k);
        } else {
            assert(before[a].0@ == m);
            let b = choose|k: int| 0 <= k < before.len() && #[trigger] before[k].0@ == m;
            assert(a == b);
        }
    }
}

spec fn has_name(e: Seq<(String, usize)>, m: Seq<char>) -> bool {
    exists|i: int| 0 <= i < e.len() && #[trigger] e[i].0@ == m
}

spec fn id_of(e: Seq<(String, usize)>, m: Seq<char>) -> usize {
    let i = choose|i: int| 0 <= i < e.len() && #[trigger] e[i].0@ == m;
    e[i].1
}

/// A node of the directory cache.
pub struct Dentry<I> {
    /// Full path (e.g. "/usr/bin/bash").
    pub absolute_path: String,
    /// The parent's number in the cache.
    pub parent: Option<usize>,
    /// Numbers of the children in the cache.
    pub children: Children,
    pub flags: DentryFlags,
    /// None for negative entries.
    pub inode: Option<I>,
}

/// Mathematical content of a `Dentry`.
#[verifier::ext_equal]
pub struct DentryModel<I> {
    pub path: Seq<char>,
    pub parent: Option<usize>,
    pub children: Map<Seq<char>, usize>,
    pub flags: DentryFlags,
    pub inode: Option<I>,
}

impl<I> View for Dentry<I> {
    type V = DentryModel<I>;

    open spec fn view(&self) -> DentryModel<I> {
        DentryModel {
            path: self.absolute_path@,
            parent: self.parent,
            children: self.children@,
            flags: self.flags,
            inode: self.inode,
        }
    }
}

/// An entry without children.
pub open spec fn new_dentry<I>(
    path: Seq<char>,
    parent: Option<usize>,
    flags: DentryFlags,
    inode: Option<I>,
) -> DentryModel<I> {
    DentryModel { path, parent, children: Map::empty(), flags, inode }
}

/// What follows the last slash of a path; all of it when there is none.
pub open spec fn last_name(path: Seq<char>) -> Seq<char>
    decreases path.len(),
{
    if path.len() == 0 || path.last() == '/' {
        seq![]
    } else {
        last_name(path.drop_last()).push(path.last())
    }
}

/// The path of a child.
pub open spec fn child_path(parent: Seq<char>, name: Seq<char>) -> Seq<char> {
    parent.push('/') + name
}

/// The name of a child is the last name of its path.
pub proof fn law_last_name_of_child(parent: Seq<char>, name: Seq<char>)
    requires
        !name.contains('/'),
    ensures
        last_name(child_path(parent, name)) == name,
    decreases name.len(),
{
    let p = child_path(parent, name);
    if name.len() == 0 {
        assert(p =~= parent.push('/'));
        assert(name =~= seq![]);
    } else {
        assert(p.last() == name.last());
        assert(name.contains(name.last()));
        assert(p.drop_last() =~= child_path(parent, name.drop_last()));
        assert forall|c: char| name.drop_last().contains(c) implies name.contains(c) by {
            let i = choose|i: int| 0 <= i < name.drop_last().len() && name.drop_last()[i] == c;
            assert(name[i] == c);
        }
        law_last_name_of_child(parent, name.drop_last());
        assert(name.drop_last().push(name.last()) =~= name);
    }
}

impl<I> Dentry<I> {
    pub open spec fn wf(self) -> bool {
        self.children.wf()
    }

    pub fn new(
        absolute_path: String,
        parent: Option<usize>,
        flags: DentryFlags,
        inode: Option<I>,
    ) -> (r: Self)
        ensures
            r.wf(),
            r@ == new_dentry(absolute_path@, parent, flags, inode),
    {
        Dentry { absolute_path, parent, children: Children::new(), flags, inode }
    }

    /// An entry for a file that does not exist.
    pub fn negative(absolute_path: String, parent: Option<usize>) -> (r: Self)
        ensures
            r.wf(),
            r@ == new_dentry::<I>(absolute_path@, parent, DentryFlags::NEGATIVE(), None),
    {
        Self::new(absolute_path, parent, DentryFlags::NEGATIVE(), None)
    }

    pub fn is_negative(&self) -> (r: bool)
        ensures
            r == self@.flags.has(DentryFlags::NEGATIVE()),
    {
        self.flags.contains(DentryFlags::NEGATIVE())
    }

    /// The number of a child that was looked up before.
    pub fn get_child(&self, name: &str) -> (r: Option<usize>)
        requires
            self.wf(),
        ensures
            match r {
                Some(id) => self@.children.contains_key(name@) && self@.children[name@] == id,
                None => !self@.children.contains_key(name@),
            },
    {
        self.children.get(name)
    }

    /// The last component of the path (e.g. "bash" from "/usr/bin/bash").
    pub fn get_last_name(&self) -> (r: String)
        ensures
            r@ == last_name(self@.path),
    {
        last_name_of(self.absolute_path.as_str())
    }
}

/// What follows the last slash.
pub fn last_name_of(path: &str) -> (r: String)
    ensures
        r@ == last_name(path@),
{
    let n: usize = path.unicode_len();
    let mut out = String::new();
    let mut i: usize = 0;
    assert(path@.take(0) =~= seq![]);
    while i < n
        invariant
            n == path@.len(),
            i <= n,
            out@ == last_name(path@.take(i as int)),
        decreases n - i,
    {
        let c: char = path.get_char(i);
        assert(path@.take(i + 1).drop_last() =~= path@.take(i as int));
        if c == '/' {
            out = String::new();
        } else {
            out.push(c);
        }
        i += 1;
    }
    assert(path@.take(n as int) =~= path@);
    out
}

} // verus!
