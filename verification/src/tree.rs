use vstd::prelude::*;
use crate::paths::{string_chars, CrossPath};

verus! {

/// One node of a source tree: a name, an *ignored* flag, a *directory* flag,
/// and (for directories) the arena indices of its children. The arena index
/// of an entry is its stable entry identity within the tree.
#[derive(Debug)]
pub struct Entry {
    pub name: String,
    pub is_dir: bool,
    pub is_ignored: bool,
    pub children: Vec<usize>,
}

pub ghost struct EntryView {
    pub name: Seq<char>,
    pub is_dir: bool,
    pub is_ignored: bool,
    pub children: Seq<int>,
}

impl View for Entry {
    type V = EntryView;

    open spec fn view(&self) -> EntryView {
        EntryView {
            name: self.name@,
            is_dir: self.is_dir,
            is_ignored: self.is_ignored,
            children: Seq::new(self.children@.len(), |i: int| self.children@[i] as int),
        }
    }
}

/// The characters an entry contributes to a display path: its name, with a
/// trailing `/` when the entry is a directory.
pub open spec fn spec_name_chars(e: EntryView) -> Seq<char> {
    if e.is_dir {
        e.name.push('/')
    } else {
        e.name
    }
}

/// A snapshot of one source tree: the absolute path of its root and an arena
/// of entries. Entry 0 is the root directory, named after the last component
/// of the root path.
#[derive(Debug)]
pub struct Tree {
    pub root_path: CrossPath,
    pub entries: Vec<Entry>,
}

pub ghost struct TreeView {
    pub root_path: Seq<Seq<char>>,
    pub entries: Seq<EntryView>,
}

impl View for Tree {
    type V = TreeView;

    open spec fn view(&self) -> TreeView {
        TreeView {
            root_path: self.root_path@,
            entries: Seq::new(self.entries@.len(), |i: int| self.entries@[i]@),
        }
    }
}

pub open spec fn entry_wf(t: TreeView, i: int) -> bool {
    &&& (forall|j: int|
        0 <= j < t.entries[i].children.len() ==> i < #[trigger] t.entries[i].children[j]
            < t.entries.len())
    &&& (!t.entries[i].is_dir ==> t.entries[i].children.len() == 0)
}

/// Well-formedness of a tree snapshot: the root is entry 0, a non-ignored
/// directory named after the last root-path component, and every child index
/// points strictly further into the arena than its parent (so walks along
/// child edges terminate).
pub open spec fn tree_wf(t: TreeView) -> bool {
    &&& t.entries.len() >= 1
    &&& t.root_path.len() >= 1
    &&& t.entries[0].is_dir
    &&& !t.entries[0].is_ignored
    &&& t.entries[0].name == t.root_path.last()
    &&& forall|i: int| 0 <= i < t.entries.len() ==> #[trigger] entry_wf(t, i)
}

impl Tree {
    /// A tree holding only its root directory.
    pub fn new(root_path: CrossPath) -> (r: Self)
        requires
            root_path@.len() >= 1,
        ensures
            tree_wf(r@),
            r@.root_path =~= root_path@,
            r@.entries.len() == 1,
            r@.entries[0].children.len() == 0,
    {
        let n = root_path.components.len();
        let root_name = root_path.components[n - 1].clone();
        let root = Entry { name: root_name, is_dir: true, is_ignored: false, children: Vec::new() };
        let r = Tree { root_path, entries: vec![root] };
        proof {
            assert(r@.entries[0].children =~= Seq::<int>::empty());
            assert(forall|i: int| 0 <= i < r@.entries.len() ==> #[trigger] entry_wf(r@, i));
        }
        r
    }

    /// Adds an entry under the directory `parent` and returns its identity.
    pub fn add_entry(&mut self, parent: usize, name: String, is_dir: bool, is_ignored: bool) -> (idx:
        usize)
        requires
            tree_wf(old(self)@),
            parent < old(self)@.entries.len(),
            old(self)@.entries[parent as int].is_dir,
            old(self)@.entries.len() < usize::MAX,
        ensures
            tree_wf(final(self)@),
            idx == old(self)@.entries.len(),
            final(self)@.root_path == old(self)@.root_path,
            final(self)@.entries =~= old(self)@.entries.update(
                parent as int,
                EntryView {
                    children: old(self)@.entries[parent as int].children.push(idx as int),
                    ..old(self)@.entries[parent as int]
                },
            ).push(
                EntryView {
                    name: name@,
                    is_dir: is_dir,
                    is_ignored: is_ignored,
                    children: Seq::empty(),
                },
            ),
    {
        let idx = self.entries.len();
        let entry = Entry { name, is_dir, is_ignored, children: Vec::new() };
        self.entries[parent].children.push(idx);
        self.entries.push(entry);
        proof {
            let tv = self@;
            let ov = old(self)@;
            assert(tv.entries[idx as int].children =~= Seq::<int>::empty());
            assert(tv.entries[parent as int].children =~= ov.entries[parent as int].children.push(
                idx as int,
            ));
            assert forall|i: int| 0 <= i < tv.entries.len() implies #[trigger] entry_wf(tv, i) by {
                assert(i < ov.entries.len() ==> entry_wf(ov, i));
                if i == parent {
                    assert forall|j: int| 0 <= j < tv.entries[i].children.len() implies i
                        < #[trigger] tv.entries[i].children[j] < tv.entries.len() by {
                        if j < tv.entries[i].children.len() - 1 {
                            assert(tv.entries[i].children[j] == ov.entries[i].children[j]);
                        }
                    }
                }
            }
        }
        idx
    }

    /// Whether this snapshot is well-formed, exactly as `tree_wf` states it.
    pub fn check_wf(&self) -> (r: bool)
        ensures
            r == tree_wf(self@),
    {
        let count = self.entries.len();
        if count == 0 {
            return false;
        }
        let path_len = self.root_path.components.len();
        if path_len == 0 {
            return false;
        }
        let root = &self.entries[0];
        if !root.is_dir || root.is_ignored {
            return false;
        }
        if !(root.name == self.root_path.components[path_len - 1]) {
            proof {
                assert(self@.entries[0].name != self@.root_path.last());
            }
            return false;
        }
        let mut i: usize = 0;
        while i < count
            invariant
                i <= count,
                count == self.entries@.len(),
                forall|k: int| 0 <= k < i ==> #[trigger] entry_wf(self@, k),
            decreases count - i,
        {
            let e = &self.entries[i];
            if !e.is_dir && e.children.len() > 0 {
                proof {
                    assert(!entry_wf(self@, i as int));
                }
                return false;
            }
            let m = e.children.len();
            let mut j: usize = 0;
            while j < m
                invariant
                    j <= m,
                    i < count,
                    count == self.entries@.len(),
                    m == self@.entries[i as int].children.len(),
                    e == &self.entries[i as int],
                    forall|q: int|
                        0 <= q < j ==> i < #[trigger] self@.entries[i as int].children[q] < count,
                decreases m - j,
            {
                let c = e.children[j];
                proof {
                    assert(self@.entries[i as int].children[j as int] == c as int);
                }
                if c <= i || c >= count {
                    proof {
                        assert(!entry_wf(self@, i as int));
                    }
                    return false;
                }
                j += 1;
            }
            proof {
                assert(entry_wf(self@, i as int));
            }
            i += 1;
        }
        proof {
            assert(self@.entries[0].name == self@.root_path.last());
        }
        true
    }

    /// A copy of this tree whose view equals the original's.
    pub fn duplicate(&self) -> (r: Self)
        ensures
            r@.root_path =~= self@.root_path,
            r@.entries =~= self@.entries,
    {
        let mut entries: Vec<Entry> = Vec::new();
        let n = self.entries.len();
        let mut i: usize = 0;
        while i < n
            invariant
                i <= n,
                n == self.entries@.len(),
                entries@.len() == i,
                forall|k: int| 0 <= k < i ==> #[trigger] entries@[k]@ == self@.entries[k],
            decreases n - i,
        {
            let e = &self.entries[i];
            let mut children: Vec<usize> = Vec::new();
            let m = e.children.len();
            let mut j: usize = 0;
            while j < m
                invariant
                    j <= m,
                    m == e.children@.len(),
                    children@ =~= e.children@.take(j as int),
                decreases m - j,
            {
                children.push(e.children[j]);
                j += 1;
                proof {
                    assert(e.children@.take(j as int) =~= e.children@.take(j - 1 as int).push(
                        e.children@[j - 1],
                    ));
                }
            }
            proof {
                assert(e.children@.take(m as int) =~= e.children@);
            }
            let copy = Entry {
                name: e.name.clone(),
                is_dir: e.is_dir,
                is_ignored: e.is_ignored,
                children,
            };
            proof {
                assert(copy@.children =~= e@.children);
                assert(copy@ =~= self@.entries[i as int]);
            }
            entries.push(copy);
            i += 1;
        }
        let r = Tree { root_path: self.root_path.duplicate(), entries };
        proof {
            assert(r@.entries =~= self@.entries);
        }
        r
    }
}

/// The display characters of entry `e`: its name plus a trailing `/` for a
/// directory.
pub fn name_char_vec(e: &Entry) -> (r: Vec<char>)
    ensures
        r@ == spec_name_chars(e@),
{
    let mut out = string_chars(&e.name);
    if e.is_dir {
        out.push('/');
    }
    out
}

} // verus!
