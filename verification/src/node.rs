//! The node model: a closed two-variant tree of files and folders. A file
//! owns a string buffer; a folder owns a name-keyed collection of child
//! nodes, with names unique within the folder.

use vstd::prelude::*;

verus! {

/// A leaf node holding textual content.
#[derive(Debug)]
pub struct File {
    pub content: String,
}

/// An interior node: a mapping from segment name to child node, kept as a
/// vector of pairs whose names are unique (the well-formedness invariant
/// `elem_wf` states this for every folder of a tree).
#[derive(Debug)]
pub struct Folder {
    pub elements: Vec<(String, Element)>,
}

/// A node of the tree: either a file or a folder.
#[derive(Debug)]
pub enum Element {
    File(File),
    Folder(Folder),
}

impl Folder {
    /// Whether some entry is named `name`.
    pub open spec fn has_child(self, name: Seq<char>) -> bool {
        exists|i: int| 0 <= i < self.elements@.len() && self.elements@[i].0@ == name
    }

    /// The index of the entry named `name` (well defined when names are
    /// unique and `has_child(name)` holds).
    pub open spec fn child_index(self, name: Seq<char>) -> int {
        choose|i: int| 0 <= i < self.elements@.len() && self.elements@[i].0@ == name
    }

    /// The child node named `name`.
    pub open spec fn child(self, name: Seq<char>) -> Element {
        self.elements@[self.child_index(name)].1
    }

    /// Entry names are unique within this folder.
    pub open spec fn names_unique(self) -> bool {
        forall|i: int, j: int|
            0 <= i < j < self.elements@.len() ==> (#[trigger] self.elements@[i].0@) != (
            #[trigger] self.elements@[j].0@)
    }
}

/// Every folder of the tree rooted at `e` has unique child names.
pub open spec fn elem_wf(e: Element) -> bool
    decreases e,
{
    match e {
        Element::File(_) => true,
        Element::Folder(fo) => fo.names_unique() && (forall|k: int|
            0 <= k < fo.elements@.len() ==> elem_wf(#[trigger] fo.elements@[k].1)),
    }
}

/// Every folder of the tree below this folder, itself included, has unique
/// child names.
pub open spec fn folder_wf(fo: Folder) -> bool {
    elem_wf(Element::Folder(fo))
}

impl Folder {
    /// An empty folder.
    pub fn new() -> (r: Folder)
        ensures
            r.elements@ =~= Seq::<(String, Element)>::empty(),
            folder_wf(r),
    {
        Folder { elements: Vec::new() }
    }

    /// The index of the entry named `name`, if any.
    pub fn find_child(&self, name: &String) -> (r: Option<usize>)
        requires
            self.names_unique(),
        ensures
            match r {
                Some(j) => j < self.elements@.len() && self.elements@[j as int].0@ == name@
                    && self.has_child(name@) && self.child_index(name@) == j,
                None => !self.has_child(name@),
            },
    {
        let mut j: usize = 0;
        while j < self.elements.len()
            invariant
                self.names_unique(),
                j <= self.elements@.len(),
                forall|k: int| 0 <= k < j ==> self.elements@[k].0@ != name@,
            decreases self.elements@.len() - j,
        {
            if self.elements[j].0.eq(name) {
                proof {
                    assert(self.has_child(name@));
                    let i = self.child_index(name@);
                    assert(0 <= i < self.elements@.len() && self.elements@[i].0@ == name@);
                    if i < j {
                        assert(self.elements@[i].0@ != self.elements@[j as int].0@);
                    }
                    if j < i {
                        assert(self.elements@[j as int].0@ != self.elements@[i].0@);
                    }
                }
                return Some(j);
            }
            j = j + 1;
        }
        None
    }

    /// Inserts `elem` under `name`: replaces the entry of that name if there
    /// is one, otherwise appends a new entry. Names stay unique.
    pub fn insert(&mut self, name: String, elem: Element)
        requires
            old(self).names_unique(),
        ensures
            final(self).names_unique(),
            final(self).has_child(name@),
            final(self).child(name@) == elem,
            old(self).has_child(name@) ==> final(self).elements@ =~= old(self).elements@.update(
                old(self).child_index(name@),
                (name, elem),
            ),
            !old(self).has_child(name@) ==> final(self).elements@ =~= old(self).elements@.push(
                (name, elem),
            ),
    {
        let found = self.find_child(&name);
        match found {
            Some(j) => {
                self.elements.set(j, (name, elem));
                proof {
                    let ghost k = old(self).child_index(name@);
                    assert(self.elements@[k].0@ == name@);
                    assert(self.has_child(name@));
                    assert(self.child_index(name@) == k);
                }
            },
            None => {
                self.elements.push((name, elem));
                proof {
                    let ghost n = old(self).elements@.len() as int;
                    assert(self.elements@[n].0@ == name@);
                    assert(self.has_child(name@));
                    assert(self.child_index(name@) == n);
                }
            },
        }
    }
}

} // verus!
