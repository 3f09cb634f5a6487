//! The file system: one root folder, and the resolution operations that walk
//! the tree following a path and return a reference — immutable or mutable —
//! to the terminal file node, or a typed failure.

use crate::error::{MinixError, MinixResult};
use crate::node::{elem_wf, folder_wf, Element, File, Folder};
use crate::path::Path;
use vstd::prelude::*;

verus! {

/// The outcome of resolving a sequence of segments against a tree: the file
/// the segments lead to, or the failure they run into.
pub enum Resolution {
    /// The segments lead to this file.
    Found(File),
    /// The segments lead to a folder, to the root, or (on the write path)
    /// to a file with leftover segments.
    NotAFile,
    /// A segment has no matching child at its level.
    DoesntExist,
}

/// Read resolution, from node `e` with `segs` still to consume: descends
/// folder by folder, but stops at the first file encountered and ignores any
/// remaining segments.
pub open spec fn resolve_read_from(e: Element, segs: Seq<Seq<char>>) -> Resolution
    decreases segs.len(),
{
    match e {
        Element::File(f) => Resolution::Found(f),
        Element::Folder(fo) => if segs.len() == 0 {
            Resolution::NotAFile
        } else if !fo.has_child(segs[0]) {
            Resolution::DoesntExist
        } else {
            resolve_read_from(fo.child(segs[0]), segs.skip(1))
        },
    }
}

/// Write resolution, from node `e` with `segs` still to consume: the same
/// descent, but stricter — the path must exactly address a file, so a file
/// reached while segments remain is a failure, not an answer.
pub open spec fn resolve_write_from(e: Element, segs: Seq<Seq<char>>) -> Resolution
    decreases segs.len(),
{
    match e {
        Element::File(f) => if segs.len() == 0 {
            Resolution::Found(f)
        } else {
            Resolution::NotAFile
        },
        Element::Folder(fo) => if segs.len() == 0 {
            Resolution::NotAFile
        } else if !fo.has_child(segs[0]) {
            Resolution::DoesntExist
        } else {
            resolve_write_from(fo.child(segs[0]), segs.skip(1))
        },
    }
}

/// Owns the root folder of the tree. The root is always a folder, never a
/// file.
#[derive(Debug)]
pub struct FileSystem {
    pub root: Folder,
}

impl FileSystem {
    /// Every folder of the tree has unique child names.
    pub open spec fn wf(self) -> bool {
        folder_wf(self.root)
    }

    /// What read resolution of `segs` against this tree yields.
    pub open spec fn resolve_read(self, segs: Seq<Seq<char>>) -> Resolution {
        resolve_read_from(Element::Folder(self.root), segs)
    }

    /// What write resolution of `segs` against this tree yields.
    pub open spec fn resolve_write(self, segs: Seq<Seq<char>>) -> Resolution {
        resolve_write_from(Element::Folder(self.root), segs)
    }

    /// A file system with an empty root folder.
    pub fn new() -> (r: FileSystem)
        ensures
            r.root.elements@ =~= Seq::<(String, Element)>::empty(),
            r.wf(),
    {
        FileSystem { root: Folder::new() }
    }
}

/// The broadcast form of `lemma_updated_at_wf`, so that well-formedness of
/// the updated tree follows wherever `updated_at` is known.
pub broadcast proof fn lemma_updated_at_preserves_wf(
    e1: Element,
    e2: Element,
    segs: Seq<Seq<char>>,
    nf: File,
)
    ensures
        elem_wf(e1) && #[trigger] updated_at(e1, e2, segs, nf) ==> elem_wf(e2),
{
    if elem_wf(e1) && updated_at(e1, e2, segs, nf) {
        lemma_updated_at_wf(e1, e2, segs, nf);
    }
}

/// A path with zero segments denotes the root, which is a folder and never a
/// file: resolving it for read or for write fails with `NotAFile`.
pub proof fn lemma_empty_path_not_a_file(fs: FileSystem, segs: Seq<Seq<char>>)
    requires
        segs.len() == 0,
    ensures
        fs.resolve_read(segs) == Resolution::NotAFile,
        fs.resolve_write(segs) == Resolution::NotAFile,
{
}

proof fn lemma_write_found_implies_read_from(e: Element, segs: Seq<Seq<char>>)
    ensures
        resolve_write_from(e, segs) matches Resolution::Found(f) ==> resolve_read_from(e, segs)
            == Resolution::Found(f),
    decreases segs.len(),
{
    match e {
        Element::File(_) => {},
        Element::Folder(fo) => {
            if segs.len() > 0 && fo.has_child(segs[0]) {
                lemma_write_found_implies_read_from(fo.child(segs[0]), segs.skip(1));
            }
        },
    }
}

/// For every path that write resolution accepts — an existing file path with
/// no trailing extra segments — read resolution succeeds as well, and both
/// return the same file.
pub proof fn lemma_write_found_implies_read(fs: FileSystem, segs: Seq<Seq<char>>)
    ensures
        fs.resolve_write(segs) matches Resolution::Found(f) ==> fs.resolve_read(segs)
            == Resolution::Found(f),
{
    lemma_write_found_implies_read_from(Element::Folder(fs.root), segs);
}

proof fn lemma_read_found_write_outcome_from(e: Element, segs: Seq<Seq<char>>)
    ensures
        resolve_read_from(e, segs) matches Resolution::Found(f) ==> resolve_write_from(e, segs)
            == Resolution::Found(f) || resolve_write_from(e, segs) == Resolution::NotAFile,
    decreases segs.len(),
{
    match e {
        Element::File(_) => {},
        Element::Folder(fo) => {
            if segs.len() > 0 && fo.has_child(segs[0]) {
                lemma_read_found_write_outcome_from(fo.child(segs[0]), segs.skip(1));
            }
        },
    }
}

/// The early-stop asymmetry: a path that read resolution answers with a file
/// is either exactly that file's path — then write resolution finds the same
/// file — or has leftover segments past the file, and write resolution
/// rejects it with `NotAFile`. It never fails with `DoesntExist`.
pub proof fn lemma_read_found_write_outcome(fs: FileSystem, segs: Seq<Seq<char>>)
    ensures
        fs.resolve_read(segs) matches Resolution::Found(f) ==> fs.resolve_write(segs)
            == Resolution::Found(f) || fs.resolve_write(segs) == Resolution::NotAFile,
{
    lemma_read_found_write_outcome_from(Element::Folder(fs.root), segs);
}

/// A path whose first segment has no matching child under root fails both
/// resolutions with `DoesntExist`.
pub proof fn lemma_missing_first_segment(fs: FileSystem, segs: Seq<Seq<char>>)
    requires
        segs.len() > 0,
        !fs.root.has_child(segs[0]),
    ensures
        fs.resolve_read(segs) == Resolution::DoesntExist,
        fs.resolve_write(segs) == Resolution::DoesntExist,
{
}

/// The path runs through existing folders only and ends at a folder: no file
/// is encountered at any step.
pub open spec fn all_folders_along(e: Element, segs: Seq<Seq<char>>) -> bool
    decreases segs.len(),
{
    match e {
        Element::File(_) => false,
        Element::Folder(fo) => segs.len() == 0 || (fo.has_child(segs[0]) && all_folders_along(
            fo.child(segs[0]),
            segs.skip(1),
        )),
    }
}

proof fn lemma_folder_path_not_a_file_from(e: Element, segs: Seq<Seq<char>>)
    requires
        all_folders_along(e, segs),
    ensures
        resolve_read_from(e, segs) == Resolution::NotAFile,
        resolve_write_from(e, segs) == Resolution::NotAFile,
    decreases segs.len(),
{
    match e {
        Element::File(_) => {},
        Element::Folder(fo) => {
            if segs.len() > 0 {
                lemma_folder_path_not_a_file_from(fo.child(segs[0]), segs.skip(1));
            }
        },
    }
}

/// A path that resolves to a folder — no file encountered along the way —
/// fails both resolutions with `NotAFile`.
pub proof fn lemma_folder_path_not_a_file(fs: FileSystem, segs: Seq<Seq<char>>)
    requires
        all_folders_along(Element::Folder(fs.root), segs),
    ensures
        fs.resolve_read(segs) == Resolution::NotAFile,
        fs.resolve_write(segs) == Resolution::NotAFile,
{
    lemma_folder_path_not_a_file_from(Element::Folder(fs.root), segs);
}

/// The failure of a resolution step, before the offending path is attached.
enum ResolveErr {
    NotAFile,
    DoesntExist,
}

fn resolve_read_in<'a>(e: &'a Element, segs: &Vec<String>, i: usize) -> (r: Result<
    &'a File,
    ResolveErr,
>)
    requires
        elem_wf(*e),
        i <= segs@.len(),
    ensures
        match resolve_read_from(*e, segs.deep_view().skip(i as int)) {
            Resolution::Found(f) => r matches Ok(g) && *g == f,
            Resolution::NotAFile => r matches Err(k) && k == ResolveErr::NotAFile,
            Resolution::DoesntExist => r matches Err(k) && k == ResolveErr::DoesntExist,
        },
    decreases segs@.len() - i,
{
    let ghost sv = segs.deep_view().skip(i as int);
    match e {
        Element::File(f) => Ok(f),
        Element::Folder(fo) => {
            if i == segs.len() {
                assert(sv.len() == 0);
                Err(ResolveErr::NotAFile)
            } else {
                proof {
                    assert(sv[0] == segs@[i as int]@);
                }
                match fo.find_child(&segs[i]) {
                    None => Err(ResolveErr::DoesntExist),
                    Some(j) => {
                        proof {
                            assert(fo.child(sv[0]) == fo.elements@[j as int].1);
                            assert(elem_wf(fo.elements@[j as int].1));
                            assert(sv.skip(1) =~= segs.deep_view().skip(i + 1));
                        }
                        resolve_read_in(&fo.elements[j].1, segs, i + 1)
                    },
                }
            }
        },
    }
}

/// `e2` is `e1` with the file that write-resolving `segs` reaches replaced by
/// `nf`: the same tree shape, names and contents everywhere else.
pub open spec fn updated_at(e1: Element, e2: Element, segs: Seq<Seq<char>>, nf: File) -> bool
    decreases segs.len(),
{
    match e1 {
        Element::File(_) => segs.len() == 0 && e2 == Element::File(nf),
        Element::Folder(fo) => {
            &&& segs.len() > 0
            &&& fo.has_child(segs[0])
            &&& match e2 {
                Element::Folder(fo2) => {
                    let j = fo.child_index(segs[0]);
                    &&& fo2.elements@.len() == fo.elements@.len()
                    &&& (forall|k: int|
                        0 <= k < fo.elements@.len() && k != j ==> (#[trigger] fo2.elements@[k])
                            == fo.elements@[k])
                    &&& fo2.elements@[j].0 == fo.elements@[j].0
                    &&& updated_at(fo.elements@[j].1, fo2.elements@[j].1, segs.skip(1), nf)
                },
                Element::File(_) => false,
            }
        },
    }
}

/// Replacing one file's content leaves every folder's names as they were, so
/// a well-formed tree stays well-formed.
proof fn lemma_updated_at_wf(e1: Element, e2: Element, segs: Seq<Seq<char>>, nf: File)
    requires
        elem_wf(e1),
        updated_at(e1, e2, segs, nf),
    ensures
        elem_wf(e2),
    decreases segs.len(),
{
    match e1 {
        Element::File(_) => {},
        Element::Folder(fo) => {
            match e2 {
                Element::Folder(fo2) => {
                    let j = fo.child_index(segs[0]);
                    assert(forall|k: int|
                        0 <= k < fo2.elements@.len() ==> (#[trigger] fo2.elements@[k]).0
                            == fo.elements@[k].0);
                    assert(fo2.names_unique());
                    lemma_updated_at_wf(fo.elements@[j].1, fo2.elements@[j].1, segs.skip(1), nf);
                    assert(forall|k: int|
                        0 <= k < fo2.elements@.len() ==> elem_wf(#[trigger] fo2.elements@[k].1));
                },
                Element::File(_) => {},
            }
        },
    }
}

/// Decides, without touching the tree, how write resolution of the segments
/// from index `i` on will end at node `e`.
fn classify_write(e: &Element, segs: &Vec<String>, i: usize) -> (r: Result<(), ResolveErr>)
    requires
        elem_wf(*e),
        i <= segs@.len(),
    ensures
        match resolve_write_from(*e, segs.deep_view().skip(i as int)) {
            Resolution::Found(_) => r matches Ok(_),
            Resolution::NotAFile => r matches Err(k) && k == ResolveErr::NotAFile,
            Resolution::DoesntExist => r matches Err(k) && k == ResolveErr::DoesntExist,
        },
    decreases segs@.len() - i,
{
    let ghost sv = segs.deep_view().skip(i as int);
    match e {
        Element::File(_) => {
            if i == segs.len() {
                assert(sv.len() == 0);
                Ok(())
            } else {
                Err(ResolveErr::NotAFile)
            }
        },
        Element::Folder(fo) => {
            if i == segs.len() {
                assert(sv.len() == 0);
                Err(ResolveErr::NotAFile)
            } else {
                proof {
                    assert(sv[0] == segs@[i as int]@);
                }
                match fo.find_child(&segs[i]) {
                    None => Err(ResolveErr::DoesntExist),
                    Some(j) => {
                        proof {
                            assert(fo.child(sv[0]) == fo.elements@[j as int].1);
                            assert(elem_wf(fo.elements@[j as int].1));
                            assert(sv.skip(1) =~= segs.deep_view().skip(i + 1));
                        }
                        classify_write(&fo.elements[j].1, segs, i + 1)
                    },
                }
            }
        },
    }
}

/// Descends to the file that write resolution is already known to reach, and
/// hands back exclusive access to it.
fn resolve_write_found<'a>(e: &'a mut Element, segs: &Vec<String>, i: usize) -> (f: &'a mut File)
    requires
        elem_wf(*old(e)),
        i <= segs@.len(),
        resolve_write_from(*old(e), segs.deep_view().skip(i as int)) matches Resolution::Found(_),
    ensures
        resolve_write_from(*old(e), segs.deep_view().skip(i as int)) matches Resolution::Found(f0)
            && *f == f0,
        updated_at(*old(e), *final(e), segs.deep_view().skip(i as int), *final(f)),
    decreases segs@.len() - i,
{
    let ghost sv = segs.deep_view().skip(i as int);
    match e {
        Element::File(f) => {
            assert(sv.len() == 0) by {
                if i < segs@.len() {
                    assert(sv.len() > 0);
                }
            }
            f
        },
        Element::Folder(fo) => {
            let n = segs.len();
            assert(i < n);
            proof {
                assert(sv[0] == segs@[i as int]@);
            }
            match fo.find_child(&segs[i]) {
                None => {
                    proof {
                        assert(false);
                    }
                    vstd::pervasive::unreached()
                },
                Some(j) => {
                    proof {
                        assert(fo.child(sv[0]) == fo.elements@[j as int].1);
                        assert(elem_wf(fo.elements@[j as int].1));
                        assert(sv.skip(1) =~= segs.deep_view().skip(i + 1));
                    }
                    let child = &mut fo.elements[j].1;
                    resolve_write_found(child, segs, i + 1)
                },
            }
        },
    }
}

impl FileSystem {
    /// Resolves `path` to a read-only reference to a file. An empty path or
    /// a path ending at a folder fails with `NotAFile`; a missing segment
    /// fails with `DoesntExist`; a file reached before the segments run out
    /// is returned as the answer, the rest of the path ignored.
    pub fn get_file(&self, path: Path) -> (r: MinixResult<&File>)
        requires
            self.wf(),
        ensures
            match self.resolve_read(path@) {
                Resolution::Found(f) => r matches Ok(g) && *g == f,
                Resolution::NotAFile => r matches Err(e) && e matches MinixError::NotAFile(p)
                    && p@ == path@,
                Resolution::DoesntExist => r matches Err(e) && e matches MinixError::DoesntExist(p)
                    && p@ == path@,
            },
    {
        if path.elements.len() == 0 {
            return Err(MinixError::NotAFile(path));
        }
        assert(path@[0] == path.elements@[0]@);
        let first = self.root.find_child(&path.elements[0]);
        match first {
            None => Err(MinixError::DoesntExist(path)),
            Some(j) => {
                proof {
                    assert(self.root.child(path@[0]) == self.root.elements@[j as int].1);
                    assert(elem_wf(self.root.elements@[j as int].1));
                    assert(path@.skip(1) =~= path.elements.deep_view().skip(1));
                }
                let rr = resolve_read_in(&self.root.elements[j].1, &path.elements, 1);
                match rr {
                    Ok(f) => Ok(f),
                    Err(ResolveErr::NotAFile) => Err(MinixError::NotAFile(path)),
                    Err(ResolveErr::DoesntExist) => Err(MinixError::DoesntExist(path)),
                }
            },
        }
    }

    /// Resolves `path` to an exclusive mutable reference to a file. Stricter
    /// than read resolution: the path must exactly address a file, so a file
    /// reached while segments remain fails with `NotAFile`. On failure the
    /// tree is left exactly as it was; on success the tree afterwards is the
    /// old tree with just that file's content replaced by whatever the
    /// caller writes through the reference.
    pub fn get_file_mut(&mut self, path: Path) -> (r: MinixResult<&mut File>)
        requires
            old(self).wf(),
        ensures
            match old(self).resolve_write(path@) {
                Resolution::Found(f) => r.is_ok() && *r->Ok_0 == f && updated_at(
                    Element::Folder(old(self).root),
                    Element::Folder(final(self).root),
                    path@,
                    *final(r->Ok_0),
                ) && final(self).wf(),
                Resolution::NotAFile => r matches Err(e) && e matches MinixError::NotAFile(p)
                    && p@ == path@ && *final(self) == *old(self),
                Resolution::DoesntExist => r matches Err(e) && e matches MinixError::DoesntExist(p)
                    && p@ == path@ && *final(self) == *old(self),
            },
    {
        broadcast use lemma_updated_at_preserves_wf;

        if path.elements.len() == 0 {
            return Err(MinixError::NotAFile(path));
        }
        assert(path@[0] == path.elements@[0]@);
        let first = self.root.find_child(&path.elements[0]);
        match first {
            None => Err(MinixError::DoesntExist(path)),
            Some(j) => {
                proof {
                    assert(self.root.child(path@[0]) == self.root.elements@[j as int].1);
                    assert(elem_wf(self.root.elements@[j as int].1));
                    assert(path@.skip(1) =~= path.elements.deep_view().skip(1));
                }
                let outcome = classify_write(&self.root.elements[j].1, &path.elements, 1);
                match outcome {
                    Err(ResolveErr::NotAFile) => Err(MinixError::NotAFile(path)),
                    Err(ResolveErr::DoesntExist) => Err(MinixError::DoesntExist(path)),
                    Ok(_) => {
                        let child = &mut self.root.elements[j].1;
                        let f = resolve_write_found(child, &path.elements, 1);
                        Ok(f)
                    },
                }
            },
        }
    }
}

} // verus!
