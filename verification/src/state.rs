//! The process-wide context: the environment-variable mapping and the file
//! system, built once at startup with a fixed seed structure.

use crate::fs::{FileSystem, Resolution};
use crate::node::{elem_wf, Element, File, Folder};
use vstd::prelude::*;

verus! {

/// The fixed content of the seed file `/env/startup_config`.
pub open spec fn seed_config_text() -> Seq<char> {
    "CWD=/\nUSER_DIR=/usr/home/"@
}

/// The segments of the seed file's path.
pub open spec fn seed_path() -> Seq<Seq<char>> {
    seq!["env"@, "startup_config"@]
}

/// The seed shape: exactly one root child named `env`, a folder holding
/// exactly one child `startup_config`, a file with the fixed startup
/// content.
pub open spec fn seeded(fs: FileSystem) -> bool {
    &&& fs.root.elements@.len() == 1
    &&& fs.root.elements@[0].0@ == "env"@
    &&& fs.root.elements@[0].1 matches Element::Folder(env) && {
        &&& env.elements@.len() == 1
        &&& env.elements@[0].0@ == "startup_config"@
        &&& env.elements@[0].1 matches Element::File(f) && f.content@ == seed_config_text()
    }
}

/// In a freshly seeded tree the seed path resolves, for read and for write,
/// to the seed file.
pub proof fn lemma_seed_resolves(fs: FileSystem)
    requires
        seeded(fs),
    ensures
        fs.resolve_read(seed_path()) matches Resolution::Found(f) && f.content@
            == seed_config_text(),
        fs.resolve_write(seed_path()) matches Resolution::Found(f) && f.content@
            == seed_config_text(),
{
    assert(fs.root.elements@[0].0@ == seed_path()[0]);
    assert(fs.root.has_child(seed_path()[0]));
    assert(fs.root.child_index(seed_path()[0]) == 0);
    let env_elem = fs.root.elements@[0].1;
    let env = env_elem->Folder_0;
    let rest = seed_path().skip(1);
    assert(rest =~= seq!["startup_config"@]);
    assert(env.elements@[0].0@ == "startup_config"@);
    assert(env.has_child(rest[0]));
    assert(env.child_index(rest[0]) == 0);
    let file_elem = env.elements@[0].1;
    assert(rest.skip(1) =~= Seq::<Seq<char>>::empty());
    assert(crate::fs::resolve_read_from(Element::Folder(fs.root), seed_path())
        == crate::fs::resolve_read_from(env_elem, rest));
    assert(crate::fs::resolve_read_from(env_elem, rest) == crate::fs::resolve_read_from(
        file_elem,
        rest.skip(1),
    ));
    assert(crate::fs::resolve_read_from(file_elem, rest.skip(1)) == Resolution::Found(
        file_elem->File_0,
    ));
    assert(crate::fs::resolve_write_from(Element::Folder(fs.root), seed_path())
        == crate::fs::resolve_write_from(env_elem, rest));
    assert(crate::fs::resolve_write_from(env_elem, rest) == crate::fs::resolve_write_from(
        file_elem,
        rest.skip(1),
    ));
    assert(crate::fs::resolve_write_from(file_elem, rest.skip(1)) == Resolution::Found(
        file_elem->File_0,
    ));
}

/// The process state: the environment mapping loaded from the startup
/// config, and the file system.
#[derive(Debug)]
pub struct State {
    pub environment_variables: Vec<(String, String)>,
    pub fs: FileSystem,
}

impl Default for State {
    /// A fresh state: no environment variables yet, and a file system
    /// seeded with one root folder `env` holding the file `startup_config`
    /// with the fixed startup content.
    fn default() -> (r: State)
        ensures
            r.environment_variables@ =~= Seq::<(String, String)>::empty(),
            r.fs.wf(),
            seeded(r.fs),
    {
        let mut env = Folder::new();
        env.insert(
            "startup_config".to_owned(),
            Element::File(File { content: "CWD=/\nUSER_DIR=/usr/home/".to_owned() }),
        );
        proof {
            assert(env.elements@[0].1 matches Element::File(_));
            assert(elem_wf(env.elements@[0].1));
            assert(elem_wf(Element::Folder(env)));
        }
        let ghost genv = env;
        let mut root = Folder::new();
        root.insert("env".to_owned(), Element::Folder(env));
        let init = State { environment_variables: Vec::new(), fs: FileSystem { root } };
        proof {
            assert(init.fs.root.elements@.len() == 1);
            assert(init.fs.root.elements@[0].0@ == "env"@);
            assert(init.fs.root.elements@[0].1 == Element::Folder(genv));
            assert(elem_wf(Element::Folder(genv)));
            assert(init.fs.wf());
        }
        init
    }
}

} // verus!
