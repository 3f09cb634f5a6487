use minix::config::load_startup_config;
use minix::error::MinixError;
use minix::fs::FileSystem;
use minix::node::{Element, File, Folder};
use minix::path::Path;
use minix::state::State;

const SEED_CONTENT: &str = "CWD=/\nUSER_DIR=/usr/home/";

fn file(content: &str) -> Element {
    Element::File(File { content: content.to_string() })
}

#[test]
fn empty_path_is_not_a_file() {
    let mut state = State::default();
    let p = Path::from("");
    assert_eq!(p.elements.len(), 0);
    assert!(matches!(state.fs.get_file(Path::from("")), Err(MinixError::NotAFile(_))));
    assert!(matches!(state.fs.get_file_mut(Path::from("")), Err(MinixError::NotAFile(_))));
}

#[test]
fn exact_file_path_resolves_for_read_and_write() {
    let mut state = State::default();
    let read = state.fs.get_file(Path::from("/env/startup_config")).unwrap();
    assert_eq!(read.content, SEED_CONTENT);
    let written = state.fs.get_file_mut(Path::from("/env/startup_config")).unwrap();
    assert_eq!(written.content, SEED_CONTENT);
}

#[test]
fn early_stop_asymmetry() {
    let mut fs = FileSystem::new();
    fs.root.insert("a".to_string(), file("hello"));
    let read = fs.get_file(Path::from("/a/b/c")).unwrap();
    assert_eq!(read.content, "hello");
    assert!(matches!(fs.get_file_mut(Path::from("/a/b/c")), Err(MinixError::NotAFile(_))));
}

#[test]
fn missing_first_segment_doesnt_exist() {
    let mut state = State::default();
    assert!(matches!(state.fs.get_file(Path::from("/nope")), Err(MinixError::DoesntExist(_))));
    assert!(matches!(
        state.fs.get_file_mut(Path::from("/nope")),
        Err(MinixError::DoesntExist(_))
    ));
}

#[test]
fn missing_deeper_segment_doesnt_exist() {
    let mut state = State::default();
    assert!(matches!(
        state.fs.get_file(Path::from("/env/absent")),
        Err(MinixError::DoesntExist(_))
    ));
    assert!(matches!(
        state.fs.get_file_mut(Path::from("/env/absent")),
        Err(MinixError::DoesntExist(_))
    ));
}

#[test]
fn folder_path_is_not_a_file() {
    let mut state = State::default();
    assert!(matches!(state.fs.get_file(Path::from("/env")), Err(MinixError::NotAFile(_))));
    assert!(matches!(state.fs.get_file_mut(Path::from("/env")), Err(MinixError::NotAFile(_))));
}

#[test]
fn parse_drops_leading_component_only() {
    let p = Path::from("/a/b");
    assert_eq!(p.elements, vec!["a".to_string(), "b".to_string()]);
    let q = Path::from("/a/b/");
    assert_eq!(q.elements, vec!["a".to_string(), "b".to_string(), "".to_string()]);
    let r = Path::from("//a");
    assert_eq!(r.elements, vec!["".to_string(), "a".to_string()]);
}

#[test]
fn render_is_not_a_strict_inverse_of_parse() {
    let p = Path::from("/a/b");
    assert_eq!(p.render(), "/a/b/");
    assert_eq!(Path::from("").render(), "/");
    assert_eq!(Path::from("/usr/bin").render(), "/usr/bin/");
}

#[test]
fn seed_config_parses_to_the_expected_mapping() {
    let state = State::default();
    let pairs = load_startup_config(&state).unwrap();
    assert_eq!(
        pairs,
        vec![
            ("CWD".to_string(), "/".to_string()),
            ("USER_DIR".to_string(), "/usr/home/".to_string()),
        ]
    );
}

fn state_with_config(content: &str) -> State {
    let mut env = Folder::new();
    env.insert("startup_config".to_string(), file(content));
    let mut fs = FileSystem::new();
    fs.root.insert("env".to_string(), Element::Folder(env));
    State { environment_variables: Vec::new(), fs }
}

#[test]
fn config_line_without_equals_is_invalid() {
    let state = state_with_config("BADLINE");
    match load_startup_config(&state) {
        Err(MinixError::InvalidAssign(line)) => assert_eq!(line, "BADLINE"),
        other => panic!("expected InvalidAssign, got {:?}", other),
    }
}

#[test]
fn config_later_bad_line_is_reported() {
    let state = state_with_config("A=1\nBADLINE");
    match load_startup_config(&state) {
        Err(MinixError::InvalidAssign(line)) => assert_eq!(line, "BADLINE"),
        other => panic!("expected InvalidAssign, got {:?}", other),
    }
}

#[test]
fn config_value_may_contain_equals() {
    let state = state_with_config("KEY=a=b\nOTHER=");
    let pairs = load_startup_config(&state).unwrap();
    assert_eq!(
        pairs,
        vec![
            ("KEY".to_string(), "a=b".to_string()),
            ("OTHER".to_string(), "".to_string()),
        ]
    );
}

#[test]
fn config_trailing_newline_adds_no_line() {
    let state = state_with_config("A=1\nB=2\n");
    let pairs = load_startup_config(&state).unwrap();
    assert_eq!(
        pairs,
        vec![("A".to_string(), "1".to_string()), ("B".to_string(), "2".to_string())]
    );
}

#[test]
fn fresh_state_has_exactly_the_seed_tree() {
    let state = State::default();
    assert!(state.environment_variables.is_empty());
    assert_eq!(state.fs.root.elements.len(), 1);
    let (name, elem) = &state.fs.root.elements[0];
    assert_eq!(name, "env");
    match elem {
        Element::Folder(env) => {
            assert_eq!(env.elements.len(), 1);
            let (child_name, child) = &env.elements[0];
            assert_eq!(child_name, "startup_config");
            match child {
                Element::File(f) => assert_eq!(f.content, SEED_CONTENT),
                Element::Folder(_) => panic!("startup_config should be a file"),
            }
        }
        Element::File(_) => panic!("env should be a folder"),
    }
}

#[test]
fn writes_through_the_mutable_reference_are_visible() {
    let mut state = State::default();
    {
        let f = state.fs.get_file_mut(Path::from("/env/startup_config")).unwrap();
        f.content = "CWD=/usr/\n".to_string();
    }
    let read = state.fs.get_file(Path::from("/env/startup_config")).unwrap();
    assert_eq!(read.content, "CWD=/usr/\n");
}

#[test]
fn insert_replaces_an_existing_entry() {
    let mut fs = FileSystem::new();
    fs.root.insert("a".to_string(), file("one"));
    fs.root.insert("a".to_string(), file("two"));
    assert_eq!(fs.root.elements.len(), 1);
    assert_eq!(fs.get_file(Path::from("/a")).unwrap().content, "two");
}

#[test]
fn error_messages_name_the_offender() {
    assert_eq!(
        MinixError::NotAFile(Path::from("/x")).message(),
        "the path /x/ is not a valid file"
    );
    assert_eq!(
        MinixError::NotAFolder(Path::from("/x")).message(),
        "the path /x/ is not a valid folder"
    );
    assert_eq!(
        MinixError::DoesntExist(Path::from("/a/b")).message(),
        "the path /a/b/ does not exist"
    );
    assert_eq!(
        MinixError::InvalidAssign("BADLINE".to_string()).message(),
        "the assignment BADLINE is invalid"
    );
}

#[test]
fn nested_resolution_descends_folders() {
    let mut inner = Folder::new();
    inner.insert("leaf".to_string(), file("deep"));
    let mut outer = Folder::new();
    outer.insert("inner".to_string(), Element::Folder(inner));
    let mut fs = FileSystem::new();
    fs.root.insert("outer".to_string(), Element::Folder(outer));
    assert_eq!(fs.get_file(Path::from("/outer/inner/leaf")).unwrap().content, "deep");
    assert_eq!(
        fs.get_file_mut(Path::from("/outer/inner/leaf")).unwrap().content,
        "deep"
    );
    assert!(matches!(fs.get_file(Path::from("/outer/inner")), Err(MinixError::NotAFile(_))));
}
