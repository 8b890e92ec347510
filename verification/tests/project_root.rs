use std::cell::RefCell;

use lib::error::JuteError;
use lib::project_root::ProjectRoot;

#[test]
fn the_nearest_ancestor_with_a_jute_folder_is_the_root() {
    let asked = RefCell::new(Vec::new());

    let root = ProjectRoot::find_project_root_starting_from("/home/me/project/src/bin", |dir| {
        asked.borrow_mut().push(dir.to_string());
        dir == "/home/me/project" || dir == "/home/me"
    })
    .unwrap();

    assert_eq!(root.path(), "/home/me/project");
    assert_eq!(
        asked.into_inner(),
        vec!["/home/me/project/src/bin", "/home/me/project/src", "/home/me/project"]
    );
}

#[test]
fn the_starting_directory_itself_can_be_the_root() {
    let root = ProjectRoot::find_project_root_starting_from("/work", |dir| dir == "/work").unwrap();

    assert_eq!(root.path(), "/work");
}

#[test]
fn no_jute_folder_anywhere_up_to_the_filesystem_root_is_an_error() {
    let asked = RefCell::new(Vec::new());

    let error = ProjectRoot::find_project_root_starting_from("/tmp/nowhere", |dir| {
        asked.borrow_mut().push(dir.to_string());
        false
    })
    .unwrap_err();

    assert!(matches!(&error, JuteError::NoProjectRoot { cwd } if cwd == "/tmp/nowhere"));
    assert_eq!(
        error.to_string(),
        "no .jute folder found in /tmp/nowhere or any parent"
    );
    assert_eq!(asked.into_inner(), vec!["/tmp/nowhere", "/tmp", "/"]);
}

#[test]
fn the_jute_folder_sits_in_the_root() {
    let root = ProjectRoot::find_project_root_starting_from("/srv/app", |_| true).unwrap();

    assert_eq!(root.jute_dir(), "/srv/app/.jute");
}
