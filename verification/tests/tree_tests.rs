use skely::error::SkError;
use skely::names::substitute_name;
use skely::tree::check_wf;
use skely::tree::copy_into;
use skely::tree::copy_node;
use skely::tree::substitute_file_content;
use skely::tree::substitute_tree_contents;
use skely::tree::substitute_tree_names;
use skely::tree::FsEntry;
use skely::tree::FsNode;

fn file(content: &str, executable: bool) -> FsNode {
    FsNode::File { content: content.to_string(), executable }
}

fn dir(entries: Vec<(&str, FsNode)>) -> FsNode {
    FsNode::Dir {
        entries: entries
            .into_iter()
            .map(|(name, node)| FsEntry { name: name.to_string(), node })
            .collect(),
    }
}

fn template_tree() -> FsNode {
    dir(vec![
        ("README.md", file("Hello PLACEHOLDER", false)),
        (
            "PLACEHOLDER",
            dir(vec![("src", dir(vec![("main.txt", file("PLACEHOLDER says hi", false))]))]),
        ),
        ("build.sh", file("echo PLACEHOLDER", true)),
    ])
}

#[test]
fn copy_fidelity() {
    let t = template_tree();
    let copied = copy_node(&t);
    assert_eq!(copied, t);
}

#[test]
fn copy_into_fresh_equals_source() {
    let t = template_tree();
    assert!(check_wf(&t));
    let d = copy_into(&t, None).unwrap();
    assert_eq!(d, t);
}

#[test]
fn copy_idempotence() {
    let t = template_tree();
    let first = copy_into(&t, None).unwrap();
    let second = copy_into(&t, Some(first)).unwrap();
    assert_eq!(second, t);
}

#[test]
fn copy_keeps_extra_destination_entries() {
    let t = dir(vec![("a.txt", file("one", false))]);
    let d = dir(vec![("b.txt", file("two", false))]);
    let merged = copy_into(&t, Some(d)).unwrap();
    let expected = dir(vec![("b.txt", file("two", false)), ("a.txt", file("one", false))]);
    assert_eq!(merged, expected);
}

#[test]
fn copy_overwrites_file_already_present() {
    let t = dir(vec![("a.txt", file("new", false))]);
    let d = dir(vec![("a.txt", file("old", true))]);
    let merged = copy_into(&t, Some(d)).unwrap();
    assert_eq!(merged, dir(vec![("a.txt", file("new", false))]));
}

#[test]
fn error_messages_name_the_path() {
    assert_eq!(SkError::NotFound { path: "a/b".to_string() }.message(), "not found: a/b");
    assert_eq!(SkError::IoError { path: "a/b".to_string() }.message(), "i/o failure at a/b");
    assert_eq!(
        SkError::EncodingError { path: "a/b".to_string() }.message(),
        "not valid text: a/b"
    );
    assert_eq!(
        SkError::PermissionSkip { path: "b.sh".to_string() }.message(),
        "skipped executable file b.sh"
    );
    assert_eq!(SkError::InvalidInput.message(), "invalid input");
    assert_eq!(SkError::NoHomeDirectory.message(), "could not find the home directory");
}

#[test]
fn copy_file_over_directory_fails() {
    let t = file("data", false);
    let d = dir(vec![]);
    match copy_into(&t, Some(d)) {
        Err(SkError::IoError { .. }) => {}
        other => panic!("expected an IoError, got {:?}", other),
    }
}

#[test]
fn copy_directory_over_file_fails() {
    let t = dir(vec![]);
    let d = file("data", false);
    match copy_into(&t, Some(d)) {
        Err(SkError::IoError { .. }) => {}
        other => panic!("expected an IoError, got {:?}", other),
    }
}

#[test]
fn file_content_substituted() {
    let out = substitute_file_content("p", "Hello PLACEHOLDER", false, "PLACEHOLDER", "demo");
    assert_eq!(out.unwrap(), "Hello demo");
}

#[test]
fn executable_file_is_permission_skip() {
    let out = substitute_file_content("b.sh", "echo PLACEHOLDER", true, "PLACEHOLDER", "demo");
    assert_eq!(out, Err(SkError::PermissionSkip { path: "b.sh".to_string() }));
}

#[test]
fn executable_skip_whole_tree_still_succeeds() {
    let t = template_tree();
    let out = substitute_tree_contents(&t, "PLACEHOLDER", "demo");
    let expected = dir(vec![
        ("README.md", file("Hello demo", false)),
        ("PLACEHOLDER", dir(vec![("src", dir(vec![("main.txt", file("demo says hi", false))]))])),
        ("build.sh", file("echo PLACEHOLDER", true)),
    ]);
    assert_eq!(out, expected);
}

#[test]
fn extension_preserved_on_rename() {
    assert_eq!(substitute_name("PLACEHOLDER.tar.gz", "PLACEHOLDER", "myapp"), "myapp.tar.gz");
}

#[test]
fn rename_needs_leading_segment_match() {
    assert_eq!(substitute_name("build.sh", "PLACEHOLDER", "demo"), "build.sh");
    assert_eq!(substitute_name("xPLACEHOLDER.txt", "PLACEHOLDER", "demo"), "xPLACEHOLDER.txt");
    assert_eq!(substitute_name("PLACEHOLDER", "PLACEHOLDER", "demo"), "demo");
}

#[test]
fn rename_replaces_only_leading_occurrence() {
    assert_eq!(
        substitute_name("PLACEHOLDER.PLACEHOLDER.gz", "PLACEHOLDER", "app"),
        "app.PLACEHOLDER.gz"
    );
}

#[test]
fn name_substitution_idempotent() {
    let once = substitute_name("PLACEHOLDER.tar.gz", "PLACEHOLDER", "myapp");
    let twice = substitute_name(&once, "PLACEHOLDER", "myapp");
    assert_eq!(once, twice);
}

#[test]
fn name_pass_idempotent_on_tree() {
    let t = template_tree();
    let once = substitute_tree_names(&t, "PLACEHOLDER", "demo").unwrap();
    let twice = substitute_tree_names(&once, "PLACEHOLDER", "demo").unwrap();
    assert_eq!(once, twice);
}

#[test]
fn name_pass_renames_and_descends() {
    let t = dir(vec![(
        "PLACEHOLDER",
        dir(vec![("PLACEHOLDER.txt", file("x", false))]),
    )]);
    let out = substitute_tree_names(&t, "PLACEHOLDER", "demo").unwrap();
    let expected = dir(vec![("demo", dir(vec![("demo.txt", file("x", false))]))]);
    assert_eq!(out, expected);
}

#[test]
fn name_pass_collision_is_io_error() {
    let t = dir(vec![
        ("PLACEHOLDER.txt", file("x", false)),
        ("demo.txt", file("y", false)),
    ]);
    match substitute_tree_names(&t, "PLACEHOLDER", "demo") {
        Err(SkError::IoError { path }) => assert_eq!(path, "demo.txt"),
        other => panic!("expected an IoError, got {:?}", other),
    }
}

#[test]
fn name_pass_rename_onto_vacated_name_succeeds() {
    // the first entry is renamed away before the second takes its old name
    let t = dir(vec![
        ("PLACEHOLDER.old", file("x", false)),
        ("PLACEHOLDER", file("y", false)),
    ]);
    let out = substitute_tree_names(&t, "PLACEHOLDER", "demo").unwrap();
    let expected = dir(vec![("demo.old", file("x", false)), ("demo", file("y", false))]);
    assert_eq!(out, expected);
}

#[test]
fn check_wf_detects_duplicate_names() {
    let good = template_tree();
    assert!(check_wf(&good));
    let bad = dir(vec![("a", file("1", false)), ("a", file("2", false))]);
    assert!(!check_wf(&bad));
    let nested_bad = dir(vec![(
        "sub",
        dir(vec![("x", file("1", false)), ("x", file("2", false))]),
    )]);
    assert!(!check_wf(&nested_bad));
}

#[test]
fn full_instantiation_scenario() {
    let tpl = template_tree();
    let out = copy_into(&tpl, None).unwrap();
    let out = substitute_tree_contents(&out, "PLACEHOLDER", "demo");
    let out = substitute_tree_names(&out, "PLACEHOLDER", "demo").unwrap();
    let expected = dir(vec![
        ("README.md", file("Hello demo", false)),
        ("demo", dir(vec![("src", dir(vec![("main.txt", file("demo says hi", false))]))])),
        ("build.sh", file("echo PLACEHOLDER", true)),
    ]);
    assert_eq!(out, expected);
}
