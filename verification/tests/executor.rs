use layout_sync::executor::{
    apply, execute, permit, resolve, ExecError, FileAction, Location, Side,
};
use layout_sync::index::TreeIndex;
use layout_sync::key::IdentityKey;
use layout_sync::path::FilePath;
use layout_sync::plan::{plan, Operation};

fn path(text: &str) -> FilePath {
    if text.is_empty() {
        FilePath::new(Vec::new())
    } else {
        FilePath::new(text.split('/').map(|part| part.to_string()).collect())
    }
}

fn tree(files: &[(u64, &str)]) -> TreeIndex {
    let mut index = TreeIndex::new();
    for (size, text) in files {
        let place = path(text);
        let name = place.file_name().unwrap();
        index.insert(IdentityKey::new(*size, name), place);
    }
    index
}

fn copy(source: &str, target: &str) -> Operation {
    Operation::Copy { source: path(source), target: path(target) }
}

fn rename(source: &str, target: &str) -> Operation {
    Operation::Move { source: path(source), target: path(target) }
}

fn remove(duplicate: &str, original: &str) -> Operation {
    Operation::RemoveDuplicate { duplicate: path(duplicate), original: path(original) }
}

fn in_source(text: &str) -> Location {
    Location { side: Side::Source, path: path(text) }
}

fn in_target(text: &str) -> Location {
    Location { side: Side::Target, path: path(text) }
}

#[test]
fn copy_reads_the_source_tree_and_writes_the_target_tree() {
    assert_eq!(
        resolve(&copy("a/x.jpg", "b/x.jpg")),
        FileAction::CopyFile { from: in_source("a/x.jpg"), to: in_target("b/x.jpg") }
    );
}

#[test]
fn move_stays_within_the_target_tree() {
    assert_eq!(
        resolve(&rename("a/x.jpg", "b/x.jpg")),
        FileAction::RenameFile { from: in_target("a/x.jpg"), to: in_target("b/x.jpg") }
    );
}

#[test]
fn removal_deletes_the_duplicate_in_the_target_tree() {
    assert_eq!(
        resolve(&remove("a/x.jpg", "b/x.jpg")),
        FileAction::RemoveFile { at: in_target("a/x.jpg") }
    );
}

#[test]
fn only_the_source_of_a_copy_lies_in_the_source_tree() {
    let operations =
        vec![copy("a/x.jpg", "b/x.jpg"), rename("a/x.jpg", "b/x.jpg"), remove("a/x.jpg", "b/x.jpg")];
    for operation in &operations {
        match resolve(operation) {
            FileAction::CopyFile { from, to } => {
                assert_eq!(from.side, Side::Source);
                assert_eq!(to.side, Side::Target);
            }
            FileAction::RenameFile { from, to } => {
                assert_eq!(from.side, Side::Target);
                assert_eq!(to.side, Side::Target);
            }
            FileAction::RemoveFile { at } => assert_eq!(at.side, Side::Target),
        }
    }
}

#[test]
fn destination_is_the_place_that_is_written() {
    assert_eq!(resolve(&copy("a", "b")).destination(), Some(&in_target("b")));
    assert_eq!(resolve(&rename("a", "b")).destination(), Some(&in_target("b")));
    assert_eq!(resolve(&remove("a", "b")).destination(), None);
}

#[test]
fn permit_refuses_to_overwrite() {
    assert_eq!(
        permit(&resolve(&copy("a", "b")), true),
        Err(ExecError::WouldOverwrite { at: in_target("b") })
    );
    assert_eq!(
        permit(&resolve(&rename("a", "b")), true),
        Err(ExecError::WouldOverwrite { at: in_target("b") })
    );
}

#[test]
fn permit_lets_through_what_overwrites_nothing() {
    assert_eq!(permit(&resolve(&copy("a", "b")), false), Ok(()));
    assert_eq!(permit(&resolve(&rename("a", "b")), false), Ok(()));
    assert_eq!(permit(&resolve(&remove("a", "b")), false), Ok(()));
    assert_eq!(permit(&resolve(&remove("a", "b")), true), Ok(()));
}

#[test]
fn apply_copy_puts_the_file_of_the_source_into_the_target() {
    let source = tree(&[(1000, "photos/a.jpg")]);
    let mut target = tree(&[(5, "b.txt")]);
    assert_eq!(apply(&copy("photos/a.jpg", "photos/a.jpg"), &source, &mut target), Ok(()));
    assert_eq!(target, tree(&[(5, "b.txt"), (1000, "photos/a.jpg")]));
}

#[test]
fn apply_copy_names_the_new_file_after_its_new_place() {
    let source = tree(&[(1000, "a.jpg")]);
    let mut target = tree(&[]);
    assert_eq!(apply(&copy("a.jpg", "kept/b.jpg"), &source, &mut target), Ok(()));
    assert_eq!(target, tree(&[(1000, "kept/b.jpg")]));
}

#[test]
fn apply_copy_fails_where_the_target_has_a_file_at_the_place() {
    let source = tree(&[(1000, "a.jpg")]);
    let mut target = tree(&[(2000, "a.jpg")]);
    assert_eq!(
        apply(&copy("a.jpg", "a.jpg"), &source, &mut target),
        Err(ExecError::WouldOverwrite { at: in_target("a.jpg") })
    );
    assert_eq!(target, tree(&[(2000, "a.jpg")]));
}

#[test]
fn apply_copy_fails_where_the_source_lacks_the_file() {
    let source = tree(&[]);
    let mut target = tree(&[]);
    assert_eq!(
        apply(&copy("a.jpg", "a.jpg"), &source, &mut target),
        Err(ExecError::IoFailure { at: in_source("a.jpg") })
    );
    assert_eq!(target, tree(&[]));
}

#[test]
fn apply_copy_fails_where_the_new_place_has_no_file_name() {
    let source = tree(&[(1000, "a.jpg")]);
    let mut target = tree(&[]);
    assert_eq!(
        apply(&copy("a.jpg", "x/.."), &source, &mut target),
        Err(ExecError::IoFailure { at: in_target("x/..") })
    );
    assert_eq!(target, tree(&[]));
}

#[test]
fn apply_move_renames_within_the_target() {
    let source = tree(&[]);
    let mut target = tree(&[(1000, "misc/a.jpg"), (1000, "other/a.jpg")]);
    assert_eq!(apply(&rename("misc/a.jpg", "a.jpg"), &source, &mut target), Ok(()));
    assert_eq!(target, tree(&[(1000, "other/a.jpg"), (1000, "a.jpg")]));
}

#[test]
fn apply_move_to_another_name_changes_the_key() {
    let source = tree(&[]);
    let mut target = tree(&[(1000, "a.jpg")]);
    assert_eq!(apply(&rename("a.jpg", "b.jpg"), &source, &mut target), Ok(()));
    assert_eq!(target, tree(&[(1000, "b.jpg")]));
}

#[test]
fn apply_move_fails_where_the_target_has_a_file_at_the_place() {
    let source = tree(&[]);
    let mut target = tree(&[(1000, "misc/a.jpg"), (3, "a.jpg")]);
    let before = target.clone();
    assert_eq!(
        apply(&rename("misc/a.jpg", "a.jpg"), &source, &mut target),
        Err(ExecError::WouldOverwrite { at: in_target("a.jpg") })
    );
    assert_eq!(target, before);
}

#[test]
fn apply_move_onto_itself_would_overwrite() {
    let source = tree(&[]);
    let mut target = tree(&[(1000, "a.jpg")]);
    assert_eq!(
        apply(&rename("a.jpg", "a.jpg"), &source, &mut target),
        Err(ExecError::WouldOverwrite { at: in_target("a.jpg") })
    );
    assert_eq!(target, tree(&[(1000, "a.jpg")]));
}

#[test]
fn apply_move_fails_where_the_target_lacks_the_file() {
    let source = tree(&[(1000, "misc/a.jpg")]);
    let mut target = tree(&[]);
    assert_eq!(
        apply(&rename("misc/a.jpg", "a.jpg"), &source, &mut target),
        Err(ExecError::IoFailure { at: in_target("misc/a.jpg") })
    );
    assert_eq!(target, tree(&[]));
}

#[test]
fn apply_move_fails_where_the_new_place_has_no_file_name() {
    let source = tree(&[]);
    let mut target = tree(&[(1000, "a.jpg")]);
    assert_eq!(
        apply(&rename("a.jpg", ""), &source, &mut target),
        Err(ExecError::IoFailure { at: in_target("") })
    );
    assert_eq!(target, tree(&[(1000, "a.jpg")]));
}

#[test]
fn apply_removal_deletes_the_duplicate() {
    let source = tree(&[]);
    let mut target = tree(&[(1000, "x/a.jpg"), (1000, "a.jpg")]);
    assert_eq!(apply(&remove("x/a.jpg", "a.jpg"), &source, &mut target), Ok(()));
    assert_eq!(target, tree(&[(1000, "a.jpg")]));
}

#[test]
fn apply_removal_fails_where_the_target_lacks_the_file() {
    let source = tree(&[(1000, "x/a.jpg")]);
    let mut target = tree(&[(1000, "a.jpg")]);
    assert_eq!(
        apply(&remove("x/a.jpg", "a.jpg"), &source, &mut target),
        Err(ExecError::IoFailure { at: in_target("x/a.jpg") })
    );
    assert_eq!(target, tree(&[(1000, "a.jpg")]));
}

#[test]
fn execute_runs_the_plan_in_order() {
    let source = tree(&[(1000, "a.jpg"), (7, "docs/n.txt")]);
    let mut target = tree(&[(1000, "x/a.jpg"), (1000, "y/a.jpg")]);
    let steps = vec![
        copy("docs/n.txt", "docs/n.txt"),
        rename("x/a.jpg", "a.jpg"),
        remove("y/a.jpg", "a.jpg"),
    ];
    assert_eq!(execute(&source, &mut target, &steps), Ok(()));
    assert_eq!(target, tree(&[(7, "docs/n.txt"), (1000, "a.jpg")]));
}

#[test]
fn execute_of_an_empty_plan_changes_nothing() {
    let source = tree(&[(1000, "a.jpg")]);
    let mut target = tree(&[(3, "b")]);
    assert_eq!(execute(&source, &mut target, &Vec::new()), Ok(()));
    assert_eq!(target, tree(&[(3, "b")]));
}

#[test]
fn execute_stops_at_the_first_failure_and_keeps_what_was_done() {
    let source = tree(&[(7, "n.txt"), (1000, "a.jpg")]);
    let mut target = tree(&[(2000, "a.jpg"), (9, "old")]);
    let steps = vec![copy("n.txt", "n.txt"), copy("a.jpg", "a.jpg"), remove("old", "n.txt")];
    assert_eq!(
        execute(&source, &mut target, &steps),
        Err(ExecError::WouldOverwrite { at: in_target("a.jpg") })
    );
    assert_eq!(target, tree(&[(7, "n.txt"), (9, "old"), (2000, "a.jpg")]));
}

#[test]
fn execute_depends_on_the_order_of_the_plan() {
    let source = tree(&[]);
    let steps = vec![rename("a", "b"), remove("a", "b")];
    let mut target = tree(&[(1, "a")]);
    assert_eq!(
        execute(&source, &mut target, &steps),
        Err(ExecError::IoFailure { at: in_target("a") })
    );
    assert_eq!(target, tree(&[(1, "b")]));
}

#[test]
fn planning_again_after_a_run_gives_an_empty_plan() {
    let source = tree(&[
        (1000, "photos/a.jpg"),
        (2000, "photos/b.jpg"),
        (30, "notes/c.txt"),
        (40, "d.txt"),
        (1000, "e.jpg"),
    ]);
    let mut target = tree(&[
        (2000, "misc/b.jpg"),
        (30, "x/c.txt"),
        (30, "notes/c.txt"),
        (30, "y/c.txt"),
        (40, "p/d.txt"),
        (40, "q/d.txt"),
        (99, "only/here.bin"),
        (99, "also/here.bin"),
    ]);
    let steps = plan(&source, &target).unwrap();
    assert_eq!(
        steps,
        vec![
            remove("x/c.txt", "notes/c.txt"),
            remove("y/c.txt", "notes/c.txt"),
            rename("p/d.txt", "d.txt"),
            remove("q/d.txt", "d.txt"),
            copy("photos/a.jpg", "photos/a.jpg"),
            copy("e.jpg", "e.jpg"),
            rename("misc/b.jpg", "photos/b.jpg"),
        ]
    );
    assert_eq!(execute(&source, &mut target, &steps), Ok(()));
    assert_eq!(plan(&source, &target), Ok(vec![]));
    assert_eq!(
        target,
        tree(&[
            (30, "notes/c.txt"),
            (40, "d.txt"),
            (99, "only/here.bin"),
            (99, "also/here.bin"),
            (1000, "photos/a.jpg"),
            (1000, "e.jpg"),
            (2000, "photos/b.jpg"),
        ])
    );
}

#[test]
fn a_run_leaves_files_that_only_the_target_has() {
    let source = tree(&[(1000, "a.jpg")]);
    let mut target = tree(&[(1000, "x/a.jpg"), (5, "keep/one"), (5, "keep/two"), (6, "a.jpg.bak")]);
    let steps = plan(&source, &target).unwrap();
    for step in &steps {
        match step {
            Operation::Copy { .. } => {}
            Operation::Move { source: taken, .. } => assert_eq!(taken, &path("x/a.jpg")),
            Operation::RemoveDuplicate { duplicate, .. } => assert_eq!(duplicate, &path("x/a.jpg")),
        }
    }
    assert_eq!(execute(&source, &mut target, &steps), Ok(()));
    assert_eq!(
        target.get(&IdentityKey::new(5, "one".to_string())),
        Some(&vec![path("keep/one")])
    );
    assert_eq!(
        target.get(&IdentityKey::new(5, "two".to_string())),
        Some(&vec![path("keep/two")])
    );
    assert_eq!(
        target.get(&IdentityKey::new(6, "a.jpg.bak".to_string())),
        Some(&vec![path("a.jpg.bak")])
    );
}

#[test]
fn a_run_of_a_plan_never_overwrites_a_file_of_another_size() {
    let source = tree(&[(1000, "a.jpg")]);
    let mut target = tree(&[(999, "a.jpg")]);
    let steps = plan(&source, &target).unwrap();
    assert_eq!(steps, vec![copy("a.jpg", "a.jpg")]);
    assert_eq!(
        execute(&source, &mut target, &steps),
        Err(ExecError::WouldOverwrite { at: in_target("a.jpg") })
    );
    assert_eq!(target, tree(&[(999, "a.jpg")]));
}
