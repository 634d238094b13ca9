use layout_sync::index::{find_duplicates, TreeIndex};
use layout_sync::key::IdentityKey;
use layout_sync::path::FilePath;
use layout_sync::plan::{plan, Operation, PlanError};

fn path(text: &str) -> FilePath {
    if text.is_empty() {
        FilePath::new(Vec::new())
    } else {
        FilePath::new(text.split('/').map(|part| part.to_string()).collect())
    }
}

fn key(size: u64, name: &str) -> IdentityKey {
    IdentityKey::new(size, name.to_string())
}

fn tree(files: &[(u64, &str)]) -> TreeIndex {
    let mut index = TreeIndex::new();
    for (size, text) in files {
        let place = path(text);
        let name = place.file_name().unwrap();
        index.insert(IdentityKey::new(*size, name), place);
    }
    index
}

fn copy(source: &str, target: &str) -> Operation {
    Operation::Copy { source: path(source), target: path(target) }
}

fn rename(source: &str, target: &str) -> Operation {
    Operation::Move { source: path(source), target: path(target) }
}

fn remove(duplicate: &str, original: &str) -> Operation {
    Operation::RemoveDuplicate { duplicate: path(duplicate), original: path(original) }
}

#[test]
fn file_missing_in_target_is_copied_to_the_same_relative_path() {
    let source = tree(&[(1000, "photos/a.jpg")]);
    let target = tree(&[]);
    assert_eq!(plan(&source, &target), Ok(vec![copy("photos/a.jpg", "photos/a.jpg")]));
}

#[test]
fn file_elsewhere_in_target_is_moved() {
    let source = tree(&[(1000, "a.jpg")]);
    let target = tree(&[(1000, "misc/a.jpg")]);
    assert_eq!(plan(&source, &target), Ok(vec![rename("misc/a.jpg", "a.jpg")]));
}

#[test]
fn first_target_path_is_moved_and_the_others_are_removed() {
    let source = tree(&[(1000, "a.jpg")]);
    let target = tree(&[(1000, "x/a.jpg"), (1000, "y/a.jpg")]);
    assert_eq!(
        plan(&source, &target),
        Ok(vec![rename("x/a.jpg", "a.jpg"), remove("y/a.jpg", "a.jpg")])
    );
}

#[test]
fn duplicates_in_source_stop_the_planner() {
    let source = tree(&[(1000, "x/a.jpg"), (1000, "y/a.jpg")]);
    let target = tree(&[]);
    assert_eq!(plan(&source, &target), Err(PlanError::SourceHasDuplicates));
}

#[test]
fn duplicates_in_source_stop_the_planner_whatever_the_target_holds() {
    let source = tree(&[(5, "b.txt"), (1000, "x/a.jpg"), (1000, "y/a.jpg")]);
    let target = tree(&[(1000, "x/a.jpg"), (5, "b.txt")]);
    assert_eq!(plan(&source, &target), Err(PlanError::SourceHasDuplicates));
}

#[test]
fn file_already_in_place_needs_nothing() {
    let source = tree(&[(1000, "a.jpg")]);
    let target = tree(&[(1000, "a.jpg")]);
    assert_eq!(plan(&source, &target), Ok(vec![]));
}

#[test]
fn file_in_place_keeps_its_place_and_other_copies_are_removed() {
    let source = tree(&[(1000, "a.jpg")]);
    let target = tree(&[(1000, "x/a.jpg"), (1000, "a.jpg"), (1000, "y/a.jpg")]);
    assert_eq!(
        plan(&source, &target),
        Ok(vec![remove("x/a.jpg", "a.jpg"), remove("y/a.jpg", "a.jpg")])
    );
}

#[test]
fn keys_only_in_target_are_left_alone() {
    let source = tree(&[(1000, "a.jpg")]);
    let target = tree(&[(1000, "a.jpg"), (2000, "old/b.jpg"), (2000, "older/b.jpg")]);
    assert_eq!(plan(&source, &target), Ok(vec![]));
}

#[test]
fn same_name_with_another_size_is_another_file() {
    let source = tree(&[(1000, "a.jpg")]);
    let target = tree(&[(999, "a.jpg")]);
    assert_eq!(plan(&source, &target), Ok(vec![copy("a.jpg", "a.jpg")]));
}

#[test]
fn plan_follows_the_order_of_the_keys() {
    let source = tree(&[(30, "z/c.txt"), (10, "b.txt"), (10, "a.txt"), (20, "a.txt")]);
    let target = tree(&[(20, "old/a.txt")]);
    assert_eq!(
        plan(&source, &target),
        Ok(vec![
            copy("a.txt", "a.txt"),
            copy("b.txt", "b.txt"),
            rename("old/a.txt", "a.txt"),
            copy("z/c.txt", "z/c.txt"),
        ])
    );
}

#[test]
fn empty_source_gives_an_empty_plan() {
    let source = tree(&[]);
    let target = tree(&[(1, "a"), (2, "b")]);
    assert_eq!(plan(&source, &target), Ok(vec![]));
}

#[test]
fn source_entry_without_paths_is_an_error() {
    let mut source = TreeIndex::new();
    source.reserve(key(1000, "a.jpg"));
    let target = tree(&[(1000, "a.jpg")]);
    assert_eq!(plan(&source, &target), Err(PlanError::EmptyPathList));
}

#[test]
fn target_entry_without_paths_is_an_error() {
    let source = tree(&[(1000, "a.jpg")]);
    let mut target = TreeIndex::new();
    target.reserve(key(1000, "a.jpg"));
    assert_eq!(plan(&source, &target), Err(PlanError::EmptyPathList));
}

#[test]
fn target_entry_without_paths_for_another_key_is_no_error() {
    let source = tree(&[(1000, "a.jpg")]);
    let mut target = TreeIndex::new();
    target.reserve(key(7, "other"));
    assert_eq!(plan(&source, &target), Ok(vec![copy("a.jpg", "a.jpg")]));
}

#[test]
fn duplicates_come_before_missing_paths() {
    let mut source = tree(&[(1000, "x/a.jpg"), (1000, "y/a.jpg")]);
    source.reserve(key(1, "empty"));
    let target = tree(&[]);
    assert_eq!(plan(&source, &target), Err(PlanError::SourceHasDuplicates));
}

#[test]
fn find_duplicates_lists_every_group_in_key_order() {
    let index = tree(&[
        (20, "p/b.txt"),
        (10, "x/a.txt"),
        (20, "q/b.txt"),
        (5, "single.txt"),
        (10, "y/a.txt"),
        (10, "z/a.txt"),
    ]);
    assert_eq!(
        find_duplicates(&index),
        vec![
            vec![path("x/a.txt"), path("y/a.txt"), path("z/a.txt")],
            vec![path("p/b.txt"), path("q/b.txt")],
        ]
    );
}

#[test]
fn find_duplicates_of_a_tree_without_duplicates_is_empty() {
    let index = tree(&[(1, "a"), (2, "a"), (1, "b")]);
    assert_eq!(find_duplicates(&index), Vec::<Vec<FilePath>>::new());
}

#[test]
fn describe_tells_what_is_done_and_the_paths() {
    assert_eq!(copy("photos/a.jpg", "photos/a.jpg").describe(), "copy photos/a.jpg to photos/a.jpg");
    assert_eq!(rename("misc/a.jpg", "a.jpg").describe(), "move misc/a.jpg to a.jpg");
    assert_eq!(remove("y/a.jpg", "a.jpg").describe(), "remove duplicate y/a.jpg of a.jpg");
}
