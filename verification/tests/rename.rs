use std::collections::HashMap;

use cbzpack::rename::{plan_renames, PlanError, RenamePlan, RenameStep};

fn owned(names: &[&str]) -> Vec<String> {
    names.iter().map(|n| n.to_string()).collect()
}

fn step(from: &str, to: &str) -> RenameStep {
    RenameStep {
        from: from.to_string(),
        to: to.to_string(),
    }
}

fn key(name: &str, folding: bool) -> String {
    if folding {
        name.to_ascii_uppercase()
    } else {
        name.to_string()
    }
}

/// A directory in which each entry holds its first name as content.
fn directory(names: &[String], folding: bool) -> HashMap<String, String> {
    let mut dir = HashMap::new();
    for name in names {
        assert!(dir.insert(key(name, folding), name.clone()).is_none());
    }
    dir
}

/// Carries the renames out, and fails where one has no source or would
/// overwrite a file.
fn carry_out(dir: &mut HashMap<String, String>, plan: &RenamePlan, folding: bool) {
    for s in &plan.steps {
        let content = dir
            .remove(&key(&s.from, folding))
            .unwrap_or_else(|| panic!("{} does not exist", s.from));
        assert!(
            dir.insert(key(&s.to, folding), content).is_none(),
            "{} would be overwritten",
            s.to
        );
    }
}

fn carried_out(sources: &[&str], others: &[&str], folding: bool) -> RenamePlan {
    let sources = owned(sources);
    let others = owned(others);
    let plan = plan_renames(&sources, &others).unwrap();
    let mut all = sources.clone();
    all.extend(others.iter().cloned());
    let mut dir = directory(&all, folding);
    carry_out(&mut dir, &plan, folding);
    assert_eq!(dir.len(), all.len());
    for (i, source) in sources.iter().enumerate() {
        assert_eq!(dir.get(&key(&plan.names[i], folding)), Some(source));
    }
    for other in &others {
        assert_eq!(dir.get(&key(other, folding)), Some(other));
    }
    plan
}

#[test]
fn renames_are_direct_without_a_clash() {
    let plan = carried_out(&["a1.gif", "a10.gif", "b.png"], &["notes.txt"], false);
    assert_eq!(plan.names, owned(&["0.GIF", "1.GIF", "2.PNG"]));
    assert_eq!(
        plan.steps,
        vec![
            step("a1.gif", "0.GIF"),
            step("a10.gif", "1.GIF"),
            step("b.png", "2.PNG"),
        ]
    );
    carried_out(&["a1.gif", "a10.gif", "b.png"], &["notes.txt"], true);
}

#[test]
fn zero_jpg_that_does_not_sort_first_goes_through_temporary_names() {
    let sources = ["-1.jpg", "0.jpg", "1.jpg"];
    let plan = carried_out(&sources, &[], false);
    assert_eq!(plan.names, owned(&["0.JPG", "1.JPG", "2.JPG"]));
    assert_eq!(
        plan.steps,
        vec![
            step("-1.jpg", "_-1.jpg"),
            step("0.jpg", "_0.jpg"),
            step("1.jpg", "_1.jpg"),
            step("_-1.jpg", "0.JPG"),
            step("_0.jpg", "1.JPG"),
            step("_1.jpg", "2.JPG"),
        ]
    );
    carried_out(&sources, &[], true);
}

#[test]
fn names_that_are_canonical_already_are_kept_apart_too() {
    let plan = carried_out(&["0.PNG", "1.PNG"], &[], false);
    assert_eq!(plan.names, owned(&["0.PNG", "1.PNG"]));
    assert_eq!(plan.steps.len(), 4);
    carried_out(&["0.PNG", "1.PNG"], &[], true);
}

#[test]
fn exchange_of_two_names_loses_nothing() {
    // In natural order "1.png" follows "0.jpeg"; as canonical names they
    // stay in place but for the extension, and "1.PNG" is an alias of a source.
    let plan = carried_out(&["0.jpeg", "1.png"], &[], true);
    assert_eq!(plan.names, owned(&["0.JPG", "1.PNG"]));
    assert_eq!(plan.steps.len(), 4);
}

#[test]
fn marker_is_longer_than_any_leading_underscores() {
    let plan = carried_out(&["__1.png", "0.png"], &["_0.png", "___"], false);
    assert_eq!(
        plan.steps,
        vec![
            step("__1.png", "______1.png"),
            step("0.png", "____0.png"),
            step("______1.png", "0.PNG"),
            step("____0.png", "1.PNG"),
        ]
    );
    carried_out(&["__1.png", "0.png"], &["_0.png", "___"], true);
}

#[test]
fn nothing_to_rename() {
    let plan = plan_renames(&owned(&[]), &owned(&["readme"])).unwrap();
    assert!(plan.names.is_empty());
    assert!(plan.steps.is_empty());
}

#[test]
fn name_of_another_entry_cannot_be_given() {
    assert_eq!(
        plan_renames(&owned(&["a.png", "b.png"]), &owned(&["x", "1.png"])),
        Err(PlanError::TargetTaken {
            index: 1,
            name: "1.PNG".to_string()
        })
    );
    assert_eq!(
        plan_renames(&owned(&["a.png", "b.png"]), &owned(&["1.PNG", "0.PNG"])),
        Err(PlanError::TargetTaken {
            index: 0,
            name: "0.PNG".to_string()
        })
    );
}

#[test]
fn source_without_extension_cannot_be_named() {
    assert_eq!(
        plan_renames(&owned(&["a.png", "b", "c"]), &owned(&[])),
        Err(PlanError::MissingExtension { index: 1 })
    );
}

#[test]
fn many_sources_with_clashes_lose_nothing() {
    let names: Vec<String> = (0..25).rev().map(|i| format!("{i:02}.webp")).collect();
    let refs: Vec<&str> = names.iter().map(|n| n.as_str()).collect();
    let plan = carried_out(&refs, &["cover.txt"], false);
    assert_eq!(plan.names[0], "00.WEBP");
    assert_eq!(plan.names[24], "24.WEBP");
    assert_eq!(plan.steps.len(), 50);
    carried_out(&refs, &["cover.txt"], true);
}
