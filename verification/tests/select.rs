use diffr::git::Operand;
use diffr::select::{classify, comparison, Before, Plan, Word};

fn revs(items: &[&str]) -> Vec<String> {
    items.iter().map(|s| s.to_string()).collect()
}

fn revision(op: &Operand) -> Option<String> {
    match op {
        Operand::Revision { reference } => Some(reference.clone()),
        _ => None,
    }
}

fn plan(items: &[&str], cached: bool, merge_base: bool) -> Result<Plan, String> {
    comparison(&revs(items), cached, true, merge_base, false)
}

#[test]
fn no_revision_compares_the_index_with_the_working_tree() {
    let p = plan(&[], false, false).unwrap();
    assert!(matches!(p.before, Before::Snapshot(Operand::Index)));
    assert!(matches!(p.after, Operand::WorkingTree));
    let cached = plan(&[], true, false).unwrap();
    assert!(matches!(&cached.before, Before::Snapshot(op) if revision(op) == Some("HEAD".to_string())));
    assert!(matches!(cached.after, Operand::Index));
    let unborn = comparison(&revs(&[]), true, false, false, true).unwrap();
    assert!(matches!(unborn.before, Before::Snapshot(Operand::EmptyTree)));
    assert!(unborn.reverse);
}

#[test]
fn ranges_compare_their_ends() {
    let p = plan(&["main..topic"], false, false).unwrap();
    assert!(matches!(&p.before, Before::Snapshot(op) if revision(op) == Some("main".to_string())));
    assert_eq!(revision(&p.after), Some("topic".to_string()));
    let open = plan(&["..topic"], false, false).unwrap();
    assert!(matches!(&open.before, Before::Snapshot(op) if revision(op) == Some("HEAD".to_string())));
    let merge = plan(&["main...topic"], false, false).unwrap();
    assert!(matches!(&merge.before, Before::MergeBase { a, b } if a == "main" && b == "topic"));
    assert_eq!(revision(&merge.after), Some("topic".to_string()));
    assert_eq!(plan(&["a..b"], true, false).unwrap_err(), "--cached takes one revision, not a range");
}

#[test]
fn revisions_are_counted() {
    let one = plan(&["v1"], true, false).unwrap();
    assert!(matches!(one.after, Operand::Index));
    let two = plan(&["v1", "v2"], false, false).unwrap();
    assert_eq!(revision(&two.after), Some("v2".to_string()));
    assert_eq!(
        plan(&["v1", "v2"], true, false).unwrap_err(),
        "expected at most two revisions (--cached takes at most one)"
    );
    assert!(plan(&["a", "b", "c"], false, false).is_err());
}

#[test]
fn merge_base_needs_one_plain_revision() {
    let p = plan(&["main"], false, true).unwrap();
    assert!(matches!(&p.before, Before::MergeBase { a, b } if a == "main" && b == "HEAD"));
    assert_eq!(plan(&[], false, true).unwrap_err(), "--merge-base requires a revision");
    assert_eq!(plan(&["a..b"], false, true).unwrap_err(), "do not combine --merge-base with a range");
}

fn word(text: &str, is_revision: bool, is_path: bool) -> Word {
    Word { text: text.to_string(), is_revision, is_path }
}

#[test]
fn words_sort_into_revisions_then_paths() {
    let (r, p) = classify(&vec![word("HEAD", true, false), word("src", false, true)], false).unwrap();
    assert_eq!(r, vec!["HEAD".to_string()]);
    assert_eq!(p, vec!["src".to_string()]);
    assert_eq!(
        classify(&vec![word("main", true, true)], false).unwrap_err(),
        "ambiguous revision and path \"main\"; use -- to separate them"
    );
    assert!(classify(&vec![word("main", true, true)], true).is_ok());
    assert_eq!(
        classify(&vec![word("src", false, true), word("HEAD", true, false)], false).unwrap_err(),
        "revisions must precede paths; use -- to separate them"
    );
    assert_eq!(
        classify(&vec![word("nope", false, false)], false).unwrap_err(),
        "unknown revision or path \"nope\"; use -- before pathspecs"
    );
}
