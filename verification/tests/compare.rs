use ksymtypes::diff::UniDiff;
use ksymtypes::sym::SymCorpus;

fn corpus_of(path: &str, input: &str) -> SymCorpus {
    let mut syms = SymCorpus::new();
    let result = syms.load_buffer(path, input.as_bytes());
    assert!(result.is_ok());
    syms
}

#[test]
fn compare_identical_corpora() {
    // Comparing a corpus with itself reports neither missing exports nor
    // structural differences.
    let a = corpus_of(
        "test.symtypes",
        "s#foo struct foo { int a ; }\nbar int bar ( s#foo )\n",
    );
    let b = corpus_of(
        "test.symtypes",
        "s#foo struct foo { int a ; }\nbar int bar ( s#foo )\n",
    );
    let result = a.compare_with(&b);
    assert!(result.missing_a.is_empty());
    assert!(result.missing_b.is_empty());
    assert!(result.changes.is_empty());
}

#[test]
fn compare_missing_exports() {
    // An export only one side has is reported on the matching list, sorted.
    let a = corpus_of(
        "test.symtypes",
        "bar int bar ( )\nabc int abc ( )\n",
    );
    let b = corpus_of(
        "test.symtypes",
        "bar int bar ( )\nzzz int zzz ( )\n",
    );
    let result = a.compare_with(&b);
    assert_eq!(result.missing_a, vec!["abc".to_string()]);
    assert_eq!(result.missing_b, vec!["zzz".to_string()]);
    assert!(result.changes.is_empty());
}

#[test]
fn compare_changed_struct() {
    // A struct that differs between the corpora is reported under its name.
    let a = corpus_of(
        "test.symtypes",
        "s#foo struct foo { int a ; }\nbar int bar ( s#foo )\n",
    );
    let b = corpus_of(
        "test.symtypes",
        "s#foo struct foo { long a ; }\nbar int bar ( s#foo )\n",
    );
    let result = a.compare_with(&b);
    assert!(result.missing_a.is_empty());
    assert!(result.missing_b.is_empty());
    assert_eq!(result.changes.len(), 1);
    assert_eq!(result.changes[0].name, "s#foo");
}

#[test]
fn compare_cyclic_types() {
    // A type that transitively references itself is compared exactly once.
    let a = corpus_of(
        "test.symtypes",
        "s#node struct node { s#node next ; int v ; }\nbar int bar ( s#node )\n",
    );
    let b = corpus_of(
        "test.symtypes",
        "s#node struct node { s#node next ; long v ; }\nbar int bar ( s#node )\n",
    );
    let result = a.compare_with(&b);
    assert_eq!(result.changes.len(), 1);
    assert_eq!(result.changes[0].name, "s#node");
}

#[test]
fn unidiff_sections() {
    // The edit-script renderer marks kept, removed and added lines.
    let old_lines = vec!["a".to_string(), "b".to_string(), "c".to_string()];
    let new_lines = vec!["a".to_string(), "d".to_string()];
    let mut diff = UniDiff::new(old_lines, new_lines);
    diff.equal(0, 1);
    diff.replace(1, 2, 1, 1);
    let output = diff.finish();
    assert_eq!(
        output,
        vec![
            " a".to_string(),
            "-b".to_string(),
            "-c".to_string(),
            "+d".to_string(), //
        ]
    );
}
