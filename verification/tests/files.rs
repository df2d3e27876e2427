use letur_project::files::{normal, MemFiles, Refused};

#[test]
fn a_path_is_spelled_once_and_never_leaves_the_root() {
    assert_eq!(normal("a/./b//c.md").as_deref(), Some("a/b/c.md"));
    assert_eq!(normal("a/../b.md").as_deref(), Some("b.md"));
    assert_eq!(normal("../b.md"), None);
    assert_eq!(normal("/etc/passwd"), None);
    assert_eq!(normal(""), None);
}

#[test]
fn a_spelling_is_its_own_spelling() {
    for path in ["a/./b//c.md", "a/../b.md", "x/y/../../z.md", "./one.md"] {
        let once = normal(path).unwrap();
        assert_eq!(normal(&once).as_deref(), Some(once.as_str()));
    }
}

#[test]
fn a_project_in_memory_lists_reads_and_writes_by_one_spelling() {
    let mut files = MemFiles::new(vec![
        ("b/one.md".to_string(), b"1".to_vec()),
        ("./a.md".to_string(), b"a".to_vec()),
        ("../outside.md".to_string(), b"x".to_vec()),
    ]);
    assert_eq!(files.list(), vec!["a.md".to_string(), "b/one.md".to_string()]);
    assert!(files.holds("b//one.md"));
    assert!(!files.holds("../outside.md"), "a path that climbs out is not held");
    assert_eq!(files.read("b/./one.md"), Ok(b"1".to_vec()));
    assert!(files.same("b/one.md", "b/x/../one.md"));

    files.write("a.md", b"again").unwrap();
    assert_eq!(files.read("a.md"), Ok(b"again".to_vec()));
    assert_eq!(files.save_as("c.md", b"c"), Ok(Some("c.md".to_string())));
    assert_eq!(files.save_as("/tmp/c.md", b"c"), Err("outside this project".to_string()));
}

#[test]
fn each_refusal_is_worded_once() {
    assert_eq!(Refused::Landing.sentence("x.md", "x.md"), "x.md would land outside this project");
    assert_eq!(Refused::Exists.sentence("x.md", "x.md"), "x.md already exists");
    assert_eq!(Refused::Outside.sentence("x.md", "x.md"), "x.md is outside this project");
    assert_eq!(Refused::Absent.sentence("x.md", "x.md"), "x.md is not there");
}

#[test]
fn two_paths_are_one_file_only_when_both_spell_the_same_project_path() {
    let files = MemFiles::new(vec![("book.md".to_string(), b"# Book\n".to_vec())]);
    assert!(files.same("book.md", "./book.md"));
    assert!(files.same("parts/../book.md", "book.md"));
    assert!(!files.same("book.md", "other.md"));
    assert!(!files.same("/a", "../b"), "two paths outside the project are not one file");
    assert!(!files.same("/a", "/a"));
    assert!(!files.same("book.md", "/book.md"));
}
