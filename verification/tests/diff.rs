use solidate::diff::unified;

#[test]
fn diff_marks_changed_lines() {
    let d = unified("a\nb\nc\n", "a\nB\nc\n", "old", "new");
    assert!(d.contains("--- old") && d.contains("-b") && d.contains("+B"), "{d}");
    assert!(unified("x\n", "x\n", "a", "b").is_empty());
}

#[test]
fn diff_of_exact_text() {
    assert_eq!(unified("a\n", "b\n", "x", "y"), "--- x\n+++ y\n@@ -1 +1 @@\n-a\n+b\n");
}
