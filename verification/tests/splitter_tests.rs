use splitpr::patch::SplitError;
use splitpr::splitter::fix_filename_in_diff;
use splitpr::splitter::split_diff;

// A well-formed input of two git-style file sections splits into two
// records, in source order, with the declared identities normalized.
#[test]
fn split_two_git_sections() {
    let input = "diff --git a/Cargo.toml b/Cargo.toml\nindex 1111111..2222222 100644\n--- a/Cargo.toml\n+++ b/Cargo.toml\n@@ -1,2 +1,2 @@\n-old line\n+new line\ndiff --git a/src/main.rs b/src/main.rs\ndeleted file mode 100644\n--- a/src/main.rs\n+++ /dev/null\n@@ -1,1 +0,0 @@\n-fn main() {}\n";
    let records = split_diff(input.to_string()).unwrap();
    assert_eq!(records.len(), 2);
    assert_eq!(records[0].old, "Cargo.toml");
    assert_eq!(records[0].new, "Cargo.toml");
    assert_eq!(records[1].old, "src/main.rs");
    assert_eq!(records[1].new, "/dev/null");
    assert!(records[0].contents.starts_with("diff --git a/Cargo.toml"));
    assert!(records[1].contents.starts_with("diff --git a/src/main.rs"));
}

// Concatenating the records' contents, with the single newline the
// splitter puts between lines restored between records, reproduces the
// input line for line.
#[test]
fn contents_concatenation_reproduces_input() {
    let input = "some header line\ndiff --git a/x b/x\n--- a/x\n+++ b/x\n@@ -1 +1 @@\n-u\n+v\ndiff --git a/y b/y\n--- a/y\n+++ b/y\n@@ -1 +1 @@\n-s\n+t";
    let records = split_diff(input.to_string()).unwrap();
    let rejoined = records
        .iter()
        .map(|r| r.contents.clone())
        .collect::<Vec<_>>()
        .join("\n");
    assert_eq!(rejoined, input);
}

// An input with no "--- " or "+++ " line anywhere is malformed and
// yields zero records.
#[test]
fn no_markers_is_malformed() {
    let input = "just some text\nwith two lines\n".to_string();
    assert_eq!(split_diff(input), Err(SplitError::MalformedInput));
}

// The empty input has no markers either.
#[test]
fn empty_input_is_malformed() {
    assert_eq!(split_diff(String::new()), Err(SplitError::MalformedInput));
}

// A marker whose remainder normalizes to nothing leaves the identity
// unset: the parse fails as a whole, no partial records.
#[test]
fn empty_identity_is_malformed() {
    let input = "--- \n+++ b\n".to_string();
    assert_eq!(split_diff(input), Err(SplitError::MalformedInput));
}

// Header text before the first marker pair stays, verbatim, at the
// front of the first record's contents; it is not dropped and not a
// record of its own.
#[test]
fn header_kept_in_first_record() {
    let input = "commit metadata\nmore commentary\ndiff --git a/x b/x\n--- a/x\n+++ b/x\n+p\ndiff --git a/y b/y\n--- a/y\n+++ b/y\n+q\n";
    let records = split_diff(input.to_string()).unwrap();
    assert_eq!(records.len(), 2);
    assert!(records[0]
        .contents
        .starts_with("commit metadata\nmore commentary\ndiff --git a/x"));
}

// A "diff " line seen before any marker pair does not open a section:
// it passes through as ordinary header content.
#[test]
fn early_diff_line_is_plain_content() {
    let input = "diff tools sometimes say diff here\n--- a/x\n+++ b/x\n+p\n";
    let records = split_diff(input.to_string()).unwrap();
    assert_eq!(records.len(), 1);
    assert!(records[0].contents.starts_with("diff tools sometimes say"));
    assert_eq!(records[0].old, "x");
    assert_eq!(records[0].new, "x");
}

// Lines terminated by "\r\n" lose the carriage return; identities are
// read from the chomped lines.
#[test]
fn crlf_lines_are_chomped() {
    let input = "--- a/x\r\n+++ b/x\r\n+p\r\n".to_string();
    let records = split_diff(input).unwrap();
    assert_eq!(records.len(), 1);
    assert_eq!(records[0].old, "x");
    assert_eq!(records[0].new, "x");
    assert_eq!(records[0].contents, "--- a/x\n+++ b/x\n+p");
}

// A diff produced by plain `diff -u` style tools: identities carry a
// tab-separated timestamp, which normalization truncates.
#[test]
fn tab_separated_timestamps_are_stripped() {
    let input = "--- old/thing.txt\t2024-01-01 10:00:00\n+++ new/thing.txt\t2024-01-02 11:00:00\n@@ -1 +1 @@\n-u\n+v\n";
    let records = split_diff(input.to_string()).unwrap();
    assert_eq!(records.len(), 1);
    assert_eq!(records[0].old, "old/thing.txt");
    assert_eq!(records[0].new, "new/thing.txt");
}

// Three sections give three records, in source order.
#[test]
fn three_sections_give_three_records() {
    let mut input = String::new();
    for name in ["one", "two", "three"] {
        input.push_str(&format!(
            "diff --git a/{n} b/{n}\n--- a/{n}\n+++ b/{n}\n+x\n",
            n = name
        ));
    }
    let records = split_diff(input).unwrap();
    assert_eq!(records.len(), 3);
    assert_eq!(records[0].old, "one");
    assert_eq!(records[1].old, "two");
    assert_eq!(records[2].old, "three");
}

// Name normalization: tree prefixes and tab suffixes.
#[test]
fn fix_filename_strips_tree_prefix() {
    assert_eq!(fix_filename_in_diff("a/foo".to_string()), "foo");
    assert_eq!(fix_filename_in_diff("b/bar/baz".to_string()), "bar/baz");
    assert_eq!(fix_filename_in_diff("plain".to_string()), "plain");
}

#[test]
fn fix_filename_truncates_at_tab() {
    assert_eq!(
        fix_filename_in_diff("foo.txt\t2024-01-01".to_string()),
        "foo.txt"
    );
    assert_eq!(
        fix_filename_in_diff("a/foo.txt\t2024-01-01".to_string()),
        "foo.txt"
    );
    assert_eq!(fix_filename_in_diff("no-tab".to_string()), "no-tab");
}

// The null-device sentinel is only ever matched as a whole value; as a
// declared identity it passes through the splitter untouched.
#[test]
fn null_device_kept_verbatim() {
    let input = "--- a/x\n+++ /dev/null\n-gone\n".to_string();
    let records = split_diff(input).unwrap();
    assert_eq!(records[0].old, "x");
    assert_eq!(records[0].new, "/dev/null");
}
