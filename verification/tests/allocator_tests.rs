use splitpr::allocator::generate_filename;
use splitpr::allocator::is_null_device;
use splitpr::allocator::sanitize_identity;
use splitpr::patch::PatchFile;
use splitpr::splitter::split_diff;

fn record(old: &str, new: &str) -> PatchFile {
    PatchFile::new(old.to_string(), new.to_string(), "nothing".to_string())
}

fn no_names() -> Vec<String> {
    Vec::new()
}

fn names(ns: &[&str]) -> Vec<String> {
    ns.iter().map(|n| n.to_string()).collect()
}

// The name is based on the post-change identity when one exists.
#[test]
fn generate_filename_simple_filename() {
    let pf = record("foo", "bar");
    assert_eq!(generate_filename(&pf, &no_names()), Ok("bar.diff".to_string()));
}

// A deleted file carries the null-device sentinel as its post-change
// identity; the name is then based on the pre-change identity.
#[test]
fn generate_filename_dev_null() {
    let pf = record("foo", "/dev/null");
    assert_eq!(generate_filename(&pf, &no_names()), Ok("foo.diff".to_string()));
}

// A dot in the identity is replaced, so the fixed extension stays
// unambiguous.
#[test]
fn generate_filename_file_with_extension() {
    let pf = record("foo.diff", "bar.diff");
    assert_eq!(
        generate_filename(&pf, &no_names()),
        Ok("bar_diff.diff".to_string())
    );
}

// An occupied candidate pushes the allocator to the -1 suffix.
#[test]
fn generate_filename_file_exists() {
    let pf = record("foo.diff", "taken");
    let occupied = names(&["taken.diff"]);
    assert_eq!(
        generate_filename(&pf, &occupied),
        Ok("taken-1.diff".to_string())
    );
}

// Suffixes are tried strictly in order until a free one is found; an
// occupied name is never returned.
#[test]
fn generate_filename_counts_up() {
    let pf = record("foo", "taken");
    let occupied = names(&["taken.diff", "taken-1.diff", "taken-2.diff", "other.diff"]);
    assert_eq!(
        generate_filename(&pf, &occupied),
        Ok("taken-3.diff".to_string())
    );
}

// Every forbidden character of the identity maps to an underscore.
#[test]
fn sanitize_maps_each_forbidden_character() {
    assert_eq!(sanitize_identity("a/b<c>.txt"), "a_b_c__txt");
    assert_eq!(sanitize_identity("/<>:\"\\|?*."), "__________");
    assert_eq!(sanitize_identity("keep-me_09"), "keep-me_09");
}

#[test]
fn sanitized_name_in_full_allocation() {
    let pf = record("old", "a/b<c>.txt");
    assert_eq!(
        generate_filename(&pf, &no_names()),
        Ok("a_b_c__txt.diff".to_string())
    );
}

#[test]
fn null_device_detection_is_exact() {
    assert!(is_null_device(&"/dev/null".to_string()));
    assert!(!is_null_device(&"/dev/null/x".to_string()));
    assert!(!is_null_device(&"dev/null".to_string()));
    assert!(!is_null_device(&"".to_string()));
}

// Two concatenated git-style file diffs, run through the splitter and
// the allocator against an empty output directory: the first record
// keeps its post-change identity, the second (a deletion) falls back
// to its pre-change identity, and both names are sanitized before the
// extension is appended.
#[test]
fn split_then_allocate_two_records() {
    let input = "diff --git a/Cargo.toml b/Cargo.toml\n--- a/Cargo.toml\n+++ b/Cargo.toml\n@@ -1 +1 @@\n-old\n+new\ndiff --git a/src/main.rs b/src/main.rs\n--- a/src/main.rs\n+++ /dev/null\n@@ -1 +0,0 @@\n-fn main() {}\n";
    let records = split_diff(input.to_string()).unwrap();
    assert_eq!(records.len(), 2);
    assert_eq!(records[0].old, "Cargo.toml");
    assert_eq!(records[0].new, "Cargo.toml");
    assert_eq!(records[1].old, "src/main.rs");
    assert_eq!(records[1].new, "/dev/null");
    assert_eq!(
        generate_filename(&records[0], &no_names()),
        Ok("Cargo_toml.diff".to_string())
    );
    assert_eq!(
        generate_filename(&records[1], &no_names()),
        Ok("src_main_rs.diff".to_string())
    );
}

// Numbered suffixes render in plain decimal, also past one digit.
#[test]
fn suffix_counter_renders_decimal() {
    let pf = record("foo", "n");
    let mut occupied = vec!["n.diff".to_string()];
    for i in 1..=10 {
        occupied.push(format!("n-{}.diff", i));
    }
    assert_eq!(
        generate_filename(&pf, &occupied),
        Ok("n-11.diff".to_string())
    );
}
