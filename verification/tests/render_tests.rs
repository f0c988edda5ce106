use splitpr::render::format_diff_line;

// Added, removed and context lines get their origin character back in
// front of the content, as patch-format output prints them.
#[test]
fn printed_origins_are_prefixed() {
    assert_eq!(format_diff_line('+', "new line\n"), "+new line\n");
    assert_eq!(format_diff_line('-', "old line\n"), "-old line\n");
    assert_eq!(format_diff_line(' ', "context\n"), " context\n");
}

// Header and hunk lines already carry their full text: no prefix.
#[test]
fn other_origins_pass_through() {
    assert_eq!(format_diff_line('F', "diff --git a/x b/x\n"), "diff --git a/x b/x\n");
    assert_eq!(format_diff_line('H', "@@ -1 +1 @@\n"), "@@ -1 +1 @@\n");
}
