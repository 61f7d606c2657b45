use prompt_pack::aggregate::{aggregate, file_block, full_path, SelectedFile};
use prompt_pack::outcome::{copy_report, folder_choice};

fn read_as(rel: &str, content: Option<&str>) -> SelectedFile {
    SelectedFile { rel: rel.to_string(), content: content.map(|c| c.to_string()) }
}

#[test]
fn one_file_and_instructions() {
    let files = vec![read_as("a.txt", Some("hi"))];
    assert_eq!(aggregate("/r", &files, "done"), "\n--- /r/a.txt ---\nhi\n\nInstructions:\ndone");
}

#[test]
fn blocks_follow_the_selection_order() {
    let files = vec![read_as("b/c.txt", Some("yo")), read_as("a.txt", Some("hi"))];
    assert_eq!(
        aggregate("/r", &files, "go"),
        "\n--- /r/b/c.txt ---\nyo\n--- /r/a.txt ---\nhi\n\nInstructions:\ngo"
    );
}

#[test]
fn unreadable_file_leaves_no_trace() {
    let files = vec![
        read_as("a.txt", Some("hi")),
        read_as("gone.txt", None),
        read_as("b/c.txt", Some("yo")),
    ];
    let without = vec![read_as("a.txt", Some("hi")), read_as("b/c.txt", Some("yo"))];
    let text = aggregate("/r", &files, "x");
    assert_eq!(text, "\n--- /r/a.txt ---\nhi\n--- /r/b/c.txt ---\nyo\n\nInstructions:\nx");
    assert_eq!(text, aggregate("/r", &without, "x"));
}

#[test]
fn nothing_readable_still_gives_the_instructions() {
    assert_eq!(aggregate("/r", &vec![read_as("b", None)], "only"), "\n\nInstructions:\nonly");
    assert_eq!(aggregate("/r", &Vec::new(), "only"), "\n\nInstructions:\nonly");
}

#[test]
fn empty_instructions_keep_the_heading() {
    assert_eq!(aggregate("/r", &Vec::new(), ""), "\n\nInstructions:\n");
}

#[test]
fn content_is_taken_verbatim() {
    let files = vec![read_as("w.txt", Some("  a\r\nb\t\n\n"))];
    assert_eq!(
        aggregate("/r", &files, " keep \n"),
        "\n--- /r/w.txt ---\n  a\r\nb\t\n\n\n\nInstructions:\n keep \n"
    );
}

#[test]
fn selected_path_is_trimmed() {
    assert_eq!(full_path("/r", "  a.txt \n"), "/r/a.txt");
    assert_eq!(full_path("/r", "\tb/c d.txt"), "/r/b/c d.txt");
    assert_eq!(full_path("/r", "   "), "/r/");
    let files = vec![read_as(" a.txt\n", Some("hi"))];
    assert_eq!(aggregate("/r", &files, "done"), "\n--- /r/a.txt ---\nhi\n\nInstructions:\ndone");
}

#[test]
fn every_kind_of_white_space_is_trimmed() {
    let around = "\t\n\u{b}\u{c}\r \u{85}\u{a0}\u{1680}\u{2000}\u{200a}\u{2028}\u{2029}\u{202f}\u{205f}\u{3000}";
    let rel = format!("{}a b{}", around, around);
    assert_eq!(full_path("/r", &rel), "/r/a b");
    assert_eq!(full_path("/r", "\u{200b}a"), "/r/\u{200b}a");
    assert_eq!(full_path("/r", "\u{1f}a\u{feff}"), "/r/\u{1f}a\u{feff}");
}

#[test]
fn block_has_the_path_between_markers() {
    assert_eq!(file_block("/r/a.txt", "hi"), "\n--- /r/a.txt ---\nhi");
    assert_eq!(file_block("", ""), "\n---  ---\n");
}

#[test]
fn folder_choice_tells_nothing_selected() {
    assert_eq!(folder_choice(Some("/home/u/repo".to_string())), Ok("/home/u/repo".to_string()));
    assert_eq!(folder_choice(None), Err("No folder selected".to_string()));
}

#[test]
fn copy_report_passes_the_cause_on() {
    assert_eq!(copy_report(Ok(())), Ok("Copied to clipboard!".to_string()));
    assert_eq!(copy_report(Err("no display".to_string())), Err("no display".to_string()));
}
