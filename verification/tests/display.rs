use rdu::display::{apply_color, label_tint_of, render_tree, size_tint_of};
use rdu::paint::{paint, Tint};
use rdu::entry::{Entry, EntryKind};

fn disable_color() {
    colored::control::set_override(false);
}

fn file(name: &str, size: u64) -> Entry {
    Entry { name: name.into(), size, kind: EntryKind::File }
}

fn dir(name: &str, size: u64, children: Vec<Entry>) -> Entry {
    Entry { name: name.into(), size, kind: EntryKind::Dir { children } }
}

fn symlink(name: &str) -> Entry {
    Entry { name: name.into(), size: 0, kind: EntryKind::Symlink }
}

#[test]
fn root_line_contains_display_name_and_size() {
    disable_color();
    let entry = file("ignored", 512);
    let out = render_tree(&entry, "myfile.txt");
    assert!(out.contains("myfile.txt"));
    assert!(out.contains("512 B"));
}

#[test]
fn empty_dir_produces_single_line() {
    disable_color();
    let entry = dir("root", 0, vec![]);
    let out = render_tree(&entry, "mydir");
    assert_eq!(out.lines().count(), 1);
    assert!(out.contains("mydir"));
    assert!(out.contains("0 B"));
}

#[test]
fn two_children_line_count() {
    disable_color();
    let entry = dir("root", 300, vec![
        file("big.txt", 200),
        file("small.txt", 100),
    ]);
    let out = render_tree(&entry, "root");
    assert_eq!(out.lines().count(), 3); // root + 2 children
}

#[test]
fn two_children_names_present() {
    disable_color();
    let entry = dir("root", 300, vec![
        file("big.txt", 200),
        file("small.txt", 100),
    ]);
    let out = render_tree(&entry, "root");
    assert!(out.contains("big.txt"));
    assert!(out.contains("small.txt"));
}

#[test]
fn last_child_uses_corner_connector() {
    disable_color();
    let entry = dir("root", 300, vec![
        file("first.txt", 200),
        file("second.txt", 100),
    ]);
    let out = render_tree(&entry, "root");
    assert!(out.contains("├──"), "non-last child should use ├──");
    assert!(out.contains("└──"), "last child should use └──");
}

#[test]
fn single_child_uses_only_corner_connector() {
    disable_color();
    let entry = dir("root", 50, vec![file("only.txt", 50)]);
    let out = render_tree(&entry, "root");
    assert!(!out.contains("├──"), "sole child should not use ├──");
    assert!(out.contains("└──"));
}

#[test]
fn directory_child_label_has_trailing_slash() {
    disable_color();
    let entry = dir("root", 50, vec![dir("subdir", 50, vec![])]);
    let out = render_tree(&entry, "root");
    assert!(out.contains("subdir/"));
}

#[test]
fn symlink_child_label_has_arrow() {
    disable_color();
    let entry = dir("root", 0, vec![symlink("mylink")]);
    let out = render_tree(&entry, "root");
    assert!(out.contains("mylink ->"));
}

#[test]
fn nested_dir_line_count() {
    disable_color();
    let entry = dir("root", 100, vec![
        dir("sub", 100, vec![file("file.txt", 100)]),
    ]);
    let out = render_tree(&entry, "root");
    assert_eq!(out.lines().count(), 3);
}

#[test]
fn nested_dir_uses_pipe_continuation() {
    disable_color();
    let entry = dir("root", 200, vec![
        dir("sub", 100, vec![file("nested.txt", 100)]),
        file("other.txt", 100),
    ]);
    let out = render_tree(&entry, "root");
    assert!(out.contains("│"), "expected pipe continuation for non-last directory");
    assert!(out.contains("nested.txt"));
    assert!(out.contains("other.txt"));
}

#[test]
fn size_column_is_right_aligned_within_siblings() {
    disable_color();
    let entry = dir("root", 1_124, vec![
        file("big.txt", 1_024),
        file("small.txt", 100),
    ]);
    let out = render_tree(&entry, "root");
    assert!(out.contains("1.0 KB"));
    assert!(out.contains("100 B"));
}

#[test]
fn full_plain_rendering_of_a_nested_tree() {
    disable_color();
    let entry = dir("root", 1_224, vec![
        dir("sub", 1_124, vec![file("big.txt", 1_024), file("small.txt", 100)]),
        symlink("link"),
        dir("empty", 0, vec![]),
    ]);
    let out = render_tree(&entry, "top");
    let expected = [
        "top (1.2 KB)",
        "├── 1.1 KB   sub/",
        "│   ├── 1.0 KB  big.txt",
        "│   └──  100 B  small.txt",
        "├──    0 B  link ->",
        "└──    0 B  empty/",
    ]
    .join("\n");
    assert_eq!(out, expected);
}

#[test]
fn one_line_per_entry_below_the_root() {
    disable_color();
    let entry = dir("root", 3, vec![
        dir("a", 2, vec![file("x", 1), dir("b", 1, vec![file("y", 1)])]),
        file("z", 1),
    ]);
    let out = render_tree(&entry, "root");
    // root, a, x, b, y, z
    assert_eq!(out.split('\n').count(), 6);
}

#[test]
fn non_directory_root_is_a_single_line() {
    disable_color();
    let out = render_tree(&symlink("l"), "l");
    assert_eq!(out, "l (0 B)");
}

#[test]
fn sibling_sizes_share_one_column_width() {
    disable_color();
    let entry = dir("root", 1_049_600, vec![
        file("a", 1_048_576),
        file("b", 1_000),
        file("c", 5),
    ]);
    let out = render_tree(&entry, "root");
    let lines: Vec<&str> = out.split('\n').collect();
    assert_eq!(lines[1], "├── 1.0 MB  a");
    assert_eq!(lines[2], "├── 1000 B  b");
    assert_eq!(lines[3], "└──    5 B  c");
}

#[test]
fn looks_are_recorded_with_colours_off() {
    disable_color();
    let p = apply_color("5 B".to_string(), 5);
    assert_eq!(p.text, "5 B");
    assert!(p.look.dimmed && !p.look.bold && p.look.fg.is_none());
    let p = apply_color("1.0 MB".to_string(), 1_048_576);
    assert_eq!(p.text, "1.0 MB");
    assert_eq!(p.look.fg.as_deref(), Some("36"));
    assert!(!p.look.bold && !p.look.dimmed);
    let p = apply_color("1.0 GB".to_string(), 1_073_741_824);
    assert_eq!(p.look.fg.as_deref(), Some("35"));
    assert!(p.look.bold);
    let p = paint("d/", Tint::Bold);
    assert_eq!(p.text, "d/");
    assert!(p.look.bold && p.look.fg.is_none() && !p.look.dimmed);
    let p = paint("n", Tint::Normal);
    assert!(!p.look.bold && !p.look.dimmed && p.look.fg.is_none());
}

#[test]
fn tints_by_size_and_kind() {
    assert!(matches!(size_tint_of(1_023), Tint::Dimmed));
    assert!(matches!(size_tint_of(1_024), Tint::Normal));
    assert!(matches!(size_tint_of(1_048_576), Tint::Cyan));
    assert!(matches!(size_tint_of(10_485_760), Tint::Yellow));
    assert!(matches!(size_tint_of(104_857_600), Tint::RedBold));
    assert!(matches!(size_tint_of(1_073_741_824), Tint::MagentaBold));
    assert!(matches!(label_tint_of(&EntryKind::Dir { children: vec![] }), Tint::Bold));
    assert!(matches!(label_tint_of(&EntryKind::Symlink), Tint::Dimmed));
    assert!(matches!(label_tint_of(&EntryKind::File), Tint::Normal));
}
