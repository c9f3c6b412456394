use rdu::display::{apply_color, render_tree};
use rdu::entry::{Entry, EntryKind};
use rdu::paint::{paint, Tint};

fn enable_color() {
    colored::control::set_override(true);
}

#[test]
fn apply_color_tints_by_magnitude() {
    enable_color();
    assert_eq!(apply_color("1023 B".to_string(), 1_023).text, "\x1b[2m1023 B\x1b[0m");
    assert_eq!(apply_color("1.0 KB".to_string(), 1_024).text, "1.0 KB");
    assert_eq!(apply_color("1.0 MB".to_string(), 1_048_576).text, "\x1b[36m1.0 MB\x1b[0m");
    assert_eq!(apply_color("10.0 MB".to_string(), 10_485_760).text, "\x1b[33m10.0 MB\x1b[0m");
    assert_eq!(apply_color("100.0 MB".to_string(), 104_857_600).text, "\x1b[1;31m100.0 MB\x1b[0m");
    assert_eq!(apply_color("1.0 GB".to_string(), 1_073_741_824).text, "\x1b[1;35m1.0 GB\x1b[0m");
}

#[test]
fn paint_styles_labels() {
    enable_color();
    assert_eq!(paint("sub/", Tint::Bold).text, "\x1b[1msub/\x1b[0m");
    assert_eq!(paint("l ->", Tint::Dimmed).text, "\x1b[2ml ->\x1b[0m");
    assert_eq!(paint("plain", Tint::Normal).text, "plain");
}

#[test]
fn coloured_rendering() {
    enable_color();
    let entry = Entry {
        name: "root".into(),
        size: 5,
        kind: EntryKind::Dir {
            children: vec![
                Entry { name: "d".into(), size: 5, kind: EntryKind::Dir { children: vec![] } },
                Entry { name: "l".into(), size: 0, kind: EntryKind::Symlink },
            ],
        },
    };
    let out = render_tree(&entry, "root");
    let expected = [
        "root (\x1b[2m5 B\x1b[0m)",
        "├── \x1b[2m5 B\x1b[0m  \x1b[1md/\x1b[0m",
        "└── \x1b[2m0 B\x1b[0m  \x1b[2ml ->\x1b[0m",
    ]
    .join("\n");
    assert_eq!(out, expected);
}
