use rdu::cli::Cli;
use std::path::PathBuf;

fn make_cli(depth: usize, recursive: bool) -> Cli {
    Cli {
        path: PathBuf::from("."),
        depth,
        recursive,
        no_color: false,
        command: None,
    }
}

#[test]
fn max_depth_default_depth() {
    let cli = make_cli(1, false);
    assert_eq!(cli.max_depth(), Some(1));
}

#[test]
fn max_depth_custom_depth() {
    let cli = make_cli(5, false);
    assert_eq!(cli.max_depth(), Some(5));
}

#[test]
fn max_depth_zero() {
    let cli = make_cli(0, false);
    assert_eq!(cli.max_depth(), Some(0));
}

#[test]
fn max_depth_recursive_ignores_depth() {
    let cli = make_cli(3, true);
    assert_eq!(cli.max_depth(), None);
}

#[test]
fn max_depth_recursive_with_default_depth() {
    let cli = make_cli(1, true);
    assert_eq!(cli.max_depth(), None);
}
