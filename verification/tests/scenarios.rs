use compdir::cli::parse_cli;
use compdir::dirmap::DirMap;
use compdir::paths::{basename, path_to_string};
use compdir::report::{render_report, RenderOptions};
use compdir::shell::shell_quote;
use compdir::uri::{local_uri, remote_uri};

fn map_of(pairs: &[(&str, String)]) -> DirMap {
    let mut m = DirMap::new();
    for (rel, full) in pairs {
        m.insert(rel.to_string(), full.clone());
    }
    m
}

#[test]
fn renders_expected_grouping() {
    let left_rels = ["a/b/my-dir", "c/d/e/my-dir", "mydir2"];
    let right_rels = ["a/b/my-dir", "x/my-dir", "z/w/s/my-dir"];
    let left = map_of(
        &left_rels
            .iter()
            .map(|rel| (*rel, format!("file:///left/{rel}")))
            .collect::<Vec<_>>(),
    );
    let right = map_of(
        &right_rels
            .iter()
            .map(|rel| (*rel, format!("file:///right/{rel}")))
            .collect::<Vec<_>>(),
    );

    let rendered = render_report(
        &left,
        &right,
        RenderOptions {
            hyperlink: false,
            color: false,
        },
    );
    assert_eq!(
        rendered,
        "my-dir\nL c/d/e/my-dir\nR x/my-dir\nR z/w/s/my-dir\n\nmydir2\nL mydir2"
    );
}

#[test]
fn renders_hyperlinks_and_color() {
    let left = map_of(&[("my-dir", "file:///left/my-dir".to_string())]);
    let right = DirMap::new();

    let rendered = render_report(
        &left,
        &right,
        RenderOptions {
            hyperlink: true,
            color: true,
        },
    );

    assert_eq!(
        rendered,
        "\x1b[34mmy-dir\x1b[0m\nL \x1b]8;;file:///left/my-dir\x1b\\my-dir\x1b]8;;\x1b\\"
    );
}

#[test]
fn quotes_single_quotes_for_shell() {
    assert_eq!(shell_quote("abc"), "'abc'");
    assert_eq!(shell_quote("a'b"), "'a'\"'\"'b'");
}

#[test]
fn basename_uses_last_component() {
    assert_eq!(basename("a/b/c"), "c");
}

#[test]
fn path_to_string_preserves_absolute_roots() {
    assert_eq!(path_to_string("/a/b"), "/a/b");
}

#[test]
fn uri_helpers_encode_spaces() {
    assert_eq!(local_uri("/tmp/a b"), "file:///tmp/a%20b");
    assert_eq!(remote_uri("host", "/tmp/a b"), "ssh://host/tmp/a%20b");
}

#[test]
fn cli_flags_can_be_combined_with_positionals() {
    let cli = parse_cli(vec![
        "-H".to_string(),
        "left".to_string(),
        "--color".to_string(),
        "right".to_string(),
    ])
    .unwrap();

    assert!(!cli.help);
    assert!(cli.render.hyperlink);
    assert!(cli.render.color);
    assert_eq!(cli.positionals, vec!["left", "right"]);
    assert_eq!(cli.max_depth, None);
}

#[test]
fn cli_parses_depth_flag() {
    let cli = parse_cli(vec!["-L3".to_string(), "right".to_string()]).unwrap();
    assert_eq!(cli.max_depth, Some(3));
    assert_eq!(cli.positionals, vec!["right"]);
}

#[test]
fn cli_rejects_invalid_depth_flag() {
    assert!(parse_cli(vec!["-Lfoo".to_string()]).is_err());
}
