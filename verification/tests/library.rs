use compdir::cli::{parse_cli, plan_run, RunPlan};
use compdir::dirmap::DirMap;
use compdir::local::{local_dir_entry, LocalWalk};
use compdir::paths::{basename, join_remote_path, path_to_string};
use compdir::remote::{
    bytes_to_path_string, collect_remote_dirs, format_ssh_failure, remote_find_command,
    remote_pwd_command, resolve_remote_path, ssh_failure_message, trim_leading_dot_slash, SshReply,
};
use compdir::report::{blue, format_basename, osc8_link, render_report, RenderOptions, Side};
use compdir::shell::shell_quote;
use compdir::target::{normalize_pair, parse_arg, PairPlan, ParsedArg};
use compdir::text::{chars_of, parse_decimal, string_of, trim_chars};
use compdir::uri::{encode_uri_path, local_uri, remote_uri};

fn map_of(pairs: &[(&str, &str)]) -> DirMap {
    let mut m = DirMap::new();
    for (rel, full) in pairs {
        m.insert(rel.to_string(), full.to_string());
    }
    m
}

fn plain() -> RenderOptions {
    RenderOptions { hyperlink: false, color: false }
}

fn reply(success: bool, stdout: &[u8], stderr: &[u8]) -> SshReply {
    SshReply { success, stdout: stdout.to_vec(), stderr: stderr.to_vec() }
}

#[test]
fn dir_map_keeps_paths_in_order_and_replaces_values() {
    let mut m = DirMap::new();
    m.insert("b".to_string(), "1".to_string());
    m.insert("a".to_string(), "2".to_string());
    m.insert("b".to_string(), "3".to_string());
    assert_eq!(m.len(), 2);
    assert_eq!(string_of(m.rel_at(0)), "a");
    assert_eq!(string_of(m.rel_at(1)), "b");
    assert_eq!(m.get("b").unwrap(), "3");
    assert!(m.contains_key("a"));
    assert!(!m.contains_key("c"));
    assert!(m.get("c").is_none());
}

#[test]
fn report_of_identical_trees_is_empty() {
    let l = map_of(&[("a", "file:///l/a"), ("a/b", "file:///l/a/b")]);
    let r = map_of(&[("a/b", "file:///r/a/b"), ("a", "file:///r/a")]);
    assert_eq!(render_report(&l, &r, plain()), "");
    assert_eq!(render_report(&DirMap::new(), &DirMap::new(), plain()), "");
}

#[test]
fn report_lists_left_rows_before_right_rows() {
    let l = map_of(&[("z/x", "u1"), ("b/x", "u2")]);
    let r = map_of(&[("a/x", "u3"), ("y", "u4")]);
    assert_eq!(
        render_report(&l, &r, plain()),
        "x\nL b/x\nL z/x\nR a/x\n\ny\nR y"
    );
}

#[test]
fn report_groups_in_increasing_basename_order() {
    let l = map_of(&[("p/zeta", "u"), ("q/Alpha", "u"), ("alpha", "u")]);
    let r = DirMap::new();
    assert_eq!(
        render_report(&l, &r, plain()),
        "Alpha\nL q/Alpha\n\nalpha\nL alpha\n\nzeta\nL p/zeta"
    );
}

#[test]
fn report_hyperlinks_without_color() {
    let l = DirMap::new();
    let r = map_of(&[("d", "ssh://h/root/d")]);
    let out = render_report(&l, &r, RenderOptions { hyperlink: true, color: false });
    assert_eq!(out, "d\nR \x1b]8;;ssh://h/root/d\x1b\\d\x1b]8;;\x1b\\");
}

#[test]
fn decorations() {
    assert_eq!(blue("x"), "\x1b[34mx\x1b[0m");
    assert_eq!(osc8_link("t", "u"), "\x1b]8;;u\x1b\\t\x1b]8;;\x1b\\");
    assert_eq!(format_basename("n", false), "n");
    assert_eq!(format_basename("n", true), "\x1b[34mn\x1b[0m");
    assert_eq!(Side::Left.prefix(), "L");
    assert_eq!(Side::Right.prefix(), "R");
}

#[test]
fn basename_edge_cases() {
    assert_eq!(basename("a/b/"), "b");
    assert_eq!(basename("a/./"), "a");
    assert_eq!(basename("a/.."), "a/..");
    assert_eq!(basename("/"), "/");
    assert_eq!(basename("."), ".");
    assert_eq!(basename(""), "");
    assert_eq!(basename("single"), "single");
}

#[test]
fn path_to_string_normalises_separators() {
    assert_eq!(path_to_string("a//b/"), "a/b");
    assert_eq!(path_to_string("./a/./b"), "./a/b");
    assert_eq!(path_to_string("//x"), "/x");
    assert_eq!(path_to_string("/"), "/");
    assert_eq!(path_to_string(""), "");
    assert_eq!(path_to_string("a/../b"), "a/../b");
}

#[test]
fn remote_join_handles_roots() {
    assert_eq!(join_remote_path("/", "a"), "/a");
    assert_eq!(join_remote_path("/srv//", "a/b"), "/srv/a/b");
    assert_eq!(join_remote_path("/srv", "a"), "/srv/a");
}

#[test]
fn uri_encoding_of_utf8_and_reserved_characters() {
    assert_eq!(encode_uri_path("a-_.~/Z9"), "a-_.~/Z9");
    assert_eq!(encode_uri_path("%#?"), "%25%23%3F");
    assert_eq!(encode_uri_path("é"), "%C3%A9");
    assert_eq!(encode_uri_path("€"), "%E2%82%AC");
    assert_eq!(encode_uri_path("😀"), "%F0%9F%98%80");
    assert_eq!(local_uri("/"), "file:///");
    assert_eq!(remote_uri("h", "/a é"), "ssh://h/a%20%C3%A9");
}

#[test]
fn shell_quote_edge_cases() {
    assert_eq!(shell_quote(""), "''");
    assert_eq!(shell_quote("''"), "''\"'\"''\"'\"''");
    assert_eq!(shell_quote("a b$c"), "'a b$c'");
}

#[test]
fn remote_commands() {
    assert_eq!(remote_pwd_command(None), "pwd -P");
    assert_eq!(remote_pwd_command(Some("a b")), "cd -- 'a b' && pwd -P");
    assert_eq!(
        remote_find_command("/r", None),
        "cd -- '/r' && find . -mindepth 1 -type d -print0"
    );
    assert_eq!(
        remote_find_command("/r", Some(12)),
        "cd -- '/r' && find . -mindepth 1 -maxdepth 12 -type d -print0"
    );
}

#[test]
fn ssh_failure_message_trims_stderr() {
    assert_eq!(
        format_ssh_failure("h", "pwd -P", b"  denied\n"),
        "`ssh h` failed while running `pwd -P`\ndenied"
    );
    assert_eq!(
        format_ssh_failure("h", "c", b"bad \xff byte"),
        "`ssh h` failed while running `c`\nbad \u{FFFD} byte"
    );
}

#[test]
fn resolve_remote_path_reads_the_reply() {
    assert_eq!(
        resolve_remote_path("h", None, &reply(true, b" /home/u\n", b"")),
        Ok("/home/u".to_string())
    );
    assert_eq!(
        resolve_remote_path("h", Some("x"), &reply(false, b"", b"no such dir\n")),
        Err("`ssh h` failed while running `cd -- 'x' && pwd -P`\nno such dir".to_string())
    );
    assert_eq!(
        resolve_remote_path("h", None, &reply(true, b"\xff", b"")),
        Err("`ssh h` returned a non-UTF-8 path".to_string())
    );
    assert_eq!(
        resolve_remote_path("h", None, &reply(true, b" \n", b"")),
        Err("`ssh h` returned an empty path".to_string())
    );
}

#[test]
fn failure_message_from_text() {
    assert_eq!(
        ssh_failure_message("host", "ls", "\u{A0}no route\r\n"),
        "`ssh host` failed while running `ls`\nno route"
    );
}

#[test]
fn leading_dot_slashes_are_removed() {
    assert_eq!(trim_leading_dot_slash("./././x/./y"), "x/./y");
    assert_eq!(trim_leading_dot_slash("./"), "");
    assert_eq!(trim_leading_dot_slash("."), ".");
    assert_eq!(trim_leading_dot_slash(".x"), ".x");
}

#[test]
fn bytes_to_path_string_is_lenient() {
    assert_eq!(bytes_to_path_string(b"././a/./b"), "a/./b");
    assert_eq!(bytes_to_path_string(b"a\xffb"), "a\u{FFFD}b");
}

#[test]
fn collect_remote_dirs_reads_find_output() {
    let out = b"./a\0./a/b c\0\0./\0";
    let dirs = match collect_remote_dirs("h", "/r/", Some(2), &reply(true, out, b"")) {
        Ok(d) => d,
        Err(e) => panic!("{e}"),
    };
    assert_eq!(dirs.len(), 2);
    assert_eq!(dirs.get("a").unwrap(), "ssh://h/r/a");
    assert_eq!(dirs.get("a/b c").unwrap(), "ssh://h/r/a/b%20c");
    match collect_remote_dirs("h", "/r", None, &reply(false, b"", b"oops")) {
        Ok(_) => panic!("expected an error"),
        Err(e) => assert_eq!(
            e,
            "`ssh h` failed while running `cd -- '/r' && find . -mindepth 1 -type d -print0`\noops"
        ),
    }
}

#[test]
fn local_entries() {
    let e = local_dir_entry("/root", "/root/a/b c", 1, Some(3)).ok().unwrap();
    assert_eq!(e.depth, 2);
    assert!(e.descend);
    let (rel, full) = e.record.unwrap();
    assert_eq!(rel, "a/b c");
    assert_eq!(full, "file:///root/a/b%20c");
    let e = local_dir_entry("/root", "/root/a", 0, Some(1)).ok().unwrap();
    assert!(!e.descend);
    let e = local_dir_entry("/", "/x", 0, None).ok().unwrap();
    assert!(e.descend);
    assert_eq!(e.record.unwrap().0, "x");
    assert!(local_dir_entry("/root", "/other/a", 0, None).is_err());
    let e = local_dir_entry("/root", "/root", 0, None).ok().unwrap();
    assert!(e.record.is_none());
}

#[test]
fn parse_arg_forms() {
    match parse_arg("dir/x").ok().unwrap() {
        ParsedArg::Local(p) => assert_eq!(p, "dir/x"),
        _ => panic!("expected a local path"),
    }
    match parse_arg("host:").ok().unwrap() {
        ParsedArg::RemoteEmpty { host } => assert_eq!(host, "host"),
        _ => panic!("expected host:"),
    }
    match parse_arg("host:a:b").ok().unwrap() {
        ParsedArg::RemotePath { host, path } => {
            assert_eq!(host, "host");
            assert_eq!(path, "a:b");
        }
        _ => panic!("expected host:path"),
    }
    match parse_arg(":x") {
        Err(e) => assert_eq!(e, "invalid argument `:x`: host is empty"),
        Ok(_) => panic!("expected an error"),
    }
}

#[test]
fn normalize_pair_shares_local_root() {
    match normalize_pair("h:", "some/dir").ok().unwrap() {
        PairPlan::SharedRoot { host, local, remote_side } => {
            assert_eq!(host, "h");
            assert_eq!(local, "some/dir");
            assert_eq!(remote_side, Side::Left);
        }
        _ => panic!("expected a shared root"),
    }
    match normalize_pair("d", "h:").ok().unwrap() {
        PairPlan::SharedRoot { remote_side, .. } => assert_eq!(remote_side, Side::Right),
        _ => panic!("expected a shared root"),
    }
    match normalize_pair("h:", "g:").ok().unwrap() {
        PairPlan::Separate { .. } => {}
        _ => panic!("expected separate sides"),
    }
    assert!(normalize_pair(":a", "b").is_err());
    assert!(normalize_pair("a", ":b").is_err());
}

#[test]
fn plan_run_decisions() {
    let plan = |args: &[&str]| plan_run(&parse_cli(args.iter().map(|s| s.to_string()).collect()).unwrap());
    assert!(matches!(plan(&["-h", "x"]), RunPlan::ShowHelp));
    match plan(&["-L0", "x"]) {
        RunPlan::Fail { message, show_help } => {
            assert_eq!(message, "-L depth must be at least 1");
            assert!(!show_help);
        }
        _ => panic!("expected a failure"),
    }
    match plan(&["x"]) {
        RunPlan::Compare { left, right } => {
            assert_eq!(left, ".");
            assert_eq!(right, "x");
        }
        _ => panic!("expected a comparison"),
    }
    match plan(&["x", "y"]) {
        RunPlan::Compare { left, right } => {
            assert_eq!(left, "x");
            assert_eq!(right, "y");
        }
        _ => panic!("expected a comparison"),
    }
    match plan(&[]) {
        RunPlan::Fail { message, show_help } => {
            assert_eq!(message, "expected 1 or 2 arguments");
            assert!(show_help);
        }
        _ => panic!("expected a failure"),
    }
}

#[test]
fn cli_depth_parsing_follows_usize_parse() {
    assert_eq!(parse_cli(vec!["-L+7".to_string()]).unwrap().max_depth, Some(7));
    assert_eq!(parse_cli(vec!["-L1".to_string(), "-L2".to_string()]).unwrap().max_depth, Some(2));
    assert!(parse_cli(vec!["-L".to_string()]).is_err());
    assert!(parse_cli(vec!["-L-1".to_string()]).is_err());
    assert!(parse_cli(vec!["-L99999999999999999999999".to_string()]).is_err());
    match parse_cli(vec!["x".to_string(), "-Lz".to_string(), "-L".to_string()]) {
        Err(e) => assert_eq!(e, "invalid depth argument `-Lz`: expected -L<integer>"),
        Ok(_) => panic!("expected an error"),
    }
    let cli = parse_cli(vec!["--help".to_string(), "--hyperlink".to_string(), "-c".to_string()]).unwrap();
    assert!(cli.help && cli.render.hyperlink && cli.render.color);
    assert!(cli.positionals.is_empty());
}

#[test]
fn decimal_parsing() {
    assert_eq!(parse_decimal(&chars_of("0042")), Some(42));
    assert_eq!(parse_decimal(&chars_of("+")), None);
    assert_eq!(parse_decimal(&chars_of("")), None);
    assert_eq!(parse_decimal(&chars_of(&usize::MAX.to_string())), Some(usize::MAX));
}

#[test]
fn trimming_uses_unicode_whitespace() {
    assert_eq!(string_of(&trim_chars(&chars_of("\u{3000} a b\t\n"))), "a b");
    assert_eq!(string_of(&trim_chars(&chars_of("   "))), "");
}

#[test]
fn dir_map_order_matches_string_order() {
    let keys = ["z", "\u{e9}", "\u{FFFD}", "\u{10000}", "a", "Z", "a/b", "a b", "\u{7ff}", "\u{800}"];
    let mut m = DirMap::new();
    for k in keys {
        m.insert(k.to_string(), String::new());
    }
    let mut expected: Vec<String> = keys.iter().map(|k| k.to_string()).collect();
    expected.sort();
    let got: Vec<String> = (0..m.len()).map(|i| string_of(m.rel_at(i))).collect();
    assert_eq!(got, expected);
}

#[test]
fn depth_reads_back_from_find_command() {
    let cli = parse_cli(vec!["-L40".to_string(), "x".to_string()]).unwrap();
    let cmd = remote_find_command("/", cli.max_depth);
    assert_eq!(cmd, "cd -- '/' && find . -mindepth 1 -maxdepth 40 -type d -print0");
}

#[test]
fn local_walk_records_and_limits_depth() {
    let mut walk = LocalWalk::new("/r".to_string(), "root", Some(2));
    let (dir, depth) = walk.next_dir().unwrap();
    assert_eq!((dir, depth), ("root", 0));
    assert!(walk.visit(0, "/r/a", "a").is_ok());
    assert!(walk.visit(0, "/elsewhere/b", "b").is_err());
    let (dir, depth) = walk.next_dir().unwrap();
    assert_eq!((dir, depth), ("a", 1));
    assert!(walk.visit(1, "/r/a/c", "c").is_ok());
    assert!(walk.next_dir().is_none());
    let dirs = walk.finish();
    assert_eq!(dirs.len(), 2);
    assert_eq!(dirs.get("a").unwrap(), "file:///r/a");
    assert_eq!(dirs.get("a/c").unwrap(), "file:///r/a/c");
}

#[test]
fn reading_paths_from_valid_utf8() {
    let p = bytes_to_path_string("./é/x".as_bytes());
    assert_eq!(p, "é/x");
    assert_eq!(bytes_to_path_string(p.as_bytes()), p);
    assert_eq!(encode_uri_path("a b/é"), "a%20b/%C3%A9");
}

#[test]
fn report_without_links_ignores_uris() {
    let l1 = map_of(&[("a/x", "u1"), ("b", "u2")]);
    let l2 = map_of(&[("a/x", "v1"), ("b", "v2")]);
    let r = map_of(&[("c/x", "w")]);
    assert_eq!(render_report(&l1, &r, plain()), render_report(&l2, &r, plain()));
}

#[test]
fn swapping_sides_swaps_letters() {
    let l = map_of(&[("a/x", "u"), ("q", "u")]);
    let r = map_of(&[("b/x", "u")]);
    assert_eq!(render_report(&l, &r, plain()), "q\nL q\n\nx\nL a/x\nR b/x");
    assert_eq!(render_report(&r, &l, plain()), "q\nR q\n\nx\nL b/x\nR a/x");
}

#[test]
fn path_text_is_stable() {
    for p in ["a//b/./", "/x/../y", "./", ".", "", "//", "./a/b"] {
        let once = path_to_string(p);
        assert_eq!(path_to_string(&once), once);
    }
}

#[test]
fn any_dir_map_is_ordered() {
    let m = map_of(&[("b", "1"), ("a", "2")]);
    m.ordered();
    assert_eq!(string_of(m.rel_at(0)), "a");
}
