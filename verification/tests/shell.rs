use fdbdir::listing::{format_key, format_value, render_ls_keys, render_scan_rows};
use fdbdir::{format_row, parse_command, parse_usize, Command, ReplState};

fn segs(names: &[&str]) -> Vec<String> {
    names.iter().map(|s| s.to_string()).collect()
}

#[test]
fn parse_usize_reads_digits() {
    assert_eq!(parse_usize("0"), Some(0));
    assert_eq!(parse_usize("123"), Some(123));
    assert_eq!(parse_usize("+5"), Some(5));
}

#[test]
fn parse_usize_rejects_non_numbers() {
    assert_eq!(parse_usize(""), None);
    assert_eq!(parse_usize("+"), None);
    assert_eq!(parse_usize("-1"), None);
    assert_eq!(parse_usize("12a"), None);
    assert_eq!(parse_usize("99999999999999999999999"), None);
}

#[test]
fn command_words_dispatch() {
    let cwd = segs(&[]);
    assert_eq!(parse_command("help", &cwd), Command::Help);
    assert_eq!(parse_command("exit", &cwd), Command::Exit);
    assert_eq!(parse_command("quit", &cwd), Command::Exit);
    assert_eq!(parse_command("pwd", &cwd), Command::Pwd);
    assert_eq!(parse_command("", &cwd), Command::Blank);
    assert_eq!(
        parse_command("frobnicate", &cwd),
        Command::Unknown { name: "frobnicate".to_string() }
    );
}

#[test]
fn cd_resolves_target() {
    let cwd = segs(&["app"]);
    assert_eq!(
        parse_command("cd foo", &cwd),
        Command::Cd { target: segs(&["app", "foo"]) }
    );
    assert_eq!(parse_command("cd /x", &cwd), Command::Cd { target: segs(&["x"]) });
    assert_eq!(parse_command("cd ..", &cwd), Command::Cd { target: segs(&[]) });
    assert_eq!(parse_command("cd", &cwd), Command::Cd { target: segs(&[]) });
}

#[test]
fn ls_defaults_to_current_path() {
    let cwd = segs(&["app"]);
    assert_eq!(parse_command("ls", &cwd), Command::Ls { path: segs(&["app"]) });
    assert_eq!(parse_command("ls ..", &cwd), Command::Ls { path: segs(&[]) });
    assert_eq!(
        parse_command("ls /a/b", &cwd),
        Command::Ls { path: segs(&["a", "b"]) }
    );
}

#[test]
fn quoted_segment_stays_one_token() {
    let cwd = segs(&[]);
    assert_eq!(
        parse_command("cd \"a b\"", &cwd),
        Command::Cd { target: segs(&["a b"]) }
    );
}

#[test]
fn scan_arguments_are_order_independent() {
    let cwd = segs(&["app"]);
    assert_eq!(
        parse_command("scan 7 --raw \"\\x41\"", &cwd),
        Command::Scan { path: segs(&["app"]), limit: 7, prefix: Some(vec![0x41]), raw: true }
    );
    assert_eq!(
        parse_command("dump -r 7", &cwd),
        Command::Scan { path: segs(&["app"]), limit: 7, prefix: None, raw: true }
    );
    assert_eq!(
        parse_command("scan raw", &cwd),
        Command::Scan { path: segs(&["app"]), limit: 50, prefix: None, raw: true }
    );
}

#[test]
fn scan_defaults() {
    let cwd = segs(&[]);
    assert_eq!(
        parse_command("scan", &cwd),
        Command::Scan { path: segs(&[]), limit: 50, prefix: None, raw: false }
    );
}

#[test]
fn scan_digit_token_is_a_limit_not_a_prefix() {
    let cwd = segs(&[]);
    assert_eq!(
        parse_command("scan 12", &cwd),
        Command::Scan { path: segs(&[]), limit: 12, prefix: None, raw: false }
    );
}

#[test]
fn scan_keeps_first_prefix_only() {
    let cwd = segs(&[]);
    assert_eq!(
        parse_command("scan \"\\x00\" \"\\x01\"", &cwd),
        Command::Scan { path: segs(&[]), limit: 50, prefix: Some(vec![0x00]), raw: false }
    );
}

#[test]
fn cd_to_missing_directory_keeps_current_path() {
    let mut state = ReplState::new();
    let target = match parse_command("cd /nope", &state.current_path) {
        Command::Cd { target } => target,
        other => panic!("expected a cd command, got {:?}", other),
    };
    assert_eq!(target, segs(&["nope"]));
    state.apply_cd(&target, false);
    assert_eq!(state.current_path, segs(&[]));
}

#[test]
fn cd_to_existing_directory_moves() {
    let mut state = ReplState::new();
    let target = segs(&["app", "foo"]);
    state.apply_cd(&target, true);
    assert_eq!(state.current_path, segs(&["app", "foo"]));
}

fn demo_row() -> (Vec<u8>, Vec<u8>, Vec<u8>) {
    // a directory prefix, one key holding the tuple ("x", 1) under it, and
    // the value 42
    let prefix = vec![0x15, 0x2A];
    let mut key = prefix.clone();
    key.extend_from_slice(b"\x02x\x00\x15\x01");
    let value = vec![0x15, 42];
    (prefix, key, value)
}

#[test]
fn listing_decodes_key_and_value() {
    let (prefix, key, value) = demo_row();
    assert_eq!(format_key(&key, &prefix, false), "(\"x\", 1)");
    assert_eq!(format_value(&value), "42");
    assert_eq!(
        format_row(1, &key, &value, &prefix, false),
        "   1. (\"x\", 1) => 42"
    );
}

#[test]
fn scan_limit_caps_rows() {
    let (prefix, key, value) = demo_row();
    let rows = vec![(key, value)];
    let one = render_scan_rows(&rows, 1, &prefix, false);
    assert_eq!(one, vec!["   1. (\"x\", 1) => 42".to_string()]);
    let none = render_scan_rows(&rows, 0, &prefix, false);
    assert_eq!(none, Vec::<String>::new());
}

#[test]
fn raw_mode_shows_keys_as_byte_literals() {
    let (prefix, key, value) = demo_row();
    assert_eq!(format_key(&key, &prefix, true), "b\"\\x15\\x2a\\x02x\\x00\\x15\\x01\"");
    let rows = vec![(key, value)];
    let shown = render_scan_rows(&rows, 50, &prefix, true);
    assert_eq!(shown, vec!["   1. b\"\\x15\\x2a\\x02x\\x00\\x15\\x01\" => 42".to_string()]);
}

#[test]
fn key_outside_subspace_shows_raw() {
    let (_, key, _) = demo_row();
    assert_eq!(format_key(&key, &[0x16], false), "b\"\\x15\\x2a\\x02x\\x00\\x15\\x01\"");
}

#[test]
fn undecodable_value_falls_back_to_text() {
    assert_eq!(format_value(b"plain"), "\"plain\"");
}

#[test]
fn ls_keys_sample_and_truncation_notice() {
    let (prefix, key, value) = demo_row();
    let one = vec![(key.clone(), value.clone())];
    let (shown, more) = render_ls_keys(&one, &prefix);
    assert_eq!(shown.len(), 1);
    assert!(!more);

    let many: Vec<(Vec<u8>, Vec<u8>)> = (0..51).map(|_| (key.clone(), value.clone())).collect();
    let (shown, more) = render_ls_keys(&many, &prefix);
    assert_eq!(shown.len(), 50);
    assert!(more);
    assert_eq!(shown[49], "  50. (\"x\", 1) => 42");
}

#[test]
fn row_index_alignment_widens_past_four_digits() {
    let (prefix, key, value) = demo_row();
    assert_eq!(format_row(12345, &key, &value, &prefix, false), "12345. (\"x\", 1) => 42");
}
