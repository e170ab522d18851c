use fdbdir::{command_candidates, completion_query, path_candidates, CompletionQuery};

fn segs(names: &[&str]) -> Vec<String> {
    names.iter().map(|s| s.to_string()).collect()
}

#[test]
fn command_word_completion() {
    assert_eq!(command_candidates("p"), segs(&["pwd"]));
    assert_eq!(command_candidates("e"), segs(&["exit"]));
    assert_eq!(
        command_candidates(""),
        segs(&["help", "exit", "quit", "pwd", "cd", "ls", "scan"])
    );
    assert_eq!(command_candidates("zz"), segs(&[]));
}

#[test]
fn first_word_completes_commands() {
    let q = completion_query("pw", &segs(&[]));
    assert_eq!(q, CompletionQuery::Commands { prefix: "pw".to_string() });
    let q = completion_query("  pw", &segs(&[]));
    assert_eq!(q, CompletionQuery::Commands { prefix: "pw".to_string() });
}

#[test]
fn relative_path_completion_lists_parent() {
    let q = completion_query("cd ap", &segs(&[]));
    assert_eq!(
        q,
        CompletionQuery::Paths {
            parent: segs(&[]),
            needle: "ap".to_string(),
            absolute: false,
            add_slash: false,
            start: 3,
        }
    );
}

#[test]
fn absolute_path_completion_lists_parent() {
    let q = completion_query("ls /app/f", &segs(&["elsewhere"]));
    assert_eq!(
        q,
        CompletionQuery::Paths {
            parent: segs(&["app"]),
            needle: "f".to_string(),
            absolute: true,
            add_slash: false,
            start: 3,
        }
    );
}

#[test]
fn trailing_slash_lists_that_directory() {
    let q = completion_query("scan /app/", &segs(&[]));
    assert_eq!(
        q,
        CompletionQuery::Paths {
            parent: segs(&["app"]),
            needle: "".to_string(),
            absolute: true,
            add_slash: true,
            start: 5,
        }
    );
}

#[test]
fn unrelated_argument_completes_nothing() {
    let q = completion_query("pwd now", &segs(&[]));
    assert_eq!(q, CompletionQuery::Nothing);
}

#[test]
fn candidates_filter_by_needle() {
    let items = segs(&["app", "apple", "zoo"]);
    let pairs = path_candidates(&items, "ap", &segs(&[]), false, false);
    let got: Vec<(String, String)> = pairs;
    assert_eq!(
        got,
        vec![
            ("app/".to_string(), "app".to_string()),
            ("apple/".to_string(), "apple".to_string()),
        ]
    );
}

#[test]
fn absolute_candidates_carry_the_parent_path() {
    let items = segs(&["foo"]);
    let pairs = path_candidates(&items, "f", &segs(&["app"]), true, false);
    assert_eq!(pairs, vec![("foo/".to_string(), "/app/foo".to_string())]);

    let at_root = path_candidates(&items, "", &segs(&[]), true, true);
    assert_eq!(at_root, vec![("foo/".to_string(), "/foo/".to_string())]);
}
