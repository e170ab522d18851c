//! The decision core of the interactive shell: the current-path state, the
//! command grammar, and the dispatch of one input line to a command.
use vstd::prelude::*;

verus! {

use crate::byte_literal::decode_lit;
use crate::path_model::clone_path;
use crate::path_model::resolve_path;
use crate::path_model::resolve_path_spec;
use crate::text::str_eq;
use vstd::string::*;
use vstd::utf8::encode_utf8;

/// The shell's state: the current working path, read by the prompt and the
/// completion hook, written only by a successful `cd`.
pub struct ReplState {
    pub current_path: Vec<String>,
}

impl ReplState {
    /// A fresh session starts at the root.
    pub fn new() -> (s: Self)
        ensures
            s.current_path.deep_view() == Seq::<Seq<char>>::empty(),
    {
        let s = ReplState { current_path: Vec::new() };
        proof {
            assert(s.current_path.deep_view() =~= Seq::<Seq<char>>::empty());
        }
        s
    }

    /// Applies the outcome of a `cd`: the target becomes current exactly
    /// when it exists, and otherwise the path is unchanged.
    pub fn apply_cd(&mut self, target: &Vec<String>, exists: bool)
        ensures
            exists ==> final(self).current_path.deep_view() == target.deep_view(),
            !exists ==> final(self).current_path.deep_view() == old(self).current_path.deep_view(),
    {
        if exists {
            self.current_path = clone_path(target);
        }
    }
}

/// The value of a run of decimal digits.
pub open spec fn dec_val(cs: Seq<char>) -> nat
    decreases cs.len(),
{
    if cs.len() == 0 {
        0
    } else {
        (dec_val(cs.drop_last()) * 10 + (cs.last() as u32 - 48)) as nat
    }
}

pub open spec fn all_digits(cs: Seq<char>) -> bool {
    forall|i: int| 0 <= i < cs.len() ==> 48 <= #[trigger] (cs[i] as u32) <= 57
}

/// The non-negative integer a token denotes: an optional `+`, then one or
/// more decimal digits, whose value must fit the machine's word.
pub open spec fn parse_usize_spec(cs: Seq<char>) -> Option<int> {
    let body = if cs.len() > 0 && cs[0] == '+' {
        cs.drop_first()
    } else {
        cs
    };
    if body.len() > 0 && all_digits(body) && dec_val(body) <= usize::MAX {
        Some(dec_val(body) as int)
    } else {
        None
    }
}

proof fn lemma_dec_val_mono(cs: Seq<char>, j: int)
    requires
        0 <= j <= cs.len(),
        all_digits(cs),
    ensures
        dec_val(cs) >= dec_val(cs.take(j)),
    decreases cs.len() - j,
{
    if j == cs.len() {
        assert(cs.take(j) =~= cs);
    } else {
        lemma_dec_val_mono(cs, j + 1);
        assert(cs.take(j + 1).drop_last() =~= cs.take(j));
        assert(48 <= cs[j] as u32 <= 57);
        assert(cs.take(j + 1).last() == cs[j]);
        assert(dec_val(cs.take(j + 1)) >= dec_val(cs.take(j)));
    }
}

/// Parses a token as a non-negative machine integer; anything else,
/// including one too large, is not a limit token.
pub fn parse_usize(s: &str) -> (r: Option<usize>)
    ensures
        r matches Some(v) ==> parse_usize_spec(s@) == Some(v as int),
        r is None <==> parse_usize_spec(s@) is None,
{
    let n = s.unicode_len();
    let mut start: usize = 0;
    if n > 0 && s.get_char(0) == '+' {
        start = 1;
    }
    let ghost body = if s@.len() > 0 && s@[0] == '+' {
        s@.drop_first()
    } else {
        s@
    };
    proof {
        assert(body =~= s@.skip(start as int));
    }
    if start == n {
        return None;
    }
    let mut v: usize = 0;
    let mut i: usize = start;
    proof {
        assert(body.take(0) =~= Seq::<char>::empty());
    }
    while i < n
        invariant
            start <= i <= n,
            n == s@.len(),
            body == s@.skip(start as int),
            body == (if s@.len() > 0 && s@[0] == '+' {
                s@.drop_first()
            } else {
                s@
            }),
            start < n,
            v == dec_val(body.take(i - start)),
            all_digits(body.take(i - start)),
        decreases n - i,
    {
        let c = s.get_char(i);
        let u = c as u32;
        if u < 48 || u > 57 {
            proof {
                assert(body[i - start] == c);
                assert(!(48 <= body[i - start] as u32 && body[i - start] as u32 <= 57));
                assert(!all_digits(body));
            }
            return None;
        }
        let d: usize = (u - 48) as usize;
        proof {
            assert(body.take(i - start + 1).drop_last() =~= body.take(i - start));
            assert(body.take(i - start + 1).last() == c);
        }
        proof {
            assert(body[i - start] == c);
            assert(48 <= body[i - start] as u32 <= 57);
            assert(forall|j: int|
                0 <= j < i - start + 1 ==> 48 <= #[trigger] (body.take(i - start + 1)[j] as u32)
                    <= 57);
            assert(all_digits(body.take(i - start + 1)));
        }
        if v > (usize::MAX - d) / 10 {
            proof {
                assert(v * 10 + d > usize::MAX) by {
                    assert(v >= (usize::MAX - d) / 10 + 1);
                    assert(v * 10 >= ((usize::MAX - d) / 10 + 1) * 10) by (nonlinear_arith)
                        requires
                            v >= (usize::MAX - d) / 10 + 1,
                    ;
                    assert(((usize::MAX - d) / 10) * 10 + (usize::MAX - d) % 10 == usize::MAX - d);
                }
                assert(dec_val(body.take(i - start + 1)) > usize::MAX);
                if all_digits(body) {
                    lemma_dec_val_mono(body, i - start + 1);
                    assert(dec_val(body) > usize::MAX);
                }
            }
            return None;
        }
        proof {
            assert(v * 10 + d <= usize::MAX) by {
                assert(v <= (usize::MAX - d) / 10);
                assert(v * 10 <= ((usize::MAX - d) / 10) * 10) by (nonlinear_arith)
                    requires
                        v <= (usize::MAX - d) / 10,
                ;
                assert(((usize::MAX - d) / 10) * 10 <= usize::MAX - d);
            }
        }
        v = v * 10 + d;
        i = i + 1;
    }
    proof {
        assert(body.take(n - start) =~= body);
    }
    Some(v)
}

/// A command the shell can execute, with every path already resolved
/// against the current one.
#[derive(Debug, PartialEq, Eq)]
pub enum Command {
    Help,
    Exit,
    Pwd,
    Cd { target: Vec<String> },
    Ls { path: Vec<String> },
    Scan { path: Vec<String>, limit: usize, prefix: Option<Vec<u8>>, raw: bool },
    Unknown { name: String },
    Blank,
}

/// The mathematical shape of a [`Command`].
pub enum CommandModel {
    Help,
    Exit,
    Pwd,
    Cd { target: Seq<Seq<char>> },
    Ls { path: Seq<Seq<char>> },
    Scan { path: Seq<Seq<char>>, limit: int, prefix: Option<Seq<u8>>, raw: bool },
    Unknown { name: Seq<char> },
    Blank,
}

pub open spec fn opt_bytes_view(p: Option<Vec<u8>>) -> Option<Seq<u8>> {
    match p {
        Some(v) => Some(v@),
        None => None,
    }
}

impl View for Command {
    type V = CommandModel;

    open spec fn view(&self) -> CommandModel {
        match self {
            Command::Help => CommandModel::Help,
            Command::Exit => CommandModel::Exit,
            Command::Pwd => CommandModel::Pwd,
            Command::Cd { target } => CommandModel::Cd { target: target.deep_view() },
            Command::Ls { path } => CommandModel::Ls { path: path.deep_view() },
            Command::Scan { path, limit, prefix, raw } => CommandModel::Scan {
                path: path.deep_view(),
                limit: *limit as int,
                prefix: opt_bytes_view(*prefix),
                raw: *raw,
            },
            Command::Unknown { name } => CommandModel::Unknown { name: name@ },
            Command::Blank => CommandModel::Blank,
        }
    }
}

/// What splitting a line into shell words yields: the words, or nothing for
/// a line whose quoting cannot be parsed. A function of the text alone.
pub uninterp spec fn shell_words_of(line: Seq<char>) -> Option<Seq<Seq<char>>>;

/// Relies on `shell_words::split`: whitespace-separated words with
/// POSIX-shell quoting, failing exactly on unclosed quoting; what it yields
/// depends on the line alone.
#[verifier::external_body]
pub(crate) fn shell_split_tokens(line: &str) -> (r: Option<Vec<String>>)
    ensures
        r matches Some(v) ==> shell_words_of(line@) == Some(v.deep_view()),
        r is None <==> shell_words_of(line@) is None,
{
    shell_words::split(line).ok()
}

/// The words a line is treated as: its shell words, or the whole line as
/// one word when its quoting cannot be parsed.
pub open spec fn effective_tokens(line: Seq<char>) -> Seq<Seq<char>> {
    match shell_words_of(line) {
        Some(t) => t,
        None => seq![line],
    }
}

/// The limit, byte-literal prefix and raw flag drawn from scan arguments:
/// a raw token sets the flag, an integer token sets the limit, and the
/// first remaining token that decodes as a byte literal sets the prefix;
/// every other token is ignored.
pub open spec fn scan_args_spec(
    toks: Seq<Seq<char>>,
    limit: int,
    prefix: Option<Seq<u8>>,
    raw: bool,
) -> (int, Option<Seq<u8>>, bool)
    decreases toks.len(),
{
    if toks.len() == 0 {
        (limit, prefix, raw)
    } else {
        let t = toks[0];
        if t == "--raw"@ || t == "-r"@ || t == "raw"@ {
            scan_args_spec(toks.drop_first(), limit, prefix, true)
        } else if parse_usize_spec(t) is Some {
            scan_args_spec(toks.drop_first(), parse_usize_spec(t)->Some_0, prefix, raw)
        } else if prefix is None && decode_lit(encode_utf8(t)) is Some {
            scan_args_spec(toks.drop_first(), limit, Some(decode_lit(encode_utf8(t))->Some_0), raw)
        } else {
            scan_args_spec(toks.drop_first(), limit, prefix, raw)
        }
    }
}

/// The command a line of input denotes, resolved against the current path.
pub open spec fn command_spec(toks: Seq<Seq<char>>, cwd: Seq<Seq<char>>) -> CommandModel {
    if toks.len() == 0 {
        CommandModel::Blank
    } else {
        let c = toks[0];
        if c == "help"@ {
            CommandModel::Help
        } else if c == "exit"@ || c == "quit"@ {
            CommandModel::Exit
        } else if c == "pwd"@ {
            CommandModel::Pwd
        } else if c == "cd"@ {
            CommandModel::Cd {
                target: resolve_path_spec(
                    cwd,
                    if toks.len() >= 2 {
                        toks[1]
                    } else {
                        "/"@
                    },
                ),
            }
        } else if c == "ls"@ {
            CommandModel::Ls {
                path: resolve_path_spec(
                    cwd,
                    if toks.len() >= 2 {
                        toks[1]
                    } else {
                        "."@
                    },
                ),
            }
        } else if c == "scan"@ || c == "dump"@ {
            let (limit, prefix, raw) = scan_args_spec(toks.drop_first(), 50, None, false);
            CommandModel::Scan { path: cwd, limit, prefix, raw }
        } else {
            CommandModel::Unknown { name: c }
        }
    }
}

/// Turns one line of input into the command it denotes, resolving paths
/// against the current path. Never fails: an unparsable line is one
/// unknown word, and an empty line is no command.
pub fn parse_command(line: &str, cwd: &Vec<String>) -> (r: Command)
    ensures
        r@ == command_spec(effective_tokens(line@), cwd.deep_view()),
{
    let tokens: Vec<String> = match shell_split_tokens(line) {
        Some(v) => v,
        None => {
            let mut one: Vec<String> = Vec::new();
            one.push(line.to_owned());
            proof {
                assert(one.deep_view() =~= seq![line@]);
            }
            one
        },
    };
    let ghost toks = effective_tokens(line@);
    proof {
        assert(tokens.deep_view() == toks);
    }
    if tokens.len() == 0 {
        return Command::Blank;
    }
    let head = &tokens[0];
    proof {
        assert(head@ == toks[0]);
    }
    if str_eq(head.as_str(), "help") {
        Command::Help
    } else if str_eq(head.as_str(), "exit") || str_eq(head.as_str(), "quit") {
        Command::Exit
    } else if str_eq(head.as_str(), "pwd") {
        Command::Pwd
    } else if str_eq(head.as_str(), "cd") {
        let target = if tokens.len() >= 2 {
            resolve_path(cwd, tokens[1].as_str())
        } else {
            resolve_path(cwd, "/")
        };
        proof {
            if toks.len() >= 2 {
                assert(tokens[1]@ == toks[1]);
            }
        }
        Command::Cd { target }
    } else if str_eq(head.as_str(), "ls") {
        let path = if tokens.len() >= 2 {
            resolve_path(cwd, tokens[1].as_str())
        } else {
            resolve_path(cwd, ".")
        };
        proof {
            if toks.len() >= 2 {
                assert(tokens[1]@ == toks[1]);
            }
        }
        Command::Ls { path }
    } else if str_eq(head.as_str(), "scan") || str_eq(head.as_str(), "dump") {
        let (limit, prefix, raw) = parse_scan_args(&tokens);
        let path = clone_path(cwd);
        Command::Scan { path, limit, prefix, raw }
    } else {
        let name = clone_string(head);
        Command::Unknown { name }
    }
}

fn clone_string(s: &String) -> (r: String)
    ensures
        r@ == s@,
{
    s.clone()
}

/// Reads the scan arguments after the command word.
fn parse_scan_args(tokens: &Vec<String>) -> (r: (usize, Option<Vec<u8>>, bool))
    requires
        tokens@.len() >= 1,
    ensures
        ({
            let (limit, prefix, raw) = scan_args_spec(tokens.deep_view().drop_first(), 50, None, false);
            r.0 as int == limit && opt_bytes_view(r.1) == prefix && r.2 == raw
        }),
{
    let ghost toks = tokens.deep_view().drop_first();
    let mut limit: usize = 50;
    let mut prefix: Option<Vec<u8>> = None;
    let mut raw: bool = false;
    let mut i: usize = 1;
    proof {
        assert(toks.skip(0) =~= toks);
    }
    while i < tokens.len()
        invariant
            1 <= i <= tokens@.len(),
            toks == tokens.deep_view().drop_first(),
            toks.len() == tokens@.len() - 1,
            scan_args_spec(toks, 50, None, false) == scan_args_spec(
                toks.skip(i - 1),
                limit as int,
                opt_bytes_view(prefix),
                raw,
            ),
        decreases tokens@.len() - i,
    {
        let ghost rest = toks.skip(i - 1);
        proof {
            assert(rest[0] == tokens.deep_view()[i as int]);
            assert(tokens@[i as int]@ == tokens.deep_view()[i as int]);
            assert(rest.drop_first() =~= toks.skip(i as int));
        }
        let tok = &tokens[i];
        if str_eq(tok.as_str(), "--raw") || str_eq(tok.as_str(), "-r") || str_eq(
            tok.as_str(),
            "raw",
        ) {
            raw = true;
        } else {
            match parse_usize(tok.as_str()) {
                Some(n) => {
                    limit = n;
                },
                None => {
                    if prefix.is_none() {
                        match crate::byte_literal::parse_bytes_literal(tok.as_str()) {
                            Ok(b) => {
                                prefix = Some(b);
                            },
                            Err(_) => {
                            },
                        }
                    }
                },
            }
        }
        i = i + 1;
    }
    proof {
        assert(toks.skip(toks.len() as int) =~= Seq::<Seq<char>>::empty());
    }
    (limit, prefix, raw)
}

} // verus!
