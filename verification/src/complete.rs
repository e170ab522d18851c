//! Tab-completion planning: decide from the line being composed whether a
//! command name or a path is being completed, which directory to list for
//! it, and which of the listed names fit.
use vstd::prelude::*;

verus! {

use crate::path_model::clone_path;
use crate::path_model::display_path_spec;
use crate::path_model::display_path;
use crate::path_model::parse_path;
use crate::path_model::parse_path_spec;
use crate::repl_engine::effective_tokens;
use crate::text::push_char;
use crate::text::str_eq;
use vstd::string::*;

/// `p` begins `s`.
pub open spec fn chars_prefix(s: Seq<char>, p: Seq<char>) -> bool {
    p.len() <= s.len() && s.take(p.len() as int) == p
}

fn str_starts_with(s: &str, p: &str) -> (r: bool)
    ensures
        r == chars_prefix(s@, p@),
{
    let sn = s.unicode_len();
    let pn = p.unicode_len();
    if pn > sn {
        return false;
    }
    let mut i: usize = 0;
    while i < pn
        invariant
            i <= pn <= sn,
            pn == p@.len(),
            sn == s@.len(),
            forall|j: int| 0 <= j < i ==> s@[j] == p@[j],
        decreases pn - i,
    {
        if s.get_char(i) != p.get_char(i) {
            proof {
                if chars_prefix(s@, p@) {
                    assert(s@.take(p@.len() as int)[i as int] == s@[i as int]);
                }
            }
            return false;
        }
        i = i + 1;
    }
    proof {
        assert(s@.take(p@.len() as int) =~= p@);
    }
    true
}

/// The names the shell can complete a command word to.
pub open spec fn command_names() -> Seq<Seq<char>> {
    seq!["help"@, "exit"@, "quit"@, "pwd"@, "cd"@, "ls"@, "scan"@]
}

/// The given names that begin with the prefix, in order.
pub open spec fn keep_prefixed(names: Seq<Seq<char>>, p: Seq<char>) -> Seq<Seq<char>>
    decreases names.len(),
{
    if names.len() == 0 {
        Seq::empty()
    } else if chars_prefix(names[0], p) {
        seq![names[0]] + keep_prefixed(names.drop_first(), p)
    } else {
        keep_prefixed(names.drop_first(), p)
    }
}

proof fn lemma_keep_prefixed_concat(a: Seq<Seq<char>>, b: Seq<Seq<char>>, p: Seq<char>)
    ensures
        keep_prefixed(a + b, p) == keep_prefixed(a, p) + keep_prefixed(b, p),
    decreases a.len(),
{
    if a.len() == 0 {
        assert(a + b =~= b);
        assert(keep_prefixed(a, p) + keep_prefixed(b, p) =~= keep_prefixed(b, p));
    } else {
        assert((a + b).drop_first() =~= a.drop_first() + b);
        assert((a + b)[0] == a[0]);
        lemma_keep_prefixed_concat(a.drop_first(), b, p);
        if chars_prefix(a[0], p) {
            assert(seq![a[0]] + (keep_prefixed(a.drop_first(), p) + keep_prefixed(b, p)) =~= (
            seq![a[0]] + keep_prefixed(a.drop_first(), p)) + keep_prefixed(b, p));
        }
        assert(keep_prefixed(a + b, p) =~= keep_prefixed(a, p) + keep_prefixed(b, p));
    }
}

/// The command names that begin with the given prefix, in their usual
/// order.
pub fn command_candidates(prefix: &str) -> (r: Vec<String>)
    ensures
        r.deep_view() == keep_prefixed(command_names(), prefix@),
{
    let mut out: Vec<String> = Vec::new();
    proof {
        assert(out.deep_view() =~= Seq::<Seq<char>>::empty());
        assert(command_names().take(0) =~= Seq::<Seq<char>>::empty());
    }
    push_if_prefixed(&mut out, "help", prefix);
    proof {
        lemma_cmd_step(command_names(), 0, prefix@);
    }
    push_if_prefixed(&mut out, "exit", prefix);
    proof {
        lemma_cmd_step(command_names(), 1, prefix@);
    }
    push_if_prefixed(&mut out, "quit", prefix);
    proof {
        lemma_cmd_step(command_names(), 2, prefix@);
    }
    push_if_prefixed(&mut out, "pwd", prefix);
    proof {
        lemma_cmd_step(command_names(), 3, prefix@);
    }
    push_if_prefixed(&mut out, "cd", prefix);
    proof {
        lemma_cmd_step(command_names(), 4, prefix@);
    }
    push_if_prefixed(&mut out, "ls", prefix);
    proof {
        lemma_cmd_step(command_names(), 5, prefix@);
    }
    push_if_prefixed(&mut out, "scan", prefix);
    proof {
        lemma_cmd_step(command_names(), 6, prefix@);
        assert(command_names().take(7) =~= command_names());
    }
    out
}

/// One step of filtering a fixed name table.
proof fn lemma_cmd_step(names: Seq<Seq<char>>, k: int, p: Seq<char>)
    requires
        0 <= k < names.len(),
    ensures
        keep_prefixed(names.take(k + 1), p) == keep_prefixed(names.take(k), p) + (
        if chars_prefix(names[k], p) {
            seq![names[k]]
        } else {
            Seq::<Seq<char>>::empty()
        }),
{
    assert(names.take(k + 1) =~= names.take(k) + seq![names[k]]);
    lemma_keep_prefixed_concat(names.take(k), seq![names[k]], p);
    assert(seq![names[k]].drop_first() =~= Seq::<Seq<char>>::empty());
    assert(keep_prefixed(Seq::<Seq<char>>::empty(), p) =~= Seq::<Seq<char>>::empty());
    if chars_prefix(names[k], p) {
        assert(keep_prefixed(seq![names[k]], p) =~= seq![names[k]]
            + keep_prefixed(Seq::<Seq<char>>::empty(), p));
        assert(keep_prefixed(seq![names[k]], p) =~= seq![names[k]]);
    } else {
        assert(keep_prefixed(seq![names[k]], p) =~= Seq::<Seq<char>>::empty());
    }
}

fn push_if_prefixed(out: &mut Vec<String>, name: &str, prefix: &str)
    ensures
        final(out).deep_view() == old(out).deep_view() + (if chars_prefix(name@, prefix@) {
            seq![name@]
        } else {
            Seq::<Seq<char>>::empty()
        }),
{
    if str_starts_with(name, prefix) {
        let ghost prev = *out;
        out.push(name.to_owned());
        proof {
            assert forall|k: int| 0 <= k < out.deep_view().len() implies out.deep_view()[k] == (
            prev.deep_view() + seq![name@])[k] by {
                if k < prev@.len() {
                    assert(out@[k] == prev@[k]);
                } else {
                    assert(out@[k]@ == name@);
                }
            }
            assert(out.deep_view() =~= prev.deep_view() + seq![name@]);
        }
    } else {
        proof {
            assert(out.deep_view() + Seq::<Seq<char>>::empty() =~= out.deep_view());
        }
    }
}

/// What the completion hook should do for the line being composed: offer
/// command names, list a directory and offer its children, or nothing.
#[derive(Debug, PartialEq, Eq)]
pub enum CompletionQuery {
    Commands { prefix: String },
    Paths { parent: Vec<String>, needle: String, absolute: bool, add_slash: bool, start: usize },
    Nothing,
}

/// The mathematical shape of a [`CompletionQuery`].
pub enum CompletionQueryModel {
    Commands { prefix: Seq<char> },
    Paths {
        parent: Seq<Seq<char>>,
        needle: Seq<char>,
        absolute: bool,
        add_slash: bool,
        start: int,
    },
    Nothing,
}

impl View for CompletionQuery {
    type V = CompletionQueryModel;

    open spec fn view(&self) -> CompletionQueryModel {
        match self {
            CompletionQuery::Commands { prefix } => CompletionQueryModel::Commands {
                prefix: prefix@,
            },
            CompletionQuery::Paths { parent, needle, absolute, add_slash, start } =>
                CompletionQueryModel::Paths {
                parent: parent.deep_view(),
                needle: needle@,
                absolute: *absolute,
                add_slash: *add_slash,
                start: *start as int,
            },
            CompletionQuery::Nothing => CompletionQueryModel::Nothing,
        }
    }
}

/// The line with leading spaces and tabs removed.
pub open spec fn trim_start_spec(cs: Seq<char>) -> Seq<char>
    decreases cs.len(),
{
    if cs.len() > 0 && (cs[0] == ' ' || cs[0] == '\t') {
        trim_start_spec(cs.drop_first())
    } else {
        cs
    }
}

/// Where the token being completed starts in the line's bytes: right after
/// the last space or tab, or at the beginning.
pub open spec fn token_start(bs: Seq<u8>) -> int
    decreases bs.len(),
{
    if bs.len() == 0 {
        0
    } else if bs.last() == 32 || bs.last() == 9 {
        bs.len() as int
    } else {
        token_start(bs.drop_last())
    }
}

/// The completion that one line calls for: the command word is completed
/// against the command names; the path argument of `cd`, `ls` or `scan` is
/// completed by listing its parent directory and filtering its children by
/// the unfinished segment; any other position completes to nothing.
pub open spec fn completion_query_spec(line: Seq<char>, line_bytes: Seq<u8>, cwd: Seq<Seq<char>>)
    -> CompletionQueryModel {
    let toks = effective_tokens(line);
    let space_term = line.len() > 0 && line.last() == ' ';
    if toks.len() == 0 || (!space_term && toks.len() == 1) {
        CompletionQueryModel::Commands { prefix: trim_start_spec(line) }
    } else if toks[0] == "cd"@ || toks[0] == "ls"@ || toks[0] == "scan"@ {
        let token = if space_term {
            Seq::<char>::empty()
        } else {
            toks.last()
        };
        let absolute = token.len() > 0 && token[0] == '/';
        let base = if absolute {
            parse_path_spec(token)
        } else {
            cwd + parse_path_spec(token)
        };
        let add_slash = token.len() > 0 && token.last() == '/';
        let parent = if add_slash || base.len() == 0 {
            base
        } else {
            base.drop_last()
        };
        let needle = if add_slash || base.len() == 0 {
            Seq::<char>::empty()
        } else {
            base.last()
        };
        CompletionQueryModel::Paths {
            parent,
            needle,
            absolute,
            add_slash,
            start: token_start(line_bytes),
        }
    } else {
        CompletionQueryModel::Nothing
    }
}

/// Plans the completion for the line being composed.
pub fn completion_query(line: &str, cwd: &Vec<String>) -> (r: CompletionQuery)
    ensures
        r@ == completion_query_spec(line@, line.spec_bytes(), cwd.deep_view()),
{
    let tokens: Vec<String> = match crate::repl_engine::shell_split_tokens(line) {
        Some(v) => v,
        None => {
            let mut one: Vec<String> = Vec::new();
            one.push(line.to_owned());
            proof {
                assert(one.deep_view() =~= seq![line@]);
            }
            one
        },
    };
    let ghost toks = effective_tokens(line@);
    proof {
        assert(tokens.deep_view() == toks);
    }
    let n = line.unicode_len();
    let space_term = n > 0 && line.get_char(n - 1) == ' ';
    proof {
        if n > 0 {
            assert(line@.last() == line@[n - 1]);
        }
    }
    if tokens.len() == 0 || (!space_term && tokens.len() == 1) {
        let prefix = trim_start(line);
        return CompletionQuery::Commands { prefix };
    }
    let head = &tokens[0];
    proof {
        assert(head@ == toks[0]);
    }
    if str_eq(head.as_str(), "cd") || str_eq(head.as_str(), "ls") || str_eq(head.as_str(), "scan") {
        let token: String = if space_term {
            String::new()
        } else {
            clone_string(&tokens[tokens.len() - 1])
        };
        proof {
            if !space_term {
                assert(tokens@[tokens@.len() - 1]@ == toks.last());
            }
        }
        let tn = token.as_str().unicode_len();
        let absolute = tn > 0 && token.as_str().get_char(0) == '/';
        let mut base: Vec<String> = if absolute {
            parse_path(token.as_str())
        } else {
            let mut b = clone_path(cwd);
            let rest = parse_path(token.as_str());
            append_paths(&mut b, &rest);
            b
        };
        let add_slash = tn > 0 && token.as_str().get_char(tn - 1) == '/';
        proof {
            if tn > 0 {
                assert(token@.last() == token@[tn - 1]);
            }
        }
        let needle: String = if add_slash || base.len() == 0 {
            String::new()
        } else {
            let ghost prev_base = base;
            let last = match base.pop() {
                Some(s) => s,
                None => String::new(),
            };
            proof {
                lemma_deep_view_pop(base, prev_base);
            }
            last
        };
        let start = find_token_start(line);
        return CompletionQuery::Paths { parent: base, needle, absolute, add_slash, start };
    }
    CompletionQuery::Nothing
}

proof fn lemma_deep_view_pop(v: Vec<String>, prev: Vec<String>)
    requires
        prev@.len() > 0,
        v@ == prev@.drop_last(),
    ensures
        v.deep_view() == prev.deep_view().drop_last(),
{
    assert forall|k: int| 0 <= k < v.deep_view().len() implies v.deep_view()[k]
        == prev.deep_view().drop_last()[k] by {
        assert(v@[k] == prev@[k]);
    }
    assert(v.deep_view() =~= prev.deep_view().drop_last());
}

fn clone_string(s: &String) -> (r: String)
    ensures
        r@ == s@,
{
    s.clone()
}

fn append_paths(dst: &mut Vec<String>, src: &Vec<String>)
    ensures
        final(dst).deep_view() == old(dst).deep_view() + src.deep_view(),
{
    let mut j: usize = 0;
    proof {
        assert(src.deep_view().take(0) =~= Seq::<Seq<char>>::empty());
        assert(old(dst).deep_view() + Seq::<Seq<char>>::empty() =~= old(dst).deep_view());
    }
    while j < src.len()
        invariant
            j <= src@.len(),
            dst.deep_view() == old(dst).deep_view() + src.deep_view().take(j as int),
        decreases src@.len() - j,
    {
        let item = clone_string(&src[j]);
        let ghost prev = *dst;
        dst.push(item);
        proof {
            assert forall|k: int| 0 <= k < dst.deep_view().len() implies dst.deep_view()[k] == (
            prev.deep_view() + seq![src.deep_view()[j as int]])[k] by {
                if k < prev@.len() {
                    assert(dst@[k] == prev@[k]);
                } else {
                    assert(dst@[k]@ == src@[j as int]@);
                }
            }
            assert(dst.deep_view() =~= prev.deep_view() + seq![src.deep_view()[j as int]]);
            assert(old(dst).deep_view() + src.deep_view().take(j as int) + seq![
                src.deep_view()[j as int],
            ] =~= old(dst).deep_view() + src.deep_view().take(j + 1));
        }
        j = j + 1;
    }
    proof {
        assert(src.deep_view().take(src@.len() as int) =~= src.deep_view());
    }
}

fn trim_start(s: &str) -> (r: String)
    ensures
        r@ == trim_start_spec(s@),
{
    let n = s.unicode_len();
    let mut i: usize = 0;
    proof {
        assert(s@.skip(0) =~= s@);
    }
    while i < n && (s.get_char(i) == ' ' || s.get_char(i) == '\t')
        invariant
            i <= n,
            n == s@.len(),
            trim_start_spec(s@) == trim_start_spec(s@.skip(i as int)),
        decreases n - i,
    {
        proof {
            assert(s@.skip(i as int)[0] == s@[i as int]);
            assert(s@.skip(i as int).drop_first() =~= s@.skip(i + 1));
        }
        i = i + 1;
    }
    let mut out = String::new();
    let mut j: usize = i;
    proof {
        let suffix = s@.skip(i as int);
        if suffix.len() > 0 {
            assert(suffix[0] == s@[i as int]);
        }
        assert(trim_start_spec(s@) == s@.skip(i as int));
        assert(out@ + s@.skip(i as int).take(0) =~= out@);
    }
    while j < n
        invariant
            i <= j <= n,
            n == s@.len(),
            trim_start_spec(s@) == s@.skip(i as int),
            out@ == s@.skip(i as int).take(j - i),
        decreases n - j,
    {
        push_char(&mut out, s.get_char(j));
        proof {
            assert(out@ =~= s@.skip(i as int).take(j + 1 - i));
        }
        j = j + 1;
    }
    proof {
        assert(s@.skip(i as int).take(n - i) =~= s@.skip(i as int));
    }
    out
}

fn find_token_start(s: &str) -> (r: usize)
    ensures
        r as int == token_start(s.spec_bytes()),
{
    let bs = s.as_bytes();
    let mut i: usize = bs.len();
    proof {
        assert(bs@.take(bs@.len() as int) =~= bs@);
    }
    while i > 0
        invariant
            i <= bs@.len(),
            bs@ == s.spec_bytes(),
            token_start(s.spec_bytes()) == token_start(bs@.take(i as int)),
        decreases i,
    {
        proof {
            assert(bs@.take(i as int).last() == bs@[i - 1]);
            assert(bs@.take(i as int).drop_last() =~= bs@.take(i - 1));
        }
        if bs[i - 1] == 32 || bs[i - 1] == 9 {
            return i;
        }
        i = i - 1;
    }
    proof {
        assert(bs@.take(0) =~= Seq::<u8>::empty());
    }
    0
}

/// The `(shown, replacement)` pairs for the listed child names that begin
/// with the needle: each shown with a trailing slash, each replacement the
/// text to put into the line — under an absolute token the parent's full
/// path and the name, otherwise the name alone, with a trailing slash kept
/// when the token ended in one.
pub open spec fn path_candidates_spec(
    items: Seq<Seq<char>>,
    needle: Seq<char>,
    parent: Seq<Seq<char>>,
    absolute: bool,
    add_slash: bool,
) -> Seq<(Seq<char>, Seq<char>)>
    decreases items.len(),
{
    if items.len() == 0 {
        Seq::empty()
    } else {
        let rest = path_candidates_spec(items.drop_first(), needle, parent, absolute, add_slash);
        if chars_prefix(items[0], needle) {
            seq![(items[0] + seq!['/'], replacement_spec(items[0], parent, absolute, add_slash))]
                + rest
        } else {
            rest
        }
    }
}

/// The text one candidate name replaces the token with.
pub open spec fn replacement_spec(
    name: Seq<char>,
    parent: Seq<Seq<char>>,
    absolute: bool,
    add_slash: bool,
) -> Seq<char> {
    let tail = if add_slash {
        name + seq!['/']
    } else {
        name
    };
    if absolute {
        let base = if parent.len() == 0 {
            seq!['/']
        } else {
            display_path_spec(parent) + seq!['/']
        };
        base + tail
    } else {
        tail
    }
}

proof fn lemma_path_candidates_concat(
    a: Seq<Seq<char>>,
    b: Seq<Seq<char>>,
    needle: Seq<char>,
    parent: Seq<Seq<char>>,
    absolute: bool,
    add_slash: bool,
)
    ensures
        path_candidates_spec(a + b, needle, parent, absolute, add_slash) == path_candidates_spec(
            a,
            needle,
            parent,
            absolute,
            add_slash,
        ) + path_candidates_spec(b, needle, parent, absolute, add_slash),
    decreases a.len(),
{
    if a.len() == 0 {
        assert(a + b =~= b);
        assert(path_candidates_spec(a, needle, parent, absolute, add_slash)
            + path_candidates_spec(b, needle, parent, absolute, add_slash)
            =~= path_candidates_spec(b, needle, parent, absolute, add_slash));
    } else {
        assert((a + b).drop_first() =~= a.drop_first() + b);
        assert((a + b)[0] == a[0]);
        lemma_path_candidates_concat(a.drop_first(), b, needle, parent, absolute, add_slash);
        if chars_prefix(a[0], needle) {
            let c = (a[0] + seq!['/'], replacement_spec(a[0], parent, absolute, add_slash));
            assert(seq![c] + (path_candidates_spec(a.drop_first(), needle, parent, absolute, add_slash)
                + path_candidates_spec(b, needle, parent, absolute, add_slash)) =~= (seq![c]
                + path_candidates_spec(a.drop_first(), needle, parent, absolute, add_slash))
                + path_candidates_spec(b, needle, parent, absolute, add_slash));
        }
        assert(path_candidates_spec(a + b, needle, parent, absolute, add_slash)
            =~= path_candidates_spec(a, needle, parent, absolute, add_slash)
            + path_candidates_spec(b, needle, parent, absolute, add_slash));
    }
}

fn build_replacement(name: &str, parent: &Vec<String>, absolute: bool, add_slash: bool) -> (r:
    String)
    ensures
        r@ == replacement_spec(name@, parent.deep_view(), absolute, add_slash),
{
    let mut out = String::new();
    if absolute {
        if parent.len() == 0 {
            out.append("/");
            proof {
                reveal_strlit("/");
                assert(out@ =~= seq!['/']);
            }
        } else {
            let base = display_path(parent.as_slice());
            out.append(base.as_str());
            out.append("/");
            proof {
                reveal_strlit("/");
                assert(out@ =~= display_path_spec(parent.deep_view()) + seq!['/']);
            }
        }
    }
    out.append(name);
    if add_slash {
        out.append("/");
        proof {
            reveal_strlit("/");
            assert(out@ =~= replacement_spec(name@, parent.deep_view(), absolute, add_slash));
        }
    } else {
        proof {
            assert(out@ =~= replacement_spec(name@, parent.deep_view(), absolute, add_slash));
        }
    }
    out
}

/// Filters the listed child names by the needle and builds what each shows
/// as and what it replaces the token with.
pub fn path_candidates(
    items: &Vec<String>,
    needle: &str,
    parent: &Vec<String>,
    absolute: bool,
    add_slash: bool,
) -> (r: Vec<(String, String)>)
    ensures
        r.deep_view() == path_candidates_spec(
            items.deep_view(),
            needle@,
            parent.deep_view(),
            absolute,
            add_slash,
        ),
{
    let ghost m = items.deep_view();
    let mut out: Vec<(String, String)> = Vec::new();
    let mut i: usize = 0;
    proof {
        assert(m.take(0) =~= Seq::<Seq<char>>::empty());
        assert(out.deep_view() =~= Seq::<(Seq<char>, Seq<char>)>::empty());
    }
    while i < items.len()
        invariant
            i <= items@.len(),
            m == items.deep_view(),
            m.len() == items@.len(),
            out.deep_view() == path_candidates_spec(
                m.take(i as int),
                needle@,
                parent.deep_view(),
                absolute,
                add_slash,
            ),
        decreases items@.len() - i,
    {
        proof {
            assert(m[i as int] == items@[i as int]@);
            assert(m.take(i + 1) =~= m.take(i as int) + seq![m[i as int]]);
            lemma_path_candidates_concat(
                m.take(i as int),
                seq![m[i as int]],
                needle@,
                parent.deep_view(),
                absolute,
                add_slash,
            );
            assert(seq![m[i as int]].drop_first() =~= Seq::<Seq<char>>::empty());
            assert(path_candidates_spec(
                Seq::<Seq<char>>::empty(),
                needle@,
                parent.deep_view(),
                absolute,
                add_slash,
            ) =~= Seq::<(Seq<char>, Seq<char>)>::empty());
            if chars_prefix(m[i as int], needle@) {
                assert(path_candidates_spec(
                    seq![m[i as int]],
                    needle@,
                    parent.deep_view(),
                    absolute,
                    add_slash,
                ) =~= seq![
                    (m[i as int] + seq!['/'], replacement_spec(
                        m[i as int],
                        parent.deep_view(),
                        absolute,
                        add_slash,
                    )),
                ]);
            } else {
                assert(path_candidates_spec(
                    seq![m[i as int]],
                    needle@,
                    parent.deep_view(),
                    absolute,
                    add_slash,
                ) =~= Seq::<(Seq<char>, Seq<char>)>::empty());
            }
        }
        let name = &items[i];
        if str_starts_with(name.as_str(), needle) {
            let mut shown = clone_string(name);
            shown.append("/");
            proof {
                reveal_strlit("/");
                assert(shown@ =~= m[i as int] + seq!['/']);
            }
            let rep = build_replacement(name.as_str(), parent, absolute, add_slash);
            let ghost prev = out;
            out.push((shown, rep));
            proof {
                assert forall|k: int| 0 <= k < out.deep_view().len() implies out.deep_view()[k]
                    == (prev.deep_view() + seq![
                    (m[i as int] + seq!['/'], replacement_spec(
                        m[i as int],
                        parent.deep_view(),
                        absolute,
                        add_slash,
                    )),
                ])[k] by {
                    if k < prev@.len() {
                        assert(out@[k] == prev@[k]);
                    } else {
                        assert(out@[k].0@ == m[i as int] + seq!['/']);
                        assert(out@[k].1@ == replacement_spec(
                            m[i as int],
                            parent.deep_view(),
                            absolute,
                            add_slash,
                        ));
                    }
                }
                assert(out.deep_view() =~= prev.deep_view() + seq![
                    (m[i as int] + seq!['/'], replacement_spec(
                        m[i as int],
                        parent.deep_view(),
                        absolute,
                        add_slash,
                    )),
                ]);
            }
        } else {
            proof {
                assert(out.deep_view() + Seq::<(Seq<char>, Seq<char>)>::empty()
                    =~= out.deep_view());
            }
        }
        i = i + 1;
    }
    proof {
        assert(m.take(m.len() as int) =~= m);
    }
    out
}

} // verus!
