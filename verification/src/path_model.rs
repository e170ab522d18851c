//! Canonical representation of a namespace location: parsing slash-separated
//! text into segments, formatting segments back, and resolving text against
//! a base path.
use vstd::prelude::*;

verus! {

use crate::text::push_char;
use vstd::string::*;

/// Splits path text into its non-empty segments, `cur` being the partial
/// segment read so far.
pub open spec fn split_segs(cur: Seq<char>, cs: Seq<char>) -> Seq<Seq<char>>
    decreases cs.len(),
{
    if cs.len() == 0 {
        if cur.len() == 0 {
            Seq::empty()
        } else {
            seq![cur]
        }
    } else if cs[0] == '/' {
        if cur.len() == 0 {
            split_segs(Seq::empty(), cs.drop_first())
        } else {
            seq![cur] + split_segs(Seq::empty(), cs.drop_first())
        }
    } else {
        split_segs(cur.push(cs[0]), cs.drop_first())
    }
}

/// The segments of slash-separated path text: the maximal non-empty runs of
/// characters between `/` separators, so `""` and `"/"` are the root and
/// repeated or trailing separators add nothing.
pub open spec fn parse_path_spec(cs: Seq<char>) -> Seq<Seq<char>> {
    split_segs(Seq::empty(), cs)
}

proof fn lemma_deep_view_push(v: Vec<String>, prev: Vec<String>, item: String)
    requires
        v@ == prev@.push(item),
    ensures
        v.deep_view() == prev.deep_view().push(item@),
{
    assert forall|k: int| 0 <= k < v.deep_view().len() implies v.deep_view()[k]
        == prev.deep_view().push(item@)[k] by {
        if k < prev@.len() {
            assert(v@[k] == prev@[k]);
        } else {
            assert(v@[k] == item);
        }
    }
    assert(v.deep_view() =~= prev.deep_view().push(item@));
}

proof fn lemma_deep_view_drop_last(v: Vec<String>, prev: Vec<String>)
    requires
        prev@.len() > 0,
        v@ == prev@.drop_last(),
    ensures
        v.deep_view() == prev.deep_view().drop_last(),
{
    assert forall|k: int| 0 <= k < v.deep_view().len() implies v.deep_view()[k]
        == prev.deep_view().drop_last()[k] by {
        assert(v@[k] == prev@[k]);
    }
    assert(v.deep_view() =~= prev.deep_view().drop_last());
}

/// Parses slash-separated text into its non-empty segment names; never
/// fails.
pub fn parse_path(s: &str) -> (r: Vec<String>)
    ensures
        r.deep_view() == parse_path_spec(s@),
{
    let n = s.unicode_len();
    let mut out: Vec<String> = Vec::new();
    let mut cur = String::new();
    let mut i: usize = 0;
    proof {
        assert(out.deep_view() =~= Seq::<Seq<char>>::empty());
        assert(s@.skip(0) =~= s@);
        assert(Seq::<Seq<char>>::empty() + split_segs(cur@, s@) =~= split_segs(cur@, s@));
    }
    while i < n
        invariant
            i <= n,
            n == s@.len(),
            parse_path_spec(s@) == out.deep_view() + split_segs(cur@, s@.skip(i as int)),
        decreases n - i,
    {
        let ghost suffix = s@.skip(i as int);
        proof {
            assert(suffix.len() == n - i);
            assert(suffix[0] == s@[i as int]);
            assert(suffix.drop_first() =~= s@.skip(i + 1));
        }
        let c = s.get_char(i);
        if c == '/' {
            if !cur.as_str().is_empty() {
                let ghost prev_out = out;
                let ghost seg = cur;
                out.push(cur);
                cur = String::new();
                proof {
                    lemma_deep_view_push(out, prev_out, seg);
                    assert(split_segs(seg@, suffix) == seq![seg@] + split_segs(
                        Seq::empty(),
                        s@.skip(i + 1),
                    ));
                    assert(prev_out.deep_view() + (seq![seg@] + split_segs(
                        Seq::empty(),
                        s@.skip(i + 1),
                    )) =~= out.deep_view() + split_segs(Seq::empty(), s@.skip(i + 1)));
                    assert(cur@ =~= Seq::<char>::empty());
                }
            } else {
                proof {
                    assert(cur@ =~= Seq::<char>::empty());
                }
            }
        } else {
            push_char(&mut cur, c);
        }
        i = i + 1;
    }
    proof {
        assert(s@.skip(n as int) =~= Seq::<char>::empty());
    }
    if !cur.as_str().is_empty() {
        let ghost prev_out = out;
        let ghost seg = cur;
        out.push(cur);
        proof {
            lemma_deep_view_push(out, prev_out, seg);
            assert(prev_out.deep_view() + seq![seg@] =~= out.deep_view());
        }
        out
    } else {
        proof {
            assert(cur@ =~= Seq::<char>::empty());
            assert(out.deep_view() + Seq::<Seq<char>>::empty() =~= out.deep_view());
        }
        out
    }
}

/// `/`-prefixed rendering of each segment in turn; empty for the root.
pub open spec fn display_join(segs: Seq<Seq<char>>) -> Seq<char>
    decreases segs.len(),
{
    if segs.len() == 0 {
        Seq::empty()
    } else {
        seq!['/'] + segs[0] + display_join(segs.drop_first())
    }
}

/// The textual form of a path: `/` for the root, otherwise `/` before every
/// segment.
pub open spec fn display_path_spec(segs: Seq<Seq<char>>) -> Seq<char> {
    if segs.len() == 0 {
        seq!['/']
    } else {
        display_join(segs)
    }
}

pub broadcast proof fn lemma_display_join_concat(a: Seq<Seq<char>>, b: Seq<Seq<char>>)
    ensures
        #[trigger] display_join(a + b) == display_join(a) + display_join(b),
    decreases a.len(),
{
    if a.len() == 0 {
        assert(a + b =~= b);
        assert(display_join(a) + display_join(b) =~= display_join(b));
    } else {
        assert((a + b).drop_first() =~= a.drop_first() + b);
        lemma_display_join_concat(a.drop_first(), b);
        assert((seq!['/'] + a[0]) + (display_join(a.drop_first()) + display_join(b)) =~= ((
        seq!['/'] + a[0]) + display_join(a.drop_first())) + display_join(b));
        assert(display_join(a + b) =~= display_join(a) + display_join(b));
    }
}

/// Formats a path for display: the root as `/`, every other path as `/`
/// followed by its segments joined with `/`.
pub fn display_path(path: &[String]) -> (r: String)
    ensures
        r@ == display_path_spec(path.deep_view()),
{
    if path.len() == 0 {
        let out = String::from_str("/");
        proof {
            reveal_strlit("/");
            assert(out@ =~= seq!['/']);
        }
        return out;
    }
    let mut out = String::new();
    let mut i: usize = 0;
    proof {
        assert(path.deep_view().take(0) =~= Seq::<Seq<char>>::empty());
    }
    while i < path.len()
        invariant
            i <= path@.len(),
            out@ == display_join(path.deep_view().take(i as int)),
        decreases path@.len() - i,
    {
        out.append("/");
        out.append(path[i].as_str());
        proof {
            reveal_strlit("/");
            assert(("/")@ =~= seq!['/']);
            assert(path@[i as int]@ == path.deep_view()[i as int]);
            lemma_display_join_concat(
                path.deep_view().take(i as int),
                seq![path.deep_view()[i as int]],
            );
            assert(path.deep_view().take(i + 1) =~= path.deep_view().take(i as int) + seq![
                path.deep_view()[i as int],
            ]);
            assert(seq![path.deep_view()[i as int]].drop_first() =~= Seq::<Seq<char>>::empty());
            assert(display_join(Seq::<Seq<char>>::empty()) =~= Seq::<char>::empty());
            assert(display_join(seq![path.deep_view()[i as int]]) =~= seq!['/']
                + path.deep_view()[i as int]);
            assert(out@ =~= display_join(path.deep_view().take(i + 1)));
        }
        i = i + 1;
    }
    proof {
        assert(path.deep_view().take(path@.len() as int) =~= path.deep_view());
    }
    out
}

/// Resolution of user text against a base path: absolute text replaces the
/// base, `.` keeps it, `..` removes its last segment (a no-op at the root),
/// and anything else appends the text's segments.
pub open spec fn resolve_path_spec(base: Seq<Seq<char>>, text: Seq<char>) -> Seq<Seq<char>> {
    if text.len() > 0 && text[0] == '/' {
        parse_path_spec(text)
    } else if text == seq!['.'] {
        base
    } else if text == seq!['.', '.'] {
        if base.len() == 0 {
            base
        } else {
            base.drop_last()
        }
    } else {
        base + parse_path_spec(text)
    }
}

/// Resolves path text against a base path, honouring absolute text, `.` and
/// `..`.
pub fn resolve_path(base: &Vec<String>, text: &str) -> (r: Vec<String>)
    ensures
        r.deep_view() == resolve_path_spec(base.deep_view(), text@),
{
    let n = text.unicode_len();
    if n >= 1 && text.get_char(0) == '/' {
        return parse_path(text);
    }
    if n == 1 && text.get_char(0) == '.' {
        proof {
            assert(text@ =~= seq!['.']);
        }
        return clone_path(base);
    }
    if n == 2 && text.get_char(0) == '.' && text.get_char(1) == '.' {
        proof {
            assert(text@ =~= seq!['.', '.']);
        }
        let mut out = clone_path(base);
        if out.len() > 0 {
            let ghost prev_out = out;
            out.pop();
            proof {
                lemma_deep_view_drop_last(out, prev_out);
            }
        }
        return out;
    }
    proof {
        if text@ == seq!['.'] {
            assert(text@.len() == 1 && text@[0] == '.');
        }
        if text@ == seq!['.', '.'] {
            assert(text@.len() == 2 && text@[0] == '.' && text@[1] == '.');
        }
    }
    let mut out = clone_path(base);
    let rest = parse_path(text);
    let mut j: usize = 0;
    proof {
        assert(rest.deep_view().take(0) =~= Seq::<Seq<char>>::empty());
        assert(base.deep_view() + Seq::<Seq<char>>::empty() =~= base.deep_view());
    }
    while j < rest.len()
        invariant
            j <= rest@.len(),
            out.deep_view() == base.deep_view() + rest.deep_view().take(j as int),
        decreases rest@.len() - j,
    {
        let item = clone_string(&rest[j]);
        let ghost prev_out = out;
        let ghost it = item;
        out.push(item);
        proof {
            lemma_deep_view_push(out, prev_out, it);
            assert(it@ == rest@[j as int]@);
            assert(rest@[j as int]@ == rest.deep_view()[j as int]);
            assert((base.deep_view() + rest.deep_view().take(j as int)).push(
                rest.deep_view()[j as int],
            ) =~= base.deep_view() + rest.deep_view().take(j + 1));
        }
        j = j + 1;
    }
    proof {
        assert(rest.deep_view().take(rest@.len() as int) =~= rest.deep_view());
    }
    out
}

fn clone_string(s: &String) -> (r: String)
    ensures
        r@ == s@,
{
    s.clone()
}

/// Copies a path segment by segment.
pub fn clone_path(path: &Vec<String>) -> (r: Vec<String>)
    ensures
        r.deep_view() == path.deep_view(),
{
    let mut out: Vec<String> = Vec::new();
    let mut i: usize = 0;
    proof {
        assert(path.deep_view().take(0) =~= Seq::<Seq<char>>::empty());
        assert(out.deep_view() =~= Seq::<Seq<char>>::empty());
    }
    while i < path.len()
        invariant
            i <= path@.len(),
            out.deep_view() == path.deep_view().take(i as int),
        decreases path@.len() - i,
    {
        let item = clone_string(&path[i]);
        let ghost prev_out = out;
        let ghost it = item;
        out.push(item);
        proof {
            lemma_deep_view_push(out, prev_out, it);
            assert(it@ == path.deep_view()[i as int]);
            assert(path.deep_view().take(i as int).push(path.deep_view()[i as int])
                =~= path.deep_view().take(i + 1));
        }
        i = i + 1;
    }
    proof {
        assert(path.deep_view().take(path@.len() as int) =~= path.deep_view());
    }
    out
}

} // verus!
