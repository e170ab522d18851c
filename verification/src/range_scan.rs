//! Byte-range construction for prefix scans: the lexicographic successor of
//! a byte prefix and the half-open `[begin, end)` ranges built from it.
use vstd::prelude::*;

verus! {

use vstd::slice::slice_to_vec;

/// The successor of a byte string: the last byte below `0xFF` is
/// incremented and everything after it dropped. When every byte is `0xFF`
/// there is nothing to increment and the result is the empty string, the
/// sentinel for an unbounded upper end; the empty string itself also maps
/// to that sentinel.
pub open spec fn strinc_spec(bs: Seq<u8>) -> Seq<u8>
    decreases bs.len(),
{
    if bs.len() == 0 {
        Seq::empty()
    } else if bs.last() == 0xFF {
        strinc_spec(bs.drop_last())
    } else {
        bs.drop_last().push((bs.last() + 1) as u8)
    }
}

proof fn lemma_strinc_ff_suffix(bs: Seq<u8>, i: int)
    requires
        0 <= i <= bs.len(),
        forall|j: int| i <= j < bs.len() ==> bs[j] == 0xFF,
    ensures
        strinc_spec(bs) == strinc_spec(bs.take(i)),
    decreases bs.len() - i,
{
    if i == bs.len() {
        assert(bs.take(i) =~= bs);
    } else {
        assert(bs.last() == 0xFF);
        assert(bs.drop_last().take(i) =~= bs.take(i));
        lemma_strinc_ff_suffix(bs.drop_last(), i);
    }
}

/// Computes the lexicographic successor of a byte string, the empty string
/// standing for an unbounded upper end.
pub fn strinc(key: Vec<u8>) -> (r: Vec<u8>)
    ensures
        r@ == strinc_spec(key@),
{
    let ghost orig = key@;
    let mut i: usize = key.len();
    while i > 0
        invariant
            i <= key@.len(),
            key@ == orig,
            forall|j: int| i <= j < key@.len() ==> key@[j] == 0xFF,
        decreases i,
    {
        i = i - 1;
        if key[i] != 0xFF {
            let mut out: Vec<u8> = Vec::new();
            let mut j: usize = 0;
            while j < i
                invariant
                    j <= i < key@.len(),
                    key@ == orig,
                    out@ == orig.take(j as int),
                decreases i - j,
            {
                out.push(key[j]);
                proof {
                    assert(out@ =~= orig.take(j + 1));
                }
                j = j + 1;
            }
            let v: u8 = key[i] + 1;
            out.push(v);
            proof {
                lemma_strinc_ff_suffix(orig, i + 1);
                assert(orig.take(i + 1).len() > 0);
                assert(orig.take(i + 1).last() == orig[i as int]);
                assert(orig.take(i + 1).drop_last() =~= orig.take(i as int));
                assert(strinc_spec(orig.take(i + 1)) == orig.take(i as int).push(
                    (orig[i as int] + 1) as u8,
                ));
                assert(out@ =~= orig.take(i as int).push((orig[i as int] + 1) as u8));
            }
            return out;
        }
    }
    proof {
        lemma_strinc_ff_suffix(orig, 0);
        assert(orig.take(0) =~= Seq::<u8>::empty());
    }
    Vec::new()
}

/// A half-open byte interval `[begin, end)`; an empty `end` stands for an
/// unbounded upper end.
#[derive(Debug, PartialEq, Eq)]
pub struct RangeSpec {
    pub begin: Vec<u8>,
    pub end: Vec<u8>,
}

/// The scan range covering a whole directory prefix.
pub fn directory_range(prefix: &[u8]) -> (r: RangeSpec)
    ensures
        r.begin@ == prefix@,
        r.end@ == strinc_spec(prefix@),
{
    let begin = slice_to_vec(prefix);
    let another = slice_to_vec(prefix);
    let end = strinc(another);
    RangeSpec { begin, end }
}

/// The scan range covering the keys of a directory prefix that continue
/// with the given sub-prefix.
pub fn prefixed_range(prefix: &[u8], sub: &[u8]) -> (r: RangeSpec)
    ensures
        r.begin@ == prefix@ + sub@,
        r.end@ == strinc_spec(prefix@ + sub@),
{
    let mut begin = slice_to_vec(prefix);
    let mut i: usize = 0;
    while i < sub.len()
        invariant
            i <= sub@.len(),
            begin@ == prefix@ + sub@.take(i as int),
        decreases sub@.len() - i,
    {
        begin.push(sub[i]);
        proof {
            assert(begin@ =~= prefix@ + sub@.take(i + 1));
        }
        i = i + 1;
    }
    proof {
        assert(prefix@ + sub@.take(sub@.len() as int) =~= prefix@ + sub@);
    }
    let another = slice_to_vec(begin.as_slice());
    let end = strinc(another);
    RangeSpec { begin, end }
}

/// Strict lexicographic order on byte strings: a proper prefix precedes its
/// extensions, and otherwise the first differing byte decides.
pub open spec fn lex_lt(a: Seq<u8>, b: Seq<u8>) -> bool
    decreases a.len() + b.len(),
{
    if b.len() == 0 {
        false
    } else if a.len() == 0 {
        true
    } else if a[0] < b[0] {
        true
    } else if a[0] > b[0] {
        false
    } else {
        lex_lt(a.drop_first(), b.drop_first())
    }
}

/// Non-strict lexicographic order.
pub open spec fn lex_le(a: Seq<u8>, b: Seq<u8>) -> bool {
    !lex_lt(b, a)
}

/// `p` is a prefix of `s`.
pub open spec fn has_prefix(s: Seq<u8>, p: Seq<u8>) -> bool {
    p.len() <= s.len() && s.take(p.len() as int) == p
}

/// A run of `n` bytes `0xFF`.
pub open spec fn ff_run(n: nat) -> Seq<u8> {
    Seq::new(n, |i: int| 0xFFu8)
}

/// The order is asymmetric, so `lex_le` refines it.
pub proof fn lemma_lex_asymmetric(a: Seq<u8>, b: Seq<u8>)
    ensures
        lex_lt(a, b) ==> !lex_lt(b, a),
    decreases a.len() + b.len(),
{
    if a.len() > 0 && b.len() > 0 && a[0] == b[0] {
        lemma_lex_asymmetric(a.drop_first(), b.drop_first());
    }
}

/// The order is connected: unordered strings are equal.
pub proof fn lemma_lex_connected(a: Seq<u8>, b: Seq<u8>)
    ensures
        !lex_lt(a, b) && !lex_lt(b, a) ==> a == b,
    decreases a.len() + b.len(),
{
    if a.len() > 0 && b.len() > 0 && a[0] == b[0] {
        lemma_lex_connected(a.drop_first(), b.drop_first());
        if !lex_lt(a, b) && !lex_lt(b, a) {
            assert(a.drop_first() == b.drop_first());
            assert(a =~= seq![a[0]] + a.drop_first());
            assert(b =~= seq![b[0]] + b.drop_first());
        }
    }
}

/// Nothing precedes its own prefix.
proof fn lemma_prefix_not_lt(s: Seq<u8>, p: Seq<u8>)
    requires
        has_prefix(s, p),
    ensures
        !lex_lt(s, p),
    decreases p.len(),
{
    if p.len() > 0 && s.len() > 0 {
        assert(s.take(p.len() as int)[0] == s[0]);
        assert(s.drop_first().take(p.len() - 1) =~= s.take(p.len() as int).drop_first());
        lemma_prefix_not_lt(s.drop_first(), p.drop_first());
    }
}

/// A string that does not precede a run of `0xFF` bytes begins with it.
proof fn lemma_ff_run_floor(m: nat, u: Seq<u8>)
    requires
        !lex_lt(u, ff_run(m)),
    ensures
        u.len() >= m,
        u.take(m as int) == ff_run(m),
    decreases m,
{
    if m > 0 {
        assert(ff_run(m).len() > 0);
        assert(u.len() > 0);
        assert(ff_run(m)[0] == 0xFF);
        assert(u[0] == 0xFF) by {
            if u[0] < 0xFF {
                assert(lex_lt(u, ff_run(m)));
            }
        }
        assert(ff_run(m).drop_first() =~= ff_run((m - 1) as nat));
        lemma_ff_run_floor((m - 1) as nat, u.drop_first());
        assert forall|j: int| 0 <= j < m implies u.take(m as int)[j] == ff_run(m)[j] by {
            if j > 0 {
                assert(u.take(m as int)[j] == u.drop_first()[j - 1]);
                assert(u.drop_first().take(m - 1)[j - 1] == ff_run((m - 1) as nat)[j - 1]);
            }
        }
        assert(u.take(m as int) =~= ff_run(m));
    } else {
        assert(u.take(0) =~= ff_run(0));
    }
}

/// A string between `c + [x] + 0xFF…` and `c + [x + 1]` begins with
/// `c + [x] + 0xFF…`.
proof fn lemma_between_has_prefix(c: Seq<u8>, x: u8, m: nat, s: Seq<u8>)
    requires
        x < 0xFF,
        !lex_lt(s, c + seq![x] + ff_run(m)),
        lex_lt(s, c.push((x + 1) as u8)),
    ensures
        has_prefix(s, c + seq![x] + ff_run(m)),
    decreases c.len(),
{
    let b = c + seq![x] + ff_run(m);
    assert(b.len() > 0);
    assert(s.len() > 0);
    if c.len() == 0 {
        assert(b[0] == x);
        assert(c.push((x + 1) as u8) =~= seq![(x + 1) as u8]);
        assert(s[0] <= x) by {
            if s[0] > x {
                assert(seq![(x + 1) as u8].drop_first() =~= Seq::<u8>::empty());
                if s[0] == x + 1 {
                    assert(!lex_lt(s.drop_first(), Seq::<u8>::empty()));
                }
                assert(!lex_lt(s, seq![(x + 1) as u8]));
            }
        }
        assert(s[0] == x) by {
            if s[0] < x {
                assert(lex_lt(s, b));
            }
        }
        assert(b.drop_first() =~= ff_run(m));
        assert(!lex_lt(s.drop_first(), ff_run(m)));
        lemma_ff_run_floor(m, s.drop_first());
        assert forall|j: int| 0 <= j < b.len() implies s.take(b.len() as int)[j] == b[j] by {
            if j > 0 {
                assert(s.take(b.len() as int)[j] == s.drop_first()[j - 1]);
                assert(s.drop_first().take(m as int)[j - 1] == ff_run(m)[j - 1]);
                assert(b[j] == ff_run(m)[j - 1]);
            }
        }
        assert(s.take(b.len() as int) =~= b);
    } else {
        assert(b[0] == c[0]);
        assert(c.push((x + 1) as u8)[0] == c[0]);
        assert(s[0] == c[0]) by {
            if s[0] < c[0] {
                assert(lex_lt(s, b));
            }
            if s[0] > c[0] {
                assert(!lex_lt(s, c.push((x + 1) as u8)));
            }
        }
        let b2 = c.drop_first() + seq![x] + ff_run(m);
        assert(b.drop_first() =~= b2);
        assert(c.push((x + 1) as u8).drop_first() =~= c.drop_first().push((x + 1) as u8));
        lemma_between_has_prefix(c.drop_first(), x, m, s.drop_first());
        assert forall|j: int| 0 <= j < b.len() implies s.take(b.len() as int)[j] == b[j] by {
            if j > 0 {
                assert(s.take(b.len() as int)[j] == s.drop_first()[j - 1]);
                assert(s.drop_first().take(b2.len() as int)[j - 1] == b2[j - 1]);
                assert(b[j] == b2[j - 1]);
            }
        }
        assert(s.take(b.len() as int) =~= b);
    }
}

/// No string shorter than a run of `0xFF` bytes follows it.
proof fn lemma_ff_run_not_lt(n: nat, u: Seq<u8>)
    requires
        u.len() < n,
    ensures
        !lex_lt(ff_run(n), u),
    decreases n,
{
    if u.len() > 0 {
        if u[0] == 0xFF {
            assert(ff_run(n).drop_first() =~= ff_run((n - 1) as nat));
            lemma_ff_run_not_lt((n - 1) as nat, u.drop_first());
        }
    }
}

/// Upper bound: every string with prefix `c + [x] + 0xFF…` precedes
/// `c + [x + 1]`.
proof fn lemma_successor_upper(c: Seq<u8>, x: u8, m: nat, s: Seq<u8>)
    requires
        x < 0xFF,
        has_prefix(s, c + seq![x] + ff_run(m)),
    ensures
        lex_lt(s, c.push((x + 1) as u8)),
    decreases c.len(),
{
    let p = c + seq![x] + ff_run(m);
    if c.len() == 0 {
        assert(p[0] == x);
        assert(s.take(p.len() as int)[0] == s[0]);
        assert(s[0] == x);
        assert(c.push((x + 1) as u8)[0] == x + 1);
    } else {
        assert(p[0] == c[0]);
        assert(s.take(p.len() as int)[0] == s[0]);
        assert(s[0] == c[0]);
        assert(c.push((x + 1) as u8)[0] == c[0]);
        let p2 = c.drop_first() + seq![x] + ff_run(m);
        assert(p.drop_first() =~= p2);
        assert(s.drop_first().take(p2.len() as int) =~= s.take(p.len() as int).drop_first());
        lemma_successor_upper(c.drop_first(), x, m, s.drop_first());
        assert(c.push((x + 1) as u8).drop_first() =~= c.drop_first().push((x + 1) as u8));
    }
}

/// Minimality: a string that follows `c + [x] + 0xFF…0xFF` with as many
/// trailing `0xFF` as it is long cannot precede `c + [x + 1]`.
proof fn lemma_successor_min(c: Seq<u8>, x: u8, m: nat, t: Seq<u8>)
    requires
        x < 0xFF,
        lex_lt(c + seq![x] + ff_run(m + t.len()), t),
    ensures
        !lex_lt(t, c.push((x + 1) as u8)),
    decreases c.len(),
{
    let w = c + seq![x] + ff_run(m + t.len());
    assert(w.len() > 0);
    if t.len() == 0 {
        assert(!lex_lt(w, t));
    } else if c.len() == 0 {
        assert(w[0] == x);
        if t[0] == x {
            assert(w.drop_first() =~= ff_run(m + t.len()));
            lemma_ff_run_not_lt(m + t.len(), t.drop_first());
            assert(!lex_lt(w.drop_first(), t.drop_first()));
            assert(!lex_lt(w, t));
        } else {
            assert(lex_lt(w, t) ==> t[0] > x);
            assert(t[0] >= x + 1);
            assert(c.push((x + 1) as u8) =~= seq![(x + 1) as u8]);
            if t[0] == x + 1 {
                assert(!lex_lt(t.drop_first(), seq![(x + 1) as u8].drop_first()));
            }
        }
    } else {
        assert(w[0] == c[0]);
        assert(c.push((x + 1) as u8)[0] == c[0]);
        if t[0] == c[0] {
            let w2 = c.drop_first() + seq![x] + ff_run(m + 1 + t.drop_first().len());
            assert(w.drop_first() =~= w2);
            lemma_successor_min(c.drop_first(), x, m + 1, t.drop_first());
            assert(c.push((x + 1) as u8).drop_first() =~= c.drop_first().push((x + 1) as u8));
        } else if t[0] < c[0] {
            assert(!lex_lt(w, t));
        } else {
            assert(!lex_lt(t, c.push((x + 1) as u8)));
        }
    }
}

/// The greatest index holding a byte other than `0xFF`.
proof fn last_non_ff_index(b: Seq<u8>) -> (i: int)
    requires
        exists|j: int| 0 <= j < b.len() && b[j] != 0xFF,
    ensures
        0 <= i < b.len(),
        b[i] != 0xFF,
        forall|j: int| i < j < b.len() ==> b[j] == 0xFF,
    decreases b.len(),
{
    if b.last() != 0xFF {
        b.len() - 1
    } else {
        assert(exists|j: int| 0 <= j < b.drop_last().len() && b.drop_last()[j] != 0xFF) by {
            let j = choose|j: int| 0 <= j < b.len() && b[j] != 0xFF;
            assert(j < b.len() - 1);
            assert(b.drop_last()[j] != 0xFF);
        }
        let i = last_non_ff_index(b.drop_last());
        assert(b.drop_last()[i] == b[i]);
        assert(forall|j: int| i < j < b.len() - 1 ==> b[j] == b.drop_last()[j]);
        assert(b[b.len() - 1] == 0xFF);
        i
    }
}

/// Law: for a non-empty byte string `b` with some byte below `0xFF`, the
/// successor of `b` follows every string that has `b` as a prefix, and it
/// precedes (or equals) every string that follows all of them — it is the
/// least upper bound of the set of `b`-prefixed strings.
pub proof fn lemma_successor_least_upper_bound(b: Seq<u8>, s: Seq<u8>, t: Seq<u8>)
    requires
        b.len() > 0,
        exists|j: int| 0 <= j < b.len() && b[j] != 0xFF,
    ensures
        has_prefix(s, b) ==> lex_lt(s, strinc_spec(b)),
        (forall|u: Seq<u8>| has_prefix(u, b) ==> lex_lt(u, t)) ==> lex_le(strinc_spec(b), t),
{
    let i = last_non_ff_index(b);
    let c = b.take(i);
    let x = b[i];
    let m = (b.len() - 1 - i) as nat;
    assert(b =~= c + seq![x] + ff_run(m));
    assert(strinc_spec(b) == c.push((x + 1) as u8)) by {
        lemma_strinc_ff_suffix(b, i + 1);
        assert(b.take(i + 1).last() == x);
        assert(b.take(i + 1).drop_last() =~= c);
        assert(strinc_spec(b.take(i + 1)) == c.push((x + 1) as u8));
    }
    if has_prefix(s, b) {
        lemma_successor_upper(c, x, m, s);
    }
    if forall|u: Seq<u8>| has_prefix(u, b) ==> lex_lt(u, t) {
        let w = b + ff_run(t.len());
        assert(has_prefix(w, b)) by {
            assert(w.take(b.len() as int) =~= b);
        }
        assert(lex_lt(w, t));
        assert(w =~= c + seq![x] + ff_run(m + t.len()));
        lemma_successor_min(c, x, m, t);
    }
}


/// Law: for a non-empty byte string `b` with some byte below `0xFF`, the
/// half-open interval from `b` to its successor holds exactly the strings
/// that have `b` as a prefix — what makes `[begin, end)` scan ranges cover
/// a directory's keys and nothing else.
pub proof fn lemma_range_covers_exactly_prefixed(b: Seq<u8>, s: Seq<u8>)
    requires
        b.len() > 0,
        exists|j: int| 0 <= j < b.len() && b[j] != 0xFF,
    ensures
        has_prefix(s, b) <==> (lex_le(b, s) && lex_lt(s, strinc_spec(b))),
{
    let i = last_non_ff_index(b);
    let c = b.take(i);
    let x = b[i];
    let m = (b.len() - 1 - i) as nat;
    assert(b =~= c + seq![x] + ff_run(m));
    assert(strinc_spec(b) == c.push((x + 1) as u8)) by {
        lemma_strinc_ff_suffix(b, i + 1);
        assert(b.take(i + 1).last() == x);
        assert(b.take(i + 1).drop_last() =~= c);
        assert(strinc_spec(b.take(i + 1)) == c.push((x + 1) as u8));
    }
    if has_prefix(s, b) {
        lemma_prefix_not_lt(s, b);
        lemma_successor_upper(c, x, m, s);
    }
    if lex_le(b, s) && lex_lt(s, strinc_spec(b)) {
        lemma_between_has_prefix(c, x, m, s);
    }
}

} // verus!
