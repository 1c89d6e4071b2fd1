//! Character-sequence helpers shared by the parsers: trimming surrounding
//! whitespace, splitting on a separator, and prefix, suffix and equality
//! tests, each verified against a spec-level model of the operation.

use vstd::prelude::*;
use vstd::string::*;

use crate::find::{sub_at, sub_match_at, Finder};

verus! {

/// An ASCII whitespace character.
pub open spec fn is_wspace(c: char) -> bool {
    c == ' ' || c == '\t' || c == '\n' || c == '\r' || c == '\u{b}' || c == '\u{c}'
}

/// `s` without its leading whitespace run.
pub open spec fn spec_ltrim(s: Seq<char>) -> Seq<char>
    decreases s.len(),
{
    if s.len() > 0 && is_wspace(s.first()) {
        spec_ltrim(s.drop_first())
    } else {
        s
    }
}

/// `s` without its trailing whitespace run.
pub open spec fn spec_rtrim(s: Seq<char>) -> Seq<char>
    decreases s.len(),
{
    if s.len() > 0 && is_wspace(s.last()) {
        spec_rtrim(s.drop_last())
    } else {
        s
    }
}

/// `s` without its leading and trailing whitespace runs.
pub open spec fn spec_trim(s: Seq<char>) -> Seq<char> {
    spec_rtrim(spec_ltrim(s))
}

pub proof fn lemma_ltrim_skip(s: Seq<char>, a: int)
    requires
        0 <= a <= s.len(),
        forall|j: int| 0 <= j < a ==> is_wspace(#[trigger] s[j]),
        a < s.len() ==> !is_wspace(s[a]),
    ensures
        spec_ltrim(s) == s.skip(a),
    decreases a,
{
    if a == 0 {
        assert(s.skip(0) =~= s);
    } else {
        lemma_ltrim_skip(s.drop_first(), a - 1);
        assert(s.drop_first().skip(a - 1) =~= s.skip(a));
    }
}

pub proof fn lemma_rtrim_take(s: Seq<char>, b: int)
    requires
        0 <= b <= s.len(),
        forall|j: int| b <= j < s.len() ==> is_wspace(#[trigger] s[j]),
        b > 0 ==> !is_wspace(s[b - 1]),
    ensures
        spec_rtrim(s) == s.take(b),
    decreases s.len(),
{
    if b == s.len() {
        assert(s.take(b) =~= s);
    } else {
        lemma_rtrim_take(s.drop_last(), b);
        assert(s.drop_last().take(b) =~= s.take(b));
    }
}

/// The leading and trailing runs removed by a trim are whitespace, and what
/// stays neither starts nor ends with whitespace.
pub proof fn lemma_trim_shape(s: Seq<char>)
    ensures
        spec_trim(s).len() <= s.len(),
        spec_trim(s).len() > 0 ==> !is_wspace(spec_trim(s).first()) && !is_wspace(
            spec_trim(s).last(),
        ),
        exists|a: int|
            0 <= a && a + spec_trim(s).len() <= s.len() && spec_trim(s) == #[trigger] s.subrange(
                a,
                a + spec_trim(s).len(),
            ),
    decreases s.len(),
{
    if s.len() > 0 && is_wspace(s.first()) {
        lemma_trim_shape(s.drop_first());
        assert(spec_trim(s) == spec_trim(s.drop_first()));
        let a0 = choose|a: int|
            0 <= a && a + spec_trim(s.drop_first()).len() <= s.drop_first().len() && spec_trim(
                s.drop_first(),
            ) == #[trigger] s.drop_first().subrange(a, a + spec_trim(s.drop_first()).len());
        assert(s.drop_first().subrange(a0, a0 + spec_trim(s).len()) =~= s.subrange(
            a0 + 1,
            a0 + 1 + spec_trim(s).len(),
        ));
    } else {
        lemma_rtrim_shape(s);
        assert(spec_trim(s) == #[trigger] s.subrange(0, 0 + spec_trim(s).len() as int)) by {
            assert(s.take(spec_trim(s).len() as int) =~= s.subrange(
                0,
                0 + spec_trim(s).len() as int,
            ));
        };
    }
}

proof fn lemma_rtrim_shape(s: Seq<char>)
    ensures
        spec_rtrim(s).len() <= s.len(),
        spec_rtrim(s) == s.take(spec_rtrim(s).len() as int),
        spec_rtrim(s).len() > 0 ==> !is_wspace(spec_rtrim(s).last()),
        s.len() > 0 && !is_wspace(s.first()) ==> spec_rtrim(s).len() == 0 || !is_wspace(
            spec_rtrim(s).first(),
        ),
    decreases s.len(),
{
    if s.len() > 0 && is_wspace(s.last()) {
        lemma_rtrim_shape(s.drop_last());
        assert(s.drop_last().take(spec_rtrim(s).len() as int) =~= s.take(
            spec_rtrim(s).len() as int,
        ));
    } else {
        assert(s.take(s.len() as int) =~= s);
    }
}

/// Trimming an already-trimmed sequence changes nothing.
pub proof fn lemma_trim_idempotent(s: Seq<char>)
    ensures
        spec_trim(spec_trim(s)) == spec_trim(s),
{
    lemma_trim_shape(s);
    let t = spec_trim(s);
    if t.len() > 0 {
        lemma_ltrim_skip(t, 0);
        assert(t.skip(0) =~= t);
        lemma_rtrim_take(t, t.len() as int);
        assert(t.take(t.len() as int) =~= t);
    } else {
        assert(spec_ltrim(t) == t);
        assert(spec_rtrim(t) == t);
    }
}

/// Whether `c` is ASCII whitespace.
pub fn is_ws_char(c: char) -> (r: bool)
    ensures
        r == is_wspace(c),
{
    c == ' ' || c == '\t' || c == '\n' || c == '\r' || c == '\u{b}' || c == '\u{c}'
}

/// First position at or after `off` that holds a non-whitespace character;
/// the length of `s` when the rest is all whitespace.
pub(crate) fn ws_run_from(s: &str, off: usize) -> (r: usize)
    requires
        off <= s@.len(),
    ensures
        off <= r <= s@.len(),
        forall|j: int| off <= j < r ==> is_wspace(#[trigger] s@[j]),
        r < s@.len() ==> !is_wspace(s@[r as int]),
{
    let len = s.unicode_len();
    let mut i = off;
    while i < len
        invariant
            off <= i <= len,
            len == s@.len(),
            forall|j: int| off <= j < i ==> is_wspace(#[trigger] s@[j]),
        decreases len - i,
    {
        if !is_ws_char(s.get_char(i)) {
            return i;
        }
        i += 1;
    }
    i
}

/// `s` with leading and trailing ASCII whitespace removed.
pub fn trim_str(s: &str) -> (r: String)
    ensures
        r@ == spec_trim(s@),
{
    let len = s.unicode_len();
    let a = ws_run_from(s, 0);
    proof {
        lemma_ltrim_skip(s@, a as int);
    }
    if a == len {
        proof {
            assert(s@.skip(len as int) =~= Seq::<char>::empty());
        }
        let r = String::new();
        return r;
    }
    let mut b: usize = len;
    while b > a + 1
        invariant
            a < b <= len,
            len == s@.len(),
            !is_wspace(s@[a as int]),
            spec_ltrim(s@) == s@.skip(a as int),
            forall|j: int| b <= j < len ==> is_wspace(#[trigger] s@[j]),
        decreases b,
    {
        if !is_ws_char(s.get_char(b - 1)) {
            proof {
                let u = s@.skip(a as int);
                assert forall|j: int| b - a <= j < u.len() implies is_wspace(#[trigger] u[j]) by {
                    assert(u[j] == s@[a + j]);
                }
                assert(u[b - a - 1] == s@[b - 1]);
                lemma_rtrim_take(u, b - a);
                assert(u.take(b - a) =~= s@.subrange(a as int, b as int));
            }
            return String::from_str(s.substring_char(a, b));
        }
        b -= 1;
    }
    proof {
        let u = s@.skip(a as int);
        assert forall|j: int| b - a <= j < u.len() implies is_wspace(#[trigger] u[j]) by {
            assert(u[j] == s@[a + j]);
        }
        assert(u[0] == s@[a as int]);
        lemma_rtrim_take(u, b - a);
        assert(u.take(b - a) =~= s@.subrange(a as int, b as int));
    }
    String::from_str(s.substring_char(a, b))
}

/// First position in `s` where `pat` occurs, and the length of `s` when it
/// never does (so the caller can treat "missing" as "at the very end").
pub open spec fn find_pat(s: Seq<char>, pat: Seq<char>) -> int
    decreases s.len(),
{
    if sub_at(s, pat, 0) {
        0
    } else if s.len() == 0 {
        -1
    } else {
        let r = find_pat(s.drop_first(), pat);
        if r < 0 {
            -1
        } else {
            r + 1
        }
    }
}

pub proof fn lemma_find_pat(s: Seq<char>, pat: Seq<char>)
    ensures
        find_pat(s, pat) == -1 ==> forall|k: int| !sub_at(s, pat, k),
        find_pat(s, pat) >= 0 ==> sub_at(s, pat, find_pat(s, pat)) && forall|k: int|
            0 <= k < find_pat(s, pat) ==> !sub_at(s, pat, k),
    decreases s.len(),
{
    if !sub_at(s, pat, 0) && s.len() > 0 {
        lemma_find_pat(s.drop_first(), pat);
        assert forall|k: int| 1 <= k && sub_at(s, pat, k) implies sub_at(
            s.drop_first(),
            pat,
            k - 1,
        ) by {
            assert(s.drop_first().subrange(k - 1, k - 1 + pat.len()) =~= s.subrange(
                k,
                k + pat.len(),
            ));
        }
        assert forall|k: int| 0 <= k && sub_at(s.drop_first(), pat, k) implies sub_at(
            s,
            pat,
            k + 1,
        ) by {
            assert(s.subrange(k + 1, k + 1 + pat.len()) =~= s.drop_first().subrange(
                k,
                k + pat.len(),
            ));
        }
    }
}

/// The parts of `s` between successive occurrences of the separator `pat`,
/// searched left to right without overlap; always at least one part.
pub open spec fn spec_split(s: Seq<char>, pat: Seq<char>) -> Seq<Seq<char>>
    decreases s.len(),
    when pat.len() >= 1
    via spec_split_decreases
{
    let f = find_pat(s, pat);
    if f < 0 {
        seq![s]
    } else {
        seq![s.take(f)] + spec_split(s.skip(f + pat.len()), pat)
    }
}

#[via_fn]
proof fn spec_split_decreases(s: Seq<char>, pat: Seq<char>) {
    lemma_find_pat(s, pat);
}

pub proof fn lemma_split_len(s: Seq<char>, pat: Seq<char>)
    requires
        pat.len() >= 1,
    ensures
        spec_split(s, pat).len() >= 1,
{
    let f = find_pat(s, pat);
    if f >= 0 {
        lemma_find_pat(s, pat);
    }
}

/// The parts of `s` between successive occurrences of `pat`.
pub fn split_str(s: &str, pat: &str) -> (r: Vec<String>)
    requires
        pat@.len() >= 1,
    ensures
        r.deep_view() == spec_split(s@, pat@),
        r@.len() >= 1,
{
    let len = s.unicode_len();
    let plen = pat.unicode_len();
    let mut out: Vec<String> = Vec::new();
    let mut cur: usize = 0;
    proof {
        assert(s@.skip(0) =~= s@);
        assert(out.deep_view() =~= Seq::<Seq<char>>::empty());
        assert(spec_split(s@, pat@) =~= out.deep_view() + spec_split(s@.skip(0), pat@));
    }
    loop
        invariant
            plen == pat@.len() >= 1,
            len == s@.len(),
            0 <= cur <= len,
            spec_split(s@, pat@) =~= out.deep_view() + spec_split(s@.skip(cur as int), pat@),
        decreases len - cur,
    {
        let found = Finder::next_sub(s, cur, String::from_str(pat));
        let ghost u = s@.skip(cur as int);
        proof {
            lemma_find_pat(u, pat@);
        }
        match found {
            None => {
                proof {
                    assert(find_pat(u, pat@) == -1) by {
                        if find_pat(u, pat@) >= 0 {
                            assert(sub_at(u, pat@, find_pat(u, pat@)));
                        }
                    };
                    assert(u.take(u.len() as int) =~= u);
                    assert(u =~= s@.subrange(cur as int, len as int));
                }
                let ghost old_deep = out.deep_view();
                let part = String::from_str(s.substring_char(cur, len));
                out.push(part);
                proof {
                    assert(out.deep_view() =~= old_deep.push(part@));
                    assert(spec_split(s@, pat@) =~= out.deep_view());
                }
                return out;
            },
            Some(k) => {
                proof {
                    let f = find_pat(u, pat@);
                    assert(f >= 0) by {
                        if f == -1 {
                            assert(!sub_at(u, pat@, k as int));
                        }
                    };
                    assert(f == k) by {
                        if f < k {
                            assert(!sub_at(u, pat@, f));
                        } else if k < f {
                            assert(!sub_at(u, pat@, k as int));
                        }
                    };
                    assert(u.take(k as int) =~= s@.subrange(cur as int, cur + k));
                    assert(u.skip(k + pat@.len()) =~= s@.skip(cur + k + pat@.len()));
                }
                let ghost old_deep = out.deep_view();
                let part = String::from_str(s.substring_char(cur, cur + k));
                out.push(part);
                cur = cur + k + plen;
                proof {
                    assert(out.deep_view() =~= old_deep.push(part@));
                    assert(spec_split(s@, pat@) =~= out.deep_view() + spec_split(
                        s@.skip(cur as int),
                        pat@,
                    ));
                }
            },
        }
    }
}

/// `s` begins with the characters of `p`.
pub fn has_prefix(s: &str, p: &str) -> (r: bool)
    ensures
        r == (s@.len() >= p@.len() && s@.subrange(0, p@.len() as int) == p@),
{
    let slen = s.unicode_len();
    let plen = p.unicode_len();
    if plen > slen {
        return false;
    }
    sub_match_at(s, 0, p)
}

/// The two slices hold the same characters.
pub fn str_eq(s: &str, t: &str) -> (r: bool)
    ensures
        r == (s@ == t@),
{
    let slen = s.unicode_len();
    let tlen = t.unicode_len();
    if slen != tlen {
        return false;
    }
    let r = sub_match_at(s, 0, t);
    proof {
        assert(s@.subrange(0, t@.len() as int) =~= s@);
    }
    r
}

} // verus!
