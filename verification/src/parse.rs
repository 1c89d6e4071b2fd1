//! Turning one raw line into the token list that the engine walks: either
//! the line kept whole, or the line cut at whitespace runs.

use vstd::prelude::*;
use vstd::string::*;

use crate::text::{is_wspace, ws_run_from};

verus! {

/// Length of the leading run of non-whitespace characters.
pub open spec fn nonws_run(s: Seq<char>) -> int
    decreases s.len(),
{
    if s.len() > 0 && !is_wspace(s.first()) {
        1 + nonws_run(s.drop_first())
    } else {
        0
    }
}

pub proof fn lemma_nonws_run(s: Seq<char>)
    ensures
        0 <= nonws_run(s) <= s.len(),
        forall|j: int| 0 <= j < nonws_run(s) ==> !is_wspace(#[trigger] s[j]),
        nonws_run(s) < s.len() ==> is_wspace(s[nonws_run(s)]),
    decreases s.len(),
{
    if s.len() > 0 && !is_wspace(s.first()) {
        lemma_nonws_run(s.drop_first());
        assert forall|j: int| 0 <= j < nonws_run(s) implies !is_wspace(#[trigger] s[j]) by {
            if j >= 1 {
                assert(s[j] == s.drop_first()[j - 1]);
            }
        }
        if nonws_run(s) < s.len() {
            assert(s[nonws_run(s)] == s.drop_first()[nonws_run(s.drop_first())]);
        }
    }
}

/// The maximal non-whitespace runs of `s`, in order.
pub open spec fn spec_ws_tokens(s: Seq<char>) -> Seq<Seq<char>>
    decreases s.len(),
    via spec_ws_tokens_decreases
{
    if s.len() == 0 {
        Seq::empty()
    } else if is_wspace(s.first()) {
        spec_ws_tokens(s.drop_first())
    } else {
        let t = nonws_run(s);
        seq![s.take(t)] + spec_ws_tokens(s.skip(t))
    }
}

#[via_fn]
proof fn spec_ws_tokens_decreases(s: Seq<char>) {
    lemma_nonws_run(s);
}

/// Skipping leading whitespace does not change the token list.
proof fn lemma_tokens_skip_ws(s: Seq<char>, i: int, k: int)
    requires
        0 <= i <= k <= s.len(),
        forall|j: int| i <= j < k ==> is_wspace(#[trigger] s[j]),
    ensures
        spec_ws_tokens(s.skip(i)) == spec_ws_tokens(s.skip(k)),
    decreases k - i,
{
    if i < k {
        assert(s.skip(i).first() == s[i]);
        assert(s.skip(i).drop_first() =~= s.skip(i + 1));
        lemma_tokens_skip_ws(s, i + 1, k);
    }
}

/// First position at or after `off` that holds whitespace; the length of
/// `s` when the rest is all non-whitespace.
fn nonws_scan_from(s: &str, off: usize) -> (r: usize)
    requires
        off <= s@.len(),
    ensures
        off <= r <= s@.len(),
        forall|j: int| off <= j < r ==> !is_wspace(#[trigger] s@[j]),
        r < s@.len() ==> is_wspace(s@[r as int]),
{
    let len = s.unicode_len();
    let mut i = off;
    while i < len
        invariant
            off <= i <= len,
            len == s@.len(),
            forall|j: int| off <= j < i ==> !is_wspace(#[trigger] s@[j]),
        decreases len - i,
    {
        if crate::text::is_ws_char(s.get_char(i)) {
            return i;
        }
        i += 1;
    }
    i
}

/// The whole line as the one member of a fresh token list.
pub fn parse_simple(line: String) -> (r: Vec<String>)
    ensures
        r.deep_view() == seq![line@],
{
    let ghost v = line@;
    let mut out_data: Vec<String> = Vec::new();
    out_data.push(line);
    proof {
        assert(out_data.deep_view() =~= seq![v]);
    }
    out_data
}

/// The line cut into its whitespace-separated tokens.
pub fn parse_simple_vector(line: String) -> (r: Vec<String>)
    ensures
        r.deep_view() == spec_ws_tokens(line@),
{
    let s = line.as_str();
    let len = s.unicode_len();
    let mut out_data: Vec<String> = Vec::new();
    let mut i: usize = 0;
    proof {
        assert(s@.skip(0) =~= s@);
        assert(out_data.deep_view() =~= Seq::<Seq<char>>::empty());
        assert(spec_ws_tokens(s@) =~= out_data.deep_view() + spec_ws_tokens(s@.skip(0)));
    }
    loop
        invariant
            s@ == line@,
            len == s@.len(),
            0 <= i <= len,
            spec_ws_tokens(s@) =~= out_data.deep_view() + spec_ws_tokens(s@.skip(i as int)),
        decreases len - i,
    {
        let a = ws_run_from(s, i);
        proof {
            lemma_tokens_skip_ws(s@, i as int, a as int);
        }
        if a == len {
            proof {
                assert(s@.skip(len as int) =~= Seq::<char>::empty());
                assert(spec_ws_tokens(s@.skip(i as int)) =~= Seq::<Seq<char>>::empty());
                assert(out_data.deep_view() + spec_ws_tokens(s@.skip(i as int))
                    =~= out_data.deep_view());
            }
            return out_data;
        }
        let b = nonws_scan_from(s, a);
        proof {
            let u = s@.skip(a as int);
            lemma_nonws_run(u);
            assert forall|j: int| 0 <= j < b - a implies !is_wspace(#[trigger] u[j]) by {
                assert(u[j] == s@[a + j]);
            }
            assert(b < len ==> is_wspace(u[b - a])) by {
                if b < len {
                    assert(u[b - a] == s@[b as int]);
                }
            };
            assert(nonws_run(u) == b - a) by {
                if nonws_run(u) < b - a {
                    assert(!is_wspace(u[nonws_run(u)]));
                } else if nonws_run(u) > b - a {
                    assert(!is_wspace(u[b - a]));
                }
            };
            assert(u.take(b - a) =~= s@.subrange(a as int, b as int));
            assert(u.skip(b - a) =~= s@.skip(b as int));
        }
        let ghost old_deep = out_data.deep_view();
        let token = String::from_str(s.substring_char(a, b));
        out_data.push(token);
        proof {
            assert(out_data.deep_view() =~= old_deep.push(token@));
            assert(spec_ws_tokens(s@) =~= out_data.deep_view() + spec_ws_tokens(
                s@.skip(b as int),
            ));
        }
        i = b;
    }
}

} // verus!
