//! Stripping utilities: trailing-character removal, surrounding-quote
//! removal, and a scan past a leading run of one character.

use vstd::prelude::*;
use vstd::string::*;

use crate::find::scan_hit;


verus! {

/// `s` without its surrounding double quotes when it both starts and ends
/// with one; empty when it is too short to hold anything between them;
/// unchanged otherwise.
pub open spec fn spec_colon_strip(s: Seq<char>) -> Seq<char> {
    if s.len() >= 1 && s.first() == '"' && s.last() == '"' {
        if s.len() < 3 {
            Seq::empty()
        } else {
            s.subrange(1, s.len() - 1)
        }
    } else {
        s
    }
}

/// `s` without its trailing run of `label` characters.
pub open spec fn spec_rstrip(s: Seq<char>, label: char) -> Seq<char>
    decreases s.len(),
{
    if s.len() > 0 && s.last() == label {
        spec_rstrip(s.drop_last(), label)
    } else {
        s
    }
}

proof fn lemma_rstrip_take(s: Seq<char>, b: int, label: char)
    requires
        0 <= b <= s.len(),
        forall|j: int| b <= j < s.len() ==> s[j] == label,
        b > 0 ==> s[b - 1] != label,
    ensures
        spec_rstrip(s, label) == s.take(b),
    decreases s.len(),
{
    if b == s.len() {
        assert(s.take(b) =~= s);
    } else {
        lemma_rstrip_take(s.drop_last(), b, label);
        assert(s.drop_last().take(b) =~= s.take(b));
    }
}

pub struct Strip;

impl Strip {
    /// `input` without its trailing run of `label` characters.
    pub fn rstrip(input: String, label: char) -> (r: String)
        ensures
            r@ == spec_rstrip(input@, label),
            r@.len() <= input@.len(),
            r@ == input@.take(r@.len() as int),
            forall|j: int| r@.len() <= j < input@.len() ==> input@[j] == label,
            r@.len() > 0 ==> input@[r@.len() - 1] != label,
    {
        let len = input.as_str().unicode_len();
        let mut tot_len = len;
        while tot_len > 0
            invariant
                0 <= tot_len <= len,
                len == input@.len(),
                forall|j: int| tot_len <= j < len ==> input@[j] == label,
            decreases tot_len,
        {
            if input.as_str().get_char(tot_len - 1) != label {
                let r = String::from_str(input.as_str().substring_char(0, tot_len));
                proof {
                    assert(input@.subrange(0, tot_len as int) =~= input@.take(tot_len as int));
                    lemma_rstrip_take(input@, tot_len as int, label);
                }
                return r;
            }
            tot_len -= 1;
        }
        let r = String::new();
        proof {
            assert(r@ =~= input@.take(0));
            lemma_rstrip_take(input@, 0, label);
        }
        r
    }

    /// Removes the surrounding double quotes of a quoted name.
    pub fn colon_strip(input: String) -> (r: String)
        ensures
            r@ == spec_colon_strip(input@),
    {
        let len = input.as_str().unicode_len();
        let quoted = len >= 1 && input.as_str().get_char(0) == '"' && input.as_str().get_char(
            len - 1,
        ) == '"';
        if !quoted {
            return input;
        }
        if len < 3 {
            let r = String::new();
            return r;
        }
        String::from_str(input.as_str().substring_char(1, len - 1))
    }

    /// Index, relative to `off`, of the first position at or after `off`
    /// whose character fails the scan; the remaining length when none does.
    pub fn next_strip(s: &str, off: usize, target: char, is_equal: bool) -> (r: Result<
        usize,
        String,
    >)
        requires
            off <= s@.len(),
        ensures
            r is Ok,
            off + r->Ok_0 <= s@.len(),
            forall|j: int| off <= j < off + r->Ok_0 ==> scan_hit(#[trigger] s@[j], target, is_equal),
            off + r->Ok_0 < s@.len() ==> !scan_hit(s@[off + r->Ok_0], target, is_equal),
    {
        let len = s.unicode_len();
        let mut i = off;
        while i < len
            invariant
                off <= i <= len,
                len == s@.len(),
                forall|j: int| off <= j < i ==> scan_hit(#[trigger] s@[j], target, is_equal),
            decreases len - i,
        {
            let c = s.get_char(i);
            let hit = if is_equal {
                c == target
            } else {
                c != target
            };
            if !hit {
                return Ok(i - off);
            }
            i += 1;
        }
        Ok(len - off)
    }
}

} // verus!
