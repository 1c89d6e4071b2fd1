//! Position-based scans over a text slice: find the next occurrence or
//! non-occurrence of a character, count a leading run, find a substring.

use vstd::prelude::*;
use vstd::string::*;

verus! {

/// Whether a scanned character counts as a hit: equal to `target` when
/// `is_equal` is set, different from it otherwise.
pub open spec fn scan_hit(c: char, target: char, is_equal: bool) -> bool {
    if is_equal {
        c == target
    } else {
        c != target
    }
}

/// First position at or after `i` whose character compares to `c` as `want`
/// asks (equal when `want`, different otherwise); the length of `s` when
/// none does.
pub open spec fn scan_from(s: Seq<char>, i: int, c: char, want: bool) -> int
    decreases s.len() - i,
    when 0 <= i <= s.len()
{
    if i >= s.len() {
        i
    } else if ((s[i] == c) <==> want) {
        i
    } else {
        scan_from(s, i + 1, c, want)
    }
}

pub proof fn lemma_scan_from_bounds(s: Seq<char>, i: int, c: char, want: bool)
    requires
        0 <= i <= s.len(),
    ensures
        i <= scan_from(s, i, c, want) <= s.len(),
        forall|j: int| i <= j < scan_from(s, i, c, want) ==> (((#[trigger] s[j]) == c) <==> !want),
        scan_from(s, i, c, want) < s.len() ==> ((s[scan_from(s, i, c, want)] == c) <==> want),
    decreases s.len() - i,
{
    if i < s.len() && !((s[i] == c) <==> want) {
        lemma_scan_from_bounds(s, i + 1, c, want);
    }
}

/// A scan that stops exactly where a quantified description says pins the
/// spec-level scan to that position.
pub proof fn lemma_scan_from_value(s: Seq<char>, i: int, c: char, want: bool, r: int)
    requires
        0 <= i <= r <= s.len(),
        forall|j: int| i <= j < r ==> (((#[trigger] s[j]) == c) <==> !want),
        r < s.len() ==> ((s[r] == c) <==> want),
    ensures
        scan_from(s, i, c, want) == r,
    decreases r - i,
{
    if i < r {
        lemma_scan_from_value(s, i + 1, c, want, r);
    }
}

/// A substring equal to `t` starts at position `i` of `s`.
pub open spec fn sub_at(s: Seq<char>, t: Seq<char>, i: int) -> bool {
    0 <= i && i + t.len() <= s.len() && s.subrange(i, i + t.len()) == t
}

/// The characters of `target` all stand in `s` from position `pos` on.
pub(crate) fn sub_match_at(s: &str, pos: usize, target: &str) -> (r: bool)
    requires
        pos + target@.len() <= s@.len(),
    ensures
        r <==> s@.subrange(pos as int, pos + target@.len()) == target@,
{
    let slen = s.unicode_len();
    let tlen = target.unicode_len();
    let mut j: usize = 0;
    while j < tlen
        invariant
            slen == s@.len(),
            pos + tlen <= s@.len(),
            tlen == target@.len(),
            0 <= j <= tlen,
            forall|q: int| 0 <= q < j ==> s@[pos + q] == target@[q],
        decreases tlen - j,
    {
        if s.get_char(pos + j) != target.get_char(j) {
            proof {
                let sub = s@.subrange(pos as int, pos + target@.len());
                if sub == target@ {
                    assert(sub[j as int] == s@[pos + j]);
                }
            }
            return false;
        }
        j += 1;
    }
    proof {
        assert(s@.subrange(pos as int, pos + target@.len()) =~= target@);
    }
    true
}

pub struct Finder;

impl Finder {
    /// Index, relative to `off`, of the first position at or after `off`
    /// whose character hits the scan; the remaining length when none does.
    pub fn next_point(s: &str, off: usize, target: char, is_equal: bool) -> (r: Result<
        usize,
        String,
    >)
        requires
            off <= s@.len(),
        ensures
            r is Ok,
            off + r->Ok_0 <= s@.len(),
            forall|j: int| off <= j < off + r->Ok_0 ==> !scan_hit(#[trigger] s@[j], target, is_equal),
            off + r->Ok_0 < s@.len() ==> scan_hit(s@[off + r->Ok_0], target, is_equal),
    {
        let len = s.unicode_len();
        let mut i = off;
        while i < len
            invariant
                off <= i <= len,
                len == s@.len(),
                forall|j: int| off <= j < i ==> !scan_hit(#[trigger] s@[j], target, is_equal),
            decreases len - i,
        {
            let c = s.get_char(i);
            let hit = if is_equal {
                c == target
            } else {
                c != target
            };
            if hit {
                return Ok(i - off);
            }
            i += 1;
        }
        Ok(len - off)
    }

    /// Position, relative to `off`, of the first occurrence of `target` in
    /// the suffix of `s` that starts at `off`; `None` when it never occurs.
    pub fn next_sub(s: &str, off: usize, target: String) -> (r: Option<usize>)
        requires
            off <= s@.len(),
        ensures
            match r {
                Some(i) => sub_at(s@.skip(off as int), target@, i as int) && forall|k: int|
                    0 <= k < i ==> !sub_at(s@.skip(off as int), target@, k),
                None => forall|k: int| !sub_at(s@.skip(off as int), target@, k),
            },
    {
        let len = s.unicode_len();
        let tlen = target.as_str().unicode_len();
        let ghost u = s@.skip(off as int);
        if tlen > len - off {
            assert(forall|k: int| !sub_at(u, target@, k));
            return None;
        }
        let last = (len - off) - tlen;
        let mut i: usize = 0;
        while i <= last
            invariant
                off <= len == s@.len(),
                tlen == target@.len(),
                last == (len - off) - tlen,
                u == s@.skip(off as int),
                0 <= i <= last,
                forall|k: int| 0 <= k < i ==> !sub_at(u, target@, k),
            decreases last - i,
        {
            let hit = sub_match_at(s, off + i, target.as_str());
            proof {
                assert(u.subrange(i as int, i + tlen) =~= s@.subrange(off + i, off + i + tlen));
            }
            if hit {
                return Some(i);
            }
            assert(!sub_at(u, target@, i as int));
            if i == last {
                assert(forall|k: int| !sub_at(u, target@, k)) by {
                    assert(forall|k: int| last < k ==> !sub_at(u, target@, k));
                };
                return None;
            }
            i += 1;
        }
        None
    }

    /// Length of the leading run of characters that hit the scan.
    pub fn space_count(s: &str, target: char, is_equal: bool) -> (r: usize)
        ensures
            r <= s@.len(),
            forall|j: int| 0 <= j < r ==> scan_hit(#[trigger] s@[j], target, is_equal),
            r < s@.len() ==> !scan_hit(s@[r as int], target, is_equal),
    {
        let len = s.unicode_len();
        let mut count: usize = 0;
        while count < len
            invariant
                0 <= count <= len,
                len == s@.len(),
                forall|j: int| 0 <= j < count ==> scan_hit(#[trigger] s@[j], target, is_equal),
            decreases len - count,
        {
            let c = s.get_char(count);
            let hit = if is_equal {
                c == target
            } else {
                c != target
            };
            if !hit {
                return count;
            }
            count += 1;
        }
        count
    }
}

} // verus!
