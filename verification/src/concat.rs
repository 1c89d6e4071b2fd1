//! Joining path segments: plain concatenation with an optional separator,
//! and slash-joining a run of segments with a trailing anchor.

use vstd::prelude::*;
use vstd::string::*;

verus! {

/// `p + e + a` when both `p` and `a` are non-empty, `p + a` otherwise.
pub open spec fn spec_raw_concat(p: Seq<char>, e: Seq<char>, a: Seq<char>) -> Seq<char> {
    if p.len() > 0 && a.len() > 0 {
        p + e + a
    } else {
        p + a
    }
}

/// The non-empty members of `parts` joined by `/`, in order.
pub open spec fn spec_slash_join(parts: Seq<Seq<char>>) -> Seq<char>
    decreases parts.len(),
{
    if parts.len() == 0 {
        Seq::empty()
    } else {
        let rest = spec_slash_join(parts.drop_last());
        let last = parts.last();
        if rest.len() > 0 && last.len() > 0 {
            rest + seq!['/'] + last
        } else {
            rest + last
        }
    }
}

/// The leading `count` members of `parts` when that many exist, nothing
/// otherwise (a later segment is never joined without all earlier ones).
pub open spec fn spec_lead_parts(parts: Seq<Seq<char>>, count: int) -> Seq<Seq<char>> {
    if 0 < count <= parts.len() {
        parts.take(count)
    } else {
        Seq::empty()
    }
}

pub struct Concat;

impl Concat {
    /// Concatenates `prefix` and `anchor`, placing `e` between them when
    /// both are non-empty.
    pub fn raw_concat(prefix: String, e: String, anchor: String) -> (r: String)
        ensures
            r@ == spec_raw_concat(prefix@, e@, anchor@),
    {
        if prefix.as_str().unicode_len() > 0 && anchor.as_str().unicode_len() > 0 {
            prefix.concat(e.as_str()).concat(anchor.as_str())
        } else {
            prefix.concat(anchor.as_str())
        }
    }

    /// Joins the first `count` members of `tc0` and then `anchor` with `/`,
    /// never writing a separator beside an empty piece.
    pub fn slash_concat(tc0: &Vec<&str>, count: usize, anchor: String) -> (r: String)
        requires
            count > 1 ==> count <= tc0@.len(),
        ensures
            r@ == spec_slash_join(spec_lead_parts(tc0.deep_view(), count as int).push(anchor@)),
    {
        let ghost parts = tc0.deep_view();
        let ghost lead = spec_lead_parts(parts, count as int);
        if !(tc0.len() >= count && count > 0) {
            proof {
                assert(lead =~= Seq::<Seq<char>>::empty());
                assert(lead.push(anchor@).drop_last() =~= lead);
                assert(spec_slash_join(Seq::<Seq<char>>::empty()) =~= Seq::<char>::empty());
                assert(Seq::<char>::empty() + anchor@ =~= anchor@);
                assert(spec_slash_join(lead.push(anchor@)) == anchor@);
            }
            let r = String::new().concat(anchor.as_str());
            proof {
                assert(Seq::<char>::empty() + anchor@ =~= anchor@);
            }
            return r;
        }
        let mut start = String::from_str(tc0[0]);
        proof {
            assert(spec_slash_join(Seq::<Seq<char>>::empty()) =~= Seq::<char>::empty());
            assert(lead.take(1).drop_last() =~= Seq::<Seq<char>>::empty());
            assert(lead.take(1) =~= seq![parts[0]]);
            assert(lead.take(1).last() == parts[0]);
            assert(Seq::<char>::empty() + parts[0] =~= parts[0]);
            assert(start@ == parts[0]);
            assert(start@ == spec_slash_join(lead.take(1)));
        }
        let mut i: usize = 1;
        while i < count
            invariant
                0 < count <= tc0@.len(),
                parts == tc0.deep_view(),
                lead == spec_lead_parts(parts, count as int),
                1 <= i <= count,
                start@ == spec_slash_join(lead.take(i as int)),
            decreases count - i,
        {
            let ele = tc0[i];
            proof {
                assert(lead.take(i + 1).drop_last() =~= lead.take(i as int));
                assert(lead.take(i + 1).last() == parts[i as int]);
            }
            if start.as_str().unicode_len() > 0 && ele.unicode_len() > 0 {
                start = start.concat("/").concat(ele);
                proof {
                    reveal_strlit("/");
                    assert("/"@ =~= seq!['/']);
                }
            } else {
                start = start.concat(ele);
            }
            i += 1;
        }
        proof {
            assert(lead.take(count as int) =~= lead);
            assert(lead.push(anchor@).drop_last() =~= lead);
        }
        if start.as_str().unicode_len() > 0 && anchor.as_str().unicode_len() > 0 {
            let r = start.concat("/").concat(anchor.as_str());
            proof {
                reveal_strlit("/");
                assert("/"@ =~= seq!['/']);
            }
            r
        } else {
            start.concat(anchor.as_str())
        }
    }
}

} // verus!
