//! The output nodes of the forest builder: an arena-indexed tree node with
//! ordered children, and a name-keyed node kept for callers that address
//! children by display name.

use vstd::prelude::*;
use vstd::string::*;

use crate::import::opt_str;

verus! {

broadcast use vstd::std_specs::vec::axiom_vec_index_decreases;

/// Spec-level image of one forest node.
#[verifier::ext_equal]
pub ghost struct EndModel {
    pub index: int,
    pub name: Option<Seq<char>>,
    pub neighbor: Seq<EndModel>,
}

/// A renderable forest node: arena index, display name, ordered children.
#[derive(Debug)]
pub struct NeiEndpoint {
    pub index: usize,
    pub name: Option<String>,
    pub neighbor: Vec<NeiEndpoint>,
}

/// The model of one node: its children's models in order.
pub open spec fn nei_model(e: NeiEndpoint) -> EndModel
    decreases e,
{
    let ns = e.neighbor@;
    EndModel {
        index: e.index as int,
        name: opt_str(e.name),
        neighbor: Seq::new(
            ns.len(),
            |i: int|
                if 0 <= i < ns.len() {
                    nei_model(ns[i])
                } else {
                    EndModel { index: 0, name: None, neighbor: Seq::empty() }
                },
        ),
    }
}

impl View for NeiEndpoint {
    type V = EndModel;

    open spec fn view(&self) -> EndModel {
        nei_model(*self)
    }
}

/// What the model of a node holds, field by field.
pub broadcast proof fn lemma_nei_view(e: NeiEndpoint)
    ensures
        (#[trigger] e@).index == e.index as int,
        e@.name == opt_str(e.name),
        e@.neighbor.len() == e.neighbor@.len(),
        forall|i: int| 0 <= i < e.neighbor@.len() ==> e@.neighbor[i] == #[trigger] e.neighbor@[i]@,
{
    let m = nei_model(e);
    assert(m.neighbor.len() == e.neighbor@.len());
}

impl NeiEndpoint {
    /// A childless node.
    pub fn new(index: usize, name: Option<String>) -> (r: Self)
        ensures
            r@ == (EndModel {
                index: index as int,
                name: opt_str(name),
                neighbor: Seq::empty(),
            }),
    {
        let r = NeiEndpoint { index: index, name: name, neighbor: Vec::new() };
        proof {
            assert(r@.neighbor =~= Seq::<EndModel>::empty());
            assert(r@ == EndModel {
                index: index as int,
                name: opt_str(r.name),
                neighbor: r@.neighbor,
            });
        }
        r
    }

    /// Appends one finished subtree as the last child.
    pub fn attach(&mut self, sub_end: NeiEndpoint)
        ensures
            final(self)@ == (EndModel {
                index: old(self)@.index,
                name: old(self)@.name,
                neighbor: old(self)@.neighbor.push(sub_end@),
            }),
    {
        let ghost ov = self.neighbor@;
        let ghost subm = sub_end@;
        self.neighbor.push(sub_end);
        proof {
            let cur = *self;
            let prev = *old(self);
            assert(cur.neighbor@[ov.len() as int]@ == subm);
            assert(cur@.index == cur.index as int);
            assert(cur@.neighbor.len() == cur.neighbor@.len());
            assert forall|i: int| 0 <= i < ov.len() implies cur@.neighbor[i]
                == prev@.neighbor[i] by {
                assert(cur.neighbor@[i] == ov[i]);
                assert(cur@.neighbor[i] == cur.neighbor@[i]@);
                assert(prev@.neighbor[i] == ov[i]@);
            }
            assert(cur@.neighbor[ov.len() as int] == subm);
            assert(cur@.neighbor =~= prev@.neighbor.push(subm));
            assert(cur@ == EndModel {
                index: prev@.index,
                name: prev@.name,
                neighbor: cur@.neighbor,
            });
        }
    }
}

/// First entry of `v` keyed by `name`, `-1` when there is none.
pub open spec fn key_index(v: Seq<(String, Endpoint)>, name: Seq<char>) -> int
    decreases v.len(),
{
    if v.len() == 0 {
        -1
    } else if v.first().0@ == name {
        0
    } else {
        let r = key_index(v.drop_first(), name);
        if r < 0 {
            -1
        } else {
            r + 1
        }
    }
}

/// A node whose children are addressed by display name; attaching a child
/// under a name already present replaces that child.
#[derive(Debug)]
pub struct Endpoint {
    pub name: String,
    pub root: Option<Box<Endpoint>>,
    pub neighbor: Vec<(String, Endpoint)>,
}

proof fn lemma_key_index_value(v: Seq<(String, Endpoint)>, name: Seq<char>, k: int)
    requires
        0 <= k < v.len(),
        v[k].0@ == name,
        forall|j: int| 0 <= j < k ==> (#[trigger] v[j]).0@ != name,
    ensures
        key_index(v, name) == k,
    decreases v.len(),
{
    if k > 0 {
        lemma_key_index_value(v.drop_first(), name, k - 1);
    }
}

proof fn lemma_key_index_none(v: Seq<(String, Endpoint)>, name: Seq<char>)
    requires
        forall|j: int| 0 <= j < v.len() ==> (#[trigger] v[j]).0@ != name,
    ensures
        key_index(v, name) == -1,
    decreases v.len(),
{
    if v.len() > 0 {
        lemma_key_index_none(v.drop_first(), name);
    }
}

impl Endpoint {
    /// A childless named node.
    pub fn new(input: String) -> (r: Self)
        ensures
            r.name == input,
            r.root is None,
            r.neighbor@.len() == 0,
    {
        Endpoint { name: input, root: None, neighbor: Vec::new() }
    }

    /// Files `sub` under its name: replaces the child already keyed by that
    /// name, or appends a new entry.
    pub fn attach(&mut self, sub: Endpoint) -> (r: Result<(), String>)
        ensures
            r is Ok,
            final(self).name == old(self).name,
            final(self).root == old(self).root,
            ({
                let k = key_index(old(self).neighbor@, sub.name@);
                if k < 0 {
                    final(self).neighbor@ =~= old(self).neighbor@.push((sub.name, sub))
                } else {
                    final(self).neighbor@ =~= old(self).neighbor@.update(k, (sub.name, sub))
                }
            }),
    {
        let key = sub.name.clone();
        let mut k: usize = 0;
        let n = self.neighbor.len();
        while k < n
            invariant
                n == self.neighbor@.len(),
                key == sub.name,
                *self == *old(self),
                0 <= k <= n,
                forall|j: int| 0 <= j < k ==> (#[trigger] self.neighbor@[j]).0@ != sub.name@,
            decreases n - k,
        {
            if self.neighbor[k].0 == key {
                proof {
                    lemma_key_index_value(self.neighbor@, sub.name@, k as int);
                }
                self.neighbor[k] = (key, sub);
                return Ok(());
            }
            k += 1;
        }
        proof {
            lemma_key_index_none(self.neighbor@, sub.name@);
        }
        self.neighbor.push((key, sub));
        Ok(())
    }
}

} // verus!
