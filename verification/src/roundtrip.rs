//! The round-trip law of the compiled forest: reading the forest's nodes
//! back in depth-first order reproduces the order of the lines they were
//! parsed from.

use vstd::prelude::*;

use crate::content::{
    fresh_items, lemma_table_entries, levels_of, spec_build, spec_build_children, spec_children,
    spec_forest_loop, spec_link_pass, spec_parse_build, spec_resolve_pass, spec_root, zeros,
    ItemModel,
};
use crate::endpoint::EndModel;

verus! {

/// The arena positions of a subtree's nodes, in depth-first preorder.
pub open spec fn preorder_indices(e: EndModel) -> Seq<int>
    decreases e, 1int,
{
    seq![e.index] + preorder_indices_forest(e.neighbor)
}

/// The arena positions of a run of subtrees, in order.
pub open spec fn preorder_indices_forest(es: Seq<EndModel>) -> Seq<int>
    decreases es, 0int,
{
    if es.len() == 0 {
        Seq::empty()
    } else {
        preorder_indices(es.first()) + preorder_indices_forest(es.drop_first())
    }
}

/// The display names of a subtree's nodes, in depth-first preorder.
pub open spec fn preorder_names(e: EndModel) -> Seq<Option<Seq<char>>>
    decreases e, 1int,
{
    seq![e.name] + preorder_names_forest(e.neighbor)
}

/// The display names of a run of subtrees, in order.
pub open spec fn preorder_names_forest(es: Seq<EndModel>) -> Seq<Option<Seq<char>>>
    decreases es, 0int,
{
    if es.len() == 0 {
        Seq::empty()
    } else {
        preorder_names(es.first()) + preorder_names_forest(es.drop_first())
    }
}


proof fn lemma_zeros(n: int)
    requires
        n >= 0,
    ensures
        zeros(n).len() == n,
        forall|j: int| 0 <= j < n ==> zeros(n)[j] == 0,
    decreases n,
{
    if n > 0 {
        lemma_zeros(n - 1);
    }
}

/// With every effective root at the sentinel, the sentinel's children are
/// exactly the positions in ascending order.
proof fn lemma_flat_children_zero(items: Seq<ItemModel>, m: int)
    requires
        1 <= m <= items.len(),
        forall|j: int| 1 <= j < items.len() ==> crate::content::eff_root(items, j) == 0,
    ensures
        spec_children(items, 0, m) =~= Seq::new((m - 1) as nat, |k: int| k + 1),
    decreases m,
{
    if m == 1 {
    } else {
        lemma_flat_children_zero(items, m - 1);
        assert(spec_children(items, 0, m) == spec_children(items, 0, m - 1).push(m - 1));
    }
}

/// With every effective root at the sentinel, no other item gains children.
proof fn lemma_flat_children_other(items: Seq<ItemModel>, r: int, m: int)
    requires
        0 <= m <= items.len(),
        r != 0,
        forall|j: int| 1 <= j < items.len() ==> crate::content::eff_root(items, j) == 0,
    ensures
        spec_children(items, r, m) =~= Seq::<int>::empty(),
    decreases m,
{
    if m > 1 {
        lemma_flat_children_other(items, r, m - 1);
    }
}

/// A node with no listed children builds as a leaf, touching no flags.
proof fn lemma_build_leaf(items: Seq<ItemModel>, j: int, name: Option<Seq<char>>, p: Seq<int>)
    requires
        crate::content::wf_sub_lists(items),
        0 <= j < items.len(),
        items[j].sub_list.len() == 0,
    ensures
        spec_build(items, j, name, p).0 =~= (EndModel {
            index: j,
            name: name,
            neighbor: Seq::empty(),
        }),
        spec_build(items, j, name, p).1 == p,
{
    assert(spec_build_children(items, j, 0, p).0 =~= Seq::<EndModel>::empty());
}

/// Assembling a run of childless, unprocessed items appends one leaf per
/// position, in ascending order.
proof fn lemma_flat_forest(linked: Seq<ItemModel>, idx: int, end: EndModel, p: Seq<int>)
    requires
        crate::content::wf_sub_lists(linked),
        1 <= idx,
        forall|j: int| 1 <= j < linked.len() ==> (#[trigger] linked[j]).sub_list.len() == 0,
        forall|j: int| idx <= j < linked.len() ==> p[j] == 0,
    ensures
        spec_forest_loop(linked, idx, end, p) =~= (EndModel {
            index: end.index,
            name: end.name,
            neighbor: end.neighbor + Seq::new(
                (if idx <= linked.len() {
                    linked.len() - idx
                } else {
                    0
                }) as nat,
                |k: int|
                    EndModel { index: idx + k, name: linked[idx + k].name, neighbor: Seq::empty() },
            ),
        }),
    decreases linked.len() - idx,
{
    if idx >= linked.len() {
        assert(end.neighbor + Seq::new(0, |k: int| EndModel {
            index: idx + k,
            name: linked[idx + k].name,
            neighbor: Seq::empty(),
        }) =~= end.neighbor);
    } else {
        lemma_build_leaf(linked, idx, linked[idx].name, p);
        let leaf = EndModel { index: idx, name: linked[idx].name, neighbor: Seq::empty() };
        let end2 = EndModel { index: end.index, name: end.name, neighbor: end.neighbor.push(leaf) };
        assert(spec_build(linked, idx, linked[idx].name, p).0 == leaf);
        assert(spec_forest_loop(linked, idx, end, p) == spec_forest_loop(linked, idx + 1, end2, p));
        lemma_flat_forest(linked, idx + 1, end2, p);
        assert(end2.neighbor + Seq::new((linked.len() - idx - 1) as nat, |k: int| EndModel {
            index: idx + 1 + k,
            name: linked[idx + 1 + k].name,
            neighbor: Seq::empty(),
        }) =~= end.neighbor + Seq::new((linked.len() - idx) as nat, |k: int| EndModel {
            index: idx + k,
            name: linked[idx + k].name,
            neighbor: Seq::empty(),
        }));
    }
}

/// Preorder over a run of leaves lists their positions and names directly.
proof fn lemma_preorder_leaves(es: Seq<EndModel>)
    requires
        forall|k: int| 0 <= k < es.len() ==> (#[trigger] es[k]).neighbor.len() == 0,
    ensures
        preorder_indices_forest(es) =~= Seq::new(es.len(), |k: int| es[k].index),
        preorder_names_forest(es) =~= Seq::new(es.len(), |k: int| es[k].name),
    decreases es.len(),
{
    if es.len() > 0 {
        assert(es.first().neighbor =~= Seq::<EndModel>::empty());
        assert(preorder_indices(es.first()) =~= seq![es.first().index]);
        assert(preorder_names(es.first()) =~= seq![es.first().name]);
        lemma_preorder_leaves(es.drop_first());
    }
}

/// LAW (top-level outlines): feeding the compiled forest's node names back
/// in depth-first order reproduces the original line order, position for
/// position and name for name. Stated for a fresh arena whose lines all
/// stand at the top level; the ordering of nested subtrees is exercised by
/// the scenario tests.
pub proof fn lemma_round_trip_top_level(items: Seq<ItemModel>)
    requires
        items.len() >= 1,
        fresh_items(items),
        forall|j: int| 0 <= j < items.len() ==> (#[trigger] items[j]).level == 0,
    ensures
        ({
            let forest = spec_parse_build(spec_link_pass(spec_resolve_pass(items)));
            &&& preorder_indices_forest(forest.neighbor) == Seq::new(
                (items.len() - 1) as nat,
                |k: int| k + 1,
            )
            &&& preorder_names_forest(forest.neighbor) == Seq::new(
                (items.len() - 1) as nat,
                |k: int| items[k + 1].name,
            )
        }),
{
    let n = items.len() as int;
    let levels = levels_of(items);
    let resolved = spec_resolve_pass(items);
    let linked = spec_link_pass(resolved);

    assert forall|i: int| 1 <= i < n implies spec_root(levels, i) == 0 by {
        lemma_table_entries(levels, i);
        assert(levels[i] == items[i].level);
    }
    assert forall|j: int| 1 <= j < n implies crate::content::eff_root(resolved, j) == 0 by {
        assert(resolved[j].root == spec_root(levels, j));
        assert(resolved[0].index == items[0].index);
    }

    lemma_flat_children_zero(resolved, n);
    assert forall|j: int| 1 <= j < n implies (#[trigger] linked[j]).sub_list.len() == 0 by {
        lemma_flat_children_other(resolved, j, n);
        assert(linked[j].sub_list =~= resolved[j].sub_list + spec_children(resolved, j, n));
    }
    assert(linked[0].sub_list =~= Seq::new((n - 1) as nat, |k: int| k + 1)) by {
        assert(resolved[0].sub_list.len() == 0);
        assert(resolved[0].sub_list + spec_children(resolved, 0, n) =~= spec_children(
            resolved,
            0,
            n,
        ));
    };

    crate::content::lemma_linked_wf(resolved);

    let forest = spec_parse_build(linked);
    let e0 = EndModel { index: 0, name: Some("root"@), neighbor: Seq::empty() };
    lemma_zeros(linked.len() as int);
    lemma_flat_forest(linked, 1, e0, zeros(linked.len() as int));
    assert(forest.neighbor =~= Seq::new((n - 1) as nat, |k: int| EndModel {
        index: 1 + k,
        name: linked[1 + k].name,
        neighbor: Seq::empty(),
    })) by {
        assert(e0.neighbor + Seq::new((n - 1) as nat, |k: int| EndModel {
            index: 1 + k,
            name: linked[1 + k].name,
            neighbor: Seq::empty(),
        }) =~= Seq::new((n - 1) as nat, |k: int| EndModel {
            index: 1 + k,
            name: linked[1 + k].name,
            neighbor: Seq::empty(),
        }));
    };

    lemma_preorder_leaves(forest.neighbor);
    assert(preorder_indices_forest(forest.neighbor) =~= Seq::new((n - 1) as nat, |k: int| k + 1));
    assert forall|k: int| 0 <= k < n - 1 implies (#[trigger] linked[1 + k]).name == items[k + 1].name by {
        assert(resolved[1 + k].name == items[1 + k].name);
    }
    assert(preorder_names_forest(forest.neighbor) =~= Seq::new(
        (items.len() - 1) as nat,
        |k: int| items[k + 1].name,
    ));
}


/// Every node of the subtree stands at a real arena position and, away from
/// the sentinel, carries the name of the item at that position.
pub open spec fn well_named(e: EndModel, items: Seq<ItemModel>) -> bool
    decreases e,
{
    &&& 0 <= e.index < items.len()
    &&& (e.index != 0 ==> e.name == items[e.index].name)
    &&& forall|k: int| 0 <= k < e.neighbor.len() ==> well_named(#[trigger] e.neighbor[k], items)
}

proof fn lemma_build_well_named(items: Seq<ItemModel>, index: int, processed: Seq<int>)
    requires
        crate::content::wf_sub_lists(items),
        0 <= index < items.len(),
    ensures
        well_named(spec_build(items, index, items[index].name, processed).0, items),
    decreases items.len() - index, 1int, 0int,
{
    lemma_build_children_well_named(items, index, 0, processed);
    let e = spec_build(items, index, items[index].name, processed).0;
    assert(e.neighbor == spec_build_children(items, index, 0, processed).0);
}

proof fn lemma_build_children_well_named(
    items: Seq<ItemModel>,
    index: int,
    k: int,
    processed: Seq<int>,
)
    requires
        crate::content::wf_sub_lists(items),
        0 <= index < items.len(),
        0 <= k <= items[index].sub_list.len(),
    ensures
        forall|q: int|
            0 <= q < spec_build_children(items, index, k, processed).0.len() ==> well_named(
                #[trigger] spec_build_children(items, index, k, processed).0[q],
                items,
            ),
    decreases items.len() - index, 0int, items[index].sub_list.len() - k,
{
    if k < items[index].sub_list.len() {
        let i = items[index].sub_list[k];
        if processed[i] == 1 {
            lemma_build_children_well_named(items, index, k + 1, processed);
            assert(spec_build_children(items, index, k, processed).0 == spec_build_children(
                items,
                index,
                k + 1,
                processed,
            ).0);
        } else {
            lemma_build_well_named(items, i, processed);
            let sub = spec_build(items, i, items[i].name, processed).0;
            let p3 = spec_build(items, i, items[i].name, processed).1.update(i, 1);
            lemma_build_children_well_named(items, index, k + 1, p3);
            let rest = spec_build_children(items, index, k + 1, p3).0;
            assert forall|q: int|
                0 <= q < spec_build_children(items, index, k, processed).0.len() implies well_named(
                #[trigger] spec_build_children(items, index, k, processed).0[q],
                items,
            ) by {
                if q == 0 {
                    assert((seq![sub] + rest)[0] == sub);
                } else {
                    assert((seq![sub] + rest)[q] == rest[q - 1]);
                }
            }
        }
    }
}

proof fn lemma_forest_loop_well_named(
    items: Seq<ItemModel>,
    idx: int,
    end: EndModel,
    p: Seq<int>,
)
    requires
        crate::content::wf_sub_lists(items),
        1 <= idx,
        forall|k: int| 0 <= k < end.neighbor.len() ==> well_named(#[trigger] end.neighbor[k], items),
    ensures
        forall|k: int|
            0 <= k < spec_forest_loop(items, idx, end, p).neighbor.len() ==> well_named(
                #[trigger] spec_forest_loop(items, idx, end, p).neighbor[k],
                items,
            ),
    decreases items.len() - idx,
{
    if idx < items.len() {
        if p[idx] == 0 {
            lemma_build_well_named(items, idx, p);
            let sub = spec_build(items, idx, items[idx].name, p).0;
            let end2 = EndModel {
                index: end.index,
                name: end.name,
                neighbor: end.neighbor.push(sub),
            };
            assert forall|k: int|
                0 <= k < end2.neighbor.len() implies well_named(
                #[trigger] end2.neighbor[k],
                items,
            ) by {
                if k < end.neighbor.len() {
                    assert(end2.neighbor[k] == end.neighbor[k]);
                } else {
                    assert(end2.neighbor[k] == sub);
                }
            }
            lemma_forest_loop_well_named(items, idx + 1, end2, spec_build(
                items,
                idx,
                items[idx].name,
                p,
            ).1);
        } else {
            lemma_forest_loop_well_named(items, idx + 1, end, p);
        }
    }
}

/// LAW (naming): in the assembled forest every subtree under the synthetic
/// sentinel stands at a real arena position and carries the display name of
/// the item at that position, down to the leaves.
pub proof fn lemma_forest_names(items: Seq<ItemModel>)
    requires
        crate::content::wf_sub_lists(items),
    ensures
        forall|k: int|
            0 <= k < spec_parse_build(items).neighbor.len() ==> well_named(
                #[trigger] spec_parse_build(items).neighbor[k],
                items,
            ),
{
    let e0 = EndModel { index: 0, name: Some("root"@), neighbor: Seq::empty() };
    lemma_forest_loop_well_named(items, 1, e0, zeros(items.len() as int));
}


proof fn lemma_forest_loop_ascending(items: Seq<ItemModel>, idx: int, end: EndModel, p: Seq<int>)
    requires
        crate::content::wf_sub_lists(items),
        1 <= idx,
        forall|k: int| 0 <= k < end.neighbor.len() ==> (#[trigger] end.neighbor[k]).index < idx,
        forall|a: int, b: int|
            0 <= a < b < end.neighbor.len() ==> (#[trigger] end.neighbor[a]).index
                < (#[trigger] end.neighbor[b]).index,
    ensures
        forall|a: int, b: int|
            #![trigger spec_forest_loop(items, idx, end, p).neighbor[a], spec_forest_loop(items, idx, end, p).neighbor[b]]
            0 <= a < b < spec_forest_loop(items, idx, end, p).neighbor.len() ==> spec_forest_loop(
                items,
                idx,
                end,
                p,
            ).neighbor[a].index < spec_forest_loop(items, idx, end, p).neighbor[b].index,
    decreases items.len() - idx,
{
    if idx < items.len() {
        if p[idx] == 0 {
            let sub = spec_build(items, idx, items[idx].name, p).0;
            assert(sub.index == idx);
            let end2 = EndModel {
                index: end.index,
                name: end.name,
                neighbor: end.neighbor.push(sub),
            };
            assert forall|k: int|
                0 <= k < end2.neighbor.len() implies (#[trigger] end2.neighbor[k]).index < idx
                + 1 by {
                if k < end.neighbor.len() {
                    assert(end2.neighbor[k] == end.neighbor[k]);
                } else {
                    assert(end2.neighbor[k] == sub);
                }
            }
            assert forall|a: int, b: int|
                #![trigger end2.neighbor[a], end2.neighbor[b]]
                0 <= a < b < end2.neighbor.len() implies end2.neighbor[a].index
                < end2.neighbor[b].index by {
                assert(end2.neighbor[a] == end.neighbor[a]);
                if b < end.neighbor.len() {
                    assert(end2.neighbor[b] == end.neighbor[b]);
                } else {
                    assert(end2.neighbor[b] == sub);
                }
            }
            lemma_forest_loop_ascending(items, idx + 1, end2, spec_build(
                items,
                idx,
                items[idx].name,
                p,
            ).1);
        } else {
            lemma_forest_loop_ascending(items, idx + 1, end, p);
        }
    }
}

/// LAW (sibling order): the subtrees the assembly attaches under the
/// synthetic sentinel stand in strictly ascending arena order.
pub proof fn lemma_forest_top_order(items: Seq<ItemModel>)
    requires
        crate::content::wf_sub_lists(items),
    ensures
        forall|a: int, b: int|
            #![trigger spec_parse_build(items).neighbor[a], spec_parse_build(items).neighbor[b]]
            0 <= a < b < spec_parse_build(items).neighbor.len() ==> spec_parse_build(
                items,
            ).neighbor[a].index < spec_parse_build(items).neighbor[b].index,
{
    let e0 = EndModel { index: 0, name: Some("root"@), neighbor: Seq::empty() };
    lemma_forest_loop_ascending(items, 1, e0, zeros(items.len() as int));
}

} // verus!
