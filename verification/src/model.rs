//! The mathematical model of a node tree.
//!
//! Every executable tree type has a view into [`NodeModel`], and every
//! contract of the library is stated over the specification functions of
//! this module: subtree membership ([`in_subtree`]), node lookup by id
//! ([`lookup`]), well-formedness ([`wf`]), and subtree replacement
//! ([`replace_node`]).

use vstd::prelude::*;

verus! {

broadcast use vstd::seq::axiom_seq_index_decreases;

/// The model of one node: its identity, the identity of its parent (unset
/// for a root), its payload, and the models of its children, in order.
pub ghost struct NodeModel {
    pub id: u64,
    pub parent_id: Option<u64>,
    pub some_data: u64,
    pub data: Seq<u64>,
    pub children: Seq<NodeModel>,
}

/// Does the subtree rooted at `m` contain a node with id `x`?
pub open spec fn in_subtree(m: NodeModel, x: u64) -> bool
    decreases m,
{
    x == m.id || exists|k: int|
        0 <= k < m.children.len() && in_subtree(#[trigger] m.children[k], x)
}

/// The set of ids reachable from `m`.
pub open spec fn node_ids(m: NodeModel) -> Set<u64> {
    Set::new(|x: u64| in_subtree(m, x))
}

/// No id occurs in both subtrees.
pub open spec fn sub_disjoint(a: NodeModel, b: NodeModel) -> bool {
    forall|x: u64| !(#[trigger] in_subtree(a, x) && #[trigger] in_subtree(b, x))
}

/// Well-formedness of a subtree: every child records its parent's id,
/// no child subtree reuses the parent's id, distinct child subtrees use
/// disjoint id sets, and each child is itself well-formed.
pub open spec fn wf(m: NodeModel) -> bool
    decreases m,
{
    &&& forall|k: int| 0 <= k < m.children.len() ==> wf(#[trigger] m.children[k])
    &&& forall|k: int|
        0 <= k < m.children.len() ==> (#[trigger] m.children[k]).parent_id == Some(m.id)
    &&& forall|k: int|
        0 <= k < m.children.len() ==> !in_subtree(#[trigger] m.children[k], m.id)
    &&& forall|j: int, k: int|
        0 <= j < k < m.children.len() ==> sub_disjoint(
            #[trigger] m.children[j],
            #[trigger] m.children[k],
        )
}

/// The node with id `x` in the subtree rooted at `m`, if any.
pub open spec fn lookup(m: NodeModel, x: u64) -> Option<NodeModel>
    decreases m,
{
    if x == m.id {
        Some(m)
    } else if exists|k: int|
        0 <= k < m.children.len() && in_subtree(#[trigger] m.children[k], x) {
        let k = choose|k: int|
            0 <= k < m.children.len() && in_subtree(#[trigger] m.children[k], x);
        lookup(m.children[k], x)
    } else {
        None
    }
}

/// `m` with the subtree whose root has id `x` replaced by `r`.
pub open spec fn replace_node(m: NodeModel, x: u64, r: NodeModel) -> NodeModel
    decreases m,
{
    if x == m.id {
        r
    } else {
        NodeModel {
            children: Seq::new(
                m.children.len(),
                |k: int|
                    if 0 <= k < m.children.len() {
                        replace_node(m.children[k], x, r)
                    } else {
                        vstd::pervasive::arbitrary()
                    },
            ),
            ..m
        }
    }
}

/// Every id reachable from `m` is below the bound `b`.
pub open spec fn ids_below(m: NodeModel, b: u64) -> bool {
    forall|x: u64| #[trigger] in_subtree(m, x) ==> x < b
}

/// The number of nodes in the subtree rooted at `m`.
pub open spec fn subtree_size(m: NodeModel) -> nat
    decreases m,
{
    1 + children_size(m.children)
}

/// The number of nodes in a sequence of subtrees.
pub open spec fn children_size(cs: Seq<NodeModel>) -> nat
    decreases cs,
{
    if cs.len() == 0 {
        0
    } else {
        subtree_size(cs[0]) + children_size(cs.subrange(1, cs.len() as int))
    }
}

/// `y` names an ancestor-or-self of the node with id `x` in `m`: a
/// reachable node whose subtree contains `x`.
pub open spec fn on_path(m: NodeModel, x: u64, y: u64) -> bool {
    match lookup(m, y) {
        Some(n) => in_subtree(n, x),
        None => false,
    }
}

/// Lookup succeeds exactly on the ids the subtree contains, and what it
/// finds is a well-formed node carrying the requested id whose own subtree
/// lies inside `m`'s.
pub proof fn lemma_lookup_props(m: NodeModel, x: u64)
    requires
        wf(m),
    ensures
        (lookup(m, x) is Some) == in_subtree(m, x),
        lookup(m, x) matches Some(n) ==> n.id == x && wf(n) && (forall|y: u64|
            #[trigger] in_subtree(n, y) ==> in_subtree(m, y)),
    decreases m,
{
    if x != m.id {
        if exists|k: int| 0 <= k < m.children.len() && in_subtree(#[trigger] m.children[k], x) {
            let k = choose|k: int|
                0 <= k < m.children.len() && in_subtree(#[trigger] m.children[k], x);
            lemma_lookup_props(m.children[k], x);
            if let Some(n) = lookup(m, x) {
                assert forall|y: u64| #[trigger] in_subtree(n, y) implies in_subtree(m, y) by {
                    assert(in_subtree(m.children[k], y));
                }
            }
        }
    }
}

/// When a child's subtree contains `x`, lookup in the parent descends into
/// exactly that child.
pub proof fn lemma_lookup_child(m: NodeModel, x: u64, k: int)
    requires
        wf(m),
        x != m.id,
        0 <= k < m.children.len(),
        in_subtree(m.children[k], x),
    ensures
        lookup(m, x) == lookup(m.children[k], x),
{
    let j = choose|j: int| 0 <= j < m.children.len() && in_subtree(#[trigger] m.children[j], x);
    if j != k {
        assert(sub_disjoint(m.children[if j < k { j } else { k }], m.children[if j < k { k } else { j }]));
    }
}

/// Replacing an id that the subtree does not contain changes nothing.
pub proof fn lemma_replace_absent(m: NodeModel, x: u64, r: NodeModel)
    requires
        !in_subtree(m, x),
    ensures
        replace_node(m, x, r) == m,
    decreases m,
{
    assert forall|k: int| 0 <= k < m.children.len() implies #[trigger] replace_node(
        m,
        x,
        r,
    ).children[k] == m.children[k] by {
        assert(!in_subtree(m.children[k], x));
        lemma_replace_absent(m.children[k], x, r);
        assert(replace_node(m, x, r).children[k] == replace_node(m.children[k], x, r));
    }
    assert(replace_node(m, x, r).children =~= m.children);
}

/// Replacing a subtree by itself changes nothing.
pub proof fn lemma_replace_identity(m: NodeModel, x: u64)
    requires
        wf(m),
        lookup(m, x) is Some,
    ensures
        replace_node(m, x, lookup(m, x)->Some_0) == m,
    decreases m,
{
    lemma_lookup_props(m, x);
    if x != m.id {
        let k = choose|k: int|
            0 <= k < m.children.len() && in_subtree(#[trigger] m.children[k], x);
        lemma_lookup_child(m, x, k);
        let r = lookup(m, x)->Some_0;
        assert forall|j: int| 0 <= j < m.children.len() implies #[trigger] replace_node(
            m,
            x,
            r,
        ).children[j] == m.children[j] by {
            if j == k {
                lemma_replace_identity(m.children[k], x);
            } else {
                assert(sub_disjoint(
                    m.children[if j < k { j } else { k }],
                    m.children[if j < k { k } else { j }],
                ));
                assert(!in_subtree(m.children[j], x));
                lemma_replace_absent(m.children[j], x, r);
            }
            assert(replace_node(m, x, r).children[j] == replace_node(m.children[j], x, r));
        }
        assert(replace_node(m, x, r).children =~= m.children);
    }
}

/// The central replacement lemma.  Replacing the subtree rooted at id `x`
/// by a well-formed subtree `r` that keeps the id `x`, keeps the parent
/// link, and introduces no id already used elsewhere in the tree:
/// preserves well-formedness; keeps the root's id and parent link; makes
/// the reachable ids exactly the old ones minus the replaced subtree's
/// plus `r`'s; resolves every id of `r` inside `r`; and rewrites every
/// node outside the replaced subtree to its own replacement image.
pub proof fn lemma_replace_struct(m: NodeModel, x: u64, r: NodeModel)
    requires
        wf(m),
        in_subtree(m, x),
        wf(r),
        r.id == x,
        r.parent_id == (lookup(m, x)->Some_0).parent_id,
        forall|y: u64| #[trigger] in_subtree(r, y) ==> in_subtree(lookup(m, x)->Some_0, y)
            || !in_subtree(m, y),
    ensures
        wf(replace_node(m, x, r)),
        replace_node(m, x, r).id == m.id,
        replace_node(m, x, r).parent_id == m.parent_id,
        forall|y: u64| #[trigger] in_subtree(replace_node(m, x, r), y) == ((in_subtree(m, y)
            && !in_subtree(lookup(m, x)->Some_0, y)) || in_subtree(r, y)),
        forall|y: u64| #[trigger] in_subtree(r, y) ==> lookup(replace_node(m, x, r), y)
            == lookup(r, y),
        forall|y: u64|
            !in_subtree(lookup(m, x)->Some_0, y) && #[trigger] in_subtree(m, y) ==> lookup(
                replace_node(m, x, r),
                y,
            ) == Some(replace_node(lookup(m, y)->Some_0, x, r)),
    decreases m,
{
    let rep = replace_node(m, x, r);
    let s = lookup(m, x)->Some_0;
    lemma_lookup_props(m, x);
    if x == m.id {
        assert(s == m);
        assert forall|y: u64| #[trigger] in_subtree(rep, y) == ((in_subtree(m, y)
            && !in_subtree(s, y)) || in_subtree(r, y)) by {}
    } else {
        let k0 = choose|k: int|
            0 <= k < m.children.len() && in_subtree(#[trigger] m.children[k], x);
        lemma_lookup_child(m, x, k0);
        let c0 = m.children[k0];
        let c0r = replace_node(c0, x, r);
        lemma_lookup_props(c0, x);
        assert forall|y: u64| #[trigger] in_subtree(r, y) implies in_subtree(
            lookup(c0, x)->Some_0,
            y,
        ) || !in_subtree(c0, y) by {
            if in_subtree(c0, y) {
                assert(in_subtree(m, y));
            }
        }
        lemma_replace_struct(c0, x, r);

        // The untouched siblings are unchanged; child `k0` becomes `c0r`.
        assert forall|k: int|
            0 <= k < m.children.len() && k != k0 implies #[trigger] rep.children[k]
            == m.children[k] by {
            assert(sub_disjoint(
                m.children[if k < k0 { k } else { k0 }],
                m.children[if k < k0 { k0 } else { k }],
            ));
            assert(!in_subtree(m.children[k], x));
            lemma_replace_absent(m.children[k], x, r);
            assert(rep.children[k] == replace_node(m.children[k], x, r));
        }
        assert(rep.children[k0] == c0r);

        // No id of `r` escapes the replaced child except ids from outside `m`.
        assert(!in_subtree(s, m.id));
        assert(!in_subtree(c0r, m.id));

        assert forall|j: int, k: int| 0 <= j < k < m.children.len() implies sub_disjoint(
            #[trigger] rep.children[j],
            #[trigger] rep.children[k],
        ) by {
            assert(sub_disjoint(m.children[j], m.children[k]));
            if j == k0 || k == k0 {
                let other = if j == k0 { k } else { j };
                assert forall|y: u64| !(#[trigger] in_subtree(c0r, y) && #[trigger] in_subtree(
                    m.children[other],
                    y,
                )) by {
                    if in_subtree(c0r, y) && in_subtree(m.children[other], y) {
                        assert(in_subtree(m, y));
                        if in_subtree(r, y) {
                            assert(in_subtree(s, y));
                            assert(in_subtree(c0, y));
                        } else {
                            assert(in_subtree(c0, y));
                        }
                    }
                }
            }
        }
        assert(wf(rep));

        // Reachable-id bookkeeping.
        assert forall|y: u64| #[trigger] in_subtree(rep, y) == ((in_subtree(m, y)
            && !in_subtree(s, y)) || in_subtree(r, y)) by {
            if in_subtree(rep, y) {
                if y != rep.id {
                    let k = choose|k: int|
                        0 <= k < rep.children.len() && in_subtree(#[trigger] rep.children[k], y);
                    if k == k0 {
                        if in_subtree(c0, y) && !in_subtree(s, y) {
                            assert(in_subtree(m, y));
                        }
                    } else {
                        assert(in_subtree(m, y));
                        assert(sub_disjoint(
                            m.children[if k < k0 { k } else { k0 }],
                            m.children[if k < k0 { k0 } else { k }],
                        ));
                        assert(!in_subtree(s, y));
                    }
                } else {
                    assert(in_subtree(m, m.id) && !in_subtree(s, m.id));
                }
            }
            if in_subtree(r, y) {
                assert(in_subtree(c0r, y));
                assert(in_subtree(rep, y));
            }
            if in_subtree(m, y) && !in_subtree(s, y) {
                if y != m.id {
                    let k = choose|k: int|
                        0 <= k < m.children.len() && in_subtree(#[trigger] m.children[k], y);
                    if k == k0 {
                        assert(in_subtree(c0r, y));
                        assert(in_subtree(rep.children[k0], y));
                    } else {
                        assert(in_subtree(rep.children[k], y));
                    }
                    assert(in_subtree(rep, y));
                }
            }
        }

        // Lookups that land inside the replacement.
        assert forall|y: u64| #[trigger] in_subtree(r, y) implies lookup(rep, y) == lookup(
            r,
            y,
        ) by {
            assert(!in_subtree(s, m.id));
            assert(y != m.id);
            assert(in_subtree(c0r, y));
            lemma_lookup_child(rep, y, k0);
        }

        // Lookups outside the replaced subtree.
        assert forall|y: u64| !in_subtree(s, y) && #[trigger] in_subtree(m, y) implies lookup(
            rep,
            y,
        ) == Some(replace_node(lookup(m, y)->Some_0, x, r)) by {
            if y == m.id {
                assert(lookup(m, y) == Some(m));
                assert(lookup(rep, y) == Some(rep));
            } else {
                let kj = choose|k: int|
                    0 <= k < m.children.len() && in_subtree(#[trigger] m.children[k], y);
                lemma_lookup_child(m, y, kj);
                let n = lookup(m, y)->Some_0;
                if kj == k0 {
                    assert(in_subtree(c0, y) && !in_subtree(s, y));
                    assert(in_subtree(c0r, y));
                    lemma_lookup_child(rep, y, k0);
                } else {
                    assert(rep.children[kj] == m.children[kj]);
                    lemma_lookup_child(rep, y, kj);
                    lemma_lookup_props(m.children[kj], y);
                    assert(sub_disjoint(
                        m.children[if kj < k0 { kj } else { k0 }],
                        m.children[if kj < k0 { k0 } else { kj }],
                    ));
                    assert(!in_subtree(n, x));
                    lemma_replace_absent(n, x, r);
                }
            }
        }
    }
}

/// The reachable nodes of `m`, as a map from id to node model.
pub open spec fn node_entries(m: NodeModel) -> Map<u64, NodeModel> {
    Map::new(|y: u64| in_subtree(m, y), |y: u64| lookup(m, y)->Some_0)
}

/// `m` with one more child appended.
pub open spec fn with_child(m: NodeModel, c: NodeModel) -> NodeModel {
    NodeModel { children: m.children.push(c), ..m }
}

/// `m` with the child at position `i` dropped.
pub open spec fn without_child(m: NodeModel, i: int) -> NodeModel {
    NodeModel { children: m.children.remove(i), ..m }
}

/// Lookup is transitive: resolving an id that lies inside a reachable
/// subtree gives the same node as resolving it inside that subtree.
pub proof fn lemma_lookup_nested(m: NodeModel, a: u64, y: u64)
    requires
        wf(m),
        lookup(m, a) is Some,
        in_subtree(lookup(m, a)->Some_0, y),
    ensures
        lookup(m, y) == lookup(lookup(m, a)->Some_0, y),
    decreases m,
{
    let n = lookup(m, a)->Some_0;
    lemma_lookup_props(m, a);
    if a != m.id {
        let k0 = choose|k: int|
            0 <= k < m.children.len() && in_subtree(#[trigger] m.children[k], a);
        lemma_lookup_child(m, a, k0);
        lemma_lookup_props(m.children[k0], a);
        lemma_lookup_nested(m.children[k0], a, y);
        assert(in_subtree(m.children[k0], y));
        assert(y != m.id);
        lemma_lookup_child(m, y, k0);
    }
}

/// Appending a child whose ids are new keeps the tree well-formed and
/// leaves every other lookup unchanged.
pub proof fn lemma_push_child(m: NodeModel, c: NodeModel)
    requires
        wf(m),
        wf(c),
        c.parent_id == Some(m.id),
        forall|y: u64| #[trigger] in_subtree(c, y) ==> !in_subtree(m, y),
    ensures
        wf(with_child(m, c)),
        forall|y: u64| #[trigger] in_subtree(with_child(m, c), y) == (in_subtree(m, y)
            || in_subtree(c, y)),
        forall|y: u64| y != m.id && #[trigger] in_subtree(m, y) ==> lookup(with_child(m, c), y)
            == lookup(m, y),
        forall|y: u64| #[trigger] in_subtree(c, y) ==> lookup(with_child(m, c), y) == lookup(c, y),
{
    let m2 = with_child(m, c);
    let len = m.children.len() as int;
    assert(m2.children[len] == c);
    assert forall|k: int| 0 <= k < len implies #[trigger] m2.children[k] == m.children[k] by {}
    assert(!in_subtree(c, m.id));
    assert forall|j: int, k: int| 0 <= j < k < m2.children.len() implies sub_disjoint(
        #[trigger] m2.children[j],
        #[trigger] m2.children[k],
    ) by {
        if k == len {
            assert forall|y: u64| !(#[trigger] in_subtree(m2.children[j], y)
                && #[trigger] in_subtree(c, y)) by {
                if in_subtree(m.children[j], y) {
                    assert(in_subtree(m, y));
                }
            }
        }
    }
    assert(wf(m2));
    assert forall|y: u64| #[trigger] in_subtree(m2, y) == (in_subtree(m, y) || in_subtree(
        c,
        y,
    )) by {
        if in_subtree(m2, y) && y != m2.id {
            let k = choose|k: int|
                0 <= k < m2.children.len() && in_subtree(#[trigger] m2.children[k], y);
            if k < len {
                assert(in_subtree(m, y));
            }
        }
        if in_subtree(m, y) && y != m.id {
            let k = choose|k: int|
                0 <= k < m.children.len() && in_subtree(#[trigger] m.children[k], y);
            assert(in_subtree(m2.children[k], y));
            assert(in_subtree(m2, y));
        }
        if in_subtree(c, y) {
            assert(in_subtree(m2.children[len], y));
            assert(in_subtree(m2, y));
        }
    }
    assert forall|y: u64| y != m.id && #[trigger] in_subtree(m, y) implies lookup(m2, y) == lookup(
        m,
        y,
    ) by {
        let k = choose|k: int|
            0 <= k < m.children.len() && in_subtree(#[trigger] m.children[k], y);
        lemma_lookup_child(m, y, k);
        assert(in_subtree(m2.children[k], y));
        lemma_lookup_child(m2, y, k);
    }
    assert forall|y: u64| #[trigger] in_subtree(c, y) implies lookup(m2, y) == lookup(c, y) by {
        assert(y != m.id);
        assert(in_subtree(m2.children[len], y));
        lemma_lookup_child(m2, y, len);
    }
}

/// Dropping a child keeps the tree well-formed, removes exactly that
/// child's ids, and leaves every remaining lookup unchanged.
pub proof fn lemma_remove_child(m: NodeModel, i: int)
    requires
        wf(m),
        0 <= i < m.children.len(),
    ensures
        wf(without_child(m, i)),
        forall|y: u64| #[trigger] in_subtree(without_child(m, i), y) == (in_subtree(m, y)
            && !in_subtree(m.children[i], y)),
        forall|y: u64|
            y != m.id && #[trigger] in_subtree(m, y) && !in_subtree(m.children[i], y) ==> lookup(
                without_child(m, i),
                y,
            ) == lookup(m, y),
{
    let m2 = without_child(m, i);
    let len = m.children.len() as int;
    assert forall|k: int| 0 <= k < len - 1 implies #[trigger] m2.children[k] == m.children[
        if k < i {
            k
        } else {
            k + 1
        }
    ] by {}
    assert(wf(m2)) by {
        assert forall|j: int, k: int| 0 <= j < k < m2.children.len() implies sub_disjoint(
            #[trigger] m2.children[j],
            #[trigger] m2.children[k],
        ) by {
            let j0 = if j < i { j } else { j + 1 };
            let k0 = if k < i { k } else { k + 1 };
            assert(sub_disjoint(m.children[j0], m.children[k0]));
        }
    }
    assert forall|y: u64| #[trigger] in_subtree(m2, y) == (in_subtree(m, y) && !in_subtree(
        m.children[i],
        y,
    )) by {
        if in_subtree(m2, y) && y != m.id {
            let k = choose|k: int|
                0 <= k < m2.children.len() && in_subtree(#[trigger] m2.children[k], y);
            let k0 = if k < i { k } else { k + 1 };
            assert(in_subtree(m.children[k0], y));
            assert(in_subtree(m, y));
            assert(sub_disjoint(
                m.children[if k0 < i { k0 } else { i }],
                m.children[if k0 < i { i } else { k0 }],
            ));
        }
        if in_subtree(m, y) && !in_subtree(m.children[i], y) && y != m.id {
            let k = choose|k: int|
                0 <= k < m.children.len() && in_subtree(#[trigger] m.children[k], y);
            let k2 = if k < i { k } else { k - 1 };
            assert(in_subtree(m2.children[k2], y));
            assert(in_subtree(m2, y));
        }
    }
    assert forall|y: u64|
        y != m.id && #[trigger] in_subtree(m, y) && !in_subtree(m.children[i], y) implies lookup(
        m2,
        y,
    ) == lookup(m, y) by {
        let k = choose|k: int|
            0 <= k < m.children.len() && in_subtree(#[trigger] m.children[k], y);
        lemma_lookup_child(m, y, k);
        let k2 = if k < i { k } else { k - 1 };
        assert(in_subtree(m2.children[k2], y));
        lemma_lookup_child(m2, y, k2);
    }
}

/// Two nodes that differ only in payload or parent link have the same
/// reachable ids below them and the same lookups for every other id.
pub proof fn lemma_same_children(m: NodeModel, m2: NodeModel)
    requires
        m2.id == m.id,
        m2.children == m.children,
    ensures
        wf(m2) == wf(m),
        forall|y: u64| #[trigger] in_subtree(m2, y) == in_subtree(m, y),
        forall|y: u64| y != m.id ==> #[trigger] lookup(m2, y) == lookup(m, y),
{
}

/// The copy relation of a deep copy: the copy has the same payloads and
/// arity as the source, all ids of the copy are fresh ones drawn from the
/// half-open range `[lo, hi)`, the copy is well-formed, and the top of the
/// copy carries the given parent link.
pub open spec fn copy_rel(src: NodeModel, out: NodeModel, lo: u64, hi: u64, parent: Option<u64>) -> bool
    decreases src,
{
    &&& out.some_data == src.some_data
    &&& out.data == src.data
    &&& out.parent_id == parent
    &&& lo <= out.id < hi
    &&& forall|y: u64| #[trigger] in_subtree(out, y) ==> lo <= y < hi
    &&& wf(out)
    &&& out.children.len() == src.children.len()
    &&& forall|k: int|
        0 <= k < src.children.len() ==> copy_rel(
            #[trigger] src.children[k],
            out.children[k],
            lo,
            hi,
            Some(out.id),
        )
}

/// The reachable nodes of a sequence of subtrees with disjoint id sets,
/// as one map from id to node model.
pub open spec fn children_entries(ms: Seq<NodeModel>) -> Map<u64, NodeModel> {
    Map::new(
        |y: u64| exists|k: int| 0 <= k < ms.len() && in_subtree(#[trigger] ms[k], y),
        |y: u64|
            {
                let k = choose|k: int| 0 <= k < ms.len() && in_subtree(#[trigger] ms[k], y);
                lookup(ms[k], y)->Some_0
            },
    )
}

/// No subtrees: no entries.
pub proof fn lemma_children_entries_empty()
    ensures
        children_entries(Seq::<NodeModel>::empty()) == Map::<u64, NodeModel>::empty(),
{
    assert(children_entries(Seq::<NodeModel>::empty()) =~= Map::<u64, NodeModel>::empty());
}

/// Appending one more disjoint subtree adds exactly its entries.
pub proof fn lemma_children_entries_push(ms: Seq<NodeModel>, n: NodeModel)
    requires
        forall|j: int, k: int| 0 <= j < k < ms.len() ==> sub_disjoint(
            #[trigger] ms[j],
            #[trigger] ms[k],
        ),
        forall|k: int| 0 <= k < ms.len() ==> sub_disjoint(#[trigger] ms[k], n),
    ensures
        children_entries(ms.push(n)) == children_entries(ms).union_prefer_right(node_entries(n)),
{
    let ms2 = ms.push(n);
    let len = ms.len() as int;
    assert forall|y: u64| true implies #[trigger] children_entries(ms2).contains_key(y)
        == children_entries(ms).union_prefer_right(node_entries(n)).contains_key(y) by {
        if in_subtree(n, y) {
            assert(ms2[len] == n);
            assert(children_entries(ms2).contains_key(y));
        }
        if exists|k: int| 0 <= k < ms.len() && in_subtree(#[trigger] ms[k], y) {
            let k = choose|k: int| 0 <= k < ms.len() && in_subtree(#[trigger] ms[k], y);
            assert(ms2[k] == ms[k]);
            assert(children_entries(ms2).contains_key(y));
        }
        if children_entries(ms2).contains_key(y) {
            let k = choose|k: int| 0 <= k < ms2.len() && in_subtree(#[trigger] ms2[k], y);
            if k < len {
                assert(in_subtree(ms[k], y));
            } else {
                assert(in_subtree(n, y));
            }
        }
    }
    assert forall|y: u64| children_entries(ms2).contains_key(y) implies #[trigger] children_entries(
        ms2,
    )[y] == children_entries(ms).union_prefer_right(node_entries(n))[y] by {
        let k = choose|k: int| 0 <= k < ms2.len() && in_subtree(#[trigger] ms2[k], y);
        if in_subtree(n, y) {
            // `y` cannot also lie in one of the earlier subtrees.
            assert forall|j: int| 0 <= j < len implies !in_subtree(#[trigger] ms[j], y) by {
                assert(sub_disjoint(ms[j], n));
            }
            assert(k == len);
        } else {
            assert(k < len);
            assert(in_subtree(ms[k], y));
            let k1 = choose|k1: int| 0 <= k1 < ms.len() && in_subtree(#[trigger] ms[k1], y);
            if k1 != k {
                assert(sub_disjoint(
                    ms[if k1 < k { k1 } else { k }],
                    ms[if k1 < k { k } else { k1 }],
                ));
            }
            assert(children_entries(ms)[y] == lookup(ms[k], y)->Some_0);
        }
    }
    assert(children_entries(ms2) =~= children_entries(ms).union_prefer_right(node_entries(n)));
}

/// The entries of a well-formed subtree are its own binding plus the
/// entries of its children.
pub proof fn lemma_node_entries_assemble(m: NodeModel)
    requires
        wf(m),
    ensures
        node_entries(m) == children_entries(m.children).insert(m.id, m),
{
    assert forall|y: u64| #[trigger] in_subtree(m, y) implies node_entries(m)[y]
        == children_entries(m.children).insert(m.id, m)[y] && children_entries(
        m.children,
    ).insert(m.id, m).contains_key(y) by {
        if y == m.id {
            assert(lookup(m, y) == Some(m));
        } else {
            let k = choose|k: int|
                0 <= k < m.children.len() && in_subtree(#[trigger] m.children[k], y);
            lemma_lookup_child(m, y, k);
            let k1 = choose|k1: int|
                0 <= k1 < m.children.len() && in_subtree(#[trigger] m.children[k1], y);
            if k1 != k {
                assert(sub_disjoint(
                    m.children[if k1 < k { k1 } else { k }],
                    m.children[if k1 < k { k } else { k1 }],
                ));
            }
            assert(children_entries(m.children)[y] == lookup(m.children[k], y)->Some_0);
            assert(y != m.id);
        }
    }
    assert forall|y: u64| #[trigger] children_entries(m.children).insert(m.id, m).contains_key(y)
        implies in_subtree(m, y) by {
        if y != m.id {
            let k = choose|k: int|
                0 <= k < m.children.len() && in_subtree(#[trigger] m.children[k], y);
            assert(in_subtree(m, y));
        }
    }
    assert(node_entries(m) =~= children_entries(m.children).insert(m.id, m));
}

/// Splitting off the first subtree of a suffix.
pub proof fn lemma_children_size_split(cs: Seq<NodeModel>, i: int)
    requires
        0 <= i < cs.len(),
    ensures
        children_size(cs.subrange(i, cs.len() as int)) == subtree_size(cs[i]) + children_size(
            cs.subrange(i + 1, cs.len() as int),
        ),
{
    let tail = cs.subrange(i, cs.len() as int);
    assert(tail[0] == cs[i]);
    assert(tail.subrange(1, tail.len() as int) =~= cs.subrange(i + 1, cs.len() as int));
}

/// Every reachable node other than the top carries a parent link.
pub proof fn lemma_non_top_has_parent(m: NodeModel, y: u64)
    requires
        wf(m),
        in_subtree(m, y),
        y != m.id,
    ensures
        lookup(m, y) is Some,
        lookup(m, y)->Some_0.parent_id is Some,
    decreases m,
{
    lemma_lookup_props(m, y);
    let k = choose|k: int| 0 <= k < m.children.len() && in_subtree(#[trigger] m.children[k], y);
    lemma_lookup_child(m, y, k);
    if y != m.children[k].id {
        lemma_non_top_has_parent(m.children[k], y);
    }
}

/// Every reachable node other than the top records its parent: the
/// parent is itself reachable, and the node is one of the parent's
/// children.
pub proof fn lemma_parent_link(m: NodeModel, y: u64)
    requires
        wf(m),
        in_subtree(m, y),
        y != m.id,
    ensures
        lookup(m, y) is Some,
        lookup(m, y)->Some_0.parent_id is Some,
        in_subtree(m, lookup(m, y)->Some_0.parent_id->Some_0),
        lookup(m, lookup(m, y)->Some_0.parent_id->Some_0) is Some,
        exists|k: int|
            0 <= k < lookup(m, lookup(m, y)->Some_0.parent_id->Some_0)->Some_0.children.len()
                && lookup(m, lookup(m, y)->Some_0.parent_id->Some_0)->Some_0.children[k] == lookup(
                m,
                y,
            )->Some_0,
    decreases m,
{
    lemma_lookup_props(m, y);
    let k = choose|k: int| 0 <= k < m.children.len() && in_subtree(#[trigger] m.children[k], y);
    lemma_lookup_child(m, y, k);
    if y == m.children[k].id {
        assert(lookup(m.children[k], y) == Some(m.children[k]));
        assert(lookup(m, m.id) == Some(m));
    } else {
        lemma_parent_link(m.children[k], y);
        let n = lookup(m.children[k], y)->Some_0;
        let p = n.parent_id->Some_0;
        assert(in_subtree(m.children[k], p));
        assert(in_subtree(m, p));
        assert(p != m.id);
        lemma_lookup_child(m, p, k);
    }
}

/// Structural sharing under replacement: a node that lies neither below
/// the replaced subtree nor on the path from the top to it resolves to
/// exactly the same node value after the replacement.
pub proof fn lemma_replace_preserves_off_path(m: NodeModel, x: u64, r: NodeModel, y: u64)
    requires
        wf(m),
        in_subtree(m, x),
        wf(r),
        r.id == x,
        r.parent_id == (lookup(m, x)->Some_0).parent_id,
        forall|z: u64| #[trigger] in_subtree(r, z) ==> in_subtree(lookup(m, x)->Some_0, z)
            || !in_subtree(m, z),
        in_subtree(m, y),
        !in_subtree(lookup(m, x)->Some_0, y),
        !on_path(m, x, y),
    ensures
        lookup(replace_node(m, x, r), y) == lookup(m, y),
{
    lemma_replace_struct(m, x, r);
    lemma_lookup_props(m, y);
    let n = lookup(m, y)->Some_0;
    assert(!in_subtree(n, x));
    lemma_replace_absent(n, x, r);
    assert(lookup(replace_node(m, x, r), y) == Some(replace_node(n, x, r)));
}

/// Ancestor rewriting under replacement: a node on the path from the
/// top to the replaced subtree becomes a fresh value that keeps its
/// identity, its parent link, its payload, and its number of children.
pub proof fn lemma_replace_rewrites_ancestors(m: NodeModel, x: u64, r: NodeModel, y: u64)
    requires
        wf(m),
        in_subtree(m, x),
        wf(r),
        r.id == x,
        r.parent_id == (lookup(m, x)->Some_0).parent_id,
        forall|z: u64| #[trigger] in_subtree(r, z) ==> in_subtree(lookup(m, x)->Some_0, z)
            || !in_subtree(m, z),
        on_path(m, x, y),
        y != x,
        !in_subtree(lookup(m, x)->Some_0, y),
    ensures
        lookup(replace_node(m, x, r), y) is Some,
        ({
            let before = lookup(m, y)->Some_0;
            let after = lookup(replace_node(m, x, r), y)->Some_0;
            &&& after.id == before.id
            &&& after.parent_id == before.parent_id
            &&& after.some_data == before.some_data
            &&& after.data == before.data
            &&& after.children.len() == before.children.len()
        }),
{
    lemma_replace_struct(m, x, r);
    lemma_lookup_props(m, y);
    let n = lookup(m, y)->Some_0;
    assert(lookup(replace_node(m, x, r), y) == Some(replace_node(n, x, r)));
    assert(n.id == y);
    assert(y != x);
}

/// A copy drawn from a narrow id range is also a copy for a wider range.
pub proof fn lemma_copy_rel_widen(
    src: NodeModel,
    out: NodeModel,
    lo: u64,
    hi: u64,
    lo2: u64,
    hi2: u64,
    parent: Option<u64>,
)
    requires
        copy_rel(src, out, lo, hi, parent),
        lo2 <= lo,
        hi <= hi2,
    ensures
        copy_rel(src, out, lo2, hi2, parent),
    decreases src,
{
    assert forall|k: int| 0 <= k < src.children.len() implies copy_rel(
        #[trigger] src.children[k],
        out.children[k],
        lo2,
        hi2,
        Some(out.id),
    ) by {
        lemma_copy_rel_widen(src.children[k], out.children[k], lo, hi, lo2, hi2, Some(out.id));
    }
}

} // verus!
