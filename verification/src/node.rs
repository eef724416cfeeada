//! Nodes, headers and child handles.
//!
//! A [`TreeNode`] carries a [`Header`] (identity and parent identity), a
//! payload, and its children, each behind a [`Child`] handle.  A `Child`
//! owns a reference-counted pointer to the node and caches the node's
//! identity.  Cloning a handle is shallow and shares the node; deep
//! copies, which assign fresh identities, are made through the mutation
//! session operations.

use std::rc::Rc;
use vstd::prelude::*;

use crate::context::apply_updates_model;
use crate::context::lemma_apply_push;
use crate::context::Context;
use crate::context::UpdateModel;
use crate::id::ID;
use crate::index::id_map_insert;
use crate::index::id_map_model;
use crate::index::IdMap;
use crate::model::children_entries;
use crate::model::children_size;
use crate::model::copy_rel;
use crate::model::ids_below;
use crate::model::in_subtree;
use crate::model::lemma_children_entries_empty;
use crate::model::lemma_children_entries_push;
use crate::model::lemma_children_size_split;
use crate::model::lemma_copy_rel_widen;
use crate::model::lemma_lookup_child;
use crate::model::lemma_lookup_props;
use crate::model::lemma_node_entries_assemble;
use crate::model::lemma_replace_absent;
use crate::model::lookup;
use crate::model::node_entries;
use crate::model::node_ids;
use crate::model::on_path;
use crate::model::replace_node;
use crate::model::sub_disjoint;
use crate::model::subtree_size;
use crate::model::wf;
use crate::model::with_child;
use crate::model::without_child;
use crate::model::NodeModel;

verus! {

broadcast use
    vstd::seq::axiom_seq_index_decreases,
    vstd::std_specs::vec::axiom_vec_index_decreases,
    vstd::std_specs::vec::axiom_vec_decreases_to_view,
;

/// The metadata of a node: its identity and, once attached, the identity
/// of its parent.
#[derive(Debug)]
pub struct Header {
    id: ID,
    parent_id: Option<ID>,
}

impl Header {
    /// The identity stored in this header.
    pub closed spec fn id_spec(&self) -> ID {
        self.id
    }

    /// The parent identity stored in this header.
    pub closed spec fn parent_id_spec(&self) -> Option<ID> {
        self.parent_id
    }

    /// A fresh header: a new identity, no parent.
    pub fn new(ctx: &mut Context) -> (h: Header)
        requires
            old(ctx).next() < ID::MAX,
        ensures
            h.id_spec() == old(ctx).next(),
            h.parent_id_spec() is None,
            final(ctx).next() == old(ctx).next() + 1,
            final(ctx).updates_model() == old(ctx).updates_model(),
            final(ctx).mutation_active() == old(ctx).mutation_active(),
    {
        Header { id: ctx.new_id(), parent_id: None }
    }

    /// The identity.
    pub fn id(&self) -> (r: ID)
        ensures
            r == self.id_spec(),
    {
        self.id
    }

    /// The parent identity, if the node has been attached under a parent.
    pub fn parent_id(&self) -> (r: Option<ID>)
        ensures
            r == self.parent_id_spec(),
    {
        self.parent_id
    }
}

/// A tree node: header, payload, and child handles.
#[derive(Debug)]
pub struct TreeNode {
    header: Header,
    /// The scalar payload.
    pub some_data: u64,
    /// The sequence payload.
    pub data: Vec<u64>,
    children: Vec<Child>,
}

/// An owning handle to a node.  It holds a shared reference to the node
/// and caches the node's identity.
#[derive(Debug)]
pub struct Child {
    inner_ref: Rc<TreeNode>,
    inner_id: ID,
}

/// The model of a node value.
pub closed spec fn node_model(n: TreeNode) -> NodeModel
    decreases n,
{
    NodeModel {
        id: n.header.id,
        parent_id: n.header.parent_id,
        some_data: n.some_data,
        data: n.data@,
        children: children_model(n.children@),
    }
}

/// The models of a sequence of child handles, in order.
pub closed spec fn children_model(cs: Seq<Child>) -> Seq<NodeModel>
    decreases cs,
{
    Seq::new(
        cs.len(),
        |k: int|
            if 0 <= k < cs.len() {
                node_model(*cs[k].inner_ref)
            } else {
                vstd::pervasive::arbitrary()
            },
    )
}

impl View for TreeNode {
    type V = NodeModel;

    closed spec fn view(&self) -> NodeModel {
        node_model(*self)
    }
}

impl View for Child {
    type V = NodeModel;

    closed spec fn view(&self) -> NodeModel {
        node_model(*self.inner_ref)
    }
}

/// The capability every node type offers the library: access to its
/// header, tied to the node's model.
pub trait Node {
    /// The model of this node.
    spec fn model(&self) -> NodeModel;

    /// The node's header.
    fn header(&self) -> (h: &Header)
        ensures
            h.id_spec() == self.model().id,
            h.parent_id_spec() == self.model().parent_id,
    ;

    /// The node's header, for writing.
    fn header_mut(&mut self) -> (h: &mut Header)
        ensures
            h.id_spec() == old(self).model().id,
            h.parent_id_spec() == old(self).model().parent_id,
            final(self).model() == (NodeModel {
                id: final(h).id_spec(),
                parent_id: final(h).parent_id_spec(),
                ..old(self).model()
            }),
    ;
}

impl Node for TreeNode {
    open spec fn model(&self) -> NodeModel {
        self@
    }

    fn header(&self) -> (h: &Header) {
        &self.header
    }

    fn header_mut(&mut self) -> (h: &mut Header) {
        &mut self.header
    }
}

impl Child {
    #[verifier::type_invariant]
    spec fn wf_handle(self) -> bool {
        self.inner_id == node_model(*self.inner_ref).id
    }

    /// The identity of the node this handle owns.
    pub fn get_id(&self) -> (r: ID)
        ensures
            r == self@.id,
    {
        proof {
            use_type_invariant(&*self);
        }
        self.inner_id
    }

    /// A shared reference to the node.
    pub fn get_ref(&self) -> (r: Rc<TreeNode>)
        ensures
            r@ == self@,
    {
        self.inner_ref.clone()
    }

    /// A borrow of the node.
    pub fn get(&self) -> (r: &TreeNode)
        ensures
            r@ == self@,
    {
        &self.inner_ref
    }
}

impl Clone for Child {
    /// A shallow clone: the same node, shared.
    fn clone(&self) -> (r: Self)
        ensures
            r@ == self@,
    {
        proof {
            use_type_invariant(&*self);
        }
        Child { inner_ref: self.inner_ref.clone(), inner_id: self.inner_id }
    }
}

impl TreeNode {
    /// Assemble a node from a header, payload, and children.
    pub fn with_header(header: Header, some_data: u64, data: Vec<u64>, children: Vec<Child>) -> (n:
        TreeNode)
        ensures
            n@.id == header.id_spec(),
            n@.parent_id == header.parent_id_spec(),
            n@.some_data == some_data,
            n@.data == data@,
            n@.children.len() == children@.len(),
            forall|k: int| 0 <= k < children@.len() ==> n@.children[k] == #[trigger] children@[k]@,
    {
        TreeNode { header, some_data, data, children }
    }

    /// A fresh leaf node with the given payload.
    pub fn new(ctx: &mut Context, some_data: u64, data: Vec<u64>) -> (n: TreeNode)
        requires
            old(ctx).next() < ID::MAX,
        ensures
            n@ == (NodeModel {
                id: old(ctx).next(),
                parent_id: None,
                some_data,
                data: data@,
                children: Seq::<NodeModel>::empty(),
            }),
            final(ctx).next() == old(ctx).next() + 1,
            final(ctx).updates_model() == old(ctx).updates_model(),
            final(ctx).mutation_active() == old(ctx).mutation_active(),
    {
        let header = Header::new(ctx);
        let n = TreeNode { header, some_data, data, children: Vec::new() };
        proof {
            assert(n@.children =~= Seq::<NodeModel>::empty());
        }
        n
    }

    /// Overwrite the scalar payload.
    pub fn set_some_data(&mut self, v: u64)
        ensures
            final(self)@ == (NodeModel { some_data: v, ..old(self)@ }),
    {
        self.some_data = v;
    }

    /// Append to the sequence payload.
    pub fn push_data(&mut self, v: u64)
        ensures
            final(self)@ == (NodeModel { data: old(self)@.data.push(v), ..old(self)@ }),
    {
        self.data.push(v);
    }

    /// How many children the node has.
    pub fn child_count(&self) -> (r: usize)
        ensures
            r == self@.children.len(),
    {
        self.children.len()
    }

    /// A borrow of the child handle at position `i`.
    pub fn get_child(&self, i: usize) -> (c: &Child)
        requires
            i < self@.children.len(),
        ensures
            c@ == self@.children[i as int],
    {
        &self.children[i]
    }
}

impl Clone for TreeNode {
    /// A shallow clone of the node value: the payload is copied and every
    /// child handle is cloned, sharing the child nodes.
    fn clone(&self) -> (r: Self)
        ensures
            r@ == self@,
    {
        let mut kids: Vec<Child> = Vec::new();
        let n = self.children.len();
        let mut j: usize = 0;
        while j < n
            invariant
                n == self.children.len(),
                j <= n,
                kids@.len() == j as int,
                forall|k: int| 0 <= k < j as int ==> #[trigger] kids@[k]@ == self@.children[k],
            decreases n - j,
        {
            kids.push(self.children[j].clone());
            j = j + 1;
        }
        let data2 = self.data.clone();
        let r = TreeNode {
            header: Header { id: self.header.id, parent_id: self.header.parent_id },
            some_data: self.some_data,
            data: data2,
            children: kids,
        };
        proof {
            assert(data2@ =~= self.data@);
            assert forall|k: int| 0 <= k < kids@.len() implies children_model(kids@)[k]
                == children_model(self.children@)[k] by {
                assert(children_model(kids@)[k] == kids@[k]@);
                assert(children_model(self.children@)[k] == self@.children[k]);
            }
            assert(children_model(kids@) =~= children_model(self.children@));
        }
        r
    }
}

impl TreeNode {
    /// Append a child handle.
    pub(crate) fn push_child_raw(&mut self, c: Child)
        ensures
            final(self)@ == with_child(old(self)@, c@),
    {
        proof {
            assert(children_model(self.children@.push(c)) =~= children_model(
                self.children@,
            ).push(c@)) by {
                let cs2 = self.children@.push(c);
                assert forall|k: int| 0 <= k < cs2.len() implies children_model(cs2)[k]
                    == children_model(self.children@).push(c@)[k] by {
                    if k < self.children@.len() {
                        assert(cs2[k] == self.children@[k]);
                    } else {
                        assert(cs2[k] == c);
                    }
                }
            }
        }
        self.children.push(c);
    }

    /// Remove and return the child handle at position `i`.
    pub(crate) fn remove_child_raw(&mut self, i: usize) -> (c: Child)
        requires
            i < old(self)@.children.len(),
        ensures
            final(self)@ == without_child(old(self)@, i as int),
            c@ == old(self)@.children[i as int],
    {
        proof {
            assert(children_model(self.children@.remove(i as int)) =~= children_model(
                self.children@,
            ).remove(i as int)) by {
                let cs2 = self.children@.remove(i as int);
                assert forall|k: int| 0 <= k < cs2.len() implies children_model(cs2)[k]
                    == children_model(self.children@).remove(i as int)[k] by {
                    if k < i as int {
                        assert(cs2[k] == self.children@[k]);
                    } else {
                        assert(cs2[k] == self.children@[k + 1]);
                    }
                }
            }
        }
        self.children.remove(i)
    }

    /// A new node value equal to this one except that the child at
    /// position `k` is the given handle.  All other children are shared.
    pub(crate) fn with_swapped_child(&self, k: usize, c: Child) -> (n: TreeNode)
        requires
            k < self@.children.len(),
        ensures
            n@ == (NodeModel { children: self@.children.update(k as int, c@), ..self@ }),
    {
        let mut kids: Vec<Child> = Vec::new();
        let len = self.children.len();
        let mut j: usize = 0;
        let mut cell = Some(c);
        while j < len
            invariant
                len == self.children.len(),
                j <= len,
                kids@.len() == j as int,
                k < len,
                j <= k ==> (cell matches Some(cc) && cc@ == c@),
                j > k ==> cell is None,
                forall|t: int|
                    0 <= t < j as int ==> #[trigger] kids@[t]@ == (if t == k as int {
                        c@
                    } else {
                        self@.children[t]
                    }),
            decreases len - j,
        {
            if j == k {
                let cc = cell.take().unwrap();
                kids.push(cc);
            } else {
                kids.push(self.children[j].clone());
            }
            j = j + 1;
        }
        let r = TreeNode {
            header: Header { id: self.header.id, parent_id: self.header.parent_id },
            some_data: self.some_data,
            data: self.data.clone(),
            children: kids,
        };
        proof {
            assert forall|t: int| 0 <= t < kids@.len() implies children_model(kids@)[t]
                == self@.children.update(k as int, c@)[t] by {
                assert(children_model(kids@)[t] == kids@[t]@);
            }
            assert(children_model(kids@) =~= self@.children.update(k as int, c@));
            assert(r.data@ =~= self.data@);
        }
        r
    }
}

/// A working copy of a node, taken out of a handle for editing and
/// installed back when the edit is done.
pub struct MakeMutRef {
    node: TreeNode,
}

impl View for MakeMutRef {
    type V = NodeModel;

    closed spec fn view(&self) -> NodeModel {
        self.node@
    }
}

impl MakeMutRef {
    /// A borrow of the working copy.
    pub fn node(&self) -> (r: &TreeNode)
        ensures
            r@ == self@,
    {
        &self.node
    }

    /// Overwrite the scalar payload.
    pub fn set_some_data(&mut self, v: u64)
        ensures
            final(self)@ == (NodeModel { some_data: v, ..old(self)@ }),
    {
        self.node.some_data = v;
    }

    /// Append to the sequence payload.
    pub fn push_data(&mut self, v: u64)
        ensures
            final(self)@ == (NodeModel { data: old(self)@.data.push(v), ..old(self)@ }),
    {
        self.node.data.push(v);
    }
}

impl Child {
    /// Attach `node` under the parent with identity `parent_id`: the
    /// node's parent link is written, the node is wrapped in a handle,
    /// and the binding of its id is recorded in the context.
    pub fn with_parent_id(parent_id: ID, node: TreeNode, ctx: &mut Context) -> (c: Child)
        ensures
            c@ == (NodeModel { parent_id: Some(parent_id), ..node@ }),
            final(ctx).updates_model() == old(ctx).updates_model().push(
                UpdateModel::Bind(node@.id, c@),
            ),
            final(ctx).next() == old(ctx).next(),
            final(ctx).mutation_active() == old(ctx).mutation_active(),
    {
        let mut node = node;
        node.header.parent_id = Some(parent_id);
        let id = node.header.id;
        let rc = Rc::new(node);
        ctx.node_map_update(id, rc.clone());
        Child { inner_ref: rc, inner_id: id }
    }

    /// Attach `node` under `parent`.
    pub fn with_parent<P: Node>(parent: &P, node: TreeNode, ctx: &mut Context) -> (c: Child)
        ensures
            c@ == (NodeModel { parent_id: Some(parent.model().id), ..node@ }),
            final(ctx).updates_model() == old(ctx).updates_model().push(
                UpdateModel::Bind(node@.id, c@),
            ),
            final(ctx).next() == old(ctx).next(),
            final(ctx).mutation_active() == old(ctx).mutation_active(),
    {
        let id = parent.header().id();
        Self::with_parent_id(id, node, ctx)
    }

    /// Attach `node` under the parent whose header is given.
    pub fn with_parent_header(parent_header: &Header, node: TreeNode, ctx: &mut Context) -> (c:
        Child)
        ensures
            c@ == (NodeModel { parent_id: Some(parent_header.id_spec()), ..node@ }),
            final(ctx).updates_model() == old(ctx).updates_model().push(
                UpdateModel::Bind(node@.id, c@),
            ),
            final(ctx).next() == old(ctx).next(),
            final(ctx).mutation_active() == old(ctx).mutation_active(),
    {
        let id = parent_header.id();
        Self::with_parent_id(id, node, ctx)
    }

    /// The removal traversal: walk this handle's subtree and record an
    /// erase for every id in it.
    pub fn poll(&self, ctx: &mut Context)
        ensures
            final(ctx).next() == old(ctx).next(),
            final(ctx).mutation_active() == old(ctx).mutation_active(),
            forall|q: Map<ID, NodeModel>|
                #[trigger] apply_updates_model(q, final(ctx).updates_model())
                    == apply_updates_model(q, old(ctx).updates_model()).remove_keys(
                    node_ids(self@),
                ),
    {
        erase_subtree(&self.inner_ref, ctx);
    }

    /// The deep-copy traversal: replace this handle's subtree by a fresh
    /// copy with new identities throughout, keeping the parent link of
    /// the top, and record the bindings of every copied node.
    pub fn poll_mut(&mut self, ctx: &mut Context)
        requires
            old(ctx).next() as nat + subtree_size(old(self)@) <= ID::MAX as nat,
        ensures
            copy_rel(
                old(self)@,
                final(self)@,
                old(ctx).next(),
                final(ctx).next(),
                old(self)@.parent_id,
            ),
            old(ctx).next() < final(ctx).next(),
            final(ctx).next() as nat <= old(ctx).next() as nat + subtree_size(old(self)@),
            final(ctx).mutation_active() == old(ctx).mutation_active(),
            forall|q: Map<ID, NodeModel>|
                #[trigger] apply_updates_model(q, final(ctx).updates_model())
                    == apply_updates_model(q, old(ctx).updates_model()).union_prefer_right(
                    node_entries(final(self)@),
                ),
    {
        let parent = self.inner_ref.header.parent_id;
        let rc = deep_copy_node(&self.inner_ref, parent, ctx);
        let cid = rc.header.id;
        *self = Child { inner_ref: rc, inner_id: cid };
    }

    /// Take a working copy of the node for editing.  The copy is shallow
    /// and keeps the node's identity; children are shared.
    pub fn make_mut(&self) -> (m: MakeMutRef)
        ensures
            m@ == self@,
    {
        MakeMutRef { node: (*self.inner_ref).clone() }
    }

    /// Install an edited working copy back into the handle.  The copy
    /// must still carry this handle's identity.
    pub fn end_mut(&mut self, m: MakeMutRef)
        requires
            m@.id == old(self)@.id,
        ensures
            final(self)@ == m@,
    {
        let MakeMutRef { node } = m;
        let id = node.header.id;
        *self = Child { inner_ref: Rc::new(node), inner_id: id };
    }
}

/// Deep-copy a sequence of child subtrees.  Every node of every copy
/// gets a fresh identity; the tops of the copies point at `parent_id`;
/// the binding of every copied node is recorded.
pub(crate) fn copy_children(src: &Vec<Child>, parent_id: ID, ctx: &mut Context) -> (out: Vec<
    Child,
>)
    requires
        old(ctx).next() as nat + children_size(children_model(src@)) <= ID::MAX as nat,
    ensures
        out@.len() == src@.len(),
        forall|k: int| 0 <= k < src@.len() ==> copy_rel(
            #[trigger] src@[k]@,
            out@[k]@,
            old(ctx).next(),
            final(ctx).next(),
            Some(parent_id),
        ),
        forall|j: int, k: int| 0 <= j < k < out@.len() ==> sub_disjoint(
            #[trigger] out@[j]@,
            #[trigger] out@[k]@,
        ),
        old(ctx).next() <= final(ctx).next(),
        final(ctx).next() as nat <= old(ctx).next() as nat + children_size(children_model(src@)),
        final(ctx).mutation_active() == old(ctx).mutation_active(),
        forall|q: Map<ID, NodeModel>| #[trigger] apply_updates_model(
            q,
            final(ctx).updates_model(),
        ) == apply_updates_model(q, old(ctx).updates_model()).union_prefer_right(
            children_entries(children_model(out@)),
        ),
    decreases *src,
{
    let ghost u0 = ctx.updates_model();
    let ghost next0 = ctx.next();
    let ghost act0 = ctx.mutation_active();
    let ghost all = children_model(src@);
    let mut out: Vec<Child> = Vec::new();
    let n = src.len();
    let mut j: usize = 0;
    proof {
        lemma_children_entries_empty();
        assert(all.subrange(0, n as int) =~= all);
        assert(children_model(out@) =~= Seq::<NodeModel>::empty());
    }
    while j < n
        invariant
            n == src@.len(),
            j <= n,
            out@.len() == j as int,
            next0 <= ctx.next(),
            ctx.next() as nat + children_size(all.subrange(j as int, n as int)) <= next0 as nat
                + children_size(all),
            next0 as nat + children_size(all) <= ID::MAX as nat,
            ctx.mutation_active() == act0,
            all == children_model(src@),
            forall|k: int| 0 <= k < j as int ==> copy_rel(
                #[trigger] src@[k]@,
                out@[k]@,
                next0,
                ctx.next(),
                Some(parent_id),
            ),
            forall|j2: int, k: int| 0 <= j2 < k < j as int ==> sub_disjoint(
                #[trigger] out@[j2]@,
                #[trigger] out@[k]@,
            ),
            forall|q: Map<ID, NodeModel>| #[trigger] apply_updates_model(q, ctx.updates_model())
                == apply_updates_model(q, u0).union_prefer_right(
                children_entries(children_model(out@)),
            ),
        decreases n - j,
    {
        proof {
            lemma_children_size_split(all, j as int);
            assert(all[j as int] == src@[j as int]@);
        }
        let ghost next_before = ctx.next();
        let ghost u_before = ctx.updates_model();
        let ghost prior = children_model(out@);
        let rc = deep_copy_node(&src[j].inner_ref, Some(parent_id), ctx);
        let cid = rc.header.id;
        proof {
            assert(cid == rc@.id);
        }
        let c = Child { inner_ref: rc, inner_id: cid };
        out.push(c);
        proof {
            let now = ctx.next();
            // Widen the earlier copies to the grown id range.
            assert forall|k: int| 0 <= k < j as int implies copy_rel(
                #[trigger] src@[k]@,
                out@[k]@,
                next0,
                now,
                Some(parent_id),
            ) by {
                assert(copy_rel(src@[k]@, out@[k]@, next0, next_before, Some(parent_id)));
                lemma_copy_rel_widen(
                    src@[k]@,
                    out@[k]@,
                    next0,
                    next_before,
                    next0,
                    now,
                    Some(parent_id),
                );
            }
            lemma_copy_rel_widen(src@[j as int]@, c@, next_before, now, next0, now, Some(parent_id));
            // The new copy is disjoint from all earlier ones.
            assert(out@[j as int] == c);
            assert forall|j2: int, k: int| 0 <= j2 < k < j as int + 1 implies sub_disjoint(
                #[trigger] out@[j2]@,
                #[trigger] out@[k]@,
            ) by {
                if k == j as int {
                    assert(copy_rel(src@[j2]@, out@[j2]@, next0, next_before, Some(parent_id)));
                    assert(copy_rel(src@[j as int]@, c@, next_before, now, Some(parent_id)));
                    assert forall|y: u64| !(#[trigger] in_subtree(out@[j2]@, y)
                        && #[trigger] in_subtree(out@[k]@, y)) by {
                        if in_subtree(out@[j2]@, y) {
                            assert(y < next_before);
                        }
                        if in_subtree(out@[k]@, y) {
                            assert(next_before <= y);
                        }
                    }
                }
            }
            // Account the recorded bindings.
            assert(children_model(out@) =~= prior.push(c@)) by {
                assert forall|t: int| 0 <= t < out@.len() implies children_model(out@)[t]
                    == prior.push(c@)[t] by {
                    if t < j as int {
                        assert(out@[t] == out@.subrange(0, j as int)[t]);
                        assert(children_model(out@)[t] == out@[t]@);
                        assert(prior[t] == out@.subrange(0, j as int)[t]@);
                    } else {
                        assert(children_model(out@)[t] == out@[t]@);
                    }
                }
            }
            assert forall|k: int| 0 <= k < prior.len() implies sub_disjoint(
                #[trigger] prior[k],
                c@,
            ) by {
                assert(prior[k] == out@[k]@);
                assert(sub_disjoint(out@[k]@, out@[j as int]@));
            }
            assert forall|j2: int, k: int| 0 <= j2 < k < prior.len() implies sub_disjoint(
                #[trigger] prior[j2],
                #[trigger] prior[k],
            ) by {
                assert(prior[j2] == out@[j2]@ && prior[k] == out@[k]@);
            }
            lemma_children_entries_push(prior, c@);
            assert forall|q: Map<ID, NodeModel>| #[trigger] apply_updates_model(
                q,
                ctx.updates_model(),
            ) == apply_updates_model(q, u0).union_prefer_right(
                children_entries(children_model(out@)),
            ) by {
                let a0 = apply_updates_model(q, u0);
                assert(apply_updates_model(q, u_before) == a0.union_prefer_right(
                    children_entries(prior),
                ));
                assert(apply_updates_model(q, ctx.updates_model()) == apply_updates_model(
                    q,
                    u_before,
                ).union_prefer_right(node_entries(c@)));
                assert(a0.union_prefer_right(children_entries(prior)).union_prefer_right(
                    node_entries(c@),
                ) =~= a0.union_prefer_right(
                    children_entries(prior).union_prefer_right(node_entries(c@)),
                ));
            }
        }
        j = j + 1;
    }
    proof {
        assert(all.subrange(n as int, n as int) =~= Seq::<NodeModel>::empty());
        assert(children_size(all.subrange(n as int, n as int)) == 0);
    }
    out
}

/// Deep-copy one subtree.  The copy's top gets a fresh identity and the
/// given parent link; every node below gets a fresh identity and points
/// at its copied parent; every copied node's binding is recorded.
pub(crate) fn deep_copy_node(src: &TreeNode, parent_id: Option<ID>, ctx: &mut Context) -> (out: Rc<
    TreeNode,
>)
    requires
        old(ctx).next() as nat + subtree_size(src@) <= ID::MAX as nat,
    ensures
        copy_rel(src@, out@, old(ctx).next(), final(ctx).next(), parent_id),
        old(ctx).next() < final(ctx).next(),
        final(ctx).next() as nat <= old(ctx).next() as nat + subtree_size(src@),
        final(ctx).mutation_active() == old(ctx).mutation_active(),
        forall|q: Map<ID, NodeModel>| #[trigger] apply_updates_model(
            q,
            final(ctx).updates_model(),
        ) == apply_updates_model(q, old(ctx).updates_model()).union_prefer_right(
            node_entries(out@),
        ),
    decreases *src,
{
    let ghost u0 = ctx.updates_model();
    let ghost next0 = ctx.next();
    let id = ctx.new_id();
    let ghost next1 = ctx.next();
    let kids = copy_children(&src.children, id, ctx);
    let ghost next_kids = ctx.next();
    let node = TreeNode {
        header: Header { id, parent_id },
        some_data: src.some_data,
        data: src.data.clone(),
        children: kids,
    };
    let rc = Rc::new(node);
    let ghost u_mid = ctx.updates_model();
    ctx.node_map_update(id, rc.clone());
    proof {
        let m = rc@;
        assert(m.data =~= src@.data);
        assert(m.children == children_model(kids@));
        assert forall|k: int| 0 <= k < kids@.len() implies #[trigger] m.children[k]
            == kids@[k]@ by {}
        // The copy is well-formed: fresh child ids exceed the top id.
        assert forall|k: int| 0 <= k < m.children.len() implies wf(#[trigger] m.children[k])
            && m.children[k].parent_id == Some(m.id) && !in_subtree(m.children[k], m.id) by {
            assert(src@.children[k] == src.children@[k]@);
            assert(copy_rel(src.children@[k]@, kids@[k]@, next1, next_kids, Some(id)));
            assert(copy_rel(src@.children[k], m.children[k], next1, next_kids, Some(id)));
            if in_subtree(m.children[k], m.id) {
                assert(next1 <= m.id);
            }
        }
        assert forall|j: int, k: int| 0 <= j < k < m.children.len() implies sub_disjoint(
            #[trigger] m.children[j],
            #[trigger] m.children[k],
        ) by {
            assert(sub_disjoint(kids@[j]@, kids@[k]@));
        }
        assert(wf(m));
        assert forall|y: u64| #[trigger] in_subtree(m, y) implies next0 <= y < next_kids by {
            if y != m.id {
                let k = choose|k: int|
                    0 <= k < m.children.len() && in_subtree(#[trigger] m.children[k], y);
                assert(src@.children[k] == src.children@[k]@);
                assert(copy_rel(src.children@[k]@, kids@[k]@, next1, next_kids, Some(id)));
                assert(copy_rel(src@.children[k], m.children[k], next1, next_kids, Some(id)));
            }
        }
        assert forall|k: int| 0 <= k < src@.children.len() implies copy_rel(
            #[trigger] src@.children[k],
            m.children[k],
            next0,
            next_kids,
            Some(m.id),
        ) by {
            assert(src@.children[k] == src.children@[k]@);
            assert(copy_rel(src.children@[k]@, kids@[k]@, next1, next_kids, Some(id)));
            assert(copy_rel(src@.children[k], m.children[k], next1, next_kids, Some(id)));
            lemma_copy_rel_widen(
                src@.children[k],
                m.children[k],
                next1,
                next_kids,
                next0,
                next_kids,
                Some(id),
            );
        }
        assert(copy_rel(src@, m, next0, next_kids, parent_id));
        // Account the recorded bindings: the children's entries plus the
        // top's own binding are exactly the copy's entries.
        lemma_node_entries_assemble(m);
        assert forall|q: Map<ID, NodeModel>| #[trigger] apply_updates_model(
            q,
            ctx.updates_model(),
        ) == apply_updates_model(q, u0).union_prefer_right(node_entries(m)) by {
            let a0 = apply_updates_model(q, u0);
            let ce = children_entries(children_model(kids@));
            assert(apply_updates_model(q, u_mid) == a0.union_prefer_right(ce));
            lemma_apply_push(q, u_mid, UpdateModel::Bind(id, m));
            assert(apply_updates_model(q, ctx.updates_model()) == a0.union_prefer_right(
                ce,
            ).insert(id, m));
            assert(a0.union_prefer_right(ce).insert(id, m) =~= a0.union_prefer_right(
                ce.insert(id, m),
            ));
        }
    }
    rc
}

/// The model of the index bindings a replacement walk writes: one for
/// every strict ancestor of the target in `t`, and one for `t` itself
/// when it is not the target, each bound to its rebuilt value.
pub open spec fn path_bindings(t: NodeModel, target: u64, rep: NodeModel) -> Map<u64, NodeModel> {
    Map::new(
        |y: u64| on_path(t, target, y) && y != target,
        |y: u64| replace_node(lookup(t, y)->Some_0, target, rep),
    )
}

/// The replacement walk: find the node with id `target` inside `t`,
/// swap it for `rep`, and rebuild every ancestor on the way, sharing all
/// untouched subtrees.  Each rebuilt ancestor's binding is written to
/// the index.  Returns nothing when `target` is not reachable from `t`,
/// and then changes nothing.
pub(crate) fn rebuild(t: &TreeNode, target: ID, rep: &Rc<TreeNode>, map: &mut IdMap) -> (out:
    Option<Rc<TreeNode>>)
    requires
        wf(t@),
        rep@.id == target,
    ensures
        (out is Some) == in_subtree(t@, target),
        out matches Some(r) ==> r@ == replace_node(t@, target, rep@),
        out matches Some(r) ==> id_map_model(*final(map)) == id_map_model(
            *old(map),
        ).union_prefer_right(path_bindings(t@, target, rep@)),
        out is None ==> *final(map) == *old(map),
    decreases *t,
{
    if t.header.id == target {
        proof {
            assert forall|y: u64| !(on_path(t@, target, y) && y != target) by {
                if on_path(t@, target, y) && y != target {
                    lemma_lookup_props(t@, y);
                    let k = choose|k: int|
                        0 <= k < t@.children.len() && in_subtree(#[trigger] t@.children[k], y);
                    lemma_lookup_child(t@, y, k);
                    lemma_lookup_props(t@.children[k], y);
                    assert(in_subtree(t@.children[k], target));
                }
            }
            assert(id_map_model(*map).union_prefer_right(path_bindings(t@, target, rep@))
                =~= id_map_model(*map));
            assert(rep@ == replace_node(t@, target, rep@));
        }
        return Some(rep.clone());
    }
    let ghost m0 = *map;
    let n = t.children.len();
    let mut j: usize = 0;
    while j < n
        invariant
            wf(t@),
            rep@.id == target,
            t@.id != target,
            n == t@.children.len(),
            n == t.children@.len(),
            j <= n,
            *map == m0,
            m0 == *old(map),
            forall|k: int| 0 <= k < j as int ==> !in_subtree(#[trigger] t@.children[k], target),
        decreases n - j,
    {
        proof {
            assert(t@.children[j as int] == node_model(*t.children@[j as int].inner_ref));
            assert(wf(t@.children[j as int]));
        }
        let res = rebuild(&t.children[j].inner_ref, target, rep, map);
        if let Some(rc_child) = res {
            let ghost cj = t@.children[j as int];
            let cid = rc_child.header.id;
            let new_child = Child { inner_ref: rc_child, inner_id: cid };
            let nn = t.with_swapped_child(j, new_child);
            let rc_t = Rc::new(nn);
            let ghost m_mid = *map;
            id_map_insert(map, t.header.id, rc_t.clone());
            proof {
                let tm = t@;
                let repl = replace_node(tm, target, rep@);
                assert(in_subtree(cj, target));
                assert(in_subtree(tm, target));
                // The rebuilt node equals the replacement image of `t`.
                assert forall|k: int| 0 <= k < tm.children.len() implies #[trigger] repl.children[k]
                    == tm.children.update(j as int, new_child@)[k] by {
                    assert(repl.children[k] == replace_node(tm.children[k], target, rep@));
                    if k != j as int {
                        if k < j as int {
                            assert(!in_subtree(tm.children[k], target));
                        } else {
                            assert(sub_disjoint(
                                tm.children[if k < j as int { k } else { j as int }],
                                tm.children[if k < j as int { j as int } else { k }],
                            ));
                            assert(!in_subtree(tm.children[k], target));
                        }
                        lemma_replace_absent(tm.children[k], target, rep@);
                    }
                }
                assert(repl.children =~= tm.children.update(j as int, new_child@));
                assert(rc_t@ == repl);
                // The written bindings are exactly the path bindings.
                assert(id_map_model(*map) =~= id_map_model(m_mid).insert(tm.id, rc_t@));
                assert(path_bindings(tm, target, rep@) =~= path_bindings(cj, target, rep@).insert(
                    tm.id,
                    repl,
                )) by {
                    assert(lookup(tm, tm.id) == Some(tm));
                    assert(on_path(tm, target, tm.id));
                    assert forall|y: u64|
                        on_path(tm, target, y) && y != target && y != tm.id implies on_path(
                        cj,
                        target,
                        y,
                    ) && lookup(tm, y) == lookup(cj, y) by {
                        lemma_lookup_props(tm, y);
                        let ny = lookup(tm, y)->Some_0;
                        let k1 = choose|k1: int|
                            0 <= k1 < tm.children.len() && in_subtree(
                                #[trigger] tm.children[k1],
                                y,
                            );
                        lemma_lookup_child(tm, y, k1);
                        lemma_lookup_props(tm.children[k1], y);
                        assert(in_subtree(tm.children[k1], target));
                        if k1 != j as int {
                            assert(sub_disjoint(
                                tm.children[if k1 < j as int { k1 } else { j as int }],
                                tm.children[if k1 < j as int { j as int } else { k1 }],
                            ));
                        }
                        assert(k1 == j as int);
                    }
                    assert forall|y: u64|
                        on_path(cj, target, y) && y != target implies on_path(tm, target, y) && y
                            != tm.id && lookup(tm, y) == lookup(cj, y) by {
                        lemma_lookup_props(cj, y);
                        assert(in_subtree(cj, y));
                        assert(y != tm.id);
                        lemma_lookup_child(tm, y, j as int);
                    }
                }
                assert(id_map_model(m_mid).insert(tm.id, rc_t@) =~= id_map_model(
                    m0,
                ).union_prefer_right(path_bindings(tm, target, rep@)));
                assert(id_map_model(*map) == id_map_model(m0).union_prefer_right(
                    path_bindings(t@, target, rep@),
                ));
            }
            return Some(rc_t);
        }
        j = j + 1;
    }
    proof {
        assert(!in_subtree(t@, target)) by {
            if in_subtree(t@, target) {
                let k = choose|k: int|
                    0 <= k < t@.children.len() && in_subtree(#[trigger] t@.children[k], target);
                assert(!in_subtree(t@.children[k], target));
            }
        }
    }
    None
}

/// Copy a whole tree for a fresh snapshot: the top keeps its identity
/// and loses its parent link, while every node below it is deep-copied
/// with a fresh identity.  The copies' bindings are recorded; the top's
/// own binding is not.
pub(crate) fn refresh_node(src: &TreeNode, ctx: &mut Context) -> (out: TreeNode)
    requires
        old(ctx).next() as nat + children_size(src@.children) <= ID::MAX as nat,
        src@.id < old(ctx).next(),
    ensures
        out@.id == src@.id,
        out@.parent_id is None,
        out@.some_data == src@.some_data,
        out@.data == src@.data,
        out@.children.len() == src@.children.len(),
        forall|k: int| 0 <= k < src@.children.len() ==> copy_rel(
            #[trigger] src@.children[k],
            out@.children[k],
            old(ctx).next(),
            final(ctx).next(),
            Some(src@.id),
        ),
        wf(out@),
        ids_below(out@, final(ctx).next()),
        old(ctx).next() <= final(ctx).next(),
        final(ctx).mutation_active() == old(ctx).mutation_active(),
        forall|q: Map<ID, NodeModel>| #[trigger] apply_updates_model(
            q,
            final(ctx).updates_model(),
        ) == apply_updates_model(q, old(ctx).updates_model()).union_prefer_right(
            children_entries(out@.children),
        ),
{
    let ghost next0 = ctx.next();
    let id = src.header.id;
    let kids = copy_children(&src.children, id, ctx);
    let out = TreeNode {
        header: Header { id, parent_id: None },
        some_data: src.some_data,
        data: src.data.clone(),
        children: kids,
    };
    proof {
        let m = out@;
        assert(m.data =~= src@.data);
        assert(m.children == children_model(kids@));
        assert forall|k: int| 0 <= k < kids@.len() implies #[trigger] m.children[k]
            == kids@[k]@ by {}
        assert forall|k: int| 0 <= k < m.children.len() implies wf(#[trigger] m.children[k])
            && m.children[k].parent_id == Some(m.id) && !in_subtree(m.children[k], m.id) by {
            assert(src@.children[k] == src.children@[k]@);
            assert(copy_rel(src.children@[k]@, kids@[k]@, next0, ctx.next(), Some(id)));
            if in_subtree(m.children[k], m.id) {
                assert(next0 <= m.id);
            }
        }
        assert forall|j: int, k: int| 0 <= j < k < m.children.len() implies sub_disjoint(
            #[trigger] m.children[j],
            #[trigger] m.children[k],
        ) by {
            assert(sub_disjoint(kids@[j]@, kids@[k]@));
        }
        assert(wf(m));
        assert forall|y: u64| #[trigger] in_subtree(m, y) implies y < ctx.next() by {
            if y != m.id {
                let k = choose|k: int|
                    0 <= k < m.children.len() && in_subtree(#[trigger] m.children[k], y);
                assert(src@.children[k] == src.children@[k]@);
                assert(copy_rel(src.children@[k]@, kids@[k]@, next0, ctx.next(), Some(id)));
            }
        }
        assert forall|k: int| 0 <= k < src@.children.len() implies copy_rel(
            #[trigger] src@.children[k],
            m.children[k],
            next0,
            ctx.next(),
            Some(m.id),
        ) by {
            assert(src@.children[k] == src.children@[k]@);
            assert(copy_rel(src.children@[k]@, kids@[k]@, next0, ctx.next(), Some(id)));
        }
        assert(children_entries(children_model(kids@)) == children_entries(m.children));
    }
    out
}

/// The removal traversal over one node: erase the children's subtrees,
/// then the node's own binding.
pub(crate) fn erase_subtree(node: &TreeNode, ctx: &mut Context)
    ensures
        final(ctx).next() == old(ctx).next(),
        final(ctx).mutation_active() == old(ctx).mutation_active(),
        forall|q: Map<ID, NodeModel>| #[trigger] apply_updates_model(
            q,
            final(ctx).updates_model(),
        ) == apply_updates_model(q, old(ctx).updates_model()).remove_keys(node_ids(node@)),
    decreases *node,
{
    let ghost u0 = ctx.updates_model();
    let ghost next0 = ctx.next();
    let ghost act0 = ctx.mutation_active();
    let n = node.children.len();
    let mut j: usize = 0;
    while j < n
        invariant
            n == node.children.len(),
            j <= n,
            ctx.next() == next0,
            ctx.mutation_active() == act0,
            forall|q: Map<ID, NodeModel>| #[trigger] apply_updates_model(q, ctx.updates_model())
                == apply_updates_model(q, u0).remove_keys(
                Set::new(
                    |y: u64|
                        exists|k: int|
                            0 <= k < j as int && in_subtree(#[trigger] node@.children[k], y),
                ),
            ),
        decreases n - j,
    {
        let ghost u_before = ctx.updates_model();
        let ghost pre = Set::new(
            |y: u64|
                exists|k: int| 0 <= k < j as int && in_subtree(#[trigger] node@.children[k], y),
        );
        erase_subtree(&node.children[j].inner_ref, ctx);
        proof {
            let post = Set::new(
                |y: u64|
                    exists|k: int|
                        0 <= k < j as int + 1 && in_subtree(#[trigger] node@.children[k], y),
            );
            let cj = node@.children[j as int];
            assert(node_model(*node.children@[j as int].inner_ref) == cj);
            assert forall|q: Map<ID, NodeModel>| #[trigger] apply_updates_model(
                q,
                ctx.updates_model(),
            ) == apply_updates_model(q, u0).remove_keys(post) by {
                assert(apply_updates_model(q, ctx.updates_model()) == apply_updates_model(
                    q,
                    u_before,
                ).remove_keys(node_ids(cj)));
                assert(apply_updates_model(q, u_before) == apply_updates_model(
                    q,
                    u0,
                ).remove_keys(pre));
                assert forall|y: u64| true implies #[trigger] post.contains(y) == pre.union(
                    node_ids(cj),
                ).contains(y) by {
                    if post.contains(y) {
                        let k = choose|k: int|
                            0 <= k < j as int + 1 && in_subtree(#[trigger] node@.children[k], y);
                        if k < j as int {
                            assert(pre.contains(y));
                        }
                    }
                }
                assert(post =~= pre.union(node_ids(cj)));
                assert(apply_updates_model(q, u0).remove_keys(pre).remove_keys(node_ids(cj)) =~=
                    apply_updates_model(q, u0).remove_keys(pre.union(node_ids(cj))));
            }
        }
        j = j + 1;
    }
    let id = node.header.id;
    let ghost u_loop = ctx.updates_model();
    ctx.node_map_erase(id);
    proof {
        let all = Set::new(
            |y: u64|
                exists|k: int| 0 <= k < n as int && in_subtree(#[trigger] node@.children[k], y),
        );
        assert forall|q: Map<ID, NodeModel>| #[trigger] apply_updates_model(
            q,
            ctx.updates_model(),
        ) == apply_updates_model(q, u0).remove_keys(node_ids(node@)) by {
            let a1 = apply_updates_model(q, u0).remove_keys(all);
            assert(apply_updates_model(q, u_loop) == a1);
            lemma_apply_push(q, u_loop, UpdateModel::Erase(id));
            assert(apply_updates_model(q, ctx.updates_model()) == a1.remove(id));
            assert forall|y: u64| true implies #[trigger] node_ids(node@).contains(y) == all.insert(
                id,
            ).contains(y) by {
                if node_ids(node@).contains(y) && y != id {
                    assert(in_subtree(node@, y));
                }
                if all.contains(y) {
                    let k = choose|k: int|
                        0 <= k < n as int && in_subtree(#[trigger] node@.children[k], y);
                    assert(in_subtree(node@, y));
                }
            }
            assert(a1.remove(id) =~= apply_updates_model(q, u0).remove_keys(node_ids(node@)));
        }
    }
}

} // verus!
