//! Snapshots and mutation sessions.
//!
//! A [`State`] is one immutable snapshot of the tree: a root handle and
//! the identity index.  Snapshots are cheap to clone and share all their
//! structure.  A mutation session is opened with [`State::get_mut`],
//! works on a private copy of one node through a [`MutRef`], and is
//! closed with [`State::commit`], which rebuilds the ancestors of the
//! edited node and applies all pending index updates at once.

use std::rc::Rc;
use vstd::prelude::*;

use crate::context::apply_updates_model;
use crate::context::lemma_apply_push;
use crate::context::Context;
use crate::context::IdMapUpdate;
use crate::context::UpdateModel;
use crate::id::ID;
use crate::index::id_map_clone;
use crate::index::id_map_get;
use crate::index::id_map_insert;
use crate::index::id_map_model;
use crate::index::id_map_new;
use crate::index::id_map_remove;
use crate::index::IdMap;
use crate::model::children_entries;
use crate::model::children_size;
use crate::model::copy_rel;
use crate::model::ids_below;
use crate::model::in_subtree;
use crate::model::lemma_lookup_child;
use crate::model::lemma_lookup_nested;
use crate::model::lemma_lookup_props;
use crate::model::lemma_node_entries_assemble;
use crate::model::lemma_parent_link;
use crate::model::lemma_push_child;
use crate::model::lemma_remove_child;
use crate::model::lemma_replace_absent;
use crate::model::lemma_replace_identity;
use crate::model::lemma_replace_struct;
use crate::model::lemma_same_children;
use crate::model::lookup;
use crate::model::node_entries;
use crate::model::node_ids;
use crate::model::on_path;
use crate::model::replace_node;
use crate::model::subtree_size;
use crate::model::wf;
use crate::model::with_child;
use crate::model::without_child;
use crate::model::NodeModel;
use crate::node::path_bindings;
use crate::node::rebuild;
use crate::node::refresh_node;
use crate::node::Node;
use crate::node::TreeNode;

verus! {

/// One snapshot of the application state: the root node and the
/// identity index that maps every reachable id to its node.
pub struct State {
    root: Rc<TreeNode>,
    id_lookup: IdMap,
    ctx: Option<Context>,
}

/// Apply a drained buffer of index updates to the map, first to last.
fn apply_updates(map: &mut IdMap, updates: &Vec<IdMapUpdate>)
    ensures
        id_map_model(*final(map)) == apply_updates_model(
            id_map_model(*old(map)),
            updates@.map_values(|x: IdMapUpdate| x@),
        ),
{
    let ghost us = updates@.map_values(|x: IdMapUpdate| x@);
    let n = updates.len();
    let mut i: usize = 0;
    proof {
        assert(us.subrange(0, 0) =~= Seq::<UpdateModel>::empty());
    }
    while i < n
        invariant
            n == updates@.len(),
            i <= n,
            us == updates@.map_values(|x: IdMapUpdate| x@),
            id_map_model(*map) == apply_updates_model(
                id_map_model(*old(map)),
                us.subrange(0, i as int),
            ),
        decreases n - i,
    {
        let ghost pre = id_map_model(*map);
        match &updates[i] {
            IdMapUpdate::Bind(id, rc) => {
                id_map_insert(map, *id, rc.clone());
                proof {
                    assert(id_map_model(*map) =~= pre.insert(*id, rc@));
                }
            },
            IdMapUpdate::Erase(id) => {
                id_map_remove(map, *id);
                proof {
                    assert(id_map_model(*map) =~= pre.remove(*id));
                }
            },
        }
        proof {
            assert(us[i as int] == updates@[i as int]@);
            assert(us.subrange(0, i as int + 1) =~= us.subrange(0, i as int).push(us[i as int]));
            lemma_apply_push(id_map_model(*old(map)), us.subrange(0, i as int), us[i as int]);
        }
        i = i + 1;
    }
    proof {
        assert(us.subrange(0, n as int) =~= us);
    }
}

impl State {
    /// The model of the snapshot's tree.
    pub closed spec fn root_model(&self) -> NodeModel {
        self.root@
    }

    /// The model of the snapshot's identity index.
    pub closed spec fn index_model(&self) -> Map<ID, NodeModel> {
        id_map_model(self.id_lookup)
    }

    /// The lowest identity this snapshot has not handed out yet.
    pub closed spec fn next_id(&self) -> ID {
        match self.ctx {
            Some(c) => c.next(),
            None => 0,
        }
    }

    /// The snapshot invariant: the tree is well-formed, the root has no
    /// parent, every id in use is below the allocator bound, no session
    /// is open, and the index holds exactly the reachable nodes.
    pub closed spec fn inv(&self) -> bool {
        &&& self.ctx is Some
        &&& !self.ctx->Some_0.mutation_active()
        &&& self.ctx->Some_0.updates_model() == Seq::<UpdateModel>::empty()
        &&& wf(self.root@)
        &&& self.root@.parent_id is None
        &&& ids_below(self.root@, self.ctx->Some_0.next())
        &&& self.index_model() == node_entries(self.root@)
    }

    /// Build a snapshot from a freshly constructed tree.  The context
    /// must hold the open session under which every node of the tree
    /// was created and attached, so that the recorded updates are
    /// exactly the bindings of the root's descendants.
    pub fn construct(root: TreeNode, ctx: Context) -> (s: State)
        requires
            ctx.mutation_active(),
            wf(root@),
            root@.parent_id is None,
            ids_below(root@, ctx.next()),
            forall|q: Map<ID, NodeModel>| #[trigger] apply_updates_model(q, ctx.updates_model())
                == q.union_prefer_right(children_entries(root@.children)),
        ensures
            s.inv(),
            s.root_model() == root@,
            s.index_model() == node_entries(root@),
            s.next_id() == ctx.next(),
    {
        let mut ctx = ctx;
        let updates = ctx.end_mutate();
        let mut map = id_map_new();
        proof {
            assert(id_map_model(map) =~= Map::<ID, NodeModel>::empty());
        }
        apply_updates(&mut map, &updates);
        let id = root.header().id();
        let rc_root = Rc::new(root);
        id_map_insert(&mut map, id, rc_root.clone());
        let s = State { root: rc_root, id_lookup: map, ctx: Some(ctx) };
        proof {
            let rm = s.root@;
            lemma_node_entries_assemble(rm);
            assert(apply_updates_model(Map::<ID, NodeModel>::empty(), updates@.map_values(
                |x: IdMapUpdate| x@)) == Map::<ID, NodeModel>::empty().union_prefer_right(
                children_entries(rm.children),
            ));
            assert(Map::<ID, NodeModel>::empty().union_prefer_right(
                children_entries(rm.children),
            ) =~= children_entries(rm.children));
            assert(s.index_model() =~= children_entries(rm.children).insert(rm.id, rm));
        }
        s
    }

    /// Build a snapshot from an existing tree value.  The root keeps its
    /// identity; every node below it is deep-copied with a fresh one.
    pub fn new(root: &TreeNode, ctx: Context) -> (s: State)
        requires
            !ctx.mutation_active(),
            ctx.updates_model() == Seq::<UpdateModel>::empty(),
            root@.parent_id is None,
            root@.id < ctx.next(),
            ctx.next() as nat + children_size(root@.children) <= ID::MAX as nat,
        ensures
            s.inv(),
            s.root_model().id == root@.id,
            s.root_model().parent_id is None,
            s.root_model().some_data == root@.some_data,
            s.root_model().data == root@.data,
            s.root_model().children.len() == root@.children.len(),
            forall|k: int| 0 <= k < root@.children.len() ==> copy_rel(
                #[trigger] root@.children[k],
                s.root_model().children[k],
                ctx.next(),
                s.next_id(),
                Some(root@.id),
            ),
            s.index_model() == node_entries(s.root_model()),
    {
        let mut ctx = ctx;
        ctx.begin_mutate();
        let fresh_root = refresh_node(root, &mut ctx);
        let updates = ctx.end_mutate();
        let mut map = id_map_new();
        proof {
            assert(id_map_model(map) =~= Map::<ID, NodeModel>::empty());
        }
        apply_updates(&mut map, &updates);
        let id = fresh_root.header().id();
        let rc_root = Rc::new(fresh_root);
        id_map_insert(&mut map, id, rc_root.clone());
        let s = State { root: rc_root, id_lookup: map, ctx: Some(ctx) };
        proof {
            let rm = s.root@;
            lemma_node_entries_assemble(rm);
            assert(apply_updates_model(Map::<ID, NodeModel>::empty(), updates@.map_values(
                |x: IdMapUpdate| x@)) == Map::<ID, NodeModel>::empty().union_prefer_right(
                children_entries(rm.children),
            ));
            assert(Map::<ID, NodeModel>::empty().union_prefer_right(
                children_entries(rm.children),
            ) =~= children_entries(rm.children));
            assert(s.index_model() =~= children_entries(rm.children).insert(rm.id, rm));
        }
        s
    }

    /// The root node.
    pub fn root(&self) -> (r: &TreeNode)
        ensures
            r@ == self.root_model(),
    {
        &self.root
    }

    /// A shared reference to the root node.
    pub fn root_ref(&self) -> (r: Rc<TreeNode>)
        ensures
            r@ == self.root_model(),
    {
        self.root.clone()
    }

    /// Look an id up in the identity index.
    pub fn ref_from_id(&self, id: ID) -> (r: Option<Rc<TreeNode>>)
        ensures
            match r {
                Some(rc) => self.index_model().contains_key(id) && rc@ == self.index_model()[id],
                None => !self.index_model().contains_key(id),
            },
    {
        id_map_get(&self.id_lookup, id)
    }
}

impl State {
    /// Open a mutation session on one reachable node.  The session gets
    /// a private, identity-preserving working copy of the node; the
    /// snapshot is locked until the session is committed.
    pub fn get_mut(&mut self, node: Rc<TreeNode>) -> (m: MutRef)
        requires
            old(self).inv(),
            lookup(old(self).root_model(), node@.id) == Some(node@),
        ensures
            m.sess(*final(self)),
            m.inv_local(),
            m.node_model() == node@,
            m.orig_model() == node@,
            m.session_next() == old(self).next_id(),
            final(self).root_model() == old(self).root_model(),
            final(self).index_model() == old(self).index_model(),
    {
        let mut ctx = self.ctx.take().unwrap();
        ctx.begin_mutate();
        let ghost sn = ctx.next();
        let work = (*node).clone();
        let m = MutRef {
            node: work,
            ctx,
            orig: Ghost(node@),
            base: Ghost(self.index_model()),
            root0: Ghost(self.root@),
            start_next: Ghost(sn),
            gone: Ghost(Set::empty()),
        };
        proof {
            lemma_lookup_props(self.root@, node@.id);
            assert(m.fresh_map() =~= Map::<ID, NodeModel>::empty()) by {
                assert(in_subtree(node@, node@.id));
            }
            assert forall|q: Map<ID, NodeModel>| #[trigger] apply_updates_model(
                q,
                m.ctx.updates_model(),
            ) == q.remove_keys(m.gone@).union_prefer_right(m.fresh_map()) by {
                assert(q.remove_keys(Set::<ID>::empty()).union_prefer_right(m.fresh_map()) =~= q);
            }
            assert forall|y: ID| #[trigger] in_subtree(node@, y) implies in_subtree(
                self.root@,
                y,
            ) by {}
        }
        m
    }

    /// Close a mutation session.  The pending index updates are applied,
    /// the edited node's binding is refreshed, and every ancestor of the
    /// edited node is rebuilt on the way to the root, keeping its
    /// identity and sharing all untouched subtrees.  The result is the
    /// snapshot whose tree is the old tree with the edited subtree
    /// replaced.
    pub fn commit(&mut self, m: MutRef)
        requires
            m.sess(*old(self)),
        ensures
            final(self).inv(),
            final(self).root_model() == replace_node(
                old(self).root_model(),
                m.orig_model().id,
                m.node_model(),
            ),
            final(self).index_model() == node_entries(final(self).root_model()),
            final(self).next_id() == m.session_next(),
    {
        let MutRef { node, mut ctx, orig, base, root0, start_next, gone } = m;
        let ghost cur = node@;
        let ghost x = orig@.id;
        let ghost r0 = self.root@;
        let nid = node.header().id();
        let rc_new = Rc::new(node);
        let updates = ctx.end_mutate();
        apply_updates(&mut self.id_lookup, &updates);
        id_map_insert(&mut self.id_lookup, nid, rc_new.clone());
        let ghost a2 = self.index_model();
        proof {
            // The replacement lemma's preconditions.
            lemma_lookup_props(r0, x);
            assert forall|y: ID| #[trigger] in_subtree(cur, y) implies in_subtree(orig@, y)
                || !in_subtree(r0, y) by {
                if !in_subtree(orig@, y) {
                    assert(start_next@ <= y);
                }
            }
            lemma_replace_struct(r0, x, cur);
            assert(in_subtree(r0, x));
        }
        let root_rc = self.root.clone();
        let res = rebuild(&root_rc, nid, &rc_new, &mut self.id_lookup);
        let new_root = res.unwrap();
        self.root = new_root;
        self.ctx = Some(ctx);
        proof {
            let nr = self.root@;
            let repl = replace_node(r0, x, cur);
            assert(nr == repl);
            // The invariant of the committed snapshot.
            assert(nr.parent_id is None);
            assert forall|y: ID| #[trigger] in_subtree(nr, y) implies y < self.ctx->Some_0.next()
                by {
                if in_subtree(cur, y) {
                    if in_subtree(orig@, y) {
                        assert(in_subtree(r0, y));
                    }
                } else {
                    assert(in_subtree(r0, y));
                }
            }
            // The committed index holds exactly the reachable nodes.
            assert(apply_updates_model(base@, updates@.map_values(|u: IdMapUpdate| u@))
                == base@.remove_keys(gone@).union_prefer_right(m.fresh_map()));
            assert(a2 == base@.remove_keys(gone@).union_prefer_right(m.fresh_map()).insert(
                x,
                cur,
            ));
            let pm = path_bindings(r0, x, cur);
            assert(self.index_model() == a2.union_prefer_right(pm));
            assert forall|y: ID| true implies #[trigger] self.index_model().contains_key(y)
                == in_subtree(nr, y) && (in_subtree(nr, y) ==> self.index_model()[y] == lookup(
                nr,
                y,
            )->Some_0) by {
                lemma_lookup_props(orig@, y);
                if pm.contains_key(y) {
                    // A rebuilt ancestor.
                    assert(on_path(r0, x, y));
                    let n0 = lookup(r0, y)->Some_0;
                    lemma_lookup_props(r0, y);
                    assert(!in_subtree(orig@, y)) by {
                        if in_subtree(orig@, y) && y != x {
                            lemma_lookup_nested(r0, x, y);
                            lemma_lookup_props(orig@, y);
                            assert(lookup(r0, y) == lookup(orig@, y));
                            assert(in_subtree(n0, x));
                            assert(!in_subtree(n0, x)) by {
                                let no = lookup(orig@, y)->Some_0;
                                assert(no == n0);
                                if y != orig@.id {
                                    let k = choose|k: int|
                                        0 <= k < orig@.children.len() && in_subtree(
                                            #[trigger] orig@.children[k],
                                            y,
                                        );
                                    lemma_lookup_child(orig@, y, k);
                                    lemma_lookup_props(orig@.children[k], y);
                                    assert(!in_subtree(orig@.children[k], orig@.id));
                                }
                            }
                        }
                    }
                    assert(in_subtree(nr, y));
                    assert(lookup(nr, y) == Some(replace_node(n0, x, cur)));
                    assert(self.index_model()[y] == replace_node(n0, x, cur));
                } else if y == x {
                    assert(in_subtree(cur, x));
                    assert(in_subtree(nr, x));
                    assert(lookup(nr, x) == lookup(cur, x));
                    assert(lookup(cur, x) == Some(cur));
                    assert(a2[x] == cur);
                    assert(self.index_model()[y] == cur);
                } else if in_subtree(cur, y) && !in_subtree(orig@, y) {
                    // A node created during the session.
                    assert(m.fresh_map().contains_key(y));
                    assert(a2[y] == lookup(cur, y)->Some_0);
                    assert(in_subtree(nr, y));
                    assert(lookup(nr, y) == lookup(cur, y));
                    assert(!base@.contains_key(y)) by {
                        if in_subtree(r0, y) {
                            assert(start_next@ <= y);
                        }
                    }
                } else if in_subtree(orig@, y) && !gone@.contains(y) {
                    // A node kept below the edited one.
                    assert(in_subtree(cur, y));
                    assert(in_subtree(nr, y));
                    assert(lookup(nr, y) == lookup(cur, y));
                    assert(in_subtree(r0, y));
                    assert(base@.contains_key(y));
                    if y != x {
                        assert(lookup(cur, y) == lookup(orig@, y));
                        lemma_lookup_nested(r0, x, y);
                        assert(base@[y] == lookup(r0, y)->Some_0);
                        assert(!m.fresh_map().contains_key(y));
                        assert(a2[y] == base@[y]);
                        assert(self.index_model()[y] == a2[y]);
                    }
                } else if in_subtree(orig@, y) {
                    // A node erased during the session.
                    assert(gone@.contains(y));
                    assert(!in_subtree(cur, y));
                    assert(!in_subtree(nr, y));
                    assert(!m.fresh_map().contains_key(y));
                    assert(!a2.contains_key(y));
                    assert(!self.index_model().contains_key(y));
                } else if in_subtree(r0, y) {
                    // A node outside the edited subtree, off the path.
                    assert(!on_path(r0, x, y));
                    assert(in_subtree(nr, y));
                    assert(!gone@.contains(y)) by {
                        if gone@.contains(y) {
                            assert(start_next@ <= y);
                        }
                    }
                    assert(base@.contains_key(y));
                    assert(!m.fresh_map().contains_key(y)) by {
                        if in_subtree(cur, y) && !in_subtree(orig@, y) {
                            assert(start_next@ <= y);
                        }
                    }
                    assert(a2[y] == base@[y]);
                    lemma_lookup_props(r0, y);
                    let n0 = lookup(r0, y)->Some_0;
                    assert(!in_subtree(n0, x));
                    lemma_replace_absent(n0, x, cur);
                    assert(lookup(nr, y) == Some(replace_node(n0, x, cur)));
                    assert(lookup(nr, y) == lookup(r0, y));
                    assert(self.index_model()[y] == a2[y]);
                } else {
                    // An id the state never used.
                    assert(!in_subtree(nr, y)) by {
                        if in_subtree(cur, y) {
                            assert(in_subtree(orig@, y) || start_next@ <= y);
                        }
                    }
                    assert(!base@.contains_key(y));
                    assert(!a2.contains_key(y));
                    assert(!self.index_model().contains_key(y));
                }
            }
            assert(self.index_model() =~= node_entries(nr));
        }
    }
}

/// A session that changes nothing commits the same tree: replacing any
/// reachable subtree by itself is the identity, so the rebuilt root,
/// and with it the key set of the identity index, are unchanged.
pub proof fn lemma_noop_replacement(s: &State, x: ID)
    requires
        s.inv(),
        in_subtree(s.root_model(), x),
    ensures
        replace_node(s.root_model(), x, lookup(s.root_model(), x)->Some_0) == s.root_model(),
{
    lemma_lookup_props(s.root_model(), x);
    lemma_replace_identity(s.root_model(), x);
}

/// The snapshot invariants, spelled out: every node reachable from the
/// root is indexed under its id and the index holds nothing else; every
/// reachable node resolves to a single well-formed node carrying that
/// id; the root's parent link is unset; and every reachable non-root
/// node records a parent that is itself reachable and holds it as a
/// child.
pub proof fn lemma_snapshot_invariants(s: &State)
    requires
        s.inv(),
    ensures
        forall|y: ID| #[trigger] in_subtree(s.root_model(), y) ==> s.index_model().contains_key(y)
            && s.index_model()[y] == lookup(s.root_model(), y)->Some_0,
        forall|y: ID| #[trigger] s.index_model().contains_key(y) ==> in_subtree(
            s.root_model(),
            y,
        ),
        forall|y: ID| #[trigger] in_subtree(s.root_model(), y) ==> lookup(s.root_model(), y)
            is Some && lookup(s.root_model(), y)->Some_0.id == y && wf(
            lookup(s.root_model(), y)->Some_0,
        ),
        s.root_model().parent_id is None,
        forall|y: ID|
            #[trigger] in_subtree(s.root_model(), y) && y != s.root_model().id ==> lookup(
                s.root_model(),
                y,
            )->Some_0.parent_id is Some && in_subtree(
                s.root_model(),
                lookup(s.root_model(), y)->Some_0.parent_id->Some_0,
            ) && (exists|k: int|
                0 <= k < lookup(
                    s.root_model(),
                    lookup(s.root_model(), y)->Some_0.parent_id->Some_0,
                )->Some_0.children.len() && lookup(
                    s.root_model(),
                    lookup(s.root_model(), y)->Some_0.parent_id->Some_0,
                )->Some_0.children[k] == lookup(s.root_model(), y)->Some_0),
{
    let rm = s.root_model();
    assert forall|y: ID| #[trigger] in_subtree(rm, y) implies s.index_model().contains_key(y)
        && s.index_model()[y] == lookup(rm, y)->Some_0 && lookup(rm, y) is Some && lookup(
        rm,
        y,
    )->Some_0.id == y && wf(lookup(rm, y)->Some_0) by {
        lemma_lookup_props(rm, y);
    }
    assert forall|y: ID| #[trigger] in_subtree(rm, y) && y != rm.id implies lookup(
        rm,
        y,
    )->Some_0.parent_id is Some && in_subtree(rm, lookup(rm, y)->Some_0.parent_id->Some_0) && (
    exists|k: int|
        0 <= k < lookup(rm, lookup(rm, y)->Some_0.parent_id->Some_0)->Some_0.children.len()
            && lookup(rm, lookup(rm, y)->Some_0.parent_id->Some_0)->Some_0.children[k] == lookup(
            rm,
            y,
        )->Some_0) by {
        lemma_parent_link(rm, y);
    }
}

impl Clone for State {
    /// A second snapshot of the same state.  The root and the whole
    /// index are shared; nothing is copied.
    fn clone(&self) -> (r: Self)
        ensures
            r.root_model() == self.root_model(),
            r.index_model() == self.index_model(),
            r.next_id() == self.next_id(),
            self.inv() ==> r.inv(),
    {
        let ctx2 = match &self.ctx {
            Some(c) => Some(c.duplicate_empty()),
            None => None,
        };
        State { root: self.root.clone(), id_lookup: id_map_clone(&self.id_lookup), ctx: ctx2 }
    }
}

/// An open mutation session: a private working copy of one node, the
/// session context, and the bookkeeping that ties both to the snapshot
/// the session was opened on.
pub struct MutRef {
    node: TreeNode,
    ctx: Context,
    orig: Ghost<NodeModel>,
    base: Ghost<Map<ID, NodeModel>>,
    root0: Ghost<NodeModel>,
    start_next: Ghost<ID>,
    gone: Ghost<Set<ID>>,
}

impl MutRef {
    /// The model of the working copy.
    pub closed spec fn node_model(&self) -> NodeModel {
        self.node@
    }

    /// The model the edited node had when the session began.
    pub closed spec fn orig_model(&self) -> NodeModel {
        self.orig@
    }

    /// The lowest identity the session has not handed out yet.
    pub closed spec fn session_next(&self) -> ID {
        self.ctx.next()
    }

    /// The bindings of the nodes created during this session, all of
    /// them reachable from the working copy.
    closed spec fn fresh_map(&self) -> Map<ID, NodeModel> {
        Map::new(
            |y: ID| in_subtree(self.node@, y) && !in_subtree(self.orig@, y),
            |y: ID| lookup(self.node@, y)->Some_0,
        )
    }

    /// The session's own invariant: the working copy is well-formed and
    /// keeps the edited node's identity and parent link; every id it
    /// uses is either an original one or one handed out during the
    /// session; erased ids are gone from it; untouched nodes below it
    /// still resolve as they did; and the pending updates, applied to
    /// any map, erase exactly the erased ids and add exactly the
    /// session's new bindings.
    pub closed spec fn inv_local(&self) -> bool {
        let cur = self.node@;
        let orig = self.orig@;
        &&& wf(self.root0@)
        &&& self.root0@.parent_id is None
        &&& ids_below(self.root0@, self.start_next@)
        &&& self.base@ == node_entries(self.root0@)
        &&& lookup(self.root0@, orig.id) == Some(orig)
        &&& self.ctx.mutation_active()
        &&& self.start_next@ <= self.ctx.next()
        &&& wf(cur)
        &&& cur.id == orig.id
        &&& cur.parent_id == orig.parent_id
        &&& forall|y: ID| #[trigger] in_subtree(cur, y) ==> !self.gone@.contains(y)
        &&& forall|y: ID| #[trigger] in_subtree(cur, y) ==> in_subtree(orig, y) || (
        self.start_next@ <= y < self.ctx.next())
        &&& forall|y: ID|
            #[trigger] in_subtree(orig, y) && !self.gone@.contains(y) ==> in_subtree(cur, y)
        &&& forall|y: ID| #[trigger] self.gone@.contains(y) ==> in_subtree(orig, y) || (
        self.start_next@ <= y < self.ctx.next())
        &&& forall|y: ID|
            #[trigger] in_subtree(orig, y) && !self.gone@.contains(y) && y != orig.id ==> lookup(
                cur,
                y,
            ) == lookup(orig, y)
        &&& forall|q: Map<ID, NodeModel>| #[trigger] apply_updates_model(
            q,
            self.ctx.updates_model(),
        ) == q.remove_keys(self.gone@).union_prefer_right(self.fresh_map())
    }

    /// The session belongs to the snapshot `s`: `s` is locked while the
    /// session is open, and the session's bookkeeping was taken from it.
    pub closed spec fn sess(&self, s: State) -> bool {
        &&& self.inv_local()
        &&& s.ctx is None
        &&& s.root@ == self.root0@
        &&& s.index_model() == self.base@
    }

    /// A borrow of the working copy.
    pub fn node(&self) -> (r: &TreeNode)
        ensures
            r@ == self.node_model(),
    {
        &self.node
    }

    /// Overwrite the working copy's scalar payload.
    pub fn set_some_data(&mut self, v: u64)
        requires
            old(self).inv_local(),
        ensures
            final(self).inv_local(),
            final(self).node_model() == (NodeModel { some_data: v, ..old(self).node_model() }),
            final(self).orig_model() == old(self).orig_model(),
            final(self).session_next() == old(self).session_next(),
            forall|s: State| #[trigger] old(self).sess(s) ==> final(self).sess(s),
    {
        self.node.set_some_data(v);
        proof {
            self.lemma_payload_edit(*old(self));
        }
    }

    /// Append to the working copy's sequence payload.
    pub fn push_data(&mut self, v: u64)
        requires
            old(self).inv_local(),
        ensures
            final(self).inv_local(),
            final(self).node_model() == (NodeModel {
                data: old(self).node_model().data.push(v),
                ..old(self).node_model()
            }),
            final(self).orig_model() == old(self).orig_model(),
            final(self).session_next() == old(self).session_next(),
            forall|s: State| #[trigger] old(self).sess(s) ==> final(self).sess(s),
    {
        self.node.push_data(v);
        proof {
            self.lemma_payload_edit(*old(self));
        }
    }

    /// Append a deep copy of the child at position `i` as a new last
    /// child of the working copy.  Every node of the copy gets a fresh
    /// identity; the payloads and shape match the copied subtree.
    pub fn clone_child(&mut self, i: usize)
        requires
            old(self).inv_local(),
            i < old(self).node_model().children.len(),
            old(self).session_next() as nat + subtree_size(
                old(self).node_model().children[i as int],
            ) <= ID::MAX as nat,
        ensures
            final(self).inv_local(),
            final(self).node_model() == with_child(
                old(self).node_model(),
                final(self).node_model().children.last(),
            ),
            copy_rel(
                old(self).node_model().children[i as int],
                final(self).node_model().children.last(),
                old(self).session_next(),
                final(self).session_next(),
                Some(old(self).node_model().id),
            ),
            final(self).orig_model() == old(self).orig_model(),
            old(self).session_next() <= final(self).session_next(),
            forall|s: State| #[trigger] old(self).sess(s) ==> final(self).sess(s),
    {
        let ghost cur0 = self.node@;
        let ghost orig = self.orig@;
        let ghost gone = self.gone@;
        let ghost n0 = self.ctx.next();
        let ghost u0 = self.ctx.updates_model();
        let ghost fresh0 = self.fresh_map();
        let mut c = self.node.get_child(i).clone();
        proof {
            assert(c@ == cur0.children[i as int]);
            assert(c@.parent_id == Some(cur0.id));
        }
        c.poll_mut(&mut self.ctx);
        let ghost n1 = self.ctx.next();
        let ghost copy = c@;
        self.node.push_child_raw(c);
        proof {
            let cur1 = self.node@;
            assert(copy_rel(cur0.children[i as int], copy, n0, n1, Some(cur0.id)));
            // Everything in the working copy so far uses an id below `n0`.
            assert forall|y: ID| #[trigger] in_subtree(cur0, y) implies y < n0 by {
                if in_subtree(orig, y) {
                    lemma_lookup_props(self.root0@, orig.id);
                    assert(in_subtree(self.root0@, y));
                }
            }
            assert forall|y: ID| #[trigger] in_subtree(copy, y) implies !in_subtree(
                cur0,
                y,
            ) by {}
            lemma_push_child(cur0, copy);
            assert(cur1 == with_child(cur0, copy));
            // The session invariant survives.
            assert forall|y: ID| #[trigger] in_subtree(cur1, y) implies !gone.contains(y) by {
                if in_subtree(copy, y) && gone.contains(y) {
                    assert(in_subtree(orig, y) || y < n0);
                    assert(in_subtree(orig, y) ==> in_subtree(cur0, y) || gone.contains(y));
                    if in_subtree(orig, y) {
                        lemma_lookup_props(self.root0@, orig.id);
                        assert(in_subtree(self.root0@, y));
                        assert(y < self.start_next@);
                    }
                }
            }
            assert forall|y: ID|
                #[trigger] in_subtree(orig, y) && !gone.contains(y) && y != orig.id implies lookup(
                cur1,
                y,
            ) == lookup(orig, y) by {
                assert(in_subtree(cur0, y));
                assert(y != cur0.id);
                assert(lookup(cur1, y) == lookup(cur0, y));
            }
            // The recorded bindings grow by exactly the copy's entries.
            assert forall|y: ID| #[trigger] in_subtree(copy, y) implies !in_subtree(
                orig,
                y,
            ) by {
                if in_subtree(orig, y) {
                    lemma_lookup_props(self.root0@, orig.id);
                    assert(in_subtree(self.root0@, y));
                    assert(y < self.start_next@);
                }
            }
            assert(self.fresh_map() =~= fresh0.union_prefer_right(node_entries(copy))) by {
                assert forall|y: ID| #[trigger] in_subtree(cur1, y) && !in_subtree(
                    orig,
                    y,
                ) implies self.fresh_map()[y] == fresh0.union_prefer_right(
                    node_entries(copy),
                )[y] by {
                    if in_subtree(copy, y) {
                        assert(lookup(cur1, y) == lookup(copy, y));
                    } else {
                        assert(in_subtree(cur0, y));
                        assert(y != cur0.id);
                        assert(lookup(cur1, y) == lookup(cur0, y));
                    }
                }
            }
            assert forall|q: Map<ID, NodeModel>| #[trigger] apply_updates_model(
                q,
                self.ctx.updates_model(),
            ) == q.remove_keys(gone).union_prefer_right(self.fresh_map()) by {
                assert(apply_updates_model(q, self.ctx.updates_model()) == apply_updates_model(
                    q,
                    u0,
                ).union_prefer_right(node_entries(copy)));
                assert(q.remove_keys(gone).union_prefer_right(fresh0).union_prefer_right(
                    node_entries(copy),
                ) =~= q.remove_keys(gone).union_prefer_right(
                    fresh0.union_prefer_right(node_entries(copy)),
                ));
            }
        }
    }

    /// Drop the child at position `i` of the working copy, together
    /// with its whole subtree.  The ids of the dropped subtree are
    /// erased from the pending index updates.
    pub fn remove_child(&mut self, i: usize)
        requires
            old(self).inv_local(),
            i < old(self).node_model().children.len(),
        ensures
            final(self).inv_local(),
            final(self).node_model() == without_child(old(self).node_model(), i as int),
            final(self).orig_model() == old(self).orig_model(),
            final(self).session_next() == old(self).session_next(),
            forall|y: ID|
                #[trigger] in_subtree(old(self).node_model().children[i as int], y)
                    ==> !in_subtree(final(self).node_model(), y),
            forall|s: State| #[trigger] old(self).sess(s) ==> final(self).sess(s),
    {
        let ghost cur0 = self.node@;
        let ghost orig = self.orig@;
        let ghost gone0 = self.gone@;
        let ghost u0 = self.ctx.updates_model();
        let ghost fresh0 = self.fresh_map();
        let ghost sub = cur0.children[i as int];
        let c = self.node.remove_child_raw(i);
        c.poll(&mut self.ctx);
        proof {
            self.gone@ = gone0.union(node_ids(sub));
            lemma_remove_child(cur0, i as int);
            let cur1 = self.node@;
            let gone1 = self.gone@;
            assert(cur1 == without_child(cur0, i as int));
            assert forall|y: ID| #[trigger] in_subtree(cur1, y) implies !gone1.contains(y)
                && (in_subtree(orig, y) || (self.start_next@ <= y < self.ctx.next())) by {
                assert(in_subtree(cur0, y));
                assert(!in_subtree(sub, y));
            }
            assert forall|y: ID| #[trigger] gone1.contains(y) implies in_subtree(orig, y) || (
            self.start_next@ <= y < self.ctx.next()) by {
                if node_ids(sub).contains(y) {
                    assert(in_subtree(sub, y));
                    assert(in_subtree(cur0, y));
                }
            }
            assert forall|y: ID|
                #[trigger] in_subtree(orig, y) && !gone1.contains(y) implies in_subtree(
                cur1,
                y,
            ) by {
                assert(!gone0.contains(y));
                assert(in_subtree(cur0, y));
                assert(!node_ids(sub).contains(y));
                assert(!in_subtree(sub, y));
            }
            assert forall|y: ID|
                #[trigger] in_subtree(orig, y) && !gone1.contains(y) && y != orig.id implies lookup(
                cur1,
                y,
            ) == lookup(orig, y) by {
                assert(in_subtree(cur0, y));
                assert(y != cur0.id);
                assert(!in_subtree(sub, y));
                assert(lookup(cur1, y) == lookup(cur0, y));
            }
            assert(self.fresh_map() =~= fresh0.remove_keys(node_ids(sub))) by {
                assert forall|y: ID| #[trigger] in_subtree(cur1, y) && !in_subtree(
                    orig,
                    y,
                ) implies self.fresh_map()[y] == fresh0.remove_keys(node_ids(sub))[y] by {
                    assert(in_subtree(cur0, y));
                    assert(y != cur0.id);
                    assert(!in_subtree(sub, y));
                    assert(lookup(cur1, y) == lookup(cur0, y));
                }
            }
            assert forall|q: Map<ID, NodeModel>| #[trigger] apply_updates_model(
                q,
                self.ctx.updates_model(),
            ) == q.remove_keys(gone1).union_prefer_right(self.fresh_map()) by {
                assert(apply_updates_model(q, self.ctx.updates_model()) == apply_updates_model(
                    q,
                    u0,
                ).remove_keys(node_ids(sub)));
                assert(q.remove_keys(gone0).union_prefer_right(fresh0).remove_keys(node_ids(sub))
                    =~= q.remove_keys(gone1).union_prefer_right(
                    fresh0.remove_keys(node_ids(sub)),
                ));
            }
        }
    }

    /// A payload edit of the working copy's top node preserves the
    /// session invariant.
    proof fn lemma_payload_edit(&self, prev: MutRef)
        requires
            prev.inv_local(),
            self.node@.id == prev.node@.id,
            self.node@.children == prev.node@.children,
            self.node@.parent_id == prev.node@.parent_id,
            self.ctx == prev.ctx,
            self.orig == prev.orig,
            self.base == prev.base,
            self.root0 == prev.root0,
            self.start_next == prev.start_next,
            self.gone == prev.gone,
        ensures
            self.inv_local(),
            forall|s: State| #[trigger] prev.sess(s) ==> self.sess(s),
    {
        lemma_same_children(prev.node@, self.node@);
        assert(self.fresh_map() =~= prev.fresh_map()) by {
            assert forall|y: ID|
                in_subtree(self.node@, y) && !in_subtree(self.orig@, y) implies lookup(
                self.node@,
                y,
            ) == lookup(prev.node@, y) by {
                assert(in_subtree(self.orig@, self.orig@.id));
                assert(y != self.node@.id);
            }
        }
    }
}

} // verus!
