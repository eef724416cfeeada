//! The context of a mutation session.
//!
//! A [`Context`] carries the identity allocator and the buffer of pending
//! identity-index updates that a session accumulates.  Updates are
//! appended in traversal order and drained by the snapshot when the
//! session ends.  The status field brackets sessions: at most one session
//! is open per context at a time.

use std::rc::Rc;
use vstd::prelude::*;

use crate::id::ID;
use crate::id::IdAllocator;
use crate::model::NodeModel;
use crate::node::TreeNode;

verus! {

/// One pending change to the identity index: bind an id to a node, or
/// drop an id.
pub enum IdMapUpdate {
    Bind(ID, Rc<TreeNode>),
    Erase(ID),
}

/// The model of one pending change.
pub ghost enum UpdateModel {
    Bind(ID, NodeModel),
    Erase(ID),
}

impl View for IdMapUpdate {
    type V = UpdateModel;

    open spec fn view(&self) -> UpdateModel {
        match self {
            IdMapUpdate::Bind(i, rc) => UpdateModel::Bind(*i, rc@),
            IdMapUpdate::Erase(i) => UpdateModel::Erase(*i),
        }
    }
}

/// The effect of one pending change on an id-to-node map.
pub open spec fn apply_one(q: Map<ID, NodeModel>, u: UpdateModel) -> Map<ID, NodeModel> {
    match u {
        UpdateModel::Bind(i, n) => q.insert(i, n),
        UpdateModel::Erase(i) => q.remove(i),
    }
}

/// The effect of a whole buffer of pending changes, applied first to last.
pub open spec fn apply_updates_model(q: Map<ID, NodeModel>, u: Seq<UpdateModel>) -> Map<
    ID,
    NodeModel,
>
    decreases u.len(),
{
    if u.len() == 0 {
        q
    } else {
        apply_updates_model(apply_one(q, u[0]), u.subrange(1, u.len() as int))
    }
}

/// Applying a concatenation applies the two parts in order.
pub proof fn lemma_apply_append(q: Map<ID, NodeModel>, u1: Seq<UpdateModel>, u2: Seq<UpdateModel>)
    ensures
        apply_updates_model(q, u1 + u2) == apply_updates_model(apply_updates_model(q, u1), u2),
    decreases u1.len(),
{
    if u1.len() == 0 {
        assert(u1 + u2 =~= u2);
    } else {
        assert((u1 + u2)[0] == u1[0]);
        assert((u1 + u2).subrange(1, (u1 + u2).len() as int) =~= u1.subrange(
            1,
            u1.len() as int,
        ) + u2);
        lemma_apply_append(apply_one(q, u1[0]), u1.subrange(1, u1.len() as int), u2);
    }
}

/// Appending one change applies it after the rest.
pub proof fn lemma_apply_push(q: Map<ID, NodeModel>, u: Seq<UpdateModel>, x: UpdateModel)
    ensures
        apply_updates_model(q, u.push(x)) == apply_one(apply_updates_model(q, u), x),
{
    reveal_with_fuel(apply_updates_model, 2);
    assert(u.push(x) =~= u + seq![x]);
    lemma_apply_append(q, u, seq![x]);
    assert(seq![x].subrange(1, 1) =~= Seq::<UpdateModel>::empty());
    assert(seq![x][0] == x);
}

/// The per-session coordinator: identity allocator, pending index
/// updates, and the session bracket.
pub struct Context {
    status_mutation: bool,
    updates: Vec<IdMapUpdate>,
    alloc: IdAllocator,
}

impl Context {
    /// The lowest identity not handed out yet.
    pub closed spec fn next(&self) -> ID {
        self.alloc.next()
    }

    /// The models of the pending updates, in order.
    pub closed spec fn updates_model(&self) -> Seq<UpdateModel> {
        self.updates@.map_values(|u: IdMapUpdate| u@)
    }

    /// Whether a mutation session is open on this context.
    pub closed spec fn mutation_active(&self) -> bool {
        self.status_mutation
    }

    /// A fresh, inactive context with nothing recorded.
    pub fn new() -> (r: Self)
        ensures
            r.next() == 0,
            !r.mutation_active(),
            r.updates_model() == Seq::<UpdateModel>::empty(),
    {
        let r = Context { status_mutation: false, updates: Vec::new(), alloc: IdAllocator::new() };
        proof {
            assert(r.updates_model() =~= Seq::<UpdateModel>::empty());
        }
        r
    }

    /// Open a mutation session.  Sessions do not nest.
    pub fn begin_mutate(&mut self)
        requires
            !old(self).mutation_active(),
        ensures
            final(self).mutation_active(),
            final(self).updates_model() == old(self).updates_model(),
            final(self).next() == old(self).next(),
    {
        self.status_mutation = true;
    }

    /// Whether a mutation session is open.
    pub fn mutation_session_active(&self) -> (b: bool)
        ensures
            b == self.mutation_active(),
    {
        self.status_mutation
    }

    /// Close the open mutation session and drain the pending updates.
    pub fn end_mutate(&mut self) -> (u: Vec<IdMapUpdate>)
        requires
            old(self).mutation_active(),
        ensures
            !final(self).mutation_active(),
            final(self).updates_model() == Seq::<UpdateModel>::empty(),
            final(self).next() == old(self).next(),
            u@.map_values(|x: IdMapUpdate| x@) == old(self).updates_model(),
    {
        self.status_mutation = false;
        let mut u: Vec<IdMapUpdate> = Vec::new();
        core::mem::swap(&mut u, &mut self.updates);
        proof {
            assert(self.updates_model() =~= Seq::<UpdateModel>::empty());
        }
        u
    }

    /// Hand out the next unused identity.
    pub fn new_id(&mut self) -> (r: ID)
        requires
            old(self).next() < ID::MAX,
        ensures
            r == old(self).next(),
            final(self).next() == old(self).next() + 1,
            final(self).updates_model() == old(self).updates_model(),
            final(self).mutation_active() == old(self).mutation_active(),
    {
        self.alloc.new_id()
    }

    /// A second context with the same allocator position and status,
    /// and nothing recorded.
    pub fn duplicate_empty(&self) -> (r: Context)
        ensures
            r.next() == self.next(),
            r.mutation_active() == self.mutation_active(),
            r.updates_model() == Seq::<UpdateModel>::empty(),
    {
        let r = Context {
            status_mutation: self.status_mutation,
            updates: Vec::new(),
            alloc: self.alloc.duplicate(),
        };
        proof {
            assert(r.updates_model() =~= Seq::<UpdateModel>::empty());
        }
        r
    }

    /// Record that `id` is now bound to `node`.
    pub fn node_map_update(&mut self, id: ID, node: Rc<TreeNode>)
        ensures
            final(self).updates_model() == old(self).updates_model().push(
                UpdateModel::Bind(id, node@),
            ),
            final(self).next() == old(self).next(),
            final(self).mutation_active() == old(self).mutation_active(),
    {
        let u = IdMapUpdate::Bind(id, node);
        proof {
            let prior = self.updates@;
            assert(prior.push(u).map_values(|x: IdMapUpdate| x@) =~= prior.map_values(
                |x: IdMapUpdate| x@,
            ).push(u@));
        }
        self.updates.push(u);
    }

    /// Record that `id` is no longer bound.
    pub fn node_map_erase(&mut self, id: ID)
        ensures
            final(self).updates_model() == old(self).updates_model().push(UpdateModel::Erase(id)),
            final(self).next() == old(self).next(),
            final(self).mutation_active() == old(self).mutation_active(),
    {
        let u = IdMapUpdate::Erase(id);
        proof {
            let prior = self.updates@;
            assert(prior.push(u).map_values(|x: IdMapUpdate| x@) =~= prior.map_values(
                |x: IdMapUpdate| x@,
            ).push(u@));
        }
        self.updates.push(u);
    }
}

} // verus!
