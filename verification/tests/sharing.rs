//! Structural sharing, handles, and the smaller pieces of the library.

use cod::Child;
use cod::Context;
use cod::Header;
use cod::Node;
use cod::IdAllocator;
use cod::State;
use cod::TreeNode;

fn node(ctx: &mut Context, some_data: u64, data: Vec<u64>, children: Vec<TreeNode>) -> TreeNode {
    let header = Header::new(ctx);
    let mut kids: Vec<Child> = Vec::new();
    for c in children {
        kids.push(Child::with_parent_header(&header, c, ctx));
    }
    TreeNode::with_header(header, some_data, data, kids)
}

#[test]
fn snapshot_clone_shares_root() {
    let mut ctx = Context::new();
    ctx.begin_mutate();
    let a = node(&mut ctx, 4, vec![8], Vec::new());
    let state = State::construct(a, ctx);
    let copy = state.clone();
    assert!(std::rc::Rc::ptr_eq(&state.root_ref(), &copy.root_ref()));
    assert_eq!(copy.root().some_data, 4);
}

#[test]
fn untouched_subtree_shared() {
    let mut ctx = Context::new();
    ctx.begin_mutate();
    let edited = node(&mut ctx, 2, Vec::new(), Vec::new());
    let bystander = node(&mut ctx, 3, Vec::new(), Vec::new());
    let a = node(&mut ctx, 1, Vec::new(), vec![edited, bystander]);
    let old = State::construct(a, ctx);
    let mut new = old.clone();
    {
        let rc = new.root().get_child(0).get_ref();
        let mut m = new.get_mut(rc);
        m.set_some_data(20);
        new.commit(m);
    }
    // the node off the edited path is pointer-identical in both snapshots
    assert!(std::rc::Rc::ptr_eq(
        &old.root().get_child(1).get_ref(),
        &new.root().get_child(1).get_ref()
    ));
    // the edited one is not
    assert!(!std::rc::Rc::ptr_eq(
        &old.root().get_child(0).get_ref(),
        &new.root().get_child(0).get_ref()
    ));
}

#[test]
fn old_snapshot_still_observable() {
    let mut ctx = Context::new();
    ctx.begin_mutate();
    let b = node(&mut ctx, 2, vec![6], Vec::new());
    let a = node(&mut ctx, 1, Vec::new(), vec![b]);
    let old = State::construct(a, ctx);
    let b_id = old.root().get_child(0).get_id();
    let mut new = old.clone();
    {
        let rc = new.root().get_child(0).get_ref();
        let mut m = new.get_mut(rc);
        m.push_data(7);
        new.commit(m);
    }
    // the old snapshot still answers with the old values
    assert_eq!(old.root().some_data, 1);
    assert_eq!(old.root().get_child(0).get().data, vec![6]);
    assert_eq!(old.ref_from_id(b_id).unwrap().data, vec![6]);
    assert_eq!(old.ref_from_id(old.root().header().id()).unwrap().some_data, 1);
}

#[test]
fn ids_are_fresh() {
    let mut ctx = Context::new();
    assert!(!ctx.mutation_session_active());
    ctx.begin_mutate();
    assert!(ctx.mutation_session_active());
    let h1 = Header::new(&mut ctx);
    let h2 = Header::new(&mut ctx);
    assert_ne!(h1.id(), h2.id());
    assert!(h1.parent_id().is_none());

    let mut alloc = IdAllocator::new();
    let i1 = alloc.new_id();
    let i2 = alloc.new_id();
    assert_eq!(i1, 0);
    assert_eq!(i2, 1);
}

#[test]
fn make_mut_keeps_identity() {
    let mut ctx = Context::new();
    let leaf = node(&mut ctx, 5, vec![1], Vec::new());
    let parent_header = Header::new(&mut ctx);
    let mut child = Child::with_parent_header(&parent_header, leaf, &mut ctx);
    let id_before = child.get_id();
    let mut m = child.make_mut();
    m.set_some_data(55);
    m.push_data(2);
    child.end_mut(m);
    assert_eq!(child.get_id(), id_before);
    assert_eq!(child.get().some_data, 55);
    assert_eq!(child.get().data, vec![1, 2]);
}

#[test]
fn poll_mut_assigns_fresh_ids() {
    let mut ctx = Context::new();
    let c = node(&mut ctx, 3, vec![4], Vec::new());
    let b = node(&mut ctx, 2, Vec::new(), vec![c]);
    let parent_header = Header::new(&mut ctx);
    let mut child = Child::with_parent_header(&parent_header, b, &mut ctx);
    let top_before = child.get_id();
    let inner_before = child.get().get_child(0).get_id();
    child.poll_mut(&mut ctx);
    assert_ne!(child.get_id(), top_before);
    assert_ne!(child.get().get_child(0).get_id(), inner_before);
    // payloads are kept
    assert_eq!(child.get().some_data, 2);
    assert_eq!(child.get().get_child(0).get().some_data, 3);
    assert_eq!(child.get().get_child(0).get().data, vec![4]);
}

#[test]
fn child_clone_is_shallow() {
    let mut ctx = Context::new();
    let leaf = node(&mut ctx, 5, Vec::new(), Vec::new());
    let parent_header = Header::new(&mut ctx);
    let child = Child::with_parent_header(&parent_header, leaf, &mut ctx);
    let copy = child.clone();
    assert_eq!(copy.get_id(), child.get_id());
    assert!(std::rc::Rc::ptr_eq(&copy.get_ref(), &child.get_ref()));
}

#[test]
fn state_new_keeps_root_id_and_payload() {
    let mut ctx = Context::new();
    let b = node(&mut ctx, 2, vec![1, 3], Vec::new());
    let a = node(&mut ctx, 15, Vec::new(), vec![b]);
    let a_id = a.header().id();
    let b_id = a.get_child(0).get_id();
    let state = State::new(&a, ctx.duplicate_empty());
    assert_eq!(state.root().header().id(), a_id);
    assert_eq!(state.root().some_data, 15);
    // the child is a fresh copy with a fresh id and the same payload
    assert_ne!(state.root().get_child(0).get_id(), b_id);
    assert_eq!(state.root().get_child(0).get().data, vec![1, 3]);
    // the index resolves exactly the snapshot's own nodes
    let new_b_id = state.root().get_child(0).get_id();
    assert_eq!(state.ref_from_id(new_b_id).unwrap().data, vec![1, 3]);
    assert!(state.ref_from_id(b_id).is_none());
}
