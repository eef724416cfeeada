//! End-to-end scenarios: building snapshots, editing through sessions,
//! deep copies, and the identity index.

use cod::Child;
use cod::Context;
use cod::Header;
use cod::Node;
use cod::State;
use cod::TreeNode;

/// A node with the given payloads and children, built bottom-up.
fn node(ctx: &mut Context, some_data: u64, data: Vec<u64>, children: Vec<TreeNode>) -> TreeNode {
    let header = Header::new(ctx);
    let mut kids: Vec<Child> = Vec::new();
    for c in children {
        kids.push(Child::with_parent_header(&header, c, ctx));
    }
    TreeNode::with_header(header, some_data, data, kids)
}

#[test]
fn deep_copy() {
    let mut ctx = Context::new();
    let c3 = node(&mut ctx, 3, Vec::new(), Vec::new());
    let c2 = node(&mut ctx, 2, Vec::new(), vec![c3]);
    let structure = node(&mut ctx, 1, Vec::new(), vec![c2]);
    let state1 = State::new(&structure, ctx.duplicate_empty());
    let mut state2 = state1.clone();
    {
        let root_rc = state2.root_ref();
        let mut root = state2.get_mut(root_rc);
        root.clone_child(0);
        state2.commit(root);
    }
    assert_eq!(state2.root().get_child(1).get().some_data, 2);
    assert_eq!(state2.root().get_child(1).get().get_child(0).get().some_data, 3);
    // the deep copy changes ids
    assert_ne!(
        state2.root().get_child(0).get_id(),
        state2.root().get_child(1).get_id()
    );
}

#[test]
fn basic_build() {
    let mut ctx = Context::new();
    ctx.begin_mutate();
    let b = node(&mut ctx, 0, vec![1, 3], Vec::new());
    let a = node(&mut ctx, 15, Vec::new(), vec![b]);
    let state = State::construct(a, ctx);
    assert_eq!(state.root().some_data, 15);
    assert_eq!(state.root().get_child(0).get().data, vec![1, 3]);
}

#[test]
fn persistent_clone() {
    let mut ctx = Context::new();
    ctx.begin_mutate();
    let b = node(&mut ctx, 0, vec![1, 3], Vec::new());
    let a = node(&mut ctx, 15, Vec::new(), vec![b]);
    let old = State::construct(a, ctx);
    let mut new = old.clone();
    {
        let child_rc = new.root().get_child(0).get_ref();
        let mut m = new.get_mut(child_rc);
        m.push_data(123);
        new.commit(m);
    }
    assert_eq!(old.root().get_child(0).get().data, vec![1, 3]);
    assert_eq!(new.root().get_child(0).get().data, vec![1, 3, 123]);
}

#[test]
fn ancestor_propagation() {
    let mut ctx = Context::new();
    ctx.begin_mutate();
    let c = node(&mut ctx, 30, Vec::new(), Vec::new());
    let b = node(&mut ctx, 20, Vec::new(), vec![c]);
    let a = node(&mut ctx, 10, Vec::new(), vec![b]);
    let old = State::construct(a, ctx);
    let mut new = old.clone();
    let a_id = old.root().header().id();
    let b_id = old.root().get_child(0).get_id();
    let c_id = old.root().get_child(0).get().get_child(0).get_id();
    {
        let c_rc = new.root().get_child(0).get().get_child(0).get_ref();
        let mut m = new.get_mut(c_rc);
        m.set_some_data(33);
        new.commit(m);
    }
    // fresh values on the whole path to the root
    assert!(!std::rc::Rc::ptr_eq(&old.root_ref(), &new.root_ref()));
    assert!(!std::rc::Rc::ptr_eq(
        &old.root().get_child(0).get_ref(),
        &new.root().get_child(0).get_ref()
    ));
    // with the ids of the originals
    assert_eq!(new.root().header().id(), a_id);
    assert_eq!(new.root().get_child(0).get_id(), b_id);
    assert_eq!(new.root().get_child(0).get().get_child(0).get_id(), c_id);
    assert_eq!(
        new.root().get_child(0).get().get_child(0).get().some_data,
        33
    );
    assert_eq!(old.root().get_child(0).get().get_child(0).get().some_data, 30);
}

#[test]
fn deep_copy_id_rewrite() {
    let mut ctx = Context::new();
    ctx.begin_mutate();
    let c1 = node(&mut ctx, 7, vec![9], Vec::new());
    let b1 = node(&mut ctx, 5, Vec::new(), vec![c1]);
    let root = node(&mut ctx, 1, Vec::new(), vec![b1]);
    let mut state = State::construct(root, ctx);
    {
        let root_rc = state.root_ref();
        let mut m = state.get_mut(root_rc);
        m.clone_child(0);
        state.commit(m);
    }
    let first = state.root().get_child(0);
    let second = state.root().get_child(1);
    assert_ne!(first.get_id(), second.get_id());
    assert_ne!(
        first.get().get_child(0).get_id(),
        second.get().get_child(0).get_id()
    );
    // the payload matches
    assert_eq!(second.get().some_data, 5);
    assert_eq!(second.get().get_child(0).get().some_data, 7);
    assert_eq!(second.get().get_child(0).get().data, vec![9]);
}

#[test]
fn index_lookup_survives_mutation() {
    let mut ctx = Context::new();
    ctx.begin_mutate();
    let b = node(&mut ctx, 2, vec![4], Vec::new());
    let a = node(&mut ctx, 1, Vec::new(), vec![b]);
    let old = State::construct(a, ctx);
    let mut new = old.clone();
    let n_id = old.root().get_child(0).get_id();
    {
        let n_rc = new.root().get_child(0).get_ref();
        let mut m = new.get_mut(n_rc);
        m.set_some_data(22);
        new.commit(m);
    }
    let after = new.ref_from_id(n_id).unwrap();
    assert_eq!(after.some_data, 22);
    let before = old.ref_from_id(n_id).unwrap();
    assert_eq!(before.some_data, 2);
}

#[test]
fn removal_erases_index() {
    let mut ctx = Context::new();
    ctx.begin_mutate();
    let c = node(&mut ctx, 3, Vec::new(), Vec::new());
    let b = node(&mut ctx, 2, Vec::new(), vec![c]);
    let keep = node(&mut ctx, 9, Vec::new(), Vec::new());
    let a = node(&mut ctx, 1, Vec::new(), vec![b, keep]);
    let mut state = State::construct(a, ctx);
    let b_id = state.root().get_child(0).get_id();
    let c_id = state.root().get_child(0).get().get_child(0).get_id();
    let keep_id = state.root().get_child(1).get_id();
    {
        let root_rc = state.root_ref();
        let mut m = state.get_mut(root_rc);
        m.remove_child(0);
        state.commit(m);
    }
    assert!(state.ref_from_id(b_id).is_none());
    assert!(state.ref_from_id(c_id).is_none());
    assert!(state.ref_from_id(keep_id).is_some());
    assert_eq!(state.root().child_count(), 1);
}

#[test]
fn noop_sessions_keep_keys() {
    let mut ctx = Context::new();
    ctx.begin_mutate();
    let b = node(&mut ctx, 2, Vec::new(), Vec::new());
    let a = node(&mut ctx, 1, Vec::new(), vec![b]);
    let mut state = State::construct(a, ctx);
    let a_id = state.root().header().id();
    let b_id = state.root().get_child(0).get_id();
    for _ in 0..2 {
        let root_rc = state.root_ref();
        let m = state.get_mut(root_rc);
        state.commit(m);
    }
    assert!(state.ref_from_id(a_id).is_some());
    assert!(state.ref_from_id(b_id).is_some());
    assert!(state.ref_from_id(a_id.wrapping_add(1000)).is_none());
}
