//! The identity index.
//!
//! A snapshot's index maps every reachable node id to the node itself.
//! It is held in a persistent hash map from the `im_rc` crate, so that
//! cloning a snapshot shares the index structurally.  The map itself is
//! outside code: the functions here are thin trusted wrappers, and
//! [`id_map_entries`] names what a map holds.

use std::rc::Rc;
use vstd::prelude::*;

use crate::id::ID;
use crate::model::NodeModel;
use crate::node::TreeNode;

verus! {

#[verifier::external_type_specification]
#[verifier::external_body]
#[verifier::reject_recursive_types(K)]
#[verifier::reject_recursive_types(V)]
#[verifier::reject_recursive_types(S)]
pub struct ExImHashMap<K, V, S>(im_rc::HashMap<K, V, S>);

/// The concrete map type of the identity index.
pub type IdMap = im_rc::HashMap<ID, Rc<TreeNode>>;

/// The entries an identity index holds, as a map from id to the node
/// value behind the stored reference.
pub uninterp spec fn id_map_entries(m: IdMap) -> Map<ID, TreeNode>;

/// The entries of an identity index, at the model level.
pub open spec fn id_map_model(m: IdMap) -> Map<ID, NodeModel> {
    id_map_entries(m).map_values(|t: TreeNode| t@)
}

/// Relies on `im_rc::HashMap::new`: an empty map.
#[verifier::external_body]
pub(crate) fn id_map_new() -> (r: IdMap)
    ensures
        forall|k: ID| !(#[trigger] id_map_entries(r).contains_key(k)),
{
    im_rc::HashMap::new()
}

/// Relies on `im_rc::HashMap::insert`: adds the binding of `k`,
/// overwriting a previous one.
#[verifier::external_body]
pub(crate) fn id_map_insert(m: &mut IdMap, k: ID, v: Rc<TreeNode>)
    ensures
        id_map_entries(*final(m)) == id_map_entries(*old(m)).insert(k, *v),
{
    m.insert(k, v);
}

/// Relies on `im_rc::HashMap::remove`: drops the binding of `k`, if any.
#[verifier::external_body]
pub(crate) fn id_map_remove(m: &mut IdMap, k: ID)
    ensures
        id_map_entries(*final(m)) == id_map_entries(*old(m)).remove(k),
{
    m.remove(&k);
}

/// Relies on `im_rc::HashMap::get`: the binding of `k`, if any.
#[verifier::external_body]
pub(crate) fn id_map_get(m: &IdMap, k: ID) -> (r: Option<Rc<TreeNode>>)
    ensures
        match r {
            Some(rc) => id_map_entries(*m).contains_key(k) && *rc == id_map_entries(*m)[k],
            None => !id_map_entries(*m).contains_key(k),
        },
{
    m.get(&k).cloned()
}

/// Relies on `im_rc::HashMap::clone`: a second map with the same
/// entries, sharing structure with the first.
#[verifier::external_body]
pub(crate) fn id_map_clone(m: &IdMap) -> (r: IdMap)
    ensures
        id_map_entries(r) == id_map_entries(*m),
{
    m.clone()
}

} // verus!
