use crate::error::Error;
use crate::node::{fresh_node, Node, NodeView};
use std::collections::HashMap;
use vstd::prelude::*;

verus! {

/// The vectors of a batch, as sequences of words.
pub open spec fn batch_view(data: Seq<Vec<u32>>) -> Seq<Seq<u32>> {
    data.map_values(|v: Vec<u32>| v@)
}

/// The ids that a batch of `n` vectors receives when the next free id is
/// `first`.
pub open spec fn id_range(first: nat, n: nat) -> Seq<u32> {
    Seq::new(n, |i: int| (first + i) as u32)
}

/// The nodes after a batch is appended with ids from `first` on, each with
/// no out-neighbours.
pub open spec fn with_batch(m: Map<u32, NodeView>, first: nat, batch: Seq<Seq<u32>>) -> Map<
    u32,
    NodeView,
> {
    Map::new(
        |k: u32| m.contains_key(k) || (first <= k < first + batch.len()),
        |k: u32|
            if first <= k < first + batch.len() {
                fresh_node(k, batch[k - first])
            } else {
                m[k]
            },
    )
}

/// Whether `set_connections` accepts these arguments: neither the node nor
/// any neighbour is the reserved id 0, and the set is within the cap.
pub open spec fn neighbour_set_ok(node_index: u32, connections: Seq<u32>, cap: nat) -> bool {
    &&& node_index != 0
    &&& !connections.contains(0)
    &&& connections.to_set().len() <= cap
}

/// The contract shared by every node store.
///
/// A store is modelled as a map from id to node. Ids are handed out from
/// `next_id()` upwards, one per added vector, and are never zero.
pub trait GraphStorage: Sized {
    /// The stored nodes, by id.
    spec fn nodes(&self) -> Map<u32, NodeView>;

    /// The id that the next added vector receives.
    spec fn next_id(&self) -> nat;

    /// The cap on the size of a neighbour set.
    spec fn max_degree(&self) -> nat;

    /// Whether `add_nodes` accepts this batch of vectors.
    spec fn accepts(&self, batch: Seq<Seq<u32>>) -> bool;

    /// The name that identifies the implementation.
    spec fn store_name(&self) -> Seq<char>;

    /// The store's internal invariant.
    spec fn inv(&self) -> bool;

    /// What the invariant gives a caller: ids are non-zero and below
    /// `next_id()`, each node carries its own id, and no neighbour set is
    /// over the cap.
    proof fn lemma_inv(&self)
        requires
            self.inv(),
        ensures
            1 <= self.next_id() <= u32::MAX + 1,
            self.accepts(Seq::empty()),
            self.nodes().dom().finite(),
            forall|k: u32| #[trigger]
                self.nodes().contains_key(k) ==> 0 < k < self.next_id() && self.nodes()[k].id == k
                    && self.nodes()[k].connected.finite() && self.nodes()[k].connected.len()
                    <= self.max_degree(),
    ;

    /// Appends the vectors as new nodes without neighbours and returns
    /// their ids, in batch order.
    fn add_nodes(&mut self, data: &Vec<Vec<u32>>) -> (r: Result<Vec<u32>, Error>)
        requires
            old(self).inv(),
        ensures
            final(self).inv(),
            final(self).max_degree() == old(self).max_degree(),
            r is Ok <==> old(self).accepts(batch_view(data@)),
            r matches Ok(ids) ==> {
                &&& ids@ == id_range(old(self).next_id(), data@.len())
                &&& final(self).next_id() == old(self).next_id() + data@.len()
                &&& final(self).nodes() == with_batch(
                    old(self).nodes(),
                    old(self).next_id(),
                    batch_view(data@),
                )
            },
            r matches Err(e) ==> {
                &&& e is InvalidInput
                &&& final(self).nodes() == old(self).nodes()
                &&& final(self).next_id() == old(self).next_id()
            },
            r is Err || data@.len() == 0 ==> *final(self) == *old(self),
    ;

    /// A copy of the node with this id.
    fn get_node(&self, node_id: u32) -> (r: Result<Node, Error>)
        requires
            self.inv(),
        ensures
            node_id == 0 ==> r matches Err(Error::InvalidInput(_)),
            node_id != 0 && !self.nodes().contains_key(node_id) ==> (r matches Err(
                Error::NotFound(x),
            ) && x == node_id),
            node_id != 0 && self.nodes().contains_key(node_id) ==> (r matches Ok(n) && n@
                == self.nodes()[node_id] && n.connected@.no_duplicates()),
    ;

    /// Replaces the out-neighbours of a node.
    fn set_connections(&mut self, node_index: u32, connections: &Vec<u32>) -> (r: Result<
        (),
        Error,
    >)
        requires
            old(self).inv(),
        ensures
            final(self).inv(),
            final(self).max_degree() == old(self).max_degree(),
            final(self).next_id() == old(self).next_id(),
            !neighbour_set_ok(node_index, connections@, old(self).max_degree()) ==> r matches Err(
                Error::InvalidInput(_),
            ),
            neighbour_set_ok(node_index, connections@, old(self).max_degree())
                && !old(self).nodes().contains_key(node_index) ==> (r matches Err(
                Error::NotFound(x),
            ) && x == node_index),
            r is Err ==> final(self).nodes() == old(self).nodes() && *final(self) == *old(self),
            neighbour_set_ok(node_index, connections@, old(self).max_degree())
                && old(self).nodes().contains_key(node_index) ==> r is Ok && final(self).nodes()
                == old(self).nodes().insert(
                node_index,
                old(self).nodes()[node_index].with_connected(connections@.to_set()),
            ),
    ;

    /// Some stored node; none only when the store is empty.
    fn get_random_node(&self) -> (r: Option<Node>)
        requires
            self.inv(),
        ensures
            r is None <==> self.nodes().dom() == Set::<u32>::empty(),
            r matches Some(n) ==> (self.nodes().contains_key(n.id) && n@ == self.nodes()[n.id]
                && n.connected@.no_duplicates()),
    ;

    /// Every stored id, once each.
    fn get_all_node_indexes(&self) -> (r: Result<Vec<u32>, Error>)
        requires
            self.inv(),
        ensures
            r matches Ok(ids) && ids@.no_duplicates() && ids@.to_set() == self.nodes().dom(),
    ;

    /// A snapshot of the whole store.
    fn get_all_nodes(&self) -> (r: Result<HashMap<u32, Node>, Error>)
        requires
            self.inv(),
        ensures
            r matches Ok(m) && m@.dom() == self.nodes().dom() && forall|k: u32| #[trigger]
                m@.contains_key(k) ==> m@[k]@ == self.nodes()[k],
    ;

    /// The name of the implementation, for diagnostics.
    fn get_name(&self) -> (r: String)
        ensures
            r@ == self.store_name(),
    ;
}

/// A side map from node id to an arbitrary text payload.
pub trait DataStore {
    /// The stored payloads, by node id.
    spec fn entries(&self) -> Map<u32, Seq<char>>;

    /// Records the payload of a node, replacing any earlier one.
    fn add_data(&mut self, node_id: u32, data: String) -> (r: Result<(), Error>)
        ensures
            r is Ok,
            final(self).entries() == old(self).entries().insert(node_id, data@),
    ;

    /// The payload of a node, if one was recorded.
    fn get_data(&self, node_id: u32) -> (r: Option<String>)
        ensures
            r is None <==> !self.entries().contains_key(node_id),
            r matches Some(s) ==> s@ == self.entries()[node_id],
    ;
}

/// Round trip: every vector of an added batch reads back, word for word,
/// under the id it received.
pub proof fn lemma_round_trip<S: GraphStorage>(before: S, after: S, batch: Seq<Seq<u32>>, i: int)
    requires
        after.inv(),
        after.nodes() == with_batch(before.nodes(), before.next_id(), batch),
        after.next_id() == before.next_id() + batch.len(),
        0 <= i < batch.len(),
    ensures
        after.nodes().contains_key(id_range(before.next_id(), batch.len())[i]),
        after.nodes()[id_range(before.next_id(), batch.len())[i]].vector == batch[i],
        after.nodes()[id_range(before.next_id(), batch.len())[i]].id == before.next_id() + i,
{
    after.lemma_inv();
    let k = id_range(before.next_id(), batch.len())[i];
    assert(k == before.next_id() + i);
}

/// Adding no vectors is accepted, hands out no id and changes nothing.
pub proof fn lemma_add_nothing<S: GraphStorage>(s: S)
    requires
        s.inv(),
    ensures
        s.accepts(Seq::empty()),
        id_range(s.next_id(), 0) == Seq::<u32>::empty(),
        with_batch(s.nodes(), s.next_id(), Seq::empty()) == s.nodes(),
{
    s.lemma_inv();
    assert(id_range(s.next_id(), 0) =~= Seq::<u32>::empty());
    assert(with_batch(s.nodes(), s.next_id(), Seq::empty()) =~= s.nodes());
}

/// Adding a batch leaves every stored node as it was, so a vector, once
/// stored, reads back the same after any later add; replacing neighbour
/// sets never touches a vector either.
pub proof fn lemma_later_ops_keep_vectors<S: GraphStorage>(before: S, batch: Seq<Seq<u32>>, k: u32, c: Set<u32>)
    requires
        before.inv(),
        before.nodes().contains_key(k),
    ensures
        with_batch(before.nodes(), before.next_id(), batch)[k] == before.nodes()[k],
        before.nodes().insert(k, before.nodes()[k].with_connected(c))[k].vector == before.nodes()[k].vector,
{
    before.lemma_inv();
}

} // verus!
