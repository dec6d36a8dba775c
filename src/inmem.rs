use crate::error::Error;
use crate::node::{contains_word, fresh_node, copy_words, distinct_words, id_span, lemma_distinct_len, lemma_id_span_finite, Node, NodeView};
use crate::storage::{batch_view, id_range, with_batch, DataStore, GraphStorage};
use std::collections::HashMap;
use vstd::prelude::*;

verus! {

broadcast use vstd::std_specs::hash::group_hash_axioms;

/// A dense vector of nodes, node `id` at position `id - 1`, with a side map
/// of payloads.
pub struct InMemStorage {
    nodes: Vec<Node>,
    data: HashMap<u32, String>,
    max_neighbour_count: u8,
}

/// The length shared by the vectors of a store holding `nodes`, once `batch`
/// is added to it.
pub open spec fn shared_dim(nodes: Seq<Node>, batch: Seq<Seq<u32>>) -> nat {
    if nodes.len() > 0 {
        nodes[0].vector@.len()
    } else if batch.len() > 0 {
        batch[0].len()
    } else {
        1
    }
}

impl InMemStorage {
    /// An empty store whose neighbour sets are capped at 255.
    pub fn new() -> (r: InMemStorage)
        ensures
            r.inv(),
            r.nodes() == Map::<u32, NodeView>::empty(),
            r.next_id() == 1,
            r.max_degree() == 255,
            r.entries() == Map::<u32, Seq<char>>::empty(),
    {
        InMemStorage::with_max_neighbour_count(255)
    }

    /// An empty store whose neighbour sets are capped at `max_neighbour_count`.
    pub fn with_max_neighbour_count(max_neighbour_count: u8) -> (r: InMemStorage)
        ensures
            r.inv(),
            r.nodes() == Map::<u32, NodeView>::empty(),
            r.next_id() == 1,
            r.max_degree() == max_neighbour_count,
            r.entries() == Map::<u32, Seq<char>>::empty(),
    {
        let r = InMemStorage { nodes: Vec::new(), data: HashMap::new(), max_neighbour_count };
        assert(r.nodes() =~= Map::<u32, NodeView>::empty());
        r
    }
}

impl Default for InMemStorage {
    fn default() -> (r: InMemStorage)
        ensures
            r.inv(),
            r.nodes() == Map::<u32, NodeView>::empty(),
            r.next_id() == 1,
            r.max_degree() == 255,
    {
        InMemStorage::new()
    }
}

impl GraphStorage for InMemStorage {
    closed spec fn nodes(&self) -> Map<u32, NodeView> {
        Map::new(|k: u32| 1 <= k <= self.nodes@.len(), |k: u32| self.nodes@[k - 1]@)
    }

    closed spec fn next_id(&self) -> nat {
        self.nodes@.len() + 1
    }

    closed spec fn max_degree(&self) -> nat {
        self.max_neighbour_count as nat
    }

    /// Ids stay within `u32`, and every vector, old and new, has one
    /// non-zero length.
    open spec fn accepts(&self, batch: Seq<Seq<u32>>) -> bool {
        let d = if self.next_id() > 1 {
            self.nodes()[1].vector.len()
        } else if batch.len() > 0 {
            batch[0].len()
        } else {
            1
        };
        &&& self.next_id() - 1 + batch.len() <= u32::MAX
        &&& d > 0
        &&& forall|i: int| 0 <= i < batch.len() ==> #[trigger] batch[i].len() == d
    }

    closed spec fn store_name(&self) -> Seq<char> {
        "InMemStorage"@
    }

    closed spec fn inv(&self) -> bool {
        &&& self.nodes@.len() <= u32::MAX
        &&& forall|i: int| 0 <= i < self.nodes@.len() ==> {
            &&& (#[trigger] self.nodes@[i]).id == i + 1
            &&& self.nodes@[i].connected@.no_duplicates()
            &&& self.nodes@[i].connected@.len() <= self.max_neighbour_count
            &&& self.nodes@[i].vector@.len() == self.nodes@[0].vector@.len()
            &&& self.nodes@[i].vector@.len() > 0
        }
    }

    proof fn lemma_inv(&self) {
        lemma_id_span_finite(1, self.nodes@.len() + 1);
        assert(self.nodes().dom() =~= id_span(1, self.nodes@.len() + 1));
        assert forall|k: u32| #[trigger] self.nodes().contains_key(k) implies 0 < k < self.next_id()
            && self.nodes()[k].id == k && self.nodes()[k].connected.finite()
            && self.nodes()[k].connected.len() <= self.max_degree() by {
            lemma_distinct_len(self.nodes@[k - 1].connected@);
        }
    }

    fn add_nodes(&mut self, data: &Vec<Vec<u32>>) -> (r: Result<Vec<u32>, Error>) {
        let ghost batch = batch_view(data@);
        // The batch is checked whole before anything is added.
        if data.len() > u32::MAX as usize - self.nodes.len() {
            return Err(Error::InvalidInput("too many nodes".to_owned()));
        }
        let dim: usize = if self.nodes.len() > 0 {
            self.nodes[0].vector.len()
        } else if data.len() > 0 {
            data[0].len()
        } else {
            1
        };
        assert(dim == shared_dim(self.nodes@, batch));
        assert(self.nodes@.len() > 0 ==> self.nodes()[1] == self.nodes@[0]@);
        if dim == 0 {
            return Err(Error::InvalidInput("empty vector".to_owned()));
        }
        let mut i: usize = 0;
        while i < data.len()
            invariant
                i <= data.len(),
                batch == batch_view(data@),
                forall|j: int| 0 <= j < i ==> #[trigger] batch[j].len() == dim,
                self == old(self),
                self.inv(),
                dim == shared_dim(self.nodes@, batch),
                self.nodes@.len() > 0 ==> self.nodes()[1] == self.nodes@[0]@,
            decreases data.len() - i,
        {
            assert(batch[i as int] == data@[i as int]@);
            if data[i].len() != dim {
                return Err(Error::InvalidInput("vector length differs from the store's".to_owned()));
            }
            i += 1;
        }
        let ghost old_nodes = self.nodes();
        let ghost first = self.next_id();
        let mut ids: Vec<u32> = Vec::new();
        let mut i: usize = 0;
        while i < data.len()
            invariant
                i <= data.len(),
                batch == batch_view(data@),
                forall|j: int| 0 <= j < batch.len() ==> #[trigger] batch[j].len() == dim,
                dim > 0,
                self.nodes@.len() == first - 1 + i,
                first - 1 + data.len() <= u32::MAX,
                self.max_neighbour_count == old(self).max_neighbour_count,
                self.data == old(self).data,
                self.inv(),
                self.nodes@.len() > 0 ==> self.nodes@[0].vector@.len() == dim,
                ids@ == id_range(first, i as nat),
                data@.len() == 0 ==> self == old(self),
                first == old(self).nodes@.len() + 1,
                old_nodes == old(self).nodes(),
                self.nodes() == with_batch(old_nodes, first, batch.subrange(0, i as int)),
            decreases data.len() - i,
        {
            let id = (self.nodes.len() + 1) as u32;
            let node = Node { id, vector: copy_words(&data[i]), connected: Vec::new() };
            assert(node.connected@.to_set() =~= Set::<u32>::empty());
            assert(batch[i as int] == data@[i as int]@);
            let ghost before = self.nodes();
            let ghost before_seq = self.nodes@;
            self.nodes.push(node);
            ids.push(id);
            proof {
                assert(batch.subrange(0, i + 1) =~= batch.subrange(0, i as int).push(batch[i as int]));
                let sub = batch.subrange(0, i + 1);
                assert forall|k: u32| #[trigger] self.nodes().contains_key(k) implies self.nodes()[k]
                    == with_batch(old_nodes, first, sub)[k] by {
                    if k < id {
                        assert(self.nodes@[k - 1] == before_seq[k - 1]);
                        assert(before.contains_key(k));
                        assert(self.nodes()[k] == before[k]);
                        if k >= first {
                            assert(sub[k - first] == batch.subrange(0, i as int)[k - first]);
                        } else {
                            assert(before[k] == old_nodes[k]);
                        }
                    } else {
                        assert(k == id);
                        assert(self.nodes@[k - 1] == node);
                        assert(sub[k - first] == batch[i as int]);
                        assert(node@ == fresh_node(k, batch[i as int]));
                        assert(sub.len() == i + 1);
                        assert(with_batch(old_nodes, first, sub)[k] == fresh_node(k, sub[k - first]));
                    }
                }
                assert forall|k: u32| #[trigger] self.nodes().contains_key(k) <==> with_batch(old_nodes, first, sub).contains_key(k) by {
                    if 1 <= k < first {
                        assert(old_nodes.contains_key(k));
                    }
                }
                assert(self.nodes().dom() =~= with_batch(old_nodes, first, sub).dom());
                assert(self.nodes() =~= with_batch(old_nodes, first, sub));
                assert(ids@ =~= id_range(first, (i + 1) as nat));
            }
            i += 1;
        }
        assert(batch.subrange(0, data.len() as int) =~= batch);
        Ok(ids)
    }

    fn get_node(&self, node_id: u32) -> (r: Result<Node, Error>) {
        if node_id == 0 {
            return Err(Error::InvalidInput("node id 0 is reserved".to_owned()));
        }
        if node_id as usize > self.nodes.len() {
            return Err(Error::NotFound(node_id));
        }
        Ok(self.nodes[node_id as usize - 1].duplicate())
    }

    fn set_connections(&mut self, node_index: u32, connections: &Vec<u32>) -> (r: Result<(), Error>) {
        let set = distinct_words(connections);
        proof {
            lemma_distinct_len(set@);
        }
        if node_index == 0 {
            return Err(Error::InvalidInput("node id 0 is reserved".to_owned()));
        }
        if contains_word(&set, 0) {
            assert(connections@.to_set().contains(0));
            return Err(Error::InvalidInput("node id 0 is reserved".to_owned()));
        }
        assert(!connections@.contains(0)) by {
            if connections@.contains(0) {
                assert(connections@.to_set().contains(0));
                assert(set@.to_set().contains(0));
            }
        }
        if set.len() > self.max_neighbour_count as usize {
            return Err(Error::InvalidInput("neighbour set over the degree cap".to_owned()));
        }
        if node_index as usize > self.nodes.len() {
            return Err(Error::NotFound(node_index));
        }
        let i = node_index as usize - 1;
        let old_node = &self.nodes[i];
        let node = Node { id: old_node.id, vector: copy_words(&old_node.vector), connected: set };
        self.nodes.set(i, node);
        assert(self.nodes() =~= old(self).nodes().insert(
            node_index,
            old(self).nodes()[node_index].with_connected(connections@.to_set()),
        ));
        Ok(())
    }

    fn get_random_node(&self) -> (r: Option<Node>) {
        // Any node may seed a search; the first one is a stable choice.
        if self.nodes.len() == 0 {
            assert(self.nodes().dom() =~= Set::<u32>::empty());
            None
        } else {
            assert(self.nodes().contains_key(1));
            Some(self.nodes[0].duplicate())
        }
    }

    fn get_all_node_indexes(&self) -> (r: Result<Vec<u32>, Error>) {
        let mut ids: Vec<u32> = Vec::new();
        let mut i: usize = 0;
        while i < self.nodes.len()
            invariant
                i <= self.nodes@.len(),
                self.nodes@.len() <= u32::MAX,
                ids@ == id_range(1, i as nat),
            decreases self.nodes.len() - i,
        {
            ids.push((i + 1) as u32);
            assert(ids@ =~= id_range(1, (i + 1) as nat));
            i += 1;
        }
        assert(ids@.to_set() =~= self.nodes().dom()) by {
            assert forall|k: u32| self.nodes().contains_key(k) implies ids@.to_set().contains(k) by {
                assert(ids@[k - 1] == k);
            }
        }
        Ok(ids)
    }

    fn get_all_nodes(&self) -> (r: Result<HashMap<u32, Node>, Error>) {
        let mut all: HashMap<u32, Node> = HashMap::new();
        let mut i: usize = 0;
        while i < self.nodes.len()
            invariant
                i <= self.nodes@.len(),
                self.inv(),
                all@.dom() == id_span(1, i as nat + 1),
                forall|k: u32| #[trigger] all@.contains_key(k) ==> all@[k]@ == self.nodes()[k],
            decreases self.nodes.len() - i,
        {
            let node = self.nodes[i].duplicate();
            all.insert(node.id, node);
            assert(all@.dom() =~= id_span(1, i as nat + 2));
            i += 1;
        }
        assert(all@.dom() =~= self.nodes().dom());
        Ok(all)
    }

    fn get_name(&self) -> (r: String) {
        "InMemStorage".to_owned()
    }
}

impl DataStore for InMemStorage {
    closed spec fn entries(&self) -> Map<u32, Seq<char>> {
        self.data@.map_values(|s: String| s@)
    }

    fn add_data(&mut self, node_id: u32, data: String) -> (r: Result<(), Error>) {
        self.data.insert(node_id, data);
        assert(self.entries() =~= old(self).entries().insert(node_id, data@));
        Ok(())
    }

    fn get_data(&self, node_id: u32) -> (r: Option<String>) {
        match self.data.get(&node_id) {
            Some(s) => Some(s.clone()),
            None => None,
        }
    }
}

} // verus!
