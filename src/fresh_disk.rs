use crate::disk::{node_fits, NaiveDisk};
use crate::error::Error;
use crate::node::{
    contains_word, copy_words, distinct_words, id_span, lemma_distinct_len, lemma_id_span_finite,
    lemma_push_contains, lemma_push_to_set, Node, NodeView,
};
use crate::storage::{batch_view, id_range, with_batch, GraphStorage};
use std::collections::HashMap;
use vstd::prelude::*;

verus! {

broadcast use vstd::std_specs::hash::group_hash_axioms;

/// The number of entries at which the writable memtable is frozen.
pub const PROMOTE_THRESHOLD: usize = 10000;

/// An in-memory tier: nodes by id, with the ids in a list for walking them.
pub struct Memtable {
    map: HashMap<u32, Node>,
    keys: Vec<u32>,
}

impl Memtable {
    /// The nodes of the tier.
    pub closed spec fn view(&self) -> Map<u32, NodeView> {
        self.map@.map_values(|n: Node| n@)
    }

    /// The tier's invariant, for a store of this dimension, cap and next id.
    pub closed spec fn ok(&self, dim: nat, r_max: nat, next: nat) -> bool {
        &&& self.keys@.no_duplicates()
        &&& self.keys@.to_set() == self.map@.dom()
        &&& forall|k: u32| #[trigger]
            self.map@.contains_key(k) ==> {
                &&& self.map@[k].id == k
                &&& 0 < k < next
                &&& self.map@[k].connected@.no_duplicates()
                &&& node_fits(self.map@[k]@, dim, r_max)
            }
    }

    /// The invariant holds for any larger next id.
    proof fn lemma_ok_grow(&self, dim: nat, r_max: nat, next: nat, next2: nat)
        requires
            self.ok(dim, r_max, next),
            next <= next2,
        ensures
            self.ok(dim, r_max, next2),
    {
    }

    /// An empty tier.
    fn new() -> (m: Memtable)
        ensures
            m.view() == Map::<u32, NodeView>::empty(),
            forall|dim: nat, r_max: nat, next: nat| m.ok(dim, r_max, next),
    {
        let m = Memtable { map: HashMap::new(), keys: Vec::new() };
        assert(m.view() =~= Map::<u32, NodeView>::empty());
        assert(m.keys@.to_set() =~= m.map@.dom());
        m
    }

    /// The number of nodes in the tier.
    fn len(&self) -> (r: usize)
        ensures
            r == self.map@.len(),
    {
        self.map.len()
    }

    /// A copy of the node with id `k`, if the tier holds it.
    fn get(&self, k: u32) -> (r: Option<Node>)
        ensures
            r is None <==> !self.view().contains_key(k),
            r matches Some(n) ==> n@ == self.view()[k] && n.id == self.map@[k].id
                && n.connected@ == self.map@[k].connected@,
    {
        match self.map.get(&k) {
            Some(n) => Some(n.duplicate()),
            None => None,
        }
    }

    /// Records a node under its id, replacing any earlier one.
    fn put(&mut self, n: Node)
        ensures
            final(self).view() == old(self).view().insert(n.id, n@),
            final(self).keys@.to_set() == old(self).keys@.to_set().insert(n.id),
            final(self).map@ == old(self).map@.insert(n.id, n),
            old(self).keys@.no_duplicates() && old(self).keys@.to_set() == old(self).map@.dom()
                ==> final(self).keys@.no_duplicates() && final(self).keys@.to_set()
                == final(self).map@.dom(),
    {
        let id = n.id;
        let present = contains_word(&self.keys, id);
        proof {
            if present {
                assert(self.keys@.to_set().contains(id));
            }
        }
        if !present {
            proof {
                lemma_push_to_set(self.keys@, id);
            }
            self.keys.push(id);
        } else {
            assert(self.keys@.to_set().insert(id) =~= self.keys@.to_set());
        }
        self.map.insert(id, n);
        assert(self.view() =~= old(self).view().insert(id, n@));
    }
}


/// The nodes seen through tiers laid over `base`, oldest first: a later
/// tier's entry hides an earlier one.
pub open spec fn layered(base: Map<u32, NodeView>, tiers: Seq<Map<u32, NodeView>>) -> Map<
    u32,
    NodeView,
>
    decreases tiers.len(),
{
    if tiers.len() == 0 {
        base
    } else {
        layered(base.union_prefer_right(tiers[0]), tiers.drop_first())
    }
}

/// Laying one more tier on top.
pub proof fn lemma_layered_push(
    base: Map<u32, NodeView>,
    tiers: Seq<Map<u32, NodeView>>,
    m: Map<u32, NodeView>,
)
    ensures
        layered(base, tiers.push(m)) == layered(base, tiers).union_prefer_right(m),
    decreases tiers.len(),
{
    assert(tiers.push(m)[0] == if tiers.len() == 0 { m } else { tiers[0] });
    if tiers.len() == 0 {
        assert(tiers.push(m).drop_first() =~= Seq::<Map<u32, NodeView>>::empty());
        assert(layered(base.union_prefer_right(m), Seq::<Map<u32, NodeView>>::empty()) == base.union_prefer_right(m));
    } else {
        assert(tiers.push(m).drop_first() =~= tiers.drop_first().push(m));
        lemma_layered_push(base.union_prefer_right(tiers[0]), tiers.drop_first(), m);
    }
}

/// Every node of a map satisfies the record invariant of a store of this
/// dimension and cap.
pub open spec fn records_ok(m: Map<u32, NodeView>, dim: nat, r_max: nat) -> bool {
    forall|k: u32| #[trigger] m.contains_key(k) ==> m[k].id == k && node_fits(m[k], dim, r_max)
        && m[k].connected.finite()
}

/// Laying tiers keeps the record invariant.
pub proof fn lemma_layered_records(
    base: Map<u32, NodeView>,
    tiers: Seq<Map<u32, NodeView>>,
    dim: nat,
    r_max: nat,
)
    requires
        records_ok(base, dim, r_max),
        forall|j: int| 0 <= j < tiers.len() ==> records_ok(#[trigger] tiers[j], dim, r_max),
    ensures
        records_ok(layered(base, tiers), dim, r_max),
    decreases tiers.len(),
{
    if tiers.len() > 0 {
        assert(records_ok(tiers[0], dim, r_max));
        assert forall|j: int| 0 <= j < tiers.drop_first().len() implies records_ok(#[trigger] tiers.drop_first()[j], dim, r_max) by {
            assert(tiers.drop_first()[j] == tiers[j + 1]);
        }
        lemma_layered_records(base.union_prefer_right(tiers[0]), tiers.drop_first(), dim, r_max);
    }
}

/// The key set of layered tiers is the union of theirs.
pub proof fn lemma_layered_dom(base: Map<u32, NodeView>, tiers: Seq<Map<u32, NodeView>>, bound: nat)
    requires
        forall|k: u32| #[trigger] base.contains_key(k) ==> 0 < k < bound,
        forall|j: int, k: u32| 0 <= j < tiers.len() && #[trigger] tiers[j].contains_key(k) ==> 0 < k < bound,
    ensures
        forall|k: u32| #[trigger] layered(base, tiers).contains_key(k) ==> 0 < k < bound,
    decreases tiers.len(),
{
    if tiers.len() > 0 {
        assert forall|j: int, k: u32| 0 <= j < tiers.drop_first().len() && #[trigger] tiers.drop_first()[j].contains_key(k) implies 0 < k < bound by {
            assert(tiers.drop_first()[j] == tiers[j + 1]);
        }
        assert forall|k: u32| #[trigger] base.union_prefer_right(tiers[0]).contains_key(k) implies 0 < k < bound by {
            if tiers[0].contains_key(k) {
                assert(0 < k < bound);
            }
        }
        lemma_layered_dom(base.union_prefer_right(tiers[0]), tiers.drop_first(), bound);
        assert(layered(base, tiers) == layered(base.union_prefer_right(tiers[0]), tiers.drop_first()));
    }
}

} // verus!

verus! {

/// The tiered store: a writable memtable, a queue of frozen memtables
/// (oldest first) and the long-term disk store underneath.
///
/// Reads go to the writable memtable, then the frozen ones newest first,
/// then the disk store: the first hit is the freshest. Writes go to the
/// writable memtable only; once it holds `PROMOTE_THRESHOLD` entries it is
/// frozen. `flush_frozen` moves frozen memtables into the disk store, oldest
/// first, which changes nothing a reader sees.
pub struct FreshDisk {
    long_term_index: NaiveDisk,
    ro_temp_index: Vec<Memtable>,
    rw_temp_index: Memtable,
    next_node_index: u32,
}

impl FreshDisk {
    /// The memtables, oldest first, the writable one last.
    pub closed spec fn tiers(&self) -> Seq<Map<u32, NodeView>> {
        self.ro_temp_index@.map_values(|m: Memtable| m.view()).push(self.rw_temp_index.view())
    }

    /// The dimension of every stored vector.
    pub closed spec fn dim(&self) -> nat {
        self.long_term_index.dim()
    }

    /// The frozen memtables, oldest first.
    pub closed spec fn frozen(&self) -> Seq<Map<u32, NodeView>> {
        self.ro_temp_index@.map_values(|m: Memtable| m.view())
    }

    /// The long-term store.
    pub closed spec fn long_term(&self) -> NaiveDisk {
        self.long_term_index
    }

    /// The number of frozen memtables that wait for the flusher.
    pub closed spec fn frozen_count(&self) -> nat {
        self.ro_temp_index@.len()
    }

    /// An empty tiered store over an empty disk store.
    pub fn new(dimensions: u16, max_neighbor_count: u8) -> (r: FreshDisk)
        ensures
            r.inv(),
            r.nodes() == Map::<u32, NodeView>::empty(),
            r.next_id() == 1,
            r.max_degree() == max_neighbor_count,
            r.dim() == dimensions,
            r.frozen_count() == 0,
    {
        let r = FreshDisk {
            long_term_index: NaiveDisk::new(dimensions, max_neighbor_count),
            ro_temp_index: Vec::new(),
            rw_temp_index: Memtable::new(),
            next_node_index: 1,
        };
        proof {
            let e = Map::<u32, NodeView>::empty();
            assert(r.tiers() =~= seq![e]);
            assert(layered(e, seq![e]) == layered(e.union_prefer_right(e), seq![e].drop_first()));
            assert(seq![e].drop_first() =~= Seq::<Map<u32, NodeView>>::empty());
            assert(e.union_prefer_right(e) =~= e);
        }
        r
    }

    /// The long-term disk store, for persisting its image.
    pub fn long_term_store(&self) -> (r: &NaiveDisk)
        ensures
            r == self.long_term(),
    {
        &self.long_term_index
    }

    /// The number of frozen memtables that wait for the flusher.
    pub fn pending_flushes(&self) -> (r: usize)
        ensures
            r == self.frozen_count(),
    {
        self.ro_temp_index.len()
    }

    /// The node with id `k`, looked up writable first, then frozen newest
    /// first, then on disk.
    fn lookup(&self, k: u32) -> (r: Option<Node>)
        requires
            self.inv(),
        ensures
            r is None <==> !self.nodes().contains_key(k),
            r matches Some(n) ==> n@ == self.nodes()[k] && n.connected@.no_duplicates() && n.id == k,
    {
        let ghost frozen = self.ro_temp_index@.map_values(|m: Memtable| m.view());
        proof {
            self.lemma_inv();
            lemma_layered_push(self.long_term_index.nodes(), frozen, self.rw_temp_index.view());
            assert(self.tiers() == frozen.push(self.rw_temp_index.view()));
        }
        match self.rw_temp_index.get(k) {
            Some(n) => {
                return Some(n);
            },
            None => {},
        }
        let mut idx: usize = self.ro_temp_index.len();
        assert(frozen.subrange(0, idx as int) =~= frozen);
        while idx > 0
            invariant
                self.inv(),
                idx <= self.ro_temp_index@.len(),
                frozen == self.ro_temp_index@.map_values(|m: Memtable| m.view()),
                !self.rw_temp_index.view().contains_key(k),
                self.nodes().contains_key(k) == layered(self.long_term_index.nodes(), frozen.subrange(0, idx as int)).contains_key(k),
                self.nodes().contains_key(k) ==> self.nodes()[k] == layered(self.long_term_index.nodes(), frozen.subrange(0, idx as int))[k],
            decreases idx,
        {
            let ghost sub = frozen.subrange(0, idx - 1);
            proof {
                assert(frozen.subrange(0, idx as int) =~= sub.push(frozen[idx - 1]));
                lemma_layered_push(self.long_term_index.nodes(), sub, frozen[idx - 1]);
                assert(frozen[idx - 1] == self.ro_temp_index@[idx - 1].view());
                assert(self.ro_temp_index@[idx - 1].ok(
                    self.long_term_index.dim(),
                    self.long_term_index.max_degree(),
                    self.next_node_index as nat,
                ));
                self.lemma_inv();
            }
            match self.ro_temp_index[idx - 1].get(k) {
                Some(n) => {
                    return Some(n);
                },
                None => {},
            }
            idx -= 1;
        }
        assert(frozen.subrange(0, 0) =~= Seq::<Map<u32, NodeView>>::empty());
        assert(layered(self.long_term_index.nodes(), Seq::<Map<u32, NodeView>>::empty()) == self.long_term_index.nodes());
        proof {
            self.long_term_index.lemma_inv();
        }
        match self.long_term_index.get_node(k) {
            Ok(n) => Some(n),
            Err(_) => None,
        }
    }

    /// Freezes the writable memtable once it is full.
    fn check_and_convert_rw_index(&mut self)
        requires
            old(self).inv(),
        ensures
            final(self).inv(),
            final(self).nodes() == old(self).nodes(),
            final(self).next_id() == old(self).next_id(),
            final(self).max_degree() == old(self).max_degree(),
            final(self).long_term() == old(self).long_term(),
    {
        if self.rw_temp_index.len() < PROMOTE_THRESHOLD {
            return;
        }
        let ghost frozen = self.ro_temp_index@.map_values(|m: Memtable| m.view());
        let ghost rw = self.rw_temp_index.view();
        let mut full = Memtable::new();
        std::mem::swap(&mut self.rw_temp_index, &mut full);
        self.ro_temp_index.push(full);
        proof {
            let e = Map::<u32, NodeView>::empty();
            assert(self.ro_temp_index@.map_values(|m: Memtable| m.view()) =~= frozen.push(rw));
            assert(self.tiers() =~= frozen.push(rw).push(e));
            lemma_layered_push(self.long_term_index.nodes(), frozen.push(rw), e);
            assert(layered(self.long_term_index.nodes(), frozen.push(rw)).union_prefer_right(e)
                =~= layered(self.long_term_index.nodes(), frozen.push(rw)));
            assert(old(self).tiers() == frozen.push(rw));
            assert forall|j: int| 0 <= j < self.ro_temp_index@.len() implies #[trigger] self.ro_temp_index@[j].ok(
                self.long_term_index.dim(),
                self.long_term_index.max_degree(),
                self.next_node_index as nat,
            ) by {
                if j < old(self).ro_temp_index@.len() {
                    assert(self.ro_temp_index@[j] == old(self).ro_temp_index@[j]);
                }
            }
        }
    }

    /// Moves every frozen memtable into the disk store, oldest first. What a
    /// reader sees does not change.
    pub fn flush_frozen(&mut self)
        requires
            old(self).inv(),
        ensures
            final(self).inv(),
            final(self).nodes() == old(self).nodes(),
            final(self).next_id() == old(self).next_id(),
            final(self).max_degree() == old(self).max_degree(),
            final(self).frozen_count() == 0,
            final(self).long_term().nodes() == layered(old(self).long_term().nodes(), old(self).frozen()),
    {
        let ghost mut c: int = 0;
        let ghost frozen0 = old(self).frozen();
        while self.ro_temp_index.len() > 0
            invariant
                self.inv(),
                0 <= c <= frozen0.len(),
                frozen0 == old(self).frozen(),
                self.frozen() == frozen0.subrange(c, frozen0.len() as int),
                self.long_term_index.nodes() == layered(old(self).long_term_index.nodes(), frozen0.subrange(0, c)),
                self.nodes() == old(self).nodes(),
                self.next_id() == old(self).next_id(),
                self.max_degree() == old(self).max_degree(),
                self.long_term_index.dim() == old(self).long_term_index.dim(),
                self.long_term_index.max_degree() == old(self).long_term_index.max_degree(),
            decreases self.ro_temp_index@.len(),
        {
            let ghost long0 = self.long_term_index.nodes();
            let ghost all0 = self.tiers();
            let ghost ro0 = self.ro_temp_index@;
            let ghost rw0 = self.rw_temp_index;
            let mt = self.ro_temp_index.remove(0);
            assert(self.ro_temp_index@ =~= ro0.drop_first());
            assert(all0[0] == mt.view());
            assert(mt.ok(self.long_term_index.dim(), self.long_term_index.max_degree(), self.next_node_index as nat));
            let mut i: usize = 0;
            while i < mt.keys.len()
                invariant
                    self.long_term_index.inv(),
                    self.long_term_index.dim() == old(self).long_term_index.dim(),
                    self.long_term_index.max_degree() == old(self).long_term_index.max_degree(),
                    self.long_term_index.next_id() <= self.next_node_index,
                    self.next_node_index == old(self).next_node_index,
                    mt.ok(self.long_term_index.dim(), self.long_term_index.max_degree(), self.next_node_index as nat),
                    i <= mt.keys@.len(),
                    ro0.len() >= 1,
                    self.ro_temp_index@ == ro0.drop_first(),
                    self.rw_temp_index == rw0,
                    self.long_term_index.nodes() == long0.union_prefer_right(mt.view().restrict(mt.keys@.subrange(0, i as int).to_set())),
                decreases mt.keys.len() - i,
            {
                let k = mt.keys[i];
                assert(mt.keys@.to_set().contains(k));
                let n = match mt.map.get(&k) {
                    Some(n) => n,
                    None => {
                        assert(false);
                        return;
                    },
                };
                let ghost before = self.long_term_index.nodes();
                match self.long_term_index.set_node(n) {
                    Ok(()) => {},
                    Err(_) => {
                        assert(false);
                    },
                }
                proof {
                    assert(mt.keys@.subrange(0, i + 1) =~= mt.keys@.subrange(0, i as int).push(k));
                    lemma_push_to_set(mt.keys@.subrange(0, i as int), k);
                    assert(self.long_term_index.nodes() =~= long0.union_prefer_right(mt.view().restrict(mt.keys@.subrange(0, i + 1).to_set())));
                }
                i += 1;
            }
            proof {
                assert(mt.keys@.subrange(0, mt.keys@.len() as int) =~= mt.keys@);
                assert(mt.view().dom() =~= mt.map@.dom());
                assert(mt.view().restrict(mt.keys@.to_set()) =~= mt.view());
                assert(self.long_term_index.nodes() == long0.union_prefer_right(mt.view().restrict(mt.keys@.subrange(0, mt.keys@.len() as int).to_set())));
                assert(self.ro_temp_index@.map_values(|m: Memtable| m.view()) =~= ro0.map_values(|m: Memtable| m.view()).drop_first());
                assert(mt.view() == frozen0[c]);
                assert(frozen0.subrange(0, c + 1) =~= frozen0.subrange(0, c).push(frozen0[c]));
                lemma_layered_push(old(self).long_term_index.nodes(), frozen0.subrange(0, c), frozen0[c]);
                assert(self.frozen() =~= frozen0.subrange(c + 1, frozen0.len() as int));
                c = c + 1;
                assert(self.tiers() =~= all0.drop_first());
                assert(self.long_term_index.nodes() == long0.union_prefer_right(mt.view()));
                assert(layered(long0, all0) == layered(long0.union_prefer_right(all0[0]), all0.drop_first()));
                assert(self.nodes() == layered(long0, all0));
                assert(self.long_term_index.nodes() == long0.union_prefer_right(mt.view()));
                assert forall|j: int| 0 <= j < self.ro_temp_index@.len() implies #[trigger] self.ro_temp_index@[j].ok(
                    self.long_term_index.dim(),
                    self.long_term_index.max_degree(),
                    self.next_node_index as nat,
                ) by {
                    assert(self.ro_temp_index@[j] == ro0[j + 1]);
                }
            }
        }
    }
}

} // verus!

verus! {

impl GraphStorage for FreshDisk {
    closed spec fn nodes(&self) -> Map<u32, NodeView> {
        layered(self.long_term_index.nodes(), self.tiers())
    }

    closed spec fn next_id(&self) -> nat {
        self.next_node_index as nat
    }

    closed spec fn max_degree(&self) -> nat {
        self.long_term_index.max_degree()
    }

    /// Ids stay below `u32::MAX`, and every vector has the store's
    /// dimension, which is not zero.
    open spec fn accepts(&self, batch: Seq<Seq<u32>>) -> bool {
        &&& self.next_id() + batch.len() <= u32::MAX
        &&& (self.dim() > 0 || batch.len() == 0)
        &&& forall|i: int| 0 <= i < batch.len() ==> #[trigger] batch[i].len() == self.dim()
    }

    closed spec fn store_name(&self) -> Seq<char> {
        "FreshDisk"@
    }

    closed spec fn inv(&self) -> bool {
        &&& self.long_term_index.inv()
        &&& self.long_term_index.next_id() <= self.next_node_index
        &&& self.next_node_index >= 1
        &&& self.rw_temp_index.ok(
            self.long_term_index.dim(),
            self.long_term_index.max_degree(),
            self.next_node_index as nat,
        )
        &&& forall|j: int|
            0 <= j < self.ro_temp_index@.len() ==> #[trigger] self.ro_temp_index@[j].ok(
                self.long_term_index.dim(),
                self.long_term_index.max_degree(),
                self.next_node_index as nat,
            )
    }

    proof fn lemma_inv(&self) {
        let dim = self.long_term_index.dim();
        let r = self.long_term_index.max_degree();
        let next = self.next_node_index as nat;
        let tiers = self.tiers();
        self.long_term_index.lemma_inv();
        self.long_term_index.lemma_records();
        assert forall|j: int| 0 <= j < tiers.len() implies records_ok(#[trigger] tiers[j], dim, r) by {
            let m = if j < self.ro_temp_index@.len() { self.ro_temp_index@[j] } else { self.rw_temp_index };
            assert(tiers[j] == m.view());
            assert(m.ok(dim, r, next));
            assert forall|k: u32| #[trigger] m.view().contains_key(k) implies m.view()[k].id == k && node_fits(m.view()[k], dim, r)
                && m.view()[k].connected.finite() by {
                vstd::seq_lib::seq_to_set_is_finite(m.map@[k].connected@);
            }
        }
        lemma_layered_records(self.long_term_index.nodes(), tiers, dim, r);
        assert forall|j: int, k: u32| 0 <= j < tiers.len() && #[trigger] tiers[j].contains_key(k) implies 0 < k < next by {
            let m = if j < self.ro_temp_index@.len() { self.ro_temp_index@[j] } else { self.rw_temp_index };
            assert(tiers[j] == m.view());
            assert(m.ok(dim, r, next));
        }
        lemma_layered_dom(self.long_term_index.nodes(), tiers, next);
        lemma_id_span_finite(1, next);
        assert(self.nodes().dom().subset_of(id_span(1, next)));
        vstd::set_lib::lemma_set_subset_finite(id_span(1, next), self.nodes().dom());
        assert forall|k: u32| #[trigger] self.nodes().contains_key(k) implies self.nodes()[k].connected.len() <= self.max_degree() by {
            assert(node_fits(self.nodes()[k], dim, r));
        }
    }

    fn add_nodes(&mut self, data: &Vec<Vec<u32>>) -> (r: Result<Vec<u32>, Error>) {
        let ghost batch = batch_view(data@);
        if data.len() > (u32::MAX - self.next_node_index) as usize {
            return Err(Error::InvalidInput("too many nodes".to_owned()));
        }
        let dim = self.long_term_index.dimensions();
        if dim == 0 && data.len() > 0 {
            return Err(Error::InvalidInput("empty vector".to_owned()));
        }
        let mut i: usize = 0;
        while i < data.len()
            invariant
                i <= data.len(),
                batch == batch_view(data@),
                forall|j: int| 0 <= j < i ==> #[trigger] batch[j].len() == dim,
                self == old(self),
                self.inv(),
                dim == self.long_term_index.dim(),
            decreases data.len() - i,
        {
            assert(batch[i as int] == data@[i as int]@);
            if data[i].len() != dim as usize {
                return Err(Error::InvalidInput("vector length differs from the store's".to_owned()));
            }
            i += 1;
        }
        let ghost old_nodes = self.nodes();
        let ghost first = self.next_id();
        proof {
            self.lemma_inv();
        }
        let mut ids: Vec<u32> = Vec::new();
        let mut i: usize = 0;
        while i < data.len()
            invariant
                i <= data.len(),
                batch == batch_view(data@),
                forall|j: int| 0 <= j < batch.len() ==> #[trigger] batch[j].len() == dim,
                dim == self.long_term_index.dim(),
                self.next_node_index == first + i,
                first >= 1,
                first + data.len() <= u32::MAX,
                self.long_term_index.max_degree() == old(self).long_term_index.max_degree(),
                self.inv(),
                ids@ == id_range(first, i as nat),
                data@.len() == 0 ==> self == old(self),
                first == old(self).next_id(),
                old_nodes == old(self).nodes(),
                forall|k: u32| #[trigger] old_nodes.contains_key(k) ==> k < first,
                self.nodes() == with_batch(old_nodes, first, batch.subrange(0, i as int)),
            decreases data.len() - i,
        {
            let id = self.next_node_index;
            assert(batch[i as int] == data@[i as int]@);
            let node = Node { id, vector: copy_words(&data[i]), connected: Vec::new() };
            assert(node@.connected =~= Set::<u32>::empty());
            let ghost before = self.nodes();
            let ghost frozen = self.ro_temp_index@.map_values(|m: Memtable| m.view());
            let ghost rw = self.rw_temp_index.view();
            let ghost dim_n = self.long_term_index.dim();
            let ghost r_n = self.long_term_index.max_degree();
            proof {
                lemma_layered_push(self.long_term_index.nodes(), frozen, rw);
                assert(self.tiers() == frozen.push(rw));
            }
            self.rw_temp_index.put(node);
            self.next_node_index = id + 1;
            ids.push(id);
            proof {
                let rw2 = self.rw_temp_index.view();
                assert(self.ro_temp_index@.map_values(|m: Memtable| m.view()) == frozen);
                assert(self.tiers() =~= frozen.push(rw2));
                lemma_layered_push(self.long_term_index.nodes(), frozen, rw2);
                assert(self.nodes() =~= before.insert(id, node@));
                assert(!old_nodes.contains_key(id));
                let sub = batch.subrange(0, i + 1);
                assert forall|k: u32| #[trigger] self.nodes().contains_key(k) <==> with_batch(old_nodes, first, sub).contains_key(k) by {}
                assert forall|k: u32| #[trigger] self.nodes().contains_key(k) implies self.nodes()[k]
                    == with_batch(old_nodes, first, sub)[k] by {
                    if k != id && k >= first {
                        assert(sub[k - first] == batch.subrange(0, i as int)[k - first]);
                    }
                    if k == id {
                        assert(sub[k - first] == batch[i as int]);
                    }
                }
                assert(self.nodes() =~= with_batch(old_nodes, first, sub));
                assert(ids@ =~= id_range(first, (i + 1) as nat));
                assert(self.rw_temp_index.ok(dim_n, r_n, (id + 1) as nat)) by {
                    assert forall|k: u32| #[trigger] self.rw_temp_index.map@.contains_key(k) implies {
                        &&& self.rw_temp_index.map@[k].id == k
                        &&& 0 < k < id + 1
                        &&& self.rw_temp_index.map@[k].connected@.no_duplicates()
                        &&& node_fits(self.rw_temp_index.map@[k]@, dim_n, r_n)
                    } by {
                        if k == id {
                            assert(node@.connected.len() == 0);
                        }
                    }
                }
                assert forall|j: int| 0 <= j < self.ro_temp_index@.len() implies #[trigger] self.ro_temp_index@[j].ok(dim_n, r_n, (id + 1) as nat) by {
                    self.ro_temp_index@[j].lemma_ok_grow(dim_n, r_n, id as nat, (id + 1) as nat);
                }
            }
            self.check_and_convert_rw_index();
            i += 1;
        }
        assert(batch.subrange(0, data.len() as int) =~= batch);
        Ok(ids)
    }

    fn get_node(&self, node_id: u32) -> (r: Result<Node, Error>) {
        if node_id == 0 {
            return Err(Error::InvalidInput("node id 0 is reserved".to_owned()));
        }
        match self.lookup(node_id) {
            Some(n) => Ok(n),
            None => Err(Error::NotFound(node_id)),
        }
    }

    fn set_connections(&mut self, node_index: u32, connections: &Vec<u32>) -> (r: Result<(), Error>) {
        let set = distinct_words(connections);
        proof {
            lemma_distinct_len(set@);
        }
        if node_index == 0 || contains_word(&set, 0) {
            proof {
                if set@.contains(0) {
                    assert(set@.to_set().contains(0));
                }
            }
            return Err(Error::InvalidInput("node id 0 is reserved".to_owned()));
        }
        assert(!connections@.contains(0)) by {
            if connections@.contains(0) {
                assert(connections@.to_set().contains(0));
                assert(set@.to_set().contains(0));
            }
        }
        if set.len() > self.long_term_index.max_neighbour_count() as usize {
            return Err(Error::InvalidInput("neighbour set over the degree cap".to_owned()));
        }
        let old_node = match self.lookup(node_index) {
            Some(n) => n,
            None => {
                return Err(Error::NotFound(node_index));
            },
        };
        proof {
            self.lemma_inv();
        }
        let node = Node { id: node_index, vector: old_node.vector, connected: set };
        let ghost before = self.nodes();
        let ghost frozen = self.ro_temp_index@.map_values(|m: Memtable| m.view());
        let ghost rw = self.rw_temp_index.view();
        let ghost dim_n = self.long_term_index.dim();
        let ghost r_n = self.long_term_index.max_degree();
        let ghost next = self.next_node_index as nat;
        proof {
            lemma_layered_push(self.long_term_index.nodes(), frozen, rw);
            assert(self.tiers() == frozen.push(rw));
            assert(node_fits(node@, dim_n, r_n)) by {
                self.long_term_index.lemma_records();
                lemma_layered_records_of(self);
            }
        }
        self.rw_temp_index.put(node);
        proof {
            let rw2 = self.rw_temp_index.view();
            assert(self.ro_temp_index@.map_values(|m: Memtable| m.view()) == frozen);
            assert(self.tiers() =~= frozen.push(rw2));
            lemma_layered_push(self.long_term_index.nodes(), frozen, rw2);
            assert(self.nodes() =~= before.insert(node_index, before[node_index].with_connected(connections@.to_set())));
            assert(self.rw_temp_index.ok(dim_n, r_n, next)) by {
                assert forall|k: u32| #[trigger] self.rw_temp_index.map@.contains_key(k) implies {
                    &&& self.rw_temp_index.map@[k].id == k
                    &&& 0 < k < next
                    &&& self.rw_temp_index.map@[k].connected@.no_duplicates()
                    &&& node_fits(self.rw_temp_index.map@[k]@, dim_n, r_n)
                } by {}
            }
        }
        self.check_and_convert_rw_index();
        Ok(())
    }

    fn get_random_node(&self) -> (r: Option<Node>) {
        // The anchor: the lowest stored id, which is 1 once anything is stored.
        proof {
            self.lemma_inv();
        }
        let mut k: u32 = 1;
        while k < self.next_node_index
            invariant
                1 <= k <= self.next_node_index,
                self.inv(),
                forall|i: u32| 1 <= i < k ==> !#[trigger] self.nodes().contains_key(i),
            decreases self.next_node_index - k,
        {
            match self.lookup(k) {
                Some(n) => {
                    return Some(n);
                },
                None => {},
            }
            k += 1;
        }
        proof {
            self.lemma_inv();
        }
        assert(self.nodes().dom() =~= Set::<u32>::empty());
        None
    }

    fn get_all_node_indexes(&self) -> (r: Result<Vec<u32>, Error>) {
        proof {
            self.lemma_inv();
        }
        let mut ids: Vec<u32> = Vec::new();
        let mut j: u32 = 1;
        while j < self.next_node_index
            invariant
                1 <= j <= self.next_node_index,
                self.inv(),
                ids@.no_duplicates(),
                forall|i: int| 0 <= i < ids@.len() ==> #[trigger] ids@[i] < j,
                forall|x: u32| #[trigger] ids@.contains(x) <==> x < j && self.nodes().contains_key(x),
            decreases self.next_node_index - j,
        {
            let ghost before = ids@;
            let found = self.lookup(j);
            if found.is_some() {
                ids.push(j);
                assert(!before.contains(j));
            }
            proof {
                lemma_push_contains(before, j);
            }
            j += 1;
        }
        proof {
            self.lemma_inv();
        }
        assert(ids@.to_set() =~= self.nodes().dom());
        Ok(ids)
    }

    fn get_all_nodes(&self) -> (r: Result<HashMap<u32, Node>, Error>) {
        proof {
            self.lemma_inv();
        }
        let mut all: HashMap<u32, Node> = HashMap::new();
        let mut j: u32 = 1;
        while j < self.next_node_index
            invariant
                1 <= j <= self.next_node_index,
                self.inv(),
                forall|x: u32| #[trigger] all@.contains_key(x) <==> 1 <= x < j && self.nodes().contains_key(x),
                forall|x: u32| #[trigger] all@.contains_key(x) ==> all@[x]@ == self.nodes()[x],
            decreases self.next_node_index - j,
        {
            match self.lookup(j) {
                Some(n) => {
                    all.insert(j, n);
                },
                None => {},
            }
            j += 1;
        }
        proof {
            self.lemma_inv();
        }
        assert(all@.dom() =~= self.nodes().dom());
        Ok(all)
    }

    fn get_name(&self) -> (r: String) {
        "FreshDisk".to_owned()
    }
}

/// Every node the tiered store holds fits its disk store.
proof fn lemma_layered_records_of(f: &FreshDisk)
    requires
        f.inv(),
    ensures
        records_ok(f.nodes(), f.long_term_index.dim(), f.long_term_index.max_degree()),
{
    let dim = f.long_term_index.dim();
    let r = f.long_term_index.max_degree();
    let next = f.next_node_index as nat;
    let tiers = f.tiers();
    f.long_term_index.lemma_records();
    assert forall|j: int| 0 <= j < tiers.len() implies records_ok(#[trigger] tiers[j], dim, r) by {
        let m = if j < f.ro_temp_index@.len() { f.ro_temp_index@[j] } else { f.rw_temp_index };
        assert(tiers[j] == m.view());
        assert(m.ok(dim, r, next));
        assert forall|k: u32| #[trigger] m.view().contains_key(k) implies m.view()[k].id == k && node_fits(m.view()[k], dim, r)
            && m.view()[k].connected.finite() by {
            vstd::seq_lib::seq_to_set_is_finite(m.map@[k].connected@);
        }
    }
    lemma_layered_records(f.long_term_index.nodes(), tiers, dim, r);
}

} // verus!
