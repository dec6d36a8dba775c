use crate::codec::{half, half_bytes, word_bytes, lemma_word_frame, push_half, push_word, push_words, read_half, read_word, word};
use crate::error::Error;
use crate::node::{
    contains_word, copy_words, distinct_words, fresh_node, id_span, lemma_distinct_len,
    lemma_id_span_finite, lemma_push_to_set, Node, NodeView,
};
use crate::random::random_below;
use crate::storage::{batch_view, id_range, with_batch, GraphStorage};
use std::collections::HashMap;
use vstd::prelude::*;

verus! {

/// The size of the image header: dimension (`u16`), degree cap (`u8`) and
/// next id (`u32`), all big-endian.
pub const HEADER_SIZE: usize = 7;

/// The size of one node slot: its id, its vector and its padded neighbour
/// list, each a big-endian word.
pub open spec fn slot_size(dim: nat, r_max: nat) -> nat {
    4 + 4 * dim + 4 * r_max
}

/// The vector held by a slot.
pub open spec fn slot_vector(s: Seq<u8>, dim: nat) -> Seq<u32> {
    Seq::new(dim, |i: int| word(s, 4 + 4 * i))
}

/// The neighbour words of a slot, zero words included.
pub open spec fn slot_neighbour_word(s: Seq<u8>, dim: nat, j: int) -> u32 {
    word(s, 4 + 4 * dim + 4 * j)
}

/// The neighbours held by a slot: its non-zero neighbour words.
pub open spec fn slot_neighbours(s: Seq<u8>, dim: nat, r_max: nat) -> Set<u32> {
    Set::new(
        |x: u32|
            x != 0 && exists|j: int| 0 <= j < r_max && #[trigger] slot_neighbour_word(s, dim, j) == x,
    )
}

/// The node that a slot holds for id `id`.
pub open spec fn slot_node(s: Seq<u8>, id: u32, dim: nat, r_max: nat) -> NodeView {
    NodeView { id: id, vector: slot_vector(s, dim), connected: slot_neighbours(s, dim, r_max) }
}

/// Where the slot of id `k` starts in an image.
pub open spec fn slot_start(k: nat, size: nat) -> int {
    HEADER_SIZE + (k - 1) * size
}

/// The slot of id `k` in an image.
pub open spec fn image_slot(b: Seq<u8>, k: nat, size: nat) -> Seq<u8> {
    b.subrange(slot_start(k, size), slot_start(k, size) + size)
}

/// The nodes that an image holds: every slot whose id word is non-zero.
pub open spec fn image_nodes(b: Seq<u8>, dim: nat, r_max: nat) -> Map<u32, NodeView> {
    Map::new(
        |k: u32|
            1 <= k && slot_start(k as nat, slot_size(dim, r_max)) + slot_size(dim, r_max) <= b.len()
                && word(image_slot(b, k as nat, slot_size(dim, r_max)), 0) != 0,
        |k: u32| slot_node(image_slot(b, k as nat, slot_size(dim, r_max)), k, dim, r_max),
    )
}

/// Whether `b` is an image of a store with this dimension and degree cap:
/// the header matches, the length is that of `next - 1` slots, and every
/// slot is empty (id word 0) or holds its own id.
pub open spec fn image_ok(b: Seq<u8>, dim: nat, r_max: nat) -> bool {
    &&& b.len() >= HEADER_SIZE
    &&& half(b, 0) == dim
    &&& b[2] == r_max
    &&& word(b, 3) >= 1
    &&& b.len() == HEADER_SIZE + (word(b, 3) - 1) * slot_size(dim, r_max)
    &&& forall|k: nat|
        1 <= k < word(b, 3) ==> #[trigger] word(b, slot_start(k, slot_size(dim, r_max))) == 0 || word(
            b,
            slot_start(k, slot_size(dim, r_max)),
        ) == k
}

/// A word read inside a subrange is the word at the same place in the whole.
pub proof fn lemma_word_sub(b: Seq<u8>, a: int, e: int, at: int)
    requires
        0 <= a,
        0 <= at,
        a + at + 4 <= e <= b.len(),
    ensures
        word(b.subrange(a, e), at) == word(b, a + at),
{
    let s = b.subrange(a, e);
    assert(s[at] == b[a + at]);
    assert(s[at + 1] == b[a + at + 1]);
    assert(s[at + 2] == b[a + at + 2]);
    assert(s[at + 3] == b[a + at + 3]);
}

/// The slot of each id up to `n` lies inside an image of `n` slots.
pub proof fn lemma_slot_in_image(k: nat, n: nat, size: nat)
    requires
        1 <= k <= n,
    ensures
        HEADER_SIZE <= slot_start(k, size),
        slot_start(k, size) + size <= HEADER_SIZE + n * size,
{
    assert((k - 1) * size + size <= n * size) by (nonlinear_arith)
        requires
            1 <= k <= n,
    ;
    assert(0 <= (k - 1) * size) by (nonlinear_arith)
        requires
            1 <= k,
    ;
}

/// No slot of an id at or past `next` fits in an image of `next - 1` slots.
pub proof fn lemma_slot_past_end(k: nat, next: nat, size: nat)
    requires
        1 <= next <= k,
        size > 0,
    ensures
        slot_start(k, size) + size > slot_start(next, size),
{
    if next < k {
        lemma_slots_apart(next, k, size);
    }
}

/// The size of a well-formed image is the header and one slot for each id
/// handed out so far, `next - 1` of them; no slot of an id at or past `next`
/// is in it.
pub proof fn lemma_image_size(b: Seq<u8>, dim: nat, r_max: nat)
    requires
        image_ok(b, dim, r_max),
    ensures
        b.len() == HEADER_SIZE + (word(b, 3) - 1) * slot_size(dim, r_max),
        forall|k: u32| #[trigger] image_nodes(b, dim, r_max).contains_key(k) ==> 1 <= k < word(b, 3),
{
    assert forall|k: u32| #[trigger] image_nodes(b, dim, r_max).contains_key(k) implies 1 <= k < word(b, 3) by {
        if k >= word(b, 3) {
            lemma_slot_past_end(k as nat, word(b, 3) as nat, slot_size(dim, r_max));
        }
    }
}

/// The bytes of slots laid one after another.
pub open spec fn concat_slots(slots: Seq<Seq<u8>>) -> Seq<u8>
    decreases slots.len(),
{
    if slots.len() == 0 {
        Seq::empty()
    } else {
        concat_slots(slots.drop_last()) + slots.last()
    }
}

/// The bytes of an image: the header, then the slots.
pub open spec fn image_bytes(dim: u16, r_max: u8, next: u32, slots: Seq<Seq<u8>>) -> Seq<u8> {
    half_bytes(dim) + seq![r_max] + word_bytes(next) + concat_slots(slots)
}

/// Slots of distinct ids do not overlap.
pub proof fn lemma_slots_apart(j: nat, k: nat, size: nat)
    requires
        1 <= j < k,
    ensures
        slot_start(j, size) + size <= slot_start(k, size),
{
    assert((j - 1) * size + size <= (k - 1) * size) by (nonlinear_arith)
        requires
            1 <= j < k,
    ;
}

/// Encodes a slot: the id, the vector, the neighbours and zero padding up
/// to `r_max` neighbour words.
pub fn encode_slot(id: u32, vector: &Vec<u32>, neighbours: &Vec<u32>, r_max: u8) -> (s: Vec<u8>)
    requires
        neighbours@.len() <= r_max,
        vector@.len() <= u16::MAX,
        !neighbours@.contains(0),
    ensures
        s@.len() == slot_size(vector@.len(), r_max as nat),
        word(s@, 0) == id,
        slot_vector(s@, vector@.len()) == vector@,
        slot_neighbours(s@, vector@.len(), r_max as nat) == neighbours@.to_set(),
        forall|j: int| 0 <= j < r_max ==> #[trigger] slot_neighbour_word(s@, vector@.len(), j) == if j < neighbours@.len() {
            neighbours@[j]
        } else {
            0
        },
{
    let ghost dim = vector@.len();
    let mut s: Vec<u8> = Vec::new();
    push_word(&mut s, id);
    let ghost s1 = s@;
    push_words(&mut s, vector, 0);
    let ghost s2 = s@;
    proof {
        lemma_word_frame(s1, s2, 0);
    }
    push_words(&mut s, neighbours, r_max as usize - neighbours.len());
    proof {
        lemma_word_frame(s2, s@, 0);
        assert forall|i: int| 0 <= i < dim implies #[trigger] word(s@, 4 + 4 * i) == vector@[i] by {
            assert(word(s2, 4 + 4 * i) == vector@[i]);
            lemma_word_frame(s2, s@, 4 + 4 * i);
        }
        assert(slot_vector(s@, dim) =~= vector@);
        assert forall|j: int| 0 <= j < r_max implies #[trigger] slot_neighbour_word(s@, dim, j) == if j < neighbours@.len() {
            neighbours@[j]
        } else {
            0
        } by {
            assert(word(s@, s2.len() + 4 * j) == if j < neighbours@.len() {
                neighbours@[j]
            } else {
                0
            });
        }
        assert forall|x: u32| #[trigger] slot_neighbours(s@, dim, r_max as nat).contains(x) <==> neighbours@.to_set().contains(x) by {
            if neighbours@.to_set().contains(x) {
                let j = choose|j: int| 0 <= j < neighbours@.len() && neighbours@[j] == x;
                assert(slot_neighbour_word(s@, dim, j) == x);
            }
            if slot_neighbours(s@, dim, r_max as nat).contains(x) {
                let j = choose|j: int| 0 <= j < r_max && #[trigger] slot_neighbour_word(s@, dim, j) == x;
                assert(j < neighbours@.len());
                assert(neighbours@[j] == x);
            }
        }
        assert(slot_neighbours(s@, dim, r_max as nat) =~= neighbours@.to_set());
    }
    s
}

/// Reads the vector of a slot.
pub fn decode_vector(s: &Vec<u8>, dim: u16) -> (v: Vec<u32>)
    requires
        s@.len() >= 4 + 4 * dim,
    ensures
        v@ == slot_vector(s@, dim as nat),
{
    let mut v: Vec<u32> = Vec::new();
    let mut i: usize = 0;
    while i < dim as usize
        invariant
            i <= dim,
            s@.len() >= 4 + 4 * dim,
            v@ == slot_vector(s@, i as nat),
        decreases dim - i,
    {
        let x = read_word(s, 4 + 4 * i);
        v.push(x);
        assert(v@ =~= slot_vector(s@, (i + 1) as nat));
        i += 1;
    }
    v
}

/// Reads the neighbours of a slot, each once, dropping the zero padding.
pub fn decode_neighbours(s: &Vec<u8>, dim: u16, r_max: u8) -> (v: Vec<u32>)
    requires
        s@.len() >= slot_size(dim as nat, r_max as nat),
    ensures
        v@.no_duplicates(),
        !v@.contains(0),
        v@.to_set() == slot_neighbours(s@, dim as nat, r_max as nat),
{
    let mut raw: Vec<u32> = Vec::new();
    let mut j: usize = 0;
    let base: usize = 4 + 4 * dim as usize;
    while j < r_max as usize
        invariant
            j <= r_max,
            base == 4 + 4 * dim,
            s@.len() >= slot_size(dim as nat, r_max as nat),
            !raw@.contains(0),
            forall|x: u32| #[trigger] raw@.contains(x) <==> x != 0 && exists|jj: int| 0 <= jj < j && #[trigger] slot_neighbour_word(s@, dim as nat, jj) == x,
        decreases r_max - j,
    {
        let x = read_word(s, base + 4 * j);
        assert(x == slot_neighbour_word(s@, dim as nat, j as int));
        if x != 0 {
            let ghost before = raw@;
            raw.push(x);
            assert forall|y: u32| #[trigger] raw@.contains(y) <==> y != 0 && exists|jj: int| 0 <= jj < j + 1 && #[trigger] slot_neighbour_word(s@, dim as nat, jj) == y by {
                if raw@.contains(y) && y != x {
                    let k = choose|k: int| 0 <= k < raw@.len() && raw@[k] == y;
                    assert(before[k] == y);
                    assert(before.contains(y));
                }
                if y == x {
                    assert(slot_neighbour_word(s@, dim as nat, j as int) == y);
                    assert(raw@[raw@.len() - 1] == y);
                }
                if y != 0 && exists|jj: int| 0 <= jj < j + 1 && #[trigger] slot_neighbour_word(s@, dim as nat, jj) == y {
                    if y != x {
                        let jj = choose|jj: int| 0 <= jj < j + 1 && #[trigger] slot_neighbour_word(s@, dim as nat, jj) == y;
                        assert(jj < j);
                        assert(before.contains(y));
                        let k = choose|k: int| 0 <= k < before.len() && before[k] == y;
                        assert(raw@[k] == y);
                    } else {
                        assert(raw@[raw@.len() - 1] == y);
                    }
                }
            }
        } else {
            assert forall|y: u32| #[trigger] raw@.contains(y) <==> y != 0 && exists|jj: int| 0 <= jj < j + 1 && #[trigger] slot_neighbour_word(s@, dim as nat, jj) == y by {
                if y != 0 && exists|jj: int| 0 <= jj < j + 1 && #[trigger] slot_neighbour_word(s@, dim as nat, jj) == y {
                    let jj = choose|jj: int| 0 <= jj < j + 1 && #[trigger] slot_neighbour_word(s@, dim as nat, jj) == y;
                    assert(jj < j);
                }
            }
        }
        j += 1;
    }
    let v = distinct_words(&raw);
    assert(v@.to_set() =~= slot_neighbours(s@, dim as nat, r_max as nat)) by {
        assert forall|x: u32| v@.to_set().contains(x) <==> raw@.contains(x) by {
            assert(v@.to_set().contains(x) == raw@.to_set().contains(x));
        }
    }
    assert(!v@.contains(0)) by {
        if v@.contains(0) {
            assert(v@.to_set().contains(0));
        }
    }
    v
}

} // verus!

verus! {

/// A fixed-record store: a header and one slot per id, slot `id` at offset
/// `HEADER_SIZE + (id - 1) * slot_size`, so any node is reached in O(1).
///
/// The store holds the image's slots; `image` gives the bytes of the whole
/// file (the header's next id included) and `open` reads them back.
pub struct NaiveDisk {
    dimensions: u16,
    max_neighbour_count: u8,
    next_node_index: u32,
    slots: Vec<Vec<u8>>,
}

impl NaiveDisk {
    /// The dimension of every stored vector.
    pub closed spec fn dim(&self) -> nat {
        self.dimensions as nat
    }

    /// The bytes of the store's file.
    pub closed spec fn file_bytes(&self) -> Seq<u8> {
        image_bytes(
            self.dimensions,
            self.max_neighbour_count,
            self.next_node_index,
            self.slots@.map_values(|v: Vec<u8>| v@),
        )
    }

    /// The size of one slot.
    pub open spec fn slot_len(&self) -> nat {
        slot_size(self.dim(), self.max_degree())
    }

    /// An empty store for vectors of `dimensions` words and neighbour sets of
    /// at most `max_neighbor_count` ids.
    pub fn new(dimensions: u16, max_neighbor_count: u8) -> (r: NaiveDisk)
        ensures
            r.inv(),
            r.dim() == dimensions,
            r.max_degree() == max_neighbor_count,
            r.next_id() == 1,
            r.nodes() == Map::<u32, NodeView>::empty(),
    {
        let r = NaiveDisk {
            dimensions,
            max_neighbour_count: max_neighbor_count,
            next_node_index: 1,
            slots: Vec::new(),
        };
        assert(r.nodes() =~= Map::<u32, NodeView>::empty());
        r
    }

    /// The dimension of every stored vector.
    pub fn dimensions(&self) -> (r: u16)
        ensures
            r == self.dim(),
    {
        self.dimensions
    }

    /// The cap on neighbour sets.
    pub fn max_neighbour_count(&self) -> (r: u8)
        ensures
            r == self.max_degree(),
    {
        self.max_neighbour_count
    }

    /// Every stored node carries its own id, a vector of the store's
    /// dimension and a neighbour set within the cap without the id 0.
    pub proof fn lemma_records(&self)
        requires
            self.inv(),
        ensures
            self.next_id() <= u32::MAX,
            forall|k: u32| #[trigger]
                self.nodes().contains_key(k) ==> self.nodes()[k].id == k && node_fits(
                    self.nodes()[k],
                    self.dim(),
                    self.max_degree(),
                ) && self.nodes()[k].connected.finite(),
    {
        self.lemma_inv();
    }

    /// The size of the header.
    pub fn index_metadata_size(&self) -> (r: usize)
        ensures
            r == HEADER_SIZE,
    {
        2 + 1 + 4
    }

    /// The size of one slot.
    pub fn index_node_size(&self) -> (r: usize)
        ensures
            r == self.slot_len(),
    {
        self.index_node_id_size() + self.dimensions as usize * self.index_node_vector_element_size()
            + self.max_neighbour_count as usize * self.index_node_id_size()
    }

    /// The size of a stored id.
    pub fn index_node_id_size(&self) -> (r: usize)
        ensures
            r == 4,
    {
        4
    }

    /// The size of a stored vector element.
    pub fn index_node_vector_element_size(&self) -> (r: usize)
        ensures
            r == 4,
    {
        4
    }

    /// Where the slot of a node starts in the image.
    pub fn node_offset(&self, node_index: u32) -> (r: u64)
        requires
            node_index >= 1,
        ensures
            r == slot_start(node_index as nat, self.slot_len()),
            r <= 7 + u32::MAX * 300000,
    {
        let size = self.index_node_size() as u64;
        assert(size <= 300000);
        assert((node_index - 1) * size <= u32::MAX * 300000) by (nonlinear_arith)
            requires
                node_index - 1 <= u32::MAX,
                size <= 300000,
        ;
        self.index_metadata_size() as u64 + (node_index - 1) as u64 * size
    }

    /// Where the neighbour list of a node starts in the image.
    pub fn node_connections_offset(&self, node_index: u32) -> (r: u64)
        requires
            node_index >= 1,
        ensures
            r == slot_start(node_index as nat, self.slot_len()) + 4 + 4 * self.dim(),
    {
        self.node_offset(node_index) + self.index_node_id_size() as u64 + (self.dimensions as usize
            * self.index_node_vector_element_size()) as u64
    }
}

} // verus!

verus! {

broadcast use vstd::std_specs::hash::group_hash_axioms;

impl NaiveDisk {
    /// Whether the slot of id `k` is live.
    spec fn live(&self, k: int) -> bool {
        word(self.slots@[k - 1]@, 0) != 0
    }

    /// Whether slot `k` holds a node; reads its id word.
    fn slot_live(&self, k: u32) -> (r: bool)
        requires
            self.inv(),
            1 <= k < self.next_id(),
        ensures
            r == self.nodes().contains_key(k),
    {
        read_word(&self.slots[k as usize - 1], 0) != 0
    }

    /// The node in slot `k`, which is live.
    fn read_slot(&self, k: u32) -> (n: Node)
        requires
            self.inv(),
            self.nodes().contains_key(k),
        ensures
            n@ == self.nodes()[k],
            n.id == k,
            n.connected@.no_duplicates(),
            !n.connected@.contains(0),
    {
        let slot = &self.slots[k as usize - 1];
        let vector = decode_vector(slot, self.dimensions);
        let connected = decode_neighbours(slot, self.dimensions, self.max_neighbour_count);
        Node { id: k, vector, connected }
    }
}

/// Whether `set_node` accepts a node: a non-zero id below the largest, a
/// vector of the store's dimension, and a neighbour set within the cap that
/// does not hold the reserved id 0.
pub open spec fn node_fits(n: NodeView, dim: nat, r_max: nat) -> bool {
    &&& n.id != 0
    &&& n.id < u32::MAX
    &&& n.vector.len() == dim
    &&& !n.connected.contains(0)
    &&& n.connected.len() <= r_max
}

impl NaiveDisk {
    /// An empty slot: all zero.
    fn empty_slot(&self) -> (s: Vec<u8>)
        ensures
            s@.len() == self.slot_len(),
            word(s@, 0) == 0,
    {
        let mut zeros: Vec<u32> = Vec::new();
        let mut i: u16 = 0;
        while i < self.dimensions
            invariant
                i <= self.dimensions,
                zeros@.len() == i,
            decreases self.dimensions - i,
        {
            zeros.push(0);
            i += 1;
        }
        let empty: Vec<u32> = Vec::new();
        encode_slot(0, &zeros, &empty, self.max_neighbour_count)
    }

    /// Writes a whole node into the slot of its id, growing the image with
    /// empty slots up to it where needed.
    pub fn set_node(&mut self, node: &Node) -> (r: Result<(), Error>)
        requires
            old(self).inv(),
        ensures
            final(self).inv(),
            final(self).dim() == old(self).dim(),
            final(self).max_degree() == old(self).max_degree(),
            r is Ok <==> node_fits(node@, old(self).dim(), old(self).max_degree()),
            r matches Err(e) ==> e is InvalidInput && *final(self) == *old(self),
            r is Ok ==> final(self).nodes() == old(self).nodes().insert(node.id, node@)
                && final(self).next_id() == if node.id < old(self).next_id() {
                old(self).next_id()
            } else {
                (node.id + 1) as nat
            },
    {
        let set = distinct_words(&node.connected);
        proof {
            lemma_distinct_len(set@);
        }
        if node.id == 0 || node.id == u32::MAX || contains_word(&set, 0) {
            proof {
                if set@.contains(0) {
                    assert(set@.to_set().contains(0));
                }
            }
            return Err(Error::InvalidInput("node id 0 is reserved".to_owned()));
        }
        assert(!node.connected@.contains(0)) by {
            if node.connected@.contains(0) {
                assert(node.connected@.to_set().contains(0));
                assert(set@.to_set().contains(0));
            }
        }
        if node.vector.len() != self.dimensions as usize {
            return Err(Error::InvalidInput("vector length differs from the store's".to_owned()));
        }
        if set.len() > self.max_neighbour_count as usize {
            return Err(Error::InvalidInput("neighbour set over the degree cap".to_owned()));
        }
        let id = node.id;
        let ghost old_slots = self.slots@;
        let idx: usize = (id - 1) as usize;
        while self.slots.len() < idx
            invariant
                old_slots == old(self).slots@,
                idx == id - 1,
                old_slots.len() <= self.slots@.len(),
                self.slots@.len() > old_slots.len() ==> self.slots@.len() <= id - 1,
                id < u32::MAX,
                self.dimensions == old(self).dimensions,
                self.max_neighbour_count == old(self).max_neighbour_count,
                forall|j: int| 0 <= j < old_slots.len() ==> #[trigger] self.slots@[j] == old_slots[j],
                forall|j: int|
                    old_slots.len() <= j < self.slots@.len() ==> (#[trigger] self.slots@[j])@.len()
                        == self.slot_len() && word(self.slots@[j]@, 0) == 0,
            decreases id - 1 - self.slots@.len(),
        {
            let e = self.empty_slot();
            self.slots.push(e);
        }
        let slot = encode_slot(id, &node.vector, &set, self.max_neighbour_count);
        if self.slots.len() == idx {
            self.slots.push(slot);
        } else {
            self.slots.set(idx, slot);
        }
        self.next_node_index = self.slots.len() as u32 + 1;
        proof {
            let target = old(self).nodes().insert(id, node@);
            assert forall|k: u32| #[trigger] self.nodes().contains_key(k) <==> target.contains_key(k) by {
                if 1 <= k < old(self).next_node_index && k != id {
                    assert(self.slots@[k - 1] == old_slots[k - 1]);
                }
            }
            assert forall|k: u32| #[trigger] self.nodes().contains_key(k) implies self.nodes()[k]
                == target[k] by {
                if k != id {
                    assert(self.slots@[k - 1] == old_slots[k - 1]);
                } else {
                    assert(slot_vector(slot@, self.dim()) == node.vector@);
                }
            }
            assert(self.nodes() =~= target);
        }
        Ok(())
    }
}

impl GraphStorage for NaiveDisk {
    closed spec fn nodes(&self) -> Map<u32, NodeView> {
        Map::new(
            |k: u32| 1 <= k < self.next_node_index && self.live(k as int),
            |k: u32| slot_node(self.slots@[k - 1]@, k, self.dim(), self.max_degree()),
        )
    }

    closed spec fn next_id(&self) -> nat {
        self.next_node_index as nat
    }

    closed spec fn max_degree(&self) -> nat {
        self.max_neighbour_count as nat
    }

    /// Ids stay below `u32::MAX`, and every vector has the store's
    /// dimension, which is not zero.
    open spec fn accepts(&self, batch: Seq<Seq<u32>>) -> bool {
        &&& self.next_id() + batch.len() <= u32::MAX
        &&& (self.dim() > 0 || batch.len() == 0)
        &&& forall|i: int| 0 <= i < batch.len() ==> #[trigger] batch[i].len() == self.dim()
    }

    closed spec fn store_name(&self) -> Seq<char> {
        "NaiveDisk"@
    }

    closed spec fn inv(&self) -> bool {
        &&& self.next_node_index == self.slots@.len() + 1
        &&& forall|j: int|
            0 <= j < self.slots@.len() ==> {
                &&& (#[trigger] self.slots@[j])@.len() == slot_size(
                    self.dimensions as nat,
                    self.max_neighbour_count as nat,
                )
                &&& word(self.slots@[j]@, 0) == 0 || word(self.slots@[j]@, 0) == j + 1
            }
    }

    proof fn lemma_inv(&self) {
        lemma_id_span_finite(1, self.next_node_index as nat);
        assert(self.nodes().dom().subset_of(id_span(1, self.next_node_index as nat)));
        vstd::set_lib::lemma_set_subset_finite(id_span(1, self.next_node_index as nat), self.nodes().dom());
        assert forall|k: u32| #[trigger] self.nodes().contains_key(k) implies 0 < k < self.next_id()
            && self.nodes()[k].id == k && self.nodes()[k].connected.finite()
            && self.nodes()[k].connected.len() <= self.max_degree() by {
            let s = self.slots@[k - 1]@;
            let words = Seq::new(self.max_neighbour_count as nat, |j: int| slot_neighbour_word(s, self.dim(), j));
            assert(self.nodes()[k].connected.subset_of(words.to_set())) by {
                assert forall|x: u32| self.nodes()[k].connected.contains(x) implies words.to_set().contains(x) by {
                    let j = choose|j: int| 0 <= j < self.max_neighbour_count && #[trigger] slot_neighbour_word(s, self.dim(), j) == x;
                    assert(words[j] == x);
                }
            }
            words.lemma_cardinality_of_set();
            vstd::seq_lib::seq_to_set_is_finite(words);
            vstd::set_lib::lemma_set_subset_finite(words.to_set(), self.nodes()[k].connected);
            vstd::set_lib::lemma_len_subset(self.nodes()[k].connected, words.to_set());
        }
    }

    fn add_nodes(&mut self, data: &Vec<Vec<u32>>) -> (r: Result<Vec<u32>, Error>) {
        let ghost batch = batch_view(data@);
        if data.len() > (u32::MAX - self.next_node_index) as usize {
            return Err(Error::InvalidInput("too many nodes".to_owned()));
        }
        if self.dimensions == 0 && data.len() > 0 {
            return Err(Error::InvalidInput("empty vector".to_owned()));
        }
        let mut i: usize = 0;
        while i < data.len()
            invariant
                i <= data.len(),
                batch == batch_view(data@),
                forall|j: int| 0 <= j < i ==> #[trigger] batch[j].len() == self.dimensions,
                self == old(self),
                self.inv(),
            decreases data.len() - i,
        {
            assert(batch[i as int] == data@[i as int]@);
            if data[i].len() != self.dimensions as usize {
                return Err(Error::InvalidInput("vector length differs from the store's".to_owned()));
            }
            i += 1;
        }
        let ghost old_nodes = self.nodes();
        let ghost first = self.next_id();
        let empty: Vec<u32> = Vec::new();
        let mut ids: Vec<u32> = Vec::new();
        let mut i: usize = 0;
        while i < data.len()
            invariant
                i <= data.len(),
                batch == batch_view(data@),
                forall|j: int| 0 <= j < batch.len() ==> #[trigger] batch[j].len() == self.dimensions,
                self.next_node_index == first + i,
                first >= 1,
                first + data.len() <= u32::MAX,
                self.dimensions == old(self).dimensions,
                self.max_neighbour_count == old(self).max_neighbour_count,
                self.inv(),
                empty@.len() == 0,
                ids@ == id_range(first, i as nat),
                data@.len() == 0 ==> self == old(self),
                first == old(self).next_id(),
                old_nodes == old(self).nodes(),
                self.nodes() == with_batch(old_nodes, first, batch.subrange(0, i as int)),
            decreases data.len() - i,
        {
            let id = self.next_node_index;
            assert(batch[i as int] == data@[i as int]@);
            let slot = encode_slot(id, &data[i], &empty, self.max_neighbour_count);
            assert(slot_neighbours(slot@, self.dim(), self.max_degree()) =~= Set::<u32>::empty());
            let ghost before = self.nodes();
            let ghost before_slots = self.slots@;
            self.slots.push(slot);
            self.next_node_index = id + 1;
            ids.push(id);
            proof {
                let sub = batch.subrange(0, i + 1);
                assert(batch.subrange(0, i as int) =~= sub.subrange(0, i as int));
                assert forall|k: u32| #[trigger] self.nodes().contains_key(k) <==> with_batch(old_nodes, first, sub).contains_key(k) by {
                    if 1 <= k < id {
                        assert(self.slots@[k - 1] == before_slots[k - 1]);
                        assert(before.contains_key(k) == with_batch(old_nodes, first, batch.subrange(0, i as int)).contains_key(k));
                        assert(self.nodes().contains_key(k) == before.contains_key(k));
                    } else if k == id {
                        assert(self.slots@[k - 1] == slot);
                        assert(self.live(k as int));
                        assert(self.nodes().contains_key(k));
                        assert(with_batch(old_nodes, first, sub).contains_key(k));
                    } else {
                        assert(!self.nodes().contains_key(k));
                        assert(!old_nodes.contains_key(k));
                        assert(!with_batch(old_nodes, first, sub).contains_key(k));
                    }
                }
                assert forall|k: u32| #[trigger] self.nodes().contains_key(k) implies self.nodes()[k]
                    == with_batch(old_nodes, first, sub)[k] by {
                    if k < id {
                        assert(self.slots@[k - 1] == before_slots[k - 1]);
                        assert(self.nodes()[k] == before[k]);
                        if k >= first {
                            assert(sub[k - first] == batch.subrange(0, i as int)[k - first]);
                        } else {
                            assert(before[k] == old_nodes[k]);
                        }
                    } else {
                        assert(sub[k - first] == batch[i as int]);
                        assert(slot_vector(slot@, self.dim()) == batch[i as int]);
                    }
                }
                assert(self.nodes() =~= with_batch(old_nodes, first, sub));
                assert(ids@ =~= id_range(first, (i + 1) as nat));
            }
            i += 1;
        }
        assert(batch.subrange(0, data.len() as int) =~= batch);
        Ok(ids)
    }

    fn get_node(&self, node_id: u32) -> (r: Result<Node, Error>) {
        if node_id == 0 {
            return Err(Error::InvalidInput("node id 0 is reserved".to_owned()));
        }
        if node_id >= self.next_node_index || !self.slot_live(node_id) {
            return Err(Error::NotFound(node_id));
        }
        Ok(self.read_slot(node_id))
    }

    fn set_connections(&mut self, node_index: u32, connections: &Vec<u32>) -> (r: Result<(), Error>) {
        let set = distinct_words(connections);
        proof {
            lemma_distinct_len(set@);
        }
        if node_index == 0 || contains_word(&set, 0) {
            proof {
                if set@.contains(0) {
                    assert(set@.to_set().contains(0));
                }
            }
            return Err(Error::InvalidInput("node id 0 is reserved".to_owned()));
        }
        assert(!connections@.contains(0)) by {
            if connections@.contains(0) {
                assert(connections@.to_set().contains(0));
                assert(set@.to_set().contains(0));
            }
        }
        if set.len() > self.max_neighbour_count as usize {
            return Err(Error::InvalidInput("neighbour set over the degree cap".to_owned()));
        }
        if node_index >= self.next_node_index || !self.slot_live(node_index) {
            return Err(Error::NotFound(node_index));
        }
        let k = node_index as usize - 1;
        let vector = decode_vector(&self.slots[k], self.dimensions);
        let slot = encode_slot(node_index, &vector, &set, self.max_neighbour_count);
        self.slots.set(k, slot);
        assert(self.nodes() =~= old(self).nodes().insert(
            node_index,
            old(self).nodes()[node_index].with_connected(connections@.to_set()),
        ));
        Ok(())
    }

    fn get_random_node(&self) -> (r: Option<Node>) {
        if self.next_node_index == 1 {
            assert(self.nodes().dom() =~= Set::<u32>::empty());
            return None;
        }
        let k = random_below(self.next_node_index - 1) + 1;
        if self.slot_live(k) {
            return Some(self.read_slot(k));
        }
        let mut j: u32 = 1;
        while j < self.next_node_index
            invariant
                1 <= j <= self.next_node_index,
                self.inv(),
                forall|i: u32| 1 <= i < j ==> !#[trigger] self.nodes().contains_key(i),
            decreases self.next_node_index - j,
        {
            if self.slot_live(j) {
                return Some(self.read_slot(j));
            }
            j += 1;
        }
        assert(self.nodes().dom() =~= Set::<u32>::empty());
        None
    }

    fn get_all_node_indexes(&self) -> (r: Result<Vec<u32>, Error>) {
        let mut ids: Vec<u32> = Vec::new();
        let mut j: u32 = 1;
        while j < self.next_node_index
            invariant
                1 <= j <= self.next_node_index,
                self.inv(),
                ids@.no_duplicates(),
                forall|i: int| 0 <= i < ids@.len() ==> #[trigger] ids@[i] < j,
                forall|x: u32| #[trigger] ids@.contains(x) <==> x < j && self.nodes().contains_key(x),
            decreases self.next_node_index - j,
        {
            let ghost before = ids@;
            let live = self.slot_live(j);
            if live {
                ids.push(j);
                assert(!before.contains(j));
            }
            assert forall|x: u32| #[trigger] ids@.contains(x) <==> x < j + 1 && self.nodes().contains_key(x) by {
                if x == j && live {
                    assert(ids@[ids@.len() - 1] == x);
                }
                if ids@.contains(x) && x != j {
                    let i = choose|i: int| 0 <= i < ids@.len() && ids@[i] == x;
                    assert(before[i] == x);
                    assert(before.contains(x));
                }
                if x < j && self.nodes().contains_key(x) {
                    assert(before.contains(x));
                    let i = choose|i: int| 0 <= i < before.len() && before[i] == x;
                    assert(ids@[i] == x);
                }
            }
            j += 1;
        }
        assert(ids@.to_set() =~= self.nodes().dom());
        Ok(ids)
    }

    fn get_all_nodes(&self) -> (r: Result<HashMap<u32, Node>, Error>) {
        let mut all: HashMap<u32, Node> = HashMap::new();
        let mut j: u32 = 1;
        while j < self.next_node_index
            invariant
                1 <= j <= self.next_node_index,
                self.inv(),
                forall|x: u32| #[trigger] all@.contains_key(x) <==> x < j && self.nodes().contains_key(x),
                forall|x: u32| #[trigger] all@.contains_key(x) ==> all@[x]@ == self.nodes()[x],
            decreases self.next_node_index - j,
        {
            if self.slot_live(j) {
                let n = self.read_slot(j);
                all.insert(j, n);
            }
            j += 1;
        }
        assert(all@.dom() =~= self.nodes().dom());
        Ok(all)
    }

    fn get_name(&self) -> (r: String) {
        "NaiveDisk".to_owned()
    }
}

} // verus!

verus! {

impl NaiveDisk {
    /// The bytes of the store's file: the header, then every slot in id
    /// order. The header's next id is the store's own.
    pub fn image(&self) -> (r: Vec<u8>)
        requires
            self.inv(),
        ensures
            image_ok(r@, self.dim(), self.max_degree()),
            r@.len() == HEADER_SIZE + (self.next_id() - 1) * self.slot_len(),
            word(r@, 3) == self.next_id(),
            image_nodes(r@, self.dim(), self.max_degree()) == self.nodes(),
            r@ == self.file_bytes(),
    {
        let ghost size = self.slot_len();
        let mut b: Vec<u8> = Vec::new();
        push_half(&mut b, self.dimensions);
        b.push(self.max_neighbour_count);
        let ghost b3 = b@;
        push_word(&mut b, self.next_node_index);
        proof {
            assert(half(b@, 0) == half(b3, 0));
        }
        let ghost header = b@;
        assert(header =~= half_bytes(self.dimensions) + seq![self.max_neighbour_count] + word_bytes(self.next_node_index));
        let ghost views = self.slots@.map_values(|v: Vec<u8>| v@);
        assert(views.subrange(0, 0) =~= Seq::<Seq<u8>>::empty());
        assert(b@ =~= header + concat_slots(views.subrange(0, 0)));
        let len = self.index_node_size();
        let mut j: usize = 0;
        while j < self.slots.len()
            invariant
                self.inv(),
                len == size,
                size == self.slot_len(),
                j <= self.slots@.len(),
                b@.len() == HEADER_SIZE + j * size,
                header.len() == HEADER_SIZE,
                forall|i: int| 0 <= i < HEADER_SIZE ==> #[trigger] b@[i] == header[i],
                forall|k: nat|
                    1 <= k <= j ==> #[trigger] image_slot(b@, k, size) == self.slots@[k - 1]@,
                views == self.slots@.map_values(|v: Vec<u8>| v@),
                b@ == header + concat_slots(views.subrange(0, j as int)),
            decreases self.slots@.len() - j,
        {
            let slot = &self.slots[j];
            let ghost before = b@;
            let mut c: usize = 0;
            while c < len
                invariant
                    self.inv(),
                    j < self.slots@.len(),
                    slot == &self.slots@[j as int],
                    len == size,
                    slot@.len() == size,
                    before.len() == HEADER_SIZE + j * size,
                    c <= len,
                    b@.len() == before.len() + c,
                    forall|i: int| 0 <= i < before.len() ==> #[trigger] b@[i] == before[i],
                    forall|cc: int| 0 <= cc < c ==> #[trigger] b@[before.len() + cc] == slot@[cc],
                decreases len - c,
            {
                b.push(slot[c]);
                c += 1;
            }
            proof {
                assert(HEADER_SIZE + j * size + size == HEADER_SIZE + (j + 1) * size) by (nonlinear_arith);
                assert(views.subrange(0, j + 1).drop_last() =~= views.subrange(0, j as int));
                assert(views.subrange(0, j + 1).last() == slot@);
                assert forall|i: int| 0 <= i < b@.len() implies b@[i] == (before + slot@)[i] by {
                    if i >= before.len() {
                        let cc = i - before.len();
                        assert(b@[before.len() + cc] == slot@[cc]);
                    }
                }
                assert(b@ =~= before + slot@);
                assert(b@ =~= header + concat_slots(views.subrange(0, j + 1)));
                assert forall|k: nat| 1 <= k <= j + 1 implies #[trigger] image_slot(b@, k, size)
                    == self.slots@[k - 1]@ by {
                    if k <= j {
                        lemma_slots_apart(k, (j + 1) as nat, size);
                        assert(image_slot(b@, k, size) =~= image_slot(before, k, size));
                    } else {
                        assert(slot_start(k, size) == before.len());
                        assert forall|cc: int| 0 <= cc < size implies #[trigger] image_slot(b@, k, size)[cc]
                            == slot@[cc] by {
                            assert(b@[before.len() + cc] == slot@[cc]);
                        }
                        assert(image_slot(b@, k, size) =~= slot@);
                    }
                }
            }
            j += 1;
        }
        proof {
            assert(views.subrange(0, views.len() as int) =~= views);
            assert(half(b@, 0) == half(header, 0));
            assert(b@[2] == header[2]);
            lemma_word_frame(header, b@, 3);
            let next = self.next_node_index as nat;
            assert forall|k: nat| 1 <= k < next implies #[trigger] word(b@, slot_start(k, size)) == 0
                || word(b@, slot_start(k, size)) == k by {
                assert(image_slot(b@, k, size) == self.slots@[k - 1]@);
                lemma_slot_in_image(k, (next - 1) as nat, size);
                lemma_word_sub(b@, slot_start(k, size), slot_start(k, size) + size, 0);
            }
            assert forall|k: u32| #[trigger] image_nodes(b@, self.dim(), self.max_degree()).contains_key(k)
                <==> self.nodes().contains_key(k) by {
                if 1 <= k < next {
                    lemma_slot_in_image(k as nat, (next - 1) as nat, size);
                    assert(image_slot(b@, k as nat, size) == self.slots@[k - 1]@);
                } else if k >= next {
                    lemma_slot_past_end(k as nat, next, size);
                }
            }
            assert forall|k: u32| #[trigger] self.nodes().contains_key(k) implies image_nodes(
                b@,
                self.dim(),
                self.max_degree(),
            )[k] == self.nodes()[k] by {
                lemma_slot_in_image(k as nat, (next - 1) as nat, size);
                assert(image_nodes(b@, self.dim(), self.max_degree()).contains_key(k));
                assert(image_slot(b@, k as nat, size) == self.slots@[k - 1]@);
            }
            assert(image_nodes(b@, self.dim(), self.max_degree()) =~= self.nodes());
        }
        b
    }

    /// Reads a store back from the bytes of its file, checking them against
    /// the dimension and degree cap it is opened with.
    pub fn open(dimensions: u16, max_neighbor_count: u8, bytes: &Vec<u8>) -> (r: Result<
        NaiveDisk,
        Error,
    >)
        ensures
            r is Ok <==> image_ok(bytes@, dimensions as nat, max_neighbor_count as nat),
            r matches Err(e) ==> e is InvalidInput,
            r matches Ok(d) ==> {
                &&& d.inv()
                &&& d.dim() == dimensions
                &&& d.max_degree() == max_neighbor_count
                &&& d.next_id() == word(bytes@, 3)
                &&& d.nodes() == image_nodes(bytes@, dimensions as nat, max_neighbor_count as nat)
            },
    {
        let ghost size = slot_size(dimensions as nat, max_neighbor_count as nat);
        if bytes.len() < HEADER_SIZE {
            return Err(Error::InvalidInput("image shorter than its header".to_owned()));
        }
        if read_half(bytes, 0) != dimensions || bytes[2] != max_neighbor_count {
            return Err(Error::InvalidInput("dimension or degree cap differs from the image's".to_owned()));
        }
        let next = read_word(bytes, 3);
        if next == 0 {
            return Err(Error::InvalidInput("next id of 0 in the image".to_owned()));
        }
        let len: usize = 4 + 4 * dimensions as usize + 4 * max_neighbor_count as usize;
        assert((next - 1) * len <= u32::MAX * 300000) by (nonlinear_arith)
            requires
                next - 1 <= u32::MAX,
                len <= 300000,
        ;
        let expected: u64 = HEADER_SIZE as u64 + (next - 1) as u64 * len as u64;
        if expected != bytes.len() as u64 {
            return Err(Error::InvalidInput("image length does not match its next id".to_owned()));
        }
        let mut slots: Vec<Vec<u8>> = Vec::new();
        let mut k: u32 = 1;
        assert(bytes@.len() <= usize::MAX);
        while k < next
            invariant
                1 <= k <= next,
                next == word(bytes@, 3),
                size == slot_size(dimensions as nat, max_neighbor_count as nat),
                len == size,
                size >= 4,
                bytes@.len() == HEADER_SIZE + (next - 1) * size,
                slots@.len() == k - 1,
                bytes@.len() <= usize::MAX,
                forall|kk: nat|
                    1 <= kk < k ==> #[trigger] image_slot(bytes@, kk, size) == slots@[kk - 1]@,
                forall|kk: nat|
                    1 <= kk < k ==> #[trigger] word(bytes@, slot_start(kk, size)) == 0 || word(
                        bytes@,
                        slot_start(kk, size),
                    ) == kk,
            decreases next - k,
        {
            proof {
                lemma_slots_apart(k as nat, next as nat, size);
            }
            let start: usize = HEADER_SIZE + (k - 1) as usize * len;
            assert(start == slot_start(k as nat, size));
            let id = read_word(bytes, start);
            if id != 0 && id != k {
                assert(!image_ok(bytes@, dimensions as nat, max_neighbor_count as nat)) by {
                    assert(word(bytes@, slot_start(k as nat, slot_size(dimensions as nat, max_neighbor_count as nat))) == id);
                    assert(1 <= k < word(bytes@, 3));
                }
                return Err(Error::InvalidInput("slot holds another node's id".to_owned()));
            }
            let mut slot: Vec<u8> = Vec::new();
            let mut c: usize = 0;
            while c < len
                invariant
                    c <= len,
                    len == size,
                    start + size <= bytes@.len(),
                    bytes@.len() <= usize::MAX,
                    slot@.len() == c,
                    forall|cc: int| 0 <= cc < c ==> #[trigger] slot@[cc] == bytes@[start + cc],
                decreases len - c,
            {
                slot.push(bytes[start + c]);
                c += 1;
            }
            assert(slot@ =~= image_slot(bytes@, k as nat, size));
            let ghost before = slots@;
            slots.push(slot);
            assert forall|kk: nat| 1 <= kk < k + 1 implies #[trigger] image_slot(bytes@, kk, size) == slots@[kk - 1]@ by {
                if kk < k {
                    assert(slots@[kk - 1] == before[kk - 1]);
                }
            }
            k += 1;
        }
        let d = NaiveDisk {
            dimensions,
            max_neighbour_count: max_neighbor_count,
            next_node_index: next,
            slots,
        };
        proof {
            assert forall|j: int| 0 <= j < d.slots@.len() implies (#[trigger] d.slots@[j])@.len() == size
                && (word(d.slots@[j]@, 0) == 0 || word(d.slots@[j]@, 0) == j + 1) by {
                assert(image_slot(bytes@, (j + 1) as nat, size) == d.slots@[j]@);
                lemma_slots_apart((j + 1) as nat, next as nat, size);
                lemma_word_sub(bytes@, slot_start((j + 1) as nat, size), slot_start((j + 1) as nat, size) + size, 0);
                assert(word(bytes@, slot_start((j + 1) as nat, size)) == 0 || word(
                    bytes@,
                    slot_start((j + 1) as nat, size),
                ) == (j + 1) as nat);
            }
            let target = image_nodes(bytes@, dimensions as nat, max_neighbor_count as nat);
            assert forall|k: u32| #[trigger] target.contains_key(k) <==> d.nodes().contains_key(k) by {
                if 1 <= k < next {
                    lemma_slot_in_image(k as nat, (next - 1) as nat, size);
                    assert(d.slots@[k - 1]@ == image_slot(bytes@, k as nat, size));
                } else if k >= next {
                    lemma_slot_past_end(k as nat, next as nat, size);
                }
            }
            assert forall|k: u32| #[trigger] d.nodes().contains_key(k) implies target[k] == d.nodes()[k] by {
                lemma_slot_in_image(k as nat, (next - 1) as nat, size);
                assert(target.contains_key(k));
                assert(d.slots@[k - 1]@ == image_slot(bytes@, k as nat, size));
            }
            assert(target =~= d.nodes());
        }
        Ok(d)
    }
}

} // verus!
