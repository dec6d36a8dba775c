use vstd::prelude::*;

verus! {

/// One vertex of the proximity graph: its id, its vector (the bit patterns
/// of its `f32` coordinates) and its out-neighbours, without repetition.
#[derive(Debug)]
pub struct Node {
    pub id: u32,
    pub vector: Vec<u32>,
    pub connected: Vec<u32>,
}

/// What a node is, mathematically: out-neighbours form a set.
pub struct NodeView {
    pub id: u32,
    pub vector: Seq<u32>,
    pub connected: Set<u32>,
}

impl View for Node {
    type V = NodeView;

    open spec fn view(&self) -> NodeView {
        NodeView { id: self.id, vector: self.vector@, connected: self.connected@.to_set() }
    }
}

impl NodeView {
    /// The same node with its out-neighbours replaced.
    pub open spec fn with_connected(self, c: Set<u32>) -> NodeView {
        NodeView { id: self.id, vector: self.vector, connected: c }
    }
}

/// A freshly added node: no out-neighbours yet.
pub open spec fn fresh_node(id: u32, v: Seq<u32>) -> NodeView {
    NodeView { id: id, vector: v, connected: Set::empty() }
}

/// Copies a sequence of words.
pub fn copy_words(v: &Vec<u32>) -> (r: Vec<u32>)
    ensures
        r@ == v@,
{
    let mut r: Vec<u32> = Vec::with_capacity(v.len());
    let mut i: usize = 0;
    while i < v.len()
        invariant
            i <= v.len(),
            r@ == v@.subrange(0, i as int),
        decreases v.len() - i,
    {
        r.push(v[i]);
        i += 1;
    }
    assert(r@ =~= v@);
    r
}

impl Node {
    /// A copy of the node.
    pub fn duplicate(&self) -> (r: Node)
        ensures
            r.id == self.id,
            r.vector@ == self.vector@,
            r.connected@ == self.connected@,
            r@ == self@,
    {
        Node { id: self.id, vector: copy_words(&self.vector), connected: copy_words(&self.connected) }
    }

    /// The node's id.
    pub fn id(&self) -> (r: u32)
        ensures
            r == self.id,
    {
        self.id
    }
}

/// Whether `x` occurs in `v`.
pub fn contains_word(v: &Vec<u32>, x: u32) -> (r: bool)
    ensures
        r == v@.contains(x),
{
    let mut i: usize = 0;
    while i < v.len()
        invariant
            i <= v.len(),
            forall|j: int| 0 <= j < i ==> v@[j] != x,
        decreases v.len() - i,
    {
        if v[i] == x {
            return true;
        }
        i += 1;
    }
    false
}

/// The words of `v` without repetition, in the order of their first
/// occurrence.
pub fn distinct_words(v: &Vec<u32>) -> (r: Vec<u32>)
    ensures
        r@.no_duplicates(),
        r@.to_set() == v@.to_set(),
{
    let mut r: Vec<u32> = Vec::new();
    let mut i: usize = 0;
    while i < v.len()
        invariant
            i <= v.len(),
            r@.no_duplicates(),
            r@.to_set() == v@.subrange(0, i as int).to_set(),
        decreases v.len() - i,
    {
        let x = v[i];
        let seen = contains_word(&r, x);
        proof {
            assert(v@.subrange(0, i + 1) == v@.subrange(0, i as int).push(x));
            lemma_push_to_set(v@.subrange(0, i as int), x);
        }
        if !seen {
            proof {
                lemma_push_to_set(r@, x);
            }
            r.push(x);
        } else {
            proof {
                assert(r@.to_set().contains(x));
                assert(r@.to_set().insert(x) =~= r@.to_set());
            }
        }
        i += 1;
    }
    assert(v@.subrange(0, v.len() as int) == v@);
    r
}

/// Pushing one word adds it to the set of words.
pub proof fn lemma_push_to_set(s: Seq<u32>, x: u32)
    ensures
        s.push(x).to_set() == s.to_set().insert(x),
{
    assert forall|y: u32| s.push(x).to_set().contains(y) <==> s.to_set().insert(x).contains(y) by {
        if y == x {
            assert(s.push(x)[s.len() as int] == x);
        }
        if s.to_set().contains(y) {
            let j = choose|j: int| 0 <= j < s.len() && s[j] == y;
            assert(s.push(x)[j] == y);
        }
        if s.push(x).to_set().contains(y) && y != x {
            let j = choose|j: int| 0 <= j < s.len() + 1 && s.push(x)[j] == y;
            assert(j < s.len());
            assert(s[j] == y);
        }
    }
    assert(s.push(x).to_set() =~= s.to_set().insert(x));
}

/// What a sequence holds after a push.
pub proof fn lemma_push_contains(s: Seq<u32>, v: u32)
    ensures
        forall|x: u32| #[trigger] s.push(v).contains(x) <==> s.contains(x) || x == v,
{
    lemma_push_to_set(s, v);
    assert forall|x: u32| #[trigger] s.push(v).contains(x) <==> s.contains(x) || x == v by {
        assert(s.push(v).contains(x) == s.push(v).to_set().contains(x));
        assert(s.contains(x) == s.to_set().contains(x));
    }
}

/// A sequence without repetition has as many elements as its set.
pub proof fn lemma_distinct_len(s: Seq<u32>)
    requires
        s.no_duplicates(),
    ensures
        s.to_set().len() == s.len(),
        s.to_set().finite(),
{
    s.unique_seq_to_set();
    vstd::seq_lib::seq_to_set_is_finite(s);
}

/// The ids in `[lo, hi)`.
pub open spec fn id_span(lo: nat, hi: nat) -> Set<u32> {
    Set::new(|k: u32| lo <= k < hi)
}

/// A span of ids is finite.
pub proof fn lemma_id_span_finite(lo: nat, hi: nat)
    requires
        hi <= u32::MAX + 1,
    ensures
        id_span(lo, hi).finite(),
{
    if lo < hi {
        let s = Seq::new((hi - lo) as nat, |i: int| (lo + i) as u32);
        assert(id_span(lo, hi) =~= s.to_set()) by {
            assert forall|k: u32| id_span(lo, hi).contains(k) implies s.to_set().contains(k) by {
                assert(s[k - lo] == k);
            }
        }
        vstd::seq_lib::seq_to_set_is_finite(s);
    } else {
        assert(id_span(lo, hi) =~= Set::<u32>::empty());
    }
}

} // verus!
