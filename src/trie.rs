use std::collections::HashMap;
use std::hash::Hash;
use vstd::prelude::*;
use vstd::std_specs::hash::obeys_key_model;

verus! {

broadcast use vstd::std_specs::hash::group_hash_axioms;

/// The key sequences that extend `p`, with `p` taken off the front: what the
/// subtree at `p` holds when `keys` is what the whole tree holds.
pub open spec fn below<K>(keys: Set<Seq<K>>, p: Seq<K>) -> Set<Seq<K>> {
    Set::new(|s: Seq<K>| keys.contains(p + s))
}

/// Whether a tree holding `keys` has a node at path `p`: the root is always
/// there, any other node only on the way to some key.
pub open spec fn present<K>(keys: Set<Seq<K>>, p: Seq<K>) -> bool {
    p.len() == 0 || exists|s: Seq<K>| #[trigger] keys.contains(p + s)
}

/// The symbols that start some key: one child of the root for each.
pub open spec fn first_symbols<K>(keys: Set<Seq<K>>) -> Set<K> {
    Set::new(|c: K| exists|s: Seq<K>| #[trigger] keys.contains(seq![c] + s))
}

/// After a sequence is inserted, looking it up finds a node, and that node is
/// marked as the end of an inserted sequence.
pub proof fn lemma_insert_then_lookup<K>(keys: Set<Seq<K>>, s: Seq<K>)
    ensures
        present(keys.insert(s), s),
        below(keys.insert(s), s).contains(Seq::empty()),
{
    assert(s + Seq::<K>::empty() =~= s);
    assert(keys.insert(s).contains(s + Seq::<K>::empty()));
}

/// Inserting a sequence a second time leaves the same set of inserted
/// sequences, so every lookup, mark and child count is as after the first.
pub proof fn lemma_insert_idempotent<K>(keys: Set<Seq<K>>, s: Seq<K>)
    ensures
        keys.insert(s).insert(s) == keys.insert(s),
{
    assert(keys.insert(s).insert(s) =~= keys.insert(s));
}

/// A strict prefix of an inserted sequence that was not inserted itself
/// leads to a node, and that node is not marked.
pub proof fn lemma_strict_prefix_unmarked<K>(keys: Set<Seq<K>>, s: Seq<K>, t: Seq<K>)
    requires
        keys.contains(t),
        s.is_prefix_of(t),
        s != t,
        !keys.contains(s),
    ensures
        present(keys, s),
        !below(keys, s).contains(Seq::empty()),
{
    let rest = t.skip(s.len() as int);
    assert(s + rest =~= t);
    assert(keys.contains(s + rest));
    assert(s + Seq::<K>::empty() =~= s);
}

/// A non-empty sequence that is no prefix of any inserted sequence (itself
/// included) leads to no node.
pub proof fn lemma_unknown_absent<K>(keys: Set<Seq<K>>, u: Seq<K>)
    requires
        u.len() > 0,
        forall|t: Seq<K>| #[trigger] keys.contains(t) ==> !u.is_prefix_of(t),
    ensures
        !present(keys, u),
{
    assert forall|s: Seq<K>| !#[trigger] keys.contains(u + s) by {
        assert((u + s).subrange(0, u.len() as int) =~= u);
    }
}

/// The empty sequence always leads to the root, which holds every inserted
/// sequence and is marked exactly when the empty sequence was inserted.
pub proof fn lemma_empty_sequence_root<K>(keys: Set<Seq<K>>)
    ensures
        present(keys, Seq::empty()),
        below(keys, Seq::empty()) == keys,
        below(keys, Seq::empty()).contains(Seq::empty()) == keys.contains(Seq::empty()),
{
    assert forall|s: Seq<K>| #[trigger] keys.contains(Seq::<K>::empty() + s) == keys.contains(s) by {
        assert(Seq::<K>::empty() + s =~= s);
    }
    assert(below(keys, Seq::empty()) =~= keys);
}

/// A node of a prefix tree. Each node owns its children, one per symbol; the
/// node reached from the root along a key sequence is marked once that
/// sequence has been inserted.
pub struct Trie<K: Copy + Eq + Hash> {
    is_leaf: bool,
    nodes: HashMap<K, Trie<K>>,
}

impl<K: Copy + Eq + Hash> Trie<K> {
    /// The node reached from this one along `p`, if every step has a child.
    pub closed spec fn node_at(self, p: Seq<K>) -> Option<Trie<K>>
        decreases p.len(),
    {
        if p.len() == 0 {
            Some(self)
        } else if self.nodes@.contains_key(p[0]) {
            self.nodes@[p[0]].node_at(p.drop_first())
        } else {
            None
        }
    }

    /// Whether the sequence `p` was inserted below this node.
    pub closed spec fn has_key(self, p: Seq<K>) -> bool {
        match self.node_at(p) {
            Some(n) => n.is_leaf,
            None => false,
        }
    }

    /// Every node but this one lies on the way to some inserted sequence.
    pub closed spec fn wf(self) -> bool {
        forall|p: Seq<K>|
            p.len() > 0 && (#[trigger] self.node_at(p)) is Some ==> exists|s: Seq<K>|
                #[trigger] self.has_key(p + s)
    }

    /// Walking `p` and then `s` reaches the node that walking `p + s` reaches.
    pub proof fn lemma_node_at_concat(self, p: Seq<K>, s: Seq<K>)
        ensures
            self.node_at(p + s) == match self.node_at(p) {
                Some(n) => n.node_at(s),
                None => None,
            },
        decreases p.len(),
    {
        if p.len() == 0 {
            assert(p + s =~= s);
        } else {
            assert((p + s).drop_first() =~= p.drop_first() + s);
            assert((p + s)[0] == p[0]);
            if self.nodes@.contains_key(p[0]) {
                self.nodes@[p[0]].lemma_node_at_concat(p.drop_first(), s);
            }
        }
    }

    /// In a well-formed tree the nodes are exactly the paths that `present`
    /// admits, and the node at `p` is a well-formed tree of what lies below `p`.
    pub proof fn lemma_node_at_model(self, p: Seq<K>)
        requires
            self.wf(),
        ensures
            self.node_at(p) is Some <==> present(self@, p),
            self.node_at(p) matches Some(n) ==> n.wf() && n@ == below(self@, p),
    {
        if p.len() == 0 {
            assert(p =~= Seq::<K>::empty());
        }
        if self.node_at(p) is Some {
            if p.len() > 0 {
                let s = choose|s: Seq<K>| #[trigger] self.has_key(p + s);
                assert(self@.contains(p + s));
            }
            let n = self.node_at(p)->0;
            assert forall|s: Seq<K>| n@.contains(s) == below(self@, p).contains(s) by {
                self.lemma_node_at_concat(p, s);
            }
            assert(n@ =~= below(self@, p));
            assert forall|q: Seq<K>|
                q.len() > 0 && (#[trigger] n.node_at(q)) is Some implies exists|s: Seq<K>|
                    #[trigger] n.has_key(q + s) by {
                self.lemma_node_at_concat(p, q);
                assert((p + q).len() > 0);
                let s = choose|s: Seq<K>| #[trigger] self.has_key((p + q) + s);
                assert((p + q) + s =~= p + (q + s));
                self.lemma_node_at_concat(p, q + s);
                assert(n.has_key(q + s));
            }
        } else if p.len() > 0 {
            assert forall|s: Seq<K>| !#[trigger] self@.contains(p + s) by {
                self.lemma_node_at_concat(p, s);
            }
        }
    }

    /// An empty tree: no children, and no sequence inserted.
    pub fn new() -> (r: Trie<K>)
        ensures
            r.wf(),
            r@ == Set::<Seq<K>>::empty(),
    {
        let r = Trie { is_leaf: false, nodes: HashMap::new() };
        assert forall|p: Seq<K>| p.len() > 0 implies #[trigger] r.node_at(p) is None by {}
        assert(r@ =~= Set::<Seq<K>>::empty()) by {
            assert forall|p: Seq<K>| !#[trigger] r.has_key(p) by {
                if p.len() > 0 {
                    assert(r.node_at(p) is None);
                }
            }
        }
        r
    }

    /// Inserts `value`: walks it from the root, making each missing child on
    /// the way, and marks the node reached. Inserting a sequence again changes
    /// nothing.
    pub fn add_value(&mut self, value: &[K])
        requires
            obeys_key_model::<K>(),
            old(self).wf(),
        ensures
            final(self).wf(),
            final(self)@ == old(self)@.insert(value@),
    {
        self.add_from(value, 0);
        assert(value@.skip(0) =~= value@);
    }

    /// Inserts the part of `value` from position `i` on, below this node.
    #[verifier::rlimit(40)]
    fn add_from(&mut self, value: &[K], i: usize)
        requires
            obeys_key_model::<K>(),
            old(self).wf(),
            i <= value@.len(),
        ensures
            final(self).wf(),
            final(self)@ == old(self)@.insert(value@.skip(i as int)),
        decreases value@.len() - i,
    {
        let ghost prev = *self;
        if i == value.len() {
            self.is_leaf = true;
            assert(value@.skip(i as int) =~= Seq::<K>::empty());
            assert(self.nodes == prev.nodes);
            assert forall|q: Seq<K>| #[trigger] self.has_key(q) == (prev.has_key(q) || q
                == Seq::<K>::empty()) by {
                if q.len() == 0 {
                    assert(q =~= Seq::<K>::empty());
                }
            }
            assert(self@ =~= prev@.insert(Seq::empty()));
            assert forall|q: Seq<K>|
                q.len() > 0 && (#[trigger] self.node_at(q)) is Some implies exists|s: Seq<K>|
                    #[trigger] self.has_key(q + s) by {
                assert(prev.node_at(q) is Some);
                let s = choose|s: Seq<K>| #[trigger] prev.has_key(q + s);
                assert((q + s).len() > 0);
                assert(self.has_key(q + s));
            }
        } else {
            let c = value[i];
            let ghost rest = value@.skip(i + 1);
            assert(value@.skip(i as int) =~= seq![c] + rest);
            let mut child = match self.nodes.remove(&c) {
                Some(n) => n,
                None => Trie::new(),
            };
            proof {
                prev.lemma_node_at_model(seq![c]);
                assert(seq![c][0] == c);
                assert(seq![c].drop_first() =~= Seq::<K>::empty());
                if prev.nodes@.contains_key(c) {
                    assert(child == prev.nodes@[c]);
                    assert(prev.nodes@[c].node_at(Seq::empty()) == Some(child));
                    assert(prev.node_at(seq![c]) == Some(child));
                } else {
                    assert(below(prev@, seq![c]) =~= Set::<Seq<K>>::empty()) by {
                        assert forall|s: Seq<K>| !#[trigger] prev@.contains(seq![c] + s) by {
                            prev.lemma_node_at_concat(seq![c], s);
                        }
                    }
                }
            }
            let ghost child0 = child;
            child.add_from(value, i + 1);
            self.nodes.insert(c, child);
            proof {
                let ghost v = seq![c] + rest;
                assert(v[0] == c);
                assert(v.drop_first() =~= rest);
                assert(self.nodes@ =~= prev.nodes@.insert(c, child));
                assert forall|q: Seq<K>| #[trigger] self.has_key(q) == (prev.has_key(q) || q == v) by {
                    if q.len() > 0 {
                        let q1 = q.drop_first();
                        assert(q =~= seq![q[0]] + q1);
                        if q[0] == c {
                            assert(child0@.contains(q1) == prev@.contains(seq![c] + q1));
                            assert(child@.contains(q1) == (child0@.contains(q1) || q1 == rest));
                            assert(q == v <==> q1 == rest);
                        } else {
                            assert(q != v);
                        }
                    } else {
                        assert(q != v);
                    }
                }
                assert(self@ =~= prev@.insert(v));
                assert forall|q: Seq<K>|
                    q.len() > 0 && (#[trigger] self.node_at(q)) is Some implies exists|s: Seq<K>|
                        #[trigger] self.has_key(q + s) by {
                    let q1 = q.drop_first();
                    if q[0] == c {
                        if q1.len() == 0 {
                            assert(q + rest =~= v);
                            assert(self.has_key(q + rest));
                        } else {
                            assert(self.nodes@[c] == child);
                            assert(child.node_at(q1) is Some);
                            let s = choose|s: Seq<K>| #[trigger] child.has_key(q1 + s);
                            assert(child@.contains(q1 + s));
                            assert(q + s =~= seq![c] + (q1 + s));
                            assert(self.has_key(q + s));
                        }
                    } else {
                        assert(prev.node_at(q) is Some);
                        let s = choose|s: Seq<K>| #[trigger] prev.has_key(q + s);
                        assert(self.has_key(q + s));
                    }
                }
            }
        }
    }

    /// The node that `key` leads to from this one, or `None` where some
    /// step has no child. The empty sequence gives this node itself.
    pub fn get_value(&self, key: &[K]) -> (r: Option<&Trie<K>>)
        requires
            obeys_key_model::<K>(),
            self.wf(),
        ensures
            r is Some <==> present(self@, key@),
            r matches Some(n) ==> n.wf() && n@ == below(self@, key@),
    {
        let mut current_tree = self;
        let mut i: usize = 0;
        assert(key@.skip(0) =~= key@);
        while i < key.len()
            invariant
                obeys_key_model::<K>(),
                self.wf(),
                i <= key@.len(),
                self.node_at(key@) == current_tree.node_at(key@.skip(i as int)),
            decreases key@.len() - i,
        {
            let b = key[i];
            assert(key@.skip(i as int)[0] == b);
            assert(key@.skip(i as int).drop_first() =~= key@.skip(i + 1));
            match current_tree.nodes.get(&b) {
                Some(x) => {
                    current_tree = x;
                },
                None => {
                    proof {
                        self.lemma_node_at_model(key@);
                    }
                    return None;
                },
            }
            i = i + 1;
        }
        assert(key@.skip(i as int) =~= Seq::<K>::empty());
        proof {
            self.lemma_node_at_model(key@);
        }
        Some(current_tree)
    }

    /// How many children this node has: one for each symbol that starts a
    /// sequence inserted below it.
    pub fn num_children(&self) -> (r: usize)
        requires
            obeys_key_model::<K>(),
            self.wf(),
        ensures
            r == first_symbols(self@).len(),
    {
        assert(self.nodes@.dom() =~= first_symbols(self@)) by {
            assert forall|c: K| #[trigger] self.nodes@.contains_key(c) == first_symbols(self@).contains(c) by {
                self.lemma_node_at_model(seq![c]);
                assert(seq![c][0] == c);
                assert(seq![c].drop_first() =~= Seq::<K>::empty());
                if self.nodes@.contains_key(c) {
                    assert(self.nodes@[c].node_at(Seq::empty()) is Some);
                    assert(self.node_at(seq![c]) is Some);
                }
                assert(self.node_at(seq![c]) is Some <==> self.nodes@.contains_key(c));
                assert(present(self@, seq![c]) == first_symbols(self@).contains(c));
            }
        }
        self.nodes.len()
    }

    /// Whether the sequence that leads to this node was inserted (whether or
    /// not longer sequences go on through it).
    pub fn is_leaf(&self) -> (r: bool)
        ensures
            r == self@.contains(Seq::empty()),
    {
        assert(self.node_at(Seq::empty()) == Some(*self));
        self.is_leaf
    }
}

impl<K: Copy + Eq + Hash> View for Trie<K> {
    type V = Set<Seq<K>>;

    /// The sequences inserted below this node.
    closed spec fn view(&self) -> Set<Seq<K>> {
        Set::new(|p: Seq<K>| self.has_key(p))
    }
}

} // verus!
