use crate::geometry::Point3i;
use vstd::prelude::*;

verus! {

/// A key-value store of the chunk nodes of one level of detail, keyed by chunk coordinate.
pub trait ChunkStorage<N>: Sized {
    /// The internal invariant of the store.
    spec fn inv(&self) -> bool;

    /// What the store holds.
    spec fn storage_view(&self) -> Map<Point3i, N>;

    /// The node at `key`, if one is stored.
    fn get(&self, key: Point3i) -> (r: Option<&N>)
        requires
            self.inv(),
        ensures
            match r {
                Some(n) => self.storage_view().contains_key(key) && *n == self.storage_view()[key],
                None => !self.storage_view().contains_key(key),
            },
    ;

    /// Mutably borrow the node at `key`, if one is stored; what is written through the borrow is
    /// what the store holds at `key` afterwards.
    fn get_mut(&mut self, key: Point3i) -> (r: Option<&mut N>)
        requires
            old(self).inv(),
        ensures
            final(self).inv(),
            match r {
                Some(n) => old(self).storage_view().contains_key(key) && *n == old(self).storage_view()[key]
                    && final(self).storage_view() == old(self).storage_view().insert(key, *final(n)),
                None => !old(self).storage_view().contains_key(key) && final(self).storage_view() == old(self).storage_view(),
            },
    ;

    /// Stores `node` at `key` and hands back the node that was there before, if any.
    fn insert(&mut self, key: Point3i, node: N) -> (r: Option<N>)
        requires
            old(self).inv(),
        ensures
            final(self).inv(),
            final(self).storage_view() == old(self).storage_view().insert(key, node),
            r == (if old(self).storage_view().contains_key(key) {
                Some(old(self).storage_view()[key])
            } else {
                None
            }),
    ;

    /// Takes the node at `key` out of the store, if one is there.
    fn remove(&mut self, key: Point3i) -> (r: Option<N>)
        requires
            old(self).inv(),
        ensures
            final(self).inv(),
            final(self).storage_view() == old(self).storage_view().remove(key),
            r == (if old(self).storage_view().contains_key(key) {
                Some(old(self).storage_view()[key])
            } else {
                None
            }),
    ;
}

/// The default in-memory store: an association list with unique keys, in order of first insertion.
pub struct VecChunkStorage<N> {
    keys: Vec<Point3i>,
    nodes: Vec<N>,
}

spec fn keys_unique(keys: Seq<Point3i>) -> bool {
    forall|i: int, j: int| 0 <= i < j < keys.len() ==> keys[i] != keys[j]
}

spec fn position_of(keys: Seq<Point3i>, k: Point3i) -> int {
    choose|i: int| 0 <= i < keys.len() && keys[i] == k
}

proof fn lemma_position_of(keys: Seq<Point3i>, i: int)
    requires
        keys_unique(keys),
        0 <= i < keys.len(),
    ensures
        position_of(keys, keys[i]) == i,
{
    let k = keys[i];
    let j = position_of(keys, k);
    assert(0 <= j < keys.len() && keys[j] == k);
}

fn node_mut<N>(v: &mut Vec<N>, i: usize) -> (r: &mut N)
    requires
        i < old(v)@.len(),
    ensures
        *r == old(v)@[i as int],
        final(v)@ == old(v)@.update(i as int, *final(r)),
{
    &mut v[i]
}

spec fn view_of<N>(keys: Seq<Point3i>, nodes: Seq<N>) -> Map<Point3i, N> {
    Map::new(|k: Point3i| keys.contains(k), |k: Point3i| nodes[position_of(keys, k)])
}

/// Replacing the node at position `i` replaces the value of the `i`-th key.
proof fn lemma_view_update<N>(keys: Seq<Point3i>, nodes: Seq<N>, i: int)
    requires
        keys_unique(keys),
        keys.len() == nodes.len(),
        0 <= i < keys.len(),
    ensures
        forall|n: N| #[trigger] view_of(keys, nodes.update(i, n)) == view_of(keys, nodes).insert(keys[i], n),
{
    assert forall|n: N| #[trigger] view_of(keys, nodes.update(i, n)) == view_of(keys, nodes).insert(keys[i], n) by {
        lemma_position_of(keys, i);
        assert forall|k: Point3i| #[trigger] keys.contains(k) implies view_of(keys, nodes.update(i, n))[k]
            == view_of(keys, nodes).insert(keys[i], n)[k] by {
            let j = choose|j: int| 0 <= j < keys.len() && keys[j] == k;
            lemma_position_of(keys, j);
        }
        assert(view_of(keys, nodes.update(i, n)) =~= view_of(keys, nodes).insert(keys[i], n));
    }
}

impl<N> VecChunkStorage<N> {
    /// An empty store.
    pub fn new() -> (r: Self)
        ensures
            r.inv(),
            r.storage_view() == Map::<Point3i, N>::empty(),
    {
        let r = VecChunkStorage { keys: Vec::new(), nodes: Vec::new() };
        assert(r.storage_view() =~= Map::<Point3i, N>::empty());
        r
    }

    /// Number of stored nodes.
    pub fn len(&self) -> (r: usize)
        requires
            self.inv(),
        ensures
            r == self.storage_view().dom().len(),
    {
        proof {
            self.lemma_dom_len();
        }
        self.keys.len()
    }

    proof fn lemma_dom_len(&self)
        requires
            self.inv(),
        ensures
            self.storage_view().dom().len() == self.keys@.len(),
    {
        self.keys@.unique_seq_to_set();
        assert(self.storage_view().dom() =~= self.keys@.to_set());
    }

    fn find(&self, key: Point3i) -> (r: Option<usize>)
        requires
            self.inv(),
        ensures
            match r {
                Some(i) => i < self.keys@.len() && self.keys@[i as int] == key,
                None => !self.keys@.contains(key),
            },
    {
        let mut i: usize = 0;
        while i < self.keys.len()
            invariant
                i <= self.keys@.len(),
                forall|j: int| 0 <= j < i ==> self.keys@[j] != key,
            decreases self.keys@.len() - i,
        {
            if self.keys[i] == key {
                return Some(i);
            }
            i = i + 1;
        }
        None
    }
}

impl<N> ChunkStorage<N> for VecChunkStorage<N> {
    closed spec fn inv(&self) -> bool {
        self.keys@.len() == self.nodes@.len() && keys_unique(self.keys@)
    }

    closed spec fn storage_view(&self) -> Map<Point3i, N> {
        view_of(self.keys@, self.nodes@)
    }

    fn get(&self, key: Point3i) -> (r: Option<&N>) {
        match self.find(key) {
            Some(i) => {
                proof {
                    lemma_position_of(self.keys@, i as int);
                }
                Some(&self.nodes[i])
            },
            None => None,
        }
    }

    fn get_mut(&mut self, key: Point3i) -> (r: Option<&mut N>) {
        match self.find(key) {
            Some(i) => {
                proof {
                    lemma_position_of(self.keys@, i as int);
                    lemma_view_update(self.keys@, self.nodes@, i as int);
                }
                Some(node_mut(&mut self.nodes, i))
            },
            None => None,
        }
    }

    fn insert(&mut self, key: Point3i, node: N) -> (r: Option<N>) {
        match self.find(key) {
            Some(i) => {
                proof {
                    lemma_position_of(self.keys@, i as int);
                }
                let prev = self.nodes.remove(i);
                self.nodes.insert(i, node);
                proof {
                    assert(self.nodes@ =~= old(self).nodes@.update(i as int, node));
                    assert forall|k: Point3i| #[trigger]
                        self.storage_view().contains_key(k) implies self.storage_view()[k]
                        == old(self).storage_view().insert(key, node)[k] by {
                        let j = choose|j: int| 0 <= j < self.keys@.len() && self.keys@[j] == k;
                        lemma_position_of(self.keys@, j);
                    }
                    assert(self.storage_view() =~= old(self).storage_view().insert(key, node));
                }
                Some(prev)
            },
            None => {
                self.keys.push(key);
                self.nodes.push(node);
                proof {
                    let n = old(self).keys@.len() as int;
                    assert(self.keys@[n] == key);
                    lemma_position_of(self.keys@, n);
                    assert forall|k: Point3i| #[trigger]
                        self.storage_view().contains_key(k) implies self.storage_view()[k]
                        == old(self).storage_view().insert(key, node)[k] by {
                        let j = choose|j: int| 0 <= j < self.keys@.len() && self.keys@[j] == k;
                        lemma_position_of(self.keys@, j);
                        if j < n {
                            lemma_position_of(old(self).keys@, j);
                        }
                    }
                    assert forall|k: Point3i|
                        #[trigger] self.keys@.contains(k) <==> (old(self).keys@.contains(k) || k
                            == key) by {
                        if old(self).keys@.contains(k) {
                            let j = choose|j: int|
                                0 <= j < old(self).keys@.len() && old(self).keys@[j] == k;
                            assert(self.keys@[j] == k);
                        }
                    }
                    assert(self.storage_view() =~= old(self).storage_view().insert(key, node));
                }
                None
            },
        }
    }

    fn remove(&mut self, key: Point3i) -> (r: Option<N>) {
        match self.find(key) {
            Some(i) => {
                proof {
                    lemma_position_of(self.keys@, i as int);
                }
                self.keys.remove(i);
                let prev = self.nodes.remove(i);
                proof {
                    let ok = old(self).keys@;
                    assert forall|k: Point3i|
                        #[trigger] self.keys@.contains(k) <==> (ok.contains(k) && k != key) by {
                        if ok.contains(k) && k != key {
                            let j = choose|j: int| 0 <= j < ok.len() && ok[j] == k;
                            if j < i {
                                assert(self.keys@[j] == k);
                            } else {
                                assert(self.keys@[j - 1] == k);
                            }
                        }
                    }
                    assert forall|k: Point3i| #[trigger]
                        self.storage_view().contains_key(k) implies self.storage_view()[k]
                        == old(self).storage_view().remove(key)[k] by {
                        let j = choose|j: int| 0 <= j < self.keys@.len() && self.keys@[j] == k;
                        lemma_position_of(self.keys@, j);
                        if j < i {
                            lemma_position_of(ok, j);
                        } else {
                            lemma_position_of(ok, j + 1);
                        }
                    }
                    assert(self.storage_view() =~= old(self).storage_view().remove(key));
                }
                Some(prev)
            },
            None => {
                assert(self.storage_view() =~= old(self).storage_view().remove(key));
                None
            },
        }
    }
}

} // verus!
