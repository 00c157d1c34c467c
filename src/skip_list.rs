use vstd::prelude::*;
use std::cmp::Ordering;
use crate::arena::{arena_ok, fwd, ht, lemma_delete_shape, lemma_insert_shape, link_ok, live, no_skip, pred_ok, rk, tgt};
use crate::node::{Bound, KeyVal, SkipListNode};
use crate::promotion::{deterministic_level, probabilistic_level, spec_deterministic_level, PromotionType, MAX_LEVEL};

verus! {

/// The reason an insertion is refused.
#[derive(Debug, PartialEq, Eq, Structural)]
pub enum SkipListError {
    DuplicateKey,
}

/// An ordered map from `u64` keys to entries, kept as a skip list in an arena.
pub struct SkipList<T> {
    length: usize,
    head: usize,
    free_list: Vec<usize>,
    nodes: Vec<SkipListNode<T>>,
    promotion_type: PromotionType,
    model: Ghost<Map<u64, T>>,
}

impl<T: KeyVal> SkipList<T> {
    /// The entries stored, by key.
    pub closed spec fn view(&self) -> Map<u64, T> {
        self.model@
    }

    /// The policy that picks the levels of new nodes.
    pub closed spec fn spec_promotion(&self) -> PromotionType {
        self.promotion_type
    }

    /// The arena: slot 0 is the head, slot 1 the tail.
    pub closed spec fn spec_nodes(&self) -> Seq<SkipListNode<T>> {
        self.nodes@
    }

    /// The slots waiting to be reused, the next one last.
    pub closed spec fn spec_free_list(&self) -> Seq<usize> {
        self.free_list@
    }

    /// Every free slot is in the arena, holds `Null`, and is listed once.
    pub closed spec fn free_ok(&self) -> bool {
        let a = self.nodes@;
        let f = self.free_list@;
        &&& forall|i: int| 0 <= i < f.len() ==> #[trigger] f[i] < a.len() && a[f[i] as int].spec_data() is Null
        &&& forall|i: int, j: int| 0 <= i < j < f.len() ==> #[trigger] f[i] != #[trigger] f[j]
    }

    /// The entries in the arena are exactly the entries of the map, each under its key.
    pub closed spec fn model_ok(&self) -> bool {
        let a = self.nodes@;
        let m = self.model@;
        &&& forall|i: int| 0 <= i < a.len() && #[trigger] a[i].spec_data() is Value ==> {
            let t = a[i].spec_data()->Value_0;
            m.contains_key(t.spec_key()) && m[t.spec_key()] == t
        }
        &&& forall|k: u64| #[trigger] m.contains_key(k) ==> exists|i: int|
            0 <= i < a.len() && #[trigger] a[i].spec_data() == Bound::Value(m[k]) && m[k].spec_key() == k
    }

    /// The structure is consistent: arena shape, free slots, stored entries and count.
    pub closed spec fn wf(&self) -> bool {
        &&& self.shape_ok()
        &&& self.length + self.free_list@.len() + 2 == self.nodes@.len()
    }

    /// All of `wf` but the accounting of slots, which a slot just taken off for an entry breaks.
    pub closed spec fn shape_ok(&self) -> bool {
        &&& arena_ok(self.nodes@)
        &&& self.head == 0
        &&& self.free_ok()
        &&& self.model_ok()
        &&& self.model@.dom().finite()
        &&& self.length == self.model@.len()
    }

    /// An empty list whose new nodes get their level by `promotion_type`.
    pub fn new(promotion_type: PromotionType) -> (r: Self)
        ensures
            r.wf(),
            r@ == Map::<u64, T>::empty(),
            r.spec_promotion() == promotion_type,
            r.spec_free_list().len() == 0,
            r.spec_nodes().len() == 2,
    {
        let mut head = SkipListNode::new_sentinel(Bound::<T>::NegInf, MAX_LEVEL - 1);
        let tail = SkipListNode::new_sentinel(Bound::<T>::PosInf, MAX_LEVEL - 1);
        let mut i: usize = 0;
        while i < head.forwards.len()
            invariant
                head.data is NegInf,
                head.forwards@.len() == MAX_LEVEL,
                i <= MAX_LEVEL,
                forall|j: int| 0 <= j < i ==> head.forwards@[j] == Some(1usize),
            decreases MAX_LEVEL - i,
        {
            head.forwards.set(i, Some(1));
            i = i + 1;
        }
        let mut nodes: Vec<SkipListNode<T>> = Vec::new();
        nodes.push(head);
        nodes.push(tail);
        let r = SkipList {
            length: 0,
            head: 0,
            free_list: Vec::new(),
            nodes,
            promotion_type,
            model: Ghost(Map::empty()),
        };
        proof {
            let a = r.nodes@;
            assert forall|i: int, l: int| live(a, i) && 0 <= l < ht(a, i) implies #[trigger] link_ok(a, i, l) by {
                assert(i == 0);
                assert(fwd(a, i, l) == Some(1usize));
            }
            assert forall|i: int, l: int, z: int| live(a, i) && 0 <= l < ht(a, i) && 0 <= z < a.len()
                implies #[trigger] no_skip(a, i, l, z) by {
                assert(z == 0 || z == 1);
            }
        }
        r
    }

    /// The level for the next inserted node, by the list's promotion policy.
    fn get_max_level(&self) -> (r: usize)
        requires
            self.length < usize::MAX,
        ensures
            r < MAX_LEVEL,
            self.promotion_type == PromotionType::Deterministic ==> r == spec_deterministic_level((self.length + 1) as usize),
    {
        match self.promotion_type {
            PromotionType::Probabilistic => probabilistic_level(),
            PromotionType::Deterministic => deterministic_level(self.length + 1),
        }
    }

    /// A slot holding `Null`: a recycled one when the free list has one, else a new one.
    fn allocate_index(&mut self) -> (r: usize)
        requires
            old(self).wf(),
        ensures
            final(self).shape_ok(),
            final(self)@ == old(self)@,
            final(self).length == old(self).length,
            final(self).promotion_type == old(self).promotion_type,
            final(self).length + final(self).free_list@.len() + 3 == final(self).nodes@.len(),
            2 <= r < final(self).nodes@.len(),
            final(self).nodes@[r as int].spec_data() is Null,
            forall|i: int| 0 <= i < final(self).free_list@.len() ==> #[trigger] final(self).free_list@[i] != r,
            old(self).free_list@.len() > 0 ==> r == old(self).free_list@.last()
                && final(self).free_list@ == old(self).free_list@.drop_last()
                && final(self).nodes@ == old(self).nodes@,
            old(self).free_list@.len() == 0 ==> r == old(self).nodes@.len()
                && final(self).nodes@ == old(self).nodes@.push(final(self).nodes@[r as int])
                && final(self).nodes@[r as int].spec_forwards().len() == 0
                && final(self).free_list@ == old(self).free_list@,
    {
        match self.free_list.pop() {
            Some(id) => {
                proof {
                    let f = old(self).free_list@;
                    assert(f[f.len() - 1] == id);
                    assert forall|i: int| 0 <= i < self.free_list@.len() implies #[trigger] self.free_list@[i] != id by {
                        assert(f[i] == self.free_list@[i]);
                    }
                    assert forall|i: int| 0 <= i < self.free_list@.len() implies #[trigger] self.free_list@[i]
                        < self.nodes@.len() && self.nodes@[self.free_list@[i] as int].spec_data() is Null by {
                        assert(f[i] == self.free_list@[i]);
                    }
                    assert forall|i: int, j: int| 0 <= i < j < self.free_list@.len() implies #[trigger] self.free_list@[i]
                        != #[trigger] self.free_list@[j] by {
                        assert(f[i] == self.free_list@[i]);
                        assert(f[j] == self.free_list@[j]);
                    }
                }
                id
            },
            None => {
                let id = self.nodes.len();
                let ghost a = self.nodes@;
                self.nodes.push(SkipListNode::default());
                proof {
                    let b = self.nodes@;
                    assert forall|i: int| 0 <= i < a.len() implies #[trigger] b[i] == a[i] by {}
                    assert forall|i: int, l: int| live(b, i) && 0 <= l < ht(b, i) implies #[trigger] link_ok(b, i, l) by {
                        assert(live(a, i));
                        assert(link_ok(a, i, l));
                    }
                    assert forall|i: int, l: int, z: int| live(b, i) && 0 <= l < ht(b, i) && 0 <= z < b.len()
                        implies #[trigger] no_skip(b, i, l, z) by {
                        assert(live(a, i));
                        assert(link_ok(a, i, l));
                        if z < a.len() {
                            assert(no_skip(a, i, l, z));
                        }
                    }
                    assert forall|i: int, j: int| 0 <= i < b.len() && 0 <= j < b.len() && i != j
                        && b[i].spec_data() is Value && b[j].spec_data() is Value implies #[trigger] rk(b, i) != #[trigger] rk(b, j) by {
                        assert(rk(a, i) != rk(a, j));
                    }
                    assert forall|k: u64| #[trigger] self.model@.contains_key(k) implies exists|i: int|
                        0 <= i < b.len() && #[trigger] b[i].spec_data() == Bound::Value(self.model@[k]) && self.model@[k].spec_key() == k by {
                        let i = choose|i: int| 0 <= i < a.len() && #[trigger] a[i].spec_data() == Bound::Value(self.model@[k])
                            && self.model@[k].spec_key() == k;
                        assert(b[i] == a[i]);
                    }
                }
                id
            },
        }
    }


    /// Stores `data` under its key, in a new node, and returns that node's slot.
    /// A key that is already stored is refused and the list is left as it was.
    pub fn insert(&mut self, data: T) -> (r: Result<usize, SkipListError>)
        requires
            old(self).wf(),
        ensures
            final(self).wf(),
            final(self).spec_promotion() == old(self).spec_promotion(),
            old(self)@.contains_key(data.spec_key()) ==> r == Err::<usize, SkipListError>(SkipListError::DuplicateKey)
                && final(self)@ == old(self)@,
            r is Ok ==> final(self)@.len() == old(self)@.len() + 1,
            r is Ok ==> 0 <= r->Ok_0 < final(self).spec_nodes().len()
                && final(self).spec_nodes()[r->Ok_0 as int].spec_data() == Bound::Value(data)
                && 1 <= final(self).spec_nodes()[r->Ok_0 as int].spec_forwards().len() <= MAX_LEVEL,
            r is Ok && old(self).spec_promotion() == PromotionType::Deterministic
                ==> final(self).spec_nodes()[r->Ok_0 as int].spec_forwards().len()
                == spec_deterministic_level((old(self)@.len() + 1) as usize) + 1,
            r is Err ==> final(self)@.len() == old(self)@.len(),
            r is Err ==> *final(self) == *old(self),
            r is Ok ==> if old(self).spec_free_list().len() > 0 {
                &&& r->Ok_0 == old(self).spec_free_list().last()
                &&& final(self).spec_free_list() == old(self).spec_free_list().drop_last()
                &&& final(self).spec_nodes().len() == old(self).spec_nodes().len()
            } else {
                &&& r->Ok_0 == old(self).spec_nodes().len()
                &&& final(self).spec_free_list() == old(self).spec_free_list()
                &&& final(self).spec_nodes().len() == old(self).spec_nodes().len() + 1
            },
            r is Ok ==> forall|i: int| 0 <= i < old(self).spec_nodes().len() && i != r->Ok_0 ==> {
                &&& #[trigger] final(self).spec_nodes()[i].spec_data() == old(self).spec_nodes()[i].spec_data()
                &&& ht(final(self).spec_nodes(), i) == ht(old(self).spec_nodes(), i)
            },
            r is Ok ==> 2 <= r->Ok_0 && forall|i: int| 0 <= i < final(self).spec_free_list().len()
                ==> #[trigger] final(self).spec_free_list()[i] != r->Ok_0,
            r is Ok ==> forall|l: int| 0 <= l < ht(final(self).spec_nodes(), r->Ok_0 as int) ==> #[trigger] link_ok(
                final(self).spec_nodes(),
                r->Ok_0 as int,
                l,
            ) && exists|p: int| live(final(self).spec_nodes(), p) && #[trigger] fwd(final(self).spec_nodes(), p, l) == Some(r->Ok_0),
            !old(self)@.contains_key(data.spec_key()) ==> r is Ok && final(self)@ == old(self)@.insert(
                data.spec_key(),
                data,
            ),
    {
        let k = data.key();
        if self.search(k).is_some() {
            return Err(SkipListError::DuplicateKey);
        }
        let ghost d = data;
        let ghost m0 = self.model@;
        let index = self.allocate_index();
        let arena_len = self.nodes.len();
        proof {
            assert(self.length < arena_len);
        }
        let level = self.get_max_level();
        let u = self.find_preds(k);
        let ghost a = self.nodes@;
        let ghost f0 = self.free_list@;
        let ghost len0 = self.length;
        proof {
            assert forall|i: int| 0 <= i < a.len() && a[i].spec_data() is Value implies #[trigger] rk(a, i) != k by {
                let t = a[i].spec_data()->Value_0;
                assert(self.model@.contains_key(t.spec_key()));
            }
        }
        let mut fw: Vec<Option<usize>> = Vec::new();
        let mut l: usize = 0;
        while l <= level
            invariant
                self.nodes@ == a,
                level < MAX_LEVEL,
                l <= level + 1,
                u@.len() == MAX_LEVEL,
                forall|j: int| 0 <= j < MAX_LEVEL ==> #[trigger] pred_ok(a, u@[j] as int, j, k),
                fw@.len() == l,
                forall|j: int| 0 <= j < l ==> #[trigger] fw@[j] == fwd(a, u@[j] as int, j),
            decreases level + 1 - l,
        {
            proof {
                assert(pred_ok(a, u@[l as int] as int, l as int, k));
            }
            fw.push(self.nodes[u[l]].forwards[l]);
            l = l + 1;
        }
        self.nodes.set(index, SkipListNode { data: Bound::Value(data), forwards: fw });
        let mut l: usize = 0;
        while l <= level
            invariant
                level < MAX_LEVEL,
                l <= level + 1,
                2 <= index < a.len(),
                a[index as int].spec_data() is Null,
                self.free_list@ == f0,
                self.length == len0,
                self.model@ == m0,
                self.head == 0,
                self.promotion_type == old(self).promotion_type,
                u@.len() == MAX_LEVEL,
                forall|j: int| 0 <= j < MAX_LEVEL ==> #[trigger] pred_ok(a, u@[j] as int, j, k),
                self.nodes@.len() == a.len(),
                self.nodes@[index as int].spec_data() == Bound::Value(d),
                ht(self.nodes@, index as int) == level + 1,
                forall|j: int| 0 <= j <= level ==> #[trigger] fwd(self.nodes@, index as int, j) == fwd(a, u@[j] as int, j),
                forall|i: int| 0 <= i < a.len() && i != index ==> #[trigger] self.nodes@[i].spec_data() == a[i].spec_data()
                    && ht(self.nodes@, i) == ht(a, i),
                forall|i: int, j: int| 0 <= i < a.len() && i != index && 0 <= j < ht(a, i) ==> #[trigger] fwd(self.nodes@, i, j)
                    == if j < l && i == u@[j] { Some(index) } else { fwd(a, i, j) },
            decreases level + 1 - l,
        {
            let ui = u[l];
            proof {
                assert(pred_ok(a, ui as int, l as int, k));
                assert(self.nodes@[ui as int].spec_data() == a[ui as int].spec_data());
                assert(ht(self.nodes@, ui as int) > l);
            }
            let ghost before = self.nodes@;
            self.nodes[ui].forwards.set(l, Some(index));
            proof {
                let b = self.nodes@;
                assert forall|i: int| 0 <= i < a.len() && i != index implies #[trigger] b[i].spec_data() == a[i].spec_data()
                    && ht(b, i) == ht(a, i) by {
                    assert(before[i].spec_data() == a[i].spec_data());
                }
                assert forall|i: int, j: int| 0 <= i < a.len() && i != index && 0 <= j < ht(a, i) implies #[trigger] fwd(b, i, j)
                    == if j < l + 1 && i == u@[j] { Some(index) } else { fwd(a, i, j) } by {
                    assert(before[i].spec_data() == a[i].spec_data());
                    assert(fwd(before, i, j) == if j < l && i == u@[j] { Some(index) } else { fwd(a, i, j) });
                }
                assert forall|j: int| 0 <= j <= level implies #[trigger] fwd(b, index as int, j) == fwd(a, u@[j] as int, j) by {
                    assert(fwd(before, index as int, j) == fwd(a, u@[j] as int, j));
                }
            }
            l = l + 1;
        }
        proof {
            lemma_insert_shape(a, self.nodes@, index as int, level as int, u@, k);
        }
        let slots = self.nodes.len();
        proof {
            assert(self.length < slots);
        }
        self.model = Ghost(self.model@.insert(k, d));
        self.length = self.length + 1;
        proof {
            let b = self.nodes@;
            assert forall|i: int| 0 <= i < b.len() && #[trigger] b[i].spec_data() is Value implies {
                let t = b[i].spec_data()->Value_0;
                self.model@.contains_key(t.spec_key()) && self.model@[t.spec_key()] == t
            } by {
                if i != index {
                    assert(b[i].spec_data() == a[i].spec_data());
                    assert(rk(a, i) != k);
                }
            }
            assert forall|kk: u64| #[trigger] self.model@.contains_key(kk) implies exists|i: int|
                0 <= i < b.len() && #[trigger] b[i].spec_data() == Bound::Value(self.model@[kk]) && self.model@[kk].spec_key() == kk by {
                if kk == k {
                    assert(b[index as int].spec_data() == Bound::Value(self.model@[kk]));
                } else {
                    assert(m0.contains_key(kk));
                    let i = choose|i: int| 0 <= i < a.len() && #[trigger] a[i].spec_data() == Bound::Value(m0[kk])
                        && m0[kk].spec_key() == kk;
                    assert(b[i].spec_data() == a[i].spec_data());
                }
            }
            assert forall|i: int| 0 <= i < self.free_list@.len() implies #[trigger] self.free_list@[i] < b.len()
                && b[self.free_list@[i] as int].spec_data() is Null by {
                let f = self.free_list@[i] as int;
                assert(a[f].spec_data() is Null);
                assert(b[f].spec_data() == a[f].spec_data());
            }
        }
        proof {
            let b = self.nodes@;
            assert forall|lv: int| 0 <= lv < ht(b, index as int) implies #[trigger] link_ok(b, index as int, lv)
                && exists|p: int| live(b, p) && #[trigger] fwd(b, p, lv) == Some(index) by {
                let p = u@[lv] as int;
                assert(pred_ok(a, p, lv, k));
                assert(b[p].spec_data() == a[p].spec_data());
                assert(fwd(b, p, lv) == Some(index));
            }
            assert forall|i: int| 0 <= i < old(self).nodes@.len() && i != index implies {
                &&& #[trigger] b[i].spec_data() == old(self).nodes@[i].spec_data()
                &&& ht(b, i) == ht(old(self).nodes@, i)
            } by {
                assert(a[i] == old(self).nodes@[i]);
                assert(b[i].spec_data() == a[i].spec_data());
            }
        }
        Ok(index)
    }

    /// Removes the entry stored under `key` and returns it; a missing key changes nothing.
    pub fn delete(&mut self, key: u64) -> (r: Option<T>)
        requires
            old(self).wf(),
        ensures
            final(self).wf(),
            final(self).spec_promotion() == old(self).spec_promotion(),
            old(self)@.contains_key(key) ==> r == Some(old(self)@[key]) && final(self)@ == old(self)@.remove(key),
            !old(self)@.contains_key(key) ==> r is None && final(self)@ == old(self)@,
            r is Some ==> final(self)@.len() + 1 == old(self)@.len(),
            r is None ==> final(self)@.len() == old(self)@.len(),
            r is None ==> *final(self) == *old(self),
            r is Some ==> {
                let i = final(self).spec_free_list().last() as int;
                &&& final(self).spec_free_list() == old(self).spec_free_list().push(i as usize)
                &&& 2 <= i < old(self).spec_nodes().len()
                &&& old(self).spec_nodes()[i].spec_data() == Bound::Value(r->Some_0)
                &&& final(self).spec_nodes()[i].spec_data() is Null
                &&& final(self).spec_nodes().len() == old(self).spec_nodes().len()
                &&& forall|j: int| 0 <= j < old(self).spec_nodes().len() && j != i ==> {
                    &&& #[trigger] final(self).spec_nodes()[j].spec_data() == old(self).spec_nodes()[j].spec_data()
                    &&& ht(final(self).spec_nodes(), j) == ht(old(self).spec_nodes(), j)
                }
                &&& forall|p: int, l: int| live(final(self).spec_nodes(), p) && 0 <= l < ht(final(self).spec_nodes(), p)
                    ==> #[trigger] fwd(final(self).spec_nodes(), p, l) != Some(i as usize)
            },
    {
        let ghost a = self.nodes@;
        let ghost f0 = self.free_list@;
        let ghost m0 = self.model@;
        let ghost len0 = self.length;
        let u = self.find_preds(key);
        let p = u[0];
        proof {
            assert(pred_ok(a, p as int, 0, key));
        }
        let m = match self.nodes[p].forwards[0] {
            Some(t) => t,
            None => {
                return None;
            },
        };
        match self.nodes[m].data.cmp_key(key) {
            Ordering::Equal => {},
            _ => {
                proof {
                    self.lemma_absent(p as int, key);
                }
                return None;
            },
        }
        proof {
            assert(a[m as int].spec_data() is Value);
            assert(link_ok(a, m as int, 0));
            assert(ht(a, m as int) <= MAX_LEVEL);
        }
        let height = self.nodes[m].forwards.len();
        let mut l: usize = 0;
        while l < height
            invariant
                l <= height,
                height == ht(a, m as int),
                height <= MAX_LEVEL,
                0 <= m < a.len(),
                a[m as int].spec_data() is Value,
                rk(a, m as int) == key,
                self.free_list@ == f0,
                self.length == len0,
                self.model@ == m0,
                self.head == 0,
                self.promotion_type == old(self).promotion_type,
                u@.len() == MAX_LEVEL,
                forall|j: int| 0 <= j < MAX_LEVEL ==> #[trigger] pred_ok(a, u@[j] as int, j, key),
                self.nodes@.len() == a.len(),
                forall|i: int| 0 <= i < a.len() ==> #[trigger] self.nodes@[i].spec_data() == a[i].spec_data()
                    && ht(self.nodes@, i) == ht(a, i),
                forall|i: int, j: int| 0 <= i < a.len() && 0 <= j < ht(a, i) ==> #[trigger] fwd(self.nodes@, i, j)
                    == if j < l && i == u@[j] { fwd(a, m as int, j) } else { fwd(a, i, j) },
            decreases height - l,
        {
            let ui = u[l];
            proof {
                assert(pred_ok(a, ui as int, l as int, key));
                assert(self.nodes@[ui as int].spec_data() == a[ui as int].spec_data());
                assert(self.nodes@[m as int].spec_data() == a[m as int].spec_data());
                assert(ui != m);
                assert(fwd(self.nodes@, m as int, l as int) == fwd(a, m as int, l as int));
            }
            let nf = self.nodes[m].forwards[l];
            let ghost before = self.nodes@;
            self.nodes[ui].forwards.set(l, nf);
            proof {
                let b = self.nodes@;
                assert forall|i: int| 0 <= i < a.len() implies #[trigger] b[i].spec_data() == a[i].spec_data()
                    && ht(b, i) == ht(a, i) by {
                    assert(before[i].spec_data() == a[i].spec_data());
                }
                assert forall|i: int, j: int| 0 <= i < a.len() && 0 <= j < ht(a, i) implies #[trigger] fwd(b, i, j)
                    == if j < l + 1 && i == u@[j] { fwd(a, m as int, j) } else { fwd(a, i, j) } by {
                    assert(before[i].spec_data() == a[i].spec_data());
                    assert(fwd(before, i, j) == if j < l && i == u@[j] { fwd(a, m as int, j) } else { fwd(a, i, j) });
                }
            }
            l = l + 1;
        }
        let ghost mid = self.nodes@;
        let mut removed = SkipListNode::default();
        std::mem::swap(&mut removed, &mut self.nodes[m]);
        proof {
            let b = self.nodes@;
            assert forall|i: int| 0 <= i < a.len() && i != m implies #[trigger] b[i].spec_data() == a[i].spec_data()
                && ht(b, i) == ht(a, i) by {
                assert(b[i] == mid[i]);
                assert(mid[i].spec_data() == a[i].spec_data());
            }
            assert forall|i: int, j: int| 0 <= i < a.len() && i != m && 0 <= j < ht(a, i) implies #[trigger] fwd(b, i, j)
                == if j < ht(a, m as int) && i == u@[j] { fwd(a, m as int, j) } else { fwd(a, i, j) } by {
                assert(b[i] == mid[i]);
                assert(mid[i].spec_data() == a[i].spec_data());
                assert(fwd(mid, i, j) == if j < l && i == u@[j] { fwd(a, m as int, j) } else { fwd(a, i, j) });
            }
            lemma_delete_shape(a, b, m as int, u@, key);
            assert(removed.spec_data() == a[m as int].spec_data());
            let t = a[m as int].spec_data()->Value_0;
            assert(m0.contains_key(t.spec_key()) && m0[t.spec_key()] == t);
            assert(t.spec_key() == key);
        }
        self.free_list.push(m);
        self.length = self.length - 1;
        self.model = Ghost(self.model@.remove(key));
        proof {
            let b = self.nodes@;
            assert forall|i: int| 0 <= i < b.len() && #[trigger] b[i].spec_data() is Value implies {
                let t = b[i].spec_data()->Value_0;
                self.model@.contains_key(t.spec_key()) && self.model@[t.spec_key()] == t
            } by {
                assert(i != m);
                assert(b[i].spec_data() == a[i].spec_data());
                assert(rk(a, i) != rk(a, m as int));
            }
            assert forall|kk: u64| #[trigger] self.model@.contains_key(kk) implies exists|i: int|
                0 <= i < b.len() && #[trigger] b[i].spec_data() == Bound::Value(self.model@[kk]) && self.model@[kk].spec_key() == kk by {
                assert(m0.contains_key(kk));
                let i = choose|i: int| 0 <= i < a.len() && #[trigger] a[i].spec_data() == Bound::Value(m0[kk])
                    && m0[kk].spec_key() == kk;
                assert(i != m);
                assert(b[i].spec_data() == a[i].spec_data());
            }
            let f = self.free_list@;
            assert forall|i: int| 0 <= i < f.len() implies #[trigger] f[i] < b.len()
                && b[f[i] as int].spec_data() is Null by {
                if i < f0.len() {
                    assert(f[i] == f0[i]);
                    assert(a[f0[i] as int].spec_data() is Null);
                    assert(b[f0[i] as int].spec_data() == a[f0[i] as int].spec_data());
                }
            }
            assert forall|i: int, j: int| 0 <= i < j < f.len() implies #[trigger] f[i] != #[trigger] f[j] by {
                assert(f[i] == f0[i]);
                if j < f0.len() {
                    assert(f[j] == f0[j]);
                } else {
                    assert(a[f0[i] as int].spec_data() is Null);
                }
            }
        }
        proof {
            let b = self.nodes@;
            assert forall|q: int, lv: int| live(b, q) && 0 <= lv < ht(b, q)
                implies #[trigger] fwd(b, q, lv) != Some(m) by {
                assert(link_ok(b, q, lv));
            }
        }
        match removed.data {
            Bound::Value(t) => Some(t),
            _ => vstd::pervasive::unreached(),
        }
    }

    /// The number of entries.
    pub fn length(&self) -> (r: usize)
        requires
            self.wf(),
        ensures
            r == self@.len(),
    {
        self.length
    }

    /// For each level, the last slot before `key` met by a top-down walk from the head.
    fn find_preds(&self, key: u64) -> (u: Vec<usize>)
        requires
            self.shape_ok(),
        ensures
            u@.len() == MAX_LEVEL,
            forall|l: int| 0 <= l < MAX_LEVEL ==> #[trigger] pred_ok(self.nodes@, u@[l] as int, l, key),
    {
        let ghost a = self.nodes@;
        let mut u: Vec<usize> = Vec::new();
        let mut j: usize = 0;
        while j < MAX_LEVEL
            invariant
                j <= MAX_LEVEL,
                u@.len() == j,
            decreases MAX_LEVEL - j,
        {
            u.push(0);
            j = j + 1;
        }
        let mut lvl: usize = MAX_LEVEL;
        let mut curr: usize = self.head;
        while lvl > 0
            invariant
                self.shape_ok(),
                a == self.nodes@,
                lvl <= MAX_LEVEL,
                u@.len() == MAX_LEVEL,
                live(a, curr as int),
                ht(a, curr as int) >= lvl,
                rk(a, curr as int) < key,
                forall|l: int| lvl <= l < MAX_LEVEL ==> #[trigger] pred_ok(a, u@[l] as int, l, key),
            decreases lvl, key - rk(a, curr as int),
        {
            let l = lvl - 1;
            proof {
                assert(link_ok(a, curr as int, l as int));
            }
            match self.nodes[curr].forwards[l] {
                Some(nx) => {
                    match self.nodes[nx].data.cmp_key(key) {
                        Ordering::Less => {
                            curr = nx;
                        },
                        _ => {
                            u.set(l, curr);
                            lvl = l;
                        },
                    }
                },
                None => {
                    u.set(l, curr);
                    lvl = l;
                },
            }
        }
        u
    }

    /// The entry stored under `key`, if there is one.
    pub fn search(&self, key: u64) -> (r: Option<&T>)
        requires
            self.wf(),
        ensures
            r.is_some() == self@.contains_key(key),
            r.is_some() ==> *r.unwrap() == self@[key],
            r.is_some() ==> r.unwrap().spec_key() == key,
    {
        match self.search_node(key) {
            Some(node) => Some(node.get_data()),
            None => None,
        }
    }

    /// The node that stores `key`, if there is one.
    pub fn search_debug(&self, key: u64) -> (r: Option<&SkipListNode<T>>)
        requires
            self.wf(),
        ensures
            r.is_some() == self@.contains_key(key),
            r.is_some() ==> r.unwrap().spec_data() == Bound::Value(self@[key]),
            r.is_some() ==> self@[key].spec_key() == key,
            r.is_some() ==> exists|i: int| 2 <= i < self.spec_nodes().len() && #[trigger] self.spec_nodes()[i] == *r.unwrap(),
    {
        self.search_node(key)
    }

    fn search_node(&self, key: u64) -> (r: Option<&SkipListNode<T>>)
        requires
            self.shape_ok(),
        ensures
            r.is_some() == self@.contains_key(key),
            r.is_some() ==> r.unwrap().spec_data() == Bound::Value(self@[key]),
            r.is_some() ==> self@[key].spec_key() == key,
            r.is_some() ==> exists|i: int| 2 <= i < self.spec_nodes().len() && #[trigger] self.spec_nodes()[i] == *r.unwrap(),
    {
        let ghost a = self.nodes@;
        let u = self.find_preds(key);
        let p = u[0];
        proof {
            assert(pred_ok(a, p as int, 0, key));
        }
        match self.nodes[p].forwards[0] {
            Some(t) => {
                match self.nodes[t].data.cmp_key(key) {
                    Ordering::Equal => {
                        proof {
                            let v = a[t as int].spec_data()->Value_0;
                            assert(a[t as int].spec_data() is Value);
                            assert(self.model@.contains_key(v.spec_key()));
                            assert(self.nodes@[t as int] == a[t as int]);
                            assert(a[0].spec_data() is NegInf && a[1].spec_data() is PosInf);
                            assert(2 <= t);
                        }
                        let node = &self.nodes[t];
                        proof {
                            assert(self.spec_nodes()[t as int] == *node);
                        }
                        Some(node)
                    },
                    _ => {
                        proof {
                            self.lemma_absent(p as int, key);
                        }
                        None
                    },
                }
            },
            None => None,
        }
    }

    /// Where the walk for `key` leaves level 0 at a slot ranked above `key`, `key` is not stored.
    proof fn lemma_absent(&self, p: int, key: u64)
        requires
            self.shape_ok(),
            pred_ok(self.nodes@, p, 0, key),
            rk(self.nodes@, tgt(self.nodes@, p, 0)) != key,
        ensures
            !self@.contains_key(key),
    {
        let a = self.nodes@;
        if self.model@.contains_key(key) {
            let z = choose|z: int| 0 <= z < a.len() && #[trigger] a[z].spec_data() == Bound::Value(self.model@[key])
                && self.model@[key].spec_key() == key;
            assert(a[z].spec_data() is Value);
            assert(no_skip(a, p, 0, z));
        }
    }
    /// What a consistent list holds: the head in slot 0 and the tail in slot 1, every link of
    /// the head or of an entry inside the arena and ordered, the free slots distinct, past the
    /// sentinels and holding `Null`, the entries of the arena exactly those of the map, each
    /// under its own key, and every slot either a sentinel, an entry, or free.
    pub proof fn lemma_wf_shape(&self)
        requires
            self.wf(),
        ensures
            arena_ok(self.spec_nodes()),
            forall|i: int| 0 <= i < self.spec_free_list().len() ==> {
                let f = #[trigger] self.spec_free_list()[i];
                &&& 2 <= f < self.spec_nodes().len()
                &&& self.spec_nodes()[f as int].spec_data() is Null
            },
            forall|i: int, j: int| 0 <= i < j < self.spec_free_list().len()
                ==> #[trigger] self.spec_free_list()[i] != #[trigger] self.spec_free_list()[j],
            forall|i: int| 0 <= i < self.spec_nodes().len() && #[trigger] self.spec_nodes()[i].spec_data() is Value ==> {
                let t = self.spec_nodes()[i].spec_data()->Value_0;
                self@.contains_key(t.spec_key()) && self@[t.spec_key()] == t
            },
            forall|k: u64| #[trigger] self@.contains_key(k) ==> self@[k].spec_key() == k && exists|i: int|
                0 <= i < self.spec_nodes().len() && #[trigger] self.spec_nodes()[i].spec_data() == Bound::Value(self@[k]),
            self@.dom().finite(),
            self@.len() + self.spec_free_list().len() + 2 == self.spec_nodes().len(),
    {
        let a = self.nodes@;
        assert forall|i: int| 0 <= i < self.free_list@.len() implies {
            let f = #[trigger] self.free_list@[i];
            &&& 2 <= f < a.len()
            &&& a[f as int].spec_data() is Null
        } by {
            assert(self.free_list@[i] < a.len() && a[self.free_list@[i] as int].spec_data() is Null);
        }
        assert forall|k: u64| #[trigger] self.model@.contains_key(k) implies self.model@[k].spec_key() == k && exists|i: int|
            0 <= i < a.len() && #[trigger] a[i].spec_data() == Bound::Value(self.model@[k]) by {
            let i = choose|i: int| 0 <= i < a.len() && #[trigger] a[i].spec_data() == Bound::Value(self.model@[k])
                && self.model@[k].spec_key() == k;
        }
    }

    /// The arena of nodes.
    pub fn get_nodes_list(&self) -> (r: &Vec<SkipListNode<T>>)
        ensures
            r@ == self.spec_nodes(),
    {
        &self.nodes
    }

    /// The slots waiting to be reused.
    pub fn get_free_list(&self) -> (r: &Vec<usize>)
        ensures
            r@ == self.spec_free_list(),
    {
        &self.free_list
    }

    /// Walking level 0 from the head meets the stored keys in strictly increasing order:
    /// every level-0 link of the head or of an entry leads to a slot of higher key, and
    /// passes over no entry.
    pub proof fn lemma_level0_ordered(&self)
        requires
            self.wf(),
        ensures
            forall|i: int| #[trigger] live(self.spec_nodes(), i) ==> {
                let a = self.spec_nodes();
                let j = tgt(a, i, 0);
                &&& 0 <= j < a.len()
                &&& (a[j].spec_data() is Value || a[j].spec_data() is PosInf)
                &&& rk(a, j) > rk(a, i)
                &&& forall|z: int| 0 <= z < a.len() && #[trigger] a[z].spec_data() is Value
                    ==> !(rk(a, i) < rk(a, z) && rk(a, z) < rk(a, j))
            },
    {
        let a = self.nodes@;
        assert forall|i: int| #[trigger] live(a, i) implies {
            let j = tgt(a, i, 0);
            &&& 0 <= j < a.len()
            &&& (a[j].spec_data() is Value || a[j].spec_data() is PosInf)
            &&& rk(a, j) > rk(a, i)
            &&& forall|z: int| 0 <= z < a.len() && #[trigger] a[z].spec_data() is Value
                ==> !(rk(a, i) < rk(a, z) && rk(a, z) < rk(a, j))
        } by {
            if a[i].spec_data() is Value {
                assert(1 <= ht(a, i));
            }
            assert(link_ok(a, i, 0));
            assert forall|z: int| 0 <= z < a.len() && #[trigger] a[z].spec_data() is Value
                implies !(rk(a, i) < rk(a, z) && rk(a, z) < rk(a, tgt(a, i, 0))) by {
                assert(no_skip(a, i, 0, z));
                assert(1 <= ht(a, z));
            }
        }
    }
}

/// After `data` is stored under its absent key, a search for that key finds `data`.
pub proof fn law_search_finds_inserted<T: KeyVal>(before: Map<u64, T>, data: T)
    requires
        !before.contains_key(data.spec_key()),
    ensures
        before.insert(data.spec_key(), data).contains_key(data.spec_key()),
        before.insert(data.spec_key(), data)[data.spec_key()] == data,
{
}

/// Storing or removing another key leaves what a search for `k` finds unchanged.
pub proof fn law_other_keys_untouched<T: KeyVal>(m: Map<u64, T>, k: u64, other: T, j: u64)
    requires
        other.spec_key() != k,
        j != k,
    ensures
        m.insert(other.spec_key(), other).contains_key(k) == m.contains_key(k),
        m.insert(other.spec_key(), other)[k] == m[k],
        m.remove(j).contains_key(k) == m.contains_key(k),
        m.remove(j)[k] == m[k],
{
}

/// After the entry under `k` is removed, a search for `k` finds nothing.
pub proof fn law_search_misses_deleted<T: KeyVal>(m: Map<u64, T>, k: u64)
    ensures
        !m.remove(k).contains_key(k),
{
}

/// The count goes up by one for each insertion of a new key and down by one for each
/// removal of a stored key.
pub proof fn law_count_tracks_changes<T: KeyVal>(m: Map<u64, T>, data: T, k: u64)
    requires
        m.dom().finite(),
    ensures
        !m.contains_key(data.spec_key()) ==> m.insert(data.spec_key(), data).len() == m.len() + 1,
        m.contains_key(k) ==> m.remove(k).len() + 1 == m.len(),
{
}

} // verus!
