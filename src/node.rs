use vstd::prelude::*;
use std::cmp::Ordering;

verus! {

/// An entry that carries an integer key.
pub trait KeyVal: Sized {
    spec fn spec_key(&self) -> u64;

    fn key(&self) -> (r: u64)
        ensures
            r == self.spec_key(),
    ;
}

impl KeyVal for u64 {
    open spec fn spec_key(&self) -> u64 {
        *self
    }

    fn key(&self) -> (r: u64) {
        *self
    }
}

/// A key with a payload attached to it.
#[derive(Debug, Clone)]
pub struct KeyValuePair<V>(pub u64, pub V);

impl<V> KeyVal for KeyValuePair<V> {
    open spec fn spec_key(&self) -> u64 {
        self.0
    }

    fn key(&self) -> (r: u64) {
        self.0
    }
}

impl<V> KeyValuePair<V> {
    /// The payload.
    pub fn value(&self) -> (r: &V)
        ensures
            *r == self.1,
    {
        &self.1
    }
}

/// The payload of an arena slot: a sentinel, a stored entry, or nothing.
#[derive(Debug, Clone)]
pub enum Bound<T> {
    NegInf,
    Value(T),
    PosInf,
    Null,
}

/// Position of a payload in the total order of the list; `Null` sits below all.
pub open spec fn rank<T: KeyVal>(b: Bound<T>) -> int {
    match b {
        Bound::NegInf => -1,
        Bound::Value(t) => t.spec_key() as int,
        Bound::PosInf => u64::MAX as int + 1,
        Bound::Null => -2,
    }
}

/// How `a` compares with `b`.
pub open spec fn order_of(a: int, b: int) -> Ordering {
    if a < b {
        Ordering::Less
    } else if a == b {
        Ordering::Equal
    } else {
        Ordering::Greater
    }
}

impl<T: KeyVal> Bound<T> {
    /// The stored entry; only a `Value` has one.
    pub fn value(&self) -> (r: &T)
        requires
            self is Value,
        ensures
            *r == self->Value_0,
    {
        match self {
            Bound::Value(t) => t,
            _ => vstd::pervasive::unreached(),
        }
    }

    /// How this payload compares with `key`: the negative sentinel lies below every key,
    /// the positive one above. An unused slot is never compared.
    pub fn cmp_key(&self, key: u64) -> (r: Ordering)
        requires
            !(self is Null),
        ensures
            r == order_of(rank(*self), key as int),
    {
        match self {
            Bound::NegInf => Ordering::Less,
            Bound::PosInf => Ordering::Greater,
            Bound::Value(t) => {
                let k = t.key();
                if k < key {
                    Ordering::Less
                } else if k == key {
                    Ordering::Equal
                } else {
                    Ordering::Greater
                }
            },
            Bound::Null => vstd::pervasive::unreached(),
        }
    }
}

/// One arena slot: a payload and, for each level it takes part in, the slot that follows it.
#[derive(Debug, Clone)]
pub struct SkipListNode<T> {
    pub(crate) data: Bound<T>,
    pub(crate) forwards: Vec<Option<usize>>,
}

impl<T: KeyVal> SkipListNode<T> {
    pub open(crate) spec fn spec_data(&self) -> Bound<T> {
        self.data
    }

    pub open(crate) spec fn spec_forwards(&self) -> Seq<Option<usize>> {
        self.forwards@
    }

    /// `n` links that lead nowhere.
    fn empty_forwards(n: usize) -> (r: Vec<Option<usize>>)
        ensures
            r@ == Seq::new(n as nat, |i: int| None::<usize>),
    {
        let mut v: Vec<Option<usize>> = Vec::new();
        let mut i: usize = 0;
        while i < n
            invariant
                i <= n,
                v@ == Seq::new(i as nat, |j: int| None::<usize>),
            decreases n - i,
        {
            v.push(None);
            i = i + 1;
        }
        v
    }

    /// A node holding `data` on levels `0..=level`, linked nowhere yet.
    pub fn new(data: T, level: usize) -> (r: Self)
        requires
            level < usize::MAX,
        ensures
            r.spec_data() == Bound::Value(data),
            r.spec_forwards() == Seq::new(level as nat + 1, |i: int| None::<usize>),
    {
        SkipListNode { data: Bound::Value(data), forwards: Self::empty_forwards(level + 1) }
    }

    /// An unused slot.
    pub fn default() -> (r: Self)
        ensures
            r.spec_data() is Null,
            r.spec_forwards().len() == 0,
    {
        SkipListNode { data: Bound::Null, forwards: Vec::new() }
    }

    /// A boundary node holding `bound` on levels `0..=level`, linked nowhere yet.
    pub fn new_sentinel(bound: Bound<T>, level: usize) -> (r: Self)
        requires
            level < usize::MAX,
        ensures
            r.spec_data() == bound,
            r.spec_forwards() == Seq::new(level as nat + 1, |i: int| None::<usize>),
    {
        SkipListNode { data: bound, forwards: Self::empty_forwards(level + 1) }
    }

    /// The entry held; only a node holding a `Value` has one.
    pub fn get_data(&self) -> (r: &T)
        requires
            self.spec_data() is Value,
        ensures
            *r == self.spec_data()->Value_0,
    {
        self.data.value()
    }

    /// The number of levels the node takes part in.
    pub fn get_level_len(&self) -> (r: usize)
        ensures
            r == self.spec_forwards().len(),
    {
        self.forwards.len()
    }

    /// The slot that follows this node on each of its levels.
    pub fn get_forwards(&self) -> (r: &Vec<Option<usize>>)
        ensures
            r@ == self.spec_forwards(),
    {
        &self.forwards
    }

    /// The links of the node, to be rewritten in place.
    pub fn get_mut_forwards(&mut self) -> (r: &mut Vec<Option<usize>>)
        ensures
            r@ == old(self).spec_forwards(),
            final(self).spec_forwards() == final(r)@,
            final(self).spec_data() == old(self).spec_data(),
    {
        &mut self.forwards
    }
}

} // verus!
