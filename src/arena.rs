use vstd::prelude::*;
use crate::node::{rank, Bound, KeyVal, SkipListNode};
use crate::promotion::MAX_LEVEL;

verus! {

pub open spec fn ht<T: KeyVal>(a: Seq<SkipListNode<T>>, i: int) -> int {
    a[i].spec_forwards().len() as int
}

pub open spec fn rk<T: KeyVal>(a: Seq<SkipListNode<T>>, i: int) -> int {
    rank(a[i].spec_data())
}

pub open spec fn fwd<T: KeyVal>(a: Seq<SkipListNode<T>>, i: int, l: int) -> Option<usize> {
    a[i].spec_forwards()[l]
}

/// The slot that slot `i` links to at level `l` (`-1` when there is none).
pub open spec fn tgt<T: KeyVal>(a: Seq<SkipListNode<T>>, i: int, l: int) -> int {
    match fwd(a, i, l) {
        Some(j) => j as int,
        None => -1,
    }
}

/// Slot `i` is the head or holds an entry.
pub open spec fn live<T: KeyVal>(a: Seq<SkipListNode<T>>, i: int) -> bool {
    0 <= i < a.len() && (a[i].spec_data() is NegInf || a[i].spec_data() is Value)
}

/// The link of slot `i` at level `l` leads forward to a slot that takes part in level `l`.
pub open spec fn link_ok<T: KeyVal>(a: Seq<SkipListNode<T>>, i: int, l: int) -> bool {
    let j = tgt(a, i, l);
    &&& fwd(a, i, l) is Some
    &&& 0 <= j < a.len()
    &&& (a[j].spec_data() is Value || a[j].spec_data() is PosInf)
    &&& ht(a, j) > l
    &&& rk(a, j) > rk(a, i)
}

/// The link of slot `i` at level `l` passes over no entry `z` that takes part in level `l`.
pub open spec fn no_skip<T: KeyVal>(a: Seq<SkipListNode<T>>, i: int, l: int, z: int) -> bool {
    !(a[z].spec_data() is Value && ht(a, z) > l && rk(a, i) < rk(a, z) && rk(a, z) < rk(a, tgt(a, i, l)))
}

/// The shape of the arena: sentinels in slots 0 and 1, ordered links that skip nothing.
pub open spec fn arena_ok<T: KeyVal>(a: Seq<SkipListNode<T>>) -> bool {
    &&& a.len() >= 2
    &&& a[0].spec_data() is NegInf
    &&& a[1].spec_data() is PosInf
    &&& ht(a, 0) == MAX_LEVEL
    &&& ht(a, 1) == MAX_LEVEL
    &&& forall|i: int| 2 <= i < a.len() ==> #[trigger] a[i].spec_data() is Value || a[i].spec_data() is Null
    &&& forall|i: int| 0 <= i < a.len() && #[trigger] a[i].spec_data() is Value ==> 1 <= ht(a, i) <= MAX_LEVEL
    &&& forall|i: int, j: int| 0 <= i < a.len() && 0 <= j < a.len() && i != j
        && a[i].spec_data() is Value && a[j].spec_data() is Value ==> #[trigger] rk(a, i) != #[trigger] rk(a, j)
    &&& forall|i: int, l: int| live(a, i) && 0 <= l < ht(a, i) ==> #[trigger] link_ok(a, i, l)
    &&& forall|i: int, l: int, z: int| live(a, i) && 0 <= l < ht(a, i) && 0 <= z < a.len()
        ==> #[trigger] no_skip(a, i, l, z)
}

/// Slot `u` is where a search for `key` leaves level `l`: the last slot there below `key`.
pub open spec fn pred_ok<T: KeyVal>(a: Seq<SkipListNode<T>>, u: int, l: int, key: u64) -> bool {
    &&& live(a, u)
    &&& ht(a, u) > l
    &&& rk(a, u) < key
    &&& link_ok(a, u, l)
    &&& rk(a, tgt(a, u, l)) >= key
}


/// Writing a fresh entry `x` of key `k` on levels `0..=lvl` after the slots `u` that a walk
/// for `k` left each level from keeps the arena consistent.
pub proof fn lemma_insert_shape<T: KeyVal>(
    a: Seq<SkipListNode<T>>,
    b: Seq<SkipListNode<T>>,
    x: int,
    lvl: int,
    u: Seq<usize>,
    k: u64,
)
    requires
        arena_ok(a),
        0 <= x < a.len(),
        x <= usize::MAX,
        a[x].spec_data() is Null,
        0 <= lvl < MAX_LEVEL,
        u.len() == MAX_LEVEL,
        forall|l: int| 0 <= l < MAX_LEVEL ==> #[trigger] pred_ok(a, u[l] as int, l, k),
        forall|i: int| 0 <= i < a.len() && a[i].spec_data() is Value ==> #[trigger] rk(a, i) != k,
        b.len() == a.len(),
        b[x].spec_data() is Value,
        b[x].spec_data()->Value_0.spec_key() == k,
        ht(b, x) == lvl + 1,
        forall|l: int| 0 <= l <= lvl ==> #[trigger] fwd(b, x, l) == fwd(a, u[l] as int, l),
        forall|i: int| 0 <= i < a.len() && i != x ==> #[trigger] b[i].spec_data() == a[i].spec_data()
            && ht(b, i) == ht(a, i),
        forall|i: int, l: int| 0 <= i < a.len() && i != x && 0 <= l < ht(a, i) ==> #[trigger] fwd(b, i, l)
            == if l <= lvl && i == u[l] { Some(x as usize) } else { fwd(a, i, l) },
    ensures
        arena_ok(b),
{
    assert forall|i: int| 2 <= i < b.len() implies #[trigger] b[i].spec_data() is Value || b[i].spec_data() is Null by {
        if i != x {
            assert(b[i].spec_data() == a[i].spec_data());
        }
    }
    assert forall|i: int| 0 <= i < b.len() && #[trigger] b[i].spec_data() is Value implies 1 <= ht(b, i) <= MAX_LEVEL by {
        if i != x {
            assert(b[i].spec_data() == a[i].spec_data());
        }
    }
    assert forall|i: int, j: int| 0 <= i < b.len() && 0 <= j < b.len() && i != j
        && b[i].spec_data() is Value && b[j].spec_data() is Value implies #[trigger] rk(b, i) != #[trigger] rk(b, j) by {
        if i != x {
            assert(b[i].spec_data() == a[i].spec_data());
        }
        if j != x {
            assert(b[j].spec_data() == a[j].spec_data());
        }
        if i == x {
            assert(rk(a, j) != k);
        }
        if j == x {
            assert(rk(a, i) != k);
        }
        if i != x && j != x {
            assert(rk(a, i) != rk(a, j));
        }
    }
    assert forall|i: int, l: int| live(b, i) && 0 <= l < ht(b, i) implies #[trigger] link_ok(b, i, l) by {
        if i == x {
            let ul = u[l] as int;
            assert(pred_ok(a, ul, l, k));
            let t = tgt(a, ul, l);
            assert(t != x);
            assert(b[t].spec_data() == a[t].spec_data());
            if a[t].spec_data() is Value {
                assert(rk(a, t) != k);
            }
        } else {
            assert(b[i].spec_data() == a[i].spec_data());
            assert(live(a, i));
            assert(link_ok(a, i, l));
            if l <= lvl && i == u[l] {
                assert(pred_ok(a, u[l] as int, l, k));
            } else {
                let t = tgt(a, i, l);
                assert(t != x);
                assert(b[t].spec_data() == a[t].spec_data());
            }
        }
    }
    assert forall|i: int, l: int, z: int| live(b, i) && 0 <= l < ht(b, i) && 0 <= z < b.len()
        implies #[trigger] no_skip(b, i, l, z) by {
        if i == x {
            let ul = u[l] as int;
            assert(pred_ok(a, ul, l, k));
            let t = tgt(a, ul, l);
            assert(b[t].spec_data() == a[t].spec_data());
            if z != x {
                assert(b[z].spec_data() == a[z].spec_data());
                assert(no_skip(a, ul, l, z));
            }
        } else {
            assert(b[i].spec_data() == a[i].spec_data());
            assert(live(a, i));
            assert(link_ok(a, i, l));
            if l <= lvl && i == u[l] {
                assert(pred_ok(a, u[l] as int, l, k));
                if z != x {
                    assert(b[z].spec_data() == a[z].spec_data());
                    assert(no_skip(a, i, l, z));
                }
            } else {
                let t = tgt(a, i, l);
                assert(b[t].spec_data() == a[t].spec_data());
                if z != x {
                    assert(b[z].spec_data() == a[z].spec_data());
                    assert(no_skip(a, i, l, z));
                } else if l <= lvl {
                    let ul = u[l] as int;
                    assert(pred_ok(a, ul, l, k));
                    let tu = tgt(a, ul, l);
                    if rk(a, i) < k && k < rk(a, t) {
                        if rk(a, i) < rk(a, ul) {
                            assert(no_skip(a, i, l, ul));
                        } else if rk(a, ul) < rk(a, i) {
                            assert(no_skip(a, ul, l, i));
                        } else {
                            assert(rk(a, ul) != rk(a, i));
                        }
                    }
                }
            }
        }
    }
}



/// Unlinking entry `m` of key `k` from every level it takes part in, after the slots `u`
/// that a walk for `k` left each level from, and clearing its slot keeps the arena consistent.
pub proof fn lemma_delete_shape<T: KeyVal>(
    a: Seq<SkipListNode<T>>,
    b: Seq<SkipListNode<T>>,
    m: int,
    u: Seq<usize>,
    k: u64,
)
    requires
        arena_ok(a),
        0 <= m < a.len(),
        a[m].spec_data() is Value,
        rk(a, m) == k,
        u.len() == MAX_LEVEL,
        forall|l: int| 0 <= l < MAX_LEVEL ==> #[trigger] pred_ok(a, u[l] as int, l, k),
        b.len() == a.len(),
        b[m].spec_data() is Null,
        forall|i: int| 0 <= i < a.len() && i != m ==> #[trigger] b[i].spec_data() == a[i].spec_data()
            && ht(b, i) == ht(a, i),
        forall|i: int, l: int| 0 <= i < a.len() && i != m && 0 <= l < ht(a, i) ==> #[trigger] fwd(b, i, l)
            == if l < ht(a, m) && i == u[l] { fwd(a, m, l) } else { fwd(a, i, l) },
    ensures
        arena_ok(b),
{
    assert forall|l: int| 0 <= l < ht(a, m) implies #[trigger] tgt(a, u[l] as int, l) == m by {
        let ul = u[l] as int;
        assert(pred_ok(a, ul, l, k));
        let t = tgt(a, ul, l);
        assert(no_skip(a, ul, l, m));
        if t != m {
            assert(rk(a, t) != rk(a, m));
        }
    }
    assert forall|i: int, l: int| live(a, i) && i != m && 0 <= l < ht(a, i) && !(l < ht(a, m) && i == u[l])
        implies #[trigger] tgt(a, i, l) != m by {
        assert(link_ok(a, i, l));
        if tgt(a, i, l) == m {
            let ul = u[l] as int;
            assert(pred_ok(a, ul, l, k));
            assert(tgt(a, ul, l) == m);
            if rk(a, i) < rk(a, ul) {
                assert(no_skip(a, i, l, ul));
            } else if rk(a, ul) < rk(a, i) {
                assert(no_skip(a, ul, l, i));
            } else if a[i].spec_data() is Value && a[ul].spec_data() is Value {
                assert(rk(a, i) != rk(a, ul));
            }
        }
    }
    assert forall|i: int| 2 <= i < b.len() implies #[trigger] b[i].spec_data() is Value || b[i].spec_data() is Null by {
        if i != m {
            assert(b[i].spec_data() == a[i].spec_data());
        }
    }
    assert forall|i: int| 0 <= i < b.len() && #[trigger] b[i].spec_data() is Value implies 1 <= ht(b, i) <= MAX_LEVEL by {
        assert(b[i].spec_data() == a[i].spec_data());
    }
    assert forall|i: int, j: int| 0 <= i < b.len() && 0 <= j < b.len() && i != j
        && b[i].spec_data() is Value && b[j].spec_data() is Value implies #[trigger] rk(b, i) != #[trigger] rk(b, j) by {
        assert(b[i].spec_data() == a[i].spec_data());
        assert(b[j].spec_data() == a[j].spec_data());
        assert(rk(a, i) != rk(a, j));
    }
    assert forall|i: int, l: int| live(b, i) && 0 <= l < ht(b, i) implies #[trigger] link_ok(b, i, l) by {
        assert(i != m);
        assert(b[i].spec_data() == a[i].spec_data());
        assert(live(a, i));
        assert(link_ok(a, i, l));
        if l < ht(a, m) && i == u[l] {
            assert(link_ok(a, m, l));
            let s = tgt(a, m, l);
            assert(b[s].spec_data() == a[s].spec_data());
            assert(pred_ok(a, u[l] as int, l, k));
        } else {
            let t = tgt(a, i, l);
            assert(t != m);
            assert(b[t].spec_data() == a[t].spec_data());
        }
    }
    assert forall|i: int, l: int, z: int| live(b, i) && 0 <= l < ht(b, i) && 0 <= z < b.len()
        implies #[trigger] no_skip(b, i, l, z) by {
        assert(i != m);
        assert(b[i].spec_data() == a[i].spec_data());
        assert(live(a, i));
        assert(link_ok(a, i, l));
        if z != m {
            assert(b[z].spec_data() == a[z].spec_data());
            if l < ht(a, m) && i == u[l] {
                assert(link_ok(a, m, l));
                let s = tgt(a, m, l);
                assert(b[s].spec_data() == a[s].spec_data());
                assert(pred_ok(a, u[l] as int, l, k));
                assert(no_skip(a, i, l, z));
                assert(no_skip(a, m, l, z));
                if a[z].spec_data() is Value {
                    assert(rk(a, z) != rk(a, m));
                }
            } else {
                let t = tgt(a, i, l);
                assert(t != m);
                assert(b[t].spec_data() == a[t].spec_data());
                assert(no_skip(a, i, l, z));
            }
        }
    }
}

} // verus!
