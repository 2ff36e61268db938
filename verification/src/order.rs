//! Ascending sequences of numbers, grown one number at a time.

use vstd::prelude::*;

verus! {

/// Whether each number is greater than the one before it.
pub open spec fn ascending(keys: Seq<u64>) -> bool {
    forall|i: int, j: int| 0 <= i < j < keys.len() ==> keys[i] < keys[j]
}

/// Where `x` belongs in `keys`: behind the last smaller number.
pub open spec fn spot(keys: Seq<u64>, x: u64) -> int
    decreases keys.len(),
{
    if keys.len() == 0 || keys.last() < x {
        keys.len() as int
    } else {
        spot(keys.drop_last(), x)
    }
}

/// In an ascending sequence, what stands before the spot of `x` is smaller, and the rest is not.
pub proof fn spot_splits(keys: Seq<u64>, x: u64)
    requires
        ascending(keys),
    ensures
        0 <= spot(keys, x) <= keys.len(),
        forall|i: int| 0 <= i < spot(keys, x) ==> #[trigger] keys[i] < x,
        forall|i: int| spot(keys, x) <= i < keys.len() ==> #[trigger] keys[i] >= x,
    decreases keys.len(),
{
    if keys.len() > 0 {
        if keys.last() < x {
            assert forall|i: int| 0 <= i < keys.len() implies #[trigger] keys[i] < x by {
                if i < keys.len() - 1 {
                    assert(keys[i] < keys[keys.len() - 1]);
                }
            }
        } else {
            spot_splits(keys.drop_last(), x);
            let p = spot(keys, x);
            assert forall|i: int| 0 <= i < p implies #[trigger] keys[i] < x by {
                assert(keys[i] == keys.drop_last()[i]);
            }
            assert forall|i: int| p <= i < keys.len() implies #[trigger] keys[i] >= x by {
                if i < keys.len() - 1 {
                    assert(keys[i] == keys.drop_last()[i]);
                }
            }
        }
    }
}

/// `keys` with `x` in its place, unless it is there.
pub open spec fn with_key(keys: Seq<u64>, x: u64) -> Seq<u64> {
    let p = spot(keys, x);
    if p < keys.len() && keys[p] == x {
        keys
    } else {
        keys.insert(p, x)
    }
}

/// Adding a number to an ascending sequence keeps it ascending, and adds that number only.
pub proof fn with_key_stays_ascending(keys: Seq<u64>, x: u64)
    requires
        ascending(keys),
    ensures
        ascending(with_key(keys, x)),
        with_key(keys, x).to_set() == keys.to_set().insert(x),
{
    spot_splits(keys, x);
    let p = spot(keys, x);
    let out = with_key(keys, x);
    if p < keys.len() && keys[p] == x {
        assert(keys.to_set().contains(x));
        assert(out.to_set() =~= keys.to_set().insert(x));
    } else {
        assert forall|i: int, j: int| 0 <= i < j < out.len() implies out[i] < out[j] by {
            let a = if i < p {
                i
            } else {
                i - 1
            };
            let b = if j < p {
                j
            } else {
                j - 1
            };
            if i != p && j != p {
                assert(keys[a] < keys[b]);
            } else if j == p {
                assert(keys[i] < x);
            } else {
                assert(keys[j - 1] >= x);
            }
        }
        assert forall|y: u64| out.to_set().contains(y) <==> #[trigger] keys.to_set().insert(x).contains(y) by {
            if out.contains(y) {
                let i = choose|i: int| 0 <= i < out.len() && out[i] == y;
                if i < p {
                    assert(keys[i] == y);
                } else if i > p {
                    assert(keys[i - 1] == y);
                }
            }
            if keys.contains(y) {
                let i = choose|i: int| 0 <= i < keys.len() && keys[i] == y;
                if i < p {
                    assert(out[i] == y);
                } else {
                    assert(out[i + 1] == y);
                }
            }
            if y == x {
                assert(out[p] == y);
            }
        }
        assert(out.to_set() =~= keys.to_set().insert(x));
    }
}

/// Put `x` in its place among `keys`, unless it is there.
pub fn add_key(keys: &mut Vec<u64>, x: u64)
    ensures
        final(keys)@ == with_key(old(keys)@, x),
{
    let mut p = keys.len();
    assert(keys@.take(p as int) =~= keys@);
    while p > 0 && keys[p - 1] >= x
        invariant
            p <= keys@.len(),
            keys@ == old(keys)@,
            spot(keys@.take(p as int), x) == spot(keys@, x),
        decreases p,
    {
        assert(keys@.take(p as int).drop_last() =~= keys@.take(p - 1));
        p -= 1;
    }
    assert(p == spot(keys@, x));
    if p < keys.len() && keys[p] == x {
        return ;
    }
    keys.insert(p, x);
}

/// Two ascending lists of the same numbers are the same list.
pub proof fn ascending_lists_are_the_same(a: Seq<u64>, b: Seq<u64>)
    requires
        ascending(a),
        ascending(b),
        forall|x: u64| a.contains(x) <==> b.contains(x),
    ensures
        a == b,
    decreases a.len(),
{
    if a.len() == 0 {
        if b.len() > 0 {
            assert(b.contains(b[0]));
        }
        assert(a =~= b);
    } else {
        let x = a.last();
        assert(a.contains(a[a.len() - 1]));
        assert(b.len() > 0);
        let y = b.last();
        assert(b.contains(b[b.len() - 1]));
        let i = choose|i: int| 0 <= i < b.len() && b[i] == x;
        let j = choose|j: int| 0 <= j < a.len() && a[j] == y;
        assert(i < b.len() - 1 ==> b[i] < b[b.len() - 1]);
        assert(j < a.len() - 1 ==> a[j] < a[a.len() - 1]);
        assert(x == y);
        let p = a.drop_last();
        let q = b.drop_last();
        assert forall|z: u64| p.contains(z) <==> q.contains(z) by {
            if p.contains(z) {
                let k = choose|k: int| 0 <= k < p.len() && p[k] == z;
                assert(a[k] == z && a[k] < a[a.len() - 1]);
                assert(a.contains(z));
                let m = choose|m: int| 0 <= m < b.len() && b[m] == z;
                assert(q[m] == z);
            }
            if q.contains(z) {
                let k = choose|k: int| 0 <= k < q.len() && q[k] == z;
                assert(b[k] == z && b[k] < b[b.len() - 1]);
                assert(b.contains(z));
                let m = choose|m: int| 0 <= m < a.len() && a[m] == z;
                assert(p[m] == z);
            }
        }
        ascending_lists_are_the_same(p, q);
        assert(a =~= p.push(x));
        assert(b =~= q.push(y));
    }
}

} // verus!
