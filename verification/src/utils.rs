//! Collecting the values of an id map into a duplicate-free set.

use vstd::prelude::*;

verus! {

/// All values of a map's entries, flattened in entry order.
pub open spec fn all_values(m: Seq<(i64, Vec<i64>)>) -> Seq<i64>
    decreases m.len(),
{
    if m.len() == 0 {
        Seq::empty()
    } else {
        all_values(m.drop_last()) + m.last().1@
    }
}

fn vec_contains(v: &Vec<i64>, x: i64) -> (r: bool)
    ensures
        r == v@.contains(x),
{
    let n = v.len();
    let mut i: usize = 0;
    while i < n
        invariant
            0 <= i <= n,
            n == v.len(),
            forall|j: int| 0 <= j < i ==> v@[j] != x,
        decreases n - i,
    {
        if v[i] == x {
            return true;
        }
        i += 1;
    }
    false
}

/// Gathers every id that occurs among the map's value lists, each exactly
/// once. The result is a set: no duplicates, no particular order promised.
pub fn values_to_set(map: &Vec<(i64, Vec<i64>)>) -> (r: Vec<i64>)
    ensures
        r@.no_duplicates(),
        forall|x: i64| #[trigger] r@.contains(x) <==> all_values(map@).contains(x),
{
    let mut r: Vec<i64> = Vec::new();
    let n = map.len();
    let mut i: usize = 0;
    while i < n
        invariant
            0 <= i <= n,
            n == map.len(),
            r@.no_duplicates(),
            forall|x: i64| #[trigger] r@.contains(x) <==> all_values(map@.take(i as int)).contains(
                x,
            ),
        decreases n - i,
    {
        let vals = &map[i].1;
        let m = vals.len();
        let mut j: usize = 0;
        while j < m
            invariant
                0 <= j <= m,
                0 <= i < n,
                n == map.len(),
                m == map@[i as int].1@.len(),
                vals == &map[i as int].1,
                r@.no_duplicates(),
                forall|x: i64| #[trigger] r@.contains(x) <==> all_values(
                    map@.take(i as int),
                ).contains(x) || map@[i as int].1@.take(j as int).contains(x),
            decreases m - j,
        {
            let v = vals[j];
            let ghost r_pre = r@;
            let seen = vec_contains(&r, v);
            if !seen {
                r.push(v);
            }
            proof {
                let cur = map@[i as int].1@;
                let left = all_values(map@.take(i as int));
                // How membership in the current value list grows by one step.
                assert forall|x: i64| #[trigger] cur.take(j + 1).contains(x) implies cur.take(
                    j as int,
                ).contains(x) || x == cur[j as int] by {
                    let k = choose|k: int| 0 <= k < cur.take(j + 1).len() && #[trigger] cur.take(
                        j + 1,
                    )[k] == x;
                    if k < j {
                        assert(cur.take(j as int)[k] == x);
                    }
                }
                assert forall|x: i64|
                    cur.take(j as int).contains(x) || x == cur[j as int] implies #[trigger] cur.take(
                    j + 1,
                ).contains(x) by {
                    if cur.take(j as int).contains(x) {
                        let k = choose|k: int| 0 <= k < j && #[trigger] cur.take(j as int)[k] == x;
                        assert(cur.take(j + 1)[k] == x);
                    } else {
                        assert(cur.take(j + 1)[j as int] == x);
                    }
                }
                // How membership in the result grows by the conditional push.
                if !seen {
                    assert forall|x: i64| #[trigger] r@.contains(x) implies r_pre.contains(x) || x
                        == v by {
                        let k = choose|k: int| 0 <= k < r@.len() && r@[k] == x;
                        if k < r_pre.len() {
                            assert(r_pre[k] == x);
                        }
                    }
                    assert forall|x: i64| r_pre.contains(x) implies #[trigger] r@.contains(x) by {
                        let k = choose|k: int| 0 <= k < r_pre.len() && r_pre[k] == x;
                        assert(r@[k] == x);
                    }
                    assert(r@[r_pre.len() as int] == v);
                    assert(r@.contains(v));
                }
                assert(v == cur[j as int]);
                assert forall|x: i64| #[trigger] r@.contains(x) implies left.contains(x)
                    || cur.take(j + 1).contains(x) by {}
                assert forall|x: i64|
                    left.contains(x) || cur.take(j + 1).contains(x) implies #[trigger] r@.contains(
                    x,
                ) by {}
            }
            j += 1;
        }
        proof {
            let ghost cur = map@[i as int].1@;
            assert(cur.take(m as int) =~= cur);
            assert(cur.take(j as int) == cur);
            assert(forall|x: i64| #[trigger] r@.contains(x) <==> all_values(
                map@.take(i as int),
            ).contains(x) || cur.contains(x));
            assert(map@.take(i + 1).drop_last() =~= map@.take(i as int));
            assert(map@.take(i + 1).last() == map@[i as int]);
            assert forall|x: i64| #[trigger] r@.contains(x) <==> all_values(
                map@.take(i + 1),
            ).contains(x) by {
                let whole = all_values(map@.take(i + 1));
                let left = all_values(map@.take(i as int));
                assert(whole == left + cur);
                assert(r@.contains(x) <==> left.contains(x) || cur.contains(x));
                if whole.contains(x) {
                    let k = choose|k: int| 0 <= k < whole.len() && whole[k] == x;
                    if k < left.len() {
                        assert(left[k] == x);
                    } else {
                        assert(cur[k - left.len()] == x);
                    }
                }
                if left.contains(x) {
                    let k = choose|k: int| 0 <= k < left.len() && left[k] == x;
                    assert(whole[k] == x);
                }
                if cur.contains(x) {
                    let k = choose|k: int| 0 <= k < cur.len() && cur[k] == x;
                    assert(whole[k + left.len()] == x);
                }
            }
        }
        i += 1;
    }
    proof {
        assert(map@.take(n as int) =~= map@);
    }
    r
}

} // verus!
