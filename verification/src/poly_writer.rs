//! The older naming scheme for polygon output files: names are sanitised,
//! case-folded, and members of a duplicate group are numbered downwards from
//! the group's size. The actual `.poly` file writing lives with the
//! unverified output front end.

use vstd::prelude::*;

use crate::converter::Polygon;
use crate::numeral::dec_digits;
use crate::numeral::u64_to_dec;
use crate::output_handler::count_eq;
use crate::output_handler::count_eq_prefix;
use crate::output_handler::count_matching;
use crate::output_handler::lemma_count_prefix;
use crate::output_handler::lowered_safe_names;
use crate::output_handler::names_views;
use crate::output_handler::safe_of;
use crate::text::lower_of;
use crate::text::str_eq;
use crate::text::to_lowercase;

verus! {

/// Removes the characters `\ / & : < > | *` from a name; everything else is
/// kept unchanged, in order.
pub fn make_safe(name: &str) -> (r: String)
    ensures
        r@ == safe_of(name@),
{
    crate::output_handler::make_safe(name)
}

/// The number of occurrences of each name that occurs more than once, one
/// entry per such name. Names occurring exactly once get no entry; entry
/// order carries no meaning, as with any mapping keyed by name.
pub fn count_duplicate_names(safe_names: &Vec<String>) -> (r: Vec<(String, usize)>)
    ensures
        forall|k: int|
            0 <= k < r@.len() ==> (#[trigger] r@[k]).1 as int == count_matching(
                names_views(safe_names@),
                r@[k].0@,
            ) && r@[k].1 != 1 && names_views(safe_names@).contains(r@[k].0@),
        forall|k1: int, k2: int| 0 <= k1 < k2 < r@.len() ==> r@[k1].0@ != r@[k2].0@,
        forall|x: Seq<char>|
            names_views(safe_names@).contains(x) && count_matching(names_views(safe_names@), x)
                != 1 ==> exists|k: int| 0 <= k < r@.len() && (#[trigger] r@[k]).0@ == x,
{
    let n = safe_names.len();
    let mut r: Vec<(String, usize)> = Vec::new();
    let mut i: usize = 0;
    while i < n
        invariant
            0 <= i <= n,
            n == safe_names@.len(),
            forall|k: int|
                0 <= k < r@.len() ==> (#[trigger] r@[k]).1 as int == count_matching(
                    names_views(safe_names@),
                    r@[k].0@,
                ) && r@[k].1 != 1 && names_views(safe_names@).contains(r@[k].0@),
            forall|k1: int, k2: int| 0 <= k1 < k2 < r@.len() ==> r@[k1].0@ != r@[k2].0@,
            forall|k: int|
                0 <= k < r@.len() ==> names_views(safe_names@).take(i as int).contains(
                    (#[trigger] r@[k]).0@,
                ),
            forall|x: Seq<char>|
                names_views(safe_names@).take(i as int).contains(x) && count_matching(
                    names_views(safe_names@),
                    x,
                ) != 1 ==> exists|k: int| 0 <= k < r@.len() && (#[trigger] r@[k]).0@ == x,
        decreases n - i,
    {
        let ghost views = names_views(safe_names@);
        // Is this the first occurrence of the name?
        let mut first = true;
        let mut j: usize = 0;
        while j < i
            invariant_except_break
                0 <= j <= i < n,
                n == safe_names@.len(),
                first,
                forall|l: int|
                    0 <= l < j ==> (#[trigger] names_views(safe_names@)[l])
                        != names_views(safe_names@)[i as int],
            ensures
                0 <= i < n,
                n == safe_names@.len(),
                first == (forall|l: int|
                    0 <= l < i ==> (#[trigger] names_views(safe_names@)[l])
                        != names_views(safe_names@)[i as int]),
            decreases i - j,
        {
            if str_eq(safe_names[j].as_str(), safe_names[i].as_str()) {
                first = false;
                proof {
                    assert(names_views(safe_names@)[j as int] == names_views(
                        safe_names@,
                    )[i as int]);
                }
                break ;
            }
            j += 1;
        }
        let ghost r_pre = r@;
        if first {
            let cnt = count_eq(safe_names, safe_names[i].as_str());
            if cnt != 1 {
                let entry = (safe_names[i].clone(), cnt);
                r.push(entry);
                proof {
                    assert(r@[r_pre.len() as int].0@ == views[i as int]);
                    assert(views.contains(views[i as int])) by {
                        assert(views[i as int] == views[i as int]);
                    }
                    assert forall|k1: int, k2: int| 0 <= k1 < k2 < r@.len() implies r@[k1].0@
                        != r@[k2].0@ by {
                        if k2 == r@.len() - 1 {
                            assert(views.take(i as int).contains(r_pre[k1].0@));
                            let l = choose|l: int|
                                0 <= l < i && #[trigger] views.take(i as int)[l] == r_pre[k1].0@;
                            assert(views[l] == r_pre[k1].0@);
                            assert(views[l] != views[i as int]);
                        }
                    }
                }
            }
        }
        proof {
            // Membership in the prefix grows by at most the current name.
            assert forall|x: Seq<char>| #[trigger] views.take(i + 1).contains(x) implies views.take(
                i as int,
            ).contains(x) || x == views[i as int] by {
                let k = choose|k: int| 0 <= k < i + 1 && #[trigger] views.take(i + 1)[k] == x;
                if k < i {
                    assert(views.take(i as int)[k] == x);
                }
            }
            assert forall|x: Seq<char>|
                views.take(i as int).contains(x) || x == views[i as int] implies #[trigger] views.take(
                i + 1,
            ).contains(x) by {
                if views.take(i as int).contains(x) {
                    let k = choose|k: int|
                        0 <= k < i && #[trigger] views.take(i as int)[k] == x;
                    assert(views.take(i + 1)[k] == x);
                } else {
                    assert(views.take(i + 1)[i as int] == x);
                }
            }
            // Entries stay within the grown prefix.
            assert forall|k: int| 0 <= k < r@.len() implies views.take(i + 1).contains(
                (#[trigger] r@[k]).0@,
            ) by {
                if k < r_pre.len() {
                    assert(views.take(i as int).contains(r_pre[k].0@));
                } else {
                    assert(r@[k].0@ == views[i as int]);
                }
            }
            // A duplicated name seen in the grown prefix has an entry.
            assert forall|x: Seq<char>|
                views.take(i + 1).contains(x) && count_matching(views, x) != 1 implies exists|
                k: int,
            |
                0 <= k < r@.len() && (#[trigger] r@[k]).0@ == x by {
                if views.take(i as int).contains(x) {
                    let k = choose|k: int| 0 <= k < r_pre.len() && (#[trigger] r_pre[k]).0@ == x;
                    assert(r@[k].0@ == x);
                } else {
                    assert(x == views[i as int]);
                    if first {
                        assert(r@[r@.len() - 1].0@ == x);
                    } else {
                        let l = choose|l: int|
                            0 <= l < i && (#[trigger] views[l]) == views[i as int];
                        assert(views.take(i as int)[l] == x);
                        assert(views.take(i as int).contains(x));
                    }
                }
            }
        }
        i += 1;
    }
    proof {
        assert(names_views(safe_names@).take(n as int) =~= names_views(safe_names@));
    }
    r
}

/// The output filename of each polygon, in input order: the sanitised,
/// case-folded name; members of a duplicate group are numbered downwards,
/// the first occurrence getting the group size and the last getting 1.
pub fn create_filenames(polygons: &Vec<Polygon>) -> (r: Vec<String>)
    ensures
        r@.len() == polygons@.len(),
        forall|i: int|
            0 <= i < polygons@.len() ==> (#[trigger] r@[i])@ == {
                let nm = lower_of(safe_of(polygons@[i].name@));
                let all = lowered_safe_names(polygons@);
                if count_matching(all, nm) != 1 {
                    nm + "_"@ + dec_digits(count_matching(all, nm) - count_matching(
                        all.take(i),
                        nm,
                    ))
                } else {
                    nm
                }
            },
{
    let n = polygons.len();
    let mut lowered: Vec<String> = Vec::new();
    let mut i: usize = 0;
    while i < n
        invariant
            0 <= i <= n,
            n == polygons@.len(),
            lowered@.len() == i,
            forall|j: int|
                0 <= j < i ==> (#[trigger] lowered@[j])@ == lower_of(safe_of(polygons@[j].name@)),
        decreases n - i,
    {
        let s = make_safe(polygons[i].name.as_str());
        let low = to_lowercase(s.as_str());
        lowered.push(low);
        i += 1;
    }
    proof {
        assert(names_views(lowered@) =~= lowered_safe_names(polygons@));
    }
    let mut r: Vec<String> = Vec::new();
    let mut i: usize = 0;
    while i < n
        invariant
            0 <= i <= n,
            n == polygons@.len(),
            lowered@.len() == n,
            r@.len() == i,
            names_views(lowered@) == lowered_safe_names(polygons@),
            forall|j: int|
                0 <= j < n ==> (#[trigger] lowered@[j])@ == lower_of(safe_of(polygons@[j].name@)),
            forall|j: int|
                0 <= j < i ==> (#[trigger] r@[j])@ == {
                    let nm = lower_of(safe_of(polygons@[j].name@));
                    let all = lowered_safe_names(polygons@);
                    if count_matching(all, nm) != 1 {
                        nm + "_"@ + dec_digits(count_matching(all, nm) - count_matching(
                            all.take(j),
                            nm,
                        ))
                    } else {
                        nm
                    }
                },
        decreases n - i,
    {
        let cnt_total = count_eq(&lowered, lowered[i].as_str());
        let out: String = if cnt_total != 1 {
            let cnt_before = count_eq_prefix(&lowered, lowered[i].as_str(), i);
            proof {
                let all = names_views(lowered@);
                let nm = all[i as int];
                lemma_count_prefix(all, nm, i + 1);
                assert(all.take(i + 1).drop_last() =~= all.take(i as int));
                assert(all.take(i + 1).last() == nm);
                assert(count_matching(all.take(i + 1), nm) == count_matching(all.take(i as int), nm)
                    + 1);
                lemma_count_prefix(all, nm, i as int);
                assert(cnt_before < cnt_total);
            }
            let suffix = cnt_total - cnt_before;
            let suffix_str = u64_to_dec(suffix as u64);
            let mut base = String::new();
            base.append(lowered[i].as_str());
            base.append("_");
            base.append(suffix_str.as_str());
            base
        } else {
            let mut base = String::new();
            base.append(lowered[i].as_str());
            base
        };
        r.push(out);
        i += 1;
    }
    r
}

} // verus!
