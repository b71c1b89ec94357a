//! Output-side naming logic: sanitising polygon names into filenames and
//! disambiguating duplicates with the relation id. The actual file writing
//! lives with the unverified output front end; everything here is pure.

use vstd::prelude::*;

use crate::converter::Polygon;
use crate::numeral::dec_string;
use crate::numeral::i64_to_dec;
use crate::text::lower_of;
use crate::text::push_char;
use crate::text::str_eq;
use crate::text::to_lowercase;

verus! {

/// How an existing output file should be treated.
#[derive(Clone, Copy, PartialEq, Eq, Structural, Debug)]
pub enum OverwriteConfiguration {
    Ask,
    OverwriteAll,
    SkipAll,
}

/// What the output stage was asked to produce and how to treat collisions.
pub struct OutputHandlerConfiguration {
    pub overwrite_configuration: OverwriteConfiguration,
    pub geojson_output: bool,
}

/// A character that may not appear in a filename.
pub open spec fn is_forbidden_char(c: char) -> bool {
    c == '\\' || c == '/' || c == '&' || c == ':' || c == '<' || c == '>' || c == '|' || c == '*'
}

/// A name with every forbidden character removed, the rest kept in order.
pub open spec fn safe_of(s: Seq<char>) -> Seq<char>
    decreases s.len(),
{
    if s.len() == 0 {
        Seq::empty()
    } else {
        safe_of(s.drop_last()) + if is_forbidden_char(s.last()) {
            Seq::empty()
        } else {
            seq![s.last()]
        }
    }
}

/// Removes the characters `\ / & : < > | *` from a name; everything else is
/// kept unchanged, in order.
pub fn make_safe(name: &str) -> (r: String)
    ensures
        r@ == safe_of(name@),
{
    let n = name.unicode_len();
    let mut r = String::new();
    let mut i: usize = 0;
    while i < n
        invariant
            0 <= i <= n,
            n == name@.len(),
            r@ == safe_of(name@.take(i as int)),
        decreases n - i,
    {
        let c = name.get_char(i);
        proof {
            assert(name@.take(i + 1).drop_last() =~= name@.take(i as int));
            assert(name@.take(i + 1).last() == name@[i as int]);
        }
        let forbidden = c == '\\' || c == '/' || c == '&' || c == ':' || c == '<' || c == '>' || c
            == '|' || c == '*';
        if !forbidden {
            push_char(&mut r, c);
        }
        i += 1;
    }
    proof {
        assert(name@.take(n as int) =~= name@);
    }
    r
}

/// The views of a list of owned strings.
pub open spec fn names_views(v: Seq<String>) -> Seq<Seq<char>> {
    v.map_values(|s: String| s@)
}

/// How many names of the list equal `x`.
pub open spec fn count_matching(names: Seq<Seq<char>>, x: Seq<char>) -> int
    decreases names.len(),
{
    if names.len() == 0 {
        0
    } else {
        count_matching(names.drop_last(), x) + if names.last() == x {
            1int
        } else {
            0int
        }
    }
}

/// Counts are non-negative and never shrink as the prefix grows.
pub proof fn lemma_count_prefix(names: Seq<Seq<char>>, x: Seq<char>, k: int)
    requires
        0 <= k <= names.len(),
    ensures
        0 <= count_matching(names.take(k), x),
        count_matching(names.take(k), x) <= count_matching(names, x),
    decreases names.len(),
{
    if names.len() == 0 {
        assert(names.take(k) =~= names);
    } else if k == names.len() {
        assert(names.take(k) =~= names);
        lemma_count_prefix(names.drop_last(), x, names.len() - 1);
        assert(names.drop_last().take(names.len() - 1) =~= names.drop_last());
    } else {
        assert(names.take(k) =~= names.drop_last().take(k));
        lemma_count_prefix(names.drop_last(), x, k);
    }
}

/// Counts how many of the first `upto` names equal `x`.
pub fn count_eq_prefix(names: &Vec<String>, x: &str, upto: usize) -> (r: usize)
    requires
        upto <= names@.len(),
    ensures
        r as int == count_matching(names_views(names@).take(upto as int), x@),
{
    let mut cnt: usize = 0;
    let mut i: usize = 0;
    while i < upto
        invariant
            0 <= i <= upto,
            upto <= names@.len(),
            cnt <= i,
            cnt as int == count_matching(names_views(names@).take(i as int), x@),
        decreases upto - i,
    {
        proof {
            assert(names_views(names@).take(i + 1).drop_last() =~= names_views(names@).take(
                i as int,
            ));
            assert(names_views(names@).take(i + 1).last() == names@[i as int]@);
        }
        if str_eq(names[i].as_str(), x) {
            cnt += 1;
        }
        i += 1;
    }
    cnt
}

/// Counts how many names of the whole list equal `x`.
pub fn count_eq(names: &Vec<String>, x: &str) -> (r: usize)
    ensures
        r as int == count_matching(names_views(names@), x@),
{
    let r = count_eq_prefix(names, x, names.len());
    proof {
        assert(names_views(names@).take(names@.len() as int) =~= names_views(names@));
    }
    r
}

/// The case-folded safe names of a list of polygons, the key under which
/// duplicate output names are detected.
pub open spec fn lowered_safe_names(ps: Seq<Polygon>) -> Seq<Seq<char>> {
    ps.map_values(|p: Polygon| lower_of(safe_of(p.name@)))
}

/// The output filename (without extension) of each polygon, in input order:
/// the sanitised name, and where that name collides with another polygon's
/// sanitised name case-insensitively, the relation id appended after an
/// underscore. Every member of a collision group gets the suffix; the
/// original capitalisation is kept.
pub fn pair_safe_filenames_and_polygons(polygons: &Vec<Polygon>) -> (r: Vec<String>)
    ensures
        r@.len() == polygons@.len(),
        forall|i: int|
            0 <= i < polygons@.len() ==> (#[trigger] r@[i])@ == if count_matching(
                lowered_safe_names(polygons@),
                lower_of(safe_of(polygons@[i].name@)),
            ) >= 2 {
                safe_of(polygons@[i].name@) + "_"@ + dec_string(polygons@[i].relation_id as int)
            } else {
                safe_of(polygons@[i].name@)
            },
{
    let n = polygons.len();
    let mut safe: Vec<String> = Vec::new();
    let mut lowered: Vec<String> = Vec::new();
    let mut i: usize = 0;
    while i < n
        invariant
            0 <= i <= n,
            n == polygons@.len(),
            safe@.len() == i,
            lowered@.len() == i,
            forall|j: int|
                0 <= j < i ==> (#[trigger] safe@[j])@ == safe_of(polygons@[j].name@),
            forall|j: int|
                0 <= j < i ==> (#[trigger] lowered@[j])@ == lower_of(safe_of(polygons@[j].name@)),
        decreases n - i,
    {
        let s = make_safe(polygons[i].name.as_str());
        let low = to_lowercase(s.as_str());
        safe.push(s);
        lowered.push(low);
        i += 1;
    }
    proof {
        assert(names_views(lowered@) =~= lowered_safe_names(polygons@));
    }
    let mut r: Vec<String> = Vec::new();
    let mut i: usize = 0;
    while i < n
        invariant
            0 <= i <= n,
            n == polygons@.len(),
            safe@.len() == n,
            lowered@.len() == n,
            r@.len() == i,
            names_views(lowered@) == lowered_safe_names(polygons@),
            forall|j: int|
                0 <= j < n ==> (#[trigger] safe@[j])@ == safe_of(polygons@[j].name@),
            forall|j: int|
                0 <= j < n ==> (#[trigger] lowered@[j])@ == lower_of(safe_of(polygons@[j].name@)),
            forall|j: int|
                0 <= j < i ==> (#[trigger] r@[j])@ == if count_matching(
                    lowered_safe_names(polygons@),
                    lower_of(safe_of(polygons@[j].name@)),
                ) >= 2 {
                    safe_of(polygons@[j].name@) + "_"@ + dec_string(
                        polygons@[j].relation_id as int,
                    )
                } else {
                    safe_of(polygons@[j].name@)
                },
        decreases n - i,
    {
        let cnt = count_eq(&lowered, lowered[i].as_str());
        let out: String = if cnt >= 2 {
            let id_str = i64_to_dec(polygons[i].relation_id);
            let mut base = String::new();
            base.append(safe[i].as_str());
            base.append("_");
            base.append(id_str.as_str());
            base
        } else {
            let mut base = String::new();
            base.append(safe[i].as_str());
            base
        };
        r.push(out);
        i += 1;
    }
    r
}

} // verus!
