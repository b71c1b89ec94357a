//! The dataset model and the reference-resolution pipeline: relations are
//! filtered by their boundary tags and admin level, then relation members are
//! resolved to way point-id chains and point-id chains to concrete nodes.
//!
//! Records that a reference points at but that are absent from the dataset
//! are silently skipped: the affected chain just gets shorter. Fatal dataset
//! errors (it cannot be opened, a record cannot be decoded) are the reader's
//! business and never reach these functions.

use vstd::prelude::*;

use crate::numeral::parse_i64;
use crate::numeral::parse_int;
use crate::tags::Tags;
use crate::tags::tags_get;

verus! {

/// Which kind of record a relation member points at.
#[derive(Clone, Copy, PartialEq, Eq, Structural, Debug)]
pub enum MemberKind {
    Node,
    Way,
    Relation,
}

/// One member reference of a relation: a kind discriminator and a target id.
#[derive(Clone, Copy, PartialEq, Eq, Structural, Debug)]
pub struct MemberRef {
    pub kind: MemberKind,
    pub member_id: i64,
}

/// A relation record: a tagged, ordered grouping of member references.
#[derive(Clone)]
pub struct Relation {
    pub id: i64,
    pub tags: Tags,
    pub refs: Vec<MemberRef>,
}

/// A node record: one geographic point, with coordinates stored as
/// fixed-point integers in units of 10^-7 degrees.
#[derive(Clone, Copy, PartialEq, Eq, Structural, Debug)]
pub struct Node {
    pub id: i64,
    pub decimicro_lat: i32,
    pub decimicro_lon: i32,
}

/// A way record: an ordered list of node ids.
#[derive(Clone)]
pub struct Way {
    pub id: i64,
    pub node_ids: Vec<i64>,
}

/// A relation together with its resolved node chains, one chain per way that
/// was found in the dataset, in the relation's member order.
#[derive(Clone)]
pub struct RelationNodes {
    pub relation: Relation,
    pub nodes: Vec<Vec<Node>>,
}

/// The admin level a tag mapping carries: the `admin_level` value parsed as
/// an integer, `None` when the tag is absent or not a numeral.
pub open spec fn admin_level_of(tags: Seq<(Seq<char>, Seq<char>)>) -> Option<int> {
    match tags_get(tags, "admin_level"@) {
        Some(v) => parse_int(v),
        None => None,
    }
}

/// Whether a tag mapping carries a parseable admin level within the given
/// inclusive range. A missing or unparseable level never qualifies.
pub open spec fn proper_admin_level(tags: Seq<(Seq<char>, Seq<char>)>, min: int, max: int) -> bool {
    match admin_level_of(tags) {
        Some(level) => min <= level && level <= max,
        None => false,
    }
}

/// Whether a relation is an administrative boundary with a parseable admin
/// level in the given range.
pub open spec fn boundary_eligible(r: Relation, min: int, max: int) -> bool {
    &&& tags_get(r.tags@, "boundary"@) == Some("administrative"@)
    &&& proper_admin_level(r.tags@, min, max)
}

/// Decides whether a relation's `admin_level` tag parses to a level within
/// `[min_admin, max_admin]`. Absent or unparseable levels are treated as
/// lying above every finite range, so they are never admitted.
pub fn has_proper_admin_level(relation: &Relation, min_admin: &i8, max_admin: &i8) -> (r: bool)
    ensures
        r == proper_admin_level(relation.tags@, *min_admin as int, *max_admin as int),
{
    match relation.tags.get("admin_level") {
        None => false,
        Some(v) => match parse_i64(v.as_str()) {
            None => false,
            Some(level) => (*min_admin as i64) <= level && level <= (*max_admin as i64),
        },
    }
}

/// The ids of the way-kind members of a member list, in member order.
pub open spec fn way_ids_of(refs: Seq<MemberRef>) -> Seq<i64>
    decreases refs.len(),
{
    if refs.len() == 0 {
        Seq::empty()
    } else {
        way_ids_of(refs.drop_last()) + if refs.last().kind == MemberKind::Way {
            seq![refs.last().member_id]
        } else {
            Seq::empty()
        }
    }
}

/// Collects the target ids of all way-kind members, preserving member order.
/// Members of other kinds are ignored; member roles play no part.
pub fn extract_way_ids_from_relation(relation: &Relation) -> (r: Vec<i64>)
    ensures
        r@ == way_ids_of(relation.refs@),
{
    let mut r: Vec<i64> = Vec::new();
    let n = relation.refs.len();
    let mut i: usize = 0;
    while i < n
        invariant
            0 <= i <= n,
            n == relation.refs.len(),
            r@ == way_ids_of(relation.refs@.take(i as int)),
        decreases n - i,
    {
        let m = relation.refs[i];
        proof {
            assert(relation.refs@.take(i + 1).drop_last() =~= relation.refs@.take(i as int));
            assert(relation.refs@.take(i + 1).last() == relation.refs@[i as int]);
        }
        match m.kind {
            MemberKind::Way => {
                r.push(m.member_id);
            },
            _ => {},
        }
        i += 1;
    }
    proof {
        assert(relation.refs@.take(n as int) =~= relation.refs@);
    }
    r
}

/// The node-id list of the first way with the given id, if any.
pub open spec fn way_lookup(ways: Seq<Way>, id: i64) -> Option<Seq<i64>>
    decreases ways.len(),
{
    if ways.len() == 0 {
        None
    } else if ways[0].id == id {
        Some(ways[0].node_ids@)
    } else {
        way_lookup(ways.drop_first(), id)
    }
}

/// The first node with the given id, if any.
pub open spec fn node_lookup(nodes: Seq<Node>, id: i64) -> Option<Node>
    decreases nodes.len(),
{
    if nodes.len() == 0 {
        None
    } else if nodes[0].id == id {
        Some(nodes[0])
    } else {
        node_lookup(nodes.drop_first(), id)
    }
}

proof fn lemma_way_lookup_skip(ways: Seq<Way>, id: i64, i: int)
    requires
        0 <= i <= ways.len(),
        forall|j: int| 0 <= j < i ==> (#[trigger] ways[j]).id != id,
    ensures
        way_lookup(ways, id) == way_lookup(ways.skip(i), id),
    decreases i,
{
    if i > 0 {
        lemma_way_lookup_skip(ways, id, i - 1);
        assert(ways.skip(i - 1).drop_first() =~= ways.skip(i));
        assert(ways.skip(i - 1)[0] == ways[i - 1]);
    } else {
        assert(ways.skip(0) =~= ways);
    }
}

proof fn lemma_node_lookup_skip(nodes: Seq<Node>, id: i64, i: int)
    requires
        0 <= i <= nodes.len(),
        forall|j: int| 0 <= j < i ==> (#[trigger] nodes[j]).id != id,
    ensures
        node_lookup(nodes, id) == node_lookup(nodes.skip(i), id),
    decreases i,
{
    if i > 0 {
        lemma_node_lookup_skip(nodes, id, i - 1);
        assert(nodes.skip(i - 1).drop_first() =~= nodes.skip(i));
        assert(nodes.skip(i - 1)[0] == nodes[i - 1]);
    } else {
        assert(nodes.skip(0) =~= nodes);
    }
}

/// Finds the first way with the given id.
fn find_way<'a>(ways: &'a Vec<Way>, id: i64) -> (r: Option<&'a Way>)
    ensures
        match r {
            Some(w) => way_lookup(ways@, id) == Some(w.node_ids@),
            None => way_lookup(ways@, id) is None,
        },
{
    let n = ways.len();
    let mut i: usize = 0;
    while i < n
        invariant
            0 <= i <= n,
            n == ways.len(),
            forall|j: int| 0 <= j < i ==> (#[trigger] ways@[j]).id != id,
        decreases n - i,
    {
        if ways[i].id == id {
            proof {
                lemma_way_lookup_skip(ways@, id, i as int);
                assert(ways@.skip(i as int)[0] == ways@[i as int]);
            }
            return Some(&ways[i]);
        }
        i += 1;
    }
    proof {
        lemma_way_lookup_skip(ways@, id, n as int);
        assert(ways@.skip(n as int) =~= Seq::<Way>::empty());
    }
    None
}

/// Finds the first node with the given id.
fn find_node(nodes: &Vec<Node>, id: i64) -> (r: Option<Node>)
    ensures
        match r {
            Some(n) => node_lookup(nodes@, id) == Some(n),
            None => node_lookup(nodes@, id) is None,
        },
{
    let n = nodes.len();
    let mut i: usize = 0;
    while i < n
        invariant
            0 <= i <= n,
            n == nodes.len(),
            forall|j: int| 0 <= j < i ==> (#[trigger] nodes@[j]).id != id,
        decreases n - i,
    {
        if nodes[i].id == id {
            proof {
                lemma_node_lookup_skip(nodes@, id, i as int);
                assert(nodes@.skip(i as int)[0] == nodes@[i as int]);
            }
            return Some(nodes[i]);
        }
        i += 1;
    }
    proof {
        lemma_node_lookup_skip(nodes@, id, n as int);
        assert(nodes@.skip(n as int) =~= Seq::<Node>::empty());
    }
    None
}

/// The view of a list of owned id chains.
pub open spec fn id_chains_view(v: Seq<Vec<i64>>) -> Seq<Seq<i64>> {
    v.map_values(|c: Vec<i64>| c@)
}

/// The view of a list of owned node chains.
pub open spec fn node_chains_view(v: Seq<Vec<Node>>) -> Seq<Seq<Node>> {
    v.map_values(|c: Vec<Node>| c@)
}

/// The id chains that a list of way ids resolves to: one chain per way id
/// found among `ways`, in the order of `way_ids`; missing ways are skipped.
pub open spec fn chains_for(way_ids: Seq<i64>, ways: Seq<Way>) -> Seq<Seq<i64>>
    decreases way_ids.len(),
{
    if way_ids.len() == 0 {
        Seq::empty()
    } else {
        chains_for(way_ids.drop_last(), ways) + match way_lookup(ways, way_ids.last()) {
            Some(c) => seq![c],
            None => Seq::empty(),
        }
    }
}

fn copy_ids(v: &Vec<i64>) -> (r: Vec<i64>)
    ensures
        r@ == v@,
{
    let mut r: Vec<i64> = Vec::new();
    let n = v.len();
    let mut i: usize = 0;
    while i < n
        invariant
            0 <= i <= n,
            n == v.len(),
            r@ == v@.take(i as int),
        decreases n - i,
    {
        r.push(v[i]);
        proof {
            assert(v@.take(i + 1) =~= v@.take(i as int).push(v@[i as int]));
        }
        i += 1;
    }
    proof {
        assert(v@.take(n as int) =~= v@);
    }
    r
}

/// Replaces each way id by that way's node-id list. A way id that is absent
/// from `ways` contributes nothing; order is otherwise preserved.
pub fn replace_way_id_with_node_ids(way_ids: &Vec<i64>, ways: &Vec<Way>) -> (r: Vec<Vec<i64>>)
    ensures
        id_chains_view(r@) == chains_for(way_ids@, ways@),
{
    let mut r: Vec<Vec<i64>> = Vec::new();
    let n = way_ids.len();
    let mut i: usize = 0;
    while i < n
        invariant
            0 <= i <= n,
            n == way_ids.len(),
            id_chains_view(r@) == chains_for(way_ids@.take(i as int), ways@),
        decreases n - i,
    {
        proof {
            assert(way_ids@.take(i + 1).drop_last() =~= way_ids@.take(i as int));
            assert(way_ids@.take(i + 1).last() == way_ids@[i as int]);
        }
        match find_way(ways, way_ids[i]) {
            Some(w) => {
                let c = copy_ids(&w.node_ids);
                r.push(c);
                proof {
                    assert(id_chains_view(r@) =~= chains_for(way_ids@.take(i + 1), ways@));
                }
            },
            None => {},
        }
        i += 1;
    }
    proof {
        assert(way_ids@.take(n as int) =~= way_ids@);
    }
    r
}

/// The node chain that one id chain resolves to: ids not present among
/// `nodes` are skipped in place, the rest keep their order.
pub open spec fn resolve_chain(ids: Seq<i64>, nodes: Seq<Node>) -> Seq<Node>
    decreases ids.len(),
{
    if ids.len() == 0 {
        Seq::empty()
    } else {
        resolve_chain(ids.drop_last(), nodes) + match node_lookup(nodes, ids.last()) {
            Some(n) => seq![n],
            None => Seq::empty(),
        }
    }
}

/// How many ids of a chain have no node record.
pub open spec fn missing_count(ids: Seq<i64>, nodes: Seq<Node>) -> int
    decreases ids.len(),
{
    if ids.len() == 0 {
        0
    } else {
        missing_count(ids.drop_last(), nodes) + if node_lookup(nodes, ids.last()) is None {
            1int
        } else {
            0int
        }
    }
}

/// A resolved chain is exactly as long as its id list minus the number of
/// ids that have no node record: each miss shortens the chain by one, in
/// place, and nothing else is dropped.
pub proof fn lemma_resolve_chain_length(ids: Seq<i64>, nodes: Seq<Node>)
    ensures
        resolve_chain(ids, nodes).len() + missing_count(ids, nodes) == ids.len(),
    decreases ids.len(),
{
    if ids.len() > 0 {
        lemma_resolve_chain_length(ids.drop_last(), nodes);
    }
}

/// All chains of a list, each resolved against `nodes`.
pub open spec fn resolve_chains(chains: Seq<Seq<i64>>, nodes: Seq<Node>) -> Seq<Seq<Node>> {
    chains.map_values(|c: Seq<i64>| resolve_chain(c, nodes))
}

fn resolve_one_chain(ids: &Vec<i64>, nodes: &Vec<Node>) -> (r: Vec<Node>)
    ensures
        r@ == resolve_chain(ids@, nodes@),
{
    let mut r: Vec<Node> = Vec::new();
    let n = ids.len();
    let mut i: usize = 0;
    while i < n
        invariant
            0 <= i <= n,
            n == ids.len(),
            r@ == resolve_chain(ids@.take(i as int), nodes@),
        decreases n - i,
    {
        proof {
            assert(ids@.take(i + 1).drop_last() =~= ids@.take(i as int));
            assert(ids@.take(i + 1).last() == ids@[i as int]);
        }
        match find_node(nodes, ids[i]) {
            Some(node) => {
                r.push(node);
            },
            None => {},
        }
        i += 1;
    }
    proof {
        assert(ids@.take(n as int) =~= ids@);
    }
    r
}

/// Replaces each node id of each chain by the node itself. Ids absent from
/// `nodes` are skipped in place; every chain stays, possibly shortened.
pub fn replace_node_id_with_node(v_node_ids: Vec<Vec<i64>>, nodes: &Vec<Node>) -> (r: Vec<
    Vec<Node>,
>)
    ensures
        node_chains_view(r@) == resolve_chains(id_chains_view(v_node_ids@), nodes@),
{
    let mut r: Vec<Vec<Node>> = Vec::new();
    let n = v_node_ids.len();
    let mut i: usize = 0;
    while i < n
        invariant
            0 <= i <= n,
            n == v_node_ids.len(),
            node_chains_view(r@) == resolve_chains(
                id_chains_view(v_node_ids@.take(i as int)),
                nodes@,
            ),
        decreases n - i,
    {
        let ghost r_before = r@;
        let c = resolve_one_chain(&v_node_ids[i], nodes);
        r.push(c);
        proof {
            assert(node_chains_view(r@) =~= node_chains_view(r_before).push(c@));
            assert(id_chains_view(v_node_ids@.take(i + 1)) =~= id_chains_view(
                v_node_ids@.take(i as int),
            ).push(v_node_ids@[i as int]@));
            assert(resolve_chains(
                id_chains_view(v_node_ids@.take(i as int)).push(v_node_ids@[i as int]@),
                nodes@,
            ) =~= resolve_chains(id_chains_view(v_node_ids@.take(i as int)), nodes@).push(
                resolve_chain(v_node_ids@[i as int]@, nodes@),
            ));
        }
        i += 1;
    }
    proof {
        assert(v_node_ids@.take(n as int) =~= v_node_ids@);
    }
    r
}

/// The relations of a list that qualify as administrative boundaries within
/// the given admin-level range, in their original order.
pub open spec fn eligible_relations(rs: Seq<Relation>, min: int, max: int) -> Seq<Relation>
    decreases rs.len(),
{
    if rs.len() == 0 {
        Seq::empty()
    } else {
        (if boundary_eligible(rs[0], min, max) {
            seq![rs[0]]
        } else {
            Seq::empty()
        }) + eligible_relations(rs.drop_first(), min, max)
    }
}

/// Selects the relations tagged `boundary=administrative` whose admin level
/// parses to a value within `[min_admin, max_admin]`, preserving order.
/// Zero matches is a valid result, not an error.
pub fn find_admin_boundary_relations(
    relations: Vec<Relation>,
    min_admin: &i8,
    max_admin: &i8,
) -> (r: Vec<Relation>)
    ensures
        r@ == eligible_relations(relations@, *min_admin as int, *max_admin as int),
{
    let mut r: Vec<Relation> = Vec::new();
    let mut pending = relations;
    let ghost orig = pending@;
    while pending.len() > 0
        invariant
            eligible_relations(orig, *min_admin as int, *max_admin as int) == r@
                + eligible_relations(pending@, *min_admin as int, *max_admin as int),
        decreases pending.len(),
    {
        let ghost before = pending@;
        let rel = pending.remove(0);
        proof {
            assert(before.drop_first() =~= pending@);
            assert(before[0] == rel);
        }
        let keep = rel.tags.contains("boundary", "administrative") && has_proper_admin_level(
            &rel,
            min_admin,
            max_admin,
        );
        if keep {
            r.push(rel);
        }
    }
    proof {
        assert(eligible_relations(pending@, *min_admin as int, *max_admin as int)
            =~= Seq::<Relation>::empty());
        assert(r@ =~= r@ + Seq::<Relation>::empty());
    }
    r
}

/// Pairs each relation's id with the way ids of its members, in order.
pub fn find_ways_for_relation_ids(relations: &Vec<Relation>) -> (r: Vec<(i64, Vec<i64>)>)
    ensures
        r@.len() == relations@.len(),
        forall|i: int|
            0 <= i < relations@.len() ==> (#[trigger] r@[i]).0 == relations@[i].id && r@[i].1@
                == way_ids_of(relations@[i].refs@),
{
    let mut r: Vec<(i64, Vec<i64>)> = Vec::new();
    let n = relations.len();
    let mut i: usize = 0;
    while i < n
        invariant
            0 <= i <= n,
            n == relations@.len(),
            r@.len() == i,
            forall|j: int|
                0 <= j < i ==> (#[trigger] r@[j]).0 == relations@[j].id && r@[j].1@ == way_ids_of(
                    relations@[j].refs@,
                ),
        decreases n - i,
    {
        let ids = extract_way_ids_from_relation(&relations[i]);
        r.push((relations[i].id, ids));
        i += 1;
    }
    r
}

fn contains_id(v: &Vec<i64>, x: i64) -> (r: bool)
    ensures
        r == v@.contains(x),
{
    let n = v.len();
    let mut i: usize = 0;
    while i < n
        invariant
            0 <= i <= n,
            n == v.len(),
            forall|j: int| 0 <= j < i ==> v@[j] != x,
        decreases n - i,
    {
        if v[i] == x {
            return true;
        }
        i += 1;
    }
    false
}

/// The ways whose ids occur in `wanted`, in their original order.
pub open spec fn ways_with_ids(ws: Seq<Way>, wanted: Seq<i64>) -> Seq<Way>
    decreases ws.len(),
{
    if ws.len() == 0 {
        Seq::empty()
    } else {
        (if wanted.contains(ws[0].id) {
            seq![ws[0]]
        } else {
            Seq::empty()
        }) + ways_with_ids(ws.drop_first(), wanted)
    }
}

/// Keeps the ways whose ids were requested; the rest of the dataset pass is
/// discarded. A requested id with no way record is simply not represented.
pub fn find_nodes_for_way_ids(ways: Vec<Way>, way_ids: &Vec<i64>) -> (r: Vec<Way>)
    ensures
        r@ == ways_with_ids(ways@, way_ids@),
{
    let mut r: Vec<Way> = Vec::new();
    let mut pending = ways;
    let ghost orig = pending@;
    while pending.len() > 0
        invariant
            ways_with_ids(orig, way_ids@) == r@ + ways_with_ids(pending@, way_ids@),
        decreases pending.len(),
    {
        let ghost before = pending@;
        let w = pending.remove(0);
        proof {
            assert(before.drop_first() =~= pending@);
            assert(before[0] == w);
        }
        if contains_id(way_ids, w.id) {
            r.push(w);
        }
    }
    proof {
        assert(ways_with_ids(pending@, way_ids@) =~= Seq::<Way>::empty());
        assert(r@ =~= r@ + Seq::<Way>::empty());
    }
    r
}

/// The nodes whose ids occur in `wanted`, in their original order.
pub open spec fn nodes_with_ids(ns: Seq<Node>, wanted: Seq<i64>) -> Seq<Node>
    decreases ns.len(),
{
    if ns.len() == 0 {
        Seq::empty()
    } else {
        (if wanted.contains(ns[0].id) {
            seq![ns[0]]
        } else {
            Seq::empty()
        }) + nodes_with_ids(ns.drop_first(), wanted)
    }
}

/// Keeps the nodes whose ids were requested; the rest of the dataset pass is
/// discarded. A requested id with no node record is simply not represented.
pub fn find_nodes_for_node_ids(nodes: Vec<Node>, node_ids: &Vec<i64>) -> (r: Vec<Node>)
    ensures
        r@ == nodes_with_ids(nodes@, node_ids@),
{
    let mut r: Vec<Node> = Vec::new();
    let mut pending = nodes;
    let ghost orig = pending@;
    while pending.len() > 0
        invariant
            nodes_with_ids(orig, node_ids@) == r@ + nodes_with_ids(pending@, node_ids@),
        decreases pending.len(),
    {
        let ghost before = pending@;
        let node = pending.remove(0);
        proof {
            assert(before.drop_first() =~= pending@);
            assert(before[0] == node);
        }
        if contains_id(node_ids, node.id) {
            r.push(node);
        }
    }
    proof {
        assert(nodes_with_ids(pending@, node_ids@) =~= Seq::<Node>::empty());
        assert(r@ =~= r@ + Seq::<Node>::empty());
    }
    r
}

/// A relation that lacks the `boundary=administrative` tag pair, or whose
/// `admin_level` is missing or not a numeral, is excluded by the relation
/// filter, whatever range the filter was given.
pub proof fn lemma_filter_excludes_ineligible(rs: Seq<Relation>, r: Relation, min: int, max: int)
    requires
        tags_get(r.tags@, "boundary"@) != Some("administrative"@) || admin_level_of(r.tags@)
            is None,
    ensures
        !eligible_relations(rs, min, max).contains(r),
    decreases rs.len(),
{
    if rs.len() > 0 {
        lemma_filter_excludes_ineligible(rs.drop_first(), r, min, max);
        let head: Seq<Relation> = if boundary_eligible(rs[0], min, max) {
            seq![rs[0]]
        } else {
            Seq::empty()
        };
        let tail = eligible_relations(rs.drop_first(), min, max);
        let whole = eligible_relations(rs, min, max);
        assert(whole == head + tail);
        if whole.contains(r) {
            let k = choose|k: int| 0 <= k < whole.len() && whole[k] == r;
            if k < head.len() {
                assert(boundary_eligible(r, min, max));
            } else {
                assert(tail[k - head.len()] == r);
                assert(tail.contains(r));
            }
        }
    }
}

/// How the admin-level predicate behaves at the range borders: a parsed
/// level exactly at `min` or at `max` is admitted, the levels just outside
/// are not, and an empty-width range admits exactly its one level.
pub proof fn lemma_admin_level_bounds(
    tags: Seq<(Seq<char>, Seq<char>)>,
    min: int,
    max: int,
    level: int,
)
    requires
        min <= max,
        admin_level_of(tags) == Some(level),
    ensures
        level == min ==> proper_admin_level(tags, min, max),
        level == max ==> proper_admin_level(tags, min, max),
        level == min - 1 ==> !proper_admin_level(tags, min, max),
        level == max + 1 ==> !proper_admin_level(tags, min, max),
        min == max ==> (proper_admin_level(tags, min, max) <==> level == min),
{
}

/// The node chains a single relation resolves to: its way members' id
/// chains, each id replaced by its node, absences skipped throughout.
pub open spec fn resolved_chains_of(r: Relation, ways: Seq<Way>, nodes: Seq<Node>) -> Seq<
    Seq<Node>,
> {
    resolve_chains(chains_for(way_ids_of(r.refs@), ways), nodes)
}

/// Resolves every relation against the given ways and nodes, pairing each
/// relation with its node chains. One output entry per input relation, in
/// input order.
pub fn read_ways_and_relation(
    relations: Vec<Relation>,
    ways: &Vec<Way>,
    nodes: &Vec<Node>,
) -> (r: Vec<RelationNodes>)
    ensures
        r@.len() == relations@.len(),
        forall|i: int|
            0 <= i < relations@.len() ==> (#[trigger] r@[i]).relation == relations@[i]
                && node_chains_view(r@[i].nodes@) == resolved_chains_of(
                relations@[i],
                ways@,
                nodes@,
            ),
{
    let mut r: Vec<RelationNodes> = Vec::new();
    let mut pending = relations;
    let ghost orig = pending@;
    let ghost total = pending@.len();
    while pending.len() > 0
        invariant
            r@.len() + pending@.len() == total,
            orig.len() == total,
            pending@ =~= orig.skip(r@.len() as int),
            forall|i: int|
                0 <= i < r@.len() ==> (#[trigger] r@[i]).relation == orig[i] && node_chains_view(
                    r@[i].nodes@,
                ) == resolved_chains_of(orig[i], ways@, nodes@),
        decreases pending.len(),
    {
        let ghost before = pending@;
        let rel = pending.remove(0);
        proof {
            assert(before.drop_first() =~= pending@);
            assert(before[0] == rel);
            assert(orig[r@.len() as int] == rel);
        }
        let way_ids = extract_way_ids_from_relation(&rel);
        let id_chains = replace_way_id_with_node_ids(&way_ids, ways);
        let node_chains = replace_node_id_with_node(id_chains, nodes);
        r.push(RelationNodes { relation: rel, nodes: node_chains });
    }
    proof {
        assert(r@.len() == total);
    }
    r
}

} // verus!
