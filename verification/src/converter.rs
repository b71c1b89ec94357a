//! Chain stitching and polygon assembly.
//!
//! A relation's boundary arrives as an unordered bag of way fragments with
//! arbitrary internal direction. The stitcher greedily merges fragments that
//! share an endpoint id into maximal paths; the assembler then combines a
//! relation's tags with its stitched chains into an exportable polygon.
//!
//! The stitcher assumes that fragments meant to join share exactly one
//! endpoint id and that no id is an endpoint of three or more fragments. A
//! dataset violating that yields a deterministic but possibly topologically
//! wrong result: the first matching fragment in pool order wins. Ring closure
//! is not checked here; callers that need closed rings must test first == last
//! themselves.

use vstd::prelude::*;

use crate::numeral::parse_i64;
use crate::numeral::parse_int;
use crate::osm_reader::Node;
use crate::osm_reader::RelationNodes;
use crate::osm_reader::node_chains_view;
use crate::tags::Tags;
use crate::tags::tags_get;

verus! {

/// One exported polygon: a resolved name, the admin level, the originating
/// relation id, and one ring of fixed-point coordinates per stitched chain.
#[derive(Clone, Debug)]
pub struct Polygon {
    pub name: String,
    pub points: Vec<Vec<Point>>,
    pub relation_id: i64,
    pub admin_level: i64,
}

/// One coordinate of a ring, in units of 10^-7 degrees. Consumers divide by
/// 10^7 to obtain degrees at whatever precision they need.
#[derive(Clone, Copy, PartialEq, Eq, Structural, Debug)]
pub struct Point {
    pub decimicro_lat: i32,
    pub decimicro_lon: i32,
}

/// The id of a chain's first node.
pub open spec fn first_id(c: Seq<Node>) -> i64
    recommends
        c.len() > 0,
{
    c[0].id
}

/// The id of a chain's last node.
pub open spec fn last_id(c: Seq<Node>) -> i64
    recommends
        c.len() > 0,
{
    c[c.len() - 1].id
}

/// Whether a chain offers the given id at either end. Empty chains offer
/// nothing and are never picked up by the stitcher.
pub open spec fn matches_at(c: Seq<Node>, id: i64) -> bool {
    c.len() > 0 && (first_id(c) == id || last_id(c) == id)
}

/// The position of the first chain in the pool that offers `id` at either
/// end, if any.
pub open spec fn find_match_idx(id: i64, pool: Seq<Seq<Node>>) -> Option<int>
    decreases pool.len(),
{
    if pool.len() == 0 {
        None
    } else if matches_at(pool[0], id) {
        Some(0int)
    } else {
        match find_match_idx(id, pool.drop_first()) {
            Some(i) => Some(i + 1),
            None => None,
        }
    }
}

/// The chain turned so that its first node carries `id`, assuming it offers
/// `id` at one end: left alone when it already starts with `id`, reversed
/// otherwise.
pub open spec fn oriented(c: Seq<Node>, id: i64) -> Seq<Node> {
    if c.len() > 0 && first_id(c) == id {
        c
    } else {
        c.reverse()
    }
}

/// A found match lies inside the pool and offers the id; a missed search
/// means no chain offers it.
pub proof fn lemma_find_match_idx_range(id: i64, pool: Seq<Seq<Node>>)
    ensures
        match find_match_idx(id, pool) {
            Some(i) => 0 <= i < pool.len() && matches_at(pool[i], id),
            None => forall|j: int| 0 <= j < pool.len() ==> !matches_at(#[trigger] pool[j], id),
        },
    decreases pool.len(),
{
    if pool.len() > 0 {
        lemma_find_match_idx_range(id, pool.drop_first());
        match find_match_idx(id, pool) {
            Some(i) => {
                if i > 0 {
                    assert(pool[i] == pool.drop_first()[i - 1]);
                }
            },
            None => {
                assert forall|j: int| 0 <= j < pool.len() implies !matches_at(
                    #[trigger] pool[j],
                    id,
                ) by {
                    if j > 0 {
                        assert(pool[j] == pool.drop_first()[j - 1]);
                    }
                }
            },
        }
    }
}

/// One maximal path grown from `path` by greedy endpoint matching against
/// the pool, together with what is left of the pool. Matches at the path's
/// front are sought first, then matches at its back; a consumed fragment is
/// joined with a single copy of the shared junction node, the path's own.
pub open spec fn extend_path(path: Seq<Node>, pool: Seq<Seq<Node>>) -> (Seq<Node>, Seq<Seq<Node>>)
    decreases pool.len(),
    via extend_path_decreases
{
    if path.len() == 0 {
        (path, pool)
    } else {
        match find_match_idx(first_id(path), pool) {
            Some(i) => extend_path(
                oriented(pool[i], first_id(path)).reverse().drop_last() + path,
                pool.remove(i),
            ),
            None => match find_match_idx(last_id(path), pool) {
                Some(i) => extend_path(
                    path + oriented(pool[i], last_id(path)).drop_first(),
                    pool.remove(i),
                ),
                None => (path, pool),
            },
        }
    }
}

#[via_fn]
proof fn extend_path_decreases(path: Seq<Node>, pool: Seq<Seq<Node>>) {
    if path.len() > 0 {
        lemma_find_match_idx_range(first_id(path), pool);
        lemma_find_match_idx_range(last_id(path), pool);
    }
}

/// Extending a path never adds fragments back to the pool.
pub proof fn lemma_extend_path_pool_len(path: Seq<Node>, pool: Seq<Seq<Node>>)
    ensures
        extend_path(path, pool).1.len() <= pool.len(),
    decreases pool.len(),
{
    if path.len() > 0 {
        lemma_find_match_idx_range(first_id(path), pool);
        lemma_find_match_idx_range(last_id(path), pool);
        match find_match_idx(first_id(path), pool) {
            Some(i) => {
                lemma_extend_path_pool_len(
                    oriented(pool[i], first_id(path)).reverse().drop_last() + path,
                    pool.remove(i),
                );
            },
            None => {
                match find_match_idx(last_id(path), pool) {
                    Some(i) => {
                        lemma_extend_path_pool_len(
                            path + oriented(pool[i], last_id(path)).drop_first(),
                            pool.remove(i),
                        );
                    },
                    None => {},
                }
            },
        }
    }
}

/// The stitched form of a pool of chains: repeatedly seed a path with the
/// pool's first chain, grow it to a maximal path, and emit it. Degenerate
/// empty chains pass through unchanged.
pub open spec fn stitch(pool: Seq<Seq<Node>>) -> Seq<Seq<Node>>
    decreases pool.len(),
    via stitch_decreases
{
    if pool.len() == 0 {
        Seq::empty()
    } else {
        let grown = extend_path(pool[0], pool.drop_first());
        seq![grown.0] + stitch(grown.1)
    }
}

#[via_fn]
proof fn stitch_decreases(pool: Seq<Seq<Node>>) {
    if pool.len() > 0 {
        lemma_extend_path_pool_len(pool[0], pool.drop_first());
    }
}

proof fn lemma_find_match_idx_skip(id: i64, pool: Seq<Seq<Node>>, i: int)
    requires
        0 <= i <= pool.len(),
        forall|j: int| 0 <= j < i ==> !matches_at(#[trigger] pool[j], id),
    ensures
        find_match_idx(id, pool) == match find_match_idx(id, pool.skip(i)) {
            Some(k) => Some(k + i),
            None => None::<int>,
        },
    decreases i,
{
    if i > 0 {
        lemma_find_match_idx_skip(id, pool, i - 1);
        assert(pool.skip(i - 1).drop_first() =~= pool.skip(i));
        assert(pool.skip(i - 1)[0] == pool[i - 1]);
    } else {
        assert(pool.skip(0) =~= pool);
    }
}

fn reversed(v: Vec<Node>) -> (r: Vec<Node>)
    ensures
        r@ == v@.reverse(),
{
    let mut r: Vec<Node> = Vec::new();
    let n = v.len();
    let mut i: usize = 0;
    while i < n
        invariant
            0 <= i <= n,
            n == v.len(),
            r@.len() == i,
            forall|k: int| 0 <= k < i ==> r@[k] == v@[n - 1 - k],
        decreases n - i,
    {
        r.push(v[n - 1 - i]);
        i += 1;
    }
    proof {
        assert(r@ =~= v@.reverse());
    }
    r
}

/// Searches the pool for the first chain that has the given id at either
/// end; removes it and hands it back turned so that it starts with that id.
pub fn find_match(node_id: i64, nodes: &mut Vec<Vec<Node>>) -> (r: Option<Vec<Node>>)
    ensures
        match find_match_idx(node_id, node_chains_view(old(nodes)@)) {
            Some(i) => match r {
                Some(c) => c@ == oriented(node_chains_view(old(nodes)@)[i], node_id)
                    && node_chains_view(final(nodes)@) == node_chains_view(old(nodes)@).remove(i),
                None => false,
            },
            None => r is None && final(nodes)@ == old(nodes)@,
        },
{
    let n = nodes.len();
    let mut i: usize = 0;
    while i < n
        invariant
            0 <= i <= n,
            n == nodes.len(),
            nodes@ == old(nodes)@,
            forall|j: int|
                0 <= j < i ==> !matches_at(#[trigger] node_chains_view(nodes@)[j], node_id),
        decreases n - i,
    {
        let ghost pool = node_chains_view(nodes@);
        if nodes[i].len() > 0 {
            let chain_first = nodes[i][0].id;
            let chain_last = nodes[i][nodes[i].len() - 1].id;
            if chain_first == node_id || chain_last == node_id {
                proof {
                    lemma_find_match_idx_skip(node_id, pool, i as int);
                    assert(pool.skip(i as int)[0] == pool[i as int]);
                    assert(matches_at(pool[i as int], node_id));
                    assert(find_match_idx(node_id, pool) == Some(i as int));
                }
                let c = nodes.remove(i);
                proof {
                    assert(node_chains_view(nodes@) =~= pool.remove(i as int));
                }
                if chain_first == node_id {
                    return Some(c);
                } else {
                    let rc = reversed(c);
                    return Some(rc);
                }
            }
        }
        proof {
            assert(!matches_at(node_chains_view(nodes@)[i as int], node_id));
        }
        i += 1;
    }
    proof {
        lemma_find_match_idx_skip(node_id, node_chains_view(nodes@), n as int);
        assert(node_chains_view(nodes@).skip(n as int) =~= Seq::<Seq<Node>>::empty());
    }
    None
}

/// Stitches a relation's chains into maximal paths. The relation itself is
/// carried through unchanged; the chains are merged exactly as [`stitch`]
/// describes.
pub fn merge_nodes(rn: RelationNodes) -> (r: RelationNodes)
    ensures
        r.relation == rn.relation,
        node_chains_view(r.nodes@) == stitch(node_chains_view(rn.nodes@)),
{
    let RelationNodes { relation, nodes: mut pool } = rn;
    let mut result: Vec<Vec<Node>> = Vec::new();
    let ghost orig = node_chains_view(pool@);
    proof {
        assert(node_chains_view(result@) =~= Seq::<Seq<Node>>::empty());
    }
    while pool.len() > 0
        invariant
            stitch(orig) == node_chains_view(result@) + stitch(node_chains_view(pool@)),
        decreases pool.len(),
    {
        let ghost pool_at_seed = node_chains_view(pool@);
        let mut path = pool.remove(0);
        proof {
            assert(node_chains_view(pool@) =~= pool_at_seed.drop_first());
            assert(pool_at_seed[0] == path@);
        }
        let ghost seed = path@;
        let ghost pool0 = node_chains_view(pool@);
        if path.len() > 0 {
            loop
                invariant_except_break
                    path@.len() > 0,
                    extend_path(seed, pool0) == extend_path(path@, node_chains_view(pool@)),
                ensures
                    extend_path(seed, pool0) == (path@, node_chains_view(pool@)),
                decreases pool.len(),
            {
                let ghost pool_pre = node_chains_view(pool@);
                let ghost path_pre = path@;
                let path_first = path[0].id;
                let matching_first = find_match(path_first, &mut pool);
                match matching_first {
                    Some(m) => {
                        proof {
                            lemma_find_match_idx_range(first_id(path_pre), pool_pre);
                        }
                        let mut newpath = reversed(m);
                        newpath.pop();
                        newpath.append(&mut path);
                        path = newpath;
                        proof {
                            let i = find_match_idx(first_id(path_pre), pool_pre).unwrap();
                            assert(oriented(pool_pre[i], first_id(path_pre)).reverse().drop_last()
                                + path_pre == path@);
                            assert(node_chains_view(pool@).len() == pool_pre.len() - 1);
                            assert(pool@.len() < pool_pre.len());
                        }
                    },
                    None => {
                        let path_last = path[path.len() - 1].id;
                        let matching_last = find_match(path_last, &mut pool);
                        match matching_last {
                            Some(mut m) => {
                                proof {
                                    lemma_find_match_idx_range(last_id(path_pre), pool_pre);
                                }
                                m.remove(0);
                                path.append(&mut m);
                                proof {
                                    let i = find_match_idx(last_id(path_pre), pool_pre).unwrap();
                                    assert(path_pre + oriented(
                                        pool_pre[i],
                                        last_id(path_pre),
                                    ).drop_first() == path@);
                                    assert(node_chains_view(pool@).len() == pool_pre.len() - 1);
                                    assert(pool@.len() < pool_pre.len());
                                }
                            },
                            None => {
                                proof {
                                    assert(extend_path(path@, node_chains_view(pool@)) == (
                                        path@,
                                        node_chains_view(pool@),
                                    ));
                                }
                                break ;
                            },
                        }
                    },
                }
            }
            proof {
                lemma_extend_path_pool_len(seed, pool0);
                assert(node_chains_view(pool@).len() <= pool0.len());
                assert(pool@.len() <= pool0.len());
            }
        } else {
            proof {
                assert(extend_path(seed, pool0) == (path@, node_chains_view(pool@)));
            }
        }
        let ghost result_pre = node_chains_view(result@);
        result.push(path);
        proof {
            assert(node_chains_view(result@) =~= result_pre.push(path@));
            assert(stitch(pool_at_seed) == seq![path@] + stitch(node_chains_view(pool@)));
            assert(node_chains_view(result@) + stitch(node_chains_view(pool@)) =~= result_pre + (
            seq![path@] + stitch(node_chains_view(pool@))));
        }
    }
    proof {
        assert(node_chains_view(pool@) =~= Seq::<Seq<Node>>::empty());
        assert(stitch(node_chains_view(pool@)) =~= Seq::<Seq<Node>>::empty());
        assert(node_chains_view(result@) =~= node_chains_view(result@) + Seq::<Seq<Node>>::empty());
    }
    RelationNodes { relation, nodes: result }
}

/// No chain of the pool offers another chain's endpoint id at either of its
/// own ends: the pool is already maximal.
pub open spec fn chains_endpoint_disjoint(pool: Seq<Seq<Node>>) -> bool {
    forall|i: int, j: int|
        0 <= i < pool.len() && 0 <= j < pool.len() && i != j && pool[i].len() > 0 ==> !matches_at(
            #[trigger] pool[j],
            first_id(#[trigger] pool[i]),
        ) && !matches_at(pool[j], last_id(pool[i]))
}

proof fn lemma_find_match_idx_none(id: i64, pool: Seq<Seq<Node>>)
    requires
        forall|j: int| 0 <= j < pool.len() ==> !matches_at(#[trigger] pool[j], id),
    ensures
        find_match_idx(id, pool) is None,
{
    lemma_find_match_idx_range(id, pool);
    if find_match_idx(id, pool) is Some {
        let i = find_match_idx(id, pool).unwrap();
        assert(matches_at(pool[i], id));
    }
}

/// Stitching is idempotent: on a pool of chains that is already maximal (no
/// two distinct chains share an endpoint id) the stitcher returns its input
/// unchanged, so re-running it on its own output under that condition
/// changes nothing further.
pub proof fn lemma_stitch_idempotent(pool: Seq<Seq<Node>>)
    requires
        chains_endpoint_disjoint(pool),
    ensures
        stitch(pool) == pool,
    decreases pool.len(),
{
    if pool.len() == 0 {
        assert(stitch(pool) =~= pool);
    } else {
        let seed = pool[0];
        let rest = pool.drop_first();
        if seed.len() > 0 {
            assert forall|j: int| 0 <= j < rest.len() implies !matches_at(
                #[trigger] rest[j],
                first_id(seed),
            ) by {
                assert(rest[j] == pool[j + 1]);
            }
            assert forall|j: int| 0 <= j < rest.len() implies !matches_at(
                #[trigger] rest[j],
                last_id(seed),
            ) by {
                assert(rest[j] == pool[j + 1]);
            }
            lemma_find_match_idx_none(first_id(seed), rest);
            lemma_find_match_idx_none(last_id(seed), rest);
        }
        assert(extend_path(seed, rest) == (seed, rest));
        assert(chains_endpoint_disjoint(rest)) by {
            assert forall|i: int, j: int|
                0 <= i < rest.len() && 0 <= j < rest.len() && i != j && rest[i].len()
                    > 0 implies !matches_at(#[trigger] rest[j], first_id(#[trigger] rest[i]))
                && !matches_at(rest[j], last_id(rest[i])) by {
                assert(rest[i] == pool[i + 1]);
                assert(rest[j] == pool[j + 1]);
            }
        }
        lemma_stitch_idempotent(rest);
        assert(stitch(pool) == seq![seed] + rest);
        assert(seq![seed] + rest =~= pool);
    }
}

/// The exported name a tag mapping resolves to: the `name` value, or
/// `UNKNOWN_NAME` when absent; a non-empty `name:prefix` is prepended with an
/// underscore, an empty or absent prefix changes nothing.
pub open spec fn full_name_of(tags: Seq<(Seq<char>, Seq<char>)>) -> Seq<char> {
    let name = match tags_get(tags, "name"@) {
        Some(v) => v,
        None => "UNKNOWN_NAME"@,
    };
    match tags_get(tags, "name:prefix"@) {
        Some(p) => if p.len() > 0 {
            p + "_"@ + name
        } else {
            name
        },
        None => name,
    }
}

/// The admin level used at assembly time: the parsed `admin_level` value, or
/// the defensive default 0 when the tag is absent, unparseable, or out of
/// the representable range.
pub open spec fn assembly_admin_level(tags: Seq<(Seq<char>, Seq<char>)>) -> int {
    match tags_get(tags, "admin_level"@) {
        Some(v) => match parse_int(v) {
            Some(level) => if i64::MIN <= level <= i64::MAX {
                level
            } else {
                0
            },
            None => 0,
        },
        None => 0,
    }
}

/// A node reduced to its coordinates.
pub open spec fn point_of(n: Node) -> Point {
    Point { decimicro_lat: n.decimicro_lat, decimicro_lon: n.decimicro_lon }
}

/// A chain reduced to its coordinate ring, in chain order, nothing dropped.
pub open spec fn points_of_chain(c: Seq<Node>) -> Seq<Point> {
    c.map_values(|n: Node| point_of(n))
}

/// The view of a list of owned rings.
pub open spec fn point_chains_view(v: Seq<Vec<Point>>) -> Seq<Seq<Point>> {
    v.map_values(|c: Vec<Point>| c@)
}

/// One ring per chain, each in chain order.
pub open spec fn rings_of(chains: Seq<Seq<Node>>) -> Seq<Seq<Point>> {
    chains.map_values(|c: Seq<Node>| points_of_chain(c))
}

/// Resolves the exported name from a tag mapping, as [`full_name_of`]
/// describes.
pub fn get_full_name(tags: &Tags) -> (r: String)
    ensures
        r@ == full_name_of(tags@),
{
    let name: String = match tags.get("name") {
        Some(v) => v.clone(),
        None => "UNKNOWN_NAME".to_owned(),
    };
    match tags.get("name:prefix") {
        Some(p) => {
            if !p.as_str().is_empty() {
                p.clone().concat("_").concat(name.as_str())
            } else {
                name
            }
        },
        None => name,
    }
}

/// Strips each node of a chain down to its coordinates.
pub fn convert_nodes_to_points(nodes: &Vec<Node>) -> (r: Vec<Point>)
    ensures
        r@ == points_of_chain(nodes@),
{
    let mut r: Vec<Point> = Vec::new();
    let n = nodes.len();
    let mut i: usize = 0;
    while i < n
        invariant
            0 <= i <= n,
            n == nodes.len(),
            r@ == points_of_chain(nodes@.take(i as int)),
        decreases n - i,
    {
        let node = nodes[i];
        r.push(Point { decimicro_lat: node.decimicro_lat, decimicro_lon: node.decimicro_lon });
        proof {
            assert(r@ =~= points_of_chain(nodes@.take(i + 1)));
        }
        i += 1;
    }
    proof {
        assert(nodes@.take(n as int) =~= nodes@);
    }
    r
}

/// Assembles one polygon from a relation and its (already stitched) chains:
/// resolved name, parsed admin level with default 0, the relation id, and
/// one coordinate ring per chain.
pub fn convert_to_poly(rn: RelationNodes) -> (r: Polygon)
    ensures
        r.name@ == full_name_of(rn.relation.tags@),
        r.relation_id == rn.relation.id,
        r.admin_level as int == assembly_admin_level(rn.relation.tags@),
        point_chains_view(r.points@) == rings_of(node_chains_view(rn.nodes@)),
{
    let mut points: Vec<Vec<Point>> = Vec::new();
    let n = rn.nodes.len();
    let mut i: usize = 0;
    while i < n
        invariant
            0 <= i <= n,
            n == rn.nodes.len(),
            point_chains_view(points@) == rings_of(node_chains_view(rn.nodes@.take(i as int))),
        decreases n - i,
    {
        let ghost points_pre = points@;
        let ring = convert_nodes_to_points(&rn.nodes[i]);
        points.push(ring);
        proof {
            assert(point_chains_view(points@) =~= point_chains_view(points_pre).push(ring@));
            assert(node_chains_view(rn.nodes@.take(i + 1)) =~= node_chains_view(
                rn.nodes@.take(i as int),
            ).push(rn.nodes@[i as int]@));
            assert(rings_of(node_chains_view(rn.nodes@.take(i as int)).push(rn.nodes@[i as int]@))
                =~= rings_of(node_chains_view(rn.nodes@.take(i as int))).push(
                points_of_chain(rn.nodes@[i as int]@),
            ));
        }
        i += 1;
    }
    proof {
        assert(rn.nodes@.take(n as int) =~= rn.nodes@);
    }
    let fullname = get_full_name(&rn.relation.tags);
    let admin_level: i64 = match rn.relation.tags.get("admin_level") {
        Some(v) => match parse_i64(v.as_str()) {
            Some(level) => level,
            None => 0,
        },
        None => 0,
    };
    Polygon { name: fullname, points, relation_id: rn.relation.id, admin_level }
}

/// Converts each relation's chains into an exported polygon: chains are
/// stitched into maximal paths, then assembled with the relation's tags.
/// One polygon per relation, in input order.
pub fn convert(relations: Vec<RelationNodes>) -> (r: Vec<Polygon>)
    ensures
        r@.len() == relations@.len(),
        forall|i: int|
            0 <= i < relations@.len() ==> {
                &&& (#[trigger] r@[i]).name@ == full_name_of(relations@[i].relation.tags@)
                &&& r@[i].relation_id == relations@[i].relation.id
                &&& r@[i].admin_level as int == assembly_admin_level(relations@[i].relation.tags@)
                &&& point_chains_view(r@[i].points@) == rings_of(
                    stitch(node_chains_view(relations@[i].nodes@)),
                )
            },
{
    let mut r: Vec<Polygon> = Vec::new();
    let mut pending = relations;
    let ghost orig = pending@;
    let ghost total = pending@.len();
    while pending.len() > 0
        invariant
            r@.len() + pending@.len() == total,
            orig.len() == total,
            pending@ =~= orig.skip(r@.len() as int),
            forall|i: int|
                0 <= i < r@.len() ==> {
                    &&& (#[trigger] r@[i]).name@ == full_name_of(orig[i].relation.tags@)
                    &&& r@[i].relation_id == orig[i].relation.id
                    &&& r@[i].admin_level as int == assembly_admin_level(orig[i].relation.tags@)
                    &&& point_chains_view(r@[i].points@) == rings_of(
                        stitch(node_chains_view(orig[i].nodes@)),
                    )
                },
        decreases pending.len(),
    {
        let ghost before = pending@;
        let rn = pending.remove(0);
        proof {
            assert(before.drop_first() =~= pending@);
            assert(before[0] == rn);
            assert(orig[r@.len() as int] == rn);
        }
        let merged = merge_nodes(rn);
        let poly = convert_to_poly(merged);
        r.push(poly);
    }
    proof {
        assert(r@.len() == total);
    }
    r
}

} // verus!
