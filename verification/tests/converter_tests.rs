use osm_extract_polygon::converter::convert;
use osm_extract_polygon::converter::convert_nodes_to_points;
use osm_extract_polygon::converter::convert_to_poly;
use osm_extract_polygon::converter::get_full_name;
use osm_extract_polygon::converter::merge_nodes;
use osm_extract_polygon::converter::Point;
use osm_extract_polygon::osm_reader::Node;
use osm_extract_polygon::osm_reader::Relation;
use osm_extract_polygon::osm_reader::RelationNodes;
use osm_extract_polygon::tags::Tags;

fn node(id: i64) -> Node {
    Node {
        id,
        decimicro_lat: (id * 10) as i32,
        decimicro_lon: (id * 20) as i32,
    }
}

fn chain(ids: &[i64]) -> Vec<Node> {
    ids.iter().map(|&id| node(id)).collect()
}

fn ids_of(chain: &[Node]) -> Vec<i64> {
    chain.iter().map(|n| n.id).collect()
}

fn relation_nodes(chains: Vec<Vec<Node>>) -> RelationNodes {
    RelationNodes {
        relation: Relation {
            id: 1,
            tags: Tags { pairs: Vec::new() },
            refs: Vec::new(),
        },
        nodes: chains,
    }
}

#[test]
fn test_stitch_chains_sharing_one_endpoint() {
    // [1,2,3] and [3,4,5] stitch to a single chain covering 1..5 once.
    let rn = relation_nodes(vec![chain(&[1, 2, 3]), chain(&[3, 4, 5])]);
    let merged = merge_nodes(rn);
    assert_eq!(merged.nodes.len(), 1);
    assert_eq!(ids_of(&merged.nodes[0]), vec![1, 2, 3, 4, 5]);
}

#[test]
fn test_stitch_reverses_fragment_when_needed() {
    // The second fragment runs 5,4,3 and must be reversed before appending.
    let rn = relation_nodes(vec![chain(&[1, 2, 3]), chain(&[5, 4, 3])]);
    let merged = merge_nodes(rn);
    assert_eq!(merged.nodes.len(), 1);
    assert_eq!(ids_of(&merged.nodes[0]), vec![1, 2, 3, 4, 5]);
}

#[test]
fn test_stitch_prepends_fragment_matching_path_start() {
    let rn = relation_nodes(vec![chain(&[1, 2, 3]), chain(&[0, 1])]);
    let merged = merge_nodes(rn);
    assert_eq!(merged.nodes.len(), 1);
    assert_eq!(ids_of(&merged.nodes[0]), vec![0, 1, 2, 3]);
}

#[test]
fn test_stitch_closes_ring() {
    // [1,2,3] and [3,4,1] close into a ring: first id equals last id and
    // the ids 1,2,3,4 each occur once, except the repeated closing id.
    let rn = relation_nodes(vec![chain(&[1, 2, 3]), chain(&[3, 4, 1])]);
    let merged = merge_nodes(rn);
    assert_eq!(merged.nodes.len(), 1);
    let ids = ids_of(&merged.nodes[0]);
    assert_eq!(ids.len(), 5);
    assert_eq!(ids.first(), ids.last());
    let mut inner = ids.clone();
    inner.pop();
    inner.sort();
    assert_eq!(inner, vec![1, 2, 3, 4]);
}

#[test]
fn test_stitch_is_idempotent_on_maximal_chains() {
    // Already-maximal chains sharing no endpoints come back unchanged.
    let chains = vec![chain(&[1, 2]), chain(&[3, 4]), chain(&[5, 6, 7])];
    let rn = relation_nodes(chains.clone());
    let merged = merge_nodes(rn);
    assert_eq!(merged.nodes, chains);
    let again = merge_nodes(relation_nodes(merged.nodes.clone()));
    assert_eq!(again.nodes, chains);
}

#[test]
fn test_stitch_passes_degenerate_chains_through() {
    let chains = vec![Vec::new(), chain(&[9])];
    let rn = relation_nodes(chains.clone());
    let merged = merge_nodes(rn);
    assert_eq!(merged.nodes, chains);
}

#[test]
fn test_name_resolution_plain_name() {
    let tags = Tags {
        pairs: vec![(String::from("name"), String::from("Foo"))],
    };
    assert_eq!(get_full_name(&tags), "Foo");
}

#[test]
fn test_name_resolution_with_prefix() {
    let tags = Tags {
        pairs: vec![
            (String::from("name"), String::from("Foo")),
            (String::from("name:prefix"), String::from("Bar")),
        ],
    };
    assert_eq!(get_full_name(&tags), "Bar_Foo");
}

#[test]
fn test_name_resolution_without_name_tag() {
    let tags = Tags { pairs: Vec::new() };
    assert_eq!(get_full_name(&tags), "UNKNOWN_NAME");
}

#[test]
fn test_name_resolution_empty_prefix_changes_nothing() {
    let tags = Tags {
        pairs: vec![
            (String::from("name"), String::from("Foo")),
            (String::from("name:prefix"), String::from("")),
        ],
    };
    assert_eq!(get_full_name(&tags), "Foo");
}

#[test]
fn test_admin_level_defaults_to_zero_at_assembly() {
    // A relation without an admin_level tag still assembles, level 0.
    let rn = RelationNodes {
        relation: Relation {
            id: 42,
            tags: Tags {
                pairs: vec![(String::from("name"), String::from("Somewhere"))],
            },
            refs: Vec::new(),
        },
        nodes: Vec::new(),
    };
    let poly = convert_to_poly(rn);
    assert_eq!(poly.admin_level, 0);
    assert_eq!(poly.relation_id, 42);
    assert_eq!(poly.name, "Somewhere");
}

#[test]
fn test_unparseable_admin_level_defaults_to_zero_at_assembly() {
    let rn = RelationNodes {
        relation: Relation {
            id: 5,
            tags: Tags {
                pairs: vec![(String::from("admin_level"), String::from("six"))],
            },
            refs: Vec::new(),
        },
        nodes: Vec::new(),
    };
    let poly = convert_to_poly(rn);
    assert_eq!(poly.admin_level, 0);
}

#[test]
fn test_convert_nodes_to_points_keeps_coordinates() {
    let nodes = vec![
        Node {
            id: 1,
            decimicro_lat: 15_000_000,
            decimicro_lon: -25_000_000,
        },
        Node {
            id: 2,
            decimicro_lat: 0,
            decimicro_lon: 7,
        },
    ];
    let points = convert_nodes_to_points(&nodes);
    assert_eq!(
        points,
        vec![
            Point {
                decimicro_lat: 15_000_000,
                decimicro_lon: -25_000_000,
            },
            Point {
                decimicro_lat: 0,
                decimicro_lon: 7,
            },
        ]
    );
}

#[test]
fn test_convert_stitches_and_assembles() {
    let rn = RelationNodes {
        relation: Relation {
            id: 9,
            tags: Tags {
                pairs: vec![
                    (String::from("name"), String::from("Region")),
                    (String::from("admin_level"), String::from("6")),
                ],
            },
            refs: Vec::new(),
        },
        nodes: vec![chain(&[1, 2]), chain(&[2, 3])],
    };
    let polys = convert(vec![rn]);
    assert_eq!(polys.len(), 1);
    assert_eq!(polys[0].name, "Region");
    assert_eq!(polys[0].admin_level, 6);
    assert_eq!(polys[0].relation_id, 9);
    assert_eq!(polys[0].points.len(), 1);
    let ring: Vec<i32> = polys[0].points[0].iter().map(|p| p.decimicro_lat).collect();
    assert_eq!(ring, vec![10, 20, 30]);
}
