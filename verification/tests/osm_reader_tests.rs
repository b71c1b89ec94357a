use osm_extract_polygon::osm_reader::find_admin_boundary_relations;
use osm_extract_polygon::osm_reader::has_proper_admin_level;
use osm_extract_polygon::osm_reader::read_ways_and_relation;
use osm_extract_polygon::osm_reader::replace_node_id_with_node;
use osm_extract_polygon::osm_reader::replace_way_id_with_node_ids;
use osm_extract_polygon::osm_reader::MemberKind;
use osm_extract_polygon::osm_reader::MemberRef;
use osm_extract_polygon::osm_reader::Node;
use osm_extract_polygon::osm_reader::Relation;
use osm_extract_polygon::osm_reader::Way;
use osm_extract_polygon::tags::Tags;

fn create_relation(tags_pairs: Vec<(String, String)>) -> Relation {
    Relation {
        id: 123,
        tags: Tags { pairs: tags_pairs },
        refs: Vec::new(),
    }
}

fn node(id: i64) -> Node {
    Node {
        id,
        decimicro_lat: 0,
        decimicro_lon: 0,
    }
}

#[test]
fn test_empty_relation_has_not_proper_admin_level() {
    let relation = create_relation(vec![]);
    assert_eq!(has_proper_admin_level(&relation, &1, &8), false);
}

#[test]
fn test_admin_level_too_high_is_not_valid() {
    let max_admin_level = 8;
    let relation = create_relation(vec![(
        String::from("admin_level"),
        (max_admin_level + 1).to_string(),
    )]);
    assert_eq!(has_proper_admin_level(&relation, &1, &max_admin_level), false);
}

#[test]
fn test_admin_level_is_max_level_is_valid() {
    let max_admin_level = 8;
    let relation = create_relation(vec![(
        String::from("admin_level"),
        (max_admin_level).to_string(),
    )]);
    assert_eq!(has_proper_admin_level(&relation, &1, &max_admin_level), true);
}

#[test]
fn test_min_admin_level_filters_out() {
    let min_admin_level = 1;
    let relation = create_relation(vec![(String::from("admin_level"), (0).to_string())]);
    assert_eq!(has_proper_admin_level(&relation, &min_admin_level, &8), false);
}

#[test]
fn test_min_equal_max_let_only_exact_level_through() {
    let min_admin_level = 3;
    let max_admin_level = min_admin_level;

    let relation_too_little = create_relation(vec![(
        String::from("admin_level"),
        (min_admin_level - 1).to_string(),
    )]);
    let relation_exact = create_relation(vec![(
        String::from("admin_level"),
        (min_admin_level).to_string(),
    )]);
    let relation_too_big = create_relation(vec![(
        String::from("admin_level"),
        (min_admin_level + 1).to_string(),
    )]);

    assert_eq!(
        has_proper_admin_level(&relation_too_little, &min_admin_level, &max_admin_level),
        false
    );
    assert_eq!(
        has_proper_admin_level(&relation_exact, &min_admin_level, &max_admin_level),
        true
    );
    assert_eq!(
        has_proper_admin_level(&relation_too_big, &min_admin_level, &max_admin_level),
        false
    );
}

#[test]
fn test_unparseable_admin_level_is_never_admitted() {
    let relation = create_relation(vec![(String::from("admin_level"), String::from("x7"))]);
    assert_eq!(has_proper_admin_level(&relation, &i8::MIN, &i8::MAX), false);
}

#[test]
fn test_filter_keeps_only_administrative_boundaries_in_range() {
    let eligible = Relation {
        id: 1,
        tags: Tags {
            pairs: vec![
                (String::from("boundary"), String::from("administrative")),
                (String::from("admin_level"), String::from("6")),
            ],
        },
        refs: Vec::new(),
    };
    let wrong_boundary = Relation {
        id: 2,
        tags: Tags {
            pairs: vec![
                (String::from("boundary"), String::from("maritime")),
                (String::from("admin_level"), String::from("6")),
            ],
        },
        refs: Vec::new(),
    };
    let no_level = Relation {
        id: 3,
        tags: Tags {
            pairs: vec![(String::from("boundary"), String::from("administrative"))],
        },
        refs: Vec::new(),
    };
    let out_of_range = Relation {
        id: 4,
        tags: Tags {
            pairs: vec![
                (String::from("boundary"), String::from("administrative")),
                (String::from("admin_level"), String::from("11")),
            ],
        },
        refs: Vec::new(),
    };
    let relations = vec![eligible, wrong_boundary, no_level, out_of_range];
    let kept = find_admin_boundary_relations(relations, &1, &8);
    assert_eq!(kept.len(), 1);
    assert_eq!(kept[0].id, 1);
}

#[test]
fn test_missing_point_shortens_chain_in_place() {
    // A way lists points 1, 2, 3 but point 2 is absent from the resolved
    // map: the chain comes out as [1, 3], in order, one shorter per miss.
    let chains = vec![vec![1, 2, 3]];
    let nodes = vec![node(1), node(3)];
    let resolved = replace_node_id_with_node(chains, &nodes);
    assert_eq!(resolved.len(), 1);
    let ids: Vec<i64> = resolved[0].iter().map(|n| n.id).collect();
    assert_eq!(ids, vec![1, 3]);
}

#[test]
fn test_missing_way_is_skipped() {
    let ways = vec![Way {
        id: 10,
        node_ids: vec![1, 2],
    }];
    let chains = replace_way_id_with_node_ids(&vec![10, 11], &ways);
    assert_eq!(chains, vec![vec![1, 2]]);
}

#[test]
fn test_resolution_pipeline_produces_chains_in_member_order() {
    let relation = Relation {
        id: 7,
        tags: Tags {
            pairs: vec![
                (String::from("boundary"), String::from("administrative")),
                (String::from("admin_level"), String::from("4")),
            ],
        },
        refs: vec![
            MemberRef {
                kind: MemberKind::Way,
                member_id: 100,
            },
            MemberRef {
                kind: MemberKind::Node,
                member_id: 555,
            },
            MemberRef {
                kind: MemberKind::Way,
                member_id: 101,
            },
        ],
    };
    let ways = vec![
        Way {
            id: 101,
            node_ids: vec![3, 4],
        },
        Way {
            id: 100,
            node_ids: vec![1, 2],
        },
    ];
    let nodes = vec![node(1), node(2), node(3), node(4)];
    let result = read_ways_and_relation(vec![relation], &ways, &nodes);
    assert_eq!(result.len(), 1);
    assert_eq!(result[0].relation.id, 7);
    let id_chains: Vec<Vec<i64>> = result[0]
        .nodes
        .iter()
        .map(|c| c.iter().map(|n| n.id).collect())
        .collect();
    assert_eq!(id_chains, vec![vec![1, 2], vec![3, 4]]);
}
