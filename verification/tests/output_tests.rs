use osm_extract_polygon::converter::Polygon;
use osm_extract_polygon::file_creation_handler;
use osm_extract_polygon::file_creator::FileCreator;
use osm_extract_polygon::file_creator::OverwriteOrSkip;
use osm_extract_polygon::output_handler::pair_safe_filenames_and_polygons;
use osm_extract_polygon::output_handler::OverwriteConfiguration;
use osm_extract_polygon::poly_writer::count_duplicate_names;
use osm_extract_polygon::poly_writer::create_filenames;

fn polygon(name: &str, relation_id: i64) -> Polygon {
    Polygon {
        name: String::from(name),
        points: Vec::new(),
        relation_id,
        admin_level: 1,
    }
}

#[test]
fn output_handler_test_make_safe_remvoes_forbidden_chars() {
    let input = "abc&:<>/\\|*";
    let expected = "abc";

    let result = osm_extract_polygon::output_handler::make_safe(input);

    assert_eq!(result, expected);
}

#[test]
fn output_handler_test_make_safe_doesnt_replace_harmless_characters() {
    let input = "jhdsakljvsjkasspasd";
    let expected = "jhdsakljvsjkasspasd";

    let result = osm_extract_polygon::output_handler::make_safe(input);

    assert_eq!(result, expected);
}

#[test]
fn poly_writer_test_make_safe_remvoes_forbidden_chars() {
    let input = "abc&:<>/\\|*";
    let expected = "abc";

    let result = osm_extract_polygon::poly_writer::make_safe(input);

    assert_eq!(result, expected);
}

#[test]
fn poly_writer_test_make_safe_doesnt_replace_harmless_characters() {
    let input = "jhdsakljvsjkasspasd";
    let expected = "jhdsakljvsjkasspasd";

    let result = osm_extract_polygon::poly_writer::make_safe(input);

    assert_eq!(result, expected);
}

#[test]
fn test_count_duplicates_when_input_is_unique_return_empty_hashmap() {
    let p1_name = String::from("abc123");
    let p2_name = String::from("defgh1");
    let p3_name = String::from("aaaddd");

    let input = vec![p1_name, p2_name, p3_name];
    let result = count_duplicate_names(&input);

    assert_eq!(result, Vec::new());
}

#[test]
fn test_count_duplicates_when_input_contains_duplicates_then_have_them_in_hashmap() {
    let p1_name = String::from("random_name");
    let p1_name_copy = p1_name.clone();
    let p2_name = String::from("random_name2");

    let expected = vec![(p1_name.clone(), 2usize)];

    let input = vec![p1_name, p2_name, p1_name_copy];

    let result = count_duplicate_names(&input);

    assert_eq!(result, expected);
}

#[test]
fn poly_writer_test_create_filenames_add_extensions_to_duplicate_regions() {
    let p1_name = String::from("spain_region");
    let p2_name = String::from("french_region");

    let expected = vec![
        p1_name.clone() + "_3",
        p2_name.clone(),
        p1_name.clone() + "_2",
        p1_name.clone() + "_1",
    ];

    let input = vec![
        polygon("spain_region", 1),
        polygon("french_region", 2),
        polygon("spain_region", 3),
        polygon("spain_region", 4),
    ];

    let result = create_filenames(&input);

    assert_eq!(result, expected);
}

#[test]
fn poly_writer_test_create_filenames_add_no_extensions_if_unique() {
    let expected = vec![
        String::from("spain_region"),
        String::from("french_region"),
        String::from("german_region"),
    ];

    let input = vec![
        polygon("spain_region", 1),
        polygon("french_region", 2),
        polygon("german_region", 3),
    ];

    let result = create_filenames(&input);

    assert_eq!(result, expected);
}

#[test]
fn test_create_filenames_ignores_cases() {
    let p1_name = String::from("spain_region");
    let p2_name = String::from("SPAin_RegION");

    let expected = vec![p1_name.clone() + "_2", p2_name.to_lowercase() + "_1"];

    let input = vec![polygon("spain_region", 1), polygon("SPAin_RegION", 2)];

    let result = create_filenames(&input);

    assert_eq!(result, expected);
}

#[test]
fn output_handler_test_create_filenames_add_extensions_to_duplicate_regions() {
    let p1_name = String::from("spain_region");
    let p2_name = String::from("french_region");

    let expected = vec![
        p1_name.clone() + "_100",
        p2_name.clone(),
        p1_name.clone() + "_300",
        p1_name.clone() + "_400",
    ];

    let input = vec![
        polygon("spain_region", 100),
        polygon("french_region", 200),
        polygon("spain_region", 300),
        polygon("spain_region", 400),
    ];

    let result = pair_safe_filenames_and_polygons(&input);

    assert_eq!(result, expected);
}

#[test]
fn output_handler_test_create_filenames_add_no_extensions_if_unique() {
    let expected = vec![
        String::from("spanish_region"),
        String::from("french_region"),
        String::from("german_region"),
    ];

    let input = vec![
        polygon("spanish_region", 1),
        polygon("french_region", 2),
        polygon("german_region", 3),
    ];

    let result = pair_safe_filenames_and_polygons(&input);

    assert_eq!(result, expected);
}

#[test]
fn test_create_filenames_ignores_case_for_duplicates_but_retains_original() {
    let p1_name = String::from("spanish_region");
    let p2_name = String::from("SPAniSh_RegION");

    let expected = vec![p1_name.clone() + "_123", p2_name.clone() + "_456"];

    let input = vec![polygon("spanish_region", 123), polygon("SPAniSh_RegION", 456)];

    let result = pair_safe_filenames_and_polygons(&input);

    assert_eq!(result, expected);
}

#[test]
fn test_mode_decision_answers_for_sticky_modes() {
    let creator = FileCreator {
        overwrite_mode_config: OverwriteConfiguration::OverwriteAll,
    };
    assert_eq!(creator.mode_decision(), Some(OverwriteOrSkip::Overwrite));

    let creator = FileCreator {
        overwrite_mode_config: OverwriteConfiguration::SkipAll,
    };
    assert_eq!(creator.mode_decision(), Some(OverwriteOrSkip::Skip));

    let creator = FileCreator {
        overwrite_mode_config: OverwriteConfiguration::Ask,
    };
    assert_eq!(creator.mode_decision(), None);
}

#[test]
fn test_prompt_answers_decide_and_update_mode() {
    let mut creator = FileCreator {
        overwrite_mode_config: OverwriteConfiguration::Ask,
    };
    assert_eq!(creator.apply_prompt_answer("s"), Some(OverwriteOrSkip::Skip));
    assert_eq!(creator.overwrite_mode_config, OverwriteConfiguration::Ask);

    assert_eq!(
        creator.apply_prompt_answer("o"),
        Some(OverwriteOrSkip::Overwrite)
    );
    assert_eq!(creator.overwrite_mode_config, OverwriteConfiguration::Ask);

    assert_eq!(creator.apply_prompt_answer("nonsense"), None);
    assert_eq!(creator.overwrite_mode_config, OverwriteConfiguration::Ask);

    assert_eq!(creator.apply_prompt_answer("k"), Some(OverwriteOrSkip::Skip));
    assert_eq!(creator.overwrite_mode_config, OverwriteConfiguration::SkipAll);

    assert_eq!(
        creator.apply_prompt_answer("a"),
        Some(OverwriteOrSkip::Overwrite)
    );
    assert_eq!(
        creator.overwrite_mode_config,
        OverwriteConfiguration::OverwriteAll
    );
}

#[test]
fn test_legacy_prompt_answers_decide_and_update_mode() {
    let mut creator = file_creation_handler::FileCreator {
        overwrite_mode_config: file_creation_handler::OverwriteConfiguration::Ask,
    };
    assert_eq!(
        creator.apply_prompt_answer("k"),
        Some(file_creation_handler::OverwriteOrSkip::Skip)
    );
    assert_eq!(
        creator.overwrite_mode_config,
        file_creation_handler::OverwriteConfiguration::SkipAll
    );
    assert_eq!(
        creator.mode_decision(),
        Some(file_creation_handler::OverwriteOrSkip::Skip)
    );
}
