use athanor_app::generation::{
    generation_id, manifest_is_current, next_generation_id, next_generation_number, pointer_is_current,
    CurrentGeneration, GENERATED_CURRENT_SCHEMA, GENERATED_GENERATION_SCHEMA,
};

fn names(values: &[&str]) -> Vec<String> {
    values.iter().map(|v| v.to_string()).collect()
}

#[test]
fn numbers_generations_past_the_largest_numeric_directory() {
    assert_eq!(next_generation_id(&names(&[])).as_deref(), Some("00000001"));
    assert_eq!(next_generation_id(&names(&["00000007", "notes", "00000003", "+12"])).as_deref(), Some("00000013"));
    assert_eq!(next_generation_number(&names(&["123456789"])), Some(123456790));
    assert_eq!(generation_id(123456790), "123456790");
    assert_eq!(next_generation_id(&names(&["18446744073709551615"])), None);
    assert_eq!(next_generation_id(&names(&["18446744073709551616", "-1", ""])).as_deref(), Some("00000001"));
}

#[test]
fn current_generation_must_match_schema_snapshot_and_manifest() {
    let current = CurrentGeneration {
        schema: GENERATED_CURRENT_SCHEMA.to_string(),
        generation: "00000002".to_string(),
        snapshot: "snap_b".to_string(),
        path: "generations/00000002".to_string(),
        manifest: "generations/00000002/generation.json".to_string(),
    };
    assert!(pointer_is_current(&current, "snap_b"));
    assert!(!pointer_is_current(&current, "snap_c"));
    assert!(manifest_is_current(GENERATED_GENERATION_SCHEMA, "00000002", "snap_b", &current, "snap_b"));
    assert!(!manifest_is_current(GENERATED_GENERATION_SCHEMA, "00000001", "snap_b", &current, "snap_b"));
    assert!(!manifest_is_current("athanor.other.v1", "00000002", "snap_b", &current, "snap_b"));
}

#[test]
fn generation_names_read_back_as_their_numbers() {
    for n in [0u64, 7, 12345678, 123456789, u64::MAX] {
        let name = generation_id(n);
        assert_eq!(name.parse::<u64>().unwrap(), n);
    }
    assert_eq!(generation_id(7), "00000007");
}
