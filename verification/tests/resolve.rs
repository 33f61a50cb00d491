use eprofiler_tui::resolver::{
    build_flamegraph, resolve_stack, sample_weight, AttributeEntry, ExportProfilesServiceRequest,
    FunctionEntry, LineEntry, LocationEntry, MappingEntry, Profile, ProfilesDictionary,
    ResourceProfiles, Sample, ScopeProfiles, StackEntry,
};
use eprofiler_tui::text::{format_count, truncate};

fn empty_attr() -> AttributeEntry {
    AttributeEntry { key_strindex: 0, string_value: None }
}

fn base_dictionary() -> ProfilesDictionary {
    ProfilesDictionary {
        string_table: vec![
            "".to_string(),
            "thread.name".to_string(),
            "worker-1".to_string(),
            "do_work".to_string(),
            "main".to_string(),
        ],
        attribute_table: vec![
            empty_attr(),
            AttributeEntry { key_strindex: 1, string_value: Some("worker-1".to_string()) },
        ],
        function_table: vec![
            FunctionEntry { name_strindex: 0 },
            FunctionEntry { name_strindex: 3 },
            FunctionEntry { name_strindex: 4 },
        ],
        location_table: vec![
            LocationEntry { mapping_index: 0, address: 0, lines: vec![], attribute_indices: vec![] },
            LocationEntry {
                mapping_index: 0,
                address: 0,
                lines: vec![LineEntry { function_index: 1 }],
                attribute_indices: vec![],
            },
            LocationEntry {
                mapping_index: 0,
                address: 0,
                lines: vec![LineEntry { function_index: 2 }],
                attribute_indices: vec![],
            },
        ],
        mapping_table: vec![MappingEntry { filename_strindex: 0 }],
        stack_table: vec![
            StackEntry { location_indices: vec![] },
            StackEntry { location_indices: vec![1, 2] },
        ],
    }
}

fn simple_sample() -> Sample {
    Sample {
        stack_index: 1,
        values: vec![10],
        timestamps_unix_nano: vec![],
        attribute_indices: vec![1],
    }
}

fn request_of(dict: ProfilesDictionary, samples: Vec<Sample>) -> ExportProfilesServiceRequest {
    ExportProfilesServiceRequest {
        dictionary: Some(dict),
        resource_profiles: vec![ResourceProfiles {
            scope_profiles: vec![ScopeProfiles {
                profiles: vec![Profile { samples }],
            }],
        }],
    }
}

#[test]
fn test_export_profile() {
    let req = request_of(base_dictionary(), vec![simple_sample()]);
    let (flamegraph, samples) = build_flamegraph(&req);
    assert_eq!(samples, 1);
    assert_eq!(flamegraph.root.children.len(), 1);
    let thread = &flamegraph.root.children[0];
    assert_eq!(thread.name, "worker-1");
    assert_eq!(thread.total_value, 10);
    let child = &thread.children[0];
    assert_eq!(child.name, "main");
    assert_eq!(child.children[0].name, "do_work");
    assert_eq!(child.children[0].total_value, 10);
    assert_eq!(child.children[0].self_value, 10);
}

#[test]
fn stack_is_reversed_and_thread_prefixed() {
    let dict = base_dictionary();
    // stored innermost-first: [do_work, main]; resolved outermost-first
    let stack = resolve_stack(&simple_sample(), Some(&dict));
    assert_eq!(stack, vec!["worker-1", "main", "do_work"]);
}

#[test]
fn missing_dictionary_drops_sample() {
    let stack = resolve_stack(&simple_sample(), None);
    assert!(stack.is_empty());
}

#[test]
fn null_stack_index_drops_sample() {
    let mut s = simple_sample();
    s.stack_index = 0;
    assert!(resolve_stack(&s, Some(&base_dictionary())).is_empty());
    s.stack_index = 99;
    assert!(resolve_stack(&s, Some(&base_dictionary())).is_empty());
    let req = request_of(base_dictionary(), vec![{
        let mut s = simple_sample();
        s.stack_index = 0;
        s
    }]);
    let (g, samples) = build_flamegraph(&req);
    assert_eq!(samples, 0);
    assert_eq!(g.root.total_value, 0);
}

#[test]
fn all_locations_unresolved_drops_sample() {
    let mut dict = base_dictionary();
    dict.stack_table.push(StackEntry { location_indices: vec![0, 99] });
    let mut s = simple_sample();
    s.stack_index = 2;
    assert!(resolve_stack(&s, Some(&dict)).is_empty());
    let req = request_of(dict, vec![s]);
    let (g, samples) = build_flamegraph(&req);
    assert_eq!(samples, 0);
    assert_eq!(g.root.total_value, 0);
}

#[test]
fn weight_floors_at_one() {
    let mut s = simple_sample();
    s.values = vec![-5, 2];
    assert_eq!(sample_weight(&s), 1);
    let req = request_of(base_dictionary(), vec![s]);
    let (g, samples) = build_flamegraph(&req);
    assert_eq!(samples, 1);
    assert_eq!(g.root.total_value, 1);
}

#[test]
fn weight_falls_back_to_timestamps_then_one() {
    let mut s = simple_sample();
    s.values = vec![];
    s.timestamps_unix_nano = vec![7, 8, 9];
    assert_eq!(sample_weight(&s), 3);
    s.timestamps_unix_nano = vec![];
    assert_eq!(sample_weight(&s), 1);
}

#[test]
fn unknown_function_names() {
    let mut dict = base_dictionary();
    // function index 0 is the reserved null entry
    dict.location_table.push(LocationEntry {
        mapping_index: 0,
        address: 0,
        lines: vec![LineEntry { function_index: 0 }],
        attribute_indices: vec![],
    });
    dict.stack_table.push(StackEntry { location_indices: vec![3] });
    let mut s = simple_sample();
    s.stack_index = 2;
    let stack = resolve_stack(&s, Some(&dict));
    assert_eq!(stack, vec!["worker-1", "[unknown]"]);
}

#[test]
fn unsymbolized_location_formats_address() {
    let mut dict = base_dictionary();
    dict.string_table.push("/usr/lib/libc.so".to_string());
    dict.mapping_table.push(MappingEntry { filename_strindex: 5 });
    dict.location_table.push(LocationEntry {
        mapping_index: 1,
        address: 0x1234,
        lines: vec![],
        attribute_indices: vec![],
    });
    dict.stack_table.push(StackEntry { location_indices: vec![3] });
    let mut s = simple_sample();
    s.stack_index = 2;
    let stack = resolve_stack(&s, Some(&dict));
    assert_eq!(stack, vec!["worker-1", "libc.so+0x0000000000001234"]);
}

#[test]
fn unsymbolized_location_without_mapping_is_unknown() {
    let mut dict = base_dictionary();
    dict.location_table.push(LocationEntry {
        mapping_index: 0,
        address: 255,
        lines: vec![],
        attribute_indices: vec![],
    });
    dict.stack_table.push(StackEntry { location_indices: vec![3] });
    let mut s = simple_sample();
    s.stack_index = 2;
    let stack = resolve_stack(&s, Some(&dict));
    assert_eq!(stack, vec!["worker-1", "[unknown]+0x00000000000000ff"]);
}

#[test]
fn frame_type_tags_every_frame_of_location() {
    let mut dict = base_dictionary();
    dict.string_table.push("profile.frame.type".to_string());
    dict.attribute_table.push(AttributeEntry {
        key_strindex: 5,
        string_value: Some("cpython".to_string()),
    });
    dict.location_table.push(LocationEntry {
        mapping_index: 0,
        address: 0,
        lines: vec![LineEntry { function_index: 1 }, LineEntry { function_index: 2 }],
        attribute_indices: vec![2],
    });
    dict.stack_table.push(StackEntry { location_indices: vec![3] });
    let mut s = simple_sample();
    s.stack_index = 2;
    let stack = resolve_stack(&s, Some(&dict));
    assert_eq!(
        stack,
        vec!["worker-1", "main [Python] [Inline]", "do_work [Python]"]
    );
}

#[test]
fn unrecognized_frame_type_passes_through() {
    let mut dict = base_dictionary();
    dict.string_table.push("profile.frame.type".to_string());
    dict.attribute_table.push(AttributeEntry {
        key_strindex: 5,
        string_value: Some("zig".to_string()),
    });
    dict.location_table.push(LocationEntry {
        mapping_index: 0,
        address: 0,
        lines: vec![LineEntry { function_index: 1 }],
        attribute_indices: vec![2],
    });
    dict.stack_table.push(StackEntry { location_indices: vec![3] });
    let mut s = simple_sample();
    s.stack_index = 2;
    let stack = resolve_stack(&s, Some(&dict));
    assert_eq!(stack, vec!["worker-1", "do_work [zig]"]);
}

#[test]
fn missing_thread_name_is_unknown() {
    let dict = base_dictionary();
    let mut s = simple_sample();
    s.attribute_indices = vec![];
    let stack = resolve_stack(&s, Some(&dict));
    assert_eq!(stack[0], "[unknown]");
}

#[test]
fn batch_totals_accumulate_per_sample() {
    let dict = base_dictionary();
    let s1 = simple_sample();
    let mut s2 = simple_sample();
    s2.values = vec![4];
    let req = request_of(dict, vec![s1, s2]);
    let (g, samples) = build_flamegraph(&req);
    assert_eq!(samples, 2);
    assert_eq!(g.root.total_value, 14);
    assert_eq!(g.root.children.len(), 1);
}

#[test]
fn format_count_compresses() {
    assert_eq!(format_count(999), "999");
    assert_eq!(format_count(0), "0");
    assert_eq!(format_count(1500), "1.5K");
    assert_eq!(format_count(2_000_000), "2.0M");
    assert_eq!(format_count(1_050_000), "1.1M");
}

#[test]
fn truncate_adds_ellipsis() {
    assert_eq!(truncate("hello", 10), "hello");
    assert_eq!(truncate("hello world", 5), "hell\u{2026}");
    assert_eq!(truncate("hello", 1), "h");
    assert_eq!(truncate("hello", 0), "");
}
