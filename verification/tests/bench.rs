use agent_html_lint::bench::{
    MEASURED_SEED, WARMUP_SEED, accepts_exit_code, command_line, excluded_by_size, round_counts,
    round_order, seed_of_round, shuffled_indices, split_by_size, substitute_file,
};

#[test]
fn shuffled_indices_follow_the_generator() {
    assert_eq!(shuffled_indices(5, 0x9e37_79b9), vec![4, 3, 1, 0, 2]);
    assert_eq!(shuffled_indices(8, 0xd1b5_4a32_d192_ed03 ^ 3), vec![4, 0, 6, 7, 1, 3, 5, 2]);
    assert_eq!(shuffled_indices(1, 7), vec![0]);
    assert!(shuffled_indices(0, 7).is_empty());
    let mut all = shuffled_indices(100, 12345);
    all.sort();
    assert_eq!(all, (0..100).collect::<Vec<_>>());
}

#[test]
fn smoke_runs_skip_warmups_and_measure_once() {
    assert_eq!(round_counts(true, 3, 20), (0, 1));
    assert_eq!(round_counts(false, 3, 20), (3, 20));
    assert_eq!(round_counts(false, 0, 0), (0, 0));
}

#[test]
fn size_limits_exclude_only_larger_fixtures() {
    assert!(!excluded_by_size(None, u64::MAX));
    assert!(!excluded_by_size(Some(1024), 1024));
    assert!(excluded_by_size(Some(1024), 1025));
    assert!(excluded_by_size(Some(0), 1));
    assert!(!excluded_by_size(Some(0), 0));
}

#[test]
fn tools_split_into_excluded_and_active() {
    let limits = vec![None, Some(100), Some(5000), Some(10), None];
    let (excluded, active) = split_by_size(&limits, 1000);
    assert_eq!(excluded, vec![1, 3]);
    assert_eq!(active, vec![0, 2, 4]);
    let (excluded, active) = split_by_size(&Vec::new(), 1000);
    assert!(excluded.is_empty() && active.is_empty());
}

#[test]
fn round_seeds_mix_fixture_and_round() {
    assert_eq!(WARMUP_SEED, 0x9e37_79b9);
    assert_eq!(MEASURED_SEED, 0xd1b5_4a32_d192_ed03);
    assert_eq!(seed_of_round(false, 0, 0), 0x9e37_79b9);
    assert_eq!(seed_of_round(false, 2, 5), 0x9e37_79b9 ^ 2 ^ 5);
    assert_eq!(seed_of_round(true, 1, 2), 0xd1b5_4a32_d192_ed03 ^ 3);
}

#[test]
fn round_orders_shuffle_the_active_tools() {
    assert_eq!(round_order(5, false, 0, 0), vec![4, 3, 1, 0, 2]);
    assert_eq!(round_order(8, true, 1, 2), vec![4, 0, 6, 7, 1, 3, 5, 2]);
    assert!(round_order(0, true, 0, 0).is_empty());
}

#[test]
fn file_placeholders_are_replaced_left_to_right() {
    assert_eq!(substitute_file("{file}", "a.html"), "a.html");
    assert_eq!(substitute_file("--in={file}:{file}", "p"), "--in=p:p");
    assert_eq!(substitute_file("{fil{file}}", "x"), "{filx}");
    assert_eq!(substitute_file("{{file}", "x"), "{x");
    assert_eq!(substitute_file("é{file}é", "ü"), "éüé");
    assert_eq!(substitute_file("{file", "x"), "{file");
    assert_eq!(substitute_file("", "x"), "");
    assert_eq!(substitute_file("{file}", "{file}"), "{file}");
    for (arg, path) in [("a{file}b{file}", "zz"), ("{FILE}", "q"), ("file}", "q")] {
        assert_eq!(substitute_file(arg, path), arg.replace("{file}", path));
    }
}

#[test]
fn command_lines_substitute_arguments_only() {
    let command = vec!["{file}-tool".to_string(), "--check".to_string(), "{file}".to_string()];
    let (program, arguments) = command_line(&command, "fixtures/a.html").unwrap();
    assert_eq!(program, "{file}-tool");
    assert_eq!(arguments, vec!["--check".to_string(), "fixtures/a.html".to_string()]);
    let (program, arguments) = command_line(&vec!["lint".to_string()], "a").unwrap();
    assert_eq!(program, "lint");
    assert!(arguments.is_empty());
    assert_eq!(command_line(&Vec::new(), "a").unwrap_err(), "empty tool command");
}

#[test]
fn exit_codes_must_be_accepted() {
    assert!(accepts_exit_code(&vec![0, 1], 1));
    assert!(!accepts_exit_code(&vec![0, 1], 2));
    assert!(!accepts_exit_code(&vec![0], -1));
    assert!(!accepts_exit_code(&Vec::new(), 0));
}
