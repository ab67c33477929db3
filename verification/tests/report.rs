use dock_order::cli::Args;
use dock_order::printer::format_results;
use dock_order::processor::process_docks;

fn settings(min: u32, max: u32, per_page: u16) -> Args {
    Args {
        first_priority: Vec::new(),
        second_priority: Vec::new(),
        exception_groups_raw: Vec::new(),
        per_page,
        first_priority_per_page: None,
        second_priority_per_page: None,
        min,
        max,
        strict_first: false,
        strict_second: false,
        print_marker: false,
    }
}

#[test]
fn report_of_a_plain_range() {
    let args = settings(1, 5, 2);
    let result = process_docks(&args);
    assert_eq!(
        format_results(&args, &result),
        vec![
            "Processing dock range: 1 - 5",
            "Docks per group (1st priority): 2",
            "Docks per group (2nd priority): 2",
            "Docks per group (3rd priority/general): 2",
            "--- Output Order (1st: @, 2nd: *) ---",
            "1, 2",
            "3, 4",
            "5",
        ]
    );
}

#[test]
fn report_with_markers_and_exception_groups() {
    let mut args = settings(51, 60, 3);
    args.first_priority = vec![vec![53], vec![58]];
    args.second_priority = vec![vec![54, 55], vec![57]];
    args.exception_groups_raw = vec![vec![57, 59], vec![52]];
    args.first_priority_per_page = Some(2);
    args.strict_first = true;
    args.strict_second = true;
    args.print_marker = true;
    let result = process_docks(&args);
    assert_eq!(
        format_results(&args, &result),
        vec![
            "Processing dock range: 51 - 60",
            "Docks per group (1st priority): 2",
            "Docks per group (2nd priority): 3",
            "Docks per group (3rd priority/general): 3",
            "Strict mode applyed for 1st priority groups.",
            "Strict mode applyed for 2nd priority groups.",
            "Exception groups (printed together, in order of their first dock):",
            "  - [52]",
            "  - [57, 59]",
            "--- Output Order (1st: @, 2nd: *) ---",
            "51",
            "52",
            "53@",
            "54*, 55*",
            "56",
            "57, 59",
            "58@",
            "60",
        ]
    );
}

#[test]
fn report_without_markers_shows_numbers_only() {
    let mut args = settings(1, 4, 4);
    args.first_priority = vec![vec![1]];
    args.second_priority = vec![vec![2]];
    args.strict_second = true;
    let result = process_docks(&args);
    assert_eq!(
        format_results(&args, &result),
        vec![
            "Processing dock range: 1 - 4",
            "Docks per group (1st priority): 4",
            "Docks per group (2nd priority): 4",
            "Docks per group (3rd priority/general): 4",
            "Strict mode applyed for 2nd priority groups.",
            "--- Output Order (1st: @, 2nd: *) ---",
            "1, 2, 3, 4",
        ]
    );
    args.print_marker = true;
    let lines = format_results(&args, &result);
    assert_eq!(lines[lines.len() - 1], "1@, 2*, 3, 4");
}
