//! The report of one run, line by line.

use crate::cli::Args;
use crate::lists::views;
use crate::models::Priority;
use crate::partition::priority_in;
use crate::plan::priority_or_third;
use crate::processor::ProcessingResult;
use crate::text::{decimal, push_decimal, texts};
use std::collections::{HashMap, HashSet};
use vstd::prelude::*;
use vstd::string::*;

verus! {

broadcast use vstd::std_specs::hash::group_hash_axioms;

/// The label of a dock in an exception group: its number.
pub open spec fn plain_label(d: u32) -> Seq<char> {
    decimal(d as nat)
}

/// The label of a dock in a result group: its number, followed by `@` for a
/// `First` dock and by `*` for a `Second` dock where markers are asked for and
/// the dock is no exception member.
pub open spec fn label(
    d: u32,
    exceptions: Set<u32>,
    priorities: Map<u32, Priority>,
    print_marker: bool,
) -> Seq<char> {
    if exceptions.contains(d) || !print_marker {
        decimal(d as nat)
    } else {
        match priority_or_third(priorities, d) {
            Priority::First => decimal(d as nat) + "@"@,
            Priority::Second => decimal(d as nat) + "*"@,
            Priority::Third => decimal(d as nat),
        }
    }
}

/// The labels with `", "` between them.
pub open spec fn joined(labels: Seq<Seq<char>>) -> Seq<char>
    decreases labels.len(),
{
    if labels.len() == 0 {
        Seq::empty()
    } else if labels.len() == 1 {
        labels[0]
    } else {
        joined(labels.drop_last()) + ", "@ + labels.last()
    }
}

/// The line for one exception group.
pub open spec fn exception_line(group: Seq<u32>) -> Seq<char> {
    "  - ["@ + joined(group.map_values(|d: u32| plain_label(d))) + "]"@
}

/// The line for one result group.
pub open spec fn group_line(
    group: Seq<u32>,
    exceptions: Set<u32>,
    priorities: Map<u32, Priority>,
    print_marker: bool,
) -> Seq<char> {
    joined(group.map_values(|d: u32| label(d, exceptions, priorities, print_marker)))
}

/// The lines on the range, the capacities and the strictness.
pub open spec fn heading(args: &Args, result: &ProcessingResult) -> Seq<Seq<char>> {
    seq![
        "Processing dock range: "@ + decimal(args.min as nat) + " - "@ + decimal(args.max as nat),
        "Docks per group (1st priority): "@ + decimal(result.fpp as nat),
        "Docks per group (2nd priority): "@ + decimal(result.spp as nat),
        "Docks per group (3rd priority/general): "@ + decimal(result.gpp as nat),
    ] + (if args.strict_first {
        seq!["Strict mode applyed for 1st priority groups."@]
    } else {
        Seq::empty()
    }) + (if args.strict_second {
        seq!["Strict mode applyed for 2nd priority groups."@]
    } else {
        Seq::empty()
    })
}

/// The lines on the exception groups: none where there is no such group,
/// else a title and one line for each group.
pub open spec fn exception_section(groups: Seq<Seq<u32>>) -> Seq<Seq<char>> {
    if groups.len() == 0 {
        Seq::empty()
    } else {
        seq!["Exception groups (printed together, in order of their first dock):"@]
            + groups.map_values(|g: Seq<u32>| exception_line(g))
    }
}

/// The lines on the result groups: a title and one line for each group.
pub open spec fn output_section(
    groups: Seq<Seq<u32>>,
    exceptions: Set<u32>,
    priorities: Map<u32, Priority>,
    print_marker: bool,
) -> Seq<Seq<char>> {
    seq!["--- Output Order (1st: @, 2nd: *) ---"@] + groups.map_values(
        |g: Seq<u32>| group_line(g, exceptions, priorities, print_marker),
    )
}

/// The report: the heading, the exception groups, the result groups.
pub open spec fn report(args: &Args, result: &ProcessingResult) -> Seq<Seq<char>> {
    heading(args, result) + exception_section(views(&result.final_exception_groups))
        + output_section(
        views(&result.result_groups),
        result.all_exception_docks@,
        result.priorities@,
        args.print_marker,
    )
}

/// Writes a line that ends in a number.
fn numbered_line(lead: &str, n: u32) -> (line: String)
    ensures
        line@ == lead@ + decimal(n as nat),
{
    let mut line = String::from_str(lead);
    push_decimal(&mut line, n);
    line
}

/// Puts `", "` between the labels.
fn join(labels: &Vec<String>) -> (line: String)
    ensures
        line@ == joined(texts(labels)),
{
    let mut line = String::new();
    let mut i: usize = 0;
    assert(texts(labels).take(0) =~= Seq::<Seq<char>>::empty());
    while i < labels.len()
        invariant
            i <= labels@.len(),
            line@ == joined(texts(labels).take(i as int)),
        decreases labels@.len() - i,
    {
        let ghost done = texts(labels).take(i as int);
        let ghost next = texts(labels).take(i + 1);
        proof {
            assert(next.drop_last() =~= done);
            assert(next.last() == labels@[i as int]@);
        }
        if i > 0 {
            line.append(", ");
        }
        line.append(labels[i].as_str());
        assert(line@ =~= joined(next));
        i += 1;
    }
    assert(texts(labels).take(i as int) =~= texts(labels));
    line
}

/// Writes the labels of the docks of an exception group.
fn plain_labels(group: &Vec<u32>) -> (labels: Vec<String>)
    ensures
        texts(&labels) == group@.map_values(|d: u32| plain_label(d)),
{
    let mut labels: Vec<String> = Vec::new();
    let mut i: usize = 0;
    while i < group.len()
        invariant
            i <= group@.len(),
            texts(&labels) == group@.take(i as int).map_values(|d: u32| plain_label(d)),
        decreases group@.len() - i,
    {
        let ghost before = texts(&labels);
        let mut text = String::new();
        push_decimal(&mut text, group[i]);
        assert(text@ =~= plain_label(group@[i as int]));
        labels.push(text);
        proof {
            assert(texts(&labels) =~= before.push(plain_label(group@[i as int])));
            assert(texts(&labels) =~= group@.take(i + 1).map_values(|d: u32| plain_label(d)));
        }
        i += 1;
    }
    assert(group@.take(i as int) =~= group@);
    labels
}

/// Writes the labels of the docks of a result group.
fn marked_labels(
    group: &Vec<u32>,
    exceptions: &HashSet<u32>,
    priorities: &HashMap<u32, Priority>,
    print_marker: bool,
) -> (labels: Vec<String>)
    ensures
        texts(&labels) == group@.map_values(
            |d: u32| label(d, exceptions@, priorities@, print_marker),
        ),
{
    let mut labels: Vec<String> = Vec::new();
    let mut i: usize = 0;
    while i < group.len()
        invariant
            i <= group@.len(),
            texts(&labels) == group@.take(i as int).map_values(
                |d: u32| label(d, exceptions@, priorities@, print_marker),
            ),
        decreases group@.len() - i,
    {
        let ghost before = texts(&labels);
        let d = group[i];
        let mut text = String::new();
        push_decimal(&mut text, d);
        if !exceptions.contains(&d) && print_marker {
            match priority_in(priorities, d) {
                Priority::First => {
                    text.append("@");
                },
                Priority::Second => {
                    text.append("*");
                },
                Priority::Third => {},
            }
        }
        assert(text@ =~= label(d, exceptions@, priorities@, print_marker));
        labels.push(text);
        proof {
            assert(texts(&labels) =~= before.push(
                label(d, exceptions@, priorities@, print_marker),
            ));
            assert(texts(&labels) =~= group@.take(i + 1).map_values(
                |d: u32| label(d, exceptions@, priorities@, print_marker),
            ));
        }
        i += 1;
    }
    assert(group@.take(i as int) =~= group@);
    labels
}

/// Writes the report of one run, line by line: the range, the capacities,
/// the strictness flags that are set, the exception groups if there are any,
/// and the result groups in their order.
pub fn format_results(args: &Args, result: &ProcessingResult) -> (lines: Vec<String>)
    ensures
        texts(&lines) == report(args, result),
{
    let mut lines: Vec<String> = Vec::new();
    let mut range = numbered_line("Processing dock range: ", args.min);
    range.append(" - ");
    push_decimal(&mut range, args.max);
    lines.push(range);
    lines.push(numbered_line("Docks per group (1st priority): ", result.fpp as u32));
    lines.push(numbered_line("Docks per group (2nd priority): ", result.spp as u32));
    lines.push(numbered_line("Docks per group (3rd priority/general): ", result.gpp as u32));
    if args.strict_first {
        lines.push(String::from_str("Strict mode applyed for 1st priority groups."));
    }
    if args.strict_second {
        lines.push(String::from_str("Strict mode applyed for 2nd priority groups."));
    }
    assert(texts(&lines) =~= heading(args, result));
    let ghost exception_groups = views(&result.final_exception_groups);
    if result.final_exception_groups.len() > 0 {
        lines.push(
            String::from_str("Exception groups (printed together, in order of their first dock):"),
        );
        let ghost title = texts(&lines);
        let mut i: usize = 0;
        assert(exception_groups.take(0) =~= Seq::<Seq<u32>>::empty());
        assert(texts(&lines) =~= title + exception_groups.take(0).map_values(
            |g: Seq<u32>| exception_line(g),
        ));
        while i < result.final_exception_groups.len()
            invariant
                i <= result.final_exception_groups@.len(),
                exception_groups == views(&result.final_exception_groups),
                texts(&lines) == title + exception_groups.take(i as int).map_values(
                    |g: Seq<u32>| exception_line(g),
                ),
            decreases result.final_exception_groups@.len() - i,
        {
            let ghost before = texts(&lines);
            let mut line = String::from_str("  - [");
            let inner = join(&plain_labels(&result.final_exception_groups[i]));
            line.append(inner.as_str());
            line.append("]");
            lines.push(line);
            proof {
                let g = exception_groups[i as int];
                assert(texts(&lines) =~= before.push(exception_line(g)));
                assert(exception_groups.take(i + 1).map_values(|g: Seq<u32>| exception_line(g))
                    =~= exception_groups.take(i as int).map_values(
                    |g: Seq<u32>| exception_line(g),
                ).push(exception_line(g)));
            }
            i += 1;
        }
        assert(exception_groups.take(i as int) =~= exception_groups);
    }
    assert(texts(&lines) =~= heading(args, result) + exception_section(exception_groups));
    lines.push(String::from_str("--- Output Order (1st: @, 2nd: *) ---"));
    let ghost title = texts(&lines);
    let ghost groups = views(&result.result_groups);
    let ghost exceptions = result.all_exception_docks@;
    let ghost priorities = result.priorities@;
    let print_marker = args.print_marker;
    let mut i: usize = 0;
    assert(groups.take(0) =~= Seq::<Seq<u32>>::empty());
    assert(texts(&lines) =~= title + groups.take(0).map_values(
        |g: Seq<u32>| group_line(g, exceptions, priorities, print_marker),
    ));
    while i < result.result_groups.len()
        invariant
            i <= result.result_groups@.len(),
            groups == views(&result.result_groups),
            exceptions == result.all_exception_docks@,
            priorities == result.priorities@,
            texts(&lines) == title + groups.take(i as int).map_values(
                |g: Seq<u32>| group_line(g, exceptions, priorities, print_marker),
            ),
        decreases result.result_groups@.len() - i,
    {
        let ghost before = texts(&lines);
        let line = join(
            &marked_labels(
                &result.result_groups[i],
                &result.all_exception_docks,
                &result.priorities,
                print_marker,
            ),
        );
        lines.push(line);
        proof {
            let g = groups[i as int];
            assert(texts(&lines) =~= before.push(
                group_line(g, exceptions, priorities, print_marker),
            ));
            assert(groups.take(i + 1).map_values(
                |g: Seq<u32>| group_line(g, exceptions, priorities, print_marker),
            ) =~= groups.take(i as int).map_values(
                |g: Seq<u32>| group_line(g, exceptions, priorities, print_marker),
            ).push(group_line(g, exceptions, priorities, print_marker)));
        }
        i += 1;
    }
    assert(groups.take(i as int) =~= groups);
    assert(texts(&lines) =~= report(args, result));
    lines
}

} // verus!
