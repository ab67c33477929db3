//! The settings of one run and their validation.

use crate::text::{
    chars_of, decimal, parse_number, parse_number_in, push_decimal, trim_bounds, trimmed,
};
use vstd::prelude::*;
use vstd::string::*;

verus! {

/// The settings of one run.
#[derive(Debug)]
pub struct Args {
    /// First-priority docks, as lists of dock numbers.
    pub first_priority: Vec<Vec<u32>>,
    /// Second-priority docks, as lists of dock numbers.
    pub second_priority: Vec<Vec<u32>>,
    /// The raw exception groups, in the order in which they were given.
    pub exception_groups_raw: Vec<Vec<u32>>,
    /// Capacity of a group; the default for every priority class.
    pub per_page: u16,
    /// Capacity of a group seeded by a first-priority dock, if it differs.
    pub first_priority_per_page: Option<u16>,
    /// Capacity of a group seeded by a second-priority dock, if it differs.
    pub second_priority_per_page: Option<u16>,
    /// Smallest dock number of the range.
    pub min: u32,
    /// Largest dock number of the range.
    pub max: u32,
    /// A group seeded by a first-priority dock takes first-priority docks only.
    pub strict_first: bool,
    /// A group seeded by a second-priority dock takes second-priority docks only.
    pub strict_second: bool,
    /// Priority docks are printed with a marker.
    pub print_marker: bool,
}

impl Args {
    /// The settings can be worked on: no capacity is zero and the range is
    /// not empty.
    pub open spec fn is_valid(&self) -> bool {
        &&& self.per_page >= 1
        &&& self.first_priority_per_page != Some(0u16)
        &&& self.second_priority_per_page != Some(0u16)
        &&& self.min <= self.max
    }

    /// The message for settings that cannot be worked on: that of the first
    /// check that fails, the checks being made on the general capacity, the
    /// first-priority capacity, the second-priority capacity and the range, in
    /// this order.
    pub open spec fn rejection(&self) -> Seq<char> {
        if self.per_page == 0 {
            "Error: Number of docks per group must be 1 or greater for all per-page settings."@
        } else if self.first_priority_per_page == Some(0u16) {
            "Number of docks for 1st priority (`--fpp`) must be 1 or greater."@
        } else if self.second_priority_per_page == Some(0u16) {
            "Number of docks for 2nd priority (`--spp`) must be 1 or greater."@
        } else {
            "Minimum dock number ("@ + decimal(self.min as nat)
                + ") cannot be greater than maximum dock number ("@ + decimal(self.max as nat)
                + ")."@
        }
    }

    /// Checks the settings. They are accepted exactly when they can be worked
    /// on; otherwise the error is the message of the first check that fails.
    pub fn validate_input(&self) -> (r: Result<(), String>)
        ensures
            r is Ok <==> self.is_valid(),
            r matches Err(m) ==> m@ == self.rejection(),
    {
        if self.per_page == 0 {
            return Err(
                String::from_str(
                    "Error: Number of docks per group must be 1 or greater for all per-page settings.",
                ),
            );
        }
        if is_zero(self.first_priority_per_page) {
            return Err(
                String::from_str("Number of docks for 1st priority (`--fpp`) must be 1 or greater."),
            );
        }
        if is_zero(self.second_priority_per_page) {
            return Err(
                String::from_str("Number of docks for 2nd priority (`--spp`) must be 1 or greater."),
            );
        }
        if self.min > self.max {
            let mut m = String::from_str("Minimum dock number (");
            push_decimal(&mut m, self.min);
            m.append(") cannot be greater than maximum dock number (");
            push_decimal(&mut m, self.max);
            m.append(").");
            return Err(m);
        }
        Ok(())
    }
}

/// Whether a capacity was given and is zero.
fn is_zero(capacity: Option<u16>) -> (zero: bool)
    ensures
        zero == (capacity == Some(0u16)),
{
    match capacity {
        Some(n) => n == 0,
        None => false,
    }
}

/// The first `-` of `s` stands at index `k`.
pub open spec fn dash_at(s: Seq<char>, k: int) -> bool {
    &&& 0 <= k < s.len()
    &&& s[k] == '-'
    &&& forall|j: int| 0 <= j < k ==> s[j] != '-'
}

/// The dock numbers from `start` to `end`, both included, in ascending order.
pub open spec fn span(start: u32, end: u32) -> Seq<u32> {
    Seq::new((end - start + 1) as nat, |i: int| (start + i) as u32)
}

/// The message for a range whose start lies behind its end.
pub open spec fn reversed_range_text(start: u32, end: u32, s: Seq<char>) -> Seq<char> {
    "Invalid range: start ("@ + decimal(start as nat) + ") must be less than or equal to end ("@
        + decimal(end as nat) + ") in '"@ + s + "'"@
}

/// The message for a range of which a part is no number.
pub open spec fn range_format_text(s: Seq<char>) -> Seq<char> {
    "Invalid range format: '"@ + s + "'. Both parts must be numbers."@
}

/// The message for text that is neither a number nor a range.
pub open spec fn number_format_text(s: Seq<char>) -> Seq<char> {
    "Invalid number or range format: '"@ + s + "'"@
}

/// What the text `s` stands for.
///
/// Text with a `-` is a range: the part before the first `-` is its start and
/// the part behind it is its end, each a number with white space around it
/// ignored. It stands for the docks from start to end unless the start lies
/// behind the end. Text without a `-` is a number, with white space around it
/// ignored, and stands for that one dock. Anything else is an error.
pub open spec fn parsed_docks(s: Seq<char>) -> Result<Seq<u32>, Seq<char>> {
    if s.contains('-') {
        let k = choose|k: int| dash_at(s, k);
        match (parse_number(trimmed(s.take(k))), parse_number(trimmed(s.skip(k + 1)))) {
            (Some(start), Some(end)) => if start <= end {
                Ok(span(start, end))
            } else {
                Err(reversed_range_text(start, end, s))
            },
            _ => Err(range_format_text(s)),
        }
    } else {
        match parse_number(trimmed(s)) {
            Some(dock) => Ok(seq![dock]),
            None => Err(number_format_text(s)),
        }
    }
}

/// Lists the dock numbers from `start` to `end`, both included.
fn docks_between(start: u32, end: u32) -> (docks: Vec<u32>)
    requires
        start <= end,
    ensures
        docks@ == span(start, end),
{
    let mut docks: Vec<u32> = Vec::new();
    let mut next: u32 = start;
    loop
        invariant_except_break
            start <= next <= end,
            docks@ == Seq::new((next - start) as nat, |i: int| (start + i) as u32),
        ensures
            docks@ == span(start, end),
        decreases end - next,
    {
        docks.push(next);
        if next == end {
            assert(docks@ =~= span(start, end));
            break;
        }
        next += 1;
        assert(docks@ =~= Seq::new((next - start) as nat, |i: int| (start + i) as u32));
    }
    docks
}

/// Reads one piece of text as dock numbers: a single number such as `7`, or a
/// range such as `5-9`.
pub fn parse_dock_ranges(s: &str) -> (r: Result<Vec<u32>, String>)
    ensures
        r matches Ok(docks) ==> parsed_docks(s@) == Ok::<Seq<u32>, Seq<char>>(docks@),
        r matches Err(m) ==> parsed_docks(s@) == Err::<Seq<u32>, Seq<char>>(m@),
{
    let chars = chars_of(s);
    let mut k: usize = 0;
    while k < chars.len() && chars[k] != '-'
        invariant
            k <= chars@.len(),
            forall|j: int| 0 <= j < k ==> chars@[j] != '-',
        decreases chars@.len() - k,
    {
        k += 1;
    }
    if k < chars.len() {
        proof {
            assert(dash_at(s@, k as int));
            assert(s@.contains('-'));
            let found = choose|found: int| dash_at(s@, found);
            assert(found == k);
        }
        let (a, b) = trim_bounds(&chars, 0, k);
        let (c, d) = trim_bounds(&chars, k + 1, chars.len());
        let start = parse_number_in(&chars, a, b);
        let end = parse_number_in(&chars, c, d);
        match start {
            Some(start) => match end {
                Some(end) => {
                    if start <= end {
                        Ok(docks_between(start, end))
                    } else {
                        let mut m = String::from_str("Invalid range: start (");
                        push_decimal(&mut m, start);
                        m.append(") must be less than or equal to end (");
                        push_decimal(&mut m, end);
                        m.append(") in '");
                        m.append(s);
                        m.append("'");
                        Err(m)
                    }
                },
                None => Err(range_format_message(s)),
            },
            None => Err(range_format_message(s)),
        }
    } else {
        proof {
            if s@.contains('-') {
                let j = choose|j: int| 0 <= j < s@.len() && s@[j] == '-';
                assert(chars@[j] != '-');
            }
            assert(chars@.subrange(0, chars@.len() as int) =~= s@);
        }
        let (a, b) = trim_bounds(&chars, 0, chars.len());
        match parse_number_in(&chars, a, b) {
            Some(dock) => {
                let mut docks: Vec<u32> = Vec::new();
                docks.push(dock);
                assert(docks@ =~= seq![dock]);
                Ok(docks)
            },
            None => {
                let mut m = String::from_str("Invalid number or range format: '");
                m.append(s);
                m.append("'");
                Err(m)
            },
        }
    }
}

/// Writes the message for a range of which a part is no number.
fn range_format_message(s: &str) -> (m: String)
    ensures
        m@ == range_format_text(s@),
{
    let mut m = String::from_str("Invalid range format: '");
    m.append(s);
    m.append("'. Both parts must be numbers.");
    m
}

} // verus!
