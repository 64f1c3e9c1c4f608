//! Paging and sorting of the connection report: the numbering of the
//! entries on one page, and the order picked from the sort list.

use vstd::prelude::*;

verus! {

/// How many report entries one page lists at most.
pub const ENTRIES_PER_PAGE: usize = 10;

/// The numbers, counted from one, of the first and the last report entry
/// shown on page `page_number` (counted from one) when that page lists
/// `shown` entries: "Showing first-last of ...". A page that lists nothing
/// ends one before it starts.
pub fn report_entry_numbers(page_number: usize, shown: usize) -> (res: (usize, usize))
    requires
        page_number >= 1,
        (page_number - 1) * ENTRIES_PER_PAGE + 1 + shown <= usize::MAX,
    ensures
        res.0 == (page_number - 1) * ENTRIES_PER_PAGE + 1,
        res.1 == res.0 + shown - 1,
        res.0 == (page_number - 1) * 10 + 1,
        res.1 == (page_number - 1) * 10 + shown,
{
    let start_entry_num = (page_number - 1) * ENTRIES_PER_PAGE + 1;
    let end_entry_num = start_entry_num + shown - 1;
    (start_entry_num, end_entry_num)
}

/// The orders in which the connection report can list its entries.
#[derive(Clone, Copy, Debug, PartialEq, Eq, Structural)]
pub enum ReportSortType {
    MostRecent,
    MostBytes,
    MostPackets,
}

/// The label at `i` of the sort list, or the empty text where there is none.
pub open spec fn label_or_empty(labels: Seq<String>, i: int) -> Seq<char> {
    if 0 <= i < labels.len() {
        labels[i]@
    } else {
        Seq::<char>::empty()
    }
}

/// The order picked from the sort list: the first label picks the most
/// recent entries first, the second the entries with most bytes, any other
/// text the entries with most packets. A missing label reads as the empty
/// text.
pub fn report_sort_from_label(selected: &String, labels: &Vec<String>) -> (res: ReportSortType)
    ensures
        res == (if selected@ == label_or_empty(labels@, 0) {
            ReportSortType::MostRecent
        } else if selected@ == label_or_empty(labels@, 1) {
            ReportSortType::MostBytes
        } else {
            ReportSortType::MostPackets
        }),
        labels@.len() >= 1 && selected@ == labels@[0]@ ==> res == ReportSortType::MostRecent,
        labels@.len() >= 2 && selected@ != labels@[0]@ && selected@ == labels@[1]@ ==> res
            == ReportSortType::MostBytes,
        labels@.len() >= 2 && selected@ != labels@[0]@ && selected@ != labels@[1]@ ==> res
            == ReportSortType::MostPackets,
        labels@.len() == 0 ==> (res == ReportSortType::MostRecent <==> selected@.len() == 0),
{
    proof {
        if selected@.len() == 0 {
            assert(selected@ =~= Seq::<char>::empty());
        }
    }
    let empty = String::new();
    let first = if labels.len() > 0 {
        &labels[0]
    } else {
        &empty
    };
    let second = if labels.len() > 1 {
        &labels[1]
    } else {
        &empty
    };
    if *selected == *first {
        ReportSortType::MostRecent
    } else if *selected == *second {
        ReportSortType::MostBytes
    } else {
        ReportSortType::MostPackets
    }
}

} // verus!
