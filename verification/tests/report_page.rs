use sniffnet::report_entry_numbers;

#[test]
fn first_page_numbers_from_one() {
    assert_eq!(report_entry_numbers(1, 10), (1, 10));
    assert_eq!(report_entry_numbers(1, 3), (1, 3));
}

#[test]
fn later_pages_follow_on() {
    assert_eq!(report_entry_numbers(3, 4), (21, 24));
    assert_eq!(report_entry_numbers(2, 10), (11, 20));
}

#[test]
fn empty_page_ends_before_it_starts() {
    assert_eq!(report_entry_numbers(2, 0), (11, 10));
}

use sniffnet::{report_sort_from_label, ReportSortType};

fn labels() -> Vec<String> {
    vec!["most recent".to_string(), "most bytes".to_string(), "most packets".to_string()]
}

#[test]
fn sort_labels_pick_their_order() {
    assert_eq!(report_sort_from_label(&"most recent".to_string(), &labels()), ReportSortType::MostRecent);
    assert_eq!(report_sort_from_label(&"most bytes".to_string(), &labels()), ReportSortType::MostBytes);
    assert_eq!(report_sort_from_label(&"most packets".to_string(), &labels()), ReportSortType::MostPackets);
}

#[test]
fn unknown_label_picks_most_packets() {
    assert_eq!(report_sort_from_label(&"other".to_string(), &labels()), ReportSortType::MostPackets);
}

#[test]
fn missing_labels_read_as_empty_text() {
    assert_eq!(report_sort_from_label(&String::new(), &Vec::new()), ReportSortType::MostRecent);
    assert_eq!(report_sort_from_label(&String::new(), &vec!["a".to_string()]), ReportSortType::MostBytes);
    assert_eq!(report_sort_from_label(&"a".to_string(), &Vec::new()), ReportSortType::MostPackets);
}
