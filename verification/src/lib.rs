//! Recognition of textual IP addresses and lookup of the reserved ("bogon")
//! address blocks that a network monitor flags.

pub mod text;
pub mod ip_addr;
pub mod ip_format;
pub mod ip_collection;
pub mod bogon;
pub mod report_page;

pub use bogon::{Bogon, bogons, is_bogon};
pub use ip_addr::{IpAddr, parse_ip_addr};
pub use ip_collection::{AddressCollection, IpRange};
pub use report_page::{ReportSortType, report_entry_numbers, report_sort_from_label};
