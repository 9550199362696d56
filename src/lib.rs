//! MAC addresses as points of a totally ordered 48-bit space: parsing and
//! formatting of their text, and the inclusive ranges between two of them.
pub mod address;
pub mod range;
pub mod text;
pub mod validate;

pub use address::MacAddress;
pub use range::{
    count_addresses_between, count_addresses_between_str, get_addresses_between,
    get_addresses_between_str, get_addresses_between_str_as_strings,
};
pub use text::format_mac_addr;
pub use validate::{is_valid_mac_addr, parse_mac_addr, MacParseError};
