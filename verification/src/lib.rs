//! Shipping labels and a product summary from a WooCommerce order export.
//!
//! The export has one line per purchased item. [`parse_csv`] reads it into
//! rows, [`InputData::labels`] regroups the rows into orders and splits each
//! order into packages, and [`InputData::summary`] counts the lines per
//! product.
//!
//! - [`text`]: digits, numbers as text, and the order of names
//! - [`decimal`]: decimal numbers, exact to the last digit
//! - [`price`]: prices written with a comma
//! - [`row`]: one line of the export
//! - [`input`]: the whole export, read with the `csv` crate
//! - [`grouping`]: runs, sorting and chunking, done with `itertools`
//! - [`order`]: an order, its packages and the lines under them
//! - [`labels`]: from rows to orders
//! - [`summary`]: the count of lines per product
//! - [`gui`]: what a screen over all this has to remember

pub mod decimal;
pub mod grouping;
pub mod gui;
pub mod input;
pub mod labels;
pub mod order;
pub mod price;
pub mod row;
pub mod summary;
pub mod text;

pub use decimal::Decimal;
pub use gui::{Gui, Msg};
pub use input::{parse_csv, rows_from_records, InputData};
pub use order::{package_count, package_size, DeliveryDetail, OrderDetails, OrderItem};
pub use price::{Price, PriceParseError};
pub use row::{
    parse_amount_field, parse_row, parse_unsigned_field, FieldParseError, RowParseError,
    WooCommerceRow,
};
pub use summary::SummaryRow;
