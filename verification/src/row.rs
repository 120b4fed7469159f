//! One line of the export: its sixteen columns, read and checked.

use crate::decimal::{Decimal, DecimalView};
use crate::price::{parse_amount, price_value};
use crate::text::{nat_text, number_text, parse_u32, u32_value};
use vstd::prelude::*;
use vstd::string::StringExecFns;

verus! {

/// The number of columns that a line must have.
pub const COLUMNS: usize = 16;

/// The column of the order id.
pub const ORDER_ID_COLUMN: usize = 0;

/// The column of the shipping cost.
pub const SHIPPING_COLUMN: usize = 5;

/// The column of the quantity.
pub const QUANTITY_COLUMN: usize = 14;

/// One line of the export, one purchased item.
#[derive(Debug)]
pub struct WooCommerceRow {
    pub order_id: u32,
    pub order_date: String,
    pub order_status: String,
    pub customer_name: String,
    pub order_total: String,
    pub order_shipping: Decimal,
    pub payment_gateway: String,
    pub shipping_method: String,
    pub shipping_address_line_1: String,
    pub shipping_address_line_2: String,
    pub shipping_postcode: String,
    pub billing_phone_number: String,
    pub _transaction_id: String,
    pub product_name: String,
    pub quantity: u32,
    pub item_price: String,
}

/// What a [`WooCommerceRow`] holds.
pub struct RowView {
    pub order_id: u32,
    pub order_date: Seq<char>,
    pub order_status: Seq<char>,
    pub customer_name: Seq<char>,
    pub order_total: Seq<char>,
    pub order_shipping: DecimalView,
    pub payment_gateway: Seq<char>,
    pub shipping_method: Seq<char>,
    pub shipping_address_line_1: Seq<char>,
    pub shipping_address_line_2: Seq<char>,
    pub shipping_postcode: Seq<char>,
    pub billing_phone_number: Seq<char>,
    pub transaction_id: Seq<char>,
    pub product_name: Seq<char>,
    pub quantity: u32,
    pub item_price: Seq<char>,
}

impl View for WooCommerceRow {
    type V = RowView;

    open spec fn view(&self) -> RowView {
        RowView {
            order_id: self.order_id,
            order_date: self.order_date@,
            order_status: self.order_status@,
            customer_name: self.customer_name@,
            order_total: self.order_total@,
            order_shipping: self.order_shipping@,
            payment_gateway: self.payment_gateway@,
            shipping_method: self.shipping_method@,
            shipping_address_line_1: self.shipping_address_line_1@,
            shipping_address_line_2: self.shipping_address_line_2@,
            shipping_postcode: self.shipping_postcode@,
            billing_phone_number: self.billing_phone_number@,
            transaction_id: self._transaction_id@,
            product_name: self.product_name@,
            quantity: self.quantity,
            item_price: self.item_price@,
        }
    }
}

impl DeepView for WooCommerceRow {
    type V = RowView;

    open spec fn deep_view(&self) -> RowView {
        self@
    }
}

impl Clone for WooCommerceRow {
    fn clone(&self) -> (res: Self)
        ensures
            res@ == self@,
    {
        WooCommerceRow {
            order_id: self.order_id,
            order_date: self.order_date.clone(),
            order_status: self.order_status.clone(),
            customer_name: self.customer_name.clone(),
            order_total: self.order_total.clone(),
            order_shipping: self.order_shipping.clone(),
            payment_gateway: self.payment_gateway.clone(),
            shipping_method: self.shipping_method.clone(),
            shipping_address_line_1: self.shipping_address_line_1.clone(),
            shipping_address_line_2: self.shipping_address_line_2.clone(),
            shipping_postcode: self.shipping_postcode.clone(),
            billing_phone_number: self.billing_phone_number.clone(),
            _transaction_id: self._transaction_id.clone(),
            product_name: self.product_name.clone(),
            quantity: self.quantity,
            item_price: self.item_price.clone(),
        }
    }
}

/// A cell that does not hold what its column asks for.
#[derive(Debug)]
pub struct FieldParseError {
    /// The column, counted from 0.
    pub column: usize,
    /// What the cell holds.
    pub text: String,
}

/// What the message of a bad cell starts with: it names the column.
pub open spec fn column_label(column: int) -> Seq<char> {
    if column == ORDER_ID_COLUMN {
        "Invalid order id: "@
    } else if column == SHIPPING_COLUMN {
        "Invalid shipping: "@
    } else if column == QUANTITY_COLUMN {
        "Invalid quantity: "@
    } else {
        "Invalid cell: "@
    }
}

impl FieldParseError {
    /// What to tell the user: the column, and what its cell holds.
    pub fn message(&self) -> (text: String)
        ensures
            text@ == column_label(self.column as int) + self.text@,
    {
        let label: &str = if self.column == ORDER_ID_COLUMN {
            "Invalid order id: "
        } else if self.column == SHIPPING_COLUMN {
            "Invalid shipping: "
        } else if self.column == QUANTITY_COLUMN {
            "Invalid quantity: "
        } else {
            "Invalid cell: "
        };
        let mut text = String::from_str(label);
        text.append(self.text.as_str());
        text
    }
}

/// A line that is no row.
#[derive(Debug)]
pub enum RowParseError {
    /// The reader refused the line, as it does one that has another number
    /// of cells than the header.
    Unreadable {
        /// What the reader says of it.
        detail: String,
    },
    /// The line has fewer than [`COLUMNS`] cells.
    MissingColumns {
        /// The cells of the line.
        row: Vec<String>,
    },
    /// A numeric cell holds no number.
    InvalidField {
        /// The cell.
        error: FieldParseError,
        /// The cells of the line.
        row: Vec<String>,
    },
}

/// Why a line is no row.
pub enum RowFault {
    /// The reader refused it.
    Unreadable,
    /// It has too few cells.
    MissingColumns { row: Seq<Seq<char>> },
    /// The cell in `column` holds `text`, which is no number.
    InvalidField { column: int, text: Seq<char>, row: Seq<Seq<char>> },
}

impl View for RowParseError {
    type V = RowFault;

    open spec fn view(&self) -> RowFault {
        match self {
            RowParseError::Unreadable { .. } => RowFault::Unreadable,
            RowParseError::MissingColumns { row } => RowFault::MissingColumns {
                row: row.deep_view(),
            },
            RowParseError::InvalidField { error, row } => RowFault::InvalidField {
                column: error.column as int,
                text: error.text@,
                row: row.deep_view(),
            },
        }
    }
}

impl RowParseError {
    /// What to tell the user. Of a line that the reader refused, this is
    /// what the reader says.
    pub fn message(&self) -> (text: String)
        ensures
            match *self {
                RowParseError::Unreadable { detail } => text@ == detail@,
                RowParseError::MissingColumns { row } => text@ == "Missing columns: the line has "@
                    + nat_text(row@.len()),
                RowParseError::InvalidField { error, .. } => text@ == column_label(
                    error.column as int,
                ) + error.text@,
            },
    {
        match self {
            RowParseError::Unreadable { detail } => detail.clone(),
            RowParseError::MissingColumns { row } => {
                let mut text = String::from_str("Missing columns: the line has ");
                text.append(number_text(row.len()).as_str());
                text
            },
            RowParseError::InvalidField { error, .. } => error.message(),
        }
    }
}

/// The first numeric column of `cells` that holds no number, if there is
/// one. The columns are tried in the order in which they stand.
pub open spec fn first_bad_column(cells: Seq<Seq<char>>) -> Option<int> {
    if u32_value(cells[ORDER_ID_COLUMN as int]) is None {
        Some(ORDER_ID_COLUMN as int)
    } else if price_value(cells[SHIPPING_COLUMN as int]) is None {
        Some(SHIPPING_COLUMN as int)
    } else if u32_value(cells[QUANTITY_COLUMN as int]) is None {
        Some(QUANTITY_COLUMN as int)
    } else {
        None
    }
}

/// The row that the cells of a line make, or why they make none. The order
/// id and the quantity are unsigned integers, the shipping cost is a price;
/// every other cell is taken as the text it is.
pub open spec fn row_value(cells: Seq<Seq<char>>) -> Result<RowView, RowFault> {
    if cells.len() < COLUMNS {
        Err(RowFault::MissingColumns { row: cells })
    } else {
        match first_bad_column(cells) {
            Some(column) => Err(RowFault::InvalidField { column, text: cells[column], row: cells }),
            None => Ok(
                RowView {
                    order_id: u32_value(cells[0])->0,
                    order_date: cells[1],
                    order_status: cells[2],
                    customer_name: cells[3],
                    order_total: cells[4],
                    order_shipping: price_value(cells[5])->0,
                    payment_gateway: cells[6],
                    shipping_method: cells[7],
                    shipping_address_line_1: cells[8],
                    shipping_address_line_2: cells[9],
                    shipping_postcode: cells[10],
                    billing_phone_number: cells[11],
                    transaction_id: cells[12],
                    product_name: cells[13],
                    quantity: u32_value(cells[14])->0,
                    item_price: cells[15],
                },
            ),
        }
    }
}

/// A copy of the cells of a line.
fn copy_cells(cells: &Vec<String>) -> (r: Vec<String>)
    ensures
        r.deep_view() == cells.deep_view(),
{
    let mut r: Vec<String> = Vec::new();
    let mut i: usize = 0;
    while i < cells.len()
        invariant
            i <= cells.len(),
            r@.len() == i,
            forall|j: int| 0 <= j < i ==> r@[j]@ == cells@[j]@,
        decreases cells.len() - i,
    {
        r.push(cells[i].clone());
        i = i + 1;
    }
    assert(r.deep_view() =~= cells.deep_view());
    r
}

/// Reads the unsigned integer that the cell of a column holds.
pub fn parse_unsigned_field(cell: &str, column: usize) -> (r: Result<u32, FieldParseError>)
    ensures
        match u32_value(cell@) {
            Some(v) => r matches Ok(x) && x == v,
            None => r matches Err(e) && e.column == column && e.text@ == cell@,
        },
{
    match parse_u32(cell) {
        Some(v) => Ok(v),
        None => Err(FieldParseError { column, text: cell.to_owned() }),
    }
}

/// Reads the amount of money that the cell of a column holds.
pub fn parse_amount_field(cell: &str, column: usize) -> (r: Result<Decimal, FieldParseError>)
    ensures
        match price_value(cell@) {
            Some(v) => r matches Ok(x) && x@ == v,
            None => r matches Err(e) && e.column == column && e.text@ == cell@,
        },
{
    match parse_amount(cell) {
        Some(v) => Ok(v),
        None => Err(FieldParseError { column, text: cell.to_owned() }),
    }
}

/// Makes a row of the cells of one line.
pub fn parse_row(cells: &Vec<String>) -> (r: Result<WooCommerceRow, RowParseError>)
    ensures
        match row_value(cells.deep_view()) {
            Ok(row) => r matches Ok(x) && x@ == row,
            Err(fault) => r matches Err(e) && e@ == fault,
        },
{
    let ghost texts = cells.deep_view();
    if cells.len() < COLUMNS {
        return Err(RowParseError::MissingColumns { row: copy_cells(cells) });
    }
    assert(forall|j: int| 0 <= j < 16 ==> texts[j] == cells@[j]@);
    let order_id: u32 = match parse_unsigned_field(
        cells[ORDER_ID_COLUMN].as_str(),
        ORDER_ID_COLUMN,
    ) {
        Ok(v) => v,
        Err(error) => {
            return Err(RowParseError::InvalidField { error, row: copy_cells(cells) });
        },
    };
    let order_shipping: Decimal = match parse_amount_field(
        cells[SHIPPING_COLUMN].as_str(),
        SHIPPING_COLUMN,
    ) {
        Ok(v) => v,
        Err(error) => {
            return Err(RowParseError::InvalidField { error, row: copy_cells(cells) });
        },
    };
    let quantity: u32 = match parse_unsigned_field(
        cells[QUANTITY_COLUMN].as_str(),
        QUANTITY_COLUMN,
    ) {
        Ok(v) => v,
        Err(error) => {
            return Err(RowParseError::InvalidField { error, row: copy_cells(cells) });
        },
    };
    Ok(
        WooCommerceRow {
            order_id,
            order_date: cells[1].clone(),
            order_status: cells[2].clone(),
            customer_name: cells[3].clone(),
            order_total: cells[4].clone(),
            order_shipping,
            payment_gateway: cells[6].clone(),
            shipping_method: cells[7].clone(),
            shipping_address_line_1: cells[8].clone(),
            shipping_address_line_2: cells[9].clone(),
            shipping_postcode: cells[10].clone(),
            billing_phone_number: cells[11].clone(),
            _transaction_id: cells[12].clone(),
            product_name: cells[13].clone(),
            quantity,
            item_price: cells[15].clone(),
        },
    )
}

} // verus!
