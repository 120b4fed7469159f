//! An order with its packages, and the lines printed under each package.

use crate::decimal::{lemma_decimal_order, pow10, Decimal, DecimalView};
use crate::price::{Price, PriceView};
use crate::text::{nat_text, number_text};
use vstd::prelude::*;
use vstd::string::StringExecFns;

verus! {

/// An order whose total is at most this goes out in one package.
pub const SINGLE_PACKAGE_LIMIT: u32 = 40;

/// An order whose total is above [`SINGLE_PACKAGE_LIMIT`] and at most this
/// goes out in two packages; a dearer one in three.
pub const DOUBLE_PACKAGE_LIMIT: u32 = 70;

/// One item of an order.
#[derive(Debug)]
pub struct OrderItem {
    pub product_name: String,
    pub quantity: u32,
    pub item_price: Decimal,
}

/// What an [`OrderItem`] holds.
pub struct ItemView {
    pub product_name: Seq<char>,
    pub quantity: u32,
    pub item_price: DecimalView,
}

impl View for OrderItem {
    type V = ItemView;

    open spec fn view(&self) -> ItemView {
        ItemView {
            product_name: self.product_name@,
            quantity: self.quantity,
            item_price: self.item_price@,
        }
    }
}

impl DeepView for OrderItem {
    type V = ItemView;

    open spec fn deep_view(&self) -> ItemView {
        self@
    }
}

impl Clone for OrderItem {
    fn clone(&self) -> (res: Self)
        ensures
            res@ == self@,
    {
        OrderItem {
            product_name: self.product_name.clone(),
            quantity: self.quantity,
            item_price: self.item_price.clone(),
        }
    }
}

/// An order: what its first line says of it, and its items in packages.
#[derive(Debug)]
pub struct OrderDetails {
    pub order_id: u32,
    pub customer_name: String,
    pub order_total: Price,
    pub delivery: String,
    pub payment_gateway: String,
    pub shipping_address_line_1: String,
    pub shipping_address_line_2: String,
    pub shipping_postcode: String,
    pub order_date: String,
    pub billing_phone_number: String,
    pub packages: Vec<Vec<OrderItem>>,
}

/// What an [`OrderDetails`] holds.
pub struct OrderView {
    pub order_id: u32,
    pub customer_name: Seq<char>,
    pub order_total: PriceView,
    pub delivery: Seq<char>,
    pub payment_gateway: Seq<char>,
    pub shipping_address_line_1: Seq<char>,
    pub shipping_address_line_2: Seq<char>,
    pub shipping_postcode: Seq<char>,
    pub order_date: Seq<char>,
    pub billing_phone_number: Seq<char>,
    pub packages: Seq<Seq<ItemView>>,
}

impl View for OrderDetails {
    type V = OrderView;

    open spec fn view(&self) -> OrderView {
        OrderView {
            order_id: self.order_id,
            customer_name: self.customer_name@,
            order_total: self.order_total@,
            delivery: self.delivery@,
            payment_gateway: self.payment_gateway@,
            shipping_address_line_1: self.shipping_address_line_1@,
            shipping_address_line_2: self.shipping_address_line_2@,
            shipping_postcode: self.shipping_postcode@,
            order_date: self.order_date@,
            billing_phone_number: self.billing_phone_number@,
            packages: self.packages.deep_view(),
        }
    }
}

impl DeepView for OrderDetails {
    type V = OrderView;

    open spec fn deep_view(&self) -> OrderView {
        self@
    }
}

impl Clone for OrderDetails {
    fn clone(&self) -> (res: Self)
        ensures
            res@ == self@,
    {
        let mut packages: Vec<Vec<OrderItem>> = Vec::new();
        let mut i: usize = 0;
        while i < self.packages.len()
            invariant
                i <= self.packages.len(),
                packages.len() == i,
                forall|k: int|
                    0 <= k < i ==> (#[trigger] packages[k]).deep_view()
                        == self.packages[k].deep_view(),
            decreases self.packages.len() - i,
        {
            let package = &self.packages[i];
            let mut items: Vec<OrderItem> = Vec::new();
            let mut j: usize = 0;
            while j < package.len()
                invariant
                    j <= package.len(),
                    items.len() == j,
                    forall|k: int| 0 <= k < j ==> (#[trigger] items[k])@ == package[k]@,
                decreases package.len() - j,
            {
                items.push(package[j].clone());
                j = j + 1;
            }
            assert(items.deep_view() =~= package.deep_view());
            packages.push(items);
            i = i + 1;
        }
        assert(packages.deep_view() =~= self.packages.deep_view());
        OrderDetails {
            order_id: self.order_id,
            customer_name: self.customer_name.clone(),
            order_total: self.order_total.clone(),
            delivery: self.delivery.clone(),
            payment_gateway: self.payment_gateway.clone(),
            shipping_address_line_1: self.shipping_address_line_1.clone(),
            shipping_address_line_2: self.shipping_address_line_2.clone(),
            shipping_postcode: self.shipping_postcode.clone(),
            order_date: self.order_date.clone(),
            billing_phone_number: self.billing_phone_number.clone(),
            packages,
        }
    }
}

/// One line under a package: a label and what stands beside it.
#[derive(Debug)]
pub struct DeliveryDetail {
    pub name: &'static str,
    pub data: String,
    pub highlight: bool,
}

/// What a [`DeliveryDetail`] holds.
pub struct DetailView {
    pub name: Seq<char>,
    pub data: Seq<char>,
    pub highlight: bool,
}

impl View for DeliveryDetail {
    type V = DetailView;

    open spec fn view(&self) -> DetailView {
        DetailView { name: self.name@, data: self.data@, highlight: self.highlight }
    }
}

impl DeepView for DeliveryDetail {
    type V = DetailView;

    open spec fn deep_view(&self) -> DetailView {
        self@
    }
}

impl Clone for DeliveryDetail {
    fn clone(&self) -> (res: Self)
        ensures
            res@ == self@,
    {
        DeliveryDetail { name: self.name, data: self.data.clone(), highlight: self.highlight }
    }
}

/// How a shipping cost reads on a label: a cost of zero means that the
/// customer fetches the order; any other cost is written out, followed by
/// the currency.
pub open spec fn delivery_text(shipping: DecimalView) -> Seq<char> {
    if shipping.is_zero() {
        "local pick up"@
    } else {
        shipping.text() + " €"@
    }
}

/// Into how many packages an order of the given total is meant to go.
pub open spec fn package_count_of(total: DecimalView) -> int {
    if total.le_int(SINGLE_PACKAGE_LIMIT as nat) {
        1
    } else if total.le_int(DOUBLE_PACKAGE_LIMIT as nat) {
        2
    } else {
        3
    }
}

/// The number of packages goes by the total as a number: one package up to
/// the first limit, two above it and up to the second, three above that.
/// The total is held against the limits with its point moved behind its
/// last digit.
pub proof fn lemma_package_count_by_total(total: DecimalView)
    requires
        total.normal(),
    ensures
        total.scaled() <= SINGLE_PACKAGE_LIMIT * pow10(total.fraction.len()) ==> package_count_of(
            total,
        ) == 1,
        SINGLE_PACKAGE_LIMIT * pow10(total.fraction.len()) < total.scaled() <= DOUBLE_PACKAGE_LIMIT
            * pow10(total.fraction.len()) ==> package_count_of(total) == 2,
        total.scaled() > DOUBLE_PACKAGE_LIMIT * pow10(total.fraction.len()) ==> package_count_of(
            total,
        ) == 3,
{
    lemma_decimal_order(total, SINGLE_PACKAGE_LIMIT as nat);
    lemma_decimal_order(total, DOUBLE_PACKAGE_LIMIT as nat);
}

/// How many items a package takes, when `items` items are meant to go into
/// `packages` packages: the quotient, and one more if anything is left.
pub open spec fn package_size_of(items: int, packages: int) -> int {
    if items % packages > 0 {
        items / packages + 1
    } else {
        items / packages
    }
}

/// The name that the package with index `i` carries: none on the first
/// package, the customer's on the others.
pub open spec fn package_name_of(order: OrderView, i: int) -> Seq<char> {
    if i == 0 {
        Seq::empty()
    } else {
        order.customer_name
    }
}

/// The line that numbers the package with index `i`.
pub open spec fn package_line(order: OrderView, i: int) -> Seq<char> {
    package_name_of(order, i) + " COLLO "@ + nat_text((i + 1) as nat) + " DI "@ + nat_text(
        order.packages.len(),
    )
}

/// The lines under the package with index `i`: under the last package the
/// delivery, the payment method and the total; and under every package of
/// an order that has more than one, the line that numbers it.
pub open spec fn delivery_details_of(order: OrderView, i: int) -> Seq<DetailView> {
    let totals = if i + 1 == order.packages.len() {
        seq![
            DetailView { name: "Consegna"@, data: order.delivery, highlight: false },
            DetailView {
                name: "Metodo  Pagamento"@,
                data: order.payment_gateway,
                highlight: false,
            },
            DetailView {
                name: "Totale"@,
                data: order.order_total.display + "€"@,
                highlight: false,
            },
        ]
    } else {
        Seq::empty()
    };
    let number = if order.packages.len() > 1 {
        seq![DetailView { name: ""@, data: package_line(order, i), highlight: true }]
    } else {
        Seq::empty()
    };
    totals + number
}

/// Turns a vector into a boxed slice.
///
/// Trusted: this is `Vec::into_boxed_slice`, which keeps the items and
/// their order.
#[verifier::external_body]
fn into_boxed(details: Vec<DeliveryDetail>) -> (boxed: Box<[DeliveryDetail]>)
    ensures
        boxed@ == details@,
{
    details.into_boxed_slice()
}

/// Into how many packages an order of the given total is meant to go.
pub fn package_count(total: &Decimal) -> (count: usize)
    ensures
        count == package_count_of(total@),
        1 <= count <= 3,
{
    if total.le_int(SINGLE_PACKAGE_LIMIT) {
        1
    } else if total.le_int(DOUBLE_PACKAGE_LIMIT) {
        2
    } else {
        3
    }
}

/// How many items a package takes.
pub fn package_size(items: usize, packages: usize) -> (size: usize)
    requires
        packages > 0,
    ensures
        size == package_size_of(items as int, packages as int),
        items > 0 ==> size > 0,
        size <= items,
{
    let base: usize = items / packages;
    let remainder: usize = items % packages;
    assert(remainder > 0 ==> base < items && base + 1 > 0) by (nonlinear_arith)
        requires
            packages > 0,
            base == items / packages,
            remainder == items % packages,
    ;
    assert(items > 0 && remainder == 0 ==> base > 0) by (nonlinear_arith)
        requires
            packages > 0,
            base == items / packages,
            remainder == items % packages,
    ;
    assert(base <= items) by (nonlinear_arith)
        requires
            packages > 0,
            base == items / packages,
    ;
    if remainder > 0 {
        base + 1
    } else {
        base
    }
}

impl OrderDetails {
    /// The lines under the package with index `i`.
    pub fn delivery_details(&self, i: usize) -> (details: Box<[DeliveryDetail]>)
        requires
            i < usize::MAX,
        ensures
            details.deep_view() == delivery_details_of(self@, i as int),
    {
        let count: usize = self.packages.len();
        let show_package_number: bool = count > 1;
        let show_totals: bool = i + 1 == count;
        let mut details: Vec<DeliveryDetail> = Vec::new();
        if show_totals {
            let mut total = self.order_total.display.clone();
            total.append("€");
            details.push(
                DeliveryDetail { name: "Consegna", data: self.delivery.clone(), highlight: false },
            );
            details.push(
                DeliveryDetail {
                    name: "Metodo  Pagamento",
                    data: self.payment_gateway.clone(),
                    highlight: false,
                },
            );
            details.push(DeliveryDetail { name: "Totale", data: total, highlight: false });
        }
        if show_package_number {
            let mut line = String::from_str(self.package_name(i));
            line.append(" COLLO ");
            line.append(number_text(i + 1).as_str());
            line.append(" DI ");
            line.append(number_text(count).as_str());
            details.push(DeliveryDetail { name: "", data: line, highlight: true });
        }
        let boxed = into_boxed(details);
        assert(boxed.deep_view() =~= delivery_details_of(self@, i as int));
        boxed
    }

    /// The barcode of each item in the package with index `i`, for the
    /// label to print: what `lookup` finds under the item's product name.
    /// Without a lookup no item has a barcode, and a package that is not
    /// there has no items.
    pub fn barcodes<F>(&self, i: usize, lookup: Option<&F>) -> (codes: Vec<Option<String>>) where
        F: Fn(&str) -> Option<String>,

        requires
            lookup matches Some(f) ==> forall|name: &str| call_requires(*f, (name,)),
        ensures
            i < self.packages.len() ==> codes.len() == self.packages[i as int].len(),
            i >= self.packages.len() ==> codes.len() == 0,
            forall|j: int|
                0 <= j < codes.len() ==> match lookup {
                    None => (#[trigger] codes[j]) is None,
                    Some(f) => exists|name: &str|
                        name@ == self.packages[i as int][j].product_name@ && call_ensures(
                            *f,
                            (name,),
                            #[trigger] codes[j],
                        ),
                },
    {
        let mut codes: Vec<Option<String>> = Vec::new();
        if i >= self.packages.len() {
            return codes;
        }
        let package = &self.packages[i];
        let mut j: usize = 0;
        while j < package.len()
            invariant
                j <= package.len(),
                codes.len() == j,
                i < self.packages.len(),
                *package == self.packages[i as int],
                lookup matches Some(f) ==> forall|name: &str| call_requires(*f, (name,)),
                forall|m: int|
                    0 <= m < j ==> match lookup {
                        None => (#[trigger] codes[m]) is None,
                        Some(f) => exists|name: &str|
                            name@ == package[m].product_name@ && call_ensures(
                                *f,
                                (name,),
                                #[trigger] codes[m],
                            ),
                    },
            decreases package.len() - j,
        {
            let code: Option<String> = match lookup {
                None => None,
                Some(f) => f(package[j].product_name.as_str()),
            };
            codes.push(code);
            j = j + 1;
        }
        codes
    }

    /// The name that the package with index `index` carries.
    pub fn package_name(&self, index: usize) -> (name: &str)
        ensures
            name@ == package_name_of(self@, index as int),
    {
        if index == 0 {
            proof {
                reveal_strlit("");
            }
            ""
        } else {
            self.customer_name.as_str()
        }
    }
}

} // verus!
