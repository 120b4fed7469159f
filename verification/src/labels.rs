//! From rows to orders: each run of rows becomes an order, and its items
//! go into packages.

use crate::grouping::{
    chunk_items, group_by_order, is_chunking, is_run_partition, is_stable_sort, item_name, keyed,
    lemma_chunk_count, lemma_chunking_is_unique, lemma_order_runs_are_runs, lemma_runs_unique,
    lemma_sort_keeps_members, lemma_stable_sort_is_unique, order_runs, row_name,
    sort_by_product_name,
};
use crate::decimal::Decimal;
use crate::input::InputData;
use crate::order::{
    delivery_text, package_count, package_count_of, package_size, package_size_of, ItemView,
    OrderDetails, OrderItem, OrderView,
};
use crate::price::{price_value, Price, PriceParseError, PriceView};
use crate::row::{RowView, WooCommerceRow};
use vstd::prelude::*;
use vstd::string::StringExecFns;

verus! {

/// The item that a row stands for. Its price is the number that the row's
/// price text denotes.
pub open spec fn item_value(row: RowView) -> ItemView {
    ItemView {
        product_name: row.product_name,
        quantity: row.quantity,
        item_price: price_value(row.item_price)->0,
    }
}

/// The items that rows stand for, in the order of the rows.
pub open spec fn items_of(rows: Seq<RowView>) -> Seq<ItemView> {
    Seq::new(rows.len(), |i: int| item_value(rows[i]))
}

/// Every price that an order is made from denotes a number: the total on
/// the first row of the run, and the item price on each row.
pub open spec fn prices_valid(run: Seq<RowView>) -> bool {
    &&& price_value(run[0].order_total) is Some
    &&& forall|j: int| 0 <= j < run.len() ==> price_value((#[trigger] run[j]).item_price) is Some
}

/// Every run of `rows` has valid prices.
pub open spec fn all_prices_valid(rows: Seq<RowView>) -> bool {
    forall|k: int| 0 <= k < order_runs(rows).len() ==> prices_valid(#[trigger] order_runs(rows)[k])
}

/// `order` is the order that `run` makes. Its head is taken from the first
/// row. Its items, read package after package, are the items of the run
/// sorted by product name, items of one name in the order of their rows.
/// Its packages have the size that the total and the number of items give,
/// but the last, which has what is left.
pub open spec fn order_matches(run: Seq<RowView>, order: OrderView) -> bool {
    let head = run[0];
    let items = order.packages.flatten();
    &&& order.order_id == head.order_id
    &&& order.customer_name == head.customer_name
    &&& order.order_total == (PriceView {
        value: price_value(head.order_total)->0,
        display: head.order_total,
    })
    &&& order.delivery == delivery_text(head.order_shipping)
    &&& order.payment_gateway == head.payment_gateway
    &&& order.shipping_address_line_1 == head.shipping_address_line_1
    &&& order.shipping_address_line_2 == head.shipping_address_line_2
    &&& order.shipping_postcode == head.shipping_postcode
    &&& order.order_date == head.order_date
    &&& order.billing_phone_number == head.billing_phone_number
    &&& is_stable_sort(items_of(run), items, item_name())
    &&& is_chunking(
        items,
        order.packages,
        package_size_of(run.len() as int, package_count_of(order.order_total.value)),
    )
}

/// The row at `j` is the first of `rows` whose price text denotes no
/// number.
pub open spec fn first_bad_price(rows: Seq<RowView>, j: int) -> bool {
    &&& 0 <= j < rows.len()
    &&& price_value(rows[j].item_price) is None
    &&& forall|i: int| 0 <= i < j ==> price_value((#[trigger] rows[i]).item_price) is Some
}

/// `text` is the price text on which the order of `run` fails: the total
/// if that denotes no number; if it does, the first item price that denotes
/// none, the rows taken in order of their product names.
pub open spec fn fails_with(run: Seq<RowView>, text: Seq<char>) -> bool {
    if price_value(run[0].order_total) is None {
        text == run[0].order_total
    } else {
        exists|sorted: Seq<RowView>, j: int|
            is_stable_sort(run, sorted, row_name()) && #[trigger] first_bad_price(sorted, j) && text
                == sorted[j].item_price
    }
}

/// `orders` are the orders that `rows` make, one for each run and in the
/// order of the runs.
pub open spec fn labels_match(rows: Seq<RowView>, orders: Seq<OrderView>) -> bool {
    &&& orders.len() == order_runs(rows).len()
    &&& forall|k: int|
        0 <= k < orders.len() ==> order_matches(order_runs(rows)[k], #[trigger] orders[k])
}

/// `text` is the price text on which the first run fails that fails.
pub open spec fn labels_fail(rows: Seq<RowView>, text: Seq<char>) -> bool {
    exists|k: int|
        {
            &&& 0 <= k < order_runs(rows).len()
            &&& forall|i: int| 0 <= i < k ==> prices_valid(#[trigger] order_runs(rows)[i])
            &&& #[trigger] fails_with(order_runs(rows)[k], text)
        }
}

/// The items of the rows of one name are the items of that name.
proof fn lemma_keyed_items(rows: Seq<RowView>, k: Seq<char>)
    ensures
        keyed(items_of(rows), item_name(), k) == items_of(keyed(rows, row_name(), k)),
    decreases rows.len(),
{
    if rows.len() == 0 {
        assert(keyed(items_of(rows), item_name(), k) =~= items_of(keyed(rows, row_name(), k)));
    } else {
        lemma_keyed_items(rows.drop_last(), k);
        assert(items_of(rows).drop_last() =~= items_of(rows.drop_last()));
        assert(items_of(rows).last() == item_value(rows.last()));
        let kept = keyed(rows.drop_last(), row_name(), k);
        assert(items_of(kept.push(rows.last())) =~= items_of(kept).push(item_value(rows.last())));
    }
}

/// Rows sorted by name stand for items sorted by name.
proof fn lemma_sort_carries_to_items(run: Seq<RowView>, sorted: Seq<RowView>)
    requires
        is_stable_sort(run, sorted, row_name()),
    ensures
        is_stable_sort(items_of(run), items_of(sorted), item_name()),
{
    let items = items_of(sorted);
    assert forall|i: int, j: int| 0 <= i <= j < items.len() implies str_le_of(
        #[trigger] items[i],
        #[trigger] items[j],
    ) by {
        assert(crate::text::str_le(row_name()(sorted[i]), row_name()(sorted[j])));
    }
    assert forall|k: Seq<char>| #[trigger]
        keyed(items_of(sorted), item_name(), k) == keyed(items_of(run), item_name(), k) by {
        lemma_keyed_items(sorted, k);
        lemma_keyed_items(run, k);
        assert(keyed(sorted, row_name(), k) == keyed(run, row_name(), k));
    }
}

/// The first item is named at most as the second.
spec fn str_le_of(a: ItemView, b: ItemView) -> bool {
    crate::text::str_le(item_name()(a), item_name()(b))
}

/// Reads the item of each row. Stops at the first price that denotes no
/// number.
fn read_items(rows: &Vec<&WooCommerceRow>) -> (r: Result<Vec<OrderItem>, PriceParseError>)
    ensures
        match r {
            Ok(items) => {
                &&& items.deep_view() == items_of(rows.deep_view())
                &&& forall|j: int|
                    0 <= j < rows.len() ==> price_value(
                        (#[trigger] rows.deep_view()[j]).item_price,
                    ) is Some
            },
            Err(e) => exists|j: int| #[trigger]
                first_bad_price(rows.deep_view(), j) && e.0@ == rows.deep_view()[j].item_price,
        },
{
    let ghost views = rows.deep_view();
    let mut items: Vec<OrderItem> = Vec::new();
    let mut j: usize = 0;
    assert(items.deep_view() =~= items_of(views.take(0)));
    while j < rows.len()
        invariant
            j <= rows.len(),
            views == rows.deep_view(),
            items.deep_view() == items_of(views.take(j as int)),
            forall|i: int| 0 <= i < j ==> price_value((#[trigger] views[i]).item_price) is Some,
        decreases rows.len() - j,
    {
        let row: &WooCommerceRow = rows[j];
        assert(views[j as int] == row@);
        match Price::parse(row.item_price.as_str()) {
            Ok(price) => {
                let item = OrderItem {
                    product_name: row.product_name.clone(),
                    quantity: row.quantity,
                    item_price: price.value,
                };
                let ghost before = items.deep_view();
                items.push(item);
                assert(items.deep_view() =~= before.push(item_value(views[j as int])));
                assert(items_of(views.take(j + 1)) =~= items_of(views.take(j as int)).push(
                    item_value(views[j as int]),
                ));
            },
            Err(e) => {
                assert(first_bad_price(views, j as int));
                return Err(e);
            },
        }
        j = j + 1;
    }
    assert(views.take(j as int) == views);
    Ok(items)
}

/// Makes the order of one run of rows.
fn build_order(run: &Vec<&WooCommerceRow>) -> (r: Result<OrderDetails, PriceParseError>)
    requires
        run.len() > 0,
    ensures
        match r {
            Ok(order) => prices_valid(run.deep_view()) && order_matches(run.deep_view(), order@),
            Err(e) => !prices_valid(run.deep_view()) && fails_with(run.deep_view(), e.0@),
        },
{
    let ghost rows = run.deep_view();
    let head: &WooCommerceRow = run[0];
    assert(rows[0] == head@);
    let order_total = match Price::parse(head.order_total.as_str()) {
        Ok(price) => price,
        Err(e) => {
            return Err(e);
        },
    };
    let sorted = sort_by_product_name(run);
    let ghost sorted_rows = sorted.deep_view();
    let items = match read_items(&sorted) {
        Ok(items) => items,
        Err(e) => {
            proof {
                let j = choose|j: int| #[trigger]
                    first_bad_price(sorted_rows, j) && e.0@ == sorted_rows[j].item_price;
                assert(fails_with(rows, e.0@));
                lemma_failure_means_bad_price(rows, e.0@);
            }
            return Err(e);
        },
    };
    proof {
        assert forall|j: int| 0 <= j < rows.len() implies price_value(
            (#[trigger] rows[j]).item_price,
        ) is Some by {
            lemma_sort_keeps_members(rows, sorted_rows, row_name(), j);
            let at = choose|m: int| 0 <= m < sorted_rows.len() && sorted_rows[m] == rows[j];
            assert(price_value(sorted_rows[at].item_price) is Some);
        }
        lemma_sort_carries_to_items(rows, sorted_rows);
    }
    let count: usize = package_count(&order_total.value);
    let size: usize = package_size(run.len(), count);
    let packages = chunk_items(items, size);
    let order = OrderDetails {
        order_id: head.order_id,
        customer_name: head.customer_name.clone(),
        shipping_address_line_1: head.shipping_address_line_1.clone(),
        shipping_address_line_2: head.shipping_address_line_2.clone(),
        shipping_postcode: head.shipping_postcode.clone(),
        billing_phone_number: head.billing_phone_number.clone(),
        payment_gateway: head.payment_gateway.clone(),
        order_date: head.order_date.clone(),
        order_total,
        delivery: InputData::map_shipping_to_delivery(&head.order_shipping),
        packages,
    };
    Ok(order)
}

impl InputData {
    /// How a shipping cost reads on a label.
    pub fn map_shipping_to_delivery(order_shipping: &Decimal) -> (text: String)
        ensures
            text@ == delivery_text(order_shipping@),
    {
        if order_shipping.is_zero() {
            "local pick up".to_owned()
        } else {
            let mut text = order_shipping.text();
            text.append(" €");
            text
        }
    }

    /// The orders of the export, each with its packages. Rows that follow
    /// one another under one order id make one order; the orders come in
    /// the order of their first rows. A price text that denotes no number
    /// fails the whole export, and is handed back in the error.
    pub fn labels(&self) -> (r: Result<Vec<OrderDetails>, PriceParseError>)
        ensures
            match r {
                Ok(orders) => labels_match(self.data.deep_view(), orders.deep_view()),
                Err(e) => labels_fail(self.data.deep_view(), e.0@),
            },
            r is Ok <==> all_prices_valid(self.data.deep_view()),
            self.data.len() == 0 ==> (r matches Ok(orders) && orders.len() == 0),
    {
        let ghost rows = self.data.deep_view();
        let groups = group_by_order(&self.data);
        let ghost runs = groups.deep_view();
        proof {
            lemma_runs_unique(rows, runs);
        }
        let mut result: Vec<OrderDetails> = Vec::new();
        let mut k: usize = 0;
        while k < groups.len()
            invariant
                k <= groups.len(),
                rows == self.data.deep_view(),
                runs == groups.deep_view(),
                runs == order_runs(rows),
                is_run_partition(rows, runs),
                result.len() == k,
                forall|i: int| 0 <= i < k ==> prices_valid(#[trigger] runs[i]),
                forall|i: int|
                    0 <= i < k ==> order_matches(runs[i], #[trigger] result.deep_view()[i]),
            decreases groups.len() - k,
        {
            let run = &groups[k];
            assert(run.deep_view() == runs[k as int]);
            assert(runs[k as int].len() > 0);
            match build_order(run) {
                Ok(order) => {
                    let ghost before = result.deep_view();
                    result.push(order);
                    assert(result.deep_view() =~= before.push(order@));
                },
                Err(e) => {
                    assert(fails_with(order_runs(rows)[k as int], e.0@));
                    return Err(e);
                },
            }
            k = k + 1;
        }
        Ok(result)
    }
}

/// How many of `rows` carry the order id `id`.
pub open spec fn rows_of_order(rows: Seq<RowView>, id: u32) -> nat
    decreases rows.len(),
{
    if rows.len() == 0 {
        0
    } else if rows.last().order_id == id {
        rows_of_order(rows.drop_last(), id) + 1
    } else {
        rows_of_order(rows.drop_last(), id)
    }
}

/// The rows of each order stand together: between two rows of one order
/// id stands no row of another.
pub open spec fn orders_unbroken(rows: Seq<RowView>) -> bool {
    forall|i: int, m: int, j: int|
        0 <= i <= m <= j < rows.len() && (#[trigger] rows[i]).order_id == (
        #[trigger] rows[j]).order_id ==> (#[trigger] rows[m]).order_id == rows[i].order_id
}

/// There are enough items to fill the packages that are meant: any number
/// for one package, two or more for two, and three, or five or more, for
/// three.
pub open spec fn fills_packages(items: int, packages: int) -> bool {
    ||| packages == 1
    ||| packages == 2 && items >= 2
    ||| packages == 3 && (items == 3 || items >= 5)
}

/// An order goes out in as many packages as its total asks for, where it
/// has enough items to fill them.
pub proof fn lemma_package_count(run: Seq<RowView>, order: OrderView)
    requires
        run.len() > 0,
        order_matches(run, order),
        fills_packages(run.len() as int, package_count_of(order.order_total.value)),
    ensures
        order.packages.len() == package_count_of(order.order_total.value),
{
    let items = run.len() as int;
    let count = package_count_of(order.order_total.value);
    let size = package_size_of(items, count);
    let made = order.packages.len() as int;
    assert(order.packages.flatten().len() == items);
    assert(size > 0);
    lemma_chunk_count(order.packages.flatten(), order.packages, size);
    assert(made >= 1);
    if count == 1 {
        assert(size == items);
        assert(made <= 1) by (nonlinear_arith)
            requires
                (made - 1) * size < size,
                size > 0,
        ;
    } else if count == 2 {
        assert(size < items <= 2 * size);
        assert(made <= 2) by (nonlinear_arith)
            requires
                (made - 1) * size < 2 * size,
                size > 0,
        ;
        assert(made > 1) by (nonlinear_arith)
            requires
                size < made * size,
                size > 0,
        ;
    } else {
        assert(2 * size < items <= 3 * size);
        assert(made <= 3) by (nonlinear_arith)
            requires
                (made - 1) * size < 3 * size,
                size > 0,
        ;
        assert(made > 2) by (nonlinear_arith)
            requires
                2 * size < made * size,
                size > 0,
        ;
    }
}

/// However many items it has, an order goes out in one package at least,
/// and in no more than its total asks for, which is three at most.
pub proof fn lemma_package_count_bounds(run: Seq<RowView>, order: OrderView)
    requires
        run.len() > 0,
        order_matches(run, order),
    ensures
        1 <= order.packages.len() <= package_count_of(order.order_total.value) <= 3,
{
    let items = run.len() as int;
    let count = package_count_of(order.order_total.value);
    let size = package_size_of(items, count);
    let made = order.packages.len() as int;
    assert(order.packages.flatten().len() == items);
    assert(size > 0);
    assert(items <= count * size);
    lemma_chunk_count(order.packages.flatten(), order.packages, size);
    assert(made <= count) by (nonlinear_arith)
        requires
            (made - 1) * size < count * size,
            size > 0,
    ;
}

/// The rows decide the orders: two lists of orders that both match the
/// rows are one list.
pub proof fn lemma_labels_are_unique(rows: Seq<RowView>, a: Seq<OrderView>, b: Seq<OrderView>)
    requires
        labels_match(rows, a),
        labels_match(rows, b),
    ensures
        a == b,
{
    lemma_order_runs_are_runs(rows);
    assert forall|k: int| 0 <= k < a.len() implies #[trigger] a[k] == b[k] by {
        let run = order_runs(rows)[k];
        assert(order_matches(run, a[k]));
        assert(order_matches(run, b[k]));
        assert(run.len() > 0);
        let items = a[k].packages.flatten();
        lemma_stable_sort_is_unique(items_of(run), items, b[k].packages.flatten(), item_name());
        let size = package_size_of(
            run.len() as int,
            package_count_of(a[k].order_total.value),
        );
        assert(size > 0);
        lemma_chunking_is_unique(items, a[k].packages, b[k].packages, size);
    }
    assert(a =~= b);
}

/// A run that fails on a price text has a price that is not valid.
pub proof fn lemma_failure_means_bad_price(run: Seq<RowView>, text: Seq<char>)
    requires
        fails_with(run, text),
    ensures
        !prices_valid(run),
{
    if price_value(run[0].order_total) is Some {
        let (sorted, j) = choose|sorted: Seq<RowView>, j: int|
            is_stable_sort(run, sorted, row_name()) && #[trigger] first_bad_price(sorted, j) && text
                == sorted[j].item_price;
        lemma_sort_keeps_members(sorted, run, row_name(), j);
        let at = choose|m: int| 0 <= m < run.len() && run[m] == sorted[j];
        assert(price_value(run[at].item_price) is None);
    }
}

/// The rows decide on which price text they fail: two texts on which the
/// same rows fail are one text.
pub proof fn lemma_failure_is_unique(rows: Seq<RowView>, a: Seq<char>, b: Seq<char>)
    requires
        labels_fail(rows, a),
        labels_fail(rows, b),
    ensures
        a == b,
{
    let runs = order_runs(rows);
    let k = choose|k: int|
        {
            &&& 0 <= k < order_runs(rows).len()
            &&& forall|i: int| 0 <= i < k ==> prices_valid(#[trigger] order_runs(rows)[i])
            &&& #[trigger] fails_with(order_runs(rows)[k], a)
        };
    let l = choose|l: int|
        {
            &&& 0 <= l < order_runs(rows).len()
            &&& forall|i: int| 0 <= i < l ==> prices_valid(#[trigger] order_runs(rows)[i])
            &&& #[trigger] fails_with(order_runs(rows)[l], b)
        };
    lemma_failure_means_bad_price(runs[k], a);
    lemma_failure_means_bad_price(runs[l], b);
    assert(k == l);
    let run = runs[k];
    if price_value(run[0].order_total) is Some {
        let (first, i) = choose|sorted: Seq<RowView>, j: int|
            is_stable_sort(run, sorted, row_name()) && #[trigger] first_bad_price(sorted, j) && a
                == sorted[j].item_price;
        let (second, j) = choose|sorted: Seq<RowView>, j: int|
            is_stable_sort(run, sorted, row_name()) && #[trigger] first_bad_price(sorted, j) && b
                == sorted[j].item_price;
        lemma_stable_sort_is_unique(run, first, second, row_name());
        assert(i == j);
    }
}

/// Read package after package, the items of an order are the items of its
/// rows in order of their product names.
pub proof fn lemma_packages_keep_name_order(rows: Seq<RowView>, orders: Seq<OrderView>, k: int)
    requires
        labels_match(rows, orders),
        0 <= k < orders.len(),
    ensures
        is_stable_sort(items_of(order_runs(rows)[k]), orders[k].packages.flatten(), item_name()),
        orders[k].packages.flatten().len() == order_runs(rows)[k].len(),
{
}

/// Where some row carries the order id, `rows_of_order` counts one at
/// least, and the other way round.
proof fn lemma_rows_of_order_found(rows: Seq<RowView>, id: u32)
    ensures
        rows_of_order(rows, id) > 0 <==> exists|p: int|
            0 <= p < rows.len() && (#[trigger] rows[p]).order_id == id,
    decreases rows.len(),
{
    if rows.len() > 0 {
        let front = rows.drop_last();
        lemma_rows_of_order_found(front, id);
        if rows_of_order(rows, id) > 0 {
            if rows.last().order_id == id {
                assert(rows[rows.len() - 1].order_id == id);
            } else {
                let p = choose|p: int| 0 <= p < front.len() && (#[trigger] front[p]).order_id == id;
                assert(rows[p].order_id == id);
            }
        }
        if exists|p: int| 0 <= p < rows.len() && (#[trigger] rows[p]).order_id == id {
            let p = choose|p: int| 0 <= p < rows.len() && (#[trigger] rows[p]).order_id == id;
            if p < front.len() {
                assert(front[p].order_id == id);
            }
        }
    }
}

/// Where the rows of each order stand together, each run is a whole order:
/// it holds every row of its order id, and no other run has that id.
proof fn lemma_runs_are_orders(rows: Seq<RowView>)
    requires
        orders_unbroken(rows),
    ensures
        forall|k: int|
            0 <= k < order_runs(rows).len() ==> (#[trigger] order_runs(rows)[k]).len()
                == rows_of_order(rows, order_runs(rows)[k][0].order_id),
        forall|k: int, l: int|
            0 <= k < l < order_runs(rows).len() ==> (#[trigger] order_runs(rows)[k])[0].order_id != (
            #[trigger] order_runs(rows)[l])[0].order_id,
    decreases rows.len(),
{
    broadcast use Seq::lemma_flatten_push;

    let runs = order_runs(rows);
    if rows.len() > 0 {
        let front = rows.drop_last();
        let row = rows.last();
        let earlier = order_runs(front);
        assert forall|i: int, m: int, j: int|
            0 <= i <= m <= j < front.len() && (#[trigger] front[i]).order_id == (
            #[trigger] front[j]).order_id implies (#[trigger] front[m]).order_id
            == front[i].order_id by {
            assert(rows[i].order_id == rows[j].order_id);
            assert(rows[m].order_id == rows[i].order_id);
        }
        lemma_runs_are_orders(front);
        lemma_order_runs_are_runs(front);
        lemma_order_runs_are_runs(rows);
        if earlier.len() > 0 {
            let tail = earlier.last();
            assert(earlier == earlier.drop_last().push(tail));
            assert(tail.len() > 0);
            assert(front.last() == tail.last());
            assert(earlier[earlier.len() - 1][tail.len() - 1].order_id == tail[0].order_id);
        }
        if earlier.len() > 0 && earlier.last().last().order_id == row.order_id {
            assert forall|k: int| 0 <= k < runs.len() implies (#[trigger] runs[k]).len()
                == rows_of_order(rows, runs[k][0].order_id) by {
                assert(runs[k][0] == earlier[k][0]);
                if k < runs.len() - 1 {
                    assert(runs[k] == earlier[k]);
                    assert(earlier[k][0].order_id != earlier[earlier.len() - 1][0].order_id);
                }
            }
            assert forall|k: int, l: int| 0 <= k < l < runs.len() implies (
            #[trigger] runs[k])[0].order_id != (#[trigger] runs[l])[0].order_id by {
                assert(runs[k][0] == earlier[k][0]);
                assert(runs[l][0] == earlier[l][0]);
            }
        } else {
            assert(runs == earlier.push(seq![row]));
            assert forall|k: int| 0 <= k < earlier.len() implies (#[trigger] earlier[k])[0].order_id
                != row.order_id by {
                if earlier[k][0].order_id == row.order_id {
                    lemma_rows_of_order_found(front, row.order_id);
                    let p = choose|p: int|
                        0 <= p < front.len() && (#[trigger] front[p]).order_id == row.order_id;
                    assert(rows[p].order_id == rows[rows.len() - 1].order_id);
                    assert(rows[rows.len() - 2].order_id == rows[p].order_id);
                    assert(front.last() == rows[rows.len() - 2]);
                }
            }
            assert forall|k: int| 0 <= k < runs.len() implies (#[trigger] runs[k]).len()
                == rows_of_order(rows, runs[k][0].order_id) by {
                if k < earlier.len() {
                    assert(runs[k] == earlier[k]);
                    assert(earlier[k][0].order_id != row.order_id);
                } else {
                    lemma_rows_of_order_found(front, row.order_id);
                    if rows_of_order(front, row.order_id) > 0 {
                        let p = choose|p: int|
                            0 <= p < front.len() && (#[trigger] front[p]).order_id
                                == row.order_id;
                        assert(rows[p].order_id == rows[rows.len() - 1].order_id);
                        assert(rows[rows.len() - 2].order_id == rows[p].order_id);
                        assert(front.last() == rows[rows.len() - 2]);
                        assert(earlier.len() > 0) by {
                            if earlier.len() == 0 {
                                assert(earlier.flatten() =~= Seq::<RowView>::empty());
                            }
                        }
                    }
                }
            }
            assert forall|k: int, l: int| 0 <= k < l < runs.len() implies (
            #[trigger] runs[k])[0].order_id != (#[trigger] runs[l])[0].order_id by {
                assert(runs[k] == earlier[k]);
                if l < earlier.len() {
                    assert(runs[l] == earlier[l]);
                }
            }
        }
    }
}

/// Where the rows of each order stand together, the packages of an order
/// hold as many items as the export has rows with the order's id.
pub proof fn lemma_items_match_rows(rows: Seq<RowView>, orders: Seq<OrderView>, k: int)
    requires
        labels_match(rows, orders),
        orders_unbroken(rows),
        0 <= k < orders.len(),
    ensures
        orders[k].packages.flatten().len() == rows_of_order(rows, orders[k].order_id),
{
    lemma_runs_are_orders(rows);
    let run = order_runs(rows)[k];
    assert(order_matches(run, orders[k]));
    assert(orders[k].packages.flatten().len() == run.len());
}

} // verus!
