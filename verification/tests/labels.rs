use woolabels::{parse_csv, Decimal, InputData, OrderDetails, OrderItem, Price, WooCommerceRow};

fn row(order_id: u32, customer: &str, total: &str, shipping: &str, product: &str, quantity: u32, price: &str) -> WooCommerceRow {
    WooCommerceRow {
        order_id,
        order_date: format!("date of {}", customer),
        order_status: "processing".to_string(),
        customer_name: customer.to_string(),
        order_total: total.to_string(),
        order_shipping: Decimal::parse(shipping).unwrap(),
        payment_gateway: format!("gateway of {}", customer),
        shipping_method: "courier".to_string(),
        shipping_address_line_1: format!("street of {}", customer),
        shipping_address_line_2: format!("floor of {}", customer),
        shipping_postcode: format!("postcode of {}", customer),
        billing_phone_number: format!("phone of {}", customer),
        _transaction_id: String::new(),
        product_name: product.to_string(),
        quantity,
        item_price: price.to_string(),
    }
}

fn order_of(total: &str, products: &[&str]) -> OrderDetails {
    let data = products.iter().map(|product| row(1, "Anna", total, "0", product, 1, "1")).collect();
    let mut orders = InputData { data }.labels().unwrap();
    assert_eq!(orders.len(), 1);
    orders.remove(0)
}

fn names(package: &[OrderItem]) -> Vec<&str> {
    package.iter().map(|item| item.product_name.as_str()).collect()
}

fn sizes(order: &OrderDetails) -> Vec<usize> {
    order.packages.iter().map(|package| package.len()).collect()
}

#[test]
fn four_items_in_the_second_bracket_split_two_and_two() {
    let order = order_of("57,10", &["d", "b", "a", "c"]);
    assert_eq!(sizes(&order), vec![2, 2]);
    assert_eq!(names(&order.packages[0]), vec!["a", "b"]);
    assert_eq!(names(&order.packages[1]), vec!["c", "d"]);
}

#[test]
fn five_items_in_the_second_bracket_split_three_and_two() {
    let order = order_of("57,90", &["e", "d", "c", "b", "a"]);
    assert_eq!(sizes(&order), vec![3, 2]);
    assert_eq!(names(&order.packages[0]), vec!["a", "b", "c"]);
    assert_eq!(names(&order.packages[1]), vec!["d", "e"]);
}

#[test]
fn cheap_order_goes_in_one_package() {
    assert_eq!(sizes(&order_of("40", &["c", "a", "b"])), vec![3]);
    assert_eq!(sizes(&order_of("40,00", &["a"])), vec![1]);
    assert_eq!(sizes(&order_of("0", &["a", "b", "c", "d", "e", "f", "g"])), vec![7]);
    assert_eq!(sizes(&order_of("39,99", &["a", "b"])), vec![2]);
}

#[test]
fn brackets_change_just_above_the_limits() {
    assert_eq!(sizes(&order_of("40,01", &["a", "b", "c", "d", "e", "f"])), vec![3, 3]);
    assert_eq!(sizes(&order_of("70", &["a", "b", "c", "d", "e", "f"])), vec![3, 3]);
    assert_eq!(sizes(&order_of("70,00", &["a", "b", "c", "d", "e", "f"])), vec![3, 3]);
    assert_eq!(sizes(&order_of("70,01", &["a", "b", "c", "d", "e", "f"])), vec![2, 2, 2]);
    assert_eq!(sizes(&order_of("70.5", &["a", "b", "c", "d", "e", "f"])), vec![2, 2, 2]);
}

#[test]
fn dear_order_goes_in_three_packages() {
    assert_eq!(sizes(&order_of("93,20", &["a", "b", "c"])), vec![1, 1, 1]);
    assert_eq!(sizes(&order_of("93,20", &["a", "b", "c", "d", "e"])), vec![2, 2, 1]);
    assert_eq!(sizes(&order_of("93,20", &["a", "b", "c", "d", "e", "f", "g"])), vec![3, 3, 1]);
    assert_eq!(sizes(&order_of("93,20", &["a", "b", "c", "d", "e", "f", "g", "h"])), vec![3, 3, 2]);
}

#[test]
fn too_few_items_make_fewer_packages() {
    assert_eq!(sizes(&order_of("93,20", &["a"])), vec![1]);
    assert_eq!(sizes(&order_of("93,20", &["a", "b"])), vec![1, 1]);
    assert_eq!(sizes(&order_of("93,20", &["a", "b", "c", "d"])), vec![2, 2]);
    assert_eq!(sizes(&order_of("57,10", &["a"])), vec![1]);
}

#[test]
fn items_are_sorted_by_name_across_packages() {
    let order = order_of("93,20", &["pera", "Mela", "uva", "Zucca", "fico", "mela", "anice"]);
    let all: Vec<&str> = order.packages.iter().flat_map(|package| names(package)).collect();
    assert_eq!(all, vec!["Mela", "Zucca", "anice", "fico", "mela", "pera", "uva"]);
}

#[test]
fn items_of_one_name_keep_the_order_of_their_rows() {
    let data = vec![
        row(1, "Anna", "10", "0", "b", 1, "1"),
        row(1, "Anna", "10", "0", "a", 2, "2"),
        row(1, "Anna", "10", "0", "b", 3, "3"),
        row(1, "Anna", "10", "0", "a", 4, "4"),
        row(1, "Anna", "10", "0", "b", 5, "5"),
    ];
    let orders = InputData { data }.labels().unwrap();
    let quantities: Vec<u32> = orders[0].packages[0].iter().map(|item| item.quantity).collect();
    assert_eq!(quantities, vec![2, 4, 1, 3, 5]);
    assert_eq!(names(&orders[0].packages[0]), vec!["a", "a", "b", "b", "b"]);
    assert_eq!(orders[0].packages[0][4].item_price.text(), "5");
}

#[test]
fn order_takes_its_head_from_the_first_row() {
    let data = vec![
        row(7, "Anna", "57,10", "5", "b", 1, "1"),
        row(7, "Berta", "1", "0", "a", 1, "1"),
    ];
    let orders = InputData { data }.labels().unwrap();
    let order = &orders[0];
    assert_eq!(order.order_id, 7);
    assert_eq!(order.customer_name, "Anna");
    assert_eq!(order.order_total.display, "57,10");
    assert_eq!(order.order_total.value.text(), "57.1");
    assert_eq!(order.delivery, "5 €");
    assert_eq!(order.payment_gateway, "gateway of Anna");
    assert_eq!(order.shipping_address_line_1, "street of Anna");
    assert_eq!(order.shipping_address_line_2, "floor of Anna");
    assert_eq!(order.shipping_postcode, "postcode of Anna");
    assert_eq!(order.order_date, "date of Anna");
    assert_eq!(order.billing_phone_number, "phone of Anna");
    assert_eq!(sizes(order), vec![1, 1]);
}

#[test]
fn orders_come_in_the_order_of_their_first_rows() {
    let data = vec![
        row(9, "Anna", "1", "0", "a", 1, "1"),
        row(3, "Berta", "1", "0", "a", 1, "1"),
        row(3, "Berta", "1", "0", "b", 1, "1"),
        row(5, "Carla", "1", "0", "a", 1, "1"),
    ];
    let orders = InputData { data }.labels().unwrap();
    let ids: Vec<u32> = orders.iter().map(|order| order.order_id).collect();
    assert_eq!(ids, vec![9, 3, 5]);
    assert_eq!(orders[1].packages[0].len(), 2);
}

#[test]
fn order_id_that_comes_back_starts_a_new_order() {
    let data = vec![
        row(1, "Anna", "1", "0", "a", 1, "1"),
        row(2, "Berta", "1", "0", "b", 1, "1"),
        row(1, "Anna", "1", "0", "c", 1, "1"),
        row(1, "Anna", "1", "0", "d", 1, "1"),
    ];
    let orders = InputData { data }.labels().unwrap();
    let ids: Vec<u32> = orders.iter().map(|order| order.order_id).collect();
    assert_eq!(ids, vec![1, 2, 1]);
    assert_eq!(names(&orders[0].packages[0]), vec!["a"]);
    assert_eq!(names(&orders[2].packages[0]), vec!["c", "d"]);
}

#[test]
fn packages_hold_every_row_of_the_order() {
    let parsed = parse_csv(
        "a,b,c,d,e,f,g,h,i,j,k,l,m,n,o,p\n\
         1,,,,\"93,20\",0,,,,,,,,x,1,1\n\
         1,,,,\"93,20\",0,,,,,,,,y,1,1\n\
         1,,,,\"93,20\",0,,,,,,,,z,1,1\n\
         1,,,,\"93,20\",0,,,,,,,,w,1,1\n\
         1,,,,\"93,20\",0,,,,,,,,v,1,1\n\
         2,,,,\"45\",0,,,,,,,,x,1,1\n\
         2,,,,\"45\",0,,,,,,,,y,1,1\n\
         2,,,,\"45\",0,,,,,,,,z,1,1\n",
    )
    .unwrap();
    let orders = parsed.labels().unwrap();
    for order in &orders {
        let items: usize = order.packages.iter().map(|package| package.len()).sum();
        let rows = parsed.data.iter().filter(|row| row.order_id == order.order_id).count();
        assert_eq!(items, rows);
    }
    assert_eq!(sizes(&orders[0]), vec![2, 2, 1]);
    assert_eq!(sizes(&orders[1]), vec![2, 1]);
}

#[test]
fn item_prices_take_comma_or_point() {
    let data = vec![
        row(1, "Anna", "1", "0", "a", 1, "4,40"),
        row(1, "Anna", "1", "0", "b", 1, "4.40"),
        row(1, "Anna", "1", "0", "c", 1, "40"),
    ];
    let orders = InputData { data }.labels().unwrap();
    let prices: Vec<String> = orders[0].packages[0].iter().map(|item| item.item_price.text()).collect();
    assert_eq!(prices, vec!["4.4", "4.4", "40"]);
}

#[test]
fn bad_total_fails_every_order() {
    let data = vec![
        row(1, "Anna", "1", "0", "a", 1, "1"),
        row(2, "Berta", "ten", "0", "a", 1, "1"),
    ];
    let error = InputData { data }.labels().unwrap_err();
    assert_eq!(error.0, "ten");
    assert_eq!(error.message(), "Invalid price: ten");
}

#[test]
fn bad_item_price_fails_every_order() {
    let data = vec![
        row(1, "Anna", "1", "0", "a", 1, "1"),
        row(1, "Anna", "1", "0", "b", 1, "1,0,0"),
        row(2, "Berta", "1", "0", "a", 1, "1"),
    ];
    assert_eq!(InputData { data }.labels().unwrap_err().0, "1,0,0");
}

#[test]
fn total_is_read_from_the_first_row_only() {
    let data = vec![
        row(1, "Anna", "1", "0", "a", 1, "1"),
        row(1, "Anna", "no total", "0", "b", 1, "1"),
    ];
    assert_eq!(InputData { data }.labels().unwrap().len(), 1);
}

#[test]
fn total_fails_before_any_item_price() {
    let data = vec![
        row(1, "Anna", "bad total", "0", "a", 1, "bad price"),
    ];
    assert_eq!(InputData { data }.labels().unwrap_err().0, "bad total");
}

#[test]
fn first_bad_price_goes_by_product_name() {
    let data = vec![
        row(1, "Anna", "1", "0", "c", 1, "bad c"),
        row(1, "Anna", "1", "0", "a", 1, "1"),
        row(1, "Anna", "1", "0", "b", 1, "bad b"),
    ];
    assert_eq!(InputData { data }.labels().unwrap_err().0, "bad b");
}

#[test]
fn first_order_that_fails_is_reported() {
    let data = vec![
        row(1, "Anna", "1", "0", "z", 1, "bad z"),
        row(2, "Berta", "bad total", "0", "a", 1, "bad a"),
    ];
    assert_eq!(InputData { data }.labels().unwrap_err().0, "bad z");
}

#[test]
fn no_rows_make_no_orders() {
    assert_eq!(InputData { data: Vec::new() }.labels().unwrap().len(), 0);
}

fn lines(order: &OrderDetails, i: usize) -> Vec<(String, String, bool)> {
    order
        .delivery_details(i)
        .iter()
        .map(|detail| (detail.name.to_string(), detail.data.clone(), detail.highlight))
        .collect()
}

fn line(name: &str, data: &str, highlight: bool) -> (String, String, bool) {
    (name.to_string(), data.to_string(), highlight)
}

#[test]
fn single_package_shows_the_totals_only() {
    let data = vec![row(1, "Anna", "12,50", "5", "a", 1, "1")];
    let orders = InputData { data }.labels().unwrap();
    assert_eq!(
        lines(&orders[0], 0),
        vec![
            line("Consegna", "5 €", false),
            line("Metodo  Pagamento", "gateway of Anna", false),
            line("Totale", "12,50€", false),
        ]
    );
}

#[test]
fn first_of_three_packages_shows_its_number_without_a_name() {
    let order = order_of("93,20", &["a", "b", "c"]);
    assert_eq!(lines(&order, 0), vec![line("", " COLLO 1 DI 3", true)]);
    assert_eq!(lines(&order, 1), vec![line("", "Anna COLLO 2 DI 3", true)]);
}

#[test]
fn last_package_shows_totals_and_number() {
    let order = order_of("93,20", &["a", "b", "c"]);
    assert_eq!(
        lines(&order, 2),
        vec![
            line("Consegna", "local pick up", false),
            line("Metodo  Pagamento", "gateway of Anna", false),
            line("Totale", "93,20€", false),
            line("", "Anna COLLO 3 DI 3", true),
        ]
    );
}

#[test]
fn index_past_the_packages_shows_the_number_only() {
    let order = order_of("57,10", &["a", "b"]);
    assert_eq!(lines(&order, 2), vec![line("", "Anna COLLO 3 DI 2", true)]);
    assert_eq!(lines(&order, 11), vec![line("", "Anna COLLO 12 DI 2", true)]);
    let single = order_of("1", &["a"]);
    assert_eq!(lines(&single, 1), Vec::new());
}

#[test]
fn order_without_packages_shows_nothing() {
    let mut order = order_of("1", &["a"]);
    order.packages.clear();
    assert_eq!(lines(&order, 0), Vec::new());
    assert_eq!(lines(&order, 5), Vec::new());
}

#[test]
fn many_packages_are_numbered_in_decimal() {
    let mut order = order_of("1", &["a"]);
    for _ in 0..104 {
        order.packages.push(Vec::new());
    }
    assert_eq!(lines(&order, 99), vec![line("", "Anna COLLO 100 DI 105", true)]);
    assert_eq!(lines(&order, 9), vec![line("", "Anna COLLO 10 DI 105", true)]);
}

#[test]
fn package_name_is_empty_for_the_first_package() {
    let order = order_of("57,10", &["a", "b"]);
    assert_eq!(order.package_name(0), "");
    assert_eq!(order.package_name(1), "Anna");
    assert_eq!(order.package_name(7), "Anna");
}

#[test]
fn clones_hold_what_was_cloned() {
    let order = order_of("57,10", &["a", "b"]);
    let item = order.packages[0][0].clone();
    assert_eq!(item.product_name, "a");
    assert_eq!(item.quantity, 1);
    assert_eq!(item.item_price.text(), "1");
    let price: Price = order.order_total.clone();
    assert_eq!(price.display, "57,10");
    assert_eq!(price.value.text(), "57.1");
    let detail = order.delivery_details(1)[0].clone();
    assert_eq!(detail.name, "Consegna");
    let copy = row(4, "Anna", "1", "2", "a", 3, "4").clone();
    assert_eq!(copy.order_id, 4);
    assert_eq!(copy.order_shipping.text(), "2");
    assert_eq!(copy.item_price, "4");
    assert_eq!(copy.customer_name, "Anna");
}

#[test]
fn barcodes_come_from_the_lookup() {
    let order = order_of("57,10", &["c", "a", "b"]);
    let lookup = |name: &str| if name == "b" { None } else { Some(format!("80{}", name)) };
    assert_eq!(order.barcodes(0, Some(&lookup)), vec![Some("80a".to_string()), None]);
    assert_eq!(order.barcodes(1, Some(&lookup)), vec![Some("80c".to_string())]);
    assert_eq!(order.barcodes(2, Some(&lookup)), Vec::new());
}

#[test]
fn no_lookup_gives_no_barcodes() {
    let order = order_of("57,10", &["c", "a", "b"]);
    assert_eq!(order.barcodes::<fn(&str) -> Option<String>>(0, None), vec![None, None]);
    assert_eq!(order.barcodes::<fn(&str) -> Option<String>>(5, None), Vec::new());
}

#[test]
fn order_clone_holds_the_same_packages() {
    let order = order_of("93,20", &["c", "a", "b", "d", "e"]);
    let copy = order.clone();
    assert_eq!(copy.order_id, order.order_id);
    assert_eq!(copy.customer_name, "Anna");
    assert_eq!(copy.order_total.display, "93,20");
    assert_eq!(copy.delivery, "local pick up");
    assert_eq!(sizes(&copy), vec![2, 2, 1]);
    assert_eq!(names(&copy.packages[1]), vec!["c", "d"]);
    assert_eq!(copy.packages[2][0].item_price.text(), "1");
}
