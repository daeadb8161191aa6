use electricity_price_optimizer::add;

#[test]
fn lib_it_works() {
    let result = add(2, 2);
    assert_eq!(result, 4);
}
