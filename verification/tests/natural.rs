use retrun::natural::Natural;

fn same(first: &Natural, second: &Natural) -> bool {
    !first.less_than(second) && !second.less_than(first)
}

#[test]
fn less_than_orders_small_numbers() {
    assert!(Natural::from_u64(0).less_than(&Natural::from_u64(1)));
    assert!(!Natural::from_u64(1).less_than(&Natural::from_u64(0)));
    assert!(!Natural::from_u64(7).less_than(&Natural::from_u64(7)));
    assert!(Natural::from_u64(4294967295).less_than(&Natural::from_u64(4294967296)));
    assert!(!Natural::from_u64(4294967296).less_than(&Natural::from_u64(4294967295)));
    assert!(Natural::from_u64(4294967296).less_than(&Natural::from_u64(4294967297)));
    assert!(Natural::from_u64(8589934591).less_than(&Natural::from_u64(12884901888)));
    assert!(Natural::from_u64(u64::MAX - 1).less_than(&Natural::from_u64(u64::MAX)));
}

#[test]
fn multiply_gives_the_product() {
    let mut number = Natural::from_u64(3);
    number.multiply(5);
    assert!(same(&number, &Natural::from_u64(15)));
    number.multiply(4294967296);
    assert!(same(&number, &Natural::from_u64(64424509440)));
    number.multiply(0);
    assert!(same(&number, &Natural::from_u64(0)));
    number.multiply(9);
    assert!(same(&number, &Natural::from_u64(0)));
}

#[test]
fn multiply_carries_past_sixty_four_bits() {
    let mut square = Natural::from_u64(u64::MAX);
    square.multiply(u64::MAX);
    let mut other = Natural::from_u64(u64::MAX);
    other.multiply(u64::MAX - 1);
    assert!(other.less_than(&square));
    assert!(!square.less_than(&other));
    assert!(Natural::from_u64(u64::MAX).less_than(&other));
    let mut by_parts = Natural::from_u64(4294967295);
    by_parts.multiply(4294967297);
    by_parts.multiply(u64::MAX);
    assert!(same(&by_parts, &square));
}

#[test]
fn multiply_in_either_order_gives_the_same_number() {
    let factors = [3u64, 4294967295, 18446744073709551615, 65537, 2, 1000000007];
    let mut forward = Natural::from_u64(1);
    for factor in factors {
        forward.multiply(factor);
    }
    let mut backward = Natural::from_u64(1);
    for factor in factors.iter().rev() {
        backward.multiply(*factor);
    }
    assert!(same(&forward, &backward));
    backward.multiply(1);
    assert!(same(&forward, &backward));
    backward.multiply(2);
    assert!(forward.less_than(&backward));
}
