use city_temps::stats::CityTemp;
use city_temps::stats::CityTempReport;
use city_temps::table::AggTable;

fn report_for(reports: &[(Vec<u8>, CityTempReport)], key: &[u8]) -> CityTempReport {
    for (k, r) in reports {
        if k.as_slice() == key {
            return *r;
        }
    }
    panic!("no report for the key");
}

#[test]
fn first_observation_seeds_the_entry() {
    let mut entry = CityTemp::new(123);
    assert_eq!(entry.count, 0);
    assert_eq!(entry.rolling_sum, 0);
    assert_eq!(entry.min_temp, 123);
    assert_eq!(entry.max_temp, 123);
    entry.add(123);
    assert_eq!(entry.count, 1);
    assert_eq!(entry.rolling_sum, 123);
    assert_eq!(entry.min_temp, 123);
    assert_eq!(entry.max_temp, 123);
}

#[test]
fn add_moves_at_most_one_extreme() {
    let mut entry = CityTemp::new(50);
    entry.add(50);
    entry.add(70);
    assert_eq!(entry.min_temp, 50);
    assert_eq!(entry.max_temp, 70);
    entry.add(-30);
    assert_eq!(entry.min_temp, -30);
    assert_eq!(entry.max_temp, 70);
    assert_eq!(entry.count, 3);
    assert_eq!(entry.rolling_sum, 90);
}

#[test]
fn mean_truncates_toward_zero() {
    let positive = CityTemp { count: 2, rolling_sum: 118, max_temp: 123, min_temp: -5 };
    assert_eq!(positive.mean(), 59);
    let negative = CityTemp { count: 2, rolling_sum: -11, max_temp: -5, min_temp: -6 };
    assert_eq!(negative.mean(), -5);
}

#[test]
fn observe_aggregates_per_key() {
    let mut table = AggTable::new();
    table.observe(b"NYC", 123);
    table.observe(b"NYC", -5);
    table.observe(b"LA", 400);
    let reports = table.finalize();
    assert_eq!(reports.len(), 2);
    let nyc = report_for(&reports, b"NYC");
    assert_eq!(nyc.min_temp, -5);
    assert_eq!(nyc.max_temp, 123);
    assert_eq!(nyc.mean_temp, 59);
    let la = report_for(&reports, b"LA");
    assert_eq!(la.min_temp, 400);
    assert_eq!(la.max_temp, 400);
    assert_eq!(la.mean_temp, 400);
}

#[test]
fn keys_are_byte_exact() {
    let mut table = AggTable::new();
    table.observe(b"a", 10);
    table.observe(b"ab", 20);
    table.observe(b"A", 30);
    let reports = table.finalize();
    assert_eq!(reports.len(), 3);
    assert_eq!(report_for(&reports, b"a").min_temp, 10);
    assert_eq!(report_for(&reports, b"ab").min_temp, 20);
    assert_eq!(report_for(&reports, b"A").min_temp, 30);
}

#[test]
fn finalize_is_idempotent() {
    let mut table = AggTable::new();
    table.observe(b"NYC", 123);
    table.observe(b"NYC", -5);
    table.observe(b"LA", 400);
    let first = table.finalize();
    let second = table.finalize();
    assert_eq!(first, second);
}

#[test]
fn merge_combines_partitions() {
    let mut whole = AggTable::new();
    whole.observe(b"NYC", 123);
    whole.observe(b"NYC", -5);
    whole.observe(b"LA", 400);

    let mut part_one = AggTable::new();
    part_one.observe(b"NYC", 123);
    let mut part_two = AggTable::new();
    part_two.observe(b"NYC", -5);
    part_two.observe(b"LA", 400);
    part_one.merge(&part_two);

    let merged = part_one.finalize();
    let single_pass = whole.finalize();
    assert_eq!(merged.len(), single_pass.len());
    for (k, r) in &single_pass {
        assert_eq!(report_for(&merged, k), *r);
    }
}

#[test]
fn merge_with_empty_sides() {
    let mut filled = AggTable::new();
    filled.observe(b"NYC", 123);
    let empty = AggTable::new();
    filled.merge(&empty);
    let reports = filled.finalize();
    assert_eq!(reports.len(), 1);
    assert_eq!(report_for(&reports, b"NYC").max_temp, 123);

    let mut fresh = AggTable::new();
    let mut source = AggTable::new();
    source.observe(b"LA", 400);
    fresh.merge(&source);
    let reports = fresh.finalize();
    assert_eq!(reports.len(), 1);
    assert_eq!(report_for(&reports, b"LA").mean_temp, 400);
}

#[test]
fn merge_is_order_insensitive() {
    let mut left = AggTable::new();
    left.observe(b"NYC", 123);
    left.observe(b"LA", 400);
    let mut right = AggTable::new();
    right.observe(b"NYC", -5);
    right.observe(b"SF", 77);

    let mut left_first = AggTable::new();
    left_first.observe(b"NYC", 123);
    left_first.observe(b"LA", 400);
    let mut right_first = AggTable::new();
    right_first.observe(b"NYC", -5);
    right_first.observe(b"SF", 77);
    left_first.merge(&right);
    right_first.merge(&left);

    let a = left_first.finalize();
    let b = right_first.finalize();
    assert_eq!(a.len(), b.len());
    for (k, r) in &a {
        assert_eq!(report_for(&b, k), *r);
    }
}
