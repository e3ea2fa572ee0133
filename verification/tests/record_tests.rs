use city_temps::decode::DecodeError;
use city_temps::record::process_line;
use city_temps::record::RecordError;
use city_temps::stats::CityTempReport;
use city_temps::table::AggTable;

fn report_for(reports: &[(Vec<u8>, CityTempReport)], key: &[u8]) -> CityTempReport {
    for (k, r) in reports {
        if k.as_slice() == key {
            return *r;
        }
    }
    panic!("no report for the key");
}

#[test]
fn end_to_end_example() {
    let mut table = AggTable::new();
    assert_eq!(process_line(b"NYC;12.3", &mut table), Ok(()));
    assert_eq!(process_line(b"NYC;-0.5", &mut table), Ok(()));
    assert_eq!(process_line(b"LA;40.0", &mut table), Ok(()));
    let reports = table.finalize();
    assert_eq!(reports.len(), 2);
    let nyc = report_for(&reports, b"NYC");
    assert_eq!(nyc.min_temp, -5);
    assert_eq!(nyc.max_temp, 123);
    assert_eq!(nyc.mean_temp, 59);
    let la = report_for(&reports, b"LA");
    assert_eq!(la.min_temp, 400);
    assert_eq!(la.max_temp, 400);
    assert_eq!(la.mean_temp, 400);
}

#[test]
fn malformed_records_are_skippable() {
    let mut table = AggTable::new();
    assert_eq!(process_line(b"NYC;12.3", &mut table), Ok(()));
    assert_eq!(
        process_line(b"Tokyo;abc", &mut table),
        Err(RecordError::Decode(DecodeError))
    );
    assert_eq!(process_line(b"Tokyo", &mut table), Err(RecordError::Malformed));
    assert_eq!(process_line(b"a;1.0;b", &mut table), Err(RecordError::Malformed));
    assert_eq!(process_line(b"", &mut table), Err(RecordError::Malformed));
    assert_eq!(process_line(b"LA;40.0", &mut table), Ok(()));
    let reports = table.finalize();
    assert_eq!(reports.len(), 2);
    assert_eq!(report_for(&reports, b"NYC").max_temp, 123);
    assert_eq!(report_for(&reports, b"LA").max_temp, 400);
}

#[test]
fn trailing_newline_is_stripped() {
    let mut table = AggTable::new();
    assert_eq!(process_line(b"NYC;12.3\n", &mut table), Ok(()));
    let reports = table.finalize();
    assert_eq!(report_for(&reports, b"NYC").max_temp, 123);
}

#[test]
fn empty_key_is_a_group() {
    let mut table = AggTable::new();
    assert_eq!(process_line(b";1.0", &mut table), Ok(()));
    let reports = table.finalize();
    assert_eq!(report_for(&reports, b"").min_temp, 10);
}

#[test]
fn value_with_embedded_newline_is_rejected() {
    let mut table = AggTable::new();
    assert_eq!(
        process_line(b"NYC;1\n2", &mut table),
        Err(RecordError::Decode(DecodeError))
    );
    assert_eq!(table.finalize().len(), 0);
}
