use dwanium::tanium::Computer;
use dwanium::work::{dispatch_batches, missing_records, split_dell_work, split_import_data};

fn numbers(n: usize) -> Vec<usize> {
    (0..n).collect()
}

fn sizes(batches: &[Vec<usize>]) -> Vec<usize> {
    batches.iter().map(|b| b.len()).collect()
}

#[test]
fn dispatch_batches_of_an_empty_list() {
    assert!(dispatch_batches(numbers(0)).is_empty());
}

#[test]
fn dispatch_batches_of_one_item_sends_it() {
    assert_eq!(dispatch_batches(numbers(1)), vec![vec![0]]);
}

#[test]
fn dispatch_batches_hand_on_every_item() {
    assert_eq!(dispatch_batches(numbers(3)), vec![vec![0, 1, 2]]);
    assert_eq!(sizes(&dispatch_batches(numbers(100))), vec![100]);
    assert_eq!(sizes(&dispatch_batches(numbers(101))), vec![100, 1]);
    assert_eq!(sizes(&dispatch_batches(numbers(200))), vec![100, 100]);
    assert_eq!(sizes(&dispatch_batches(numbers(250))), vec![100, 100, 50]);
}

#[test]
fn dispatch_batches_keep_the_order() {
    let batches = dispatch_batches(numbers(250));
    let flat: Vec<usize> = batches.into_iter().flatten().collect();
    assert_eq!(flat, numbers(250));
}

#[test]
fn dispatch_batches_of_missing_computers_insert_all_of_them() {
    let computers = vec![computer("AAAAAA1", "n1"), computer("BBBBBB2", "n2"), computer("CCCCCC3", "n3")];
    let batches = dispatch_batches(computers);
    assert_eq!(batches.len(), 1);
    let names: Vec<String> = batches[0].iter().map(|c| c.name.clone()).collect();
    assert_eq!(names, vec!["n1".to_string(), "n2".to_string(), "n3".to_string()]);
}

fn computer(serial: &str, name: &str) -> Computer {
    Computer { name: name.to_string(), serial_number: serial.to_string() }
}

#[test]
fn missing_records_keeps_what_the_database_lacks() {
    let in_tanium = vec![computer("AAA1111", "a"), computer("BBB2222", "b"), computer("CCC3333", "c")];
    let in_db = vec!["BBB2222".to_string(), "ZZZ9999".to_string()];
    let missing = missing_records(in_tanium, &in_db);
    let serials: Vec<String> = missing.iter().map(|c| c.serial_number.clone()).collect();
    assert_eq!(serials, vec!["AAA1111".to_string(), "CCC3333".to_string()]);
    assert_eq!(missing[1].name, "c");
}

#[test]
fn missing_records_with_everything_stored() {
    let in_tanium = vec![computer("AAA1111", "a")];
    let in_db = vec!["AAA1111".to_string()];
    assert!(missing_records(in_tanium, &in_db).is_empty());
}

fn serials(n: usize) -> Vec<String> {
    (0..n).map(|i| format!("S{:06}", i)).collect()
}

#[test]
fn split_dell_work_up_to_the_threshold_is_one_part() {
    let (first, second) = split_dell_work(serials(100));
    assert_eq!(first, serials(100));
    assert!(second.is_none());
}

#[test]
fn split_dell_work_above_the_threshold_halves() {
    let all = serials(101);
    let (first, second) = split_dell_work(all.clone());
    let second = second.unwrap();
    assert_eq!(first.len(), 50);
    assert_eq!(second.len(), 51);
    let mut joined = first.clone();
    joined.extend(second);
    assert_eq!(joined, all);
}

#[test]
fn split_import_data_at_the_limit() {
    let records: Vec<(String, String)> = (0..5001).map(|i| (format!("S{}", i), "2026-01-01".to_string())).collect();
    let (first, rest) = split_import_data(records.clone());
    assert_eq!(first.len(), 5000);
    assert_eq!(rest.unwrap(), vec![records[5000].clone()]);
    let (all, none) = split_import_data(records[..5000].to_vec());
    assert_eq!(all.len(), 5000);
    assert!(none.is_none());
}
