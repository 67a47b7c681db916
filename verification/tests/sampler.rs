use realestate::data_cleaner::clean_data;
use realestate::error::Error;
use realestate::record::Record;
use realestate::sampler::{gather, pool_positions, sample_data, OUTLIER_TRIM};

// Ratios are held in millionths.
fn millionths(ratio: f64) -> i64 {
    (ratio * 1_000_000.0).round() as i64
}

fn as_ratio(held: i64) -> f64 {
    held as f64 / 1_000_000.0
}

fn mock_record(residential_type: &str, sales_ratio: f64) -> Record {
    Record {
        serial_number: "X".to_string(),
        assessed_value: Some(10_000_000),
        sale_amount: Some(20_000_000),
        sales_ratio: Some(millionths(sales_ratio)),
        residential_type: Some(residential_type.to_string()),
    }
}

fn numbered(serial: usize, ratio: Option<i64>, residential_type: Option<&str>) -> Record {
    Record {
        serial_number: serial.to_string(),
        assessed_value: None,
        sale_amount: None,
        sales_ratio: ratio,
        residential_type: residential_type.map(|t| t.to_string()),
    }
}

fn serial_numbers(records: &[Record]) -> Vec<usize> {
    records.iter().map(|r| r.serial_number.parse().unwrap()).collect()
}

#[test]
fn test_sample_data_sorts_and_excludes_outliers() {
    let mut records = vec![];
    for i in 1..=500 {
        records.push(mock_record("Type", i as f64));
    }

    let sampled_records = sample_data(&records, 200).unwrap();

    // Expected: Records in the range 151 to 350 should be present
    let mut expected_sales_ratios: Vec<f64> = (151..=350).map(|x| x as f64).collect();
    expected_sales_ratios.sort_by(|a, b| a.partial_cmp(b).unwrap());

    let mut actual_sales_ratios: Vec<f64> =
        sampled_records.iter().map(|r| as_ratio(r.sales_ratio.unwrap())).collect();
    actual_sales_ratios.sort_by(|a, b| a.partial_cmp(b).unwrap());

    // Comparing sorted subsets of actual and expected to ensure exclusion of top and bottom 150
    assert_eq!(actual_sales_ratios, expected_sales_ratios);
}

#[test]
fn trim_is_a_fixed_count() {
    assert_eq!(OUTLIER_TRIM, 150);
}

#[test]
fn sample_of_nothing_is_empty() {
    assert_eq!(sample_data(&[], 10).unwrap().len(), 0);
    assert_eq!(pool_positions(&[]).unwrap(), Vec::<usize>::new());
}

#[test]
fn sample_of_size_zero_is_empty() {
    let records: Vec<Record> = (0..20).map(|i| numbered(i, Some(i as i64), Some("Condo"))).collect();
    assert!(sample_data(&records, 0).unwrap().is_empty());
}

#[test]
fn sample_is_drawn_without_replacement_from_the_pool() {
    // 500 records in descending ratio order: the pool is ranks 150..350.
    let records: Vec<Record> =
        (0..500).map(|i| numbered(i, Some(1000 - i as i64), Some("Condo"))).collect();
    for _ in 0..20 {
        let sample = sample_data(&records, 50).unwrap();
        assert_eq!(sample.len(), 50);
        let mut seen = serial_numbers(&sample);
        seen.sort();
        seen.dedup();
        assert_eq!(seen.len(), 50);
        for record in &sample {
            let ratio = record.sales_ratio.unwrap();
            assert!((651..=850).contains(&ratio));
            assert_eq!(record.residential_type.as_deref(), Some("Condo"));
        }
    }
}

#[test]
fn small_pool_is_returned_whole() {
    let records: Vec<Record> = (0..40).map(|i| numbered(i, Some(i as i64 % 7), Some("Condo"))).collect();
    let sample = sample_data(&records, 1000).unwrap();
    let mut seen = serial_numbers(&sample);
    seen.sort();
    assert_eq!(seen, (0..40).collect::<Vec<usize>>());
}

#[test]
fn sample_size_is_the_smaller_of_target_and_pool() {
    let records: Vec<Record> = (0..320).map(|i| numbered(i, Some(i as i64), Some("Condo"))).collect();
    // 320 records leave a pool of 20.
    assert_eq!(sample_data(&records, 0).unwrap().len(), 0);
    assert_eq!(sample_data(&records, 7).unwrap().len(), 7);
    assert_eq!(sample_data(&records, 20).unwrap().len(), 20);
    assert_eq!(sample_data(&records, 21).unwrap().len(), 20);
    assert_eq!(sample_data(&records, usize::MAX).unwrap().len(), 20);
}

#[test]
fn pool_is_untrimmed_up_to_three_hundred() {
    let records: Vec<Record> = (0..300).map(|i| numbered(i, Some(-(i as i64)), Some("Condo"))).collect();
    let pool = pool_positions(&records).unwrap();
    assert_eq!(pool, (0..300).rev().collect::<Vec<usize>>());
    let one_more: Vec<Record> = (0..301).map(|i| numbered(i, Some(-(i as i64)), Some("Condo"))).collect();
    assert_eq!(pool_positions(&one_more).unwrap(), vec![150]);
}

#[test]
fn pool_is_the_middle_ranks_by_ratio() {
    // Ratios 0..400 scattered by a stride that is coprime to 400.
    let records: Vec<Record> =
        (0..400).map(|i| numbered(i, Some(((i * 147) % 400) as i64), Some("Condo"))).collect();
    let pool = pool_positions(&records).unwrap();
    assert_eq!(pool.len(), 100);
    let ratios: Vec<i64> = pool.iter().map(|p| records[*p].sales_ratio.unwrap()).collect();
    assert_eq!(ratios, (150..250).collect::<Vec<i64>>());
}

#[test]
fn equal_ratios_keep_their_order() {
    let ratios = [5i64, 3, 5, 1, 3, 5, 1];
    let records: Vec<Record> =
        ratios.iter().enumerate().map(|(i, r)| numbered(i, Some(*r), Some("Condo"))).collect();
    assert_eq!(pool_positions(&records).unwrap(), vec![3, 6, 1, 4, 0, 2, 5]);
}

#[test]
fn records_without_type_are_left_out() {
    let records = vec![
        numbered(0, Some(9), Some("Condo")),
        numbered(1, None, None),
        numbered(2, Some(1), None),
        numbered(3, Some(4), Some("Single Family")),
    ];
    assert_eq!(pool_positions(&records).unwrap(), vec![3, 0]);
    let sample = sample_data(&records, 10).unwrap();
    let mut seen = serial_numbers(&sample);
    seen.sort();
    assert_eq!(seen, vec![0, 3]);
    assert!(sample.iter().all(|r| r.residential_type.is_some()));
}

#[test]
fn cleaning_then_sampling_stays_within_the_cleaned_records() {
    let records: Vec<Record> = (0..50)
        .map(|i| numbered(i, Some(50 - i as i64), if i % 3 == 0 { None } else { Some("Condo") }))
        .collect();
    let cleaned = clean_data(&records);
    assert_eq!(serial_numbers(&cleaned), (0..50).filter(|i| i % 3 != 0).collect::<Vec<usize>>());
    let sample = sample_data(&cleaned, 12).unwrap();
    assert_eq!(sample.len(), 12);
    let kept = serial_numbers(&cleaned);
    for record in &sample {
        assert!(record.residential_type.is_some());
        assert!(kept.contains(&record.serial_number.parse().unwrap()));
    }
}

#[test]
fn a_typed_record_without_ratio_is_refused() {
    let records = vec![
        numbered(0, Some(9), Some("Condo")),
        numbered(1, None, Some("Condo")),
        numbered(2, Some(1), Some("Condo")),
    ];
    assert_eq!(sample_data(&records, 2).err(), Some(Error::InvalidInput));
    assert_eq!(pool_positions(&records), Err(Error::InvalidInput));
}

#[test]
fn negative_ratios_sort_below_positive_ones() {
    let records = vec![
        numbered(0, Some(2), Some("Condo")),
        numbered(1, Some(i64::MIN), Some("Condo")),
        numbered(2, Some(-1), Some("Condo")),
        numbered(3, Some(i64::MAX), Some("Condo")),
        numbered(4, Some(0), Some("Condo")),
    ];
    assert_eq!(pool_positions(&records).unwrap(), vec![1, 2, 4, 0, 3]);
}

#[test]
fn gather_copies_the_records_named() {
    let records: Vec<Record> = (0..5).map(|i| numbered(i, Some(i as i64), None)).collect();
    let picked = gather(&records, &vec![4, 0, 2]);
    assert_eq!(serial_numbers(&picked), vec![4, 0, 2]);
    assert_eq!(picked[0].sales_ratio, Some(4));
    assert!(gather(&records, &Vec::new()).is_empty());
}

#[test]
fn clean_data_keeps_typed_records_in_order() {
    let records = vec![
        numbered(0, None, None),
        numbered(1, None, Some("Condo")),
        numbered(2, Some(3), None),
        numbered(3, Some(3), Some("")),
    ];
    let cleaned = clean_data(&records);
    assert_eq!(serial_numbers(&cleaned), vec![1, 3]);
    assert_eq!(cleaned[0].residential_type.as_deref(), Some("Condo"));
    assert_eq!(cleaned[1].sales_ratio, Some(3));
    assert!(clean_data(&[]).is_empty());
}
