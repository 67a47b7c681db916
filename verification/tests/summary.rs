use realestate::graph::PropertyGraph;
use realestate::order::sort_positions;
use realestate::record::Record;
use realestate::summary::{average_ratio, average_value, most_common_type, summarize, Mean};

fn member(assessed_value: Option<u64>, sales_ratio: Option<i64>, residential_type: Option<&str>) -> Record {
    Record {
        serial_number: "X".to_string(),
        assessed_value,
        sale_amount: None,
        sales_ratio,
        residential_type: residential_type.map(|t| t.to_string()),
    }
}

fn typed(residential_type: &str) -> Record {
    member(Some(1), Some(1), Some(residential_type))
}

#[test]
fn averages_of_a_two_record_bin() {
    // Values 100000 and 200000 in cents, ratios 0.8 and 0.9 in millionths.
    let members = vec![
        member(Some(10_000_000), Some(800_000), Some("Condo")),
        member(Some(20_000_000), Some(900_000), Some("Condo")),
    ];
    let summary = summarize(4, &members);
    assert_eq!(summary.cluster_id, 4);
    let value = summary.avg_assessed_value.unwrap();
    assert_eq!(value, Mean { total: 30_000_000, count: 2 });
    assert_eq!(value.total as f64 / value.count as f64 / 100.0, 150000.0);
    let ratio = summary.avg_sales_ratio.unwrap();
    assert_eq!(ratio, Mean { total: 1_700_000, count: 2 });
    assert_eq!(ratio.total as f64 / ratio.count as f64 / 1_000_000.0, 0.85);
}

#[test]
fn first_seen_type_wins_a_tie() {
    let members = vec![typed("Condo"), typed("SingleFamily"), typed("Condo"), typed("SingleFamily")];
    assert_eq!(most_common_type(&members).as_deref(), Some("Condo"));
    let swapped = vec![typed("SingleFamily"), typed("Condo"), typed("Condo"), typed("SingleFamily")];
    assert_eq!(most_common_type(&swapped).as_deref(), Some("SingleFamily"));
}

#[test]
fn most_frequent_type_wins_wherever_it_starts() {
    let members = vec![typed("A"), typed("B"), typed("C"), typed("B"), typed("C"), typed("C")];
    assert_eq!(most_common_type(&members).as_deref(), Some("C"));
    let lexical = vec![typed("Zeta"), typed("Alpha"), typed("Alpha"), typed("Zeta")];
    assert_eq!(most_common_type(&lexical).as_deref(), Some("Zeta"));
}

#[test]
fn blank_types_are_not_counted() {
    let members = vec![
        member(Some(1), None, None),
        member(Some(1), None, None),
        member(Some(1), None, None),
        typed("Condo"),
    ];
    assert_eq!(most_common_type(&members).as_deref(), Some("Condo"));
    let blank = vec![member(Some(1), None, None), member(None, None, None)];
    assert_eq!(most_common_type(&blank), None);
    assert_eq!(most_common_type(&Vec::new()), None);
}

#[test]
fn value_mean_divides_by_the_member_count() {
    let members = vec![member(Some(10), None, None), member(None, None, None), member(Some(5), None, None)];
    assert_eq!(average_value(&members), Some(Mean { total: 15, count: 3 }));
    assert_eq!(average_value(&Vec::new()), None);
}

#[test]
fn value_mean_holds_the_largest_values() {
    let members = vec![member(Some(u64::MAX), None, None), member(Some(u64::MAX), None, None)];
    assert_eq!(average_value(&members), Some(Mean { total: 2 * (u64::MAX as u128), count: 2 }));
}

#[test]
fn ratio_mean_leaves_blank_ratios_out() {
    let members = vec![
        member(None, Some(800_000), None),
        member(None, None, None),
        member(None, Some(-200_000), None),
        member(None, None, None),
    ];
    assert_eq!(average_ratio(&members), Some(Mean { total: 600_000, count: 2 }));
    let extremes = vec![member(None, Some(i64::MIN), None), member(None, Some(i64::MIN), None)];
    assert_eq!(average_ratio(&extremes), Some(Mean { total: 2 * (i64::MIN as i128), count: 2 }));
}

#[test]
fn ratio_mean_of_blank_ratios_is_undefined() {
    let members = vec![member(Some(3), None, Some("Condo")), member(Some(4), None, Some("Condo"))];
    let summary = summarize(0, &members);
    assert_eq!(summary.avg_sales_ratio, None);
    assert_eq!(summary.avg_assessed_value, Some(Mean { total: 7, count: 2 }));
    assert_eq!(average_ratio(&Vec::new()), None);
}

#[test]
fn summary_clone_is_equal() {
    let summary = summarize(3, &vec![typed("Condo")]);
    let copy = summary.clone();
    assert_eq!(copy.cluster_id, 3);
    assert_eq!(copy.avg_assessed_value, summary.avg_assessed_value);
    assert_eq!(copy.avg_sales_ratio, summary.avg_sales_ratio);
    assert_eq!(copy.most_common_residential_type.as_deref(), Some("Condo"));
}

#[test]
fn record_clone_is_equal() {
    let record = member(Some(7), Some(-3), Some("Condo"));
    let copy = record.clone();
    assert_eq!(copy.serial_number, "X");
    assert_eq!(copy.assessed_value, Some(7));
    assert_eq!(copy.sale_amount, None);
    assert_eq!(copy.sales_ratio, Some(-3));
    assert_eq!(copy.residential_type.as_deref(), Some("Condo"));
}

#[test]
fn analysis_reports_each_bin() {
    let mut graph = PropertyGraph::new(0);
    let records = vec![
        member(Some(100), Some(10), Some("Condo")),
        member(Some(300), Some(30), Some("Single Family")),
        member(Some(200), None, Some("Condo")),
        member(Some(400), Some(50), Some("Single Family")),
        member(None, Some(70), Some("Condo")),
    ];
    // Sorted values 100 200 300 400, two bins: the edge is 300.
    graph.create_bins(&records, 2).unwrap();
    let summaries = graph.analyze_clusters();
    assert_eq!(summaries.len(), 2);
    assert_eq!(summaries[0].cluster_id, 0);
    assert_eq!(summaries[0].avg_assessed_value, Some(Mean { total: 300, count: 2 }));
    assert_eq!(summaries[0].avg_sales_ratio, Some(Mean { total: 10, count: 1 }));
    assert_eq!(summaries[0].most_common_residential_type.as_deref(), Some("Condo"));
    assert_eq!(summaries[1].cluster_id, 1);
    assert_eq!(summaries[1].avg_assessed_value, Some(Mean { total: 700, count: 2 }));
    assert_eq!(summaries[1].avg_sales_ratio, Some(Mean { total: 80, count: 2 }));
    assert_eq!(summaries[1].most_common_residential_type.as_deref(), Some("Single Family"));
}

#[test]
fn positions_sort_by_key_and_keep_ties_in_order() {
    assert_eq!(sort_positions(&vec![30, 10, 20, 10, 30, -5]), vec![5, 1, 3, 2, 0, 4]);
    assert_eq!(sort_positions(&Vec::new()), Vec::<usize>::new());
    assert_eq!(sort_positions(&vec![7]), vec![0]);
    assert_eq!(sort_positions(&vec![i128::MAX, i128::MIN, 0]), vec![1, 2, 0]);
    let descending: Vec<i128> = (0..1000).rev().collect();
    assert_eq!(sort_positions(&descending), (0..1000).rev().collect::<Vec<usize>>());
    let equal = vec![4i128; 257];
    assert_eq!(sort_positions(&equal), (0..257).collect::<Vec<usize>>());
}
