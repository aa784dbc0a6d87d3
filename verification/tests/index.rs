use abbrev_core::index::prefix_map::PrefixMap;
use abbrev_core::index::{delete_variants, Indexes};
use abbrev_core::retrieval::collect_candidates;

fn built(entries: &[(&str, u32, f32)]) -> PrefixMap {
    let mut m = PrefixMap::default();
    for &(key, id, freq) in entries {
        m.insert(key.to_string(), id, freq.max(0.0).to_bits());
    }
    m.finalize();
    m
}

#[test]
fn exact_is_frequency_ordered_and_capped() {
    let m = built(&[("првт", 0, 10.0), ("првт", 1, 500.0), ("првт", 2, 50.0)]);
    assert_eq!(m.exact("првт", 10), vec![1, 2, 0]);
    assert_eq!(m.exact("првт", 2), vec![1, 2]);
    assert!(m.exact("нет", 10).is_empty());
}

#[test]
fn prefix_scan_keeps_most_frequent_across_keys() {
    let m = built(&[
        ("прав", 0, 5.0),
        ("прав", 1, 7.0),
        ("привет", 2, 3.0),
        ("прост", 3, 900.0),
    ]);
    assert_eq!(m.with_prefix("пр", 2), vec![3, 1]);
    assert_eq!(m.with_prefix("пр", 10), vec![3, 1, 0, 2]);
    assert!(m.with_prefix("я", 10).is_empty());
    assert!(m.with_prefix("", 10).is_empty());
    assert_eq!(m.len(), 3);
    assert!(!m.is_empty());
    assert!(PrefixMap::default().is_empty());
}

#[test]
fn equal_frequencies_list_smaller_ids_first() {
    let m = built(&[("а", 7, 1.0), ("а", 3, 1.0), ("аб", 5, 1.0)]);
    assert_eq!(m.exact("а", 10), vec![3, 7]);
    assert_eq!(m.with_prefix("а", 10), vec![3, 5, 7]);
}

#[test]
fn indexes_route_by_skeleton_form_and_suffix() {
    let forms: Vec<String> = ["Привет", "приват", "тестирование", "тестирования"]
        .iter()
        .map(|s| s.to_string())
        .collect();
    let bits: Vec<u32> = [220.0f32, 20.0, 5.0, 3.0].iter().map(|f| f.to_bits()).collect();
    let ix = Indexes::build(&forms, &bits, true);
    assert_eq!(ix.by_skeleton.exact("првт", 10), vec![0, 1]);
    assert_eq!(ix.by_form.with_prefix("прив", 10), vec![0, 1]);
    assert_eq!(ix.with_suffix("ние", 10), vec![2]);
    assert_eq!(ix.with_suffix("ия", 10), vec![3]);
}

#[test]
fn skeleton_deletes_reach_one_dropped_letter() {
    let forms: Vec<String> = ["привет", "прикол"].iter().map(|s| s.to_string()).collect();
    let bits: Vec<u32> = [10.0f32, 5.0].iter().map(|f| f.to_bits()).collect();
    let ix = Indexes::build(&forms, &bits, true);
    // skeleton of "привет" is "првт"; dropping one letter gives "рвт", "пвт", "прт", "прв"
    assert!(ix.skeleton_delete_bucket("првт").is_empty());
    assert_eq!(ix.skeleton_delete_bucket("прт"), vec![0]);
    assert_eq!(ix.skeleton_delete_bucket("прк"), vec![1]);
    let plain = Indexes::build(&forms, &bits, false);
    assert!(plain.skeleton_delete_bucket("прт").is_empty());
}

#[test]
fn delete_variants_drop_each_position_once() {
    assert_eq!(delete_variants("абв"), vec!["бв".to_string(), "ав".to_string(), "аб".to_string()]);
    assert!(delete_variants("").is_empty());
}

#[test]
fn candidates_come_once_each_within_the_caps() {
    let forms: Vec<String> = ["привет", "приват", "привета", "прикол", "приветствие"]
        .iter()
        .map(|s| s.to_string())
        .collect();
    let bits: Vec<u32> = [50.0f32, 40.0, 30.0, 20.0, 10.0].iter().map(|f| f.to_bits()).collect();
    let ix = Indexes::build(&forms, &bits, true);
    let keys: Vec<u32> = vec![0, 1, 2, 3, 4];
    let got = collect_candidates(&ix, &keys, "прив", "првт", 2, true, 3);
    let mut sorted = got.clone();
    sorted.sort();
    sorted.dedup();
    assert_eq!(sorted.len(), got.len());
    assert!(got.len() <= 6 * 2);
    assert!(!got.is_empty());
}
