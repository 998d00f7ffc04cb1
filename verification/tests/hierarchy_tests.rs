use zesplot::hierarchy::{specs_to_hier, DataPoint, Specific};
use zesplot::range::NetworkRange;

const ADDR_1: u128 = 0x2001_0db8_0000_0000_0000_0000_0000_0001;
const ADDR_2: u128 = 0x2001_0db8_0000_0000_0000_0000_0000_0002;
const ADDR_1111: u128 = 0x2001_0db8_0000_0000_0001_0001_0001_0001;
const ADDR_3333: u128 = 0x2001_0db8_0000_0000_0003_0003_0003_0003;

fn gen_dps() -> Vec<DataPoint> {
    (1..=10u32).map(|m| DataPoint { ip6: ADDR_1, meta: m }).collect()
}

fn gen_dps2() -> Vec<DataPoint> {
    vec![1u32, 1, 1, 1, 1, 1, 1, 2, 3, 10]
        .into_iter()
        .map(|m| DataPoint { ip6: ADDR_1, meta: m })
        .collect()
}

fn net(base: u128, prefix: u8) -> NetworkRange {
    NetworkRange { base, prefix }
}

fn item(base: u128, prefix: u8, asn: &str) -> Specific {
    Specific {
        network: net(base, prefix),
        asn: asn.to_string(),
        datapoints: Vec::new(),
        specifics: Vec::new(),
    }
}

fn gen_specific() -> Specific {
    let mut s = item(0x2001_0db8 << 96, 32, "TEST");
    s.datapoints = gen_dps();
    s
}

fn gen_specific2() -> Specific {
    let mut s = item(0x2001_0db8 << 96, 32, "TEST");
    s.datapoints = gen_dps2();
    s
}

fn gen_specific_no_dp() -> Specific {
    item(0x2001_0db8 << 96, 32, "TEST")
}

fn count_nodes(forest: &[Specific]) -> usize {
    forest.iter().map(|s| 1 + count_nodes(&s.specifics)).sum()
}

#[test]
fn hamming_weight() {
    let dp = DataPoint { ip6: ADDR_1, meta: 0 };
    assert_eq!(dp.hamming_weight(64), 1);
    let dp = DataPoint { ip6: ADDR_2, meta: 0 };
    assert_eq!(dp.hamming_weight(64), 1);
    let dp = DataPoint { ip6: ADDR_1111, meta: 0 };
    assert_eq!(dp.hamming_weight(64), 4);
    let dp = DataPoint { ip6: ADDR_1111, meta: 0 };
    assert_eq!(dp.hamming_weight(96), 2);
    let dp = DataPoint { ip6: ADDR_3333, meta: 0 };
    assert_eq!(dp.hamming_weight(64), 2 + 2 + 2 + 2);
}

#[test]
fn ttl_to_start_value() {
    let mut dp = DataPoint { ip6: ADDR_1, meta: 111 };
    dp.ttl_to_start_value();
    assert_eq!(dp.meta, 128);

    let mut dp = DataPoint { ip6: ADDR_1, meta: 59 };
    dp.ttl_to_start_value();
    assert_eq!(dp.meta, 64);

    let mut dp = DataPoint { ip6: ADDR_1, meta: 29 };
    dp.ttl_to_start_value();
    assert_eq!(dp.meta, 32);
}

#[test]
fn ttl_to_path_length() {
    let mut dp = DataPoint { ip6: ADDR_1, meta: 111 };
    dp.ttl_to_path_length();
    assert_eq!(dp.meta, 17);

    let mut dp = DataPoint { ip6: ADDR_1, meta: 59 };
    dp.ttl_to_path_length();
    assert_eq!(dp.meta, 5);

    let mut dp = DataPoint { ip6: ADDR_1, meta: 29 };
    dp.ttl_to_path_length();
    assert_eq!(dp.meta, 35);
}

#[test]
fn dp_sum() {
    assert_eq!(0, gen_specific_no_dp().dp_sum());
    assert_eq!(55, gen_specific().dp_sum());
    assert_eq!(22, gen_specific2().dp_sum());
}

#[test]
fn dp_uniq() {
    assert_eq!(0, gen_specific_no_dp().dp_uniq());
    assert_eq!(10, gen_specific().dp_uniq());
    assert_eq!(4, gen_specific2().dp_uniq());
}

#[test]
fn hits_counts() {
    let mut parent = gen_specific();
    let mut child = item(0x2001_0db8_0001 << 80, 48, "64496");
    child.datapoints = gen_dps2();
    parent.specifics.push(child);
    assert_eq!(parent.hits(), 10);
    assert_eq!(parent.hits_in_specifics(), 10);
    assert_eq!(parent.all_hits(), 20);
}

#[test]
fn aggregate_metric_idempotent() {
    let mut parent = gen_specific();
    let mut child = item(0x2001_0db8_0001 << 80, 48, "64496");
    child.datapoints = gen_dps();
    parent.specifics.push(child);
    let first = parent.all_hits();
    let second = parent.all_hits();
    assert_eq!(first, second);
}

#[test]
fn dps_ttl_to_path_length() {
    let mut s = gen_specific_no_dp();
    for m in [111u32, 59, 29] {
        s.push_dp(DataPoint { ip6: ADDR_1, meta: m });
    }
    s.dps_ttl_to_path_length();
    let metas: Vec<u32> = s.datapoints.iter().map(|d| d.meta).collect();
    assert_eq!(metas, vec![17, 5, 35]);
}

#[test]
fn push_dp_appends() {
    let mut s = gen_specific_no_dp();
    s.push_dp(DataPoint { ip6: ADDR_1, meta: 7 });
    assert_eq!(s.hits(), 1);
    assert_eq!(s.datapoints[0].meta, 7);
}

#[test]
fn asn_parses_decimal() {
    assert_eq!(item(0, 32, "1234").asn(), 1234);
    assert_eq!(item(0, 32, "TEST").asn(), 0);
    assert_eq!(item(0, 32, "").asn(), 0);
    assert_eq!(item(0, 32, "4294967295").asn(), 4294967295);
    assert_eq!(item(0, 32, "4294967296").asn(), 0);
    assert_eq!(item(0, 32, "12x4").asn(), 0);
}

#[test]
fn label_text() {
    assert_eq!(item(0, 32, "64496").to_string(), "AS64496".to_string());
    assert_eq!(item(0, 32, "64496").prefix_len(), 32);
}

#[test]
fn build_empty_and_single() {
    let forest = specs_to_hier(Vec::new());
    assert_eq!(forest.len(), 0);

    let forest = specs_to_hier(vec![item(0x2001_0db8 << 96, 32, "A")]);
    assert_eq!(forest.len(), 1);
    assert_eq!(count_nodes(&forest), 1);
    assert!(forest[0].specifics.is_empty());
}

#[test]
fn build_nests_contained_run() {
    // A (/32) contains B (/48); C is a disjoint /32: [A, B, C] -> [A[B], C]
    let a = item(0x2001_0db8 << 96, 32, "A");
    let b = item(0x2001_0db8_0001 << 80, 48, "B");
    let c = item(0x2001_0dc0 << 96, 32, "C");
    let forest = specs_to_hier(vec![a, b, c]);
    assert_eq!(forest.len(), 2);
    assert_eq!(count_nodes(&forest), 3);
    assert_eq!(forest[0].asn, "A");
    assert_eq!(forest[0].specifics.len(), 1);
    assert_eq!(forest[0].specifics[0].asn, "B");
    assert!(forest[0].specifics[0].specifics.is_empty());
    assert_eq!(forest[1].asn, "C");
    assert!(forest[1].specifics.is_empty());
}

#[test]
fn build_nests_recursively() {
    // A (/32) contains B (/48) contains D (/64): a chain of three
    let a = item(0x2001_0db8 << 96, 32, "A");
    let b = item(0x2001_0db8_0001 << 80, 48, "B");
    let d = item(0x2001_0db8_0001_0002 << 64, 64, "D");
    let forest = specs_to_hier(vec![a, b, d]);
    assert_eq!(forest.len(), 1);
    assert_eq!(count_nodes(&forest), 3);
    assert_eq!(forest[0].specifics.len(), 1);
    assert_eq!(forest[0].specifics[0].asn, "B");
    assert_eq!(forest[0].specifics[0].specifics.len(), 1);
    assert_eq!(forest[0].specifics[0].specifics[0].asn, "D");
}

#[test]
fn build_unsorted_contained_first_stays_top_level() {
    // The contained range precedes its container: the builder, which
    // trusts the input order, leaves both at top level. The sortedness
    // precondition is load-bearing.
    let b = item(0x2001_0db8_0001 << 80, 48, "B");
    let a = item(0x2001_0db8 << 96, 32, "A");
    let forest = specs_to_hier(vec![b, a]);
    assert_eq!(forest.len(), 2);
    assert_eq!(count_nodes(&forest), 2);
    assert_eq!(forest[0].asn, "B");
    assert!(forest[0].specifics.is_empty());
    assert_eq!(forest[1].asn, "A");
    assert!(forest[1].specifics.is_empty());
}

#[test]
fn build_preserves_count_on_any_input() {
    // unsorted garbage order: every record still appears exactly once
    let items = vec![
        item(0x2001_0dc0 << 96, 32, "C"),
        item(0x2001_0db8_0001 << 80, 48, "B"),
        item(0x2001_0db8 << 96, 32, "A"),
        item(0x2001_0db8_0002 << 80, 48, "B2"),
    ];
    let forest = specs_to_hier(items);
    assert_eq!(count_nodes(&forest), 4);
}
