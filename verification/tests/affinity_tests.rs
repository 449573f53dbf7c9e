use ipc_bench::affinity::EnvValue::{NotUnicode, Unset};
use ipc_bench::affinity::{
    affinity_requested, first_logical_processor_mask, parse_topology_records, stable_affinity_enabled,
    stable_affinity_pair, AffinityError, AffinitySettings, CpuTopology, EnvValue, StableAffinityPair,
    TopologyError, TopologyKind,
};

fn record(kind: TopologyKind, level: u8, entries: &[(u64, u16)]) -> Vec<u8> {
    let masks_offset = match kind {
        TopologyKind::Core => 32,
        TopologyKind::Cache => 40,
    };
    let size = masks_offset + 16 * entries.len();
    let mut r = vec![0u8; size];
    r[4..8].copy_from_slice(&(size as u32).to_le_bytes());
    r[8] = level;
    r[masks_offset - 2..masks_offset].copy_from_slice(&(entries.len() as u16).to_le_bytes());
    for (i, (mask, group)) in entries.iter().enumerate() {
        let start = masks_offset + 16 * i;
        r[start..start + 8].copy_from_slice(&mask.to_le_bytes());
        r[start + 8..start + 10].copy_from_slice(&group.to_le_bytes());
    }
    r
}

fn core_entry(mask: usize) -> CpuTopology {
    CpuTopology { kind: TopologyKind::Core, group: 0, mask, cache_level: None }
}

fn cache(level: u8, mask: usize) -> CpuTopology {
    CpuTopology { kind: TopologyKind::Cache, group: 0, mask, cache_level: Some(level) }
}

fn text(s: &str) -> EnvValue {
    EnvValue::Text(s.to_owned())
}

fn settings(stable: EnvValue, pair: EnvValue, topology: EnvValue) -> AffinitySettings {
    AffinitySettings { stable_affinity: stable, cpu_pair: pair, topology }
}

/// Two SMT cores sharing an L3, and a third core behind a second L3.
fn host() -> Vec<CpuTopology> {
    vec![core_entry(0b11), core_entry(0b1100), core_entry(0b11_0000), cache(2, 0b11), cache(3, 0b1111), cache(3, 0b11_0000)]
}

#[test]
fn parses_core_and_cache_records() {
    let mut data = record(TopologyKind::Core, 0, &[(0b11, 0)]);
    data.extend(record(TopologyKind::Core, 0, &[(0b1100, 0), (0b1, 1)]));
    let cores = parse_topology_records(&data, TopologyKind::Core).unwrap();
    assert_eq!(
        cores,
        vec![
            core_entry(0b11),
            core_entry(0b1100),
            CpuTopology { kind: TopologyKind::Core, group: 1, mask: 1, cache_level: None },
        ]
    );
    let caches = parse_topology_records(&record(TopologyKind::Cache, 3, &[(0xFF, 0)]), TopologyKind::Cache)
        .unwrap();
    assert_eq!(caches, vec![cache(3, 0xFF)]);
    assert_eq!(parse_topology_records(&[], TopologyKind::Core), Ok(vec![]));
}

#[test]
fn rejects_malformed_topology_records() {
    let good = record(TopologyKind::Core, 0, &[(1, 0)]);
    // Truncated header.
    assert_eq!(parse_topology_records(&good[..7], TopologyKind::Core), Err(TopologyError::InvalidRecord));
    // Size larger than the data.
    assert_eq!(parse_topology_records(&good[..40], TopologyKind::Core), Err(TopologyError::InvalidRecord));
    // Size below eight.
    let mut tiny = good.clone();
    tiny[4..8].copy_from_slice(&4u32.to_le_bytes());
    assert_eq!(parse_topology_records(&tiny, TopologyKind::Core), Err(TopologyError::InvalidRecord));
    // Zero group masks.
    let mut empty = good.clone();
    empty[30] = 0;
    assert_eq!(parse_topology_records(&empty, TopologyKind::Core), Err(TopologyError::InvalidRecord));
    // More group masks than the record holds.
    let mut over = good.clone();
    over[30] = 2;
    assert_eq!(parse_topology_records(&over, TopologyKind::Core), Err(TopologyError::InvalidRecord));
    // A core record read as a cache record is too short for its count.
    assert_eq!(parse_topology_records(&good, TopologyKind::Cache), Err(TopologyError::InvalidRecord));
    // A bad record after a good one spoils the report.
    let mut both = good.clone();
    both.extend_from_slice(&tiny);
    assert_eq!(parse_topology_records(&both, TopologyKind::Core), Err(TopologyError::InvalidRecord));
}

#[test]
fn lowest_logical_processor() {
    assert_eq!(first_logical_processor_mask(0), None);
    assert_eq!(first_logical_processor_mask(1), Some(1));
    assert_eq!(first_logical_processor_mask(0b1100), Some(0b100));
    assert_eq!(first_logical_processor_mask(usize::MAX), Some(1));
    assert_eq!(first_logical_processor_mask(1 << 63), Some(1 << 63));
}

#[test]
fn stable_affinity_switch_words() {
    assert!(!stable_affinity_enabled(&EnvValue::Unset));
    assert!(!stable_affinity_enabled(&EnvValue::NotUnicode));
    for off in ["", "  ", "0", "false", " FALSE ", "No", "off\t"] {
        assert!(!stable_affinity_enabled(&text(off)), "{off:?}");
    }
    for on in ["1", "true", "yes", " On ", "2"] {
        assert!(stable_affinity_enabled(&text(on)), "{on:?}");
    }
}

#[test]
fn placement_is_requested_only_when_asked() {
    assert!(!affinity_requested(&settings(Unset, Unset, Unset)));
    assert!(!affinity_requested(&settings(text("0"), Unset, Unset)));
    assert!(affinity_requested(&settings(text("1"), Unset, Unset)));
    assert!(affinity_requested(&settings(Unset, text("0,2"), Unset)));
    assert!(affinity_requested(&settings(Unset, NotUnicode, Unset)));
    assert!(affinity_requested(&settings(Unset, Unset, text("smt"))));
    assert!(!affinity_requested(&settings(text("1"), Unset, text("unpinned"))));
    assert!(affinity_requested(&settings(Unset, text("0,2"), text("unpinned"))));
    assert_eq!(stable_affinity_pair(&settings(Unset, Unset, Unset), &host()), Ok(None));
}

#[test]
fn stable_affinity_picks_separate_cores_sharing_the_last_cache() {
    let pair = stable_affinity_pair(&settings(text("1"), EnvValue::Unset, EnvValue::Unset), &host());
    assert_eq!(pair, Ok(Some(StableAffinityPair { parent_mask: 1, child_mask: 4 })));
    let explicit = stable_affinity_pair(
        &settings(EnvValue::Unset, EnvValue::Unset, text("separate-core")),
        &host(),
    );
    assert_eq!(explicit, pair);
}

#[test]
fn separate_core_searches_cache_membership() {
    // The first last-level cache holds one core only; the second holds two.
    let t = vec![core_entry(0b1), core_entry(0b10), core_entry(0b100), cache(3, 0b1), cache(3, 0b110)];
    assert_eq!(
        stable_affinity_pair(&settings(text("on"), EnvValue::Unset, EnvValue::Unset), &t),
        Ok(Some(StableAffinityPair { parent_mask: 0b10, child_mask: 0b100 }))
    );
    let lonely = vec![core_entry(0b1), core_entry(0b10), cache(3, 0b1), cache(3, 0b10)];
    assert_eq!(
        stable_affinity_pair(&settings(text("on"), EnvValue::Unset, EnvValue::Unset), &lonely),
        Err(AffinityError::Unavailable)
    );
}

#[test]
fn smt_and_separate_cache_topologies() {
    let smt = stable_affinity_pair(&settings(EnvValue::Unset, EnvValue::Unset, text("smt")), &host());
    assert_eq!(smt, Ok(Some(StableAffinityPair { parent_mask: 1, child_mask: 2 })));
    let caches =
        stable_affinity_pair(&settings(EnvValue::Unset, EnvValue::Unset, text("separate-cache")), &host());
    assert_eq!(caches, Ok(Some(StableAffinityPair { parent_mask: 1, child_mask: 0b1_0000 })));
    let no_smt = vec![core_entry(1), core_entry(2), cache(3, 3)];
    assert_eq!(
        stable_affinity_pair(&settings(EnvValue::Unset, EnvValue::Unset, text("smt")), &no_smt),
        Err(AffinityError::Unavailable)
    );
    assert_eq!(
        stable_affinity_pair(&settings(EnvValue::Unset, EnvValue::Unset, text("separate-cache")), &no_smt),
        Err(AffinityError::Unavailable)
    );
    assert_eq!(
        stable_affinity_pair(&settings(EnvValue::Unset, EnvValue::Unset, text("unpinned")), &host()),
        Ok(None)
    );
    assert_eq!(
        stable_affinity_pair(&settings(EnvValue::Unset, EnvValue::Unset, text("sideways")), &host()),
        Err(AffinityError::Unavailable)
    );
}

#[test]
fn explicit_cpu_pairs() {
    let ask = |pair: &str| stable_affinity_pair(&settings(EnvValue::Unset, text(pair), EnvValue::Unset), &host());
    assert_eq!(ask("0,2"), Ok(Some(StableAffinityPair { parent_mask: 1, child_mask: 4 })));
    assert_eq!(ask("5,0"), Ok(Some(StableAffinityPair { parent_mask: 32, child_mask: 1 })));
    assert_eq!(ask("1,1"), Err(AffinityError::Unavailable));
    assert_eq!(ask("0,6"), Err(AffinityError::Unavailable));
    assert_eq!(ask("0,64"), Err(AffinityError::Unavailable));
    assert_eq!(ask("0"), Err(AffinityError::Unavailable));
    assert_eq!(ask("0,1,2"), Err(AffinityError::Unavailable));
    assert_eq!(ask("a,b"), Err(AffinityError::Unavailable));
    // An explicit pair wins over an unpinned topology.
    assert_eq!(
        stable_affinity_pair(&settings(EnvValue::Unset, text("0,2"), text("unpinned")), &host()),
        Ok(Some(StableAffinityPair { parent_mask: 1, child_mask: 4 }))
    );
}

#[test]
fn multiple_processor_groups_are_refused() {
    let mut t = host();
    t.push(CpuTopology { kind: TopologyKind::Core, group: 1, mask: 1, cache_level: None });
    assert_eq!(
        stable_affinity_pair(&settings(text("1"), EnvValue::Unset, EnvValue::Unset), &t),
        Err(AffinityError::MultipleGroups)
    );
}

#[test]
fn every_placement_is_two_distinct_single_processors() {
    let modes = ["smt", "separate-core", "separate-cache"];
    for mode in modes {
        let pair = stable_affinity_pair(&settings(EnvValue::Unset, EnvValue::Unset, text(mode)), &host())
            .unwrap()
            .unwrap();
        assert_eq!(pair.parent_mask.count_ones(), 1, "{mode}");
        assert_eq!(pair.child_mask.count_ones(), 1, "{mode}");
        assert_ne!(pair.parent_mask, pair.child_mask, "{mode}");
    }
    for explicit in ["0,1", "3,2", "4,5"] {
        let pair = stable_affinity_pair(&settings(EnvValue::Unset, text(explicit), EnvValue::Unset), &host())
            .unwrap()
            .unwrap();
        assert_eq!(pair.parent_mask.count_ones(), 1);
        assert_eq!(pair.child_mask.count_ones(), 1);
        assert_ne!(pair.parent_mask, pair.child_mask);
    }
}
