use sc_transport::netprobe::{classify, suggest, server_name_for, CongestionOracle, LinkClass, LinkType};

#[test]
fn suggested_config_scales_with_link_class() {
    let link = classify(120_000_000);
    let cfg = suggest(&link);
    assert!(cfg.initial_cwnd_bytes >= 1_000_000);
    assert!(!cfg.use_datagrams_for_progress);
}

#[test]
fn link_classes_by_rtt() {
    assert_eq!(classify(1_000_000), LinkClass::Datacenter);
    assert_eq!(classify(5_000_000), LinkClass::Regional);
    assert_eq!(classify(29_999_999), LinkClass::Regional);
    assert_eq!(classify(30_000_000), LinkClass::Continental);
    assert_eq!(classify(100_000_000), LinkClass::Intercontinental);
    assert_eq!(suggest(&LinkClass::Datacenter).initial_cwnd_bytes, 65536);
    assert_eq!(suggest(&LinkClass::Regional).chunk_size_for_batch, 64);
    assert_eq!(suggest(&LinkClass::Intercontinental).max_parallel_streams, 16);
}

#[test]
fn congestion_oracle_link_types() {
    assert_eq!(CongestionOracle::link_type_for(9_999_999), LinkType::Datacenter);
    assert_eq!(CongestionOracle::link_type_for(10_000_000), LinkType::Continental);
    assert_eq!(CongestionOracle::link_type_for(80_000_000), LinkType::Intercontinental);
    assert_eq!(CongestionOracle::min_rtt_ns(&[]), 200_000_000);
    assert_eq!(CongestionOracle::min_rtt_ns(&[30, 10, 20]), 10);
    assert_eq!(server_name_for(true, "127.0.0.1"), "localhost");
    assert_eq!(server_name_for(false, "10.0.0.2"), "10.0.0.2");
}
