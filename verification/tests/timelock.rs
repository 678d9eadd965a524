use thelma::htlc::HTLC;

#[test]
fn test_remaining_budget_calculation() {
    let htlc = HTLC::new(
        "test_hash",
        700100,  // expiry
        100000,  // amount
        700000,  // current block
        "test_node",
    );

    assert_eq!(htlc.remaining_cltv_budget(), 100);
}

#[test]
fn test_final_hop_detection() {
    // A payment that might be near its destination
    let final_htlc = HTLC::new(
        "test_hash",
        700040,  // expiry = current + default final delta
        100000,
        700000,
        "test_node",
    );

    assert!(final_htlc.is_likely_near_destination());

    // A payment with many hops remaining
    let mid_route_htlc = HTLC::new(
        "test_hash",
        700200,  // expiry = much higher than final delta
        100000,
        700000,
        "test_node",
    );

    assert!(!mid_route_htlc.is_likely_near_destination());
}

#[test]
fn test_max_hops_estimation() {
    // Minimal remaining budget (at final hop)
    let final_htlc = HTLC::new("hash", 700040, 100000, 700000, "node");
    assert_eq!(final_htlc.max_remaining_hops(), 0);

    // Budget for exactly one more hop
    let one_hop_htlc = HTLC::new("hash", 700054, 100000, 700000, "node");
    assert_eq!(one_hop_htlc.max_remaining_hops(), 1);

    // Budget for many hops
    let multi_hop_htlc = HTLC::new("hash", 700200, 100000, 700000, "node");
    assert!(multi_hop_htlc.max_remaining_hops() > 1);
}

#[test]
fn test_remaining_budget_never_underflows() {
    // Expiry below the observation height: exhausted budget, not a panic.
    let stale = HTLC::new("hash", 699900, 100000, 700000, "node");
    assert_eq!(stale.remaining_cltv_budget(), 0);
    assert_eq!(stale.max_remaining_hops(), 0);
    assert!(stale.is_likely_near_destination());

    // Exactly equal heights.
    let zero = HTLC::new("hash", 700000, 100000, 700000, "node");
    assert_eq!(zero.remaining_cltv_budget(), 0);
}

#[test]
fn test_budget_at_exact_final_delta() {
    // Remaining budget exactly the default final-hop delta.
    let htlc = HTLC::new("hash", 700040, 100000, 700000, "node");
    assert_eq!(htlc.remaining_cltv_budget(), 40);
    let analysis = htlc.timelock_analysis();
    assert!(analysis.could_be_final_hop);
    assert!(htlc.is_likely_near_destination());
    assert_eq!(analysis.estimated_final_delta, 0);
}

#[test]
fn test_max_hops_monotone_and_capped() {
    let mut previous = 0usize;
    let mut expiry = 700000u32;
    while expiry < 700500 {
        let htlc = HTLC::new("hash", expiry, 100000, 700000, "node");
        let hops = htlc.max_remaining_hops();
        assert!(hops >= previous);
        assert!(hops <= 5);
        previous = hops;
        expiry += 7;
    }
    // A huge budget still caps at 5.
    let huge = HTLC::new("hash", 4000000000, 100000, 700000, "node");
    assert_eq!(huge.max_remaining_hops(), 5);
}

#[test]
fn test_timelock_analysis_fields() {
    let htlc = HTLC::new("hash", 700100, 100000, 700000, "node");
    let analysis = htlc.timelock_analysis();
    assert_eq!(analysis.remaining_cltv_budget, 100);
    assert_eq!(analysis.estimated_final_delta, 60);
    assert!(analysis.could_be_final_hop); // 60 <= 120
    assert_eq!(analysis.max_remaining_hops, 4); // (100 - 40) / 14
}
