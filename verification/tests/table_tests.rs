use bgp_router::ipv4::to_decimal;
use bgp_router::routing_table::{
    update_is_idempotent, update_then_withdraw_restores, Network, Origin, RouteError, Table,
};

fn entry(peer: &str, network: &str, netmask: &str, localpref: u32, self_origin: bool, path: &[u32], origin: Origin) -> Network {
    Network::new(
        to_decimal(peer),
        to_decimal(network),
        to_decimal(netmask),
        localpref,
        self_origin,
        path.to_vec(),
        origin,
    )
}

fn base(network: &str, netmask: &str) -> Network {
    entry("192.0.2.2", network, netmask, 100, true, &[1], Origin::IGP)
}

#[test]
fn aggregate_two_slash24_to_slash23() {
    let mut t = Table::new();
    t.update(base("10.0.0.0", "255.255.255.0"));
    t.update(base("10.0.1.0", "255.255.255.0"));
    let rows = t.get_table();
    assert_eq!(rows.len(), 1);
    assert_eq!(rows[0].network, to_decimal("10.0.0.0"));
    assert_eq!(rows[0].netmask, to_decimal("255.255.254.0"));
    assert_eq!(rows[0].peer, to_decimal("192.0.2.2"));
    assert_eq!(rows[0].localpref, 100);
    assert!(rows[0].self_origin);
    assert_eq!(rows[0].as_path, vec![1]);
    assert_eq!(rows[0].origin, Origin::IGP);
}

#[test]
fn cascade_aggregation_to_slash22() {
    let mut t = Table::new();
    t.update(base("10.0.0.0", "255.255.255.0"));
    t.update(base("10.0.1.0", "255.255.255.0"));
    t.update(base("10.0.2.0", "255.255.255.0"));
    t.update(base("10.0.3.0", "255.255.255.0"));
    let rows = t.get_table();
    assert_eq!(rows.len(), 1);
    assert_eq!(rows[0].network, to_decimal("10.0.0.0"));
    assert_eq!(rows[0].netmask, to_decimal("255.255.252.0"));
}

#[test]
fn no_aggregation_on_differing_localpref() {
    let mut t = Table::new();
    t.update(entry("192.0.2.2", "10.0.0.0", "255.255.255.0", 100, true, &[1], Origin::IGP));
    t.update(entry("192.0.2.2", "10.0.1.0", "255.255.255.0", 200, true, &[1], Origin::IGP));
    assert_eq!(t.get_table().len(), 2);
}

#[test]
fn no_aggregation_across_peers() {
    let mut t = Table::new();
    t.update(entry("192.0.2.2", "10.0.0.0", "255.255.255.0", 100, true, &[1], Origin::IGP));
    t.update(entry("192.0.2.6", "10.0.1.0", "255.255.255.0", 100, true, &[1], Origin::IGP));
    assert_eq!(t.get_table().len(), 2);
}

#[test]
fn no_aggregation_when_not_adjacent_under_shared_mask() {
    // 10.0.1.0/24 and 10.0.2.0/24 differ in block index by one but do
    // not share a covering /23, so they must not merge.
    let mut t = Table::new();
    t.update(base("10.0.1.0", "255.255.255.0"));
    t.update(base("10.0.2.0", "255.255.255.0"));
    assert_eq!(t.get_table().len(), 2);
}

#[test]
fn disaggregate_on_withdraw() {
    let mut t = Table::new();
    t.update(base("10.0.0.0", "255.255.255.0"));
    t.update(base("10.0.1.0", "255.255.255.0"));
    t.withdraw(
        to_decimal("10.0.1.0"),
        to_decimal("255.255.255.0"),
        to_decimal("192.0.2.2"),
    );
    let rows = t.get_table();
    assert_eq!(rows.len(), 1);
    assert_eq!(rows[0].network, to_decimal("10.0.0.0"));
    assert_eq!(rows[0].netmask, to_decimal("255.255.255.0"));
}

#[test]
fn deep_disaggregation_splits_out_remainder() {
    let mut t = Table::new();
    t.update(base("10.0.0.0", "255.0.0.0"));
    t.withdraw(
        to_decimal("10.255.255.0"),
        to_decimal("255.255.255.0"),
        to_decimal("192.0.2.2"),
    );
    // The /8 minus one /24 leaves 24 - 8 = 16 disjoint pieces.
    let rows = t.get_table();
    assert_eq!(rows.len(), 16);
    for r in rows.iter() {
        assert!(!(r.network <= to_decimal("10.255.255.0")
            && to_decimal("10.255.255.0") <= r.network | !r.netmask));
    }
}

#[test]
fn update_then_withdraw_restores_empty_table() {
    let mut t = Table::new();
    t.update(base("10.0.0.0", "255.255.255.0"));
    assert_eq!(t.get_table().len(), 1);
    t.withdraw(
        to_decimal("10.0.0.0"),
        to_decimal("255.255.255.0"),
        to_decimal("192.0.2.2"),
    );
    assert_eq!(t.get_table().len(), 0);
}

#[test]
fn update_then_withdraw_restores_unrelated_entry() {
    let mut t = Table::new();
    t.update(entry("192.0.2.6", "172.16.0.0", "255.255.0.0", 50, false, &[7, 8], Origin::EGP));
    t.update(base("10.0.0.0", "255.255.255.0"));
    t.withdraw(
        to_decimal("10.0.0.0"),
        to_decimal("255.255.255.0"),
        to_decimal("192.0.2.2"),
    );
    let rows = t.get_table();
    assert_eq!(rows.len(), 1);
    assert_eq!(rows[0].network, to_decimal("172.16.0.0"));
    assert_eq!(rows[0].peer, to_decimal("192.0.2.6"));
}

#[test]
fn repeated_update_is_idempotent() {
    let mut t = Table::new();
    t.update(base("10.0.0.0", "255.255.255.0"));
    t.update(base("10.0.0.0", "255.255.255.0"));
    let rows = t.get_table();
    assert_eq!(rows.len(), 1);
    assert_eq!(rows[0].network, to_decimal("10.0.0.0"));
    assert_eq!(rows[0].netmask, to_decimal("255.255.255.0"));
}

#[test]
fn re_announcing_a_finer_route_reaggregates() {
    // A /23 is present; the same peer re-announces one of its /24
    // halves with equal attributes. The replacement withdraws the /24
    // range, leaving the other half, which then merges back: the table
    // ends as the original /23.
    let mut t = Table::new();
    t.update(base("10.0.0.0", "255.255.254.0"));
    t.update(base("10.0.0.0", "255.255.255.0"));
    let rows = t.get_table();
    assert_eq!(rows.len(), 1);
    assert_eq!(rows[0].network, to_decimal("10.0.0.0"));
    assert_eq!(rows[0].netmask, to_decimal("255.255.254.0"));
}

#[test]
fn withdraw_of_wider_range_removes_finer_row() {
    // Withdrawing a /23 whose address a /24 row covers removes that row.
    let mut t = Table::new();
    t.update(base("10.0.0.0", "255.255.255.0"));
    t.withdraw(
        to_decimal("10.0.0.0"),
        to_decimal("255.255.254.0"),
        to_decimal("192.0.2.2"),
    );
    assert_eq!(t.get_table().len(), 0);
}

#[test]
fn restoration_law_on_concrete_table() {
    let mut t = Table::new();
    t.update(entry("192.0.2.6", "172.16.0.0", "255.255.0.0", 50, false, &[7, 8], Origin::EGP));
    update_then_withdraw_restores(&mut t, base("10.0.0.0", "255.255.255.0"));
    let rows = t.get_table();
    assert_eq!(rows.len(), 1);
    assert_eq!(rows[0].network, to_decimal("172.16.0.0"));
}

#[test]
fn idempotence_law_on_concrete_table() {
    let mut t = Table::new();
    update_is_idempotent(&mut t, base("10.0.0.0", "255.255.255.0"));
    let rows = t.get_table();
    assert_eq!(rows.len(), 1);
    assert_eq!(rows[0].network, to_decimal("10.0.0.0"));
    assert_eq!(rows[0].netmask, to_decimal("255.255.255.0"));
}

#[test]
fn withdraw_on_empty_table_is_noop() {
    let mut t = Table::new();
    t.withdraw(
        to_decimal("10.0.0.0"),
        to_decimal("255.255.255.0"),
        to_decimal("192.0.2.2"),
    );
    assert_eq!(t.get_table().len(), 0);
}

#[test]
fn disaggregate_reports_whether_anything_matched() {
    let mut t = Table::new();
    assert!(!t.disaggregate(
        to_decimal("10.0.0.0"),
        to_decimal("255.255.255.0"),
        to_decimal("192.0.2.2")
    ));
    t.update(base("10.0.0.0", "255.255.255.0"));
    assert!(t.disaggregate(
        to_decimal("10.0.0.0"),
        to_decimal("255.255.255.0"),
        to_decimal("192.0.2.2")
    ));
    assert_eq!(t.get_table().len(), 0);
}

#[test]
fn best_route_on_empty_table_is_no_route() {
    let t = Table::new();
    assert_eq!(t.best_route(to_decimal("8.8.8.8")), Err(RouteError::NoRoute));
}

#[test]
fn best_route_prefers_longest_prefix() {
    let mut t = Table::new();
    t.update(entry("10.0.0.2", "10.0.0.0", "255.0.0.0", 100, false, &[1], Origin::IGP));
    t.update(entry("10.0.1.2", "10.0.0.0", "255.255.255.0", 100, false, &[1], Origin::IGP));
    assert_eq!(t.best_route(to_decimal("10.0.0.77")), Ok(to_decimal("10.0.1.2")));
    // Outside the /24, only the /8 matches.
    assert_eq!(t.best_route(to_decimal("10.9.0.1")), Ok(to_decimal("10.0.0.2")));
}

#[test]
fn best_route_prefers_higher_localpref() {
    let mut t = Table::new();
    t.update(entry("10.0.0.2", "20.0.0.0", "255.0.0.0", 100, false, &[1], Origin::IGP));
    t.update(entry("10.0.1.2", "21.0.0.0", "255.0.0.0", 150, false, &[1], Origin::IGP));
    t.update(entry("10.0.2.2", "20.0.0.0", "255.0.0.0", 120, false, &[1], Origin::IGP));
    assert_eq!(t.best_route(to_decimal("20.1.2.3")), Ok(to_decimal("10.0.2.2")));
}

#[test]
fn best_route_prefers_self_origin() {
    let mut t = Table::new();
    t.update(entry("10.0.0.2", "20.0.0.0", "255.0.0.0", 100, false, &[1], Origin::IGP));
    t.update(entry("10.0.1.2", "20.0.0.0", "255.0.0.0", 100, true, &[1], Origin::IGP));
    assert_eq!(t.best_route(to_decimal("20.1.2.3")), Ok(to_decimal("10.0.1.2")));
}

#[test]
fn best_route_tie_break_on_path_length() {
    let mut t = Table::new();
    t.update(entry("10.0.0.2", "20.0.0.0", "255.0.0.0", 100, false, &[1, 2, 3], Origin::IGP));
    t.update(entry("10.0.1.2", "20.0.0.0", "255.0.0.0", 100, false, &[1, 2], Origin::IGP));
    assert_eq!(t.best_route(to_decimal("20.1.2.3")), Ok(to_decimal("10.0.1.2")));
}

#[test]
fn best_route_prefers_better_origin() {
    let mut t = Table::new();
    t.update(entry("10.0.0.2", "20.0.0.0", "255.0.0.0", 100, false, &[1], Origin::UNK));
    t.update(entry("10.0.1.2", "20.0.0.0", "255.0.0.0", 100, false, &[2], Origin::EGP));
    t.update(entry("10.0.2.2", "20.0.0.0", "255.0.0.0", 100, false, &[3], Origin::IGP));
    assert_eq!(t.best_route(to_decimal("20.1.2.3")), Ok(to_decimal("10.0.2.2")));
}

#[test]
fn best_route_tie_break_on_lowest_peer() {
    let mut t = Table::new();
    t.update(entry("10.0.9.2", "20.0.0.0", "255.0.0.0", 100, false, &[1], Origin::IGP));
    t.update(entry("10.0.1.2", "20.0.0.0", "255.0.0.0", 100, false, &[2], Origin::IGP));
    assert_eq!(t.best_route(to_decimal("20.1.2.3")), Ok(to_decimal("10.0.1.2")));
}

#[test]
fn best_route_misses_when_nothing_covers() {
    let mut t = Table::new();
    t.update(base("10.0.0.0", "255.255.255.0"));
    assert_eq!(t.best_route(to_decimal("8.8.8.8")), Err(RouteError::NoRoute));
}

#[test]
fn entry_well_formedness_check() {
    assert!(base("10.0.0.0", "255.255.255.0").is_wf());
    // Host bits below the netmask.
    assert!(!base("10.0.0.1", "255.255.255.0").is_wf());
    // A non-contiguous netmask.
    assert!(!base("10.0.0.0", "255.0.255.0").is_wf());
}
