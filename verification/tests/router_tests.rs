use bgp_router::ipv4::to_decimal;
use bgp_router::router::{DataAction, NeighborType, Router, RouterError, local_addr, relation_of};
use bgp_router::routing_table::{Network, Origin, Table};

fn three_neighbor_router() -> Router {
    // A and B are peers, C is a customer.
    let mut r = Router::new();
    r.assign_asn(7);
    r.add_neighbor(to_decimal("192.168.0.2"), 5001, "peer").unwrap();
    r.add_neighbor(to_decimal("172.16.0.2"), 5002, "peer").unwrap();
    r.add_neighbor(to_decimal("10.0.0.2"), 5003, "cust").unwrap();
    r
}

fn announcement(peer: &str) -> Network {
    Network::new(
        to_decimal(peer),
        to_decimal("20.0.0.0"),
        to_decimal("255.255.255.0"),
        100,
        false,
        vec![2],
        Origin::IGP,
    )
}

#[test]
fn relation_words() {
    assert_eq!(relation_of("cust"), Some(NeighborType::Cust));
    assert_eq!(relation_of("peer"), Some(NeighborType::Peer));
    assert_eq!(relation_of("prov"), Some(NeighborType::Prov));
    assert_eq!(relation_of("provider"), None);
    assert_eq!(relation_of(""), None);
    assert_eq!(relation_of("CUST"), None);
}

#[test]
fn invalid_relation_is_rejected() {
    let mut r = Router::new();
    assert_eq!(
        r.add_neighbor(to_decimal("192.168.0.2"), 5001, "friend"),
        Err(RouterError::InvalidRelation)
    );
    assert_eq!(r.neighbors.len(), 0);
}

#[test]
fn re_registration_replaces_the_record() {
    let mut r = Router::new();
    r.add_neighbor(to_decimal("192.168.0.2"), 5001, "peer").unwrap();
    r.add_neighbor(to_decimal("192.168.0.2"), 6001, "cust").unwrap();
    assert_eq!(r.neighbors.len(), 1);
    assert_eq!(r.neighbors[0].port, 6001);
    assert_eq!(r.neighbors[0].relation, NeighborType::Cust);
}

#[test]
fn local_end_address_convention() {
    assert_eq!(local_addr(to_decimal("192.168.0.2")), to_decimal("192.168.0.1"));
    assert_eq!(local_addr(to_decimal("10.0.0.25")), to_decimal("10.0.0.1"));
    assert_eq!(local_addr(to_decimal("172.16.0.1")), to_decimal("172.16.0.1"));
}

#[test]
fn update_from_peer_goes_to_customers_only() {
    let r = three_neighbor_router();
    let mut t = Table::new();
    // From peer A: only the customer C hears about it.
    let out = r.handle_update(&mut t, announcement("192.168.0.2"));
    assert_eq!(out.len(), 1);
    assert_eq!(out[0].dst.addr, to_decimal("10.0.0.2"));
    assert_eq!(out[0].dst.port, 5003);
    assert_eq!(t.get_table().len(), 1);
}

#[test]
fn update_from_customer_goes_to_everyone_else() {
    let r = three_neighbor_router();
    let mut t = Table::new();
    let out = r.handle_update(&mut t, announcement("10.0.0.2"));
    let dsts: Vec<u32> = out.iter().map(|u| u.dst.addr).collect();
    assert_eq!(dsts, vec![to_decimal("192.168.0.2"), to_decimal("172.16.0.2")]);
}

#[test]
fn forwarded_update_prepends_local_asn() {
    let r = three_neighbor_router();
    let mut t = Table::new();
    let out = r.handle_update(&mut t, announcement("10.0.0.2"));
    for u in out.iter() {
        assert_eq!(u.network, to_decimal("20.0.0.0"));
        assert_eq!(u.netmask, to_decimal("255.255.255.0"));
        assert_eq!(u.as_path, vec![7, 2]);
    }
}

#[test]
fn withdraw_exports_to_the_same_set_as_update() {
    let r = three_neighbor_router();
    let mut t = Table::new();
    let upd = r.handle_update(&mut t, announcement("10.0.0.2"));
    let upd_dsts: Vec<u32> = upd.iter().map(|u| u.dst.addr).collect();
    let wd = r.handle_withdraw(
        &mut t,
        to_decimal("10.0.0.2"),
        &vec![(to_decimal("20.0.0.0"), to_decimal("255.255.255.0"))],
    );
    let wd_dsts: Vec<u32> = wd.iter().map(|n| n.addr).collect();
    assert_eq!(upd_dsts, wd_dsts);
    // And the table is back to its pre-update state.
    assert_eq!(t.get_table().len(), 0);
}

#[test]
fn withdraw_from_peer_goes_to_customers_only() {
    let r = three_neighbor_router();
    let mut t = Table::new();
    r.handle_update(&mut t, announcement("192.168.0.2"));
    let wd = r.handle_withdraw(
        &mut t,
        to_decimal("192.168.0.2"),
        &vec![(to_decimal("20.0.0.0"), to_decimal("255.255.255.0"))],
    );
    assert_eq!(wd.len(), 1);
    assert_eq!(wd[0].addr, to_decimal("10.0.0.2"));
    assert_eq!(t.get_table().len(), 0);
}

#[test]
fn data_with_empty_table_gets_no_route_reply() {
    let r = three_neighbor_router();
    let t = Table::new();
    let act = r.handle_data(&t, to_decimal("192.168.0.2"), to_decimal("8.8.8.8"));
    assert!(matches!(act, DataAction::NoRouteReply));
}

#[test]
fn data_from_customer_is_forwarded() {
    let r = three_neighbor_router();
    let mut t = Table::new();
    // A route via peer A.
    r.handle_update(&mut t, announcement("192.168.0.2"));
    let act = r.handle_data(&t, to_decimal("10.0.0.2"), to_decimal("20.0.0.77"));
    match act {
        DataAction::Forward(n) => {
            assert_eq!(n.addr, to_decimal("192.168.0.2"));
            assert_eq!(n.port, 5001);
        }
        DataAction::NoRouteReply => panic!("packet from a customer must be forwarded"),
    }
}

#[test]
fn data_toward_customer_is_forwarded() {
    let r = three_neighbor_router();
    let mut t = Table::new();
    // A route via customer C.
    r.handle_update(&mut t, announcement("10.0.0.2"));
    let act = r.handle_data(&t, to_decimal("192.168.0.2"), to_decimal("20.0.0.77"));
    assert!(matches!(act, DataAction::Forward(_)));
}

#[test]
fn data_between_peers_is_suppressed() {
    let r = three_neighbor_router();
    let mut t = Table::new();
    // A route via peer B; the packet comes from peer A.
    r.handle_update(&mut t, announcement("172.16.0.2"));
    let act = r.handle_data(&t, to_decimal("192.168.0.2"), to_decimal("20.0.0.77"));
    assert!(matches!(act, DataAction::NoRouteReply));
}
