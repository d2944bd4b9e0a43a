//! A verified BGP-style routing engine: IPv4 prefix arithmetic, a routing
//! table with CIDR aggregation and disaggregation, longest-prefix-match
//! route selection, and the relationship-based export policy.

pub mod ipv4;
pub mod router;
pub mod routing_table;
