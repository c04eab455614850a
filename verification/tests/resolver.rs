use librqbit_dualstack_sockets::BindDevice;
use torrent_streaming::addr::{IpAddress, SocketAddress};
use torrent_streaming::dns::{DnsError, DNS_TYPE_A, DNS_TYPE_AAAA};
use torrent_streaming::resolver::{BoundDnsResolver, PendingResolve, ResolveStep, DNS_PORT};

fn resolver(ipv4_only: bool) -> BoundDnsResolver {
    let device = BindDevice::new_from_name("lo").unwrap();
    BoundDnsResolver::new(IpAddress::v4(192, 0, 2, 53), device, ipv4_only)
}

fn asked(step: ResolveStep) -> PendingResolve {
    match step {
        ResolveStep::Ask(pending) => pending,
        ResolveStep::Done(_) => panic!("done"),
        ResolveStep::NoAddresses => panic!("no addresses"),
    }
}

fn done(step: ResolveStep) -> Vec<SocketAddress> {
    match step {
        ResolveStep::Ask(_) => panic!("asks"),
        ResolveStep::Done(addrs) => addrs,
        ResolveStep::NoAddresses => panic!("no addresses"),
    }
}

#[test]
fn an_address_is_a_number() {
    assert_eq!(IpAddress::v4(192, 0, 2, 1), IpAddress::V4(0xc000_0201));
}

#[test]
fn a_resolver_asks_at_the_dns_port() {
    let r = resolver(true);
    assert_eq!(r.server, SocketAddress::V4 { ip: 0xc000_0235, port: DNS_PORT });
    assert_eq!(DNS_PORT, 53);
    assert!(r.ipv4_only);
    assert_eq!(r.bind_device.name(), "lo");
}

#[test]
fn a_copy_of_a_resolver_has_the_same_interface() {
    let r = resolver(false);
    let copy = r.clone();
    assert_eq!(copy.server, r.server);
    assert_eq!(copy.bind_device.index(), r.bind_device.index());
    assert_eq!(copy.bind_device.name(), "lo");
    assert!(!copy.ipv4_only);
}

#[test]
fn the_socket_is_of_the_servers_family() {
    let r = resolver(false);
    assert_eq!(r.bind_addr(), SocketAddress::V4 { ip: 0, port: 0 });
    let device = BindDevice::new_from_name("lo").unwrap();
    let r = BoundDnsResolver::new(IpAddress::V6(1), device, false);
    assert_eq!(
        r.bind_addr(),
        SocketAddress::V6 { ip: 0, port: 0, flowinfo: 0, scope_id: 0 }
    );
}

#[test]
fn queries_get_numbers_by_chance() {
    let r = resolver(false);
    let mut ids = Vec::new();
    for _ in 0..64 {
        let query = r.start_query("tracker.example", DNS_TYPE_A).unwrap();
        assert_eq!(query.record_type, DNS_TYPE_A);
        assert_eq!(query.packet[..2], query.transaction_id.to_be_bytes());
        ids.push(query.transaction_id);
    }
    assert!(ids.iter().any(|id| *id != ids[0]));
}

#[test]
fn a_query_needs_a_name() {
    let r = resolver(false);
    assert_eq!(
        r.start_query("", DNS_TYPE_A).err(),
        Some(DnsError::InvalidHostname)
    );
}

#[test]
fn only_the_server_may_answer() {
    let r = resolver(false);
    let query = r.start_query_as(0x1234, "tracker.example", DNS_TYPE_A).unwrap();
    let mut message = query.packet.clone();
    message[2] = 0x81;
    message[3] = 0x80;
    message[7] = 1;
    message.extend_from_slice(&[0xc0, 0x0c, 0, 1, 0, 1, 0, 0, 0, 60, 0, 4, 192, 0, 2, 9]);
    assert_eq!(
        r.finish_query(&query, r.server, &message),
        Ok(vec![IpAddress::v4(192, 0, 2, 9)])
    );
    let other = SocketAddress::V4 { ip: 0xc000_0235, port: 54 };
    assert_eq!(
        r.finish_query(&query, other, &message),
        Err(DnsError::UnexpectedServer)
    );
    let next = r.start_query_as(0x1235, "tracker.example", DNS_TYPE_A).unwrap();
    assert_eq!(
        r.finish_query(&next, r.server, &message),
        Err(DnsError::TransactionMismatch)
    );
}

#[test]
fn a_literal_address_needs_no_query() {
    let r = resolver(false);
    assert_eq!(
        done(r.start_resolve(Some(IpAddress::v4(10, 0, 0, 1)), 6881)),
        vec![SocketAddress::V4 { ip: 0x0a00_0001, port: 6881 }]
    );
}

#[test]
fn both_families_are_asked_for() {
    let r = resolver(false);
    let first = asked(r.start_resolve(None, 6881));
    assert_eq!(first.record_type, DNS_TYPE_A);
    let second = asked(first.answered::<DnsError>(Ok(vec![IpAddress::v4(10, 0, 0, 1)])));
    assert_eq!(second.record_type, DNS_TYPE_AAAA);
    assert_eq!(
        done(second.answered::<DnsError>(Ok(vec![IpAddress::V6(7)]))),
        vec![
            SocketAddress::V4 { ip: 0x0a00_0001, port: 6881 },
            SocketAddress::V6 { ip: 7, port: 6881, flowinfo: 0, scope_id: 0 },
        ]
    );
}

#[test]
fn one_family_may_fail() {
    let r = resolver(false);
    let second = asked(asked(r.start_resolve(None, 80)).answered(Err(DnsError::TruncatedName)));
    assert_eq!(
        done(second.answered::<DnsError>(Ok(vec![IpAddress::V6(7)]))),
        vec![SocketAddress::V6 { ip: 7, port: 80, flowinfo: 0, scope_id: 0 }]
    );
}

#[test]
fn ipv4_only_asks_once() {
    let r = resolver(true);
    let first = asked(r.start_resolve(None, 80));
    assert_eq!(
        done(first.answered::<DnsError>(Ok(vec![IpAddress::v4(10, 0, 0, 1)]))),
        vec![SocketAddress::V4 { ip: 0x0a00_0001, port: 80 }]
    );
}

#[test]
fn a_name_without_addresses_fails() {
    let r = resolver(true);
    let first = asked(r.start_resolve(None, 80));
    assert!(matches!(
        first.answered::<DnsError>(Ok(Vec::new())),
        ResolveStep::NoAddresses
    ));
    let r = resolver(false);
    let second = asked(asked(r.start_resolve(None, 80)).answered(Err(DnsError::NotResponse)));
    assert!(matches!(
        second.answered(Err(DnsError::NotResponse)),
        ResolveStep::NoAddresses
    ));
}
