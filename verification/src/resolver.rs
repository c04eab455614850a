//! Resolving names through one DNS server that is reached over one network interface.
use crate::addr::{IpAddress, SocketAddress};
use crate::dns::{
    encode_query, parse_response, query, response, DnsError, DNS_TYPE_A, DNS_TYPE_AAAA,
};
use crate::outside::random_u16;
use librqbit_dualstack_sockets::BindDevice;
use vstd::prelude::*;
use vstd::utf8::encode_utf8;

verus! {

/// The port that DNS servers listen on.
pub const DNS_PORT: u16 = 53;

/// A resolver whose sockets are bound to one network interface, so that no lookup takes
/// another way.
#[derive(Debug)]
pub struct BoundDnsResolver {
    pub server: SocketAddress,
    pub bind_device: BindDevice,
    pub ipv4_only: bool,
}

impl Clone for BoundDnsResolver {
    fn clone(&self) -> (r: Self)
        ensures
            r == *self,
    {
        BoundDnsResolver {
            server: self.server,
            bind_device: self.bind_device.clone(),
            ipv4_only: self.ipv4_only,
        }
    }
}

/// `id` is a number that `rand::random` gives.
pub closed spec fn picked_by_chance(id: u16) -> bool {
    call_ensures(random_u16, (), id)
}

/// A query that is ready to be sent, and what its response is recognised by.
pub struct PendingQuery {
    pub transaction_id: u16,
    pub record_type: u16,
    pub packet: Vec<u8>,
}

impl BoundDnsResolver {
    /// A resolver that asks the DNS server on the host `server`.
    pub fn new(server: IpAddress, bind_device: BindDevice, ipv4_only: bool) -> (r: Self)
        ensures
            r.server == SocketAddress::at(server, DNS_PORT),
            r.bind_device == bind_device,
            r.ipv4_only == ipv4_only,
    {
        BoundDnsResolver { server: SocketAddress::new(server, DNS_PORT), bind_device, ipv4_only }
    }

    /// The address to bind a socket to: any address of the server's family, any port.
    pub fn bind_addr(&self) -> (a: SocketAddress)
        ensures
            a == SocketAddress::at(
                match self.server {
                    SocketAddress::V4 { .. } => IpAddress::V4(0),
                    SocketAddress::V6 { .. } => IpAddress::V6(0),
                },
                0,
            ),
    {
        match self.server {
            SocketAddress::V4 { .. } => SocketAddress::new(IpAddress::V4(0), 0),
            SocketAddress::V6 { .. } => SocketAddress::new(IpAddress::V6(0), 0),
        }
    }

    /// The query for the records of type `record_type` of `host`, under a number that is
    /// picked by chance.
    pub fn start_query(&self, host: &str, record_type: u16) -> (r: Result<PendingQuery, DnsError>)
        ensures
            exists|id: u16|
                picked_by_chance(id) && match #[trigger] query(
                    id,
                    encode_utf8(host@),
                    record_type,
                ) {
                    Ok(q) => r is Ok && (r->Ok_0).transaction_id == id && (r->Ok_0).record_type
                        == record_type && (r->Ok_0).packet@ == q,
                    Err(e) => r is Err && r->Err_0 == e,
                },
    {
        let pick = random_u16;
        let id: u16 = pick();
        self.start_query_as(id, host, record_type)
    }

    /// The query for the records of type `record_type` of `host`, under the number
    /// `transaction_id`.
    pub fn start_query_as(&self, transaction_id: u16, host: &str, record_type: u16) -> (r: Result<
        PendingQuery,
        DnsError,
    >)
        ensures
            match query(transaction_id, encode_utf8(host@), record_type) {
                Ok(q) => r is Ok && (r->Ok_0).transaction_id == transaction_id
                    && (r->Ok_0).record_type == record_type && (r->Ok_0).packet@ == q,
                Err(e) => r is Err && r->Err_0 == e,
            },
    {
        match encode_query(transaction_id, host, record_type) {
            Ok(packet) => Ok(PendingQuery { transaction_id, record_type, packet }),
            Err(e) => Err(e),
        }
    }

    /// The addresses in a message that came from `source` after `pending` was sent.
    pub fn finish_query(
        &self,
        pending: &PendingQuery,
        source: SocketAddress,
        message: &[u8],
    ) -> (r: Result<Vec<IpAddress>, DnsError>)
        ensures
            if source != self.server {
                r is Err && r->Err_0 == DnsError::UnexpectedServer
            } else {
                match response(message@, pending.transaction_id, pending.record_type) {
                    Ok(found) => r is Ok && (r->Ok_0)@ == found,
                    Err(e) => r is Err && r->Err_0 == e,
                }
            },
    {
        if source != self.server {
            return Err(DnsError::UnexpectedServer);
        }
        parse_response(message, pending.transaction_id, pending.record_type)
    }

    /// The first step of resolving a name. `literal` is the address that the name spells,
    /// if it spells one.
    pub fn start_resolve(&self, literal: Option<IpAddress>, port: u16) -> (step: ResolveStep)
        ensures
            step@ == first_step(literal, port, self.ipv4_only),
    {
        match literal {
            Some(ip) => {
                let mut addrs: Vec<SocketAddress> = Vec::new();
                addrs.push(SocketAddress::new(ip, port));
                assert(addrs@ =~= seq![SocketAddress::at(ip, port)]);
                ResolveStep::Done(addrs)
            },
            None => ResolveStep::Ask(
                PendingResolve {
                    record_type: DNS_TYPE_A,
                    port,
                    ipv4_only: self.ipv4_only,
                    addrs: Vec::new(),
                },
            ),
        }
    }
}

/// The port `port` on each of the hosts `ips`.
pub open spec fn at_port(ips: Seq<IpAddress>, port: u16) -> Seq<SocketAddress> {
    ips.map_values(|ip: IpAddress| SocketAddress::at(ip, port))
}

/// A name that is being resolved: the records to ask for, and the addresses found so far.
pub struct PendingResolve {
    pub record_type: u16,
    pub port: u16,
    pub ipv4_only: bool,
    pub addrs: Vec<SocketAddress>,
}

/// What to do next to resolve a name.
pub enum ResolveStep {
    /// Ask for the records of this type, and go on with the answer.
    Ask(PendingResolve),
    /// The name has these addresses.
    Done(Vec<SocketAddress>),
    /// The server gave no address that can be used.
    NoAddresses,
}

/// What a step says.
#[verifier::ext_equal]
pub enum ResolveStepView {
    Ask { record_type: u16, port: u16, ipv4_only: bool, found: Seq<SocketAddress> },
    Done(Seq<SocketAddress>),
    NoAddresses,
}

impl View for ResolveStep {
    type V = ResolveStepView;

    open spec fn view(&self) -> ResolveStepView {
        match *self {
            ResolveStep::Ask(p) => ResolveStepView::Ask {
                record_type: p.record_type,
                port: p.port,
                ipv4_only: p.ipv4_only,
                found: p.addrs@,
            },
            ResolveStep::Done(addrs) => ResolveStepView::Done(addrs@),
            ResolveStep::NoAddresses => ResolveStepView::NoAddresses,
        }
    }
}

/// The first step: a literal address is its own answer, and for a name the IPv4 addresses
/// are asked for.
pub open spec fn first_step(literal: Option<IpAddress>, port: u16, ipv4_only: bool) -> ResolveStepView {
    match literal {
        Some(ip) => ResolveStepView::Done(seq![SocketAddress::at(ip, port)]),
        None => ResolveStepView::Ask {
            record_type: DNS_TYPE_A,
            port,
            ipv4_only,
            found: Seq::empty(),
        },
    }
}

/// The step after an answer with the addresses `ips`: the IPv6 addresses are asked for
/// after the IPv4 ones, unless only IPv4 is wanted.
pub open spec fn next_step(
    record_type: u16,
    port: u16,
    ipv4_only: bool,
    found: Seq<SocketAddress>,
    ips: Seq<IpAddress>,
) -> ResolveStepView {
    let all = found + at_port(ips, port);
    if record_type == DNS_TYPE_A && !ipv4_only {
        ResolveStepView::Ask { record_type: DNS_TYPE_AAAA, port, ipv4_only, found: all }
    } else if all.len() > 0 {
        ResolveStepView::Done(all)
    } else {
        ResolveStepView::NoAddresses
    }
}

impl PendingResolve {
    /// Goes on with the answer to the query. A query that failed counts as one without
    /// addresses.
    pub fn answered<E>(self, answer: Result<Vec<IpAddress>, E>) -> (step: ResolveStep)
        ensures
            step@ == next_step(
                self.record_type,
                self.port,
                self.ipv4_only,
                self.addrs@,
                match answer {
                    Ok(ips) => ips@,
                    Err(_) => Seq::empty(),
                },
            ),
    {
        let ips: Vec<IpAddress> = match answer {
            Ok(ips) => ips,
            Err(_) => Vec::new(),
        };
        let ghost found = self.addrs@;
        let mut addrs = self.addrs;
        let mut i: usize = 0;
        assert(addrs@ =~= found + at_port(ips@.take(0), self.port));
        while i < ips.len()
            invariant
                i <= ips.len(),
                addrs@ == found + at_port(ips@.take(i as int), self.port),
            decreases ips.len() - i,
        {
            addrs.push(SocketAddress::new(ips[i], self.port));
            i = i + 1;
            assert(addrs@ =~= found + at_port(ips@.take(i as int), self.port));
        }
        assert(ips@.take(i as int) =~= ips@);
        if self.record_type == DNS_TYPE_A && !self.ipv4_only {
            ResolveStep::Ask(
                PendingResolve {
                    record_type: DNS_TYPE_AAAA,
                    port: self.port,
                    ipv4_only: self.ipv4_only,
                    addrs,
                },
            )
        } else if addrs.len() > 0 {
            ResolveStep::Done(addrs)
        } else {
            ResolveStep::NoAddresses
        }
    }
}

/// What resolving a name leads to when the queries for IPv4 and IPv6 addresses are
/// answered with `v4` and `v6`.
pub open spec fn resolved(
    literal: Option<IpAddress>,
    port: u16,
    ipv4_only: bool,
    v4: Seq<IpAddress>,
    v6: Seq<IpAddress>,
) -> ResolveStepView {
    match first_step(literal, port, ipv4_only) {
        ResolveStepView::Ask { record_type, port, ipv4_only, found } => match next_step(
            record_type,
            port,
            ipv4_only,
            found,
            v4,
        ) {
            ResolveStepView::Ask { record_type, port, ipv4_only, found } => next_step(
                record_type,
                port,
                ipv4_only,
                found,
                v6,
            ),
            step => step,
        },
        step => step,
    }
}

/// Resolving ends after at most two queries. A literal address is given back as it is. A
/// name gets its IPv4 addresses and then, unless only IPv4 is wanted, its IPv6 addresses,
/// all with the port. It fails if and only if there are none.
pub proof fn law_resolve_concatenates(
    literal: Option<IpAddress>,
    port: u16,
    ipv4_only: bool,
    v4: Seq<IpAddress>,
    v6: Seq<IpAddress>,
)
    ensures
        resolved(literal, port, ipv4_only, v4, v6) == (match literal {
            Some(ip) => ResolveStepView::Done(seq![SocketAddress::at(ip, port)]),
            None => {
                let all = if ipv4_only {
                    at_port(v4, port)
                } else {
                    at_port(v4, port) + at_port(v6, port)
                };
                if all.len() > 0 {
                    ResolveStepView::Done(all)
                } else {
                    ResolveStepView::NoAddresses
                }
            },
        }),
{
    assert(Seq::<SocketAddress>::empty() + at_port(v4, port) =~= at_port(v4, port));
}

/// Each host gets the port, in order.
pub proof fn law_every_host_gets_the_port(ips: Seq<IpAddress>, port: u16, k: int)
    ensures
        at_port(ips, port).len() == ips.len(),
        0 <= k < ips.len() ==> at_port(ips, port)[k] == SocketAddress::at(ips[k], port),
{
}

/// A literal address is never asked for. A name is asked for by its IPv4 addresses, and
/// after them by its IPv6 addresses if these are wanted, and no further. What was found
/// stays, and what a further answer adds comes after it.
pub proof fn law_what_is_asked(
    ip: IpAddress,
    port: u16,
    ipv4_only: bool,
    found: Seq<SocketAddress>,
    ips: Seq<IpAddress>,
    other_type: u16,
)
    requires
        other_type != 1,
    ensures
        first_step(Some(ip), port, ipv4_only) == ResolveStepView::Done(
            seq![SocketAddress::at(ip, port)],
        ),
        first_step(None, port, ipv4_only) matches ResolveStepView::Ask {
            record_type,
            port: p,
            ipv4_only: only,
            found: none,
        } && record_type == 1 && p == port && only == ipv4_only && none.len() == 0,
        !ipv4_only ==> (next_step(1, port, ipv4_only, found, ips) matches ResolveStepView::Ask {
            record_type,
            port: p,
            ipv4_only: only,
            found: all,
        } && record_type == 28 && p == port && only == ipv4_only && all == found + at_port(
            ips,
            port,
        )),
        ipv4_only && found.len() + ips.len() > 0 ==> next_step(1, port, ipv4_only, found, ips)
            == ResolveStepView::Done(found + at_port(ips, port)),
        ipv4_only && found.len() + ips.len() == 0 ==> next_step(1, port, ipv4_only, found, ips)
            == ResolveStepView::NoAddresses,
        found.len() + ips.len() > 0 ==> next_step(other_type, port, ipv4_only, found, ips)
            == ResolveStepView::Done(found + at_port(ips, port)),
        found.len() + ips.len() == 0 ==> next_step(other_type, port, ipv4_only, found, ips)
            == ResolveStepView::NoAddresses,
{
}

/// What a step says is what it holds.
pub proof fn law_step_says_its_fields(p: PendingResolve, addrs: Vec<SocketAddress>)
    ensures
        ResolveStep::Ask(p)@ == (ResolveStepView::Ask {
            record_type: p.record_type,
            port: p.port,
            ipv4_only: p.ipv4_only,
            found: p.addrs@,
        }),
        ResolveStep::Done(addrs)@ == ResolveStepView::Done(addrs@),
        ResolveStep::NoAddresses@ == ResolveStepView::NoAddresses,
{
}

/// A number that is picked by chance comes from the generator.
pub(crate) proof fn law_chance_is_the_generators(id: u16)
    ensures
        picked_by_chance(id) <==> call_ensures(random_u16, (), id),
{
}

} // verus!
