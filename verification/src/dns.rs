//! The DNS messages that a resolver exchanges with its server.
use crate::addr::{be_number, lemma_be_number_4, IpAddress};
use vstd::prelude::*;
use vstd::utf8::encode_utf8;

verus! {

/// The number of bytes before the questions of a message.
pub const DNS_HEADER_LEN: usize = 12;

/// The type of a record that holds an IPv4 address.
pub const DNS_TYPE_A: u16 = 1;

/// The type of a record that holds an IPv6 address.
pub const DNS_TYPE_AAAA: u16 = 28;

/// The class of the records of the internet.
pub const DNS_CLASS_IN: u16 = 1;

/// The longest name that may be asked for.
pub const MAX_NAME_LEN: usize = 253;

/// The longest label that a name may hold.
pub const MAX_LABEL_LEN: usize = 63;

/// How many labels of a name are read, the empty one at its end counted.
pub const MAX_LABELS: u32 = 128;

/// Why a message could not be made or understood.
#[derive(Clone, Copy, Debug, PartialEq, Eq, Structural)]
pub enum DnsError {
    /// The name to ask for is empty or too long.
    InvalidHostname,
    /// A label of the name to ask for is empty or too long.
    InvalidHostnameLabel,
    /// The message ends before its header does.
    TruncatedHeader,
    /// The message answers another query.
    TransactionMismatch,
    /// The message is no response.
    NotResponse,
    /// The server cut the message short.
    TruncationUnsupported,
    /// The server refused the query with this code.
    ResponseCode(u16),
    /// The message ends inside a name.
    TruncatedName,
    /// The message ends inside a pointer to a name.
    TruncatedPointer,
    /// A label starts with a byte that no label starts with.
    InvalidNameLabel,
    /// A name has too many labels.
    LabelLimit,
    /// The message ends inside a question.
    TruncatedQuestion,
    /// The message ends before the data of an answer.
    TruncatedResponse,
    /// The message ends inside the data of an answer.
    TruncatedAnswer,
    /// The message came from another server than the one that was asked.
    UnexpectedServer,
}

/// The two bytes of a number, the one that counts more first.
pub open spec fn be_bytes(x: u16) -> Seq<u8> {
    seq![(x / 256) as u8, (x % 256) as u8]
}

/// The number that the two bytes at `offset` spell.
pub open spec fn u16_at(packet: Seq<u8>, offset: int) -> u16 {
    (packet[offset] * 256 + packet[offset + 1]) as u16
}

/// A name without the dots at its end.
pub open spec fn trimmed(name: Seq<u8>) -> Seq<u8>
    decreases name.len(),
{
    if name.len() > 0 && name.last() == 0x2e {
        trimmed(name.drop_last())
    } else {
        name
    }
}

/// The parts of a name between its dots.
pub open spec fn labels(name: Seq<u8>) -> Seq<Seq<u8>>
    decreases name.len(),
{
    if name.len() == 0 {
        seq![Seq::empty()]
    } else {
        let before = labels(name.drop_last());
        if name.last() == 0x2e {
            before.push(Seq::empty())
        } else {
            before.drop_last().push(before.last().push(name.last()))
        }
    }
}

/// A label may stand in a name.
pub open spec fn valid_label(label: Seq<u8>) -> bool {
    0 < label.len() <= MAX_LABEL_LEN
}

/// Every label may stand in a name.
pub open spec fn valid_labels(ls: Seq<Seq<u8>>) -> bool {
    forall|i: int| 0 <= i < ls.len() ==> valid_label(#[trigger] ls[i])
}

/// Each label after a byte with its length.
pub open spec fn label_bytes(ls: Seq<Seq<u8>>) -> Seq<u8>
    decreases ls.len(),
{
    if ls.len() == 0 {
        Seq::empty()
    } else {
        label_bytes(ls.drop_last()) + seq![ls.last().len() as u8] + ls.last()
    }
}

/// The header of a query with one question, which asks the server to recurse.
pub open spec fn query_header(id: u16) -> Seq<u8> {
    be_bytes(id) + seq![1u8, 0, 0, 1, 0, 0, 0, 0, 0, 0]
}

/// The question for the records of type `record_type` of the name with the labels `ls`.
pub open spec fn question(ls: Seq<Seq<u8>>, record_type: u16) -> Seq<u8> {
    label_bytes(ls) + seq![0u8] + be_bytes(record_type) + be_bytes(DNS_CLASS_IN)
}

/// The query for the records of type `record_type` of the name `host`.
pub open spec fn query(id: u16, host: Seq<u8>, record_type: u16) -> Result<Seq<u8>, DnsError> {
    let name = trimmed(host);
    if name.len() == 0 || name.len() > MAX_NAME_LEN {
        Err(DnsError::InvalidHostname)
    } else if !valid_labels(labels(name)) {
        Err(DnsError::InvalidHostnameLabel)
    } else {
        Ok(query_header(id) + question(labels(name), record_type))
    }
}

proof fn lemma_be_bytes(x: u16)
    ensures
        x >> 8 == x / 256,
        x >> 8 < 256,
        x & 0xff == x % 256,
        x & 0xff < 256,
{
    assert(x >> 8 == x / 256 && x >> 8 < 256 && x & 0xff == x % 256 && x & 0xff < 256)
        by (bit_vector);
}

/// Appends the two bytes of a number.
fn push_u16(out: &mut Vec<u8>, x: u16)
    ensures
        final(out)@ == old(out)@ + be_bytes(x),
{
    proof {
        lemma_be_bytes(x);
    }
    out.push((x >> 8) as u8);
    out.push((x & 0xff) as u8);
    assert(out@ =~= old(out)@ + be_bytes(x));
}

proof fn lemma_labels_nonempty(name: Seq<u8>)
    ensures
        labels(name).len() > 0,
    decreases name.len(),
{
    if name.len() > 0 {
        lemma_labels_nonempty(name.drop_last());
    }
}

/// The labels of what stands before a dot are labels of the whole name.
proof fn lemma_labels_before_dot(name: Seq<u8>, i: int, k: int)
    requires
        0 <= i < name.len(),
        name[i] == 0x2e,
        0 <= k < labels(name.take(i)).len(),
    ensures
        labels(name).len() > labels(name.take(i)).len(),
        labels(name)[k] == labels(name.take(i))[k],
    decreases name.len(),
{
    let before = name.drop_last();
    lemma_labels_nonempty(before);
    if i == name.len() - 1 {
        assert(name.take(i) =~= before);
    } else {
        assert(before.take(i) =~= name.take(i));
        lemma_labels_before_dot(before, i, k);
    }
}

/// The query that asks a server for the records of type `record_type` of `host`.
pub fn encode_query(transaction_id: u16, host: &str, record_type: u16) -> (r: Result<
    Vec<u8>,
    DnsError,
>)
    ensures
        match query(transaction_id, encode_utf8(host@), record_type) {
            Ok(q) => r is Ok && (r->Ok_0)@ == q,
            Err(e) => r is Err && r->Err_0 == e,
        },
{
    let bytes: &[u8] = host.as_bytes();
    let mut end: usize = bytes.len();
    assert(bytes@.take(end as int) =~= bytes@);
    while end > 0 && bytes[end - 1] == 0x2e
        invariant
            end <= bytes@.len(),
            trimmed(bytes@) == trimmed(bytes@.take(end as int)),
        decreases end,
    {
        assert(bytes@.take(end as int).drop_last() =~= bytes@.take(end - 1));
        end = end - 1;
    }
    let ghost name = bytes@.take(end as int);
    assert(trimmed(bytes@) == name);
    if end == 0 || end > MAX_NAME_LEN {
        return Err(DnsError::InvalidHostname);
    }
    let mut packet: Vec<u8> = Vec::new();
    push_u16(&mut packet, transaction_id);
    push_u16(&mut packet, 0x0100);
    push_u16(&mut packet, 1);
    push_u16(&mut packet, 0);
    push_u16(&mut packet, 0);
    push_u16(&mut packet, 0);
    assert(packet@ =~= query_header(transaction_id));
    let mut start: usize = 0;
    let mut i: usize = 0;
    let ghost mut done = Seq::<Seq<u8>>::empty();
    assert(name.subrange(0, 0) =~= Seq::<u8>::empty());
    assert(labels(name.take(0)) =~= done.push(name.subrange(0, 0)));
    loop
        invariant_except_break
            start <= i <= end,
            labels(name.take(i as int)) == done.push(name.subrange(start as int, i as int)),
        invariant
            bytes@ == encode_utf8(host@),
            0 < end <= bytes@.len(),
            end <= MAX_NAME_LEN,
            name == bytes@.take(end as int),
            name == trimmed(bytes@),
            valid_labels(done),
            packet@ == query_header(transaction_id) + label_bytes(done),
        ensures
            done == labels(name),
            valid_labels(done),
            packet@ == query_header(transaction_id) + label_bytes(done),
        decreases end - i,
    {
        if i < end && bytes[i] != 0x2e {
            assert(name.take(i + 1).drop_last() =~= name.take(i as int));
            assert(name.subrange(start as int, i + 1) =~= name.subrange(
                start as int,
                i as int,
            ).push(name[i as int]));
            assert(done.push(name.subrange(start as int, i as int)).drop_last() =~= done);
            i = i + 1;
        } else {
            let len: usize = i - start;
            let ghost label = name.subrange(start as int, i as int);
            let ghost k = done.len() as int;
            if len == 0 || len > MAX_LABEL_LEN {
                proof {
                    assert(labels(name.take(i as int))[k] == label);
                    if i < end {
                        lemma_labels_before_dot(name, i as int, k);
                    } else {
                        assert(name.take(i as int) =~= name);
                    }
                    assert(!valid_label(labels(name)[k]));
                    lemma_labels_count(name, i as int);
                }
                return Err(DnsError::InvalidHostnameLabel);
            }
            let ghost had = packet@;
            packet.push(len as u8);
            let mut j: usize = start;
            while j < i
                invariant
                    start <= j <= i,
                    i <= end,
                    end <= bytes@.len(),
                    name == bytes@.take(end as int),
                    packet@ == had + seq![(i - start) as u8] + name.subrange(
                        start as int,
                        j as int,
                    ),
                decreases i - j,
            {
                packet.push(bytes[j]);
                assert(name.subrange(start as int, j + 1) =~= name.subrange(
                    start as int,
                    j as int,
                ).push(name[j as int]));
                j = j + 1;
                assert(packet@ =~= had + seq![(i - start) as u8] + name.subrange(
                    start as int,
                    j as int,
                ));
            }
            proof {
                let before = done;
                done = done.push(label);
                assert(done.drop_last() =~= before);
                assert(packet@ =~= query_header(transaction_id) + label_bytes(done));
            }
            if i == end {
                assert(name.take(i as int) =~= name);
                break;
            }
            assert(name.take(i + 1).drop_last() =~= name.take(i as int));
            assert(name.subrange(i + 1, i + 1) =~= Seq::<u8>::empty());
            i = i + 1;
            start = i;
        }
    }
    packet.push(0);
    push_u16(&mut packet, record_type);
    push_u16(&mut packet, DNS_CLASS_IN);
    assert(packet@ =~= query_header(transaction_id) + question(labels(name), record_type));
    Ok(packet)
}

/// A name has at least as many labels as what it starts with.
proof fn lemma_labels_count(name: Seq<u8>, i: int)
    requires
        0 <= i <= name.len(),
    ensures
        labels(name).len() >= labels(name.take(i)).len(),
    decreases name.len(),
{
    if i == name.len() {
        assert(name.take(i) =~= name);
    } else {
        assert(name.drop_last().take(i) =~= name.take(i));
        lemma_labels_count(name.drop_last(), i);
        lemma_labels_nonempty(name.drop_last());
    }
}

/// The number that the two bytes at `offset` spell.
pub fn read_u16(packet: &[u8], offset: usize) -> (r: Result<u16, DnsError>)
    ensures
        if offset + 2 <= packet@.len() {
            r == Ok::<u16, DnsError>(u16_at(packet@, offset as int))
        } else {
            r == Err::<u16, DnsError>(DnsError::TruncatedResponse)
        },
{
    if packet.len() < 2 || offset > packet.len() - 2 {
        return Err(DnsError::TruncatedResponse);
    }
    Ok(packet[offset] as u16 * 256 + packet[offset + 1] as u16)
}

/// Where a name that starts at `offset` ends, if at most `limit` of its labels are read.
/// A name ends with an empty label or with a pointer.
pub open spec fn name_end(packet: Seq<u8>, offset: int, limit: nat) -> Result<int, DnsError>
    decreases limit,
{
    if limit == 0 {
        Err(DnsError::LabelLimit)
    } else if offset >= packet.len() {
        Err(DnsError::TruncatedName)
    } else {
        let length = packet[offset];
        if length >= 0xc0 {
            if offset + 2 <= packet.len() {
                Ok(offset + 2)
            } else {
                Err(DnsError::TruncatedPointer)
            }
        } else if length >= 0x40 {
            Err(DnsError::InvalidNameLabel)
        } else if length == 0 {
            Ok(offset + 1)
        } else if offset + 1 + length > packet.len() {
            Err(DnsError::TruncatedName)
        } else {
            name_end(packet, offset + 1 + length, (limit - 1) as nat)
        }
    }
}

/// Where the name that starts at `offset` ends.
pub fn skip_name(packet: &[u8], offset: usize) -> (r: Result<usize, DnsError>)
    ensures
        match name_end(packet@, offset as int, MAX_LABELS as nat) {
            Ok(end) => r is Ok && r->Ok_0 == end && end <= packet@.len(),
            Err(e) => r is Err && r->Err_0 == e,
        },
{
    let mut at: usize = offset;
    let mut left: u32 = MAX_LABELS;
    while left > 0
        invariant
            left <= MAX_LABELS,
            name_end(packet@, offset as int, MAX_LABELS as nat) == name_end(
                packet@,
                at as int,
                left as nat,
            ),
        decreases left,
    {
        if at >= packet.len() {
            return Err(DnsError::TruncatedName);
        }
        let length: u8 = packet[at];
        assert((length & 0xc0 == 0xc0) == (length >= 0xc0) && (length & 0xc0 != 0) == (length
            >= 0x40)) by (bit_vector);
        if length & 0xc0 == 0xc0 {
            if packet.len() - at < 2 {
                return Err(DnsError::TruncatedPointer);
            }
            return Ok(at + 2);
        }
        if length & 0xc0 != 0 {
            return Err(DnsError::InvalidNameLabel);
        }
        at = at + 1;
        if length == 0 {
            return Ok(at);
        }
        if packet.len() - at < length as usize {
            return Err(DnsError::TruncatedName);
        }
        at = at + length as usize;
        left = left - 1;
    }
    Err(DnsError::LabelLimit)
}

/// Where `count` questions that start at `offset` end.
pub open spec fn questions_end(packet: Seq<u8>, offset: int, count: nat) -> Result<int, DnsError>
    decreases count,
{
    if count == 0 {
        Ok(offset)
    } else {
        match name_end(packet, offset, MAX_LABELS as nat) {
            Err(e) => Err(e),
            Ok(end) => if end + 4 > packet.len() {
                Err(DnsError::TruncatedQuestion)
            } else {
                questions_end(packet, end + 4, (count - 1) as nat)
            },
        }
    }
}

/// The address in a record, if it is of the internet, of the type that was asked for, and
/// of the right length.
pub open spec fn record_address(
    answer_type: u16,
    class: u16,
    data: Seq<u8>,
    record_type: u16,
) -> Option<IpAddress> {
    if class != DNS_CLASS_IN || answer_type != record_type {
        None
    } else if answer_type == DNS_TYPE_A && data.len() == 4 {
        Some(IpAddress::V4(be_number(data) as u32))
    } else if answer_type == DNS_TYPE_AAAA && data.len() == 16 {
        Some(IpAddress::V6(be_number(data) as u128))
    } else {
        None
    }
}

/// What is in an option, as a list.
pub open spec fn listed(a: Option<IpAddress>) -> Seq<IpAddress> {
    match a {
        Some(a) => seq![a],
        None => Seq::empty(),
    }
}

/// The addresses in `count` answers that start at `offset`.
pub open spec fn answers(packet: Seq<u8>, offset: int, count: nat, record_type: u16) -> Result<
    Seq<IpAddress>,
    DnsError,
>
    decreases count,
{
    if count == 0 {
        Ok(Seq::empty())
    } else {
        match name_end(packet, offset, MAX_LABELS as nat) {
            Err(e) => Err(e),
            Ok(at) => if at + 10 > packet.len() {
                Err(DnsError::TruncatedResponse)
            } else {
                let data_len = u16_at(packet, at + 8);
                if at + 10 + data_len > packet.len() {
                    Err(DnsError::TruncatedAnswer)
                } else {
                    let found = record_address(
                        u16_at(packet, at),
                        u16_at(packet, at + 2),
                        packet.subrange(at + 10, at + 10 + data_len),
                        record_type,
                    );
                    match answers(packet, at + 10 + data_len, (count - 1) as nat, record_type) {
                        Err(e) => Err(e),
                        Ok(rest) => Ok(listed(found) + rest),
                    }
                }
            },
        }
    }
}

/// What a message says in answer to the query `id` for records of type `record_type`.
pub open spec fn response(packet: Seq<u8>, id: u16, record_type: u16) -> Result<
    Seq<IpAddress>,
    DnsError,
> {
    let flags = u16_at(packet, 2);
    if packet.len() < DNS_HEADER_LEN {
        Err(DnsError::TruncatedHeader)
    } else if u16_at(packet, 0) != id {
        Err(DnsError::TransactionMismatch)
    } else if flags < 0x8000 {
        Err(DnsError::NotResponse)
    } else if (flags / 0x0200) % 2 == 1 {
        Err(DnsError::TruncationUnsupported)
    } else if flags % 16 != 0 {
        Err(DnsError::ResponseCode((flags % 16) as u16))
    } else {
        match questions_end(packet, DNS_HEADER_LEN as int, u16_at(packet, 4) as nat) {
            Err(e) => Err(e),
            Ok(at) => answers(packet, at, u16_at(packet, 6) as nat, record_type),
        }
    }
}

/// The largest number that `n` bytes can spell is below this power.
proof fn lemma_be_number_bound(bytes: Seq<u8>)
    ensures
        be_number(bytes) < vstd::arithmetic::power::pow(256, bytes.len()),
    decreases bytes.len(),
{
    reveal(vstd::arithmetic::power::pow);
    if bytes.len() > 0 {
        lemma_be_number_bound(bytes.drop_last());
    }
}

/// The number that bytes spell.
fn read_number(bytes: &[u8], from: usize, to: usize) -> (n: u128)
    requires
        from <= to <= bytes@.len(),
        to - from <= 16,
    ensures
        n == be_number(bytes@.subrange(from as int, to as int)),
{
    let mut n: u128 = 0;
    let mut i: usize = from;
    assert(be_number(bytes@.subrange(from as int, from as int)) == 0);
    while i < to
        invariant
            from <= i <= to <= bytes@.len(),
            to - from <= 16,
            n == be_number(bytes@.subrange(from as int, i as int)),
        decreases to - i,
    {
        let ghost read = bytes@.subrange(from as int, i as int);
        proof {
            lemma_be_number_bound(read);
            vstd::arithmetic::power::lemma_pow_increases(256, read.len(), 15);
            assert(vstd::arithmetic::power::pow(256, 15)
                == 0x1_00_00_00_00_00_00_00_00_00_00_00_00_00_00_00int) by {
                reveal_with_fuel(vstd::arithmetic::power::pow, 16);
            }
            assert(bytes@.subrange(from as int, i + 1).drop_last() =~= read);
        }
        n = n * 256 + bytes[i] as u128;
        i = i + 1;
    }
    n
}

/// The addresses in a message that answers the query `transaction_id` for records of type
/// `record_type`.
pub fn parse_response(packet: &[u8], transaction_id: u16, record_type: u16) -> (r: Result<
    Vec<IpAddress>,
    DnsError,
>)
    ensures
        match response(packet@, transaction_id, record_type) {
            Ok(addresses) => r is Ok && (r->Ok_0)@ == addresses,
            Err(e) => r is Err && r->Err_0 == e,
        },
{
    if packet.len() < DNS_HEADER_LEN {
        return Err(DnsError::TruncatedHeader);
    }
    let id: u16 = read_u16(packet, 0)?;
    if id != transaction_id {
        return Err(DnsError::TransactionMismatch);
    }
    let flags: u16 = read_u16(packet, 2)?;
    assert((flags & 0x8000 == 0) == (flags < 0x8000) && (flags & 0x0200 != 0) == ((flags / 0x0200)
        % 2 == 1) && flags & 0x000f == flags % 16) by (bit_vector);
    if flags & 0x8000 == 0 {
        return Err(DnsError::NotResponse);
    }
    if flags & 0x0200 != 0 {
        return Err(DnsError::TruncationUnsupported);
    }
    let response_code: u16 = flags & 0x000f;
    if response_code != 0 {
        return Err(DnsError::ResponseCode(response_code));
    }
    let question_count: u16 = read_u16(packet, 4)?;
    let answer_count: u16 = read_u16(packet, 6)?;
    let mut at: usize = DNS_HEADER_LEN;
    let mut q: u16 = 0;
    while q < question_count
        invariant
            q <= question_count,
            questions_end(packet@, DNS_HEADER_LEN as int, question_count as nat) == questions_end(
                packet@,
                at as int,
                (question_count - q) as nat,
            ),
            response(packet@, transaction_id, record_type) == (match questions_end(
                packet@,
                DNS_HEADER_LEN as int,
                question_count as nat,
            ) {
                Err(e) => Err(e),
                Ok(at) => answers(packet@, at, answer_count as nat, record_type),
            }),
        decreases question_count - q,
    {
        match skip_name(packet, at) {
            Err(e) => {
                return Err(e);
            },
            Ok(end) => {
                if packet.len() - end < 4 {
                    return Err(DnsError::TruncatedQuestion);
                }
                at = end + 4;
            },
        }
        q = q + 1;
    }
    let ghost start = at as int;
    let mut addresses: Vec<IpAddress> = Vec::new();
    let mut k: u16 = 0;
    while k < answer_count
        invariant
            k <= answer_count,
            response(packet@, transaction_id, record_type) == answers(
                packet@,
                start,
                answer_count as nat,
                record_type,
            ),
            answers(packet@, start, answer_count as nat, record_type) == (match answers(
                packet@,
                at as int,
                (answer_count - k) as nat,
                record_type,
            ) {
                Err(e) => Err(e),
                Ok(rest) => Ok(addresses@ + rest),
            }),
        decreases answer_count - k,
    {
        let end: usize = match skip_name(packet, at) {
            Err(e) => {
                return Err(e);
            },
            Ok(end) => end,
        };
        if packet.len() - end < 10 {
            return Err(DnsError::TruncatedResponse);
        }
        let answer_type: u16 = read_u16(packet, end)?;
        let class: u16 = read_u16(packet, end + 2)?;
        let data_len: usize = read_u16(packet, end + 8)? as usize;
        let data: usize = end + 10;
        if packet.len() - data < data_len {
            return Err(DnsError::TruncatedAnswer);
        }
        let ghost had = addresses@;
        let ghost bytes = packet@.subrange(data as int, data + data_len);
        if class == DNS_CLASS_IN && answer_type == record_type {
            if answer_type == DNS_TYPE_A && data_len == 4 {
                let number: u128 = read_number(packet, data, data + data_len);
                proof {
                    lemma_four_bytes(bytes);
                }
                addresses.push(IpAddress::V4(number as u32));
            } else if answer_type == DNS_TYPE_AAAA && data_len == 16 {
                let number: u128 = read_number(packet, data, data + data_len);
                addresses.push(IpAddress::V6(number));
            }
        }
        let ghost found = record_address(answer_type, class, bytes, record_type);
        assert(addresses@ =~= had + listed(found));
        at = data + data_len;
        k = k + 1;
        proof {
            let rest = answers(packet@, at as int, (answer_count - k) as nat, record_type);
            if let Ok(rest) = rest {
                assert(had + (listed(found) + rest) =~= addresses@ + rest);
            }
        }
    }
    assert(addresses@ + Seq::<IpAddress>::empty() =~= addresses@);
    Ok(addresses)
}

proof fn lemma_four_bytes(bytes: Seq<u8>)
    requires
        bytes.len() == 4,
    ensures
        be_number(bytes) <= u32::MAX,
{
    lemma_be_number_bound(bytes);
    assert(vstd::arithmetic::power::pow(256, 4) == 0x1_0000_0000int) by {
        reveal_with_fuel(vstd::arithmetic::power::pow, 5);
    }
}

proof fn lemma_label_bytes_front(label: Seq<u8>, rest: Seq<Seq<u8>>)
    ensures
        label_bytes(seq![label] + rest) == seq![label.len() as u8] + label + label_bytes(rest),
    decreases rest.len(),
{
    reveal_with_fuel(label_bytes, 2);
    let all = seq![label] + rest;
    if rest.len() == 0 {
        assert(all.drop_last() =~= Seq::<Seq<u8>>::empty());
    } else {
        lemma_label_bytes_front(label, rest.drop_last());
        assert(all.drop_last() =~= seq![label] + rest.drop_last());
    }
    assert(label_bytes(all) =~= seq![label.len() as u8] + label + label_bytes(rest));
}

/// A written name is read to its end.
proof fn lemma_name_end(packet: Seq<u8>, offset: int, ls: Seq<Seq<u8>>, limit: nat)
    requires
        valid_labels(ls),
        ls.len() < limit,
        0 <= offset,
        offset + label_bytes(ls).len() < packet.len(),
        packet.subrange(offset, offset + label_bytes(ls).len()) == label_bytes(ls),
        packet[offset + label_bytes(ls).len()] == 0,
    ensures
        name_end(packet, offset, limit) == Ok::<int, DnsError>(
            offset + label_bytes(ls).len() + 1,
        ),
    decreases ls.len(),
{
    if ls.len() > 0 {
        let label = ls[0];
        let rest = ls.drop_first();
        let n = label.len() as int;
        assert(ls =~= seq![label] + rest);
        lemma_label_bytes_front(label, rest);
        assert(valid_label(ls[0]));
        let all = label_bytes(ls);
        assert(packet.subrange(offset, offset + all.len())[0] == packet[offset]);
        assert(all[0] == n);
        assert(valid_labels(rest)) by {
            assert forall|i: int| 0 <= i < rest.len() implies valid_label(#[trigger] rest[i]) by {
                assert(rest[i] == ls[i + 1]);
            }
        }
        assert(packet.subrange(
            offset + 1 + n,
            offset + 1 + n + label_bytes(rest).len(),
        ) =~= label_bytes(rest)) by {
            assert forall|i: int| 0 <= i < label_bytes(rest).len() implies packet[offset + 1 + n
                + i] == label_bytes(rest)[i] by {
                assert(packet.subrange(offset, offset + all.len())[1 + n + i] == all[1 + n + i]);
            }
        }
        lemma_name_end(packet, offset + 1 + n, rest, (limit - 1) as nat);
    }
}

proof fn lemma_label_bytes_len(name: Seq<u8>)
    ensures
        label_bytes(labels(name)).len() == name.len() + 1,
    decreases name.len(),
{
    if name.len() == 0 {
        assert(labels(name).drop_last() =~= Seq::<Seq<u8>>::empty());
        reveal_with_fuel(label_bytes, 2);
    } else {
        let before = labels(name.drop_last());
        lemma_label_bytes_len(name.drop_last());
        lemma_labels_nonempty(name.drop_last());
        if name.last() == 0x2e {
            assert(labels(name).drop_last() =~= before);
        } else {
            assert(labels(name).drop_last() =~= before.drop_last());
        }
    }
}

proof fn lemma_labels_take_two_bytes(ls: Seq<Seq<u8>>)
    requires
        valid_labels(ls),
    ensures
        2 * ls.len() <= label_bytes(ls).len(),
    decreases ls.len(),
{
    if ls.len() > 0 {
        assert(valid_labels(ls.drop_last()));
        lemma_labels_take_two_bytes(ls.drop_last());
        assert(valid_label(ls[ls.len() - 1]));
    }
}

/// The name in a query is read to its end, also where more follows the query or the
/// header is another one.
proof fn lemma_question_end(host: Seq<u8>, record_type: u16, packet: Seq<u8>)
    requires
        query(0, host, record_type) is Ok,
        packet.len() >= DNS_HEADER_LEN + question(labels(trimmed(host)), record_type).len(),
        packet.subrange(
            DNS_HEADER_LEN as int,
            DNS_HEADER_LEN + question(labels(trimmed(host)), record_type).len(),
        ) == question(labels(trimmed(host)), record_type),
    ensures
        questions_end(packet, DNS_HEADER_LEN as int, 1) == Ok::<int, DnsError>(
            DNS_HEADER_LEN + question(labels(trimmed(host)), record_type).len(),
        ),
{
    let name = trimmed(host);
    let ls = labels(name);
    let asked = question(ls, record_type);
    let n = label_bytes(ls).len() as int;
    lemma_label_bytes_len(name);
    lemma_labels_take_two_bytes(ls);
    let part = packet.subrange(DNS_HEADER_LEN as int, DNS_HEADER_LEN + asked.len());
    assert(packet.subrange(DNS_HEADER_LEN as int, DNS_HEADER_LEN + n) =~= label_bytes(ls)) by {
        assert forall|i: int| 0 <= i < n implies packet[DNS_HEADER_LEN + i] == label_bytes(
            ls,
        )[i] by {
            assert(part[i] == asked[i]);
        }
    }
    assert(part[n] == asked[n]);
    lemma_name_end(packet, DNS_HEADER_LEN as int, ls, MAX_LABELS as nat);
    reveal_with_fuel(questions_end, 2);
}

/// The question that a query asks is read to the end of the query: the reader of
/// responses understands every name that the writer of queries accepts.
pub proof fn law_written_question_is_read(id: u16, host: Seq<u8>, record_type: u16)
    ensures
        query(id, host, record_type) matches Ok(q) ==> questions_end(q, DNS_HEADER_LEN as int, 1)
            == Ok::<int, DnsError>(q.len() as int),
{
    if let Ok(q) = query(id, host, record_type) {
        let asked = question(labels(trimmed(host)), record_type);
        assert(q.subrange(DNS_HEADER_LEN as int, DNS_HEADER_LEN + asked.len()) =~= asked);
        lemma_question_end(host, record_type, q);
    }
}

/// A query that comes back is not taken for a response to itself, and not for one to
/// another query either.
pub proof fn law_query_is_no_response(id: u16, host: Seq<u8>, record_type: u16, other: u16)
    ensures
        query(id, host, record_type) matches Ok(q) ==> response(q, other, record_type) == Err::<
            Seq<IpAddress>,
            DnsError,
        >(
            if other == id {
                DnsError::NotResponse
            } else {
                DnsError::TransactionMismatch
            },
        ),
{
    if let Ok(q) = query(id, host, record_type) {
        assert(q[0] == (id / 256) as u8 && q[1] == (id % 256) as u8);
        assert(q[2] == 1 && q[3] == 0);
    }
}

/// A name that ends with dots is asked for as the name without them.
pub proof fn law_trailing_dots_are_ignored(id: u16, host: Seq<u8>, dots: nat, record_type: u16)
    ensures
        query(id, host + Seq::new(dots, |i: int| 0x2eu8), record_type) == query(
            id,
            host,
            record_type,
        ),
    decreases dots,
{
    let tail = Seq::new(dots, |i: int| 0x2eu8);
    if dots > 0 {
        let fewer = (dots - 1) as nat;
        assert((host + tail).drop_last() =~= host + Seq::new(fewer, |i: int| 0x2eu8));
        law_trailing_dots_are_ignored(id, host, fewer, record_type);
    } else {
        assert(host + tail =~= host);
    }
}

/// Bytes that are `n` labels, each after a byte with its length.
pub open spec fn is_labels(bytes: Seq<u8>, n: nat) -> bool
    decreases n,
{
    if n == 0 {
        bytes.len() == 0
    } else {
        &&& bytes.len() > 0
        &&& 0 < bytes[0] < 0x40
        &&& 1 + bytes[0] <= bytes.len()
        &&& is_labels(bytes.skip(1 + bytes[0]), (n - 1) as nat)
    }
}

/// Bytes that are a name as it stands in a message: labels, and at their end an empty label
/// or a pointer to any place; at most `limit` of them together.
pub open spec fn is_name(bytes: Seq<u8>, limit: nat) -> bool
    decreases limit,
{
    &&& limit > 0
    &&& bytes.len() > 0
    &&& if bytes[0] == 0 {
        bytes.len() == 1
    } else if bytes[0] >= 0xc0 {
        bytes.len() == 2
    } else {
        &&& bytes[0] < 0x40
        &&& 1 + bytes[0] <= bytes.len()
        &&& is_name(bytes.skip(1 + bytes[0]), (limit - 1) as nat)
    }
}

proof fn lemma_name_is_read(packet: Seq<u8>, offset: int, name: Seq<u8>, limit: nat)
    requires
        is_name(name, limit),
        0 <= offset,
        offset + name.len() <= packet.len(),
        packet.subrange(offset, offset + name.len()) == name,
    ensures
        name_end(packet, offset, limit) == Ok::<int, DnsError>(offset + name.len()),
    decreases limit,
{
    assert(packet.subrange(offset, offset + name.len())[0] == packet[offset]);
    if 0 < name[0] < 0x40 {
        let n = 1 + name[0] as int;
        let rest = name.skip(n);
        assert(packet.subrange(offset + n, offset + n + rest.len()) =~= rest) by {
            assert forall|i: int| 0 <= i < rest.len() implies packet[offset + n + i] == rest[i] by {
                assert(packet.subrange(offset, offset + name.len())[n + i] == name[n + i]);
            }
        }
        lemma_name_is_read(packet, offset + n, rest, (limit - 1) as nat);
    }
}

/// A name is read to its end, whatever its labels are and wherever it points to.
pub proof fn law_every_name_is_read(packet: Seq<u8>, offset: int, name: Seq<u8>)
    requires
        is_name(name, 128),
        0 <= offset,
        offset + name.len() <= packet.len(),
        packet.subrange(offset, offset + name.len()) == name,
    ensures
        name_end(packet, offset, MAX_LABELS as nat) == Ok::<int, DnsError>(offset + name.len()),
{
    lemma_name_is_read(packet, offset, name, 128);
}

proof fn lemma_only_names_are_read(packet: Seq<u8>, offset: int, limit: nat)
    requires
        0 <= offset,
    ensures
        name_end(packet, offset, limit) matches Ok(end) ==> offset < end <= packet.len() && is_name(
            packet.subrange(offset, end),
            limit,
        ),
    decreases limit,
{
    if limit > 0 && offset < packet.len() && 0 < packet[offset] < 0x40 && offset + 1
        + packet[offset] <= packet.len() {
        let n = 1 + packet[offset] as int;
        lemma_only_names_are_read(packet, offset + n, (limit - 1) as nat);
        if let Ok(end) = name_end(packet, offset, limit) {
            assert(packet.subrange(offset, end).skip(n) =~= packet.subrange(offset + n, end));
        }
    }
}

/// What is read as a name is one.
pub proof fn law_only_names_are_read(packet: Seq<u8>, offset: int)
    requires
        0 <= offset,
    ensures
        name_end(packet, offset, MAX_LABELS as nat) matches Ok(end) ==> offset < end
            <= packet.len() && is_name(packet.subrange(offset, end), 128),
{
    lemma_only_names_are_read(packet, offset, 128);
}

proof fn lemma_labels_are_passed(packet: Seq<u8>, offset: int, at: int, n: nat, limit: nat)
    requires
        0 <= offset <= at <= packet.len(),
        is_labels(packet.subrange(offset, at), n),
        n <= limit,
    ensures
        name_end(packet, offset, limit) == name_end(packet, at, (limit - n) as nat),
    decreases n,
{
    if n > 0 {
        let bytes = packet.subrange(offset, at);
        let k = 1 + bytes[0] as int;
        assert(bytes[0] == packet[offset]);
        assert(packet.subrange(offset + k, at) =~= bytes.skip(k));
        lemma_labels_are_passed(packet, offset + k, at, (n - 1) as nat, (limit - 1) as nat);
    } else {
        assert(offset == at);
    }
}

/// A name is refused behind its good labels: where the message ends, where a byte starts no
/// label, where a pointer or a label is cut, and behind 128 labels.
pub proof fn law_broken_names_are_refused(packet: Seq<u8>, offset: int, at: int, n: nat)
    requires
        0 <= offset <= at <= packet.len(),
        is_labels(packet.subrange(offset, at), n),
        n <= 128,
    ensures
        ({
            let r = name_end(packet, offset, MAX_LABELS as nat);
            &&& n == 128 ==> r == Err::<int, DnsError>(DnsError::LabelLimit)
            &&& n < 128 && at == packet.len() ==> r == Err::<int, DnsError>(
                DnsError::TruncatedName,
            )
            &&& n < 128 && at < packet.len() && 0x40 <= packet[at] < 0xc0 ==> r == Err::<
                int,
                DnsError,
            >(DnsError::InvalidNameLabel)
            &&& n < 128 && at + 1 == packet.len() && packet[at] >= 0xc0 ==> r == Err::<
                int,
                DnsError,
            >(DnsError::TruncatedPointer)
            &&& n < 128 && at < packet.len() && 0 < packet[at] < 0x40 && at + 1 + packet[at]
                > packet.len() ==> r == Err::<int, DnsError>(DnsError::TruncatedName)
        }),
{
    lemma_labels_are_passed(packet, offset, at, n, 128);
}

/// Two bytes spell a number, the first counting 256 times as much, and a number is written
/// as the bytes that spell it.
pub proof fn law_two_bytes_spell_a_number(packet: Seq<u8>, offset: int, x: u16)
    ensures
        u16_at(packet, offset) == packet[offset] * 256 + packet[offset + 1],
        be_bytes(x).len() == 2,
        be_bytes(x)[0] * 256 + be_bytes(x)[1] == x,
{
}

/// A question in a message.
pub struct Question {
    pub name: Seq<u8>,
    pub type_and_class: Seq<u8>,
}

impl Question {
    /// The name is one, and the type and the class take four bytes.
    pub open spec fn wf(self) -> bool {
        is_name(self.name, 128) && self.type_and_class.len() == 4
    }
}

/// Questions one after the other.
pub open spec fn question_bytes(questions: Seq<Question>) -> Seq<u8>
    decreases questions.len(),
{
    if questions.len() == 0 {
        Seq::empty()
    } else {
        questions[0].name + questions[0].type_and_class + question_bytes(questions.drop_first())
    }
}

/// A record in a response.
pub struct Record {
    pub name: Seq<u8>,
    pub answer_type: u16,
    pub class: u16,
    pub ttl: Seq<u8>,
    pub data: Seq<u8>,
}

impl Record {
    /// The name is one, the time to live takes four bytes, and the length of the data two.
    pub open spec fn wf(self) -> bool {
        is_name(self.name, 128) && self.ttl.len() == 4 && self.data.len() <= u16::MAX
    }

    /// The record as it stands in a message.
    pub open spec fn bytes(self) -> Seq<u8> {
        self.name + be_bytes(self.answer_type) + be_bytes(self.class) + self.ttl + be_bytes(
            self.data.len() as u16,
        ) + self.data
    }

    /// The address in the record, if it is one of the internet that was asked for: four
    /// bytes in a record of type 1, sixteen in one of type 28. The name plays no part.
    pub open spec fn address(self, record_type: u16) -> Option<IpAddress> {
        let d = self.data;
        if self.class == 1 && self.answer_type == record_type && record_type == 1 && d.len() == 4 {
            Some(
                IpAddress::V4(
                    (d[0] * 0x100_0000 + d[1] * 0x1_0000 + d[2] * 0x100 + d[3]) as u32,
                ),
            )
        } else if self.class == 1 && self.answer_type == record_type && record_type == 28
            && d.len() == 16 {
            Some(IpAddress::V6(be_number(d) as u128))
        } else {
            None
        }
    }
}

proof fn lemma_record_address(r: Record, record_type: u16)
    ensures
        record_address(r.answer_type, r.class, r.data, record_type) == r.address(record_type),
{
    if r.data.len() == 4 {
        lemma_be_number_4(r.data);
    }
}

/// Records one after the other.
pub open spec fn record_bytes(records: Seq<Record>) -> Seq<u8>
    decreases records.len(),
{
    if records.len() == 0 {
        Seq::empty()
    } else {
        records[0].bytes() + record_bytes(records.drop_first())
    }
}

/// The addresses in records.
pub open spec fn addresses_in(records: Seq<Record>, record_type: u16) -> Seq<IpAddress>
    decreases records.len(),
{
    if records.len() == 0 {
        Seq::empty()
    } else {
        (match records[0].address(record_type) {
            Some(a) => seq![a],
            None => Seq::empty(),
        }) + addresses_in(records.drop_first(), record_type)
    }
}

/// The response that repeats the query `q`, with `flags`, and answers it with `records`.
pub open spec fn reply(q: Seq<u8>, flags: u16, records: Seq<Record>) -> Seq<u8> {
    q.take(2) + be_bytes(flags) + q.subrange(4, 6) + be_bytes(records.len() as u16) + q.skip(8)
        + record_bytes(records)
}

proof fn lemma_u16_roundtrip(packet: Seq<u8>, offset: int, x: u16)
    requires
        packet[offset] == (x / 256) as u8,
        packet[offset + 1] == (x % 256) as u8,
    ensures
        u16_at(packet, offset) == x,
{
}

/// What stands where in a record.
proof fn lemma_record_layout(r: Record)
    requires
        r.wf(),
    ensures
        ({
            let b = r.bytes();
            let m = r.name.len() as int;
            &&& b.len() == m + 10 + r.data.len()
            &&& b.take(m) == r.name
            &&& u16_at(b, m) == r.answer_type
            &&& u16_at(b, m + 2) == r.class
            &&& u16_at(b, m + 8) == r.data.len()
            &&& b.skip(m + 10) == r.data
        }),
{
    let b = r.bytes();
    let m = r.name.len() as int;
    assert(b.take(m) =~= r.name);
    assert(b.skip(m + 10) =~= r.data);
    lemma_u16_roundtrip(b, m, r.answer_type);
    lemma_u16_roundtrip(b, m + 2, r.class);
    lemma_u16_roundtrip(b, m + 8, r.data.len() as u16);
}

/// One record is read, and the reader goes on behind it.
proof fn lemma_answer_read(
    packet: Seq<u8>,
    offset: int,
    r: Record,
    tail: Seq<u8>,
    count: nat,
    record_type: u16,
)
    requires
        r.wf(),
        0 <= offset <= packet.len(),
        packet.skip(offset) == r.bytes() + tail,
    ensures
        packet.skip(offset + r.bytes().len()) == tail,
        offset + r.bytes().len() <= packet.len(),
        answers(packet, offset, count + 1, record_type) == (match answers(
            packet,
            offset + r.bytes().len(),
            count,
            record_type,
        ) {
            Err(e) => Err(e),
            Ok(rest) => Ok(listed(r.address(record_type)) + rest),
        }),
{
    let b = r.bytes();
    let m = r.name.len() as int;
    let n = r.data.len() as int;
    let at = offset + m;
    lemma_record_layout(r);
    lemma_record_address(r, record_type);
    assert(packet.skip(offset).len() == (b + tail).len());
    assert(packet.len() == offset + b.len() + tail.len());
    assert forall|i: int| 0 <= i < b.len() implies #[trigger] packet[offset + i] == b[i] by {
        assert(packet.skip(offset)[i] == (b + tail)[i]);
    }
    assert(packet.skip(offset + b.len()) =~= tail) by {
        assert forall|i: int| 0 <= i < tail.len() implies packet[offset + b.len() + i]
            == tail[i] by {
            assert(packet.skip(offset)[b.len() + i] == (b + tail)[b.len() + i]);
        }
    }
    assert(packet.subrange(offset, at) =~= r.name) by {
        assert forall|i: int| 0 <= i < m implies packet[offset + i] == r.name[i] by {
            assert(b.take(m)[i] == b[i]);
        }
    }
    law_every_name_is_read(packet, offset, r.name);
    assert(u16_at(packet, at) == r.answer_type) by {
        assert(packet[offset + m] == b[m] && packet[offset + (m + 1)] == b[m + 1]);
    }
    assert(u16_at(packet, at + 2) == r.class) by {
        assert(packet[offset + (m + 2)] == b[m + 2] && packet[offset + (m + 3)] == b[m + 3]);
    }
    assert(u16_at(packet, at + 8) == n) by {
        assert(packet[offset + (m + 8)] == b[m + 8] && packet[offset + (m + 9)] == b[m + 9]);
    }
    assert(packet.subrange(at + 10, at + 10 + n) =~= r.data) by {
        assert forall|i: int| 0 <= i < n implies packet[at + 10 + i] == r.data[i] by {
            assert(packet[offset + (m + 10 + i)] == b[m + 10 + i]);
            assert(b.skip(m + 10)[i] == b[m + 10 + i]);
        }
    }
}

proof fn lemma_answers_read(
    packet: Seq<u8>,
    offset: int,
    records: Seq<Record>,
    after: Seq<u8>,
    record_type: u16,
)
    requires
        0 <= offset <= packet.len(),
        packet.skip(offset) == record_bytes(records) + after,
        forall|i: int| 0 <= i < records.len() ==> (#[trigger] records[i]).wf(),
    ensures
        answers(packet, offset, records.len(), record_type) == Ok::<Seq<IpAddress>, DnsError>(
            addresses_in(records, record_type),
        ),
    decreases records.len(),
{
    if records.len() > 0 {
        let r = records[0];
        let rest = records.drop_first();
        let tail = record_bytes(rest) + after;
        assert(r.wf());
        assert(packet.skip(offset) =~= r.bytes() + tail);
        lemma_answer_read(packet, offset, r, tail, rest.len(), record_type);
        assert forall|i: int| 0 <= i < rest.len() implies (#[trigger] rest[i]).wf() by {
            assert(records[i + 1].wf());
        }
        lemma_answers_read(packet, offset + r.bytes().len(), rest, after, record_type);
    }
}

/// A reply to a query gives back what the server put into it: the addresses in the records
/// of the type that was asked for, in order, whatever their names are, and nothing else.
pub proof fn law_reply_is_read(
    id: u16,
    host: Seq<u8>,
    record_type: u16,
    flags: u16,
    records: Seq<Record>,
)
    requires
        flags >= 0x8000,
        (flags / 0x0200) % 2 == 0,
        flags % 16 == 0,
        records.len() <= u16::MAX,
        forall|i: int| 0 <= i < records.len() ==> (#[trigger] records[i]).wf(),
    ensures
        query(id, host, record_type) matches Ok(q) ==> response(
            reply(q, flags, records),
            id,
            record_type,
        ) == Ok::<Seq<IpAddress>, DnsError>(addresses_in(records, record_type)),
{
    if let Ok(q) = query(id, host, record_type) {
        let asked = question(labels(trimmed(host)), record_type);
        let p = reply(q, flags, records);
        assert(q.len() == DNS_HEADER_LEN + asked.len());
        assert(p.len() == q.len() + record_bytes(records).len());
        assert(p[0] == q[0] && p[1] == q[1]);
        lemma_u16_roundtrip(p, 0, id);
        lemma_u16_roundtrip(p, 2, flags);
        assert(p[4] == q[4] && q[4] == 0 && p[5] == q[5] && q[5] == 1);
        lemma_u16_roundtrip(p, 6, records.len() as u16);
        assert(p.subrange(DNS_HEADER_LEN as int, DNS_HEADER_LEN + asked.len()) =~= asked) by {
            assert forall|i: int| 0 <= i < asked.len() implies p[DNS_HEADER_LEN + i]
                == asked[i] by {
                assert(p[DNS_HEADER_LEN + i] == q[DNS_HEADER_LEN + i]);
            }
        }
        lemma_question_end(host, record_type, p);
        assert(p.skip(q.len() as int) =~= record_bytes(records) + Seq::<u8>::empty());
        lemma_answers_read(p, q.len() as int, records, Seq::empty(), record_type);
    }
}

/// A message with the given questions and answers. The four bytes `counts` announce what
/// else is in it, which comes in `after`.
pub open spec fn message(
    id: u16,
    flags: u16,
    questions: Seq<Question>,
    records: Seq<Record>,
    counts: Seq<u8>,
    after: Seq<u8>,
) -> Seq<u8> {
    be_bytes(id) + be_bytes(flags) + be_bytes(questions.len() as u16) + be_bytes(
        records.len() as u16,
    ) + counts + question_bytes(questions) + record_bytes(records) + after
}

proof fn lemma_questions_read(
    packet: Seq<u8>,
    offset: int,
    questions: Seq<Question>,
    after: Seq<u8>,
)
    requires
        0 <= offset <= packet.len(),
        packet.skip(offset) == question_bytes(questions) + after,
        forall|i: int| 0 <= i < questions.len() ==> (#[trigger] questions[i]).wf(),
    ensures
        questions_end(packet, offset, questions.len()) == Ok::<int, DnsError>(
            offset + question_bytes(questions).len(),
        ),
    decreases questions.len(),
{
    if questions.len() > 0 {
        let q = questions[0];
        let rest = questions.drop_first();
        let b = q.name + q.type_and_class;
        let m = q.name.len() as int;
        assert(q.wf());
        let tail = question_bytes(rest) + after;
        assert(packet.skip(offset) =~= b + tail);
        assert(packet.len() == offset + b.len() + tail.len());
        assert(packet.subrange(offset, offset + m) =~= q.name) by {
            assert forall|i: int| 0 <= i < m implies packet[offset + i] == q.name[i] by {
                assert(packet.skip(offset)[i] == (b + tail)[i]);
            }
        }
        law_every_name_is_read(packet, offset, q.name);
        assert(packet.skip(offset + b.len()) =~= tail) by {
            assert forall|i: int| 0 <= i < tail.len() implies packet[offset + b.len() + i]
                == tail[i] by {
                assert(packet.skip(offset)[b.len() + i] == (b + tail)[b.len() + i]);
            }
        }
        assert forall|i: int| 0 <= i < rest.len() implies (#[trigger] rest[i]).wf() by {
            assert(questions[i + 1].wf());
        }
        lemma_questions_read(packet, offset + b.len(), rest, after);
    }
}

/// A good response gives the addresses of its answers that are of the type that was asked
/// for, of the internet and of the right length, in order. Neither the names of the
/// answers, nor the questions, nor what follows the answers play a part.
pub proof fn law_message_is_read(
    id: u16,
    flags: u16,
    questions: Seq<Question>,
    records: Seq<Record>,
    counts: Seq<u8>,
    after: Seq<u8>,
    record_type: u16,
)
    requires
        flags >= 0x8000,
        (flags / 0x0200) % 2 == 0,
        flags % 16 == 0,
        questions.len() <= u16::MAX,
        records.len() <= u16::MAX,
        counts.len() == 4,
        forall|i: int| 0 <= i < questions.len() ==> (#[trigger] questions[i]).wf(),
        forall|i: int| 0 <= i < records.len() ==> (#[trigger] records[i]).wf(),
    ensures
        response(message(id, flags, questions, records, counts, after), id, record_type) == Ok::<
            Seq<IpAddress>,
            DnsError,
        >(addresses_in(records, record_type)),
{
    let p = message(id, flags, questions, records, counts, after);
    let asked = question_bytes(questions);
    let told = record_bytes(records);
    assert(p.len() == 12 + asked.len() + told.len() + after.len());
    lemma_u16_roundtrip(p, 0, id);
    lemma_u16_roundtrip(p, 2, flags);
    lemma_u16_roundtrip(p, 4, questions.len() as u16);
    lemma_u16_roundtrip(p, 6, records.len() as u16);
    assert(p.skip(12) =~= asked + (told + after));
    lemma_questions_read(p, 12, questions, told + after);
    assert(p.skip(12 + asked.len() as int) =~= told + after);
    lemma_answers_read(p, 12 + asked.len() as int, records, after, record_type);
}

/// The header of a message is checked in this order: that it is there, the transaction, that
/// it is a response, that it was not cut, and that the server did not refuse.
pub proof fn law_header_is_checked(packet: Seq<u8>, id: u16, record_type: u16)
    ensures
        ({
            let r = response(packet, id, record_type);
            if packet.len() < 12 {
                r == Err::<Seq<IpAddress>, DnsError>(DnsError::TruncatedHeader)
            } else if packet[0] * 256 + packet[1] != id {
                r == Err::<Seq<IpAddress>, DnsError>(DnsError::TransactionMismatch)
            } else if packet[2] < 128 {
                r == Err::<Seq<IpAddress>, DnsError>(DnsError::NotResponse)
            } else if (packet[2] / 2) % 2 == 1 {
                r == Err::<Seq<IpAddress>, DnsError>(DnsError::TruncationUnsupported)
            } else if packet[3] % 16 != 0 {
                r == Err::<Seq<IpAddress>, DnsError>(
                    DnsError::ResponseCode((packet[3] % 16) as u16),
                )
            } else {
                r == match questions_end(packet, 12, (packet[4] * 256 + packet[5]) as nat) {
                    Err(e) => Err(e),
                    Ok(at) => answers(
                        packet,
                        at,
                        (packet[6] * 256 + packet[7]) as nat,
                        record_type,
                    ),
                }
            }
        }),
{
}

/// A question behind which the message ends too early is refused, and so is one whose name
/// is. Else the next one follows four bytes behind its name.
pub proof fn law_questions_one_by_one(packet: Seq<u8>, offset: int, end: int, count: nat)
    requires
        0 <= offset <= end <= packet.len(),
        is_name(packet.subrange(offset, end), 128),
    ensures
        questions_end(packet, offset, 0) == Ok::<int, DnsError>(offset),
        end + 4 > packet.len() ==> questions_end(packet, offset, count + 1) == Err::<
            int,
            DnsError,
        >(DnsError::TruncatedQuestion),
        end + 4 <= packet.len() ==> questions_end(packet, offset, count + 1) == questions_end(
            packet,
            end + 4,
            count,
        ),
{
    law_every_name_is_read(packet, offset, packet.subrange(offset, end));
}

/// An answer that the message cuts in its fixed part or in its data is refused. Else its
/// address, if it has one that was asked for, comes before those of the answers behind it.
pub proof fn law_answers_one_by_one(
    packet: Seq<u8>,
    offset: int,
    end: int,
    count: nat,
    record_type: u16,
)
    requires
        0 <= offset <= end <= packet.len(),
        is_name(packet.subrange(offset, end), 128),
    ensures
        answers(packet, offset, 0, record_type) == Ok::<Seq<IpAddress>, DnsError>(Seq::empty()),
        end + 10 > packet.len() ==> answers(packet, offset, count + 1, record_type) == Err::<
            Seq<IpAddress>,
            DnsError,
        >(DnsError::TruncatedResponse),
        end + 10 <= packet.len() ==> {
            let data_len = packet[end + 8] * 256 + packet[end + 9];
            let next = end + 10 + data_len;
            &&& next > packet.len() ==> answers(packet, offset, count + 1, record_type) == Err::<
                Seq<IpAddress>,
                DnsError,
            >(DnsError::TruncatedAnswer)
            &&& next <= packet.len() ==> {
                let r = Record {
                    name: packet.subrange(offset, end),
                    answer_type: (packet[end] * 256 + packet[end + 1]) as u16,
                    class: (packet[end + 2] * 256 + packet[end + 3]) as u16,
                    ttl: packet.subrange(end + 4, end + 8),
                    data: packet.subrange(end + 10, next),
                };
                answers(packet, offset, count + 1, record_type) == match answers(
                    packet,
                    next,
                    count,
                    record_type,
                ) {
                    Err(e) => Err(e),
                    Ok(rest) => Ok(addresses_in(seq![r], record_type) + rest),
                }
            }
        },
{
    law_every_name_is_read(packet, offset, packet.subrange(offset, end));
    if end + 10 <= packet.len() {
        let data_len = packet[end + 8] * 256 + packet[end + 9];
        let next = end + 10 + data_len;
        if next <= packet.len() {
            let r = Record {
                name: packet.subrange(offset, end),
                answer_type: (packet[end] * 256 + packet[end + 1]) as u16,
                class: (packet[end + 2] * 256 + packet[end + 3]) as u16,
                ttl: packet.subrange(end + 4, end + 8),
                data: packet.subrange(end + 10, next),
            };
            lemma_record_address(r, record_type);
            reveal_with_fuel(addresses_in, 2);
            assert(seq![r].drop_first() =~= Seq::<Record>::empty());
            assert(addresses_in(seq![r], record_type) =~= listed(r.address(record_type)));
        }
    }
}

/// A question or an answer whose name is refused is refused for the same reason.
pub proof fn law_name_errors_are_passed_on(
    packet: Seq<u8>,
    offset: int,
    count: nat,
    record_type: u16,
)
    ensures
        name_end(packet, offset, MAX_LABELS as nat) matches Err(e) ==> questions_end(
            packet,
            offset,
            count + 1,
        ) == Err::<int, DnsError>(e) && answers(packet, offset, count + 1, record_type) == Err::<
            Seq<IpAddress>,
            DnsError,
        >(e),
{
}

/// The name that is made of labels by setting dots between them.
pub open spec fn joined(ls: Seq<Seq<u8>>) -> Seq<u8>
    decreases ls.len(),
{
    if ls.len() <= 1 {
        ls[0]
    } else {
        joined(ls.drop_last()) + seq![0x2eu8] + ls.last()
    }
}

/// The message holds at `offset` each label after a byte with its length, and then a zero.
pub open spec fn is_spelled(packet: Seq<u8>, offset: int, ls: Seq<Seq<u8>>) -> bool
    decreases ls.len(),
{
    if ls.len() == 0 {
        packet[offset] == 0
    } else {
        &&& packet[offset] == ls[0].len()
        &&& packet.subrange(offset + 1, offset + 1 + ls[0].len()) == ls[0]
        &&& is_spelled(packet, offset + 1 + ls[0].len(), ls.drop_first())
    }
}

proof fn lemma_labels_of_one(label: Seq<u8>)
    requires
        !label.contains(0x2e),
    ensures
        labels(label) == seq![label],
    decreases label.len(),
{
    if label.len() > 0 {
        let part = label.drop_last();
        assert(!part.contains(0x2e)) by {
            if part.contains(0x2e) {
                let i = choose|i: int| 0 <= i < part.len() && part[i] == 0x2e;
                assert(label[i] == 0x2e);
            }
        }
        lemma_labels_of_one(part);
        assert(label[label.len() - 1] != 0x2e);
        assert(part.push(label.last()) =~= label);
        assert(labels(label) =~= seq![label]);
    } else {
        assert(label =~= Seq::<u8>::empty());
    }
}

proof fn lemma_labels_of_more(name: Seq<u8>, label: Seq<u8>)
    requires
        !label.contains(0x2e),
    ensures
        labels(name + seq![0x2eu8] + label) == labels(name).push(label),
    decreases label.len(),
{
    let all = name + seq![0x2eu8] + label;
    if label.len() > 0 {
        let part = label.drop_last();
        assert(!part.contains(0x2e)) by {
            if part.contains(0x2e) {
                let i = choose|i: int| 0 <= i < part.len() && part[i] == 0x2e;
                assert(label[i] == 0x2e);
            }
        }
        lemma_labels_of_more(name, part);
        assert(all.drop_last() =~= name + seq![0x2eu8] + part);
        assert(label[label.len() - 1] != 0x2e);
        assert(part.push(label.last()) =~= label);
        assert(labels(name).push(part).drop_last() =~= labels(name));
    } else {
        assert(label =~= Seq::<u8>::empty());
        assert(all.drop_last() =~= name);
    }
}

proof fn lemma_labels_of_joined(ls: Seq<Seq<u8>>)
    requires
        ls.len() > 0,
        forall|k: int| 0 <= k < ls.len() ==> !(#[trigger] ls[k]).contains(0x2e),
    ensures
        labels(joined(ls)) == ls,
    decreases ls.len(),
{
    if ls.len() == 1 {
        lemma_labels_of_one(ls[0]);
        assert(ls =~= seq![ls[0]]);
    } else {
        let rest = ls.drop_last();
        assert forall|k: int| 0 <= k < rest.len() implies !(#[trigger] rest[k]).contains(0x2e) by {
            assert(!ls[k].contains(0x2e));
        }
        lemma_labels_of_joined(rest);
        assert(!ls[ls.len() - 1].contains(0x2e));
        lemma_labels_of_more(joined(rest), ls.last());
        assert(ls =~= rest.push(ls.last()));
    }
}

proof fn lemma_joined_ends_with_label(ls: Seq<Seq<u8>>)
    requires
        ls.len() > 0,
        ls.last().len() > 0,
        !ls.last().contains(0x2e),
    ensures
        joined(ls).len() > 0,
        trimmed(joined(ls)) == joined(ls),
{
    let last = ls.last();
    assert(joined(ls).last() == last[last.len() - 1]);
}

proof fn lemma_spelled(packet: Seq<u8>, offset: int, ls: Seq<Seq<u8>>)
    requires
        valid_labels(ls),
        0 <= offset,
        offset + label_bytes(ls).len() < packet.len(),
        packet.subrange(offset, offset + label_bytes(ls).len()) == label_bytes(ls),
        packet[offset + label_bytes(ls).len()] == 0,
    ensures
        is_spelled(packet, offset, ls),
    decreases ls.len(),
{
    if ls.len() > 0 {
        let label = ls[0];
        let rest = ls.drop_first();
        let n = label.len() as int;
        let all = label_bytes(ls);
        assert(ls =~= seq![label] + rest);
        lemma_label_bytes_front(label, rest);
        assert(valid_label(ls[0]));
        assert(packet.subrange(offset, offset + all.len())[0] == packet[offset]);
        assert(packet.subrange(offset + 1, offset + 1 + n) =~= label) by {
            assert forall|i: int| 0 <= i < n implies packet[offset + 1 + i] == label[i] by {
                assert(packet.subrange(offset, offset + all.len())[1 + i] == all[1 + i]);
            }
        }
        assert(valid_labels(rest)) by {
            assert forall|i: int| 0 <= i < rest.len() implies valid_label(#[trigger] rest[i]) by {
                assert(rest[i] == ls[i + 1]);
            }
        }
        assert(packet.subrange(
            offset + 1 + n,
            offset + 1 + n + label_bytes(rest).len(),
        ) =~= label_bytes(rest)) by {
            assert forall|i: int| 0 <= i < label_bytes(rest).len() implies packet[offset + 1 + n
                + i] == label_bytes(rest)[i] by {
                assert(packet.subrange(offset, offset + all.len())[1 + n + i] == all[1 + n + i]);
            }
        }
        lemma_spelled(packet, offset + 1 + n, rest);
    }
}

/// A query for a name of at most 253 bytes, in labels of 1 to 63, is the number of the
/// transaction, the wish for recursion, the count of one question, the labels each after
/// its length, a zero, the type that is asked for, and the class of the internet. Dots
/// behind the name make no difference.
pub proof fn law_query_spells_the_name(
    id: u16,
    ls: Seq<Seq<u8>>,
    dots: nat,
    record_type: u16,
)
    requires
        ls.len() > 0,
        forall|k: int|
            0 <= k < ls.len() ==> 0 < (#[trigger] ls[k]).len() <= 63 && !ls[k].contains(0x2e),
        joined(ls).len() <= 253,
    ensures
        query(id, joined(ls) + Seq::new(dots, |i: int| 0x2eu8), record_type) matches Ok(q) && {
            let n = q.len() as int;
            &&& n == 12 + joined(ls).len() + 6
            &&& q[0] * 256 + q[1] == id
            &&& q.subrange(2, 12) == seq![1u8, 0, 0, 1, 0, 0, 0, 0, 0, 0]
            &&& is_spelled(q, 12, ls)
            &&& q[n - 4] * 256 + q[n - 3] == record_type
            &&& q[n - 2] == 0
            &&& q[n - 1] == 1
        },
{
    let name = joined(ls);
    law_trailing_dots_are_ignored(id, name, dots, record_type);
    assert forall|k: int| 0 <= k < ls.len() implies !(#[trigger] ls[k]).contains(0x2e) by {
        assert(0 < ls[k].len());
    }
    lemma_labels_of_joined(ls);
    assert(0 < ls[ls.len() - 1].len());
    lemma_joined_ends_with_label(ls);
    assert(valid_labels(ls)) by {
        assert forall|k: int| 0 <= k < ls.len() implies valid_label(#[trigger] ls[k]) by {
            assert(0 < ls[k].len() <= 63);
        }
    }
    lemma_label_bytes_len(name);
    let q = query_header(id) + question(ls, record_type);
    let m = label_bytes(ls).len() as int;
    assert(query(id, name, record_type) == Ok::<Seq<u8>, DnsError>(q));
    assert(q.subrange(2, 12) =~= seq![1u8, 0, 0, 1, 0, 0, 0, 0, 0, 0]);
    assert(q.subrange(12, 12 + m) =~= label_bytes(ls));
    assert(q[12 + m] == 0);
    lemma_spelled(q, 12, ls);
}

/// A name that is too long is refused, and so is one with an empty label before its end or
/// with too long a label, and one of nothing but dots.
pub proof fn law_bad_hostnames_are_refused(
    id: u16,
    ls: Seq<Seq<u8>>,
    k: int,
    dots: nat,
    record_type: u16,
)
    requires
        ls.len() > 0,
        forall|k: int| 0 <= k < ls.len() ==> !(#[trigger] ls[k]).contains(0x2e),
        ls.last().len() > 0,
        0 <= k < ls.len(),
    ensures
        ({
            let r = query(id, joined(ls) + Seq::new(dots, |i: int| 0x2eu8), record_type);
            &&& joined(ls).len() > 253 ==> r == Err::<Seq<u8>, DnsError>(
                DnsError::InvalidHostname,
            )
            &&& joined(ls).len() <= 253 && (ls[k].len() == 0 || ls[k].len() > 63) ==> r == Err::<
                Seq<u8>,
                DnsError,
            >(DnsError::InvalidHostnameLabel)
        }),
        query(id, Seq::new(dots, |i: int| 0x2eu8), record_type) == Err::<Seq<u8>, DnsError>(
            DnsError::InvalidHostname,
        ),
{
    law_trailing_dots_are_ignored(id, joined(ls), dots, record_type);
    lemma_labels_of_joined(ls);
    assert(!ls[ls.len() - 1].contains(0x2e));
    lemma_joined_ends_with_label(ls);
    assert(valid_labels(ls) ==> valid_label(ls[k]));
    let only = Seq::new(dots, |i: int| 0x2eu8);
    law_trailing_dots_are_ignored(id, Seq::empty(), dots, record_type);
    assert(Seq::<u8>::empty() + only =~= only);
}

/// An address is of the kind that records of type `record_type` hold.
pub open spec fn is_of_type(a: IpAddress, record_type: u16) -> bool {
    match a {
        IpAddress::V4(_) => record_type == DNS_TYPE_A,
        IpAddress::V6(_) => record_type == DNS_TYPE_AAAA,
    }
}

proof fn lemma_answers_of_type(packet: Seq<u8>, offset: int, count: nat, record_type: u16)
    ensures
        answers(packet, offset, count, record_type) matches Ok(found) ==> found.len() <= count
            && forall|i: int| 0 <= i < found.len() ==> is_of_type(#[trigger] found[i], record_type),
    decreases count,
{
    if count > 0 {
        if let Ok(at) = name_end(packet, offset, MAX_LABELS as nat) {
            let data_len = u16_at(packet, at + 8);
            lemma_answers_of_type(
                packet,
                at + 10 + data_len,
                (count - 1) as nat,
                record_type,
            );
        }
    }
}

/// A response gives only addresses of the kind that was asked for, and at most one for
/// each answer that its header announces.
pub proof fn law_response_matches_query(packet: Seq<u8>, id: u16, record_type: u16)
    ensures
        response(packet, id, record_type) matches Ok(found) ==> found.len() <= u16_at(packet, 6)
            && forall|i: int| 0 <= i < found.len() ==> is_of_type(#[trigger] found[i], record_type),
{
    if let Ok(at) = questions_end(packet, DNS_HEADER_LEN as int, u16_at(packet, 4) as nat) {
        lemma_answers_of_type(packet, at, u16_at(packet, 6) as nat, record_type);
    }
}

} // verus!
