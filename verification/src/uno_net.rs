//! Connectivity helpers of the networked game: a reliable-delivery queue with
//! retries and duplicate suppression, the STUN binding exchange, and the
//! handshake messages. Sockets and clocks stay with the caller: times are
//! milliseconds on the caller's clock, endpoints are `address:port` text.

use vstd::prelude::*;
use std::collections::VecDeque;
use crate::text::push_str;
use crate::uno_protocol::{
    DEFAULT_TRANSPORT, HostRole, JoinDecision, Message, PROTOCOL_VERSION, PeerId, RoomId, SessionId, ShareInfo, StunStatus, copy_message, same_message,
};

verus! {

/// How long a handshake or a STUN exchange waits, in milliseconds.
pub const DEFAULT_TIMEOUT_MS: u64 = 1500;

/// The pause between handshake attempts, in milliseconds.
pub const DEFAULT_RETRY_MS: u64 = 150;

/// Where to ask for the public endpoint, and how long to wait for an answer.
#[derive(Clone, Debug, PartialEq, Eq)]
pub struct StunConfig {
    pub enabled: bool,
    pub servers: Vec<String>,
    pub timeout_ms: u64,
}

impl Default for StunConfig {
    /// Enabled, with Google's two public STUN servers and the default timeout.
    fn default() -> (config: StunConfig)
        ensures
            config.enabled,
            config.servers@.len() == 2,
            config.servers@[0]@ == "stun.l.google.com:19302"@,
            config.servers@[1]@ == "stun1.l.google.com:19302"@,
            config.timeout_ms == DEFAULT_TIMEOUT_MS,
    {
        let mut servers: Vec<String> = Vec::new();
        servers.push("stun.l.google.com:19302".to_owned());
        servers.push("stun1.l.google.com:19302".to_owned());
        StunConfig { enabled: true, servers, timeout_ms: DEFAULT_TIMEOUT_MS }
    }
}

#[derive(Clone, Debug, PartialEq, Eq)]
pub enum ConnectivityError {
    Io(String),
    StunUnavailable(String),
    HandshakeTimeout,
    SessionTimeout,
    Protocol(String),
}

/// A message waiting for its acknowledgement: when it was last sent (`None`
/// before the first send) and how often it has been sent.
#[derive(Clone, Debug, PartialEq, Eq)]
pub struct ReliableMessage {
    pub session_id: SessionId,
    pub sequence: u64,
    pub payload: Message,
    pub sent_at: Option<u64>,
    pub attempts: usize,
}

/// Whether an acknowledgement of `sequence` in `session` settles `message`.
pub open spec fn acknowledges(message: ReliableMessage, session: Seq<char>, sequence: u64) -> bool {
    message.session_id.0@ == session && message.sequence == sequence
}

/// The messages that an acknowledgement leaves waiting, in their order.
pub open spec fn unacknowledged(messages: Seq<ReliableMessage>, session: Seq<char>, sequence: u64) -> Seq<
    ReliableMessage,
>
    decreases messages.len(),
{
    if messages.len() == 0 {
        messages
    } else {
        let rest = unacknowledged(messages.drop_last(), session, sequence);
        if acknowledges(messages.last(), session, sequence) {
            rest
        } else {
            rest.push(messages.last())
        }
    }
}

/// The time since `since`, zero where `since` lies after `now`.
pub open spec fn elapsed(now: u64, since: u64) -> int {
    if now >= since {
        now - since
    } else {
        0
    }
}

/// Whether a waiting message is sent at `now`: never sent yet, or sent at
/// least `retry_after` ago.
pub open spec fn is_due(message: ReliableMessage, now: u64, retry_after: u64) -> bool {
    match message.sent_at {
        None => true,
        Some(sent) => elapsed(now, sent) >= retry_after,
    }
}

/// A waiting message after a round at `now`: a due one is stamped and counted.
pub open spec fn after_round(message: ReliableMessage, now: u64, retry_after: u64) -> ReliableMessage {
    if is_due(message, now, retry_after) {
        ReliableMessage { sent_at: Some(now), attempts: (message.attempts + 1) as usize, ..message }
    } else {
        message
    }
}

/// The payloads of the due messages, in queue order.
pub open spec fn due_payloads(messages: Seq<ReliableMessage>, now: u64, retry_after: u64) -> Seq<Message>
    decreases messages.len(),
{
    if messages.len() == 0 {
        Seq::empty()
    } else {
        let rest = due_payloads(messages.drop_last(), now, retry_after);
        if is_due(messages.last(), now, retry_after) {
            rest.push(messages.last().payload)
        } else {
            rest
        }
    }
}

/// The last sequence recorded for `session`: the latest entry for it wins,
/// and a session without entries stands at zero.
pub open spec fn last_sequence(entries: Seq<(SessionId, u64)>, session: Seq<char>) -> u64
    decreases entries.len(),
{
    if entries.len() == 0 {
        0
    } else if entries.last().0.0@ == session {
        entries.last().1
    } else {
        last_sequence(entries.drop_last(), session)
    }
}

/// Outgoing messages waiting for acknowledgement, and the highest sequence
/// received so far from each session.
#[derive(Debug)]
pub struct ReliableQueue {
    retry_after: u64,
    pending: VecDeque<ReliableMessage>,
    received: Vec<(SessionId, u64)>,
}

impl ReliableQueue {
    /// The waiting messages, oldest first.
    pub closed spec fn pending(&self) -> Seq<ReliableMessage> {
        self.pending@
    }

    /// How long a sent message waits before it is sent again.
    pub closed spec fn retry_after(&self) -> u64 {
        self.retry_after
    }

    /// The highest sequence accepted from `session`, zero before any.
    pub closed spec fn last_received(&self, session: Seq<char>) -> u64 {
        last_sequence(self.received@, session)
    }

    /// An empty queue that resends after `retry_after`.
    pub fn new(retry_after: u64) -> (queue: ReliableQueue)
        ensures
            queue.pending() == Seq::<ReliableMessage>::empty(),
            queue.retry_after() == retry_after,
            forall|session: Seq<char>| queue.last_received(session) == 0,
    {
        ReliableQueue { retry_after, pending: VecDeque::new(), received: Vec::new() }
    }

    /// Queues `payload` as message `sequence` of `session_id`, not yet sent.
    pub fn push(&mut self, session_id: SessionId, sequence: u64, payload: Message)
        ensures
            final(self).pending() == old(self).pending().push(
                ReliableMessage { session_id, sequence, payload, sent_at: None, attempts: 0 },
            ),
            final(self).retry_after() == old(self).retry_after(),
            forall|session: Seq<char>| final(self).last_received(session) == old(self).last_received(session),
    {
        self.pending.push_back(ReliableMessage { session_id, sequence, payload, sent_at: None, attempts: 0 });
    }

    /// Drops every waiting message that is message `sequence` of `session_id`.
    pub fn acknowledge(&mut self, session_id: &SessionId, sequence: u64)
        ensures
            final(self).pending() == unacknowledged(old(self).pending(), session_id.0@, sequence),
            final(self).retry_after() == old(self).retry_after(),
            forall|session: Seq<char>| final(self).last_received(session) == old(self).last_received(session),
    {
        let ghost start = self.pending@;
        let n = self.pending.len();
        let mut k: usize = 0;
        while k < n
            invariant
                k <= n,
                n == start.len(),
                self.pending@ == start.skip(k as int) + unacknowledged(start.take(k as int), session_id.0@, sequence),
                self.retry_after == old(self).retry_after,
                self.received == old(self).received,
            decreases n - k,
        {
            let ghost before = self.pending@;
            let message = self.pending.pop_front().unwrap();
            proof {
                assert(start.take(k as int + 1).drop_last() =~= start.take(k as int));
                assert(message == start[k as int]);
            }
            if message.session_id != *session_id || message.sequence != sequence {
                self.pending.push_back(message);
            }
            k += 1;
            proof {
                assert(before.drop_first() =~= start.skip(k as int) + unacknowledged(
                    start.take(k as int - 1),
                    session_id.0@,
                    sequence,
                ));
                assert(self.pending@ =~= start.skip(k as int) + unacknowledged(
                    start.take(k as int),
                    session_id.0@,
                    sequence,
                ));
            }
        }
        proof {
            assert(start.take(n as int) =~= start);
            assert(start.skip(n as int) =~= Seq::<ReliableMessage>::empty());
            assert(self.pending@ =~= unacknowledged(start, session_id.0@, sequence));
        }
    }

    /// Records that message `sequence` of `session_id` arrived. It is new, and
    /// answered `true`, only above the highest sequence seen from that session.
    pub fn record_received(&mut self, session_id: SessionId, sequence: u64) -> (accepted: bool)
        ensures
            accepted == (sequence > old(self).last_received(session_id.0@)),
            final(self).last_received(session_id.0@) == if accepted {
                sequence
            } else {
                old(self).last_received(session_id.0@)
            },
            forall|session: Seq<char>|
                session != session_id.0@ ==> final(self).last_received(session) == old(self).last_received(session),
            final(self).pending() == old(self).pending(),
            final(self).retry_after() == old(self).retry_after(),
    {
        let mut i: usize = self.received.len();
        let mut found = false;
        while i > 0 && !found
            invariant
                i <= self.received@.len(),
                self.received == old(self).received,
                found ==> i < self.received@.len() && self.received@[i as int].0.0@ == session_id.0@,
                forall|j: int| i < j < self.received@.len() ==> self.received@[j].0.0@ != session_id.0@,
                !found ==> forall|j: int|
                    i <= j < self.received@.len() ==> self.received@[j].0.0@ != session_id.0@,
            decreases i + if found {
                0int
            } else {
                1int
            },
        {
            if self.received[i - 1].0 == session_id {
                found = true;
            }
            i -= 1;
        }
        let ghost entries = self.received@;
        if found {
            proof {
                lemma_last_sequence_at(entries, i as int, session_id.0@);
            }
            let last = self.received[i].1;
            if sequence <= last {
                return false;
            }
            let ghost entry = (session_id, sequence);
            self.received.set(i, (session_id, sequence));
            proof {
                lemma_last_sequence_update(entries, i as int, entry);
            }
            true
        } else {
            proof {
                lemma_last_sequence_absent(entries, session_id.0@);
            }
            if sequence == 0 {
                return false;
            }
            self.received.push((session_id, sequence));
            proof {
                assert(self.received@.drop_last() =~= entries);
            }
            true
        }
    }

    /// Sends a round at `now`: every message that is due is stamped with `now`,
    /// counted, and its payload returned, in queue order.
    pub fn due_messages(&mut self, now: u64) -> (due: Vec<Message>)
        requires
            forall|i: int|
                0 <= i < old(self).pending().len() ==> (#[trigger] old(self).pending()[i]).attempts < usize::MAX,
        ensures
            final(self).pending() == old(self).pending().map_values(
                |m: ReliableMessage| after_round(m, now, old(self).retry_after()),
            ),
            due@.len() == due_payloads(old(self).pending(), now, old(self).retry_after()).len(),
            forall|k: int|
                0 <= k < due@.len() ==> same_message(
                    #[trigger] due@[k],
                    due_payloads(old(self).pending(), now, old(self).retry_after())[k],
                ),
            final(self).retry_after() == old(self).retry_after(),
            forall|session: Seq<char>| final(self).last_received(session) == old(self).last_received(session),
    {
        let ghost start = self.pending@;
        let retry = self.retry_after;
        let n = self.pending.len();
        let mut due: Vec<Message> = Vec::new();
        let mut k: usize = 0;
        assert forall|i: int| 0 <= i < start.len() implies (#[trigger] start[i]).attempts < usize::MAX by {
            assert(start[i] == old(self).pending()[i]);
        }
        while k < n
            invariant
                k <= n,
                n == start.len(),
                start == old(self).pending@,
                retry == old(self).retry_after,
                forall|i: int| 0 <= i < start.len() ==> (#[trigger] start[i]).attempts < usize::MAX,
                self.pending@ == start.skip(k as int) + start.take(k as int).map_values(
                    |m: ReliableMessage| after_round(m, now, retry),
                ),
                due@.len() == due_payloads(start.take(k as int), now, retry).len(),
                forall|j: int|
                    0 <= j < due@.len() ==> same_message(
                        #[trigger] due@[j],
                        due_payloads(start.take(k as int), now, retry)[j],
                    ),
                self.retry_after == old(self).retry_after,
                self.received == old(self).received,
            decreases n - k,
        {
            let ghost before = self.pending@;
            let mut message = self.pending.pop_front().unwrap();
            proof {
                assert(start.take(k as int + 1).drop_last() =~= start.take(k as int));
                assert(message == start[k as int]);
            }
            let due_now = match message.sent_at {
                None => true,
                Some(sent) => {
                    let waited = if now >= sent {
                        now - sent
                    } else {
                        0
                    };
                    waited >= retry
                },
            };
            if due_now {
                message.sent_at = Some(now);
                message.attempts = message.attempts + 1;
                due.push(copy_message(&message.payload));
            }
            self.pending.push_back(message);
            k += 1;
            proof {
                assert(self.pending@ =~= start.skip(k as int) + start.take(k as int).map_values(
                    |m: ReliableMessage| after_round(m, now, retry),
                ));
            }
        }
        proof {
            assert(start.take(n as int) =~= start);
            assert(self.pending@ =~= start.map_values(|m: ReliableMessage| after_round(m, now, retry)));
        }
        due
    }

    /// How many messages wait for acknowledgement.
    pub fn pending_len(&self) -> (len: usize)
        ensures
            len == self.pending().len(),
    {
        self.pending.len()
    }
}

/// Acknowledging keeps exactly the messages that the acknowledgement does not
/// settle, in their order.
pub proof fn law_acknowledge_filters(messages: Seq<ReliableMessage>, session: Seq<char>, sequence: u64)
    ensures
        unacknowledged(messages, session, sequence) == messages.filter(
            |m: ReliableMessage| !acknowledges(m, session, sequence),
        ),
    decreases messages.len(),
{
    reveal(Seq::filter);
    if messages.len() > 0 {
        law_acknowledge_filters(messages.drop_last(), session, sequence);
    }
}

/// Acknowledging the same message twice changes nothing the second time.
pub proof fn law_acknowledge_idempotent(messages: Seq<ReliableMessage>, session: Seq<char>, sequence: u64)
    ensures
        unacknowledged(unacknowledged(messages, session, sequence), session, sequence) == unacknowledged(
            messages,
            session,
            sequence,
        ),
    decreases messages.len(),
{
    if messages.len() > 0 {
        law_acknowledge_idempotent(messages.drop_last(), session, sequence);
        let rest = unacknowledged(messages.drop_last(), session, sequence);
        if !acknowledges(messages.last(), session, sequence) {
            assert(rest.push(messages.last()).drop_last() =~= rest);
        }
    }
}

/// A message is sent at most once per retry interval: right after a round at
/// `now`, a second round at `now` sends nothing, unless messages are resent
/// at once (`retry_after` zero).
pub proof fn law_round_spacing(messages: Seq<ReliableMessage>, now: u64, retry_after: u64)
    requires
        retry_after > 0,
    ensures
        due_payloads(messages.map_values(|m: ReliableMessage| after_round(m, now, retry_after)), now, retry_after)
            == Seq::<Message>::empty(),
    decreases messages.len(),
{
    let sent = messages.map_values(|m: ReliableMessage| after_round(m, now, retry_after));
    if messages.len() > 0 {
        law_round_spacing(messages.drop_last(), now, retry_after);
        assert(sent.drop_last() =~= messages.drop_last().map_values(
            |m: ReliableMessage| after_round(m, now, retry_after),
        ));
    }
}

/// A message that was never sent goes out in the next round.
pub proof fn law_new_message_is_due(messages: Seq<ReliableMessage>, message: ReliableMessage, now: u64, retry_after: u64)
    requires
        message.sent_at is None,
    ensures
        due_payloads(messages.push(message), now, retry_after) == due_payloads(messages, now, retry_after).push(
            message.payload,
        ),
{
    assert(messages.push(message).drop_last() =~= messages);
}

proof fn lemma_last_sequence_absent(entries: Seq<(SessionId, u64)>, session: Seq<char>)
    requires
        forall|j: int| 0 <= j < entries.len() ==> entries[j].0.0@ != session,
    ensures
        last_sequence(entries, session) == 0,
    decreases entries.len(),
{
    if entries.len() > 0 {
        lemma_last_sequence_absent(entries.drop_last(), session);
    }
}

proof fn lemma_last_sequence_at(entries: Seq<(SessionId, u64)>, at: int, session: Seq<char>)
    requires
        0 <= at < entries.len(),
        entries[at].0.0@ == session,
        forall|j: int| at < j < entries.len() ==> entries[j].0.0@ != session,
    ensures
        last_sequence(entries, session) == entries[at].1,
    decreases entries.len(),
{
    if at < entries.len() - 1 {
        lemma_last_sequence_at(entries.drop_last(), at, session);
    }
}

proof fn lemma_last_sequence_update(entries: Seq<(SessionId, u64)>, at: int, entry: (SessionId, u64))
    requires
        0 <= at < entries.len(),
        entries[at].0.0@ == entry.0.0@,
        forall|j: int| at < j < entries.len() ==> entries[j].0.0@ != entry.0.0@,
    ensures
        last_sequence(entries.update(at, entry), entry.0.0@) == entry.1,
        forall|other: Seq<char>|
            other != entry.0.0@ ==> last_sequence(entries.update(at, entry), other) == last_sequence(
                entries,
                other,
            ),
    decreases entries.len(),
{
    let updated = entries.update(at, entry);
    if at == entries.len() - 1 {
        assert(updated.drop_last() =~= entries.drop_last());
        assert forall|other: Seq<char>| other != entry.0.0@ implies last_sequence(updated, other) == last_sequence(
            entries,
            other,
        ) by {
            assert(updated.last() == entry);
        }
    } else {
        lemma_last_sequence_update(entries.drop_last(), at, entry);
        assert(updated.drop_last() =~= entries.drop_last().update(at, entry));
        assert(updated.last() == entries.last());
        assert forall|other: Seq<char>| other != entry.0.0@ implies last_sequence(updated, other) == last_sequence(
            entries,
            other,
        ) by {
            if updated.last().0.0@ != other {
                assert(last_sequence(updated.drop_last(), other) == last_sequence(
                    entries.drop_last().update(at, entry),
                    other,
                ));
                assert(last_sequence(updated, other) == last_sequence(updated.drop_last(), other));
                assert(last_sequence(entries, other) == last_sequence(entries.drop_last(), other));
                assert(last_sequence(entries.drop_last().update(at, entry), other) == last_sequence(entries.drop_last(), other));
            } else {
                assert(last_sequence(updated, other) == updated.last().1);
            }
        }
    }
}


// ===== STUN =====

/// The STUN magic cookie, byte by byte.
pub open spec fn magic_cookie() -> Seq<u8> {
    seq![0x21u8, 0x12u8, 0xA4u8, 0x42u8]
}

/// The transaction id of every binding request: the bytes of `uno-client01`.
pub open spec fn transaction_id() -> Seq<u8> {
    seq![117u8, 110u8, 111u8, 45u8, 99u8, 108u8, 105u8, 101u8, 110u8, 116u8, 48u8, 49u8]
}

/// A binding request: type 0x0001, length zero, the magic cookie and the
/// transaction id.
pub open spec fn binding_request() -> Seq<u8> {
    seq![0x00u8, 0x01u8, 0x00u8, 0x00u8] + magic_cookie() + transaction_id()
}

/// The big-endian 16-bit number at `at`.
pub open spec fn be16(bytes: Seq<u8>, at: int) -> int {
    bytes[at] * 256 + bytes[at + 1]
}

/// An attribute length rounded up to whole 32-bit words.
pub open spec fn padded(len: int) -> int {
    (len + 3) / 4 * 4
}

/// The XOR-MAPPED-ADDRESS of the attributes from `index` on: the first
/// attribute of type 0x0020, at least 8 bytes long, of the IPv4 family, its
/// address and port XOR-ed with the magic cookie. `None` where the attributes
/// end, or one runs past the message, first.
pub open spec fn mapped_from(bytes: Seq<u8>, index: int) -> Option<(Seq<u8>, u16)>
    decreases bytes.len() + 4 - index,
{
    if index < 0 || index + 4 > bytes.len() {
        None
    } else {
        let start = index + 4;
        let kind = be16(bytes, index);
        let len = be16(bytes, index + 2);
        if start + len > bytes.len() {
            None
        } else if kind == 0x0020 && len >= 8 && bytes[start + 1] == 0x01 {
            Some(
                (
                    seq![
                        bytes[start + 4] ^ 0x21u8,
                        bytes[start + 5] ^ 0x12u8,
                        bytes[start + 6] ^ 0xA4u8,
                        bytes[start + 7] ^ 0x42u8,
                    ],
                    (be16(bytes, start + 2) as u16) ^ 0x2112u16,
                ),
            )
        } else {
            mapped_from(bytes, start + padded(len))
        }
    }
}

/// The mapped address of a STUN response: `None` for fewer than 20 bytes or a
/// wrong magic cookie, else the XOR-MAPPED-ADDRESS among the attributes.
pub open spec fn stun_mapped_address(bytes: Seq<u8>) -> Option<(Seq<u8>, u16)> {
    if bytes.len() < 20 || bytes.subrange(4, 8) != magic_cookie() {
        None
    } else {
        mapped_from(bytes, 20)
    }
}

/// The bytes of a binding request.
pub fn stun_binding_request() -> (request: Vec<u8>)
    ensures
        request@ == binding_request(),
{
    let request: Vec<u8> = vec![
        0x00, 0x01, 0x00, 0x00, 0x21, 0x12, 0xA4, 0x42, 117, 110, 111, 45, 99, 108, 105, 101, 110, 116, 48, 49,
    ];
    proof {
        assert(request@ =~= binding_request());
    }
    request
}

/// Reads the public IPv4 address and port from a STUN binding response; see
/// `stun_mapped_address`.
pub fn parse_stun_xor_mapped_address(bytes: &[u8]) -> (mapped: Option<([u8; 4], u16)>)
    ensures
        match (mapped, stun_mapped_address(bytes@)) {
            (None, None) => true,
            (Some((ip, port)), Some((spec_ip, spec_port))) => ip@ == spec_ip && port == spec_port,
            _ => false,
        },
{
    if bytes.len() < 20 {
        return None;
    }
    if bytes[4] != 0x21 || bytes[5] != 0x12 || bytes[6] != 0xA4 || bytes[7] != 0x42 {
        proof {
            assert(bytes@.subrange(4, 8) != magic_cookie()) by {
                if bytes@.subrange(4, 8) == magic_cookie() {
                    assert(bytes@.subrange(4, 8)[0] == bytes@[4]);
                    assert(bytes@.subrange(4, 8)[1] == bytes@[5]);
                    assert(bytes@.subrange(4, 8)[2] == bytes@[6]);
                    assert(bytes@.subrange(4, 8)[3] == bytes@[7]);
                }
            }
        }
        return None;
    }
    proof {
        assert(bytes@.subrange(4, 8) =~= magic_cookie());
    }
    let mut index: usize = 20;
    while index <= bytes.len() && bytes.len() - index >= 4
        invariant
            20 <= index,
            bytes@.len() >= 20,
            stun_mapped_address(bytes@) == mapped_from(bytes@, index as int),
        decreases bytes@.len() + 4 - index,
    {
        let kind: u16 = (bytes[index] as u16) * 256 + (bytes[index + 1] as u16);
        let len: usize = (bytes[index + 2] as usize) * 256 + (bytes[index + 3] as usize);
        let start = index + 4;
        if len > bytes.len() - start {
            return None;
        }
        if kind == 0x0020 && len >= 8 && bytes[start + 1] == 0x01 {
            let port: u16 = ((bytes[start + 2] as u16) * 256 + (bytes[start + 3] as u16)) ^ 0x2112;
            let ip: [u8; 4] = [
                bytes[start + 4] ^ 0x21,
                bytes[start + 5] ^ 0x12,
                bytes[start + 6] ^ 0xA4,
                bytes[start + 7] ^ 0x42,
            ];
            proof {
                assert(ip@ =~= mapped_from(bytes@, index as int).unwrap().0);
            }
            return Some((ip, port));
        }
        let step = (len + 3) / 4 * 4;
        if step > bytes.len() - start {
            proof {
                assert(mapped_from(bytes@, start + step) == None::<(Seq<u8>, u16)>);
            }
            return None;
        }
        index = start + step;
    }
    None
}

// ===== handshake =====

/// The request a joiner sends to the host named in `share`.
pub fn join_request(share: &ShareInfo, peer_id: PeerId, name: String) -> (request: Message)
    ensures
        request == (Message::JoinRequest { room_id: share.room_id, peer_id, name }),
{
    Message::JoinRequest { room_id: RoomId(share.room_id.0.clone()), peer_id, name }
}

/// The text of the session granted to an accepted peer: `session-` and its id.
pub open spec fn session_for(peer_id: PeerId) -> Seq<char> {
    "session-"@ + peer_id.0@
}

/// The host's answer to a join: a session of its own and the peer role when
/// accepted, else a rejection.
pub fn join_response(room_id: RoomId, peer_id: PeerId, accepted: bool) -> (response: Message)
    ensures
        response matches Message::JoinResponse { room_id: r, peer_id: p, decision } && r == room_id && p == peer_id
            && if accepted {
            decision matches JoinDecision::Accepted { session_id, role } && session_id.0@ == session_for(peer_id)
                && role == HostRole::Peer
        } else {
            decision matches JoinDecision::Rejected { reason } && reason@ == "room rejected join"@
        },
{
    let decision = if accepted {
        let mut session = String::new();
        push_str(&mut session, "session-");
        push_str(&mut session, peer_id.0.as_str());
        JoinDecision::Accepted { session_id: SessionId(session), role: HostRole::Peer }
    } else {
        JoinDecision::Rejected { reason: "room rejected join".to_owned() }
    };
    Message::JoinResponse { room_id, peer_id, decision }
}

/// Whether a message that reached the host is a join request for its room.
pub fn is_join_for(message: &Message, room_id: &RoomId) -> (join: bool)
    ensures
        join == (message matches Message::JoinRequest { room_id: r, .. } && r.0@ == room_id.0@),
{
    match message {
        Message::JoinRequest { room_id: requested, .. } => requested == room_id,
        _ => false,
    }
}

/// The host's decision in a message that reached a joiner, where it answers
/// this joiner's request for this room; `None` for any other message.
pub fn join_decision_for(message: Message, room_id: &RoomId, peer_id: &PeerId) -> (decision: Option<JoinDecision>)
    ensures
        match message {
            Message::JoinResponse { room_id: r, peer_id: p, decision: d } => if r.0@ == room_id.0@ && p.0@
                == peer_id.0@ {
                decision == Some(d)
            } else {
                decision is None
            },
            _ => decision is None,
        },
{
    match message {
        Message::JoinResponse { room_id: r, peer_id: p, decision } => {
            if r == *room_id && p == *peer_id {
                Some(decision)
            } else {
                None
            }
        },
        _ => None,
    }
}

/// An invitation to a forwarded endpoint.
pub fn make_forwarded_share(endpoint: String, room_id: RoomId, host_id: PeerId) -> (share: ShareInfo)
    ensures
        share.version@ == PROTOCOL_VERSION@,
        share.transport@ == DEFAULT_TRANSPORT@,
        share.endpoint == endpoint,
        share.room_id == room_id,
        share.host_id == host_id,
        share.forwarded,
{
    ShareInfo::new(endpoint, room_id, host_id).with_forwarded(true)
}

/// The invitation a host hands out once its endpoint is known: a discovered
/// public endpoint as it is, a manual one marked forwarded, and otherwise the
/// local socket's endpoint, marked forwarded.
pub fn share_for_status(status: &StunStatus, local_endpoint: String, room_id: RoomId, host_id: PeerId) -> (share:
    ShareInfo)
    ensures
        share.version@ == PROTOCOL_VERSION@,
        share.transport@ == DEFAULT_TRANSPORT@,
        share.room_id == room_id,
        share.host_id == host_id,
        match status {
            StunStatus::Discovered(endpoint) => share.endpoint == *endpoint && !share.forwarded,
            StunStatus::Manual(endpoint) => share.endpoint == *endpoint && share.forwarded,
            _ => share.endpoint == local_endpoint && share.forwarded,
        },
{
    match status {
        StunStatus::Discovered(endpoint) => ShareInfo::new(endpoint.clone(), room_id, host_id),
        StunStatus::Manual(endpoint) => make_forwarded_share(endpoint.clone(), room_id, host_id),
        _ => make_forwarded_share(local_endpoint, room_id, host_id),
    }
}

/// What endpoint discovery reports when no STUN server answered: the local
/// endpoint as a manual one where the socket is bound to a specific address,
/// else an error.
pub fn stun_fallback(local_endpoint: String, local_unspecified: bool) -> (status: Result<
    StunStatus,
    ConnectivityError,
>)
    ensures
        if local_unspecified {
            status matches Err(ConnectivityError::StunUnavailable(m))
                && m@ == "no configured STUN server returned a public endpoint"@
        } else {
            status == Ok::<StunStatus, ConnectivityError>(StunStatus::Manual(local_endpoint))
        },
{
    if !local_unspecified {
        Ok(StunStatus::Manual(local_endpoint))
    } else {
        Err(
            ConnectivityError::StunUnavailable(
                "no configured STUN server returned a public endpoint".to_owned(),
            ),
        )
    }
}

} // verus!
