//! The text wire format of the networked game: `|`-separated messages,
//! `:`-separated commands and members, and percent-escaping of free text.

use vstd::prelude::*;
use crate::text::{
    chars_equal, chars_of, decimal, joined, parse_decimal, parsed_u64, push_chars, push_decimal, push_str,
    replace_all, replace_chars, split_chars, split_on, string_of,
};
use crate::uno_core::{
    Card, Color, Command, EventKind, GameEvent, PlayerId, Rank, color_parsed, color_text, copy_event, copy_id,
};

verus! {

pub const PROTOCOL_VERSION: &'static str = "v1";
pub const DEFAULT_TRANSPORT: &'static str = "udp";

#[derive(Clone, Debug, Hash, PartialOrd, Ord)]
pub struct PeerId(pub String);

#[derive(Clone, Debug, Hash, PartialOrd, Ord)]
pub struct RoomId(pub String);

#[derive(Clone, Debug, Hash, PartialOrd, Ord)]
pub struct SessionId(pub String);

impl PartialEq for PeerId {
    fn eq(&self, other: &Self) -> (same: bool) {
        self.0 == other.0
    }
}

impl vstd::std_specs::cmp::PartialEqSpecImpl for PeerId {
    open spec fn obeys_eq_spec() -> bool {
        true
    }

    open spec fn eq_spec(&self, other: &Self) -> bool {
        self.0@ == other.0@
    }
}

impl Eq for PeerId {}

impl PartialEq for RoomId {
    fn eq(&self, other: &Self) -> (same: bool) {
        self.0 == other.0
    }
}

impl vstd::std_specs::cmp::PartialEqSpecImpl for RoomId {
    open spec fn obeys_eq_spec() -> bool {
        true
    }

    open spec fn eq_spec(&self, other: &Self) -> bool {
        self.0@ == other.0@
    }
}

impl Eq for RoomId {}

impl PartialEq for SessionId {
    fn eq(&self, other: &Self) -> (same: bool) {
        self.0 == other.0
    }
}

impl vstd::std_specs::cmp::PartialEqSpecImpl for SessionId {
    open spec fn obeys_eq_spec() -> bool {
        true
    }

    open spec fn eq_spec(&self, other: &Self) -> bool {
        self.0@ == other.0@
    }
}

impl Eq for SessionId {}

impl PeerId {
    pub fn new(value: &str) -> (id: PeerId)
        ensures
            id.0@ == value@,
    {
        PeerId(value.to_owned())
    }
}

impl RoomId {
    pub fn new(value: &str) -> (id: RoomId)
        ensures
            id.0@ == value@,
    {
        RoomId(value.to_owned())
    }
}

impl SessionId {
    pub fn new(value: &str) -> (id: SessionId)
        ensures
            id.0@ == value@,
    {
        SessionId(value.to_owned())
    }
}

#[derive(Clone, Copy, Debug, PartialEq, Eq, Structural)]
pub enum HostRole {
    Active,
    Standby,
    Peer,
}

/// How a host's public endpoint was found; endpoints as `address:port` text.
#[derive(Clone, Debug, PartialEq, Eq)]
pub enum StunStatus {
    Disabled,
    Failed(String),
    Discovered(String),
    Manual(String),
}

#[derive(Clone, Debug, PartialEq, Eq)]
pub enum JoinDecision {
    Accepted { session_id: SessionId, role: HostRole },
    Rejected { reason: String },
}

#[derive(Clone, Debug, PartialEq, Eq)]
pub enum DisconnectReason {
    Left,
    Timeout,
    HostUnavailable,
    ProtocolError(String),
}

#[derive(Clone, Debug, PartialEq, Eq)]
pub struct MemberInfo {
    pub peer_id: PeerId,
    pub player_id: PlayerId,
    pub name: String,
    pub ready: bool,
    pub connected: bool,
    pub role: HostRole,
}

#[derive(Clone, Debug, PartialEq, Eq)]
pub enum Message {
    Ping { session_id: SessionId, sequence: u64 },
    Ack { session_id: SessionId, sequence: u64 },
    JoinRequest { room_id: RoomId, peer_id: PeerId, name: String },
    JoinResponse { room_id: RoomId, peer_id: PeerId, decision: JoinDecision },
    Membership { room_id: RoomId, members: Vec<MemberInfo> },
    Ready { room_id: RoomId, peer_id: PeerId, ready: bool },
    Command { room_id: RoomId, sequence: u64, command: Command },
    Event { room_id: RoomId, event: GameEvent },
    Disconnect { room_id: RoomId, peer_id: PeerId, reason: DisconnectReason },
}

#[derive(Debug, Clone, PartialEq, Eq)]
pub enum ProtocolError {
    InvalidShare(String),
    InvalidEndpoint(String),
    InvalidMessage(String),
    UnknownMessageType(String),
    MissingField(&'static str),
}

// ===== escaping =====

/// The escape of one character: `%`, `|`, `/`, `:` and `,` become `%25`,
/// `%7C`, `%2F`, `%3A` and `%2C`.
pub open spec fn escape_char(c: char) -> Seq<char> {
    if c == '%' {
        seq!['%', '2', '5']
    } else if c == '|' {
        seq!['%', '7', 'C']
    } else if c == '/' {
        seq!['%', '2', 'F']
    } else if c == ':' {
        seq!['%', '3', 'A']
    } else if c == ',' {
        seq!['%', '2', 'C']
    } else {
        seq![c]
    }
}

/// Free text with its separators escaped, character by character.
pub open spec fn escaped(text: Seq<char>) -> Seq<char>
    decreases text.len(),
{
    if text.len() == 0 {
        Seq::empty()
    } else {
        escaped(text.drop_last()) + escape_char(text.last())
    }
}

/// Undoes the escapes: `%2C`, `%3A`, `%2F`, `%7C` and then `%25` are replaced
/// throughout, in this order.
pub open spec fn unescaped(text: Seq<char>) -> Seq<char> {
    replace_all(
        replace_all(
            replace_all(
                replace_all(replace_all(text, seq!['%', '2', 'C'], seq![',']), seq!['%', '3', 'A'], seq![':']),
                seq!['%', '2', 'F'],
                seq!['/'],
            ),
            seq!['%', '7', 'C'],
            seq!['|'],
        ),
        seq!['%', '2', '5'],
        seq!['%'],
    )
}

// ===== why unescaping undoes escaping =====

/// The escape sequences, in the order unescaping replaces them.
pub open spec fn escape_code(k: int) -> Seq<char> {
    if k == 0 {
        seq!['%', '2', 'C']
    } else if k == 1 {
        seq!['%', '3', 'A']
    } else if k == 2 {
        seq!['%', '2', 'F']
    } else if k == 3 {
        seq!['%', '7', 'C']
    } else {
        seq!['%', '2', '5']
    }
}

/// The character each escape sequence stands for.
pub open spec fn escape_target(k: int) -> char {
    if k == 0 {
        ','
    } else if k == 1 {
        ':'
    } else if k == 2 {
        '/'
    } else if k == 3 {
        '|'
    } else {
        '%'
    }
}

/// Where `c` stands in the unescaping order; 5 for a character never escaped.
pub open spec fn escape_rank(c: char) -> int {
    if c == ',' {
        0
    } else if c == ':' {
        1
    } else if c == '/' {
        2
    } else if c == '|' {
        3
    } else if c == '%' {
        4
    } else {
        5
    }
}

/// A character after the first `k` replacements of unescaping: still escaped
/// when its own replacement comes later.
pub open spec fn staged_char(c: char, k: int) -> Seq<char> {
    if k <= escape_rank(c) < 5 {
        escape_char(c)
    } else {
        seq![c]
    }
}

/// An escaped text after the first `k` replacements of unescaping.
pub open spec fn staged(text: Seq<char>, k: int) -> Seq<char>
    decreases text.len(),
{
    if text.len() == 0 {
        Seq::empty()
    } else {
        staged_char(text[0], k) + staged(text.drop_first(), k)
    }
}

proof fn lemma_staged_push(text: Seq<char>, k: int)
    requires
        text.len() > 0,
    ensures
        staged(text, k) == staged(text.drop_last(), k) + staged_char(text.last(), k),
    decreases text.len(),
{
    let first = staged_char(text[0], k);
    if text.len() > 1 {
        let rest = text.drop_first();
        lemma_staged_push(rest, k);
        assert(rest.drop_last() =~= text.drop_last().drop_first());
        assert(text.drop_last()[0] == text[0]);
        assert(rest.last() == text.last());
        assert(staged(text.drop_last(), k) == first + staged(rest.drop_last(), k));
        assert(staged(text, k) == first + (staged(rest.drop_last(), k) + staged_char(text.last(), k)));
        assert(staged(text, k) =~= (first + staged(rest.drop_last(), k)) + staged_char(text.last(), k));
    } else {
        assert(text.drop_first().len() == 0);
        assert(text.drop_last().len() == 0);
        assert(text[0] == text.last());
        assert(staged(text.drop_first(), k) == Seq::<char>::empty());
        assert(staged(text.drop_last(), k) == Seq::<char>::empty());
        assert(staged(text, k) =~= staged(text.drop_last(), k) + staged_char(text.last(), k));
    }
}

proof fn lemma_staged_first(text: Seq<char>)
    ensures
        staged(text, 0) == escaped(text),
    decreases text.len(),
{
    if text.len() > 0 {
        lemma_staged_first(text.drop_last());
        lemma_staged_push(text, 0);
        let c = text.last();
        assert(staged_char(c, 0) == escape_char(c));
    }
}

proof fn lemma_staged_last(text: Seq<char>)
    ensures
        staged(text, 5) == text,
    decreases text.len(),
{
    if text.len() > 0 {
        lemma_staged_last(text.drop_first());
        assert(seq![text[0]] + text.drop_first() =~= text);
    }
}

proof fn lemma_replace_passes(s: Seq<char>, pat: Seq<char>, rep: Seq<char>)
    requires
        pat.len() == 3,
        pat[0] == '%',
        s.len() > 0,
        s[0] != '%',
    ensures
        replace_all(s, pat, rep) == seq![s[0]] + replace_all(s.drop_first(), pat, rep),
{
    if s.len() < 3 {
        assert(seq![s[0]] + s.drop_first() =~= s);
    } else {
        assert(s.take(3)[0] != pat[0]);
    }
}

proof fn lemma_replace_stage(text: Seq<char>, k: int)
    requires
        0 <= k < 5,
    ensures
        replace_all(staged(text, k), escape_code(k), seq![escape_target(k)]) == staged(text, k + 1),
    decreases text.len(),
{
    let pat = escape_code(k);
    let rep = seq![escape_target(k)];
    if text.len() > 0 {
        let c = text[0];
        let rest = text.drop_first();
        let tail = staged(rest, k);
        lemma_replace_stage(rest, k);
        let whole = staged_char(c, k) + tail;
        assert(staged(text, k) == whole);
        let r = escape_rank(c);
        if r == k {
            assert(staged_char(c, k) == pat);
            assert(whole.take(3) =~= pat);
            assert(whole.skip(3) =~= tail);
            assert(staged_char(c, k + 1) =~= rep);
        } else if k < r && r < 5 {
            let code = escape_char(c);
            assert(code == escape_code(r));
            assert(code.len() == 3 && code[0] == '%' && code[1] != '%' && code[2] != '%');
            assert(whole.take(3) =~= code);
            assert(code != pat) by {
                assert(code[1] != pat[1] || code[2] != pat[2]);
            }
            assert(whole.drop_first() =~= seq![code[1], code[2]] + tail);
            lemma_replace_passes(seq![code[1], code[2]] + tail, pat, rep);
            assert((seq![code[1], code[2]] + tail).drop_first() =~= seq![code[2]] + tail);
            lemma_replace_passes(seq![code[2]] + tail, pat, rep);
            assert((seq![code[2]] + tail).drop_first() =~= tail);
            assert(replace_all(whole, pat, rep) =~= code + replace_all(tail, pat, rep));
            assert(staged_char(c, k + 1) == code);
        } else {
            assert(staged_char(c, k) == seq![c]);
            assert(c != '%');
            lemma_replace_passes(whole, pat, rep);
            assert(whole.drop_first() =~= tail);
            assert(staged_char(c, k + 1) == seq![c]);
        }
        assert(staged(text, k + 1) == staged_char(c, k + 1) + staged(rest, k + 1));
    } else {
        assert(staged(text, k) == Seq::<char>::empty());
    }
}

/// Unescaping gives back exactly the text that was escaped.
pub proof fn law_unescape_undoes_escape(text: Seq<char>)
    ensures
        unescaped(escaped(text)) == text,
{
    lemma_staged_first(text);
    lemma_replace_stage(text, 0);
    lemma_replace_stage(text, 1);
    lemma_replace_stage(text, 2);
    lemma_replace_stage(text, 3);
    lemma_replace_stage(text, 4);
    lemma_staged_last(text);
}

/// Escaped text holds none of the wire format's separators.
pub proof fn law_escaped_has_no_separators(text: Seq<char>)
    ensures
        forall|i: int|
            0 <= i < escaped(text).len() ==> {
                let c = #[trigger] escaped(text)[i];
                c != ':' && c != '|' && c != '/' && c != ','
            },
    decreases text.len(),
{
    if text.len() > 0 {
        law_escaped_has_no_separators(text.drop_last());
        let head = escaped(text.drop_last());
        let tail = escape_char(text.last());
        assert(escaped(text) == head + tail);
        assert forall|i: int| 0 <= i < escaped(text).len() implies {
            let c = #[trigger] escaped(text)[i];
            c != ':' && c != '|' && c != '/' && c != ','
        } by {
            if i < head.len() {
                assert(escaped(text)[i] == head[i]);
            } else {
                assert(escaped(text)[i] == tail[i - head.len()]);
            }
        }
    }
}

fn push_escaped(out: &mut String, value: &[char])
    ensures
        final(out)@ == old(out)@ + escaped(value@),
{
    let mut i: usize = 0;
    while i < value.len()
        invariant
            i <= value@.len(),
            out@ == old(out)@ + escaped(value@.take(i as int)),
        decreases value@.len() - i,
    {
        let c = value[i];
        let ghost before = out@;
        if c == '%' {
            push_chars(out, &['%', '2', '5']);
        } else if c == '|' {
            push_chars(out, &['%', '7', 'C']);
        } else if c == '/' {
            push_chars(out, &['%', '2', 'F']);
        } else if c == ':' {
            push_chars(out, &['%', '3', 'A']);
        } else if c == ',' {
            push_chars(out, &['%', '2', 'C']);
        } else {
            crate::text::push_char(out, c);
        }
        proof {
            assert(value@.take(i + 1).drop_last() =~= value@.take(i as int));
            assert(out@ =~= before + escape_char(c));
        }
        i += 1;
    }
    proof {
        assert(value@.take(value@.len() as int) =~= value@);
    }
}

/// `value` with `%`, `|`, `/`, `:` and `,` escaped; see `escaped`.
pub fn escape(value: &str) -> (text: String)
    ensures
        text@ == escaped(value@),
{
    let chars = chars_of(value);
    let mut out = String::new();
    push_escaped(&mut out, chars.as_slice());
    out
}

fn unescape_chars(value: &[char]) -> (text: Vec<char>)
    ensures
        text@ == unescaped(value@),
{
    proof {
        reveal_strlit("%2C");
        reveal_strlit("%3A");
        reveal_strlit("%2F");
        reveal_strlit("%7C");
        reveal_strlit("%25");
        reveal_strlit(",");
        reveal_strlit(":");
        reveal_strlit("/");
        reveal_strlit("|");
        reveal_strlit("%");
        assert("%2C"@ =~= seq!['%', '2', 'C']);
        assert("%3A"@ =~= seq!['%', '3', 'A']);
        assert("%2F"@ =~= seq!['%', '2', 'F']);
        assert("%7C"@ =~= seq!['%', '7', 'C']);
        assert("%25"@ =~= seq!['%', '2', '5']);
        assert(","@ =~= seq![',']);
        assert(":"@ =~= seq![':']);
        assert("/"@ =~= seq!['/']);
        assert("|"@ =~= seq!['|']);
        assert("%"@ =~= seq!['%']);
    }
    let a = replace_chars(value, "%2C", ",");
    let b = replace_chars(a.as_slice(), "%3A", ":");
    let c = replace_chars(b.as_slice(), "%2F", "/");
    let d = replace_chars(c.as_slice(), "%7C", "|");
    replace_chars(d.as_slice(), "%25", "%")
}

/// `value` with its escapes undone; see `unescaped`.
pub fn unescape(value: &str) -> (text: String)
    ensures
        text@ == unescaped(value@),
{
    let chars = chars_of(value);
    let plain = unescape_chars(chars.as_slice());
    string_of(plain.as_slice())
}

// ===== small encodings =====

pub open spec fn role_text(role: HostRole) -> Seq<char> {
    match role {
        HostRole::Active => "active"@,
        HostRole::Standby => "standby"@,
        HostRole::Peer => "peer"@,
    }
}

pub fn encode_role(role: HostRole) -> (text: &'static str)
    ensures
        text@ == role_text(role),
{
    match role {
        HostRole::Active => "active",
        HostRole::Standby => "standby",
        HostRole::Peer => "peer",
    }
}

/// `InvalidMessage` carrying `text`.
pub open spec fn invalid_message(e: ProtocolError, text: Seq<char>) -> bool {
    e matches ProtocolError::InvalidMessage(m) && m@ == text
}

/// The role a text names, or the error for an unknown one.
pub open spec fn role_parsed(text: Seq<char>, result: Result<HostRole, ProtocolError>) -> bool {
    if text == "active"@ {
        result == Ok::<HostRole, ProtocolError>(HostRole::Active)
    } else if text == "standby"@ {
        result == Ok::<HostRole, ProtocolError>(HostRole::Standby)
    } else if text == "peer"@ {
        result == Ok::<HostRole, ProtocolError>(HostRole::Peer)
    } else {
        result matches Err(e) && invalid_message(e, "invalid role "@ + text)
    }
}

fn invalid_with(prefix: &str, value: &[char]) -> (e: ProtocolError)
    ensures
        invalid_message(e, prefix@ + value@),
{
    let mut text = String::new();
    push_str(&mut text, prefix);
    push_chars(&mut text, value);
    ProtocolError::InvalidMessage(text)
}

pub fn decode_role(value: &[char]) -> (result: Result<HostRole, ProtocolError>)
    ensures
        role_parsed(value@, result),
{
    if chars_equal(value, "active") {
        Ok(HostRole::Active)
    } else if chars_equal(value, "standby") {
        Ok(HostRole::Standby)
    } else if chars_equal(value, "peer") {
        Ok(HostRole::Peer)
    } else {
        Err(invalid_with("invalid role ", value))
    }
}

/// The text of a rank: its number, or its name.
pub open spec fn rank_text(rank: Rank) -> Seq<char> {
    match rank {
        Rank::Number(n) => decimal(n as nat),
        Rank::Skip => "skip"@,
        Rank::Reverse => "reverse"@,
        Rank::DrawTwo => "draw-two"@,
        Rank::Wild => "wild"@,
        Rank::WildDrawFour => "wild-draw-four"@,
    }
}

fn push_rank(out: &mut String, rank: Rank)
    ensures
        final(out)@ == old(out)@ + rank_text(rank),
{
    match rank {
        Rank::Number(n) => push_decimal(out, n as u64),
        Rank::Skip => push_str(out, "skip"),
        Rank::Reverse => push_str(out, "reverse"),
        Rank::DrawTwo => push_str(out, "draw-two"),
        Rank::Wild => push_str(out, "wild"),
        Rank::WildDrawFour => push_str(out, "wild-draw-four"),
    }
}

/// A card as `color-rank`, or `wild-rank` for a colorless card.
pub open spec fn card_text(card: Card) -> Seq<char> {
    match card.color {
        Some(color) => color_text(color) + "-"@ + rank_text(card.rank),
        None => "wild-"@ + rank_text(card.rank),
    }
}

fn push_card(out: &mut String, card: Card)
    ensures
        final(out)@ == old(out)@ + card_text(card),
{
    match card.color {
        Some(color) => {
            push_str(out, color.label());
            push_str(out, "-");
            push_rank(out, card.rank);
        },
        None => {
            push_str(out, "wild-");
            push_rank(out, card.rank);
        },
    }
}

pub fn encode_card(card: Card) -> (text: String)
    ensures
        text@ == card_text(card),
{
    let mut out = String::new();
    push_card(&mut out, card);
    out
}

/// The first position of `c` in `text`, if any.
pub open spec fn first_index_of(text: Seq<char>, c: char, i: int) -> bool {
    0 <= i < text.len() && text[i] == c && forall|k: int| 0 <= k < i ==> text[k] != c
}

/// The rank a text names: a name, or a number in `0..=255`.
pub open spec fn rank_parsed(text: Seq<char>) -> Option<Rank> {
    if text == "skip"@ {
        Some(Rank::Skip)
    } else if text == "reverse"@ {
        Some(Rank::Reverse)
    } else if text == "draw-two"@ {
        Some(Rank::DrawTwo)
    } else if text == "wild"@ {
        Some(Rank::Wild)
    } else if text == "wild-draw-four"@ {
        Some(Rank::WildDrawFour)
    } else {
        match parsed_u64(text) {
            Some(n) => if n <= 255 {
                Some(Rank::Number(n as u8))
            } else {
                None
            },
            None => None,
        }
    }
}

/// What decoding a card text gives: split at the first `-` into color and
/// rank, the rank read first, then `wild` or a color name.
pub open spec fn card_parsed(text: Seq<char>, result: Result<Card, ProtocolError>) -> bool {
    if forall|i: int| 0 <= i < text.len() ==> text[i] != '-' {
        result matches Err(e) && invalid_message(e, "invalid card "@ + text)
    } else {
        exists|i: int|
            #[trigger] first_index_of(text, '-', i) && {
                let color = text.take(i);
                let rank = text.skip(i + 1);
                match rank_parsed(rank) {
                    None => result matches Err(e) && invalid_message(e, "invalid rank "@ + rank),
                    Some(r) => if color == "wild"@ {
                        result == Ok::<Card, ProtocolError>(Card { color: None, rank: r })
                    } else {
                        match color_parsed(color) {
                            Some(c) => result == Ok::<Card, ProtocolError>(Card { color: Some(c), rank: r }),
                            None => result matches Err(e) && invalid_message(e, "invalid color "@ + color),
                        }
                    },
                }
            }
    }
}

fn decode_rank(text: &[char]) -> (rank: Option<Rank>)
    ensures
        rank == rank_parsed(text@),
{
    if chars_equal(text, "skip") {
        Some(Rank::Skip)
    } else if chars_equal(text, "reverse") {
        Some(Rank::Reverse)
    } else if chars_equal(text, "draw-two") {
        Some(Rank::DrawTwo)
    } else if chars_equal(text, "wild") {
        Some(Rank::Wild)
    } else if chars_equal(text, "wild-draw-four") {
        Some(Rank::WildDrawFour)
    } else {
        match parse_decimal(text) {
            Some(n) => if n <= 255 {
                Some(Rank::Number(n as u8))
            } else {
                None
            },
            None => None,
        }
    }
}

pub fn decode_card(value: &[char]) -> (result: Result<Card, ProtocolError>)
    ensures
        card_parsed(value@, result),
{
    let mut dash: usize = 0;
    while dash < value.len() && value[dash] != '-'
        invariant
            dash <= value@.len(),
            forall|k: int| 0 <= k < dash ==> value@[k] != '-',
        decreases value@.len() - dash,
    {
        dash += 1;
    }
    if dash == value.len() {
        return Err(invalid_with("invalid card ", value));
    }
    proof {
        assert(first_index_of(value@, '-', dash as int));
    }
    let color = slice_chars(value, 0, dash);
    let rank_chars = slice_chars(value, dash + 1, value.len());
    let rank = match decode_rank(rank_chars.as_slice()) {
        Some(rank) => rank,
        None => return Err(invalid_with("invalid rank ", rank_chars.as_slice())),
    };
    if chars_equal(color.as_slice(), "wild") {
        Ok(Card::wild(rank))
    } else {
        match Color::parse_chars(color.as_slice()) {
            Some(c) => Ok(Card::new(c, rank)),
            None => Err(invalid_with("invalid color ", color.as_slice())),
        }
    }
}

/// The characters of `text` from `from` up to `to`.
pub fn slice_chars(text: &[char], from: usize, to: usize) -> (part: Vec<char>)
    requires
        from <= to <= text@.len(),
    ensures
        part@ == text@.subrange(from as int, to as int),
{
    let mut part: Vec<char> = Vec::new();
    let mut i: usize = from;
    while i < to
        invariant
            from <= i <= to <= text@.len(),
            part@ == text@.subrange(from as int, i as int),
        decreases to - i,
    {
        part.push(text[i]);
        proof {
            assert(part@ =~= text@.subrange(from as int, i + 1));
        }
        i += 1;
    }
    part
}


// ===== commands =====

/// The text of a command: `play:player:card:color-or--`, `draw:player`,
/// `pass:player` or `color:player:color`, the player escaped.
pub open spec fn command_text(command: Command) -> Seq<char> {
    match command {
        Command::Play { player, card, chosen_color } => "play:"@ + escaped(player.0@) + ":"@ + card_text(card) + ":"@
            + match chosen_color {
            Some(c) => color_text(c),
            None => "-"@,
        },
        Command::Draw { player } => "draw:"@ + escaped(player.0@),
        Command::Pass { player } => "pass:"@ + escaped(player.0@),
        Command::ChooseColor { player, color } => "color:"@ + escaped(player.0@) + ":"@ + color_text(color),
    }
}

pub fn serialize_command(command: &Command) -> (text: String)
    ensures
        text@ == command_text(*command),
{
    let mut out = String::new();
    match command {
        Command::Play { player, card, chosen_color } => {
            push_str(&mut out, "play:");
            let id = chars_of(player.0.as_str());
            push_escaped(&mut out, id.as_slice());
            push_str(&mut out, ":");
            push_card(&mut out, *card);
            push_str(&mut out, ":");
            match chosen_color {
                Some(c) => push_str(&mut out, c.label()),
                None => push_str(&mut out, "-"),
            }
        },
        Command::Draw { player } => {
            push_str(&mut out, "draw:");
            let id = chars_of(player.0.as_str());
            push_escaped(&mut out, id.as_slice());
        },
        Command::Pass { player } => {
            push_str(&mut out, "pass:");
            let id = chars_of(player.0.as_str());
            push_escaped(&mut out, id.as_slice());
        },
        Command::ChooseColor { player, color } => {
            push_str(&mut out, "color:");
            let id = chars_of(player.0.as_str());
            push_escaped(&mut out, id.as_slice());
            push_str(&mut out, ":");
            push_str(&mut out, color.label());
        },
    }
    out
}

/// What parsing a command text gives; see `command_text` for the forms. The
/// chosen color of a play is looked for first; each missing field is reported
/// by name.
pub open spec fn command_parsed(text: Seq<char>, result: Result<Command, ProtocolError>) -> bool {
    let parts = split_on(text, ':');
    let kind = parts[0];
    if kind == "play"@ {
        if parts.len() < 4 {
            result == Err::<Command, ProtocolError>(ProtocolError::MissingField("chosen_color"))
        } else {
            let chosen = parts[3];
            exists|card_result: Result<Card, ProtocolError>|
                #[trigger] card_parsed(parts[2], card_result) && match card_result {
                    Err(e) => result == Err::<Command, ProtocolError>(e),
                    Ok(card) => if chosen == "-"@ {
                        result matches Ok(Command::Play { player, card: c, chosen_color: None }) && player.0@
                            == unescaped(parts[1]) && c == card
                    } else {
                        match color_parsed(chosen) {
                            None => result matches Err(e) && invalid_message(e, "invalid color "@ + chosen),
                            Some(color) => result matches Ok(Command::Play { player, card: c, chosen_color: Some(cc) })
                                && player.0@ == unescaped(parts[1]) && c == card && cc == color,
                        }
                    },
                }
        }
    } else if kind == "draw"@ || kind == "pass"@ {
        if parts.len() < 2 {
            result == Err::<Command, ProtocolError>(ProtocolError::MissingField("player"))
        } else if kind == "draw"@ {
            result matches Ok(Command::Draw { player }) && player.0@ == unescaped(parts[1])
        } else {
            result matches Ok(Command::Pass { player }) && player.0@ == unescaped(parts[1])
        }
    } else if kind == "color"@ {
        if parts.len() < 2 {
            result == Err::<Command, ProtocolError>(ProtocolError::MissingField("player"))
        } else if parts.len() < 3 {
            result == Err::<Command, ProtocolError>(ProtocolError::MissingField("color"))
        } else {
            match color_parsed(parts[2]) {
                None => result matches Err(e) && invalid_message(e, text),
                Some(color) => result matches Ok(Command::ChooseColor { player, color: c }) && player.0@ == unescaped(
                    parts[1],
                ) && c == color,
            }
        }
    } else {
        result matches Err(e) && invalid_message(e, text)
    }
}

fn player_from(part: &Vec<char>) -> (id: PlayerId)
    ensures
        id.0@ == unescaped(part@),
{
    let plain = unescape_chars(part.as_slice());
    PlayerId(string_of(plain.as_slice()))
}

fn parse_command_chars(value: &[char]) -> (result: Result<Command, ProtocolError>)
    ensures
        command_parsed(value@, result),
{
    let parts = split_chars(value, ':');
    proof {
        crate::text::lemma_split_nonempty(value@, ':');
    }
    let kind = &parts[0];
    if chars_equal(kind.as_slice(), "play") {
        if parts.len() < 4 {
            return Err(ProtocolError::MissingField("chosen_color"));
        }
        let chosen = &parts[3];
        let player = player_from(&parts[1]);
        let card = decode_card(parts[2].as_slice());
        proof {
            assert(card_parsed(parts@[2]@, card));
        }
        let card = match card {
            Ok(card) => card,
            Err(e) => return Err(e),
        };
        let chosen_color = if chars_equal(chosen.as_slice(), "-") {
            None
        } else {
            match Color::parse_chars(chosen.as_slice()) {
                Some(c) => Some(c),
                None => return Err(invalid_with("invalid color ", chosen.as_slice())),
            }
        };
        Ok(Command::Play { player, card, chosen_color })
    } else if chars_equal(kind.as_slice(), "draw") {
        if parts.len() < 2 {
            return Err(ProtocolError::MissingField("player"));
        }
        Ok(Command::Draw { player: player_from(&parts[1]) })
    } else if chars_equal(kind.as_slice(), "pass") {
        if parts.len() < 2 {
            return Err(ProtocolError::MissingField("player"));
        }
        Ok(Command::Pass { player: player_from(&parts[1]) })
    } else if chars_equal(kind.as_slice(), "color") {
        if parts.len() < 2 {
            return Err(ProtocolError::MissingField("player"));
        }
        let player = player_from(&parts[1]);
        if parts.len() < 3 {
            return Err(ProtocolError::MissingField("color"));
        }
        match Color::parse_chars(parts[2].as_slice()) {
            Some(color) => Ok(Command::ChooseColor { player, color }),
            None => Err(ProtocolError::InvalidMessage(string_of(value))),
        }
    } else {
        Err(ProtocolError::InvalidMessage(string_of(value)))
    }
}

/// Parses a command text; see `command_parsed`.
pub fn parse_command(value: &str) -> (result: Result<Command, ProtocolError>)
    ensures
        command_parsed(value@, result),
{
    let chars = chars_of(value);
    parse_command_chars(chars.as_slice())
}


// ===== members =====

/// A flag as `1` or `0`.
pub open spec fn flag_text(flag: bool) -> Seq<char> {
    if flag {
        "1"@
    } else {
        "0"@
    }
}

fn push_flag(out: &mut String, flag: bool)
    ensures
        final(out)@ == old(out)@ + flag_text(flag),
{
    if flag {
        push_str(out, "1");
    } else {
        push_str(out, "0");
    }
}

/// A member as `peer:player:name:ready:connected:role`, the texts escaped.
pub open spec fn member_text(member: MemberInfo) -> Seq<char> {
    escaped(member.peer_id.0@) + ":"@ + escaped(member.player_id.0@) + ":"@ + escaped(member.name@) + ":"@
        + flag_text(member.ready) + ":"@ + flag_text(member.connected) + ":"@ + role_text(member.role)
}

fn push_member(out: &mut String, member: &MemberInfo)
    ensures
        final(out)@ == old(out)@ + member_text(*member),
{
    let peer = chars_of(member.peer_id.0.as_str());
    push_escaped(out, peer.as_slice());
    push_str(out, ":");
    let player = chars_of(member.player_id.0.as_str());
    push_escaped(out, player.as_slice());
    push_str(out, ":");
    let name = chars_of(member.name.as_str());
    push_escaped(out, name.as_slice());
    push_str(out, ":");
    push_flag(out, member.ready);
    push_str(out, ":");
    push_flag(out, member.connected);
    push_str(out, ":");
    push_str(out, encode_role(member.role));
}

pub fn serialize_member(member: &MemberInfo) -> (text: String)
    ensures
        text@ == member_text(*member),
{
    let mut out = String::new();
    push_member(&mut out, member);
    out
}

pub open spec fn members_text(members: Seq<MemberInfo>) -> Seq<char> {
    joined(members.map_values(|m: MemberInfo| member_text(m)), ","@)
}

fn push_members(out: &mut String, members: &Vec<MemberInfo>)
    ensures
        final(out)@ == old(out)@ + members_text(members@),
{
    let mut i: usize = 0;
    while i < members.len()
        invariant
            i <= members@.len(),
            out@ == old(out)@ + members_text(members@.take(i as int)),
        decreases members@.len() - i,
    {
        let ghost before = out@;
        if i > 0 {
            push_str(out, ",");
        }
        push_member(out, &members[i]);
        proof {
            let pieces = members@.take(i + 1).map_values(|m: MemberInfo| member_text(m));
            assert(pieces.drop_last() =~= members@.take(i as int).map_values(|m: MemberInfo| member_text(m)));
            if i == 0 {
                assert(members_text(members@.take(0)) =~= Seq::<char>::empty());
                assert(pieces.len() == 1);
                assert(out@ =~= old(out)@ + members_text(members@.take(1)));
            } else {
                assert(out@ =~= old(out)@ + members_text(members@.take(i + 1)));
            }
        }
        i += 1;
    }
    proof {
        assert(members@.take(members@.len() as int) =~= members@);
    }
}

/// What parsing one member text gives: six `:`-separated fields, each missing
/// one reported by name, the role checked last.
pub open spec fn member_parsed(text: Seq<char>, result: Result<MemberInfo, ProtocolError>) -> bool {
    let parts = split_on(text, ':');
    if parts.len() < 2 {
        result == Err::<MemberInfo, ProtocolError>(ProtocolError::MissingField("player_id"))
    } else if parts.len() < 3 {
        result == Err::<MemberInfo, ProtocolError>(ProtocolError::MissingField("name"))
    } else if parts.len() < 4 {
        result == Err::<MemberInfo, ProtocolError>(ProtocolError::MissingField("ready"))
    } else if parts.len() < 5 {
        result == Err::<MemberInfo, ProtocolError>(ProtocolError::MissingField("connected"))
    } else if parts.len() < 6 {
        result == Err::<MemberInfo, ProtocolError>(ProtocolError::MissingField("role"))
    } else {
        exists|role: Result<HostRole, ProtocolError>|
            #[trigger] role_parsed(parts[5], role) && match role {
                Err(e) => result == Err::<MemberInfo, ProtocolError>(e),
                Ok(r) => result matches Ok(m) && m.peer_id.0@ == unescaped(parts[0]) && m.player_id.0@ == unescaped(
                    parts[1],
                ) && m.name@ == unescaped(parts[2]) && m.ready == (parts[3] == "1"@) && m.connected == (parts[4]
                    == "1"@) && m.role == r,
            }
    }
}

/// The member text parses.
pub open spec fn member_ok(text: Seq<char>) -> bool {
    exists|m: MemberInfo| #[trigger] member_parsed(text, Ok(m))
}

/// What parsing a member list gives: none for an empty text, otherwise the
/// `,`-separated members in order, or the first member's error.
pub open spec fn members_parsed(text: Seq<char>, result: Result<Vec<MemberInfo>, ProtocolError>) -> bool {
    let pieces = split_on(text, ',');
    if text.len() == 0 {
        result matches Ok(v) && v@.len() == 0
    } else {
        match result {
            Ok(v) => v@.len() == pieces.len() && forall|i: int|
                0 <= i < pieces.len() ==> member_parsed(pieces[i], Ok(#[trigger] v@[i])),
            Err(e) => exists|i: int|
                0 <= i < pieces.len() && #[trigger] member_parsed(pieces[i], Err(e)) && forall|j: int|
                    0 <= j < i ==> member_ok(#[trigger] pieces[j]),
        }
    }
}

fn text_is_one(part: &Vec<char>) -> (one: bool)
    ensures
        one == (part@ == "1"@),
{
    chars_equal(part.as_slice(), "1")
}

fn parse_member(value: &Vec<char>) -> (result: Result<MemberInfo, ProtocolError>)
    ensures
        member_parsed(value@, result),
{
    let parts = split_chars(value.as_slice(), ':');
    proof {
        crate::text::lemma_split_nonempty(value@, ':');
    }
    let peer_plain = unescape_chars(parts[0].as_slice());
    let peer_id = PeerId(string_of(peer_plain.as_slice()));
    if parts.len() < 2 {
        return Err(ProtocolError::MissingField("player_id"));
    }
    let player_id = player_from(&parts[1]);
    if parts.len() < 3 {
        return Err(ProtocolError::MissingField("name"));
    }
    let name_plain = unescape_chars(parts[2].as_slice());
    let name = string_of(name_plain.as_slice());
    if parts.len() < 4 {
        return Err(ProtocolError::MissingField("ready"));
    }
    let ready = text_is_one(&parts[3]);
    if parts.len() < 5 {
        return Err(ProtocolError::MissingField("connected"));
    }
    let connected = text_is_one(&parts[4]);
    if parts.len() < 6 {
        return Err(ProtocolError::MissingField("role"));
    }
    let role = decode_role(parts[5].as_slice());
    proof {
        assert(role_parsed(parts@[5]@, role));
    }
    let role = match role {
        Ok(role) => role,
        Err(e) => return Err(e),
    };
    Ok(MemberInfo { peer_id, player_id, name, ready, connected, role })
}

fn parse_members_chars(value: &[char]) -> (result: Result<Vec<MemberInfo>, ProtocolError>)
    ensures
        members_parsed(value@, result),
{
    if value.len() == 0 {
        return Ok(Vec::new());
    }
    let pieces = split_chars(value, ',');
    let mut members: Vec<MemberInfo> = Vec::new();
    let mut i: usize = 0;
    while i < pieces.len()
        invariant
            i <= pieces@.len(),
            value@.len() > 0,
            pieces@.len() == split_on(value@, ',').len(),
            forall|k: int| 0 <= k < pieces@.len() ==> (#[trigger] pieces@[k])@ == split_on(value@, ',')[k],
            members@.len() == i,
            forall|k: int| 0 <= k < i ==> member_parsed(split_on(value@, ',')[k], Ok(#[trigger] members@[k])),
        decreases pieces@.len() - i,
    {
        let parsed = parse_member(&pieces[i]);
        match parsed {
            Ok(member) => {
                members.push(member);
            },
            Err(e) => {
                proof {
                    assert forall|j: int| 0 <= j < i implies member_ok(#[trigger] split_on(value@, ',')[j]) by {
                        assert(member_parsed(split_on(value@, ',')[j], Ok(members@[j])));
                    }
                    assert(member_parsed(split_on(value@, ',')[i as int], Err(e)));
                }
                return Err(e);
            },
        }
        i += 1;
    }
    Ok(members)
}

/// Parses a member list; see `members_parsed`.
pub fn parse_members(value: &str) -> (result: Result<Vec<MemberInfo>, ProtocolError>)
    ensures
        members_parsed(value@, result),
{
    let chars = chars_of(value);
    parse_members_chars(chars.as_slice())
}


// ===== messages =====

/// The `Debug` text of an event kind.
pub uninterp spec fn event_kind_debug(kind: EventKind) -> Seq<char>;

/// The `Debug` text of a disconnect reason.
pub uninterp spec fn reason_debug(reason: DisconnectReason) -> Seq<char>;

/// `format!("{:?}", kind)`: the text the derived `Debug` writes for an event
/// kind. It is a function of the kind alone, named `event_kind_debug`; its
/// characters are not stated.
#[verifier::external_body]
fn debug_event_kind(kind: &EventKind) -> (text: String)
    ensures
        text@ == event_kind_debug(*kind),
{
    format!("{:?}", kind)
}

/// `format!("{:?}", reason)`: the text the derived `Debug` writes for a
/// disconnect reason, named `reason_debug`; its characters are not stated.
#[verifier::external_body]
fn debug_reason(reason: &DisconnectReason) -> (text: String)
    ensures
        text@ == reason_debug(*reason),
{
    format!("{:?}", reason)
}

/// The wire text of a message: a tag and `|`-separated fields.
pub open spec fn message_text(message: Message) -> Seq<char> {
    match message {
        Message::Ping { session_id, sequence } => "PING|"@ + session_id.0@ + "|"@ + decimal(sequence as nat),
        Message::Ack { session_id, sequence } => "ACK|"@ + session_id.0@ + "|"@ + decimal(sequence as nat),
        Message::JoinRequest { room_id, peer_id, name } => "JOIN|"@ + room_id.0@ + "|"@ + peer_id.0@ + "|"@
            + escaped(name@),
        Message::JoinResponse { room_id, peer_id, decision } => match decision {
            JoinDecision::Accepted { session_id, role } => "JOIN_OK|"@ + room_id.0@ + "|"@ + peer_id.0@ + "|"@
                + session_id.0@ + "|"@ + role_text(role),
            JoinDecision::Rejected { reason } => "JOIN_NO|"@ + room_id.0@ + "|"@ + peer_id.0@ + "|"@ + escaped(
                reason@,
            ),
        },
        Message::Membership { room_id, members } => "MEMBERS|"@ + room_id.0@ + "|"@ + members_text(members@),
        Message::Ready { room_id, peer_id, ready } => "READY|"@ + room_id.0@ + "|"@ + peer_id.0@ + "|"@ + flag_text(
            ready,
        ),
        Message::Command { room_id, sequence, command } => "COMMAND|"@ + room_id.0@ + "|"@ + decimal(
            sequence as nat,
        ) + "|"@ + command_text(command),
        Message::Event { room_id, event } => "EVENT|"@ + room_id.0@ + "|"@ + decimal(event.sequence as nat) + "|"@
            + event_kind_debug(event.kind),
        Message::Disconnect { room_id, peer_id, reason } => "DISCONNECT|"@ + room_id.0@ + "|"@ + peer_id.0@ + "|"@
            + escaped(reason_debug(reason)),
    }
}

pub fn serialize_message(message: &Message) -> (text: String)
    ensures
        text@ == message_text(*message),
{
    let mut out = String::new();
    match message {
        Message::Ping { session_id, sequence } => {
            push_str(&mut out, "PING|");
            push_str(&mut out, session_id.0.as_str());
            push_str(&mut out, "|");
            push_decimal(&mut out, *sequence);
        },
        Message::Ack { session_id, sequence } => {
            push_str(&mut out, "ACK|");
            push_str(&mut out, session_id.0.as_str());
            push_str(&mut out, "|");
            push_decimal(&mut out, *sequence);
        },
        Message::JoinRequest { room_id, peer_id, name } => {
            push_str(&mut out, "JOIN|");
            push_str(&mut out, room_id.0.as_str());
            push_str(&mut out, "|");
            push_str(&mut out, peer_id.0.as_str());
            push_str(&mut out, "|");
            let chars = chars_of(name.as_str());
            push_escaped(&mut out, chars.as_slice());
        },
        Message::JoinResponse { room_id, peer_id, decision } => match decision {
            JoinDecision::Accepted { session_id, role } => {
                push_str(&mut out, "JOIN_OK|");
                push_str(&mut out, room_id.0.as_str());
                push_str(&mut out, "|");
                push_str(&mut out, peer_id.0.as_str());
                push_str(&mut out, "|");
                push_str(&mut out, session_id.0.as_str());
                push_str(&mut out, "|");
                push_str(&mut out, encode_role(*role));
            },
            JoinDecision::Rejected { reason } => {
                push_str(&mut out, "JOIN_NO|");
                push_str(&mut out, room_id.0.as_str());
                push_str(&mut out, "|");
                push_str(&mut out, peer_id.0.as_str());
                push_str(&mut out, "|");
                let chars = chars_of(reason.as_str());
                push_escaped(&mut out, chars.as_slice());
            },
        },
        Message::Membership { room_id, members } => {
            push_str(&mut out, "MEMBERS|");
            push_str(&mut out, room_id.0.as_str());
            push_str(&mut out, "|");
            push_members(&mut out, members);
        },
        Message::Ready { room_id, peer_id, ready } => {
            push_str(&mut out, "READY|");
            push_str(&mut out, room_id.0.as_str());
            push_str(&mut out, "|");
            push_str(&mut out, peer_id.0.as_str());
            push_str(&mut out, "|");
            push_flag(&mut out, *ready);
        },
        Message::Command { room_id, sequence, command } => {
            push_str(&mut out, "COMMAND|");
            push_str(&mut out, room_id.0.as_str());
            push_str(&mut out, "|");
            push_decimal(&mut out, *sequence);
            push_str(&mut out, "|");
            let text = serialize_command(command);
            push_str(&mut out, text.as_str());
        },
        Message::Event { room_id, event } => {
            push_str(&mut out, "EVENT|");
            push_str(&mut out, room_id.0.as_str());
            push_str(&mut out, "|");
            push_decimal(&mut out, event.sequence);
            push_str(&mut out, "|");
            let text = debug_event_kind(&event.kind);
            push_str(&mut out, text.as_str());
        },
        Message::Disconnect { room_id, peer_id, reason } => {
            push_str(&mut out, "DISCONNECT|");
            push_str(&mut out, room_id.0.as_str());
            push_str(&mut out, "|");
            push_str(&mut out, peer_id.0.as_str());
            push_str(&mut out, "|");
            let text = debug_reason(reason);
            let chars = chars_of(text.as_str());
            push_escaped(&mut out, chars.as_slice());
        },
    }
    out
}

/// The sequence field of a message: missing, not a number (reported with its
/// text), or its value.
pub open spec fn sequence_checked(parts: Seq<Seq<char>>, result: Result<u64, ProtocolError>) -> bool {
    if parts.len() < 3 {
        result == Err::<u64, ProtocolError>(ProtocolError::MissingField("sequence"))
    } else {
        match parsed_u64(parts[2]) {
            Some(n) => result == Ok::<u64, ProtocolError>(n),
            None => result matches Err(e) && invalid_message(e, parts[2]),
        }
    }
}

/// What parsing a message text gives: the tag picks the kind, each missing field
/// is reported by name in field order, and the fields are read as
/// `message_text` writes them. An event's kind is not read back (it comes out
/// as `GameStarted`), and a disconnect reason comes back as
/// `ProtocolError` holding the unescaped text.
pub open spec fn message_parsed(text: Seq<char>, result: Result<Message, ProtocolError>) -> bool {
    let parts = split_on(text, '|');
    let kind = parts[0];
    let missing = |f: &'static str| result == Err::<Message, ProtocolError>(ProtocolError::MissingField(f));
    if kind == "PING"@ || kind == "ACK"@ {
        if parts.len() < 2 {
            missing("session_id")
        } else {
            exists|seq: Result<u64, ProtocolError>|
                #[trigger] sequence_checked(parts, seq) && match seq {
                    Err(e) => result == Err::<Message, ProtocolError>(e),
                    Ok(n) => if kind == "PING"@ {
                        result matches Ok(Message::Ping { session_id, sequence }) && session_id.0@ == parts[1]
                            && sequence == n
                    } else {
                        result matches Ok(Message::Ack { session_id, sequence }) && session_id.0@ == parts[1]
                            && sequence == n
                    },
                }
        }
    } else if kind == "JOIN"@ {
        if parts.len() < 2 {
            missing("room_id")
        } else if parts.len() < 3 {
            missing("peer_id")
        } else if parts.len() < 4 {
            missing("name")
        } else {
            result matches Ok(Message::JoinRequest { room_id, peer_id, name }) && room_id.0@ == parts[1]
                && peer_id.0@ == parts[2] && name@ == unescaped(parts[3])
        }
    } else if kind == "JOIN_OK"@ {
        if parts.len() < 2 {
            missing("room_id")
        } else if parts.len() < 3 {
            missing("peer_id")
        } else if parts.len() < 4 {
            missing("session_id")
        } else if parts.len() < 5 {
            missing("role")
        } else {
            exists|role: Result<HostRole, ProtocolError>|
                #[trigger] role_parsed(parts[4], role) && match role {
                    Err(e) => result == Err::<Message, ProtocolError>(e),
                    Ok(r) => result matches Ok(
                        Message::JoinResponse { room_id, peer_id, decision: JoinDecision::Accepted { session_id, role } },
                    ) && room_id.0@ == parts[1] && peer_id.0@ == parts[2] && session_id.0@ == parts[3] && role == r,
                }
        }
    } else if kind == "JOIN_NO"@ {
        if parts.len() < 2 {
            missing("room_id")
        } else if parts.len() < 3 {
            missing("peer_id")
        } else if parts.len() < 4 {
            missing("reason")
        } else {
            result matches Ok(Message::JoinResponse { room_id, peer_id, decision: JoinDecision::Rejected { reason } })
                && room_id.0@ == parts[1] && peer_id.0@ == parts[2] && reason@ == unescaped(parts[3])
        }
    } else if kind == "MEMBERS"@ {
        if parts.len() < 2 {
            missing("room_id")
        } else if parts.len() < 3 {
            missing("members")
        } else {
            exists|members: Result<Vec<MemberInfo>, ProtocolError>|
                #[trigger] members_parsed(parts[2], members) && match members {
                    Err(e) => result == Err::<Message, ProtocolError>(e),
                    Ok(v) => result matches Ok(Message::Membership { room_id, members: m }) && room_id.0@ == parts[1]
                        && m@ == v@,
                }
        }
    } else if kind == "READY"@ {
        if parts.len() < 2 {
            missing("room_id")
        } else if parts.len() < 3 {
            missing("peer_id")
        } else if parts.len() < 4 {
            missing("ready")
        } else {
            result matches Ok(Message::Ready { room_id, peer_id, ready }) && room_id.0@ == parts[1] && peer_id.0@
                == parts[2] && ready == (parts[3] == "1"@)
        }
    } else if kind == "COMMAND"@ {
        if parts.len() < 2 {
            missing("room_id")
        } else {
            exists|seq: Result<u64, ProtocolError>|
                #[trigger] sequence_checked(parts, seq) && match seq {
                    Err(e) => result == Err::<Message, ProtocolError>(e),
                    Ok(n) => if parts.len() < 4 {
                        missing("command")
                    } else {
                        exists|command: Result<Command, ProtocolError>|
                            #[trigger] command_parsed(parts[3], command) && match command {
                                Err(e) => result == Err::<Message, ProtocolError>(e),
                                Ok(c) => result matches Ok(Message::Command { room_id, sequence, command: cc })
                                    && room_id.0@ == parts[1] && sequence == n && cc == c,
                            }
                    },
                }
        }
    } else if kind == "EVENT"@ {
        if parts.len() < 2 {
            missing("room_id")
        } else {
            exists|seq: Result<u64, ProtocolError>|
                #[trigger] sequence_checked(parts, seq) && match seq {
                    Err(e) => result == Err::<Message, ProtocolError>(e),
                    Ok(n) => result matches Ok(Message::Event { room_id, event }) && room_id.0@ == parts[1]
                        && event == (GameEvent { sequence: n, kind: EventKind::GameStarted }),
                }
        }
    } else if kind == "DISCONNECT"@ {
        if parts.len() < 2 {
            missing("room_id")
        } else if parts.len() < 3 {
            missing("peer_id")
        } else if parts.len() < 4 {
            missing("reason")
        } else {
            result matches Ok(Message::Disconnect { room_id, peer_id, reason: DisconnectReason::ProtocolError(r) })
                && room_id.0@ == parts[1] && peer_id.0@ == parts[2] && r@ == unescaped(parts[3])
        }
    } else {
        result matches Err(ProtocolError::UnknownMessageType(t)) && t@ == kind
    }
}

fn sequence_of(parts: &Vec<Vec<char>>) -> (result: Result<u64, ProtocolError>)
    requires
        parts@.len() >= 1,
    ensures
        sequence_checked(parts@.map_values(|p: Vec<char>| p@), result),
{
    if parts.len() < 3 {
        return Err(ProtocolError::MissingField("sequence"));
    }
    match parse_decimal(parts[2].as_slice()) {
        Some(n) => Ok(n),
        None => Err(ProtocolError::InvalidMessage(string_of(parts[2].as_slice()))),
    }
}

fn text_of(part: &Vec<char>) -> (text: String)
    ensures
        text@ == part@,
{
    string_of(part.as_slice())
}

fn deserialize_chars(value: &[char]) -> (result: Result<Message, ProtocolError>)
    ensures
        message_parsed(value@, result),
{
    let parts = split_chars(value, '|');
    proof {
        crate::text::lemma_split_nonempty(value@, '|');
        assert(parts@.map_values(|p: Vec<char>| p@) =~= split_on(value@, '|'));
    }
    let ghost pieces = split_on(value@, '|');
    let kind = &parts[0];
    if chars_equal(kind.as_slice(), "PING") || chars_equal(kind.as_slice(), "ACK") {
        if parts.len() < 2 {
            return Err(ProtocolError::MissingField("session_id"));
        }
        let session_id = SessionId(text_of(&parts[1]));
        let seq = sequence_of(&parts);
        proof {
            assert(sequence_checked(pieces, seq));
        }
        let sequence = match seq {
            Ok(n) => n,
            Err(e) => return Err(e),
        };
        if chars_equal(kind.as_slice(), "PING") {
            Ok(Message::Ping { session_id, sequence })
        } else {
            Ok(Message::Ack { session_id, sequence })
        }
    } else if chars_equal(kind.as_slice(), "JOIN") {
        if parts.len() < 2 {
            return Err(ProtocolError::MissingField("room_id"));
        }
        if parts.len() < 3 {
            return Err(ProtocolError::MissingField("peer_id"));
        }
        if parts.len() < 4 {
            return Err(ProtocolError::MissingField("name"));
        }
        let name = unescape_chars(parts[3].as_slice());
        Ok(Message::JoinRequest {
            room_id: RoomId(text_of(&parts[1])),
            peer_id: PeerId(text_of(&parts[2])),
            name: string_of(name.as_slice()),
        })
    } else if chars_equal(kind.as_slice(), "JOIN_OK") {
        if parts.len() < 2 {
            return Err(ProtocolError::MissingField("room_id"));
        }
        if parts.len() < 3 {
            return Err(ProtocolError::MissingField("peer_id"));
        }
        if parts.len() < 4 {
            return Err(ProtocolError::MissingField("session_id"));
        }
        if parts.len() < 5 {
            return Err(ProtocolError::MissingField("role"));
        }
        let role = decode_role(parts[4].as_slice());
        proof {
            assert(role_parsed(pieces[4], role));
        }
        let role = match role {
            Ok(r) => r,
            Err(e) => return Err(e),
        };
        Ok(Message::JoinResponse {
            room_id: RoomId(text_of(&parts[1])),
            peer_id: PeerId(text_of(&parts[2])),
            decision: JoinDecision::Accepted { session_id: SessionId(text_of(&parts[3])), role },
        })
    } else if chars_equal(kind.as_slice(), "JOIN_NO") {
        if parts.len() < 2 {
            return Err(ProtocolError::MissingField("room_id"));
        }
        if parts.len() < 3 {
            return Err(ProtocolError::MissingField("peer_id"));
        }
        if parts.len() < 4 {
            return Err(ProtocolError::MissingField("reason"));
        }
        let reason = unescape_chars(parts[3].as_slice());
        Ok(Message::JoinResponse {
            room_id: RoomId(text_of(&parts[1])),
            peer_id: PeerId(text_of(&parts[2])),
            decision: JoinDecision::Rejected { reason: string_of(reason.as_slice()) },
        })
    } else if chars_equal(kind.as_slice(), "MEMBERS") {
        if parts.len() < 2 {
            return Err(ProtocolError::MissingField("room_id"));
        }
        if parts.len() < 3 {
            return Err(ProtocolError::MissingField("members"));
        }
        let members = parse_members_chars(parts[2].as_slice());
        proof {
            assert(members_parsed(pieces[2], members));
        }
        let members = match members {
            Ok(m) => m,
            Err(e) => return Err(e),
        };
        Ok(Message::Membership { room_id: RoomId(text_of(&parts[1])), members })
    } else if chars_equal(kind.as_slice(), "READY") {
        if parts.len() < 2 {
            return Err(ProtocolError::MissingField("room_id"));
        }
        if parts.len() < 3 {
            return Err(ProtocolError::MissingField("peer_id"));
        }
        if parts.len() < 4 {
            return Err(ProtocolError::MissingField("ready"));
        }
        Ok(Message::Ready {
            room_id: RoomId(text_of(&parts[1])),
            peer_id: PeerId(text_of(&parts[2])),
            ready: text_is_one(&parts[3]),
        })
    } else if chars_equal(kind.as_slice(), "COMMAND") {
        if parts.len() < 2 {
            return Err(ProtocolError::MissingField("room_id"));
        }
        let seq = sequence_of(&parts);
        proof {
            assert(sequence_checked(pieces, seq));
        }
        let sequence = match seq {
            Ok(n) => n,
            Err(e) => return Err(e),
        };
        if parts.len() < 4 {
            return Err(ProtocolError::MissingField("command"));
        }
        let command = parse_command_chars(parts[3].as_slice());
        proof {
            assert(command_parsed(pieces[3], command));
        }
        let command = match command {
            Ok(c) => c,
            Err(e) => return Err(e),
        };
        Ok(Message::Command { room_id: RoomId(text_of(&parts[1])), sequence, command })
    } else if chars_equal(kind.as_slice(), "EVENT") {
        if parts.len() < 2 {
            return Err(ProtocolError::MissingField("room_id"));
        }
        let seq = sequence_of(&parts);
        proof {
            assert(sequence_checked(pieces, seq));
        }
        let sequence = match seq {
            Ok(n) => n,
            Err(e) => return Err(e),
        };
        Ok(Message::Event {
            room_id: RoomId(text_of(&parts[1])),
            event: GameEvent { sequence, kind: EventKind::GameStarted },
        })
    } else if chars_equal(kind.as_slice(), "DISCONNECT") {
        if parts.len() < 2 {
            return Err(ProtocolError::MissingField("room_id"));
        }
        if parts.len() < 3 {
            return Err(ProtocolError::MissingField("peer_id"));
        }
        if parts.len() < 4 {
            return Err(ProtocolError::MissingField("reason"));
        }
        let reason = unescape_chars(parts[3].as_slice());
        Ok(Message::Disconnect {
            room_id: RoomId(text_of(&parts[1])),
            peer_id: PeerId(text_of(&parts[2])),
            reason: DisconnectReason::ProtocolError(string_of(reason.as_slice())),
        })
    } else {
        Err(ProtocolError::UnknownMessageType(text_of(kind)))
    }
}

/// Parses a message text; see `message_parsed`.
pub fn deserialize_message(value: &str) -> (result: Result<Message, ProtocolError>)
    ensures
        message_parsed(value@, result),
{
    let chars = chars_of(value);
    deserialize_chars(chars.as_slice())
}


// ===== share strings =====

/// The socket address `text` names, as `SocketAddr::from_str` reads it,
/// printed back in its `Display` form; `None` when `text` is no address.
pub uninterp spec fn socket_address(text: Seq<char>) -> Option<Seq<char>>;

/// `SocketAddr::from_str` (core `net`) on `text`, and on success `to_string` of
/// the address. Which texts are addresses and how an address prints is the
/// standard library's and is only named here (`socket_address`), not spelled out.
#[verifier::external_body]
pub(crate) fn parse_socket_address(text: &str) -> (address: Option<String>)
    ensures
        match address {
            Some(a) => socket_address(text@) == Some(a@),
            None => socket_address(text@) is None,
        },
{
    match text.parse::<core::net::SocketAddr>() {
        Ok(parsed) => Some(parsed.to_string()),
        Err(_) => None,
    }
}

/// The invitation to a room. The endpoint is a socket address kept in its
/// printed form (`address:port`).
#[derive(Clone, Debug, PartialEq, Eq)]
pub struct ShareInfo {
    pub version: String,
    pub transport: String,
    pub endpoint: String,
    pub room_id: RoomId,
    pub host_id: PeerId,
    pub forwarded: bool,
}

/// A share string: `uno://version/transport/endpoint/room/ROOM/host/HOST`, the
/// room and host escaped, with `?forwarded=1` for a forwarded endpoint.
pub open spec fn share_text(share: ShareInfo) -> Seq<char> {
    "uno://"@ + share.version@ + "/"@ + share.transport@ + "/"@ + share.endpoint@ + "/room/"@ + escaped(
        share.room_id.0@,
    ) + "/host/"@ + escaped(share.host_id.0@) + if share.forwarded {
        "?forwarded=1"@
    } else {
        Seq::empty()
    }
}

/// A share text after its prefix, cut at its first `?` into path and query
/// (the query empty where there is no `?`).
pub open spec fn path_and_query(rest: Seq<char>) -> (Seq<char>, Seq<char>) {
    if forall|i: int| 0 <= i < rest.len() ==> rest[i] != '?' {
        (rest, Seq::<char>::empty())
    } else {
        let q = choose|i: int| first_index_of(rest, '?', i);
        (rest.take(q), rest.skip(q + 1))
    }
}

/// What decoding a share text gives: the `uno://` prefix, a path of seven
/// `/`-separated parts with `room` and `host` in place and this protocol's
/// version and transport, an endpoint that is a socket address (kept in its
/// printed form), the room and host unescaped, and `forwarded` when a
/// `&`-separated query part reads `forwarded=1`.
pub open spec fn share_parsed(text: Seq<char>, result: Result<ShareInfo, ProtocolError>) -> bool {
    let prefix = "uno://"@;
    if !(text.len() >= prefix.len() && text.take(prefix.len() as int) == prefix) {
        result matches Err(ProtocolError::InvalidShare(m)) && m@ == "missing uno:// prefix"@
    } else {
        let rest = text.skip(prefix.len() as int);
        let path_and_query = path_and_query(rest);
        let parts = split_on(path_and_query.0, '/');
        let query = split_on(path_and_query.1, '&');
        if parts.len() != 7 || parts[3] != "room"@ || parts[5] != "host"@ || parts[0] != PROTOCOL_VERSION@
            || parts[1] != DEFAULT_TRANSPORT@ {
            result matches Err(ProtocolError::InvalidShare(m)) && m@ == text
        } else {
            match socket_address(parts[2]) {
                None => result matches Err(ProtocolError::InvalidEndpoint(m)) && m@ == parts[2],
                Some(address) => result matches Ok(share) && share.version@ == parts[0] && share.transport@ == parts[1]
                    && share.endpoint@ == address && share.room_id.0@ == unescaped(parts[4]) && share.host_id.0@
                    == unescaped(parts[6]) && share.forwarded == (exists|k: int|
                    0 <= k < query.len() && #[trigger] query[k] == "forwarded=1"@),
            }
        }
    }
}

impl ShareInfo {
    /// An invitation for this protocol's version and transport, not forwarded.
    pub fn new(endpoint: String, room_id: RoomId, host_id: PeerId) -> (share: ShareInfo)
        ensures
            share.version@ == PROTOCOL_VERSION@,
            share.transport@ == DEFAULT_TRANSPORT@,
            share.endpoint == endpoint,
            share.room_id == room_id,
            share.host_id == host_id,
            !share.forwarded,
    {
        ShareInfo {
            version: PROTOCOL_VERSION.to_owned(),
            transport: DEFAULT_TRANSPORT.to_owned(),
            endpoint,
            room_id,
            host_id,
            forwarded: false,
        }
    }

    /// The same invitation, marked forwarded or not.
    pub fn with_forwarded(self, forwarded: bool) -> (share: ShareInfo)
        ensures
            share == (ShareInfo { forwarded, ..self }),
    {
        let mut share = self;
        share.forwarded = forwarded;
        share
    }

    /// The share string; see `share_text`.
    pub fn encode(&self) -> (text: String)
        ensures
            text@ == share_text(*self),
    {
        let mut out = String::new();
        push_str(&mut out, "uno://");
        push_str(&mut out, self.version.as_str());
        push_str(&mut out, "/");
        push_str(&mut out, self.transport.as_str());
        push_str(&mut out, "/");
        push_str(&mut out, self.endpoint.as_str());
        push_str(&mut out, "/room/");
        let room = chars_of(self.room_id.0.as_str());
        push_escaped(&mut out, room.as_slice());
        push_str(&mut out, "/host/");
        let host = chars_of(self.host_id.0.as_str());
        push_escaped(&mut out, host.as_slice());
        if self.forwarded {
            push_str(&mut out, "?forwarded=1");
        }
        proof {
            if !self.forwarded {
                assert(out@ =~= share_text(*self));
            }
        }
        out
    }

    /// Reads a share string; see `share_parsed`.
    pub fn decode(value: &str) -> (result: Result<ShareInfo, ProtocolError>)
        ensures
            share_parsed(value@, result),
    {
        let text = chars_of(value);
        let prefix = chars_of("uno://");
        let n = prefix.len();
        let mut has_prefix = text.len() >= n;
        let mut k: usize = 0;
        while has_prefix && k < n
            invariant
                k <= n,
                n == prefix@.len(),
                has_prefix ==> text@.len() >= n,
                has_prefix ==> forall|m: int| 0 <= m < k ==> text@[m] == prefix@[m],
                !has_prefix ==> !(text@.len() >= n && text@.take(n as int) == prefix@),
            decreases n - k,
        {
            if text[k] != prefix[k] {
                has_prefix = false;
                proof {
                    assert(text@.take(n as int)[k as int] != prefix@[k as int]);
                }
            }
            k += 1;
        }
        if !has_prefix {
            return Err(ProtocolError::InvalidShare("missing uno:// prefix".to_owned()));
        }
        proof {
            assert(text@.take(n as int) =~= prefix@);
        }
        let rest = slice_chars(text.as_slice(), n, text.len());
        let ghost rest_view = rest@;
        proof {
            assert(rest_view =~= value@.skip(n as int));
        }
        let mut q: usize = 0;
        while q < rest.len() && rest[q] != '?'
            invariant
                q <= rest@.len(),
                forall|m: int| 0 <= m < q ==> rest@[m] != '?',
            decreases rest@.len() - q,
        {
            q += 1;
        }
        let (path, query) = if q == rest.len() {
            (rest, Vec::new())
        } else {
            proof {
                assert(first_index_of(rest@, '?', q as int));
                let c = choose|i: int| first_index_of(rest@, '?', i);
                if c < q {
                    assert(rest@[c] != '?');
                }
                if q < c {
                    assert(rest@[q as int] != '?');
                }
            }
            (slice_chars(rest.as_slice(), 0, q), slice_chars(rest.as_slice(), q + 1, rest.len()))
        };
        proof {
            if q == rest_view.len() {
                assert(query@ =~= Seq::<char>::empty());
                assert(forall|i: int| 0 <= i < rest_view.len() ==> rest_view[i] != '?');
            } else {
                assert(!(forall|i: int| 0 <= i < rest_view.len() ==> rest_view[i] != '?')) by {
                    assert(rest_view[q as int] == '?');
                }
                let c = choose|i: int| first_index_of(rest_view, '?', i);
                assert(c == q);
                assert(path@ == rest_view.take(c));
                assert(query@ == rest_view.skip(c + 1));
            }
            assert(path_and_query(rest_view) == (path@, query@));
        }
        let parts = split_chars(path.as_slice(), '/');
        if parts.len() != 7 || !chars_equal(parts[3].as_slice(), "room") || !chars_equal(parts[5].as_slice(), "host")
            || !chars_equal(parts[0].as_slice(), PROTOCOL_VERSION) || !chars_equal(
            parts[1].as_slice(),
            DEFAULT_TRANSPORT,
        ) {
            return Err(ProtocolError::InvalidShare(value.to_owned()));
        }
        let endpoint_text = string_of(parts[2].as_slice());
        let endpoint = match parse_socket_address(endpoint_text.as_str()) {
            Some(address) => address,
            None => return Err(ProtocolError::InvalidEndpoint(endpoint_text)),
        };
        let query_parts = split_chars(query.as_slice(), '&');
        let mut forwarded = false;
        let mut i: usize = 0;
        while i < query_parts.len()
            invariant
                i <= query_parts@.len(),
                query_parts@.len() == split_on(query@, '&').len(),
                forall|m: int| 0 <= m < query_parts@.len() ==> (#[trigger] query_parts@[m])@ == split_on(query@, '&')[m],
                forwarded == exists|m: int| 0 <= m < i && #[trigger] split_on(query@, '&')[m] == "forwarded=1"@,
            decreases query_parts@.len() - i,
        {
            if chars_equal(query_parts[i].as_slice(), "forwarded=1") {
                forwarded = true;
            }
            i += 1;
        }
        let room = unescape_chars(parts[4].as_slice());
        let host = unescape_chars(parts[6].as_slice());
        let share = ShareInfo {
            version: string_of(parts[0].as_slice()),
            transport: string_of(parts[1].as_slice()),
            endpoint,
            room_id: RoomId(string_of(room.as_slice())),
            host_id: PeerId(string_of(host.as_slice())),
            forwarded,
        };
        proof {
            let pre = "uno://"@;
            assert(value@.len() >= pre.len() && value@.take(pre.len() as int) == pre);
            assert(value@.skip(pre.len() as int) == rest_view);
            assert(path_and_query(value@.skip(pre.len() as int)).0 == path@);
            assert(path_and_query(value@.skip(pre.len() as int)).1 == query@);
            let ps = split_on(path@, '/');
            assert(ps.len() == 7);
            assert(share.version@ == ps[0]);
            assert(share.endpoint@ == socket_address(ps[2]).unwrap());
            assert(share.room_id.0@ == unescaped(ps[4]));
            assert(share.host_id.0@ == unescaped(ps[6]));
            assert(share.forwarded == (exists|k: int| 0 <= k < split_on(query@, '&').len() && #[trigger] split_on(query@, '&')[k] == "forwarded=1"@));
        }
        Ok(share)
    }
}


// ===== copies =====

fn copy_text(text: &String) -> (copy: String)
    ensures
        copy == *text,
{
    text.clone()
}

fn copy_session(id: &SessionId) -> (copy: SessionId)
    ensures
        copy == *id,
{
    SessionId(copy_text(&id.0))
}

fn copy_room(id: &RoomId) -> (copy: RoomId)
    ensures
        copy == *id,
{
    RoomId(copy_text(&id.0))
}

fn copy_peer(id: &PeerId) -> (copy: PeerId)
    ensures
        copy == *id,
{
    PeerId(copy_text(&id.0))
}

/// Two messages that agree in every field, a member list by its elements.
pub open spec fn same_message(a: Message, b: Message) -> bool {
    match (a, b) {
        (Message::Membership { room_id: r1, members: m1 }, Message::Membership { room_id: r2, members: m2 }) => r1
            == r2 && m1@ == m2@,
        (Message::Membership { .. }, _) => false,
        _ => a == b,
    }
}

/// A copy of a message, the same as it.
pub fn copy_message(message: &Message) -> (copy: Message)
    ensures
        same_message(copy, *message),
{
    match message {
        Message::Ping { session_id, sequence } => Message::Ping {
            session_id: copy_session(session_id),
            sequence: *sequence,
        },
        Message::Ack { session_id, sequence } => Message::Ack {
            session_id: copy_session(session_id),
            sequence: *sequence,
        },
        Message::JoinRequest { room_id, peer_id, name } => Message::JoinRequest {
            room_id: copy_room(room_id),
            peer_id: copy_peer(peer_id),
            name: copy_text(name),
        },
        Message::JoinResponse { room_id, peer_id, decision } => Message::JoinResponse {
            room_id: copy_room(room_id),
            peer_id: copy_peer(peer_id),
            decision: match decision {
                JoinDecision::Accepted { session_id, role } => JoinDecision::Accepted {
                    session_id: copy_session(session_id),
                    role: *role,
                },
                JoinDecision::Rejected { reason } => JoinDecision::Rejected { reason: copy_text(reason) },
            },
        },
        Message::Membership { room_id, members } => Message::Membership {
            room_id: copy_room(room_id),
            members: copy_members(members),
        },
        Message::Ready { room_id, peer_id, ready } => Message::Ready {
            room_id: copy_room(room_id),
            peer_id: copy_peer(peer_id),
            ready: *ready,
        },
        Message::Command { room_id, sequence, command } => Message::Command {
            room_id: copy_room(room_id),
            sequence: *sequence,
            command: copy_command(command),
        },
        Message::Event { room_id, event } => Message::Event {
            room_id: copy_room(room_id),
            event: copy_event(event),
        },
        Message::Disconnect { room_id, peer_id, reason } => Message::Disconnect {
            room_id: copy_room(room_id),
            peer_id: copy_peer(peer_id),
            reason: match reason {
                DisconnectReason::Left => DisconnectReason::Left,
                DisconnectReason::Timeout => DisconnectReason::Timeout,
                DisconnectReason::HostUnavailable => DisconnectReason::HostUnavailable,
                DisconnectReason::ProtocolError(text) => DisconnectReason::ProtocolError(copy_text(text)),
            },
        },
    }
}

/// A copy of a command, equal to it.
pub fn copy_command(command: &Command) -> (copy: Command)
    ensures
        copy == *command,
{
    match command {
        Command::Play { player, card, chosen_color } => Command::Play {
            player: copy_id(player),
            card: *card,
            chosen_color: *chosen_color,
        },
        Command::Draw { player } => Command::Draw { player: copy_id(player) },
        Command::Pass { player } => Command::Pass { player: copy_id(player) },
        Command::ChooseColor { player, color } => Command::ChooseColor { player: copy_id(player), color: *color },
    }
}

/// A copy of a member's public record, equal to it.
pub fn copy_member_info(info: &MemberInfo) -> (copy: MemberInfo)
    ensures
        copy == *info,
{
    MemberInfo {
        peer_id: copy_peer(&info.peer_id),
        player_id: copy_id(&info.player_id),
        name: copy_text(&info.name),
        ready: info.ready,
        connected: info.connected,
        role: info.role,
    }
}

/// A copy of a member list, equal to it.
pub fn copy_members(members: &Vec<MemberInfo>) -> (copy: Vec<MemberInfo>)
    ensures
        copy@ == members@,
{
    let mut copy: Vec<MemberInfo> = Vec::new();
    let mut i: usize = 0;
    while i < members.len()
        invariant
            i <= members@.len(),
            copy@ == members@.take(i as int),
        decreases members@.len() - i,
    {
        copy.push(copy_member_info(&members[i]));
        i += 1;
        proof {
            assert(copy@ =~= members@.take(i as int));
        }
    }
    proof {
        assert(members@.take(i as int) =~= members@);
    }
    copy
}

} // verus!
