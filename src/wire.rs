//! Messages of the handshake and their line-oriented text form.

use vstd::prelude::*;
use crate::addr::{
    find_byte, ipv4_text, is_digit, lemma_ipv4_text_chars, lemma_ipv4_text_injective, parse_ipv4, write_ipv4, Ipv4,
};

verus! {

/// A message that a client sends. An empty `hw` means no hardware address.
#[derive(Debug)]
pub enum Message {
    Discover { hw: Vec<u8> },
    Request { addr: Ipv4, hw: Vec<u8> },
    Release,
}

/// Why a request was turned down.
#[derive(Clone, Copy, Debug, PartialEq, Eq, Structural)]
pub enum DeclineReason {
    /// The address is bound to another client.
    AddressInUse,
    /// The address is not one that the pool manages.
    UnknownAddress,
}

/// A message that the server sends.
#[derive(Debug)]
pub enum Reply {
    Offer { addr: Ipv4, hw: Vec<u8> },
    Ack { addr: Ipv4, hw: Vec<u8> },
    Decline(DeclineReason),
    NoAddressAvailable,
    ReleasedByAdmin(Ipv4),
}

/// A message as mathematical values.
pub enum MessageView {
    Discover { hw: Seq<u8> },
    Request { addr: Ipv4, hw: Seq<u8> },
    Release,
}

/// A reply as mathematical values.
pub enum ReplyView {
    Offer { addr: Ipv4, hw: Seq<u8> },
    Ack { addr: Ipv4, hw: Seq<u8> },
    Decline(DeclineReason),
    NoAddressAvailable,
    ReleasedByAdmin(Ipv4),
}

impl View for Message {
    type V = MessageView;

    open spec fn view(&self) -> MessageView {
        match self {
            Message::Discover { hw } => MessageView::Discover { hw: hw@ },
            Message::Request { addr, hw } => MessageView::Request { addr: *addr, hw: hw@ },
            Message::Release => MessageView::Release,
        }
    }
}

impl View for Reply {
    type V = ReplyView;

    open spec fn view(&self) -> ReplyView {
        match self {
            Reply::Offer { addr, hw } => ReplyView::Offer { addr: *addr, hw: hw@ },
            Reply::Ack { addr, hw } => ReplyView::Ack { addr: *addr, hw: hw@ },
            Reply::Decline(r) => ReplyView::Decline(*r),
            Reply::NoAddressAvailable => ReplyView::NoAddressAvailable,
            Reply::ReleasedByAdmin(a) => ReplyView::ReleasedByAdmin(*a),
        }
    }
}

/// The view of an optional reply.
pub open spec fn reply_view(r: Option<Reply>) -> Option<ReplyView> {
    match r {
        Some(x) => Some(x@),
        None => None,
    }
}

/// The word `DISCOVER`.
pub open spec fn discover_word() -> Seq<u8> {
    seq![68u8, 73u8, 83u8, 67u8, 79u8, 86u8, 69u8, 82u8]
}

/// The word `REQUEST`.
pub open spec fn request_word() -> Seq<u8> {
    seq![82u8, 69u8, 81u8, 85u8, 69u8, 83u8, 84u8]
}

/// The word `RELEASE`.
pub open spec fn release_word() -> Seq<u8> {
    seq![82u8, 69u8, 76u8, 69u8, 65u8, 83u8, 69u8]
}

/// The word `OFFER`.
pub open spec fn offer_word() -> Seq<u8> {
    seq![79u8, 70u8, 70u8, 69u8, 82u8]
}

/// The word `ACK`.
pub open spec fn ack_word() -> Seq<u8> {
    seq![65u8, 67u8, 75u8]
}

/// The word `DECLINE`.
pub open spec fn decline_word() -> Seq<u8> {
    seq![68u8, 69u8, 67u8, 76u8, 73u8, 78u8, 69u8]
}

/// The word `IP_IN_USE`.
pub open spec fn in_use_word() -> Seq<u8> {
    seq![73u8, 80u8, 95u8, 73u8, 78u8, 95u8, 85u8, 83u8, 69u8]
}

/// The word `UNKNOWN_IP`.
pub open spec fn unknown_ip_word() -> Seq<u8> {
    seq![85u8, 78u8, 75u8, 78u8, 79u8, 87u8, 78u8, 95u8, 73u8, 80u8]
}

/// The word `NO_AVAILABLE_IP`.
pub open spec fn no_available_word() -> Seq<u8> {
    seq![78u8, 79u8, 95u8, 65u8, 86u8, 65u8, 73u8, 76u8, 65u8, 66u8, 76u8, 69u8, 95u8, 73u8, 80u8]
}

/// The word `RELEASED_BY_ADMIN`.
pub open spec fn released_by_admin_word() -> Seq<u8> {
    seq![82u8, 69u8, 76u8, 69u8, 65u8, 83u8, 69u8, 68u8, 95u8, 66u8, 89u8, 95u8, 65u8, 68u8, 77u8, 73u8, 78u8]
}

/// Why a datagram is not a message; such datagrams are dropped.
#[derive(Clone, Copy, Debug, PartialEq, Eq, Structural)]
pub enum MessageError {
    /// The verb is none that a client sends.
    UnknownVerb,
    /// A request without an address, or whose address is not dotted-decimal.
    BadAddress,
}

/// Space, tab, line feed or carriage return.
pub open spec fn is_space(b: u8) -> bool {
    b == 32 || b == 9 || b == 10 || b == 13
}

/// `s` without its leading white space.
pub open spec fn trim_front(s: Seq<u8>) -> Seq<u8>
    decreases s.len(),
{
    if s.len() > 0 && is_space(s[0]) {
        trim_front(s.subrange(1, s.len() as int))
    } else {
        s
    }
}

/// `s` without its trailing white space.
pub open spec fn trim_back(s: Seq<u8>) -> Seq<u8>
    decreases s.len(),
{
    if s.len() > 0 && is_space(s[s.len() - 1]) {
        trim_back(s.subrange(0, s.len() - 1))
    } else {
        s
    }
}

/// `s` without white space at either end.
pub open spec fn trimmed(s: Seq<u8>) -> Seq<u8> {
    trim_back(trim_front(s))
}

/// The index of the first `b` in `s`, or the length of `s`.
pub open spec fn first_at(s: Seq<u8>, b: u8) -> int
    decreases s.len(),
{
    if s.len() == 0 {
        0
    } else if s[0] == b {
        0
    } else {
        1 + first_at(s.subrange(1, s.len() as int), b)
    }
}

/// What stands before the first colon of `s`, or all of it.
pub open spec fn head_of(s: Seq<u8>) -> Seq<u8> {
    s.subrange(0, first_at(s, 58))
}

/// What stands after the first colon of `s`, or nothing.
pub open spec fn tail_of(s: Seq<u8>) -> Seq<u8> {
    if first_at(s, 58) < s.len() {
        s.subrange(first_at(s, 58) + 1, s.len() as int)
    } else {
        Seq::empty()
    }
}

/// The address whose text is `t`, if any.
pub open spec fn addr_of_text(t: Seq<u8>) -> Option<Ipv4> {
    if exists|a: Ipv4| ipv4_text(a) == t {
        Some(choose|a: Ipv4| ipv4_text(a) == t)
    } else {
        None
    }
}

/// The message that datagram `b` holds. White space around it is ignored;
/// the verb ends at the first colon. `DISCOVER[:hw]` and `REQUEST:addr[:hw]`
/// carry an optional hardware address (what follows the colon, possibly with
/// colons of its own); `RELEASE` ignores what follows it.
pub open spec fn message_of(b: Seq<u8>) -> Result<MessageView, MessageError> {
    let t = trimmed(b);
    let verb = head_of(t);
    let payload = tail_of(t);
    if verb == discover_word() {
        Ok(MessageView::Discover { hw: payload })
    } else if verb == request_word() {
        match addr_of_text(head_of(payload)) {
            Some(a) => Ok(MessageView::Request { addr: a, hw: tail_of(payload) }),
            None => Err(MessageError::BadAddress),
        }
    } else if verb == release_word() {
        Ok(MessageView::Release)
    } else {
        Err(MessageError::UnknownVerb)
    }
}

/// `first_at` is the first index of `b`.
pub proof fn lemma_first_at(s: Seq<u8>, b: u8, r: int)
    requires
        0 <= r <= s.len(),
        forall|k: int| 0 <= k < r ==> s[k] != b,
        r < s.len() ==> s[r] == b,
    ensures
        first_at(s, b) == r,
    decreases s.len(),
{
    if s.len() > 0 && s[0] != b {
        let t = s.subrange(1, s.len() as int);
        assert forall|k: int| 0 <= k < r - 1 implies t[k] != b by {
            assert(t[k] == s[k + 1]);
        }
        lemma_first_at(t, b, r - 1);
    }
}

/// The bounds of `s` without white space at either end.
fn trim_bounds(s: &[u8]) -> (r: (usize, usize))
    ensures
        r.0 <= r.1 <= s@.len(),
        s@.subrange(r.0 as int, r.1 as int) == trimmed(s@),
{
    let mut lo: usize = 0;
    assert(s@.subrange(0, s@.len() as int) =~= s@);
    while lo < s.len() && (s[lo] == 32 || s[lo] == 9 || s[lo] == 10 || s[lo] == 13)
        invariant
            lo <= s@.len(),
            trim_front(s@) == trim_front(s@.subrange(lo as int, s@.len() as int)),
        decreases s@.len() - lo,
    {
        let ghost t = s@.subrange(lo as int, s@.len() as int);
        assert(t.subrange(1, t.len() as int) =~= s@.subrange(lo + 1, s@.len() as int));
        lo = lo + 1;
    }
    let mut hi: usize = s.len();
    while hi > lo && (s[hi - 1] == 32 || s[hi - 1] == 9 || s[hi - 1] == 10 || s[hi - 1] == 13)
        invariant
            lo <= hi <= s@.len(),
            trim_front(s@) == s@.subrange(lo as int, s@.len() as int),
            trimmed(s@) == trim_back(s@.subrange(lo as int, hi as int)),
        decreases hi,
    {
        let ghost t = s@.subrange(lo as int, hi as int);
        assert(t.subrange(0, t.len() - 1) =~= s@.subrange(lo as int, hi - 1));
        hi = hi - 1;
    }
    (lo, hi)
}

/// The first colon of `s[lo..hi]`, as `first_at` gives it.
fn find_colon(s: &[u8], lo: usize, hi: usize) -> (r: usize)
    requires
        lo <= hi <= s@.len(),
    ensures
        lo <= r <= hi,
        r - lo == first_at(s@.subrange(lo as int, hi as int), 58),
{
    let r = find_byte(s, 58, lo, hi);
    proof {
        let t = s@.subrange(lo as int, hi as int);
        assert forall|k: int| 0 <= k < r - lo implies t[k] != 58 by {
            assert(t[k] == s@[lo + k]);
        }
        if r < hi {
            assert(t[r - lo] == s@[r as int]);
        }
        lemma_first_at(t, 58, r - lo);
    }
    r
}

/// Whether `s[lo..hi]` is the word `w`.
fn is_word(s: &[u8], lo: usize, hi: usize, w: &[u8]) -> (r: bool)
    requires
        lo <= hi <= s@.len(),
    ensures
        r == (s@.subrange(lo as int, hi as int) == w@),
{
    if hi - lo != w.len() {
        return false;
    }
    let mut i: usize = 0;
    while i < w.len()
        invariant
            i <= w@.len(),
            hi - lo == w@.len(),
            lo <= hi <= s@.len(),
            forall|k: int| 0 <= k < i ==> s@[lo + k] == #[trigger] w@[k],
        decreases w@.len() - i,
    {
        if s[lo + i] != w[i] {
            assert(s@.subrange(lo as int, hi as int)[i as int] != w@[i as int]);
            return false;
        }
        i = i + 1;
    }
    assert(s@.subrange(lo as int, hi as int) =~= w@);
    true
}

/// A copy of `s[lo..hi]`.
fn copy_range(s: &[u8], lo: usize, hi: usize) -> (r: Vec<u8>)
    requires
        lo <= hi <= s@.len(),
    ensures
        r@ == s@.subrange(lo as int, hi as int),
{
    let mut r: Vec<u8> = Vec::with_capacity(hi - lo);
    let mut i = lo;
    while i < hi
        invariant
            lo <= i <= hi <= s@.len(),
            r@ == s@.subrange(lo as int, i as int),
        decreases hi - i,
    {
        r.push(s[i]);
        i = i + 1;
        assert(r@ =~= s@.subrange(lo as int, i as int));
    }
    r
}

/// Reads the message that datagram `b` holds.
pub fn parse_message(b: &[u8]) -> (r: Result<Message, MessageError>)
    ensures
        match r {
            Ok(m) => message_of(b@) == Ok::<MessageView, MessageError>(m@),
            Err(e) => message_of(b@) == Err::<MessageView, MessageError>(e),
        },
{
    let (lo, hi) = trim_bounds(b);
    let ghost t = b@.subrange(lo as int, hi as int);
    let k = find_colon(b, lo, hi);
    let ghost verb = b@.subrange(lo as int, k as int);
    assert(verb =~= head_of(t));
    let (plo, phi) = if k < hi { (k + 1, hi) } else { (hi, hi) };
    assert(b@.subrange(plo as int, phi as int) =~= tail_of(t));
    let w_discover: [u8; 8] = [68, 73, 83, 67, 79, 86, 69, 82];
    let w_request: [u8; 7] = [82, 69, 81, 85, 69, 83, 84];
    let w_release: [u8; 7] = [82, 69, 76, 69, 65, 83, 69];
    if is_word(b, lo, k, &w_discover) {
        Ok(Message::Discover { hw: copy_range(b, plo, phi) })
    } else if is_word(b, lo, k, &w_request) {
        let j = find_colon(b, plo, phi);
        let ghost payload = b@.subrange(plo as int, phi as int);
        assert(b@.subrange(plo as int, j as int) =~= head_of(payload));
        let (hlo, hhi) = if j < phi { (j + 1, phi) } else { (phi, phi) };
        assert(b@.subrange(hlo as int, hhi as int) =~= tail_of(payload));
        match parse_ipv4(b, plo, j) {
            Some(a) => {
                proof {
                    assert(ipv4_text(a) == head_of(payload));
                    let c = choose|c: Ipv4| ipv4_text(c) == head_of(payload);
                    assert(ipv4_text(c) == head_of(payload));
                }
                Ok(Message::Request { addr: a, hw: copy_range(b, hlo, hhi) })
            },
            None => Err(MessageError::BadAddress),
        }
    } else if is_word(b, lo, k, &w_release) {
        Ok(Message::Release)
    } else {
        Err(MessageError::UnknownVerb)
    }
}

/// A colon and the hardware address, or nothing when there is none.
pub open spec fn hw_suffix(hw: Seq<u8>) -> Seq<u8> {
    if hw.len() == 0 {
        Seq::empty()
    } else {
        seq![58u8] + hw
    }
}

/// The text of a reply: `OFFER:addr[:hw]`, `ACK:addr[:hw]`,
/// `DECLINE:IP_IN_USE`, `DECLINE:UNKNOWN_IP`, `NO_AVAILABLE_IP` or
/// `RELEASED_BY_ADMIN:addr`.
pub open spec fn reply_bytes(r: ReplyView) -> Seq<u8> {
    match r {
        ReplyView::Offer { addr, hw } => offer_word() + seq![58u8] + ipv4_text(addr) + hw_suffix(hw),
        ReplyView::Ack { addr, hw } => ack_word() + seq![58u8] + ipv4_text(addr) + hw_suffix(hw),
        ReplyView::Decline(DeclineReason::AddressInUse) => decline_word() + seq![58u8] + in_use_word(),
        ReplyView::Decline(DeclineReason::UnknownAddress) => decline_word() + seq![58u8] + unknown_ip_word(),
        ReplyView::NoAddressAvailable => no_available_word(),
        ReplyView::ReleasedByAdmin(a) => released_by_admin_word() + seq![58u8] + ipv4_text(a),
    }
}

/// Appends the bytes of `w`.
fn push_bytes(out: &mut Vec<u8>, w: &[u8])
    ensures
        final(out)@ == old(out)@ + w@,
{
    let mut i: usize = 0;
    while i < w.len()
        invariant
            i <= w@.len(),
            out@ == old(out)@ + w@.subrange(0, i as int),
        decreases w@.len() - i,
    {
        out.push(w[i]);
        i = i + 1;
        assert(out@ =~= old(out)@ + w@.subrange(0, i as int));
    }
    assert(w@.subrange(0, w@.len() as int) =~= w@);
}

/// Appends a colon and `hw`, unless `hw` is empty.
fn push_hw(out: &mut Vec<u8>, hw: &Vec<u8>)
    ensures
        final(out)@ == old(out)@ + hw_suffix(hw@),
{
    if hw.len() > 0 {
        out.push(58);
        push_bytes(out, hw.as_slice());
        assert(final(out)@ =~= old(out)@ + hw_suffix(hw@));
    } else {
        assert(final(out)@ =~= old(out)@ + hw_suffix(hw@));
    }
}

impl Reply {
    /// The text of this reply.
    pub fn encode(&self) -> (r: Vec<u8>)
        ensures
            r@ == reply_bytes(self@),
    {
        let mut out: Vec<u8> = Vec::new();
        match self {
            Reply::Offer { addr, hw } => {
                let w: [u8; 5] = [79, 70, 70, 69, 82];
                push_bytes(&mut out, &w);
                out.push(58);
                write_ipv4(&mut out, *addr);
                push_hw(&mut out, hw);
            },
            Reply::Ack { addr, hw } => {
                let w: [u8; 3] = [65, 67, 75];
                push_bytes(&mut out, &w);
                out.push(58);
                write_ipv4(&mut out, *addr);
                push_hw(&mut out, hw);
            },
            Reply::Decline(reason) => {
                let w: [u8; 7] = [68, 69, 67, 76, 73, 78, 69];
                push_bytes(&mut out, &w);
                out.push(58);
                match reason {
                    DeclineReason::AddressInUse => {
                        let x: [u8; 9] = [73, 80, 95, 73, 78, 95, 85, 83, 69];
                        push_bytes(&mut out, &x);
                    },
                    DeclineReason::UnknownAddress => {
                        let x: [u8; 10] = [85, 78, 75, 78, 79, 87, 78, 95, 73, 80];
                        push_bytes(&mut out, &x);
                    },
                }
            },
            Reply::NoAddressAvailable => {
                let w: [u8; 15] = [78, 79, 95, 65, 86, 65, 73, 76, 65, 66, 76, 69, 95, 73, 80];
                push_bytes(&mut out, &w);
            },
            Reply::ReleasedByAdmin(addr) => {
                let w: [u8; 17] = [82, 69, 76, 69, 65, 83, 69, 68, 95, 66, 89, 95, 65, 68, 77, 73, 78];
                push_bytes(&mut out, &w);
                out.push(58);
                write_ipv4(&mut out, *addr);
            },
        }
        assert(out@ =~= reply_bytes(self@));
        out
    }
}

/// The text of a message: `DISCOVER[:hw]`, `REQUEST:addr[:hw]` or
/// `RELEASE`.
pub open spec fn message_bytes(m: MessageView) -> Seq<u8> {
    match m {
        MessageView::Discover { hw } => discover_word() + hw_suffix(hw),
        MessageView::Request { addr, hw } => request_word() + seq![58u8] + ipv4_text(addr) + hw_suffix(hw),
        MessageView::Release => release_word(),
    }
}

impl Message {
    /// The text of this message.
    pub fn encode(&self) -> (r: Vec<u8>)
        ensures
            r@ == message_bytes(self@),
    {
        let mut out: Vec<u8> = Vec::new();
        match self {
            Message::Discover { hw } => {
                let w: [u8; 8] = [68, 73, 83, 67, 79, 86, 69, 82];
                push_bytes(&mut out, &w);
                push_hw(&mut out, hw);
            },
            Message::Request { addr, hw } => {
                let w: [u8; 7] = [82, 69, 81, 85, 69, 83, 84];
                push_bytes(&mut out, &w);
                out.push(58);
                write_ipv4(&mut out, *addr);
                push_hw(&mut out, hw);
            },
            Message::Release => {
                let w: [u8; 7] = [82, 69, 76, 69, 65, 83, 69];
                push_bytes(&mut out, &w);
            },
        }
        assert(out@ =~= message_bytes(self@));
        out
    }
}

/// The reply that datagram `b` holds, read as `message_of` reads messages:
/// white space around it is ignored and the verb ends at the first colon.
pub open spec fn reply_of(b: Seq<u8>) -> Option<ReplyView> {
    let t = trimmed(b);
    let verb = head_of(t);
    let payload = tail_of(t);
    if verb == offer_word() || verb == ack_word() {
        match addr_of_text(head_of(payload)) {
            Some(a) => if verb == offer_word() {
                Some(ReplyView::Offer { addr: a, hw: tail_of(payload) })
            } else {
                Some(ReplyView::Ack { addr: a, hw: tail_of(payload) })
            },
            None => None,
        }
    } else if verb == decline_word() {
        if payload == in_use_word() {
            Some(ReplyView::Decline(DeclineReason::AddressInUse))
        } else if payload == unknown_ip_word() {
            Some(ReplyView::Decline(DeclineReason::UnknownAddress))
        } else {
            None
        }
    } else if verb == no_available_word() {
        Some(ReplyView::NoAddressAvailable)
    } else if verb == released_by_admin_word() {
        match addr_of_text(payload) {
            Some(a) => Some(ReplyView::ReleasedByAdmin(a)),
            None => None,
        }
    } else {
        None
    }
}

/// Reads the reply that datagram `b` holds, if it holds one.
pub fn parse_reply(b: &[u8]) -> (r: Option<Reply>)
    ensures
        reply_view(r) == reply_of(b@),
{
    let (lo, hi) = trim_bounds(b);
    let ghost t = b@.subrange(lo as int, hi as int);
    let k = find_colon(b, lo, hi);
    assert(b@.subrange(lo as int, k as int) =~= head_of(t));
    let (plo, phi) = if k < hi { (k + 1, hi) } else { (hi, hi) };
    let ghost payload = b@.subrange(plo as int, phi as int);
    assert(payload =~= tail_of(t));
    let w_offer: [u8; 5] = [79, 70, 70, 69, 82];
    let w_ack: [u8; 3] = [65, 67, 75];
    let w_decline: [u8; 7] = [68, 69, 67, 76, 73, 78, 69];
    let w_none: [u8; 15] = [78, 79, 95, 65, 86, 65, 73, 76, 65, 66, 76, 69, 95, 73, 80];
    let w_admin: [u8; 17] = [82, 69, 76, 69, 65, 83, 69, 68, 95, 66, 89, 95, 65, 68, 77, 73, 78];
    let is_offer = is_word(b, lo, k, &w_offer);
    if is_offer || is_word(b, lo, k, &w_ack) {
        let j = find_colon(b, plo, phi);
        assert(b@.subrange(plo as int, j as int) =~= head_of(payload));
        let (hlo, hhi) = if j < phi { (j + 1, phi) } else { (phi, phi) };
        assert(b@.subrange(hlo as int, hhi as int) =~= tail_of(payload));
        match parse_ipv4(b, plo, j) {
            Some(a) => {
                proof {
                    assert(ipv4_text(a) == head_of(payload));
                    let c = choose|c: Ipv4| ipv4_text(c) == head_of(payload);
                    assert(ipv4_text(c) == head_of(payload));
                }
                let hw = copy_range(b, hlo, hhi);
                if is_offer {
                    Some(Reply::Offer { addr: a, hw })
                } else {
                    Some(Reply::Ack { addr: a, hw })
                }
            },
            None => None,
        }
    } else if is_word(b, lo, k, &w_decline) {
        let w_in_use: [u8; 9] = [73, 80, 95, 73, 78, 95, 85, 83, 69];
        let w_unknown: [u8; 10] = [85, 78, 75, 78, 79, 87, 78, 95, 73, 80];
        if is_word(b, plo, phi, &w_in_use) {
            Some(Reply::Decline(DeclineReason::AddressInUse))
        } else if is_word(b, plo, phi, &w_unknown) {
            Some(Reply::Decline(DeclineReason::UnknownAddress))
        } else {
            None
        }
    } else if is_word(b, lo, k, &w_none) {
        Some(Reply::NoAddressAvailable)
    } else if is_word(b, lo, k, &w_admin) {
        match parse_ipv4(b, plo, phi) {
            Some(a) => {
                proof {
                    assert(ipv4_text(a) == payload);
                    let c = choose|c: Ipv4| ipv4_text(c) == payload;
                    assert(ipv4_text(c) == payload);
                }
                Some(Reply::ReleasedByAdmin(a))
            },
            None => None,
        }
    } else {
        None
    }
}

/// A hardware address from which reading would trim nothing: empty, or
/// neither beginning nor ending with white space.
pub open spec fn hw_untrimmed(hw: Seq<u8>) -> bool {
    hw.len() == 0 || (!is_space(hw[0]) && !is_space(hw[hw.len() - 1]))
}

/// Whether `s` holds no byte `b`.
pub open spec fn has_no(s: Seq<u8>, b: u8) -> bool {
    forall|k: int| 0 <= k < s.len() ==> #[trigger] s[k] != b
}

/// A text that neither begins nor ends with white space is its own trimmed
/// form.
pub proof fn lemma_trimmed_itself(b: Seq<u8>)
    requires
        b.len() > 0,
        !is_space(b[0]),
        !is_space(b[b.len() - 1]),
    ensures
        trimmed(b) == b,
{
    assert(trim_front(b) == b);
}

/// Before a part without colons and an optional colon-led rest, the first
/// colon splits the two.
pub proof fn lemma_head_tail(v: Seq<u8>, w: Seq<u8>)
    requires
        has_no(v, 58),
    ensures
        head_of(v + hw_suffix(w)) == v,
        tail_of(v + hw_suffix(w)) == w,
{
    let x = v + hw_suffix(w);
    assert forall|k: int| 0 <= k < v.len() implies x[k] != 58 by {
        assert(x[k] == v[k]);
    }
    if w.len() > 0 {
        assert(x[v.len() as int] == 58);
    }
    lemma_first_at(x, 58, v.len() as int);
    assert(x.subrange(0, v.len() as int) =~= v);
    if w.len() > 0 {
        assert(x.subrange(v.len() as int + 1, x.len() as int) =~= w);
    }
}

/// The text of an address has no colon and names that address alone.
pub proof fn lemma_addr_text(a: Ipv4)
    ensures
        has_no(ipv4_text(a), 58),
        addr_of_text(ipv4_text(a)) == Some(a),
{
    lemma_ipv4_text_chars(a);
    assert forall|k: int| 0 <= k < ipv4_text(a).len() implies #[trigger] ipv4_text(a)[k] != 58 by {
        assert(is_digit(ipv4_text(a)[k]) || ipv4_text(a)[k] == 46);
    }
    let c = choose|c: Ipv4| ipv4_text(c) == ipv4_text(a);
    lemma_ipv4_text_injective(c, a);
}

/// The words of the protocol have no colon and begin with a letter.
pub proof fn lemma_words()
    ensures
        has_no(discover_word(), 58),
        has_no(request_word(), 58),
        has_no(release_word(), 58),
        has_no(offer_word(), 58),
        has_no(ack_word(), 58),
        has_no(decline_word(), 58),
        has_no(no_available_word(), 58),
        has_no(released_by_admin_word(), 58),
{
}

/// Reading the text of a message gives that message back, whenever its
/// hardware address has no white space at either end.
pub proof fn message_text_round_trip(m: MessageView)
    requires
        match m {
            MessageView::Discover { hw } => hw_untrimmed(hw),
            MessageView::Request { addr: _, hw } => hw_untrimmed(hw),
            MessageView::Release => true,
        },
    ensures
        message_of(message_bytes(m)) == Ok::<MessageView, MessageError>(m),
{
    lemma_words();
    let b = message_bytes(m);
    match m {
        MessageView::Discover { hw } => {
            lemma_head_tail(discover_word(), hw);
            assert(b[0] == discover_word()[0]);
            assert(b[b.len() - 1] == if hw.len() == 0 { discover_word()[7] } else { hw[hw.len() - 1] });
            lemma_trimmed_itself(b);
        },
        MessageView::Request { addr, hw } => {
            let t = ipv4_text(addr);
            lemma_addr_text(addr);
            lemma_ipv4_text_chars(addr);
            let payload = t + hw_suffix(hw);
            assert(b =~= request_word() + hw_suffix(payload));
            lemma_head_tail(request_word(), payload);
            lemma_head_tail(t, hw);
            assert(b[0] == request_word()[0]);
            if hw.len() == 0 {
                assert(b[b.len() - 1] == t[t.len() - 1]);
            } else {
                assert(b[b.len() - 1] == hw[hw.len() - 1]);
            }
            lemma_trimmed_itself(b);
        },
        MessageView::Release => {
            assert(b[0] == release_word()[0]);
            assert(b[b.len() - 1] == release_word()[6]);
            lemma_trimmed_itself(b);
            assert(b =~= release_word() + hw_suffix(Seq::empty()));
            lemma_head_tail(release_word(), Seq::empty());
        },
    }
}

/// Reading the text of a reply gives that reply back, whenever its hardware
/// address has no white space at either end.
pub proof fn reply_text_round_trip(r: ReplyView)
    requires
        match r {
            ReplyView::Offer { addr: _, hw } => hw_untrimmed(hw),
            ReplyView::Ack { addr: _, hw } => hw_untrimmed(hw),
            _ => true,
        },
    ensures
        reply_of(reply_bytes(r)) == Some(r),
{
    lemma_words();
    let b = reply_bytes(r);
    match r {
        ReplyView::Offer { addr, hw } => {
            let t = ipv4_text(addr);
            lemma_addr_text(addr);
            lemma_ipv4_text_chars(addr);
            let payload = t + hw_suffix(hw);
            assert(b =~= offer_word() + hw_suffix(payload));
            lemma_head_tail(offer_word(), payload);
            lemma_head_tail(t, hw);
            assert(b[0] == offer_word()[0]);
            if hw.len() == 0 {
                assert(b[b.len() - 1] == t[t.len() - 1]);
            } else {
                assert(b[b.len() - 1] == hw[hw.len() - 1]);
            }
            lemma_trimmed_itself(b);
        },
        ReplyView::Ack { addr, hw } => {
            let t = ipv4_text(addr);
            lemma_addr_text(addr);
            lemma_ipv4_text_chars(addr);
            let payload = t + hw_suffix(hw);
            assert(b =~= ack_word() + hw_suffix(payload));
            lemma_head_tail(ack_word(), payload);
            lemma_head_tail(t, hw);
            assert(b[0] == ack_word()[0]);
            if hw.len() == 0 {
                assert(b[b.len() - 1] == t[t.len() - 1]);
            } else {
                assert(b[b.len() - 1] == hw[hw.len() - 1]);
            }
            lemma_trimmed_itself(b);
        },
        ReplyView::Decline(reason) => {
            let w = if reason == DeclineReason::AddressInUse { in_use_word() } else { unknown_ip_word() };
            assert(b =~= decline_word() + hw_suffix(w));
            lemma_head_tail(decline_word(), w);
            assert(b[0] == decline_word()[0]);
            assert(b[b.len() - 1] == w[w.len() - 1]);
            lemma_trimmed_itself(b);
        },
        ReplyView::NoAddressAvailable => {
            assert(b =~= no_available_word() + hw_suffix(Seq::empty()));
            lemma_head_tail(no_available_word(), Seq::empty());
            assert(b[0] == no_available_word()[0]);
            assert(b[b.len() - 1] == no_available_word()[14]);
            lemma_trimmed_itself(b);
        },
        ReplyView::ReleasedByAdmin(addr) => {
            let t = ipv4_text(addr);
            lemma_addr_text(addr);
            lemma_ipv4_text_chars(addr);
            assert(b =~= released_by_admin_word() + hw_suffix(t));
            lemma_head_tail(released_by_admin_word(), t);
            assert(b[0] == released_by_admin_word()[0]);
            assert(b[b.len() - 1] == t[t.len() - 1]);
            lemma_trimmed_itself(b);
        },
    }
}

} // verus!
