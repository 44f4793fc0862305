use vstd::prelude::*;
use crate::bytes::{append_bytes, copy_range, split_first, starts_with, is_split, lemma_split_unique};
use crate::decimal::{decimal, push_decimal, parse_decimal, lemma_decimal_shape, is_digit};

verus! {

#[derive(Debug, Clone, Copy, PartialEq, Eq)]
pub enum ProtocolError {
    MalformedOffer,
}

/// A byte that may stand in a filename of an offer.
pub open spec fn is_name_byte(b: u8) -> bool {
    b != 0 && b != 1 && b != 10 && b != 13 && b != 32
}

pub open spec fn is_name(s: Seq<u8>) -> bool {
    s.len() > 0 && forall|i: int| 0 <= i < s.len() ==> is_name_byte(#[trigger] s[i])
}

/// A DCC SEND offer: the file, the sender's IPv4 address as a packed
/// network-order number, its port and the declared size in bytes.
#[derive(Debug, Clone)]
pub struct DccOffer {
    pub filename: Vec<u8>,
    pub ip: u32,
    pub port: u16,
    pub size: u64,
}

pub type OfferView = (Seq<u8>, u32, u16, u64);

impl View for DccOffer {
    type V = OfferView;

    open spec fn view(&self) -> OfferView {
        (self.filename@, self.ip, self.port, self.size)
    }
}

pub open spec fn offer_wf(o: OfferView) -> bool {
    is_name(o.0)
}

/// The bytes `\x01DCC SEND ` that open an offer.
pub open spec fn dcc_send_head() -> Seq<u8> {
    seq![1u8, 68u8, 67u8, 67u8, 32u8, 83u8, 69u8, 78u8, 68u8, 32u8]
}

fn dcc_send_head_bytes() -> (r: Vec<u8>)
    ensures
        r@ == dcc_send_head(),
{
    let r: Vec<u8> = vec![1u8, 68u8, 67u8, 67u8, 32u8, 83u8, 69u8, 78u8, 68u8, 32u8];
    assert(r@ =~= dcc_send_head());
    r
}

/// What follows the address in an offer: port and size.
pub open spec fn offer_tail(o: OfferView) -> Seq<u8> {
    decimal(o.2 as nat) + seq![32u8] + decimal(o.3 as nat)
}

/// What follows the filename in an offer: address, port and size.
pub open spec fn offer_numbers(o: OfferView) -> Seq<u8> {
    decimal(o.1 as nat) + seq![32u8] + offer_tail(o)
}

/// The text between the head and the closing `\x01`.
pub open spec fn offer_body(o: OfferView) -> Seq<u8> {
    o.0 + seq![32u8] + offer_numbers(o)
}

/// The CTCP payload `\x01DCC SEND <file> <ip> <port> <size>\x01` of an offer.
pub open spec fn dcc_payload(o: OfferView) -> Seq<u8> {
    dcc_send_head() + offer_body(o) + seq![1u8]
}

/// What decoding `p` may give: an offer whose payload is exactly `p`, or
/// `MalformedOffer` when no well-formed offer has that payload.
pub open spec fn decodes_to(p: Seq<u8>, r: Result<DccOffer, ProtocolError>) -> bool {
    match r {
        Ok(o) => offer_wf(o@) && dcc_payload(o@) == p,
        Err(e) => e == ProtocolError::MalformedOffer && forall|o: OfferView|
            offer_wf(o) ==> #[trigger] dcc_payload(o) != p,
    }
}

/// Encodes an offer as a CTCP DCC SEND payload.
pub fn encode_dcc_send(o: &DccOffer) -> (r: Vec<u8>)
    ensures
        r@ == dcc_payload(o@),
{
    let mut r = dcc_send_head_bytes();
    append_bytes(&mut r, o.filename.as_slice());
    r.push(32u8);
    push_decimal(&mut r, o.ip as u64);
    r.push(32u8);
    push_decimal(&mut r, o.port as u64);
    r.push(32u8);
    push_decimal(&mut r, o.size);
    r.push(1u8);
    assert(r@ =~= dcc_payload(o@));
    r
}

proof fn lemma_decimal_no_space(n: nat)
    ensures
        !decimal(n).contains(32u8),
        decimal(n).len() > 0,
{
    lemma_decimal_shape(n);
    if decimal(n).contains(32u8) {
        let i = choose|i: int| 0 <= i < decimal(n).len() && decimal(n)[i] == 32u8;
        assert(is_digit(decimal(n)[i]));
    }
}

/// The pieces of a payload, as the decoder meets them.
proof fn lemma_payload_parts(o: OfferView)
    requires
        offer_wf(o),
    ensures
        ({
            let p = dcc_payload(o);
            &&& p.len() >= 11
            &&& p[0] == 1u8
            &&& p[p.len() - 1] == 1u8
            &&& p.subrange(0, 10) == dcc_send_head()
            &&& p.subrange(10, p.len() - 1) == offer_body(o)
            &&& is_split(offer_body(o), 32u8, o.0, offer_numbers(o))
            &&& is_split(offer_numbers(o), 32u8, decimal(o.1 as nat), offer_tail(o))
            &&& is_split(offer_tail(o), 32u8, decimal(o.2 as nat), decimal(o.3 as nat))
        }),
{
    let p = dcc_payload(o);
    lemma_decimal_no_space(o.1 as nat);
    lemma_decimal_no_space(o.2 as nat);
    lemma_decimal_no_space(o.3 as nat);
    if o.0.contains(32u8) {
        let i = choose|i: int| 0 <= i < o.0.len() && o.0[i] == 32u8;
        assert(is_name_byte(o.0[i]));
    }
    assert(p.subrange(0, 10) =~= dcc_send_head());
    assert(p.subrange(10, p.len() - 1) =~= offer_body(o));
}

fn malformed(Ghost(p): Ghost<Seq<u8>>) -> (r: Result<DccOffer, ProtocolError>)
    requires
        forall|o: OfferView| offer_wf(o) ==> #[trigger] dcc_payload(o) != p,
    ensures
        decodes_to(p, r),
{
    Err(ProtocolError::MalformedOffer)
}

/// Decodes a CTCP DCC SEND payload.
pub fn decode_dcc_send(p: &[u8]) -> (r: Result<DccOffer, ProtocolError>)
    ensures
        decodes_to(p@, r),
{
    let n = p.len();
    let head = dcc_send_head_bytes();
    if n < 11 || p[n - 1] != 1u8 || !starts_with(p, head.as_slice()) {
        proof {
            assert forall|o: OfferView| offer_wf(o) implies #[trigger] dcc_payload(o) != p@ by {
                lemma_payload_parts(o);
            }
        }
        return malformed(Ghost(p@));
    }
    let body = copy_range(p, 10, n - 1);
    let ghost b = body@;
    let (name, numbers) = match split_first(body.as_slice(), 32u8) {
        Some(x) => x,
        None => {
            proof {
                assert forall|o: OfferView| offer_wf(o) implies #[trigger] dcc_payload(o) != p@ by {
                    lemma_payload_parts(o);
                    if dcc_payload(o) == p@ {
                        assert(b[o.0.len() as int] == 32u8);
                        assert(b.contains(32u8));
                    }
                }
            }
            return malformed(Ghost(p@));
        }
    };
    let (ip_text, tail) = match split_first(numbers.as_slice(), 32u8) {
        Some(x) => x,
        None => {
            proof {
                assert forall|o: OfferView| offer_wf(o) implies #[trigger] dcc_payload(o) != p@ by {
                    lemma_payload_parts(o);
                    if dcc_payload(o) == p@ {
                        lemma_split_unique(b, 32u8, name@, numbers@, o.0, offer_numbers(o));
                        assert(numbers@[decimal(o.1 as nat).len() as int] == 32u8);
                        assert(numbers@.contains(32u8));
                    }
                }
            }
            return malformed(Ghost(p@));
        }
    };
    let (port_text, size_text) = match split_first(tail.as_slice(), 32u8) {
        Some(x) => x,
        None => {
            proof {
                assert forall|o: OfferView| offer_wf(o) implies #[trigger] dcc_payload(o) != p@ by {
                    lemma_payload_parts(o);
                    if dcc_payload(o) == p@ {
                        lemma_split_unique(b, 32u8, name@, numbers@, o.0, offer_numbers(o));
                        lemma_split_unique(numbers@, 32u8, ip_text@, tail@, decimal(o.1 as nat), offer_tail(o));
                        assert(tail@[decimal(o.2 as nat).len() as int] == 32u8);
                        assert(tail@.contains(32u8));
                    }
                }
            }
            return malformed(Ghost(p@));
        }
    };
    let ip = parse_decimal(ip_text.as_slice());
    let port = parse_decimal(port_text.as_slice());
    let size = parse_decimal(size_text.as_slice());
    let name_ok = is_name_exec(name.as_slice());
    proof {
        assert(p@ =~= p@.subrange(0, 10) + b + seq![1u8]);
    }
    match (ip, port, size) {
        (Some(ip), Some(port), Some(size)) => {
            if name_ok && ip <= 0xffff_ffffu64 && port <= 0xffffu64 {
                let o = DccOffer { filename: name, ip: ip as u32, port: port as u16, size };
                assert(dcc_payload(o@) =~= p@);
                return Ok(o);
            }
        },
        _ => {},
    }
    proof {
        assert forall|o: OfferView| offer_wf(o) implies #[trigger] dcc_payload(o) != p@ by {
            lemma_payload_parts(o);
            if dcc_payload(o) == p@ {
                lemma_split_unique(b, 32u8, name@, numbers@, o.0, offer_numbers(o));
                lemma_split_unique(numbers@, 32u8, ip_text@, tail@, decimal(o.1 as nat), offer_tail(o));
                lemma_split_unique(tail@, 32u8, port_text@, size_text@, decimal(o.2 as nat), decimal(o.3 as nat));
                let a = o.1 as u64;
                let q = o.2 as u64;
                assert(decimal(a as nat) == ip_text@);
                assert(decimal(q as nat) == port_text@);
                assert(decimal(o.3 as nat) == size_text@);
                if let Some(v) = ip {
                    crate::decimal::lemma_decimal_injective(v as nat, a as nat);
                }
                if let Some(v) = port {
                    crate::decimal::lemma_decimal_injective(v as nat, q as nat);
                }
                if let Some(v) = size {
                    crate::decimal::lemma_decimal_injective(v as nat, o.3 as nat);
                }
            }
        }
    }
    malformed(Ghost(p@))
}

fn is_name_exec(s: &[u8]) -> (r: bool)
    ensures
        r == is_name(s@),
{
    if s.len() == 0 {
        return false;
    }
    let mut i: usize = 0;
    while i < s.len()
        invariant
            0 <= i <= s@.len(),
            forall|j: int| 0 <= j < i ==> is_name_byte(#[trigger] s@[j]),
        decreases s@.len() - i,
    {
        let c = s[i];
        if c == 0u8 || c == 1u8 || c == 10u8 || c == 13u8 || c == 32u8 {
            return false;
        }
        i = i + 1;
    }
    true
}

/// Decoding the encoding of a well-formed offer gives that offer back.
pub proof fn lemma_dcc_round_trip(o: OfferView, r: Result<DccOffer, ProtocolError>)
    requires
        offer_wf(o),
        decodes_to(dcc_payload(o), r),
    ensures
        r is Ok,
        r->Ok_0@ == o,
{
    if let Ok(d) = r {
        let x = d@;
        lemma_payload_parts(o);
        lemma_payload_parts(x);
        let p = dcc_payload(o);
        assert(p.subrange(10, p.len() - 1) == offer_body(x));
        lemma_split_unique(offer_body(o), 32u8, o.0, offer_numbers(o), x.0, offer_numbers(x));
        lemma_split_unique(offer_numbers(o), 32u8, decimal(o.1 as nat), offer_tail(o), decimal(x.1 as nat), offer_tail(x));
        lemma_split_unique(offer_tail(o), 32u8, decimal(o.2 as nat), decimal(o.3 as nat), decimal(x.2 as nat), decimal(x.3 as nat));
        crate::decimal::lemma_decimal_injective(o.1 as nat, x.1 as nat);
        crate::decimal::lemma_decimal_injective(o.2 as nat, x.2 as nat);
        crate::decimal::lemma_decimal_injective(o.3 as nat, x.3 as nat);
    }
}

} // verus!
