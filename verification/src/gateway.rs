//! The key-derivation gateway boundary: deciding what a caller
//! receives for each possible reply of the remote service. The
//! network call itself is the host's, not the library's.

use vstd::prelude::*;

verus! {

/// A failed remote key-derivation call: the gateway's status code and
/// message, surfaced to the caller unchanged.
pub struct GatewayError {
    pub code: u32,
    pub message: Vec<u8>,
}

/// What the remote key-derivation service answered: key bytes, or a
/// rejection carrying a status code and message.
pub enum GatewayOutcome {
    Key(Vec<u8>),
    Rejected { code: u32, message: Vec<u8> },
}

/// The lower-case hex digit of a nibble.
pub open spec fn hex_digit(n: u8) -> u8 {
    if n < 10 {
        (0x30 + n) as u8
    } else {
        (0x57 + n) as u8
    }
}

/// The lower-case hex encoding of bytes: two digits per byte, high
/// nibble first.
pub open spec fn hex_of(b: Seq<u8>) -> Seq<u8>
    decreases b.len(),
{
    if b.len() == 0 {
        Seq::<u8>::empty()
    } else {
        seq![hex_digit(b[0] / 16), hex_digit(b[0] % 16)] + hex_of(b.drop_first())
    }
}

/// `hex_of` distributes over concatenation.
pub proof fn lemma_hex_of_app(a: Seq<u8>, b: Seq<u8>)
    ensures
        hex_of(a + b) == hex_of(a) + hex_of(b),
    decreases a.len(),
{
    if a.len() == 0 {
        assert(a + b =~= b);
        assert(hex_of(a) + hex_of(b) =~= hex_of(b));
    } else {
        lemma_hex_of_app(a.drop_first(), b);
        assert((a + b).drop_first() =~= a.drop_first() + b);
        assert((a + b)[0] == a[0]);
        assert(hex_of(a + b) =~= hex_of(a) + hex_of(b));
    }
}

/// Hex-encode bytes, two ASCII digits per byte.
pub fn to_hex(b: &Vec<u8>) -> (r: Vec<u8>)
    ensures
        r@ == hex_of(b@),
{
    let mut r: Vec<u8> = Vec::new();
    let mut i: usize = 0;
    while i < b.len()
        invariant
            0 <= i <= b@.len(),
            r@ =~= hex_of(b@.take(i as int)),
        decreases b@.len() - i,
    {
        let ghost sofar = b@.take(i as int);
        let v = b[i];
        let hi = v / 16;
        let lo = v % 16;
        r.push(if hi < 10 { 0x30 + hi } else { 0x57 + hi });
        r.push(if lo < 10 { 0x30 + lo } else { 0x57 + lo });
        proof {
            assert(b@.take(i + 1 as int) =~= sofar + seq![v]);
            lemma_hex_of_app(sofar, seq![v]);
            assert(seq![v].drop_first() =~= Seq::<u8>::empty());
            assert(hex_of(Seq::<u8>::empty()) =~= Seq::<u8>::empty());
            assert(hex_of(seq![v]) =~= seq![hex_digit(v / 16), hex_digit(v % 16)]);
            assert(r@ =~= hex_of(b@.take(i + 1 as int)));
        }
        i = i + 1;
    }
    proof {
        assert(b@.take(b@.len() as int) =~= b@);
    }
    r
}

/// What the caller receives for each possible gateway reply: key
/// bytes become their hex encoding, a rejection becomes an error
/// carrying the gateway's status code and message unchanged.
pub fn hex_key_of_outcome(outcome: GatewayOutcome) -> (r: Result<Vec<u8>, GatewayError>)
    ensures
        match outcome {
            GatewayOutcome::Key(k) => r matches Ok(h) && h@ == hex_of(k@),
            GatewayOutcome::Rejected { code, message } => r matches Err(e) && e.code == code
                && e.message@ == message@,
        },
{
    match outcome {
        GatewayOutcome::Key(k) => Ok(to_hex(&k)),
        GatewayOutcome::Rejected { code, message } => Err(GatewayError { code, message }),
    }
}

} // verus!
