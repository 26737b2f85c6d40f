use vstd::prelude::*;

verus! {

/// The number that four bytes stand for, most significant first.
pub open spec fn be_value(b: Seq<u8>) -> int {
    b[0] as int * 16777216 + b[1] as int * 65536 + b[2] as int * 256 + b[3] as int
}

/// The four bytes, most significant first, that stand for `n`.
pub fn encode_length(n: u32) -> (r: [u8; 4])
    ensures
        be_value(r@) == n,
{
    let b0 = n / 16777216;
    let rest0 = n % 16777216;
    let b1 = rest0 / 65536;
    let rest1 = rest0 % 65536;
    let b2 = rest1 / 256;
    let b3 = rest1 % 256;
    assert(n == b0 * 16777216 + rest0) by (nonlinear_arith)
        requires
            b0 == n / 16777216,
            rest0 == n % 16777216,
    ;
    assert(rest0 == b1 * 65536 + rest1) by (nonlinear_arith)
        requires
            b1 == rest0 / 65536,
            rest1 == rest0 % 65536,
    ;
    assert(rest1 == b2 * 256 + b3) by (nonlinear_arith)
        requires
            b2 == rest1 / 256,
            b3 == rest1 % 256,
    ;
    assert(b0 < 256) by (nonlinear_arith)
        requires
            b0 == n / 16777216,
            n <= 0xffff_ffff,
    ;
    assert(b1 < 256) by (nonlinear_arith)
        requires
            b1 == rest0 / 65536,
            rest0 < 16777216,
    ;
    let r = [b0 as u8, b1 as u8, b2 as u8, b3 as u8];
    assert(r@ =~= seq![b0 as u8, b1 as u8, b2 as u8, b3 as u8]);
    r
}

/// The number that the four bytes `b` stand for, most significant first.
pub fn decode_length(b: [u8; 4]) -> (r: u32)
    ensures
        r == be_value(b@),
{
    (b[0] as u32) * 16777216 + (b[1] as u32) * 65536 + (b[2] as u32) * 256 + (b[3] as u32)
}

/// A message as sent on the wire: its length in four bytes, most significant
/// first, then its bytes. None when the length does not fit in four bytes.
pub fn frame_message(payload: &Vec<u8>) -> (r: Option<Vec<u8>>)
    ensures
        r is Some <==> payload.len() <= 0xffff_ffff,
        r is Some ==> r->0@.len() == payload@.len() + 4 && be_value(r->0@.subrange(0, 4))
            == payload@.len() && r->0@.subrange(4, r->0@.len() as int) == payload@,
{
    if payload.len() > 0xffff_ffff {
        return None;
    }
    let header = encode_length(payload.len() as u32);
    let mut out: Vec<u8> = Vec::new();
    let mut i: usize = 0;
    while i < 4
        invariant
            i <= 4,
            out@ == header@.take(i as int),
        decreases 4 - i,
    {
        out.push(header[i]);
        assert(out@ =~= header@.take(i + 1));
        i = i + 1;
    }
    let mut j: usize = 0;
    while j < payload.len()
        invariant
            j <= payload.len(),
            out@ == header@ + payload@.take(j as int),
        decreases payload.len() - j,
    {
        out.push(payload[j]);
        assert(out@ =~= header@ + payload@.take(j + 1));
        j = j + 1;
    }
    assert(out@.subrange(0, 4) =~= header@);
    assert(out@.subrange(4, out@.len() as int) =~= payload@);
    Some(out)
}

} // verus!
