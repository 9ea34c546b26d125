//! Raw HTTP responses: the two status lines the server speaks, assembled
//! byte for byte. A success carries `Content-Type: image/png` and a
//! `Content-Length` that names the body's byte length; not-found carries
//! nothing after its status line.

use vstd::prelude::*;

verus! {

/// The decimal digits of `n`, most significant first.
pub open spec fn dec_digits(n: nat) -> Seq<u8>
    decreases n,
{
    if n < 10 {
        seq![(48 + n) as u8]
    } else {
        dec_digits(n / 10) + seq![(48 + n % 10) as u8]
    }
}

/// The bytes of `"HTTP/1.1 200 OK\r\nContent-Type: image/png\r\nContent-Length: "`.
pub open spec fn ok_head() -> Seq<u8> {
    seq![
        72u8, 84u8, 84u8, 80u8, 47u8, 49u8, 46u8, 49u8, 32u8, 50u8, 48u8, 48u8, 32u8, 79u8,
        75u8, 13u8, 10u8, 67u8, 111u8, 110u8, 116u8, 101u8, 110u8, 116u8, 45u8, 84u8, 121u8,
        112u8, 101u8, 58u8, 32u8, 105u8, 109u8, 97u8, 103u8, 101u8, 47u8, 112u8, 110u8, 103u8,
        13u8, 10u8, 67u8, 111u8, 110u8, 116u8, 101u8, 110u8, 116u8, 45u8, 76u8, 101u8, 110u8,
        103u8, 116u8, 104u8, 58u8, 32u8,
    ]
}

/// The bytes of `"\r\n\r\n"`: the end of the length line, then the blank
/// line before the body.
pub open spec fn head_end() -> Seq<u8> {
    seq![13u8, 10u8, 13u8, 10u8]
}

/// The header block of a success: everything before the body, which
/// depends on nothing of the body but its length.
pub open spec fn ok_header_block(len: nat) -> Seq<u8> {
    ok_head() + dec_digits(len) + head_end()
}

/// The full bytes of a `200 OK` response that carries `body`.
pub open spec fn ok_response_bytes(body: Seq<u8>) -> Seq<u8> {
    ok_header_block(body.len()) + body
}

/// The bytes of `"HTTP/1.1 404 Not Found\r\n\r\n"`, the whole of a
/// not-found response.
pub open spec fn not_found_bytes() -> Seq<u8> {
    seq![
        72u8, 84u8, 84u8, 80u8, 47u8, 49u8, 46u8, 49u8, 32u8, 52u8, 48u8, 52u8, 32u8, 78u8,
        111u8, 116u8, 32u8, 70u8, 111u8, 117u8, 110u8, 100u8, 13u8, 10u8, 13u8, 10u8,
    ]
}

/// Push the decimal digits of `n` onto `out`.
pub fn push_decimal(out: &mut Vec<u8>, n: usize)
    ensures
        final(out)@ == old(out)@ + dec_digits(n as nat),
    decreases n,
{
    if n < 10 {
        out.push(48 + (n as u8));
        proof {
            assert(out@ =~= old(out)@ + dec_digits(n as nat));
        }
    } else {
        push_decimal(out, n / 10);
        out.push(48 + ((n % 10) as u8));
        proof {
            assert(out@ =~= old(out)@ + dec_digits(n as nat));
        }
    }
}

/// Append every byte of `body` onto `out`.
pub fn push_bytes(out: &mut Vec<u8>, body: &[u8])
    ensures
        final(out)@ == old(out)@ + body@,
{
    let n: usize = body.len();
    let mut i: usize = 0;
    while i < n
        invariant
            0 <= i <= n,
            n == body@.len(),
            out@ == old(out)@ + body@.subrange(0, i as int),
        decreases n - i,
    {
        out.push(body[i]);
        proof {
            assert(old(out)@ + body@.subrange(0, i + 1) =~= (old(out)@ + body@.subrange(
                0,
                i as int,
            )).push(body@[i as int]));
        }
        i += 1;
    }
    proof {
        assert(body@.subrange(0, n as int) =~= body@);
    }
}

/// The `200 OK` response that serves `body` as a PNG image: status line,
/// content type, the body's length, a blank line, then the body itself.
pub fn build_ok_response(body: &[u8]) -> (r: Vec<u8>)
    ensures
        r@ == ok_response_bytes(body@),
{
    let mut r: Vec<u8> = Vec::new();
    r.push(72);
    r.push(84);
    r.push(84);
    r.push(80);
    r.push(47);
    r.push(49);
    r.push(46);
    r.push(49);
    r.push(32);
    r.push(50);
    r.push(48);
    r.push(48);
    r.push(32);
    r.push(79);
    r.push(75);
    r.push(13);
    r.push(10);
    r.push(67);
    r.push(111);
    r.push(110);
    r.push(116);
    r.push(101);
    r.push(110);
    r.push(116);
    r.push(45);
    r.push(84);
    r.push(121);
    r.push(112);
    r.push(101);
    r.push(58);
    r.push(32);
    r.push(105);
    r.push(109);
    r.push(97);
    r.push(103);
    r.push(101);
    r.push(47);
    r.push(112);
    r.push(110);
    r.push(103);
    r.push(13);
    r.push(10);
    r.push(67);
    r.push(111);
    r.push(110);
    r.push(116);
    r.push(101);
    r.push(110);
    r.push(116);
    r.push(45);
    r.push(76);
    r.push(101);
    r.push(110);
    r.push(103);
    r.push(116);
    r.push(104);
    r.push(58);
    r.push(32);
    proof {
        assert(r@ =~= ok_head());
    }
    push_decimal(&mut r, body.len());
    r.push(13);
    r.push(10);
    r.push(13);
    r.push(10);
    proof {
        assert(r@ =~= ok_header_block(body@.len()));
    }
    push_bytes(&mut r, body);
    proof {
        assert(r@ =~= ok_response_bytes(body@));
    }
    r
}

/// The `404 Not Found` response: one status line, a blank line, no body.
pub fn build_not_found() -> (r: Vec<u8>)
    ensures
        r@ == not_found_bytes(),
{
    let mut r: Vec<u8> = Vec::new();
    r.push(72);
    r.push(84);
    r.push(84);
    r.push(80);
    r.push(47);
    r.push(49);
    r.push(46);
    r.push(49);
    r.push(32);
    r.push(52);
    r.push(48);
    r.push(52);
    r.push(32);
    r.push(78);
    r.push(111);
    r.push(116);
    r.push(32);
    r.push(70);
    r.push(111);
    r.push(117);
    r.push(110);
    r.push(100);
    r.push(13);
    r.push(10);
    r.push(13);
    r.push(10);
    proof {
        assert(r@ =~= not_found_bytes());
    }
    r
}

/// Two successful responses whose bodies have one length carry one and
/// the same header block; the bodies follow it unchanged.
pub proof fn lemma_ok_headers_agree(b1: Seq<u8>, b2: Seq<u8>)
    requires
        b1.len() == b2.len(),
    ensures
        ok_response_bytes(b1).subrange(0, ok_header_block(b1.len()).len() as int)
            == ok_response_bytes(b2).subrange(0, ok_header_block(b2.len()).len() as int),
        ok_response_bytes(b1).skip(ok_header_block(b1.len()).len() as int) == b1,
        ok_response_bytes(b2).skip(ok_header_block(b2.len()).len() as int) == b2,
{
    lemma_ok_response_parts(b1);
    lemma_ok_response_parts(b2);
}

/// A successful response is its header block followed by its body.
pub proof fn lemma_ok_response_parts(b: Seq<u8>)
    ensures
        ok_response_bytes(b).subrange(0, ok_header_block(b.len()).len() as int)
            == ok_header_block(b.len()),
        ok_response_bytes(b).skip(ok_header_block(b.len()).len() as int) == b,
{
    let h = ok_header_block(b.len());
    assert(ok_response_bytes(b).subrange(0, h.len() as int) =~= h);
    assert(ok_response_bytes(b).skip(h.len() as int) =~= b);
}

} // verus!
