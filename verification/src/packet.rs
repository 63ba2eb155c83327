//! Length-prefixed packets: a big-endian `u32` header followed by the payload.
use std::collections::VecDeque;
use vstd::prelude::*;

verus! {

broadcast use vstd::layout::layout_of_primitives;

/// The header of a packet: the length field carried on the wire.
#[derive(Debug)]
pub struct Header {
    pub len: u32,
}

/// A packet: its header and every byte that follows the header.
#[derive(Debug)]
pub struct Packet {
    pub header: Header,
    pub payload: Vec<u8>,
}

impl View for Packet {
    type V = (u32, Seq<u8>);

    open spec fn view(&self) -> (u32, Seq<u8>) {
        (self.header.len, self.payload@)
    }
}

/// The four bytes of `n`, most significant first.
pub open spec fn be_bytes(n: u32) -> Seq<u8> {
    seq![(n >> 24u32) as u8, (n >> 16u32) as u8, (n >> 8u32) as u8, n as u8]
}

/// The number that the bytes `s` denote, most significant first.
pub open spec fn be_value(s: Seq<u8>) -> nat
    decreases s.len(),
{
    if s.len() == 0 {
        0
    } else {
        be_value(s.drop_last()) * 256 + s.last() as nat
    }
}

/// The bytes of a packet on the wire.
pub open spec fn encode(p: (u32, Seq<u8>)) -> Seq<u8> {
    be_bytes(p.0) + p.1
}

/// What a buffer reads as: `None` when it is too short to hold the length
/// field, else the length field and all the bytes after it.
pub open spec fn decode(b: Seq<u8>) -> Option<(u32, Seq<u8>)> {
    if b.len() < 4 {
        None
    } else {
        Some((be_value(b.take(4)) as u32, b.skip(4)))
    }
}

proof fn lemma_be_value_below(s: Seq<u8>)
    requires
        s.len() <= 4,
    ensures
        s.len() <= 3 ==> be_value(s) < 0x100_0000,
        be_value(s) < 0x1_0000_0000,
    decreases s.len(),
{
    if s.len() > 0 {
        lemma_be_value_below(s.drop_last());
        if s.len() <= 3 {
            assert(s.drop_last().len() <= 2);
            assert(be_value(s.drop_last()) < 0x1_0000) by {
                lemma_be_value_two(s.drop_last());
            }
        }
    }
}

proof fn lemma_be_value_two(s: Seq<u8>)
    requires
        s.len() <= 2,
    ensures
        be_value(s) < 0x1_0000,
        s.len() <= 1 ==> be_value(s) < 0x100,
    decreases s.len(),
{
    if s.len() > 0 {
        lemma_be_value_two(s.drop_last());
    }
}

proof fn lemma_be_value_push(s: Seq<u8>, b: u8)
    ensures
        be_value(s.push(b)) == be_value(s) * 256 + b,
{
    assert(s.push(b).drop_last() =~= s);
}

proof fn lemma_be_value_four(b0: u8, b1: u8, b2: u8, b3: u8)
    ensures
        be_value(seq![b0, b1, b2, b3]) == ((b0 * 256 + b1) * 256 + b2) * 256 + b3,
{
    let e = Seq::<u8>::empty();
    lemma_be_value_push(e, b0);
    lemma_be_value_push(e.push(b0), b1);
    lemma_be_value_push(e.push(b0).push(b1), b2);
    lemma_be_value_push(e.push(b0).push(b1).push(b2), b3);
    assert(e.push(b0).push(b1).push(b2).push(b3) =~= seq![b0, b1, b2, b3]);
}

proof fn lemma_be_bytes_value(n: u32)
    ensures
        be_value(be_bytes(n)) == n,
{
    let b0 = (n >> 24u32) as u8;
    let b1 = (n >> 16u32) as u8;
    let b2 = (n >> 8u32) as u8;
    let b3 = n as u8;
    lemma_be_value_four(b0, b1, b2, b3);
    assert(((b0 as u64 * 256 + b1 as u64) * 256 + b2 as u64) * 256 + b3 as u64 == n as u64)
        by (bit_vector)
        requires
            b0 == (n >> 24u32) as u8,
            b1 == (n >> 16u32) as u8,
            b2 == (n >> 8u32) as u8,
            b3 == n as u8,
    ;
}

/// Decoding the bytes of a packet gives the packet back.
pub proof fn lemma_decode_encode(p: (u32, Seq<u8>))
    ensures
        decode(encode(p)) == Some(p),
{
    let e = encode(p);
    assert(e.take(4) =~= be_bytes(p.0));
    assert(e.skip(4) =~= p.1);
    lemma_be_bytes_value(p.0);
}

/// A buffer that decodes is exactly the bytes of what it decodes to.
pub proof fn lemma_encode_decode(b: Seq<u8>)
    requires
        decode(b) is Some,
    ensures
        encode(decode(b).unwrap()) == b,
{
    let t = b.take(4);
    lemma_be_value_below(t);
    let n = be_value(t) as u32;
    let (b0, b1, b2, b3) = (t[0], t[1], t[2], t[3]);
    assert(t =~= seq![b0, b1, b2, b3]);
    lemma_be_value_four(b0, b1, b2, b3);
    assert(be_value(t) == ((b0 * 256 + b1) * 256 + b2) * 256 + b3);
    assert(n == ((b0 as u32 * 256 + b1 as u32) * 256 + b2 as u32) * 256 + b3 as u32);
    assert({
        &&& (n >> 24u32) as u8 == b0
        &&& (n >> 16u32) as u8 == b1
        &&& (n >> 8u32) as u8 == b2
        &&& n as u8 == b3
    }) by (bit_vector)
        requires
            n == ((b0 as u32 * 256 + b1 as u32) * 256 + b2 as u32) * 256 + b3 as u32,
    ;
    assert(be_bytes(n) =~= t);
    assert(t + b.skip(4) =~= b);
}

/// The bytes of a packet on the wire are its length field, most significant
/// byte first, followed by every payload byte in order.
pub proof fn lemma_encode_layout(p: (u32, Seq<u8>))
    ensures
        encode(p).len() == p.1.len() + 4,
        encode(p)[0] as int == p.0 as int / 0x100_0000,
        encode(p)[1] as int == (p.0 as int / 0x1_0000) % 0x100,
        encode(p)[2] as int == (p.0 as int / 0x100) % 0x100,
        encode(p)[3] as int == p.0 as int % 0x100,
        forall|i: int| 0 <= i < p.1.len() ==> #[trigger] encode(p)[4 + i] == p.1[i],
{
    let n = p.0;
    let e = encode(p);
    assert(e[0] == (n >> 24u32) as u8);
    assert(e[1] == (n >> 16u32) as u8);
    assert(e[2] == (n >> 8u32) as u8);
    assert(e[3] == n as u8);
    assert({
        &&& ((n >> 24u32) as u8) as u32 == n / 0x100_0000
        &&& ((n >> 16u32) as u8) as u32 == (n / 0x1_0000) % 0x100
        &&& ((n >> 8u32) as u8) as u32 == (n / 0x100) % 0x100
        &&& (n as u8) as u32 == n % 0x100
    }) by (bit_vector);
    assert forall|i: int| 0 <= i < p.1.len() implies #[trigger] e[4 + i] == p.1[i] by {
        assert(e[4 + i] == (be_bytes(n) + p.1)[4 + i]);
    }
}

/// A buffer of four bytes or more reads as the number that its first four
/// bytes denote, most significant first, and every byte after them in
/// order; a shorter buffer does not read.
pub proof fn lemma_decode_layout(b: Seq<u8>)
    ensures
        b.len() < 4 ==> decode(b) is None,
        b.len() >= 4 ==> {
            &&& decode(b) is Some
            &&& decode(b).unwrap().0 as int == b[0] as int * 0x100_0000 + b[1] as int * 0x1_0000
                + b[2] as int * 0x100 + b[3] as int
            &&& decode(b).unwrap().1.len() == b.len() - 4
            &&& forall|i: int|
                0 <= i < b.len() - 4 ==> #[trigger] decode(b).unwrap().1[i] == b[4 + i]
        },
{
    if b.len() >= 4 {
        let t = b.take(4);
        lemma_be_value_below(t);
        assert(t =~= seq![b[0], b[1], b[2], b[3]]);
        lemma_be_value_four(b[0], b[1], b[2], b[3]);
    }
}

impl Packet {
    /// The bytes of the packet on the wire: the header's length field,
    /// most significant byte first, then the payload.
    pub fn to_vec(&self) -> (r: Vec<u8>)
        ensures
            r@ == encode(self@),
            r@.len() == self.payload@.len() + 4,
            r@[0] as int == self.header.len as int / 0x100_0000,
            r@[1] as int == (self.header.len as int / 0x1_0000) % 0x100,
            r@[2] as int == (self.header.len as int / 0x100) % 0x100,
            r@[3] as int == self.header.len as int % 0x100,
            r@.skip(4) == self.payload@,
    {
        proof {
            lemma_encode_layout(self@);
            assert(encode(self@).skip(4) =~= self.payload@);
        }
        let n = self.header.len;
        let mut out: Vec<u8> = Vec::new();
        out.push((n >> 24u32) as u8);
        out.push((n >> 16u32) as u8);
        out.push((n >> 8u32) as u8);
        out.push(n as u8);
        let mut i: usize = 0;
        while i < self.payload.len()
            invariant
                i <= self.payload@.len(),
                out@ == be_bytes(n) + self.payload@.take(i as int),
            decreases self.payload@.len() - i,
        {
            out.push(self.payload[i]);
            i = i + 1;
            assert(self.payload@.take(i as int) =~= self.payload@.take(i - 1).push(
                self.payload@[i - 1],
            ));
        }
        assert(self.payload@.take(i as int) =~= self.payload@);
        out
    }
}

/// The length field of `n`, kept modulo 2^32 as a cast to `u32` keeps it.
fn wire_len(n: usize) -> (r: u32)
    ensures
        r as int == n as int % 0x1_0000_0000,
{
    let wide: u64 = n as u64;
    (wide % 0x1_0000_0000u64) as u32
}

impl Packet {
    /// The packet in which a client sends `payload`: its length field counts
    /// the payload and the four bytes of the field itself, modulo 2^32.
    pub fn for_request(payload: Vec<u8>) -> (p: Packet)
        ensures
            p.header.len as int == (payload@.len() + 4) % 0x1_0000_0000,
            p.payload@ == payload@,
    {
        let field: u32 = core::mem::size_of::<u32>() as u32;
        let len = wire_len(payload.len()).wrapping_add(field);
        proof {
            let m = payload@.len() as int;
            assert((m % 0x1_0000_0000 + 4) % 0x1_0000_0000 == (m + 4) % 0x1_0000_0000)
                by (nonlinear_arith)
                requires
                    m >= 0,
            ;
        }
        Packet { header: Header { len }, payload }
    }

    /// The packet in which the server sends `payload`: its length field
    /// counts the payload alone, modulo 2^32.
    pub fn for_response(payload: Vec<u8>) -> (p: Packet)
        ensures
            p.header.len as int == payload@.len() % 0x1_0000_0000,
            p.payload@ == payload@,
    {
        let len = wire_len(payload.len());
        Packet { header: Header { len }, payload }
    }
}

enum State {
    Len,
    Payload,
    Completed,
}

fn deque_of(buf: Vec<u8>) -> (r: VecDeque<u8>)
    ensures
        r@ == buf@,
{
    let mut d: VecDeque<u8> = VecDeque::new();
    let mut i: usize = 0;
    while i < buf.len()
        invariant
            i <= buf@.len(),
            d@ == buf@.take(i as int),
        decreases buf@.len() - i,
    {
        d.push_back(buf[i]);
        i = i + 1;
        assert(buf@.take(i as int) =~= buf@.take(i - 1).push(buf@[i - 1]));
    }
    assert(buf@.take(i as int) =~= buf@);
    d
}

/// Reads a packet from a buffer: the first four bytes are the length field,
/// most significant first, and every byte after them is the payload (the
/// length field is carried, not checked against the payload). A buffer of
/// fewer than four bytes is refused.
pub fn parse(buf: Vec<u8>) -> (r: Result<Packet, ()>)
    ensures
        r is Err <==> buf@.len() < 4,
        r matches Ok(p) ==> decode(buf@) == Some(p@),
        r matches Ok(p) ==> p.payload@ == buf@.skip(4),
        r matches Ok(p) ==> p.header.len as int == buf@[0] as int * 0x100_0000 + buf@[1] as int
            * 0x1_0000 + buf@[2] as int * 0x100 + buf@[3] as int,
{
    proof {
        lemma_decode_layout(buf@);
    }
    let ghost input = buf@;
    let mut queue = deque_of(buf);
    let mut state = State::Len;
    let mut count: usize = core::mem::size_of::<u32>();
    let mut len: u32 = 0;
    let mut payload: Vec<u8> = Vec::new();

    loop
        invariant_except_break
            input == buf@,
            count <= 4,
            state is Len ==> {
                &&& 1 <= count
                &&& input.len() >= 4 - count
                &&& queue@ == input.skip(4 - count)
                &&& len as nat == be_value(input.take(4 - count))
                &&& payload@.len() == 0
            },
            !(state is Len) ==> {
                &&& count == 0
                &&& input.len() >= 4
                &&& len as nat == be_value(input.take(4))
                &&& payload@ + queue@ == input.skip(4)
            },
            state is Completed ==> queue@.len() == 0,
        ensures
            input.len() >= 4,
            len as nat == be_value(input.take(4)),
            payload@ == input.skip(4),
        decreases queue@.len(), if state is Completed { 0nat } else { 1nat },
    {
        let ghost before_pop = queue@;
        let byte = queue.pop_front();
        match state {
            State::Len => {
                let byte = match byte {
                    Some(byte) => byte,
                    None => {
                        assert(before_pop.len() == 0);
                        assert(input.skip(4 - count).len() == input.len() - (4 - count));
                        assert(input.len() < 4);
                        return Err(());
                    },
                };
                let ghost k = (4 - count) as int;
                proof {
                    lemma_be_value_below(input.take(k));
                    assert(input.take(k + 1).drop_last() =~= input.take(k));
                    assert(input.skip(k) =~= seq![input[k]] + input.skip(k + 1));
                }
                assert(len * 256 + byte <= u32::MAX);
                let ghost old_len = len;
                len = (len << 8u32) | (byte as u32);
                assert(len == old_len * 256 + byte) by (bit_vector)
                    requires
                        old_len < 0x100_0000,
                        len == (old_len << 8u32) | (byte as u32),
                ;
                count = count - 1;
                if count == 0 {
                    state = State::Payload;
                    assert(input.skip(4) == queue@);
                }
            },
            State::Payload => {
                match byte {
                    Some(byte) => {
                        let ghost before = payload@;
                        payload.push(byte);
                        assert(before_pop =~= seq![byte] + queue@);
                        assert(payload@ + queue@ =~= before + before_pop);
                    },
                    None => state = State::Completed,
                };
            },
            State::Completed => {
                assert(payload@ =~= input.skip(4));
                break;
            },
        };
    }
    Ok(Packet { header: Header { len }, payload })
}

} // verus!
