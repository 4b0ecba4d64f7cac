use vstd::prelude::*;

verus! {

/// `256` to the power `w`: one more than the largest value that `w` bytes hold.
pub open spec fn pow256(w: nat) -> nat
    decreases w,
{
    if w == 0 {
        1
    } else {
        256 * pow256((w - 1) as nat)
    }
}

/// The low `w` bytes of `v`, least significant first.
pub open spec fn le_bytes(v: nat, w: nat) -> Seq<u8>
    decreases w,
{
    if w == 0 {
        seq![]
    } else {
        seq![(v % 256) as u8] + le_bytes(v / 256, (w - 1) as nat)
    }
}

/// The low `w` bytes of `v`, most significant first.
pub open spec fn be_bytes(v: nat, w: nat) -> Seq<u8>
    decreases w,
{
    if w == 0 {
        seq![]
    } else {
        be_bytes(v / 256, (w - 1) as nat) + seq![(v % 256) as u8]
    }
}

/// The number that `b` holds, least significant byte first.
pub open spec fn le_value(b: Seq<u8>) -> nat
    decreases b.len(),
{
    if b.len() == 0 {
        0
    } else {
        b[0] as nat + 256 * le_value(b.drop_first())
    }
}

/// The number that `b` holds, most significant byte first.
pub open spec fn be_value(b: Seq<u8>) -> nat
    decreases b.len(),
{
    if b.len() == 0 {
        0
    } else {
        be_value(b.drop_last()) * 256 + b.last() as nat
    }
}

/// The unsigned number whose low `w` bytes are the two's complement bytes of `v`.
pub open spec fn unsigned_of(v: int, w: nat) -> nat {
    if v < 0 {
        (v + pow256(w)) as nat
    } else {
        v as nat
    }
}

/// The signed number whose two's complement form in `w` bytes is `u`.
pub open spec fn signed_of(u: nat, w: nat) -> int {
    if 2 * u >= pow256(w) {
        u - pow256(w)
    } else {
        u as int
    }
}

/// The order of the bytes of every number of a document.
/// Java Edition uses big endian and Bedrock Edition uses little endian.
#[derive(Debug, Copy, Clone, PartialEq, Eq, Structural)]
pub enum ByteOrder {
    BigEndian,
    LittleEndian,
}

impl ByteOrder {
    /// The `w` bytes that stand for `v` on the wire.
    pub open spec fn spec_bytes(self, v: nat, w: nat) -> Seq<u8> {
        match self {
            ByteOrder::BigEndian => be_bytes(v, w),
            ByteOrder::LittleEndian => le_bytes(v, w),
        }
    }

    /// The number that the bytes `b` stand for on the wire.
    pub open spec fn spec_value(self, b: Seq<u8>) -> nat {
        match self {
            ByteOrder::BigEndian => be_value(b),
            ByteOrder::LittleEndian => le_value(b),
        }
    }

    /// Returns the low `width` bytes of `value` in this byte order.
    pub fn bytes(&self, value: u64, width: usize) -> (r: Vec<u8>)
        ensures
            r@ == self.spec_bytes(value as nat, width as nat),
    {
        let mut buf: Vec<u8> = Vec::new();
        self.write(&mut buf, value, width);
        proof {
            assert(buf@ =~= self.spec_bytes(value as nat, width as nat));
        }
        buf
    }

    /// Appends the low `width` bytes of `value` in this byte order to `buf`.
    pub fn write(&self, buf: &mut Vec<u8>, value: u64, width: usize)
        ensures
            final(buf)@ == old(buf)@ + self.spec_bytes(value as nat, width as nat),
    {
        match self {
            ByteOrder::BigEndian => write_be(buf, value, width),
            ByteOrder::LittleEndian => write_le(buf, value, width),
        }
    }

    /// Reads the number that the `width` bytes of `b` from `pos` on stand for.
    pub fn read(&self, b: &[u8], pos: usize, width: usize) -> (r: u64)
        requires
            pos + width <= b@.len(),
            width <= 8,
        ensures
            r as nat == self.spec_value(b@.subrange(pos as int, pos + width)),
            r < pow256(width as nat),
    {
        proof {
            lemma_le_value_bound(b@.subrange(pos as int, pos + width));
            lemma_be_value_bound(b@.subrange(pos as int, pos + width));
        }
        match self {
            ByteOrder::BigEndian => read_be(b, pos, width),
            ByteOrder::LittleEndian => read_le(b, pos, width),
        }
    }
}

fn write_le(buf: &mut Vec<u8>, v: u64, w: usize)
    ensures
        final(buf)@ == old(buf)@ + le_bytes(v as nat, w as nat),
    decreases w,
{
    if w > 0 {
        buf.push((v % 256) as u8);
        write_le(buf, v / 256, w - 1);
        proof {
            assert(final(buf)@ =~= old(buf)@ + le_bytes(v as nat, w as nat));
        }
    } else {
        proof {
            assert(final(buf)@ =~= old(buf)@ + le_bytes(v as nat, w as nat));
        }
    }
}

fn write_be(buf: &mut Vec<u8>, v: u64, w: usize)
    ensures
        final(buf)@ == old(buf)@ + be_bytes(v as nat, w as nat),
    decreases w,
{
    if w > 0 {
        write_be(buf, v / 256, w - 1);
        buf.push((v % 256) as u8);
        proof {
            assert(final(buf)@ =~= old(buf)@ + be_bytes(v as nat, w as nat));
        }
    } else {
        proof {
            assert(final(buf)@ =~= old(buf)@ + be_bytes(v as nat, w as nat));
        }
    }
}

fn read_le(b: &[u8], pos: usize, w: usize) -> (r: u64)
    requires
        pos + w <= b@.len(),
        w <= 8,
    ensures
        r as nat == le_value(b@.subrange(pos as int, pos + w)),
    decreases w,
{
    let ghost s = b@.subrange(pos as int, pos + w);
    let n = b.len();
    if w == 0 {
        0
    } else {
        let rest = read_le(b, pos + 1, w - 1);
        proof {
            assert(s.drop_first() =~= b@.subrange(pos + 1, pos + w));
            lemma_le_value_bound(s.drop_first());
            lemma_pow256_mono((w - 1) as nat, 7);
            lemma_pow256_values();
        }
        b[pos] as u64 + 256 * rest
    }
}

fn read_be(b: &[u8], pos: usize, w: usize) -> (r: u64)
    requires
        pos + w <= b@.len(),
        w <= 8,
    ensures
        r as nat == be_value(b@.subrange(pos as int, pos + w)),
    decreases w,
{
    let ghost s = b@.subrange(pos as int, pos + w);
    let n = b.len();
    if w == 0 {
        0
    } else {
        let high = read_be(b, pos, w - 1);
        proof {
            assert(s.drop_last() =~= b@.subrange(pos as int, pos + w - 1));
            lemma_be_value_bound(s.drop_last());
            lemma_pow256_mono((w - 1) as nat, 7);
            lemma_pow256_values();
        }
        high * 256 + b[pos + w - 1] as u64
    }
}

/// The powers of 256 that the wire format uses.
pub proof fn lemma_pow256_values()
    ensures
        pow256(0) == 1,
        pow256(1) == 0x100,
        pow256(2) == 0x1_0000,
        pow256(4) == 0x1_0000_0000,
        pow256(7) == 0x100_0000_0000_0000,
        pow256(8) == 0x1_0000_0000_0000_0000,
{
    reveal_with_fuel(pow256, 9);
}

pub proof fn lemma_pow256_mono(a: nat, b: nat)
    requires
        a <= b,
    ensures
        pow256(a) <= pow256(b),
        pow256(a) >= 1,
    decreases b,
{
    if b > 0 {
        if a < b {
            lemma_pow256_mono(a, (b - 1) as nat);
        } else {
            lemma_pow256_mono((a - 1) as nat, (b - 1) as nat);
        }
    }
}

pub proof fn lemma_le_value_bound(b: Seq<u8>)
    ensures
        le_value(b) < pow256(b.len()),
    decreases b.len(),
{
    if b.len() > 0 {
        lemma_le_value_bound(b.drop_first());
        let r = le_value(b.drop_first());
        let p = pow256((b.len() - 1) as nat);
        assert(b[0] as nat + 256 * r < 256 * p) by (nonlinear_arith)
            requires
                r < p,
                b[0] < 256,
        ;
    }
}

pub proof fn lemma_be_value_bound(b: Seq<u8>)
    ensures
        be_value(b) < pow256(b.len()),
    decreases b.len(),
{
    if b.len() > 0 {
        lemma_be_value_bound(b.drop_last());
        let r = be_value(b.drop_last());
        let p = pow256((b.len() - 1) as nat);
        assert(r * 256 + b.last() < 256 * p) by (nonlinear_arith)
            requires
                r < p,
                b.last() < 256,
        ;
    }
}

/// Reading back the bytes of a number that fits gives the number, in either order.
pub proof fn lemma_bytes_round_trip(o: ByteOrder, v: nat, w: nat)
    requires
        v < pow256(w),
    ensures
        o.spec_bytes(v, w).len() == w,
        o.spec_value(o.spec_bytes(v, w)) == v,
    decreases w,
{
    if w > 0 {
        let p = pow256((w - 1) as nat);
        assert(v / 256 < p) by (nonlinear_arith)
            requires
                v < 256 * p,
        ;
        lemma_bytes_round_trip(o, v / 256, (w - 1) as nat);
        match o {
            ByteOrder::BigEndian => {
                let s = be_bytes(v, w);
                assert(s.drop_last() =~= be_bytes(v / 256, (w - 1) as nat));
            },
            ByteOrder::LittleEndian => {
                let s = le_bytes(v, w);
                assert(s.drop_first() =~= le_bytes(v / 256, (w - 1) as nat));
            },
        }
    } else {
        assert(v == 0);
    }
}

} // verus!
