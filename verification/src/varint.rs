//! The variable-length integers of the status protocol: seven bits per byte,
//! least significant group first, the high bit set on every byte but the last.
use vstd::prelude::*;

verus! {

/// The encoding of `v`.
pub open spec fn varint(v: nat) -> Seq<u8>
    decreases v,
{
    if v < 128 {
        seq![v as u8]
    } else {
        seq![(v % 128 + 128) as u8] + varint(v / 128)
    }
}

/// The seven value bits of a byte.
pub open spec fn low7(b: u8) -> nat {
    (b % 128) as nat
}

/// The value that the bytes `s`, all but possibly the last with the high
/// bit set, add up to in sixteen bits.
pub open spec fn partial_value(s: Seq<u8>) -> nat {
    if s.len() == 0 {
        0
    } else if s.len() == 1 {
        low7(s[0])
    } else if s.len() == 2 {
        low7(s[0]) + low7(s[1]) * 128
    } else {
        (low7(s[0]) + low7(s[1]) * 128 + low7(s[2]) * 16384) % 65536
    }
}

/// The value and length of the varint at the start of `bytes`, when one of
/// at most three bytes ends there. Bits beyond the sixteenth are dropped.
pub open spec fn varint_read(bytes: Seq<u8>) -> Option<(u16, nat)> {
    if bytes.len() >= 1 && bytes[0] < 128 {
        Some((partial_value(bytes.take(1)) as u16, 1))
    } else if bytes.len() >= 2 && bytes[1] < 128 {
        Some((partial_value(bytes.take(2)) as u16, 2))
    } else if bytes.len() >= 3 && bytes[2] < 128 {
        Some((partial_value(bytes.take(3)) as u16, 3))
    } else {
        None
    }
}

/// The encoding of a 16-bit number takes one to three bytes; every byte
/// but the last has its high bit set.
pub proof fn lemma_varint_shape(v: u16)
    ensures
        1 <= varint(v as nat).len() <= 3,
        varint(v as nat).len() == (if v < 128 {
            1int
        } else if v < 16384 {
            2int
        } else {
            3int
        }),
        varint(v as nat).last() < 128,
        forall|i: int| 0 <= i < varint(v as nat).len() - 1 ==> #[trigger] varint(v as nat)[i] >= 128,
{
    let n = v as nat;
    if n < 128 {
        assert(varint(n) == seq![n as u8]);
    } else if n < 16384 {
        assert(varint(n / 128) == seq![(n / 128) as u8]);
        assert(varint(n) == seq![(n % 128 + 128) as u8] + seq![(n / 128) as u8]);
    } else {
        let m = n / 128;
        assert(m >= 128);
        assert(m / 128 < 128);
        assert(varint(m / 128) == seq![(m / 128) as u8]);
        assert(varint(m) == seq![(m % 128 + 128) as u8] + seq![(m / 128) as u8]);
        assert(varint(n) == seq![(n % 128 + 128) as u8] + varint(m));
        assert(varint(n) == seq![(n % 128 + 128) as u8, (m % 128 + 128) as u8, (m / 128) as u8]);
    }
}

/// Reading back the encoding of a 16-bit number gives the number and the
/// length of the encoding, whatever follows it.
pub proof fn lemma_varint_roundtrip(v: u16, rest: Seq<u8>)
    ensures
        varint_read(varint(v as nat) + rest) == Some((v, varint(v as nat).len())),
{
    lemma_varint_shape(v);
    let n = v as nat;
    let e = varint(n);
    let s = e + rest;
    if n < 128 {
        assert(s[0] == v as u8);
        assert(s.take(1) == seq![v as u8]);
    } else if n < 16384 {
        assert(varint(n / 128) == seq![(n / 128) as u8]);
        assert(s[0] == (n % 128 + 128) as u8);
        assert(s[1] == (n / 128) as u8);
        assert(s.take(2) == seq![(n % 128 + 128) as u8, (n / 128) as u8]);
        assert(n == n % 128 + (n / 128) * 128);
    } else {
        let m = n / 128;
        assert(varint(m / 128) == seq![(m / 128) as u8]);
        assert(varint(m) == seq![(m % 128 + 128) as u8] + seq![(m / 128) as u8]);
        assert(s[0] == (n % 128 + 128) as u8);
        assert(s[1] == (m % 128 + 128) as u8);
        assert(s[2] == (m / 128) as u8);
        assert(s.take(3) == seq![(n % 128 + 128) as u8, (m % 128 + 128) as u8, (m / 128) as u8]);
        assert(n == n % 128 + (m % 128) * 128 + (m / 128) * 16384);
    }
}

/// Encodes `value` as a varint.
pub fn write_varint(value: u16) -> (res: Vec<u8>)
    ensures
        res@ == varint(value as nat),
{
    let mut result: Vec<u8> = Vec::new();
    let mut val: u16 = value;
    while val >= 128
        invariant
            result@ + varint(val as nat) == varint(value as nat),
        decreases val,
    {
        let byte: u8 = ((val & 0x7F) as u8) | 0x80;
        assert(((val & 0x7F) as u8) | 0x80 == (val % 128 + 128) as u8) by (bit_vector);
        assert(val >> 7 == val / 128) by (bit_vector);
        let ghost before = result@;
        result.push(byte);
        assert(varint(val as nat) == seq![byte] + varint((val / 128) as nat));
        assert(before + varint(val as nat) == result@ + varint((val / 128) as nat));
        val = val >> 7;
    }
    let ghost before = result@;
    result.push(val as u8);
    assert(varint(val as nat) == seq![val as u8]);
    assert(result@ == before + varint(val as nat));
    result
}

/// What one byte fed to a [`VarintReader`] leads to.
#[derive(Debug, PartialEq, Eq, Structural)]
pub enum VarintStep {
    /// The varint goes on: read another byte.
    More,
    /// The varint ended with this byte and has this value.
    Done(u16),
    /// A fourth byte came: the varint is longer than sixteen bits allow.
    TooLong,
}

/// Decodes a varint one byte at a time, as the bytes arrive.
pub struct VarintReader {
    value: u16,
    count: u8,
    seen: Ghost<Seq<u8>>,
}

impl VarintReader {
    #[verifier::type_invariant]
    spec fn well_formed(self) -> bool {
        &&& self.count as nat == self.seen@.len()
        &&& self.count <= 3
        &&& self.value as nat == partial_value(self.seen@)
        &&& forall|i: int| 0 <= i < self.seen@.len() ==> #[trigger] self.seen@[i] >= 128
    }

    /// The bytes of the varint in progress.
    pub closed spec fn bytes(self) -> Seq<u8> {
        self.seen@
    }
}

impl View for VarintReader {
    type V = Seq<u8>;

    open spec fn view(&self) -> Seq<u8> {
        self.bytes()
    }
}

proof fn lemma_feed_value(old_value: u16, count: u8, byte: u8, seen: Seq<u8>, new_value: u16)
    requires
        count <= 2,
        seen.len() == count as nat,
        old_value as nat == partial_value(seen),
        new_value == old_value | (((byte & 0x7F) as u16) << (7 * count as u16)),
    ensures
        new_value as nat == partial_value(seen.push(byte)),
{
    let s = seen.push(byte);
    let value: u16 = (byte & 0x7F) as u16;
    assert((byte & 0x7F) as u16 == byte % 128) by (bit_vector);
    assert(s[s.len() - 1] == byte);
    if count == 0 {
        assert(new_value == value) by (bit_vector)
            requires
                count == 0,
                old_value == 0,
                new_value == old_value | (((byte & 0x7F) as u16) << (7 * count as u16)),
                value == (byte & 0x7F) as u16,
        ;
    } else if count == 1 {
        assert(s[0] == seen[0]);
        assert(old_value < 128);
        assert(new_value == old_value + value * 128) by (bit_vector)
            requires
                count == 1,
                old_value < 128,
                new_value == old_value | (((byte & 0x7F) as u16) << (7 * count as u16)),
                value == (byte & 0x7F) as u16,
        ;
    } else {
        assert(s[0] == seen[0]);
        assert(s[1] == seen[1]);
        assert(old_value < 16384);
        assert(new_value == (old_value as nat + value as nat * 16384) % 65536) by (bit_vector)
            requires
                count == 2,
                old_value < 16384,
                new_value == old_value | (((byte & 0x7F) as u16) << (7 * count as u16)),
                value == (byte & 0x7F) as u16,
        ;
    }
}

impl VarintReader {
    /// A reader that has seen no byte yet.
    pub fn new() -> (res: Self)
        ensures
            res@ == Seq::<u8>::empty(),
    {
        VarintReader { value: 0, count: 0, seen: Ghost(Seq::empty()) }
    }

    /// Takes the next byte. When the varint ends, or turns out too long,
    /// the reader starts over for the next one.
    pub fn feed(&mut self, byte: u8) -> (res: VarintStep)
        ensures
            old(self)@.len() <= 3,
            old(self)@.len() < 3 && byte < 128 ==> {
                &&& res matches VarintStep::Done(v) && varint_read(old(self)@.push(byte)) == Some(
                    (v, (old(self)@.len() + 1) as nat),
                )
                &&& final(self)@ == Seq::<u8>::empty()
            },
            old(self)@.len() < 3 && byte >= 128 ==> {
                &&& res == VarintStep::More
                &&& final(self)@ == old(self)@.push(byte)
                &&& varint_read(final(self)@) is None
            },
            old(self)@.len() == 3 ==> res == VarintStep::TooLong && final(self)@ == Seq::<
                u8,
            >::empty(),
    {
        proof {
            use_type_invariant(&*self);
        }
        if self.count == 3 {
            *self = VarintReader::new();
            return VarintStep::TooLong;
        }
        let ghost s = self.seen@.push(byte);
        let old_value = self.value;
        let count = self.count;
        let value: u16 = (byte & 0x7F) as u16;
        let shifted: u16 = value << (7 * count as u16);
        let new_value: u16 = old_value | shifted;
        proof {
            lemma_feed_value(old_value, count, byte, self.seen@, new_value);
        }
        if byte & 0x80 == 0 {
            assert(byte & 0x80 == 0 ==> byte < 128) by (bit_vector);
            *self = VarintReader::new();
            VarintStep::Done(new_value)
        } else {
            assert(byte & 0x80 != 0 ==> byte >= 128) by (bit_vector);
            *self = VarintReader { value: new_value, count: count + 1, seen: Ghost(s) };
            VarintStep::More
        }
    }
}

/// Feeding the encoding of a 16-bit number to a fresh reader asks for more
/// on every byte but the last, and on the last gives back the number.
pub proof fn lemma_varint_feed(v: u16, i: int)
    requires
        0 <= i < varint(v as nat).len(),
    ensures
        i < varint(v as nat).len() - 1 ==> varint(v as nat)[i] >= 128 && varint_read(
            varint(v as nat).take(i + 1),
        ) is None,
        i == varint(v as nat).len() - 1 ==> varint(v as nat)[i] < 128 && varint_read(
            varint(v as nat).take(i + 1),
        ) == Some((v, (i + 1) as nat)),
{
    let e = varint(v as nat);
    lemma_varint_shape(v);
    lemma_varint_roundtrip(v, Seq::<u8>::empty());
    assert(e + Seq::<u8>::empty() == e);
    assert(e.take(e.len() as int) == e);
    if i < e.len() - 1 {
        let t = e.take(i + 1);
        assert forall|j: int| 0 <= j < t.len() implies t[j] >= 128 by {
            assert(t[j] == e[j]);
        }
    } else {
        assert(e[e.len() - 1] == e.last());
    }
}

} // verus!
