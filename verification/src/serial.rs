//! Binary wire codec: little-endian integers, variable-length integers,
//! length-prefixed byte strings, and the `Encodable` / `Decodable` traits
//! every wire message implements.
//!
//! Every encoder appends to a byte vector; every decoder reads from a byte
//! slice at a cursor position. The byte-level meaning of each type is given
//! by a spec function (`enc`, `dec`), and decoding is proved to invert
//! encoding.

use vstd::prelude::*;

use crate::error::Error;

verus! {

// ---------------------------------------------------------------------------
// Little-endian byte strings
// ---------------------------------------------------------------------------

/// 256 raised to `n`: the number of values an `n`-byte string can hold.
pub open spec fn pow256(n: nat) -> int
    decreases n,
{
    if n == 0 {
        1
    } else {
        256 * pow256((n - 1) as nat)
    }
}

/// The `n`-byte little-endian string of `v` (modulo `256^n`).
pub open spec fn le_bytes(v: int, n: nat) -> Seq<u8>
    decreases n,
{
    if n == 0 {
        Seq::empty()
    } else {
        seq![(v % 256) as u8] + le_bytes(v / 256, (n - 1) as nat)
    }
}

/// The value of a little-endian byte string.
pub open spec fn le_value(b: Seq<u8>) -> int
    decreases b.len(),
{
    if b.len() == 0 {
        0
    } else {
        b[0] + 256 * le_value(b.drop_first())
    }
}

pub proof fn lemma_pow256_values()
    ensures
        pow256(0) == 1,
        pow256(1) == 0x100,
        pow256(2) == 0x10000,
        pow256(3) == 0x1000000,
        pow256(4) == 0x100000000,
        pow256(5) == 0x10000000000,
        pow256(6) == 0x1000000000000,
        pow256(7) == 0x100000000000000,
        pow256(8) == 0x10000000000000000,
{
    reveal_with_fuel(pow256, 9);
}

pub proof fn lemma_pow256_monotone(a: nat, b: nat)
    requires
        a <= b,
    ensures
        pow256(a) <= pow256(b),
    decreases b,
{
    if a < b {
        lemma_pow256_monotone(a, (b - 1) as nat);
        lemma_pow256_positive((b - 1) as nat);
    }
}

pub proof fn lemma_pow256_positive(n: nat)
    ensures
        pow256(n) >= 1,
    decreases n,
{
    if n > 0 {
        lemma_pow256_positive((n - 1) as nat);
    }
}

pub proof fn lemma_le_bytes_len(v: int, n: nat)
    ensures
        le_bytes(v, n).len() == n,
    decreases n,
{
    if n > 0 {
        lemma_le_bytes_len(v / 256, (n - 1) as nat);
    }
}

pub proof fn lemma_le_value_bound(b: Seq<u8>)
    ensures
        0 <= le_value(b) < pow256(b.len()),
    decreases b.len(),
{
    if b.len() == 0 {
    } else {
        lemma_le_value_bound(b.drop_first());
        lemma_pow256_positive((b.len() - 1) as nat);
    }
}

/// Reading back the little-endian string of `v` yields `v` again.
pub proof fn lemma_le_round_trip(v: int, n: nat)
    requires
        0 <= v < pow256(n),
    ensures
        le_value(le_bytes(v, n)) == v,
    decreases n,
{
    if n > 0 {
        lemma_le_bytes_len(v / 256, (n - 1) as nat);
        assert(le_bytes(v, n).drop_first() =~= le_bytes(v / 256, (n - 1) as nat));
        assert(v / 256 < pow256((n - 1) as nat) && v / 256 >= 0) by (nonlinear_arith)
            requires
                0 <= v < 256 * pow256((n - 1) as nat),
        ;
        lemma_le_round_trip(v / 256, (n - 1) as nat);
        assert(v % 256 + 256 * (v / 256) == v) by (nonlinear_arith);
    }
}

/// Appends the `n`-byte little-endian string of `v`.
fn write_le(s: &mut Vec<u8>, v: u64, n: usize)
    ensures
        final(s)@ == old(s)@ + le_bytes(v as int, n as nat),
{
    let ghost base = s@;
    let mut x = v;
    let mut i: usize = 0;
    while i < n
        invariant
            i <= n,
            s@.len() == base.len() + i,
            s@.subrange(0, base.len() as int) == base,
            s@.skip(base.len() as int) + le_bytes(x as int, (n - i) as nat) == le_bytes(
                v as int,
                n as nat,
            ),
        decreases n - i,
    {
        let ghost before = s@;
        s.push((x % 256) as u8);
        proof {
            assert(s@.subrange(0, base.len() as int) =~= base);
            assert(le_bytes(x as int, (n - i) as nat) == seq![(x as int % 256) as u8] + le_bytes(
                x as int / 256,
                (n - i - 1) as nat,
            ));
            assert((x % 256) as u8 == (x as int % 256) as u8);
            assert((x / 256) as int == x as int / 256);
            assert(s@.skip(base.len() as int) =~= before.skip(base.len() as int) + seq![
                (x % 256) as u8,
            ]);
            assert(s@.skip(base.len() as int) + le_bytes(x as int / 256, (n - i - 1) as nat) =~= (
            before.skip(base.len() as int) + le_bytes(x as int, (n - i) as nat)));
        }
        x = x / 256;
        i = i + 1;
    }
    proof {
        assert(s@.skip(base.len() as int) + le_bytes(x as int, 0) =~= s@.skip(base.len() as int));
        assert(s@ =~= base + s@.skip(base.len() as int));
    }
}

/// Reads the value of the `n` bytes at `pos` as a little-endian integer.
fn read_le(data: &[u8], pos: usize, n: usize) -> (r: u64)
    requires
        pos + n <= data@.len(),
        n <= 8,
    ensures
        r as int == le_value(data@.subrange(pos as int, (pos + n) as int)),
        r < pow256(n as nat),
{
    let dlen = data.len();
    let mut r: u64 = 0;
    let mut j = n;
    while j > 0
        invariant
            j <= n,
            n <= 8,
            pos + n <= dlen,
            dlen == data@.len(),
            r as int == le_value(data@.subrange((pos + j) as int, (pos + n) as int)),
            r < pow256((n - j) as nat),
        decreases j,
    {
        j = j - 1;
        let b = *vstd::slice::slice_index_get(data, pos + j);
        proof {
            lemma_pow256_values();
            lemma_pow256_monotone((n - j - 1) as nat, 7);
            let tail = data@.subrange((pos + j + 1) as int, (pos + n) as int);
            let whole = data@.subrange((pos + j) as int, (pos + n) as int);
            assert(whole.drop_first() =~= tail);
            assert(whole[0] == data@[(pos + j) as int]);
        }
        r = r * 256 + (b as u64);
    }
    proof {
        lemma_le_value_bound(data@.subrange(pos as int, (pos + n) as int));
    }
    r
}

// ---------------------------------------------------------------------------
// The codec traits
// ---------------------------------------------------------------------------

/// Data with a canonical byte encoding.
pub trait Encodable {
    /// The byte string this value encodes to.
    spec fn enc(&self) -> Seq<u8>;

    /// Whether the value is small enough to encode on this machine. Real
    /// (runtime) values always are; the bound matters only for spec values.
    spec fn enc_fits(&self) -> bool;

    /// Appends the encoding of `self` and returns the number of bytes added.
    fn encode(&self, s: &mut Vec<u8>) -> (n: usize)
        ensures
            final(s)@ == old(s)@ + self.enc(),
            n == self.enc().len(),
    ;
}

/// Data whose byte encoding can be read back. A decoded value is pinned down
/// by its deep view (for plain types the value itself; for strings and
/// vectors their abstract contents).
pub trait Decodable: Encodable + DeepView + Sized {
    /// The decoder, as a function of the input bytes: the (abstract) value
    /// read and the number of bytes it occupied, or the reason the input is
    /// rejected.
    spec fn dec(data: Seq<u8>) -> Result<(Self::V, int), Error>;

    /// Reads one value from `data` beginning at `pos`; returns the value and
    /// the position just past it.
    fn decode(data: &[u8], pos: usize) -> (r: Result<(Self, usize), Error>)
        requires
            pos <= data@.len(),
        ensures
            match r {
                Ok((v, end)) => pos <= end <= data@.len() && Self::dec(data@.skip(pos as int))
                    == Ok::<(Self::V, int), Error>((v.deep_view(), end - pos)),
                Err(e) => Self::dec(data@.skip(pos as int)) == Err::<(Self::V, int), Error>(e),
            },
    ;

    /// Decoding inverts encoding: reading a value's encoding (with anything
    /// after it) yields the value and consumes exactly its encoding.
    proof fn lemma_enc_dec(v: Self, rest: Seq<u8>)
        requires
            v.enc_fits(),
        ensures
            Self::dec(v.enc() + rest) == Ok::<(Self::V, int), Error>((
                v.deep_view(),
                v.enc().len() as int,
            )),
    ;
}

// ---------------------------------------------------------------------------
// Unsigned integers
// ---------------------------------------------------------------------------

/// Shared decoder shape for fixed-width little-endian integers.
pub open spec fn uint_dec(data: Seq<u8>, width: nat) -> Result<(int, int), Error> {
    if data.len() >= width {
        Ok((le_value(data.subrange(0, width as int)), width as int))
    } else {
        Err(Error::Io)
    }
}

/// Reads a fixed-width little-endian integer at `pos`, mirroring `uint_dec`.
fn decode_uint(data: &[u8], pos: usize, width: usize) -> (r: Result<(u64, usize), Error>)
    requires
        pos <= data@.len(),
        1 <= width <= 8,
    ensures
        match r {
            Ok((v, end)) => pos <= end <= data@.len() && uint_dec(
                data@.skip(pos as int),
                width as nat,
            ) == Ok::<(int, int), Error>((v as int, end - pos)),
            Err(e) => uint_dec(data@.skip(pos as int), width as nat) == Err::<(int, int), Error>(e),
        },
{
    if data.len() - pos >= width {
        let x = read_le(data, pos, width);
        proof {
            assert(data@.skip(pos as int).subrange(0, width as int) =~= data@.subrange(
                pos as int,
                (pos + width) as int,
            ));
        }
        Ok((x, pos + width))
    } else {
        Err(Error::Io)
    }
}

/// Round trip of the shared fixed-width decoder.
proof fn lemma_uint_enc_dec(v: int, width: nat, rest: Seq<u8>)
    requires
        0 <= v < pow256(width),
    ensures
        uint_dec(le_bytes(v, width) + rest, width) == Ok::<(int, int), Error>((v, width as int)),
{
    lemma_le_bytes_len(v, width);
    assert((le_bytes(v, width) + rest).subrange(0, width as int) =~= le_bytes(v, width));
    lemma_le_round_trip(v, width);
}

impl Encodable for u8 {
    open spec fn enc(&self) -> Seq<u8> {
        seq![*self]
    }

    open spec fn enc_fits(&self) -> bool {
        true
    }

    fn encode(&self, s: &mut Vec<u8>) -> (n: usize) {
        s.push(*self);
        proof {
            assert(s@ =~= old(s)@ + seq![*self]);
        }
        1
    }
}

impl Decodable for u8 {
    open spec fn dec(data: Seq<u8>) -> Result<(Self::V, int), Error> {
        if data.len() >= 1 {
            Ok((data[0], 1))
        } else {
            Err(Error::Io)
        }
    }

    fn decode(data: &[u8], pos: usize) -> (r: Result<(Self, usize), Error>) {
        if data.len() - pos >= 1 {
            let b = *vstd::slice::slice_index_get(data, pos);
            Ok((b, pos + 1))
        } else {
            Err(Error::Io)
        }
    }

    proof fn lemma_enc_dec(v: Self, rest: Seq<u8>) {
        assert((v.enc() + rest)[0] == v);
    }
}

impl Encodable for u16 {
    open spec fn enc(&self) -> Seq<u8> {
        le_bytes(*self as int, 2)
    }

    open spec fn enc_fits(&self) -> bool {
        true
    }

    fn encode(&self, s: &mut Vec<u8>) -> (n: usize) {
        write_le(s, *self as u64, 2);
        proof {
            lemma_le_bytes_len(*self as int, 2);
        }
        2
    }
}

impl Decodable for u16 {
    open spec fn dec(data: Seq<u8>) -> Result<(Self::V, int), Error> {
        match uint_dec(data, 2) {
            Ok((v, k)) => Ok(((v as u16), k)),
            Err(e) => Err(e),
        }
    }

    fn decode(data: &[u8], pos: usize) -> (r: Result<(Self, usize), Error>) {
        match decode_uint(data, pos, 2) {
            Ok((x, end)) => {
                proof {
                    lemma_pow256_values();
                    lemma_le_value_bound(data@.skip(pos as int).subrange(0, 2));
                }
                Ok((x as u16, end))
            },
            Err(e) => Err(e),
        }
    }

    proof fn lemma_enc_dec(v: Self, rest: Seq<u8>) {
        lemma_pow256_values();
        lemma_uint_enc_dec(v as int, 2, rest);
        lemma_le_bytes_len(v as int, 2);
    }
}

impl Encodable for u32 {
    open spec fn enc(&self) -> Seq<u8> {
        le_bytes(*self as int, 4)
    }

    open spec fn enc_fits(&self) -> bool {
        true
    }

    fn encode(&self, s: &mut Vec<u8>) -> (n: usize) {
        write_le(s, *self as u64, 4);
        proof {
            lemma_le_bytes_len(*self as int, 4);
        }
        4
    }
}

impl Decodable for u32 {
    open spec fn dec(data: Seq<u8>) -> Result<(Self::V, int), Error> {
        match uint_dec(data, 4) {
            Ok((v, k)) => Ok(((v as u32), k)),
            Err(e) => Err(e),
        }
    }

    fn decode(data: &[u8], pos: usize) -> (r: Result<(Self, usize), Error>) {
        match decode_uint(data, pos, 4) {
            Ok((x, end)) => {
                proof {
                    lemma_pow256_values();
                    lemma_le_value_bound(data@.skip(pos as int).subrange(0, 4));
                }
                Ok((x as u32, end))
            },
            Err(e) => Err(e),
        }
    }

    proof fn lemma_enc_dec(v: Self, rest: Seq<u8>) {
        lemma_pow256_values();
        lemma_uint_enc_dec(v as int, 4, rest);
        lemma_le_bytes_len(v as int, 4);
    }
}

impl Encodable for u64 {
    open spec fn enc(&self) -> Seq<u8> {
        le_bytes(*self as int, 8)
    }

    open spec fn enc_fits(&self) -> bool {
        true
    }

    fn encode(&self, s: &mut Vec<u8>) -> (n: usize) {
        write_le(s, *self, 8);
        proof {
            lemma_le_bytes_len(*self as int, 8);
        }
        8
    }
}

impl Decodable for u64 {
    open spec fn dec(data: Seq<u8>) -> Result<(Self::V, int), Error> {
        match uint_dec(data, 8) {
            Ok((v, k)) => Ok(((v as u64), k)),
            Err(e) => Err(e),
        }
    }

    fn decode(data: &[u8], pos: usize) -> (r: Result<(Self, usize), Error>) {
        match decode_uint(data, pos, 8) {
            Ok((x, end)) => {
                proof {
                    lemma_pow256_values();
                    lemma_le_value_bound(data@.skip(pos as int).subrange(0, 8));
                }
                Ok((x, end))
            },
            Err(e) => Err(e),
        }
    }

    proof fn lemma_enc_dec(v: Self, rest: Seq<u8>) {
        lemma_pow256_values();
        lemma_uint_enc_dec(v as int, 8, rest);
        lemma_le_bytes_len(v as int, 8);
    }
}

impl Encodable for usize {
    open spec fn enc(&self) -> Seq<u8> {
        le_bytes(*self as int, 8)
    }

    open spec fn enc_fits(&self) -> bool {
        true
    }

    fn encode(&self, s: &mut Vec<u8>) -> (n: usize) {
        write_le(s, *self as u64, 8);
        proof {
            lemma_le_bytes_len(*self as int, 8);
        }
        8
    }
}

impl Decodable for usize {
    open spec fn dec(data: Seq<u8>) -> Result<(Self::V, int), Error> {
        match uint_dec(data, 8) {
            Ok((v, k)) => if v <= usize::MAX as int {
                Ok(((v as usize), k))
            } else {
                Err(Error::ParseFailed)
            },
            Err(e) => Err(e),
        }
    }

    fn decode(data: &[u8], pos: usize) -> (r: Result<(Self, usize), Error>) {
        match decode_uint(data, pos, 8) {
            Ok((x, end)) => {
                if x <= usize::MAX as u64 {
                    Ok((x as usize, end))
                } else {
                    Err(Error::ParseFailed)
                }
            },
            Err(e) => Err(e),
        }
    }

    proof fn lemma_enc_dec(v: Self, rest: Seq<u8>) {
        lemma_pow256_values();
        lemma_pow256_monotone(4, 8);
        lemma_uint_enc_dec(v as int, 8, rest);
        lemma_le_bytes_len(v as int, 8);
    }
}

// ---------------------------------------------------------------------------
// Signed integers (two's complement, little-endian)
// ---------------------------------------------------------------------------

/// The unsigned number whose `width`-byte string encodes the signed value `v`.
pub open spec fn two_complement(v: int, width: nat) -> int {
    if v >= 0 {
        v
    } else {
        v + pow256(width)
    }
}

/// The signed value a `width`-byte unsigned number `x` stands for.
pub open spec fn from_two_complement(x: int, width: nat) -> int {
    if 2 * x < pow256(width) {
        x
    } else {
        x - pow256(width)
    }
}

fn u64_from_i8(v: i8) -> (r: u64)
    ensures
        r as int == if v >= 0 {
            v as int
        } else {
            v as int + 0x100
        },
{
    if v >= 0 {
        v as u64
    } else {
        let t = (v + 0x40) + 0x40;
        (t as u64) + 0x80
    }
}

fn i8_from_u64(x: u64) -> (r: i8)
    requires
        x < 0x100,
    ensures
        r as int == if 2 * x < 0x100 {
            x as int
        } else {
            x as int - 0x100
        },
{
    if x < 0x80 {
        x as i8
    } else {
        let t = (x - 0x80) as i8;
        (t - 0x40) - 0x40
    }
}

fn u64_from_i16(v: i16) -> (r: u64)
    ensures
        r as int == if v >= 0 {
            v as int
        } else {
            v as int + 0x10000
        },
{
    if v >= 0 {
        v as u64
    } else {
        let t = (v + 0x4000) + 0x4000;
        (t as u64) + 0x8000
    }
}

fn i16_from_u64(x: u64) -> (r: i16)
    requires
        x < 0x10000,
    ensures
        r as int == if 2 * x < 0x10000 {
            x as int
        } else {
            x as int - 0x10000
        },
{
    if x < 0x8000 {
        x as i16
    } else {
        let t = (x - 0x8000) as i16;
        (t - 0x4000) - 0x4000
    }
}

fn u64_from_i32(v: i32) -> (r: u64)
    ensures
        r as int == if v >= 0 {
            v as int
        } else {
            v as int + 0x100000000
        },
{
    if v >= 0 {
        v as u64
    } else {
        let t = (v + 0x40000000) + 0x40000000;
        (t as u64) + 0x80000000
    }
}

fn i32_from_u64(x: u64) -> (r: i32)
    requires
        x < 0x100000000,
    ensures
        r as int == if 2 * x < 0x100000000 {
            x as int
        } else {
            x as int - 0x100000000
        },
{
    if x < 0x80000000 {
        x as i32
    } else {
        let t = (x - 0x80000000) as i32;
        (t - 0x40000000) - 0x40000000
    }
}

fn u64_from_i64(v: i64) -> (r: u64)
    ensures
        r as int == if v >= 0 {
            v as int
        } else {
            v as int + 0x10000000000000000
        },
{
    if v >= 0 {
        v as u64
    } else {
        let t = (v + 0x4000000000000000) + 0x4000000000000000;
        (t as u64) + 0x8000000000000000
    }
}

fn i64_from_u64(x: u64) -> (r: i64)
    ensures
        r as int == if 2 * x < 0x10000000000000000 {
            x as int
        } else {
            x as int - 0x10000000000000000
        },
{
    if x < 0x8000000000000000 {
        x as i64
    } else {
        let t = (x - 0x8000000000000000) as i64;
        (t - 0x4000000000000000) - 0x4000000000000000
    }
}

impl Encodable for i8 {
    open spec fn enc(&self) -> Seq<u8> {
        le_bytes(two_complement(*self as int, 1), 1)
    }

    open spec fn enc_fits(&self) -> bool {
        true
    }

    fn encode(&self, s: &mut Vec<u8>) -> (n: usize) {
        let u = u64_from_i8(*self);
        write_le(s, u, 1);
        proof {
            lemma_pow256_values();
            lemma_le_bytes_len(two_complement(*self as int, 1), 1);
        }
        1
    }
}

impl Decodable for i8 {
    open spec fn dec(data: Seq<u8>) -> Result<(Self::V, int), Error> {
        match uint_dec(data, 1) {
            Ok((v, k)) => Ok(((from_two_complement(v, 1) as i8), k)),
            Err(e) => Err(e),
        }
    }

    fn decode(data: &[u8], pos: usize) -> (r: Result<(Self, usize), Error>) {
        match decode_uint(data, pos, 1) {
            Ok((x, end)) => {
                proof {
                    lemma_pow256_values();
                    lemma_le_value_bound(data@.skip(pos as int).subrange(0, 1));
                }
                Ok((i8_from_u64(x), end))
            },
            Err(e) => Err(e),
        }
    }

    proof fn lemma_enc_dec(v: Self, rest: Seq<u8>) {
        lemma_pow256_values();
        lemma_uint_enc_dec(two_complement(v as int, 1), 1, rest);
        lemma_le_bytes_len(two_complement(v as int, 1), 1);
    }
}

impl Encodable for i16 {
    open spec fn enc(&self) -> Seq<u8> {
        le_bytes(two_complement(*self as int, 2), 2)
    }

    open spec fn enc_fits(&self) -> bool {
        true
    }

    fn encode(&self, s: &mut Vec<u8>) -> (n: usize) {
        let u = u64_from_i16(*self);
        write_le(s, u, 2);
        proof {
            lemma_pow256_values();
            lemma_le_bytes_len(two_complement(*self as int, 2), 2);
        }
        2
    }
}

impl Decodable for i16 {
    open spec fn dec(data: Seq<u8>) -> Result<(Self::V, int), Error> {
        match uint_dec(data, 2) {
            Ok((v, k)) => Ok(((from_two_complement(v, 2) as i16), k)),
            Err(e) => Err(e),
        }
    }

    fn decode(data: &[u8], pos: usize) -> (r: Result<(Self, usize), Error>) {
        match decode_uint(data, pos, 2) {
            Ok((x, end)) => {
                proof {
                    lemma_pow256_values();
                    lemma_le_value_bound(data@.skip(pos as int).subrange(0, 2));
                }
                Ok((i16_from_u64(x), end))
            },
            Err(e) => Err(e),
        }
    }

    proof fn lemma_enc_dec(v: Self, rest: Seq<u8>) {
        lemma_pow256_values();
        lemma_uint_enc_dec(two_complement(v as int, 2), 2, rest);
        lemma_le_bytes_len(two_complement(v as int, 2), 2);
    }
}

impl Encodable for i32 {
    open spec fn enc(&self) -> Seq<u8> {
        le_bytes(two_complement(*self as int, 4), 4)
    }

    open spec fn enc_fits(&self) -> bool {
        true
    }

    fn encode(&self, s: &mut Vec<u8>) -> (n: usize) {
        let u = u64_from_i32(*self);
        write_le(s, u, 4);
        proof {
            lemma_pow256_values();
            lemma_le_bytes_len(two_complement(*self as int, 4), 4);
        }
        4
    }
}

impl Decodable for i32 {
    open spec fn dec(data: Seq<u8>) -> Result<(Self::V, int), Error> {
        match uint_dec(data, 4) {
            Ok((v, k)) => Ok(((from_two_complement(v, 4) as i32), k)),
            Err(e) => Err(e),
        }
    }

    fn decode(data: &[u8], pos: usize) -> (r: Result<(Self, usize), Error>) {
        match decode_uint(data, pos, 4) {
            Ok((x, end)) => {
                proof {
                    lemma_pow256_values();
                    lemma_le_value_bound(data@.skip(pos as int).subrange(0, 4));
                }
                Ok((i32_from_u64(x), end))
            },
            Err(e) => Err(e),
        }
    }

    proof fn lemma_enc_dec(v: Self, rest: Seq<u8>) {
        lemma_pow256_values();
        lemma_uint_enc_dec(two_complement(v as int, 4), 4, rest);
        lemma_le_bytes_len(two_complement(v as int, 4), 4);
    }
}

impl Encodable for i64 {
    open spec fn enc(&self) -> Seq<u8> {
        le_bytes(two_complement(*self as int, 8), 8)
    }

    open spec fn enc_fits(&self) -> bool {
        true
    }

    fn encode(&self, s: &mut Vec<u8>) -> (n: usize) {
        let u = u64_from_i64(*self);
        write_le(s, u, 8);
        proof {
            lemma_pow256_values();
            lemma_le_bytes_len(two_complement(*self as int, 8), 8);
        }
        8
    }
}

impl Decodable for i64 {
    open spec fn dec(data: Seq<u8>) -> Result<(Self::V, int), Error> {
        match uint_dec(data, 8) {
            Ok((v, k)) => Ok(((from_two_complement(v, 8) as i64), k)),
            Err(e) => Err(e),
        }
    }

    fn decode(data: &[u8], pos: usize) -> (r: Result<(Self, usize), Error>) {
        match decode_uint(data, pos, 8) {
            Ok((x, end)) => {
                proof {
                    lemma_pow256_values();
                    lemma_le_value_bound(data@.skip(pos as int).subrange(0, 8));
                }
                Ok((i64_from_u64(x), end))
            },
            Err(e) => Err(e),
        }
    }

    proof fn lemma_enc_dec(v: Self, rest: Seq<u8>) {
        lemma_pow256_values();
        lemma_uint_enc_dec(two_complement(v as int, 8), 8, rest);
        lemma_le_bytes_len(two_complement(v as int, 8), 8);
    }
}

// ---------------------------------------------------------------------------
// Booleans
// ---------------------------------------------------------------------------

impl Encodable for bool {
    open spec fn enc(&self) -> Seq<u8> {
        seq![if *self { 1u8 } else { 0u8 }]
    }

    open spec fn enc_fits(&self) -> bool {
        true
    }

    fn encode(&self, s: &mut Vec<u8>) -> (n: usize) {
        s.push(if *self { 1u8 } else { 0u8 });
        proof {
            assert(s@ =~= old(s)@ + self.enc());
        }
        1
    }
}

impl Decodable for bool {
    open spec fn dec(data: Seq<u8>) -> Result<(Self::V, int), Error> {
        if data.len() >= 1 {
            Ok((data[0] != 0, 1))
        } else {
            Err(Error::Io)
        }
    }

    fn decode(data: &[u8], pos: usize) -> (r: Result<(Self, usize), Error>) {
        if data.len() - pos >= 1 {
            let b = *vstd::slice::slice_index_get(data, pos);
            Ok((b != 0, pos + 1))
        } else {
            Err(Error::Io)
        }
    }

    proof fn lemma_enc_dec(v: Self, rest: Seq<u8>) {
        assert((v.enc() + rest)[0] == if v { 1u8 } else { 0u8 });
    }
}

// ---------------------------------------------------------------------------
// Variable-length integers
// ---------------------------------------------------------------------------

/// A 64-bit integer carried in the shortest of four wire forms: one byte up
/// to 0xFC, then 0xFD/0xFE/0xFF marker bytes followed by 2, 4 or 8 bytes.
#[derive(PartialEq, Eq, PartialOrd, Ord, Clone, Copy, Debug, Structural)]
pub struct VarInt(pub u64);

impl View for VarInt {
    type V = VarInt;

    open spec fn view(&self) -> VarInt {
        *self
    }
}

impl DeepView for VarInt {
    type V = VarInt;

    open spec fn deep_view(&self) -> VarInt {
        *self
    }
}

/// The minimal wire form of `v`.
pub open spec fn varint_bytes(v: u64) -> Seq<u8> {
    if v <= 0xFC {
        seq![v as u8]
    } else if v <= 0xFFFF {
        seq![0xFDu8] + le_bytes(v as int, 2)
    } else if v <= 0xFFFFFFFF {
        seq![0xFEu8] + le_bytes(v as int, 4)
    } else {
        seq![0xFFu8] + le_bytes(v as int, 8)
    }
}

pub proof fn lemma_varint_bytes_len(v: u64)
    ensures
        varint_bytes(v).len() == if v <= 0xFC {
            1int
        } else if v <= 0xFFFF {
            3int
        } else if v <= 0xFFFFFFFF {
            5int
        } else {
            9int
        },
{
    if v <= 0xFC {
    } else if v <= 0xFFFF {
        lemma_le_bytes_len(v as int, 2);
    } else if v <= 0xFFFFFFFF {
        lemma_le_bytes_len(v as int, 4);
    } else {
        lemma_le_bytes_len(v as int, 8);
    }
}

impl VarInt {
    /// The length of this integer's wire form: 1 up to 0xFC, 3 up to 0xFFFF,
    /// 5 up to 0xFFFFFFFF, and 9 otherwise.
    pub fn length(&self) -> (r: usize)
        ensures
            r == varint_bytes(self.0).len(),
    {
        proof {
            lemma_varint_bytes_len(self.0);
        }
        if self.0 <= 0xFC {
            1
        } else if self.0 <= 0xFFFF {
            3
        } else if self.0 <= 0xFFFFFFFF {
            5
        } else {
            9
        }
    }
}

/// A longer-than-needed wire form is rejected: a marker byte whose payload
/// value fits a shorter form decodes to the non-minimal-encoding error, so
/// every value has exactly one accepted encoding.
pub proof fn lemma_varint_rejects_nonminimal(data: Seq<u8>)
    requires
        data.len() >= 1,
        (data[0] == 0xFD && data.len() >= 3 && le_value(data.subrange(1, 3)) < 0xFD) || (data[0]
            == 0xFE && data.len() >= 5 && le_value(data.subrange(1, 5)) < 0x10000) || (data[0]
            == 0xFF && data.len() >= 9 && le_value(data.subrange(1, 9)) < 0x100000000),
    ensures
        VarInt::dec(data) == Err::<(VarInt, int), Error>(Error::NonMinimalVarInt),
{
}

impl Encodable for VarInt {
    open spec fn enc(&self) -> Seq<u8> {
        varint_bytes(self.0)
    }

    open spec fn enc_fits(&self) -> bool {
        true
    }

    fn encode(&self, s: &mut Vec<u8>) -> (n: usize) {
        let start = s.len();
        if self.0 <= 0xFC {
            s.push(self.0 as u8);
            proof {
                assert(s@ =~= old(s)@ + self.enc());
            }
        } else if self.0 <= 0xFFFF {
            s.push(0xFD);
            write_le(s, self.0, 2);
            proof {
                assert(s@ =~= old(s)@ + self.enc());
                lemma_le_bytes_len(self.0 as int, 2);
            }
        } else if self.0 <= 0xFFFFFFFF {
            s.push(0xFE);
            write_le(s, self.0, 4);
            proof {
                assert(s@ =~= old(s)@ + self.enc());
                lemma_le_bytes_len(self.0 as int, 4);
            }
        } else {
            s.push(0xFF);
            write_le(s, self.0, 8);
            proof {
                assert(s@ =~= old(s)@ + self.enc());
                lemma_le_bytes_len(self.0 as int, 8);
            }
        }
        s.len() - start
    }
}

impl Decodable for VarInt {
    open spec fn dec(data: Seq<u8>) -> Result<(Self::V, int), Error> {
        if data.len() < 1 {
            Err(Error::Io)
        } else if data[0] == 0xFF {
            if data.len() >= 9 {
                let x = le_value(data.subrange(1, 9));
                if x < 0x100000000 {
                    Err(Error::NonMinimalVarInt)
                } else {
                    Ok((VarInt(x as u64), 9))
                }
            } else {
                Err(Error::Io)
            }
        } else if data[0] == 0xFE {
            if data.len() >= 5 {
                let x = le_value(data.subrange(1, 5));
                if x < 0x10000 {
                    Err(Error::NonMinimalVarInt)
                } else {
                    Ok((VarInt(x as u64), 5))
                }
            } else {
                Err(Error::Io)
            }
        } else if data[0] == 0xFD {
            if data.len() >= 3 {
                let x = le_value(data.subrange(1, 3));
                if x < 0xFD {
                    Err(Error::NonMinimalVarInt)
                } else {
                    Ok((VarInt(x as u64), 3))
                }
            } else {
                Err(Error::Io)
            }
        } else {
            Ok((VarInt(data[0] as u64), 1))
        }
    }

    fn decode(data: &[u8], pos: usize) -> (r: Result<(Self, usize), Error>) {
        if data.len() - pos < 1 {
            return Err(Error::Io);
        }
        let marker = *vstd::slice::slice_index_get(data, pos);
        proof {
            assert(data@.skip(pos as int)[0] == data@[pos as int]);
        }
        if marker == 0xFF {
            if data.len() - pos >= 9 {
                let x = read_le(data, pos + 1, 8);
                proof {
                    assert(data@.skip(pos as int).subrange(1, 9) =~= data@.subrange(
                        (pos + 1) as int,
                        (pos + 9) as int,
                    ));
                    lemma_pow256_values();
                    lemma_le_value_bound(data@.skip(pos as int).subrange(1, 9));
                }
                if x < 0x100000000 {
                    Err(Error::NonMinimalVarInt)
                } else {
                    Ok((VarInt(x), pos + 9))
                }
            } else {
                Err(Error::Io)
            }
        } else if marker == 0xFE {
            if data.len() - pos >= 5 {
                let x = read_le(data, pos + 1, 4);
                proof {
                    assert(data@.skip(pos as int).subrange(1, 5) =~= data@.subrange(
                        (pos + 1) as int,
                        (pos + 5) as int,
                    ));
                    lemma_pow256_values();
                    lemma_le_value_bound(data@.skip(pos as int).subrange(1, 5));
                }
                if x < 0x10000 {
                    Err(Error::NonMinimalVarInt)
                } else {
                    Ok((VarInt(x), pos + 5))
                }
            } else {
                Err(Error::Io)
            }
        } else if marker == 0xFD {
            if data.len() - pos >= 3 {
                let x = read_le(data, pos + 1, 2);
                proof {
                    assert(data@.skip(pos as int).subrange(1, 3) =~= data@.subrange(
                        (pos + 1) as int,
                        (pos + 3) as int,
                    ));
                    lemma_pow256_values();
                    lemma_le_value_bound(data@.skip(pos as int).subrange(1, 3));
                }
                if x < 0xFD {
                    Err(Error::NonMinimalVarInt)
                } else {
                    Ok((VarInt(x), pos + 3))
                }
            } else {
                Err(Error::Io)
            }
        } else {
            Ok((VarInt(marker as u64), pos + 1))
        }
    }

    proof fn lemma_enc_dec(v: Self, rest: Seq<u8>) {
        lemma_pow256_values();
        let whole = v.enc() + rest;
        if v.0 <= 0xFC {
            assert(whole[0] == v.0 as u8);
        } else if v.0 <= 0xFFFF {
            lemma_le_bytes_len(v.0 as int, 2);
            assert(whole[0] == 0xFF || whole[0] == 0xFE || whole[0] == 0xFD || true);
            assert(whole[0] == 0xFDu8);
            assert(whole.subrange(1, 3) =~= le_bytes(v.0 as int, 2));
            lemma_le_round_trip(v.0 as int, 2);
        } else if v.0 <= 0xFFFFFFFF {
            lemma_le_bytes_len(v.0 as int, 4);
            assert(whole[0] == 0xFEu8);
            assert(whole.subrange(1, 5) =~= le_bytes(v.0 as int, 4));
            lemma_le_round_trip(v.0 as int, 4);
        } else {
            lemma_le_bytes_len(v.0 as int, 8);
            assert(whole[0] == 0xFFu8);
            assert(whole.subrange(1, 9) =~= le_bytes(v.0 as int, 8));
            lemma_le_round_trip(v.0 as int, 8);
        }
    }
}

// ---------------------------------------------------------------------------
// Whole-value entry points
// ---------------------------------------------------------------------------

/// Encodes one value into a fresh byte vector.
pub fn serialize<T: Encodable>(data: &T) -> (r: Vec<u8>)
    ensures
        r@ == data.enc(),
{
    let mut encoder: Vec<u8> = Vec::new();
    let _ = data.encode(&mut encoder);
    proof {
        assert(encoder@ =~= data.enc());
    }
    encoder
}

/// Decodes one value from the front of `data`, also returning how many bytes
/// it occupied; trailing bytes are left unread.
pub fn deserialize_partial<T: Decodable>(data: &[u8]) -> (r: Result<(T, usize), Error>)
    ensures
        match r {
            Ok((v, consumed)) => consumed <= data@.len() && T::dec(data@) == Ok::<
                (T::V, int),
                Error,
            >((v.deep_view(), consumed as int)),
            Err(e) => T::dec(data@) == Err::<(T::V, int), Error>(e),
        },
{
    proof {
        assert(data@.skip(0) =~= data@);
    }
    T::decode(data, 0)
}

/// Decodes one value that must occupy the whole of `data`; anything left
/// over makes the decode fail.
pub fn deserialize<T: Decodable>(data: &[u8]) -> (r: Result<T, Error>)
    ensures
        match r {
            Ok(v) => T::dec(data@) == Ok::<(T::V, int), Error>((v.deep_view(), data@.len() as int)),
            Err(e) => match T::dec(data@) {
                Ok((v2, n)) => n != data@.len() && e == Error::ParseFailed,
                Err(e2) => e == e2,
            },
        },
{
    match deserialize_partial::<T>(data) {
        Ok((v, consumed)) => {
            if consumed == data.len() {
                Ok(v)
            } else {
                Err(Error::ParseFailed)
            }
        },
        Err(e) => Err(e),
    }
}

/// Appends `data` prefixed with its length as a variable-length integer and
/// returns the number of bytes added.
pub fn encode_with_size(data: &[u8], s: &mut Vec<u8>) -> (n: usize)
    ensures
        final(s)@ == old(s)@ + varint_bytes(data@.len() as u64) + data@,
        n == varint_bytes(data@.len() as u64).len() + data@.len(),
{
    let start = s.len();
    let vi = VarInt(data.len() as u64);
    let _ = vi.encode(s);
    s.extend_from_slice(data);
    proof {
        lemma_varint_bytes_len(data@.len() as u64);
    }
    s.len() - start
}

// ---------------------------------------------------------------------------
// Byte vectors
// ---------------------------------------------------------------------------

impl Encodable for Vec<u8> {
    open spec fn enc(&self) -> Seq<u8> {
        varint_bytes(self@.len() as u64) + self@
    }

    open spec fn enc_fits(&self) -> bool {
        self@.len() <= u64::MAX
    }

    fn encode(&self, s: &mut Vec<u8>) -> (n: usize) {
        encode_with_size(self.as_slice(), s)
    }
}

/// A length-prefixed byte string decodes to exactly the bytes after the
/// length, whatever follows them.
pub proof fn lemma_bytes_dec(b: Seq<u8>, rest: Seq<u8>)
    requires
        b.len() <= u64::MAX,
    ensures
        Vec::<u8>::dec(varint_bytes(b.len() as u64) + b + rest) == Ok::<(Seq<u8>, int), Error>((
            b,
            varint_bytes(b.len() as u64).len() + b.len() as int,
        )),
{
    let l = b.len() as u64;
    let whole = varint_bytes(l) + b + rest;
    VarInt::lemma_enc_dec(VarInt(l), b + rest);
    assert(varint_bytes(l) + (b + rest) =~= whole);
    let k = varint_bytes(l).len() as int;
    assert(whole.subrange(k, k + l as int) =~= b);
}

impl Decodable for Vec<u8> {
    open spec fn dec(data: Seq<u8>) -> Result<(Self::V, int), Error> {
        match VarInt::dec(data) {
            Ok((vi, k)) => if data.len() - k >= vi.0 {
                Ok((data.subrange(k, k + vi.0 as int), k + vi.0 as int))
            } else {
                Err(Error::Io)
            },
            Err(e) => Err(e),
        }
    }

    fn decode(data: &[u8], pos: usize) -> (r: Result<(Self, usize), Error>) {
        match VarInt::decode(data, pos) {
            Ok((vi, mid)) => {
                if ((data.len() - mid) as u64) >= vi.0 {
                    let l = vi.0 as usize;
                    let piece = vstd::slice::slice_subrange(data, mid, mid + l);
                    let bytes = vstd::slice::slice_to_vec(piece);
                    proof {
                        assert(bytes.deep_view() =~= data@.subrange(mid as int, (mid + l) as int));
                        assert(data@.skip(pos as int).subrange(
                            (mid - pos) as int,
                            (mid - pos + l) as int,
                        ) =~= data@.subrange(mid as int, (mid + l) as int));
                    }
                    Ok((bytes, mid + l))
                } else {
                    Err(Error::Io)
                }
            },
            Err(e) => Err(e),
        }
    }

    proof fn lemma_enc_dec(v: Self, rest: Seq<u8>) {
        lemma_bytes_dec(v@, rest);
        assert(varint_bytes(v@.len() as u64) + v@ + rest =~= v.enc() + rest);
        assert(v.deep_view() =~= v@);
    }
}

// ---------------------------------------------------------------------------
// Strings (length-prefixed UTF-8)
// ---------------------------------------------------------------------------

/// Relies on std's String::from_utf8: it succeeds exactly on valid UTF-8
/// input and returns the string those bytes spell. Validity and decoding are
/// vstd's model of the same UTF-8 standard.
#[verifier::external_body]
fn string_from_utf8(bytes: Vec<u8>) -> (r: Option<String>)
    ensures
        match r {
            Some(s) => vstd::utf8::valid_utf8(bytes@) && s@ == vstd::utf8::decode_utf8(bytes@),
            None => !vstd::utf8::valid_utf8(bytes@),
        },
{
    String::from_utf8(bytes).ok()
}

impl Encodable for String {
    open spec fn enc(&self) -> Seq<u8> {
        varint_bytes(vstd::utf8::encode_utf8(self@).len() as u64) + vstd::utf8::encode_utf8(self@)
    }

    open spec fn enc_fits(&self) -> bool {
        vstd::utf8::encode_utf8(self@).len() <= u64::MAX
    }

    fn encode(&self, s: &mut Vec<u8>) -> (n: usize) {
        let b = self.as_str().as_bytes();
        encode_with_size(b, s)
    }
}

impl Decodable for String {
    open spec fn dec(data: Seq<u8>) -> Result<(Self::V, int), Error> {
        match Vec::<u8>::dec(data) {
            Ok((bytes, k)) => if vstd::utf8::valid_utf8(bytes) {
                Ok((vstd::utf8::decode_utf8(bytes), k))
            } else {
                Err(Error::ParseFailed)
            },
            Err(e) => Err(e),
        }
    }

    fn decode(data: &[u8], pos: usize) -> (r: Result<(Self, usize), Error>) {
        match Vec::<u8>::decode(data, pos) {
            Ok((bytes, end)) => {
                proof {
                    assert(bytes.deep_view() =~= bytes@);
                }
                match string_from_utf8(bytes) {
                    Some(st) => Ok((st, end)),
                    None => Err(Error::ParseFailed),
                }
            },
            Err(e) => Err(e),
        }
    }

    proof fn lemma_enc_dec(v: Self, rest: Seq<u8>) {
        broadcast use vstd::utf8::encode_utf8_valid_utf8, vstd::utf8::encode_utf8_decode_utf8;

        lemma_bytes_dec(vstd::utf8::encode_utf8(v@), rest);
        assert(varint_bytes(vstd::utf8::encode_utf8(v@).len() as u64) + vstd::utf8::encode_utf8(v@)
            + rest =~= v.enc() + rest);
    }
}

// ---------------------------------------------------------------------------
// Options (presence byte, then the value)
// ---------------------------------------------------------------------------

impl<T: Encodable> Encodable for Option<T> {
    open spec fn enc(&self) -> Seq<u8> {
        match self {
            Some(v) => seq![1u8] + v.enc(),
            None => seq![0u8],
        }
    }

    open spec fn enc_fits(&self) -> bool {
        match self {
            Some(v) => v.enc_fits(),
            None => true,
        }
    }

    fn encode(&self, s: &mut Vec<u8>) -> (n: usize) {
        let start = s.len();
        match self {
            Some(v) => {
                s.push(1u8);
                let ghost mid = s@;
                let _ = v.encode(s);
                proof {
                    assert(mid =~= old(s)@ + seq![1u8]);
                    assert(s@ =~= old(s)@ + self.enc());
                }
            },
            None => {
                s.push(0u8);
                proof {
                    assert(s@ =~= old(s)@ + self.enc());
                }
            },
        }
        s.len() - start
    }
}

impl<T: Decodable> Decodable for Option<T> {
    open spec fn dec(data: Seq<u8>) -> Result<(Self::V, int), Error> {
        if data.len() < 1 {
            Err(Error::Io)
        } else if data[0] != 0 {
            match T::dec(data.skip(1)) {
                Ok((v, k)) => Ok((Some(v), 1 + k)),
                Err(e) => Err(e),
            }
        } else {
            Ok((None, 1))
        }
    }

    fn decode(data: &[u8], pos: usize) -> (r: Result<(Self, usize), Error>) {
        if data.len() - pos < 1 {
            return Err(Error::Io);
        }
        let flag = *vstd::slice::slice_index_get(data, pos);
        proof {
            assert(data@.skip(pos as int)[0] == data@[pos as int]);
        }
        if flag != 0 {
            match T::decode(data, pos + 1) {
                Ok((v, end)) => {
                    proof {
                        assert(data@.skip(pos as int).skip(1) =~= data@.skip(pos as int + 1));
                    }
                    Ok((Some(v), end))
                },
                Err(e) => {
                    proof {
                        assert(data@.skip(pos as int).skip(1) =~= data@.skip(pos as int + 1));
                    }
                    Err(e)
                },
            }
        } else {
            Ok((None, pos + 1))
        }
    }

    proof fn lemma_enc_dec(v: Self, rest: Seq<u8>) {
        match v {
            Some(inner) => {
                let whole = v.enc() + rest;
                assert(whole[0] == 1u8);
                assert(whole.skip(1) =~= inner.enc() + rest);
                T::lemma_enc_dec(inner, rest);
            },
            None => {
                assert((v.enc() + rest)[0] == 0u8);
            },
        }
    }
}

// ---------------------------------------------------------------------------
// Pairs (the two encodings, one after the other)
// ---------------------------------------------------------------------------

impl<A: Encodable, B: Encodable> Encodable for (A, B) {
    open spec fn enc(&self) -> Seq<u8> {
        self.0.enc() + self.1.enc()
    }

    open spec fn enc_fits(&self) -> bool {
        self.0.enc_fits() && self.1.enc_fits()
    }

    fn encode(&self, s: &mut Vec<u8>) -> (n: usize) {
        let start = s.len();
        let _ = self.0.encode(s);
        let _ = self.1.encode(s);
        proof {
            assert(s@ =~= old(s)@ + self.enc());
        }
        s.len() - start
    }
}

impl<A: Decodable, B: Decodable> Decodable for (A, B) {
    open spec fn dec(data: Seq<u8>) -> Result<(Self::V, int), Error> {
        match A::dec(data) {
            Ok((a, k)) => match B::dec(data.skip(k)) {
                Ok((b, m)) => Ok((((a, b), k + m))),
                Err(e) => Err(e),
            },
            Err(e) => Err(e),
        }
    }

    fn decode(data: &[u8], pos: usize) -> (r: Result<(Self, usize), Error>) {
        match A::decode(data, pos) {
            Ok((a, mid)) => {
                proof {
                    assert(data@.skip(pos as int).skip((mid - pos) as int) =~= data@.skip(
                        mid as int,
                    ));
                }
                match B::decode(data, mid) {
                    Ok((b, end)) => Ok(((a, b), end)),
                    Err(e) => Err(e),
                }
            },
            Err(e) => Err(e),
        }
    }

    proof fn lemma_enc_dec(v: Self, rest: Seq<u8>) {
        let whole = v.enc() + rest;
        assert(whole =~= v.0.enc() + (v.1.enc() + rest));
        A::lemma_enc_dec(v.0, v.1.enc() + rest);
        assert(whole.skip(v.0.enc().len() as int) =~= v.1.enc() + rest);
        B::lemma_enc_dec(v.1, rest);
    }
}

// ---------------------------------------------------------------------------
// Vectors of encodable values (count as a varint, then the items)
// ---------------------------------------------------------------------------

/// The deep views of a sequence's items.
pub open spec fn seq_deep_view<T: DeepView>(s: Seq<T>) -> Seq<T::V> {
    Seq::new(s.len(), |i: int| s[i].deep_view())
}

/// The items of `s` encoded one after the other.
pub open spec fn seq_enc<T: Encodable>(s: Seq<T>) -> Seq<u8>
    decreases s.len(),
{
    if s.len() == 0 {
        Seq::empty()
    } else {
        s[0].enc() + seq_enc(s.drop_first())
    }
}

/// Whether every item of `s` can be encoded.
pub open spec fn seq_enc_fits<T: Encodable>(s: Seq<T>) -> bool {
    forall|i: int| 0 <= i < s.len() ==> s[i].enc_fits()
}

/// The wire form of a vector: its length, then its items.
pub open spec fn vec_enc<T: Encodable>(s: Seq<T>) -> Seq<u8> {
    varint_bytes(s.len() as u64) + seq_enc(s)
}

pub proof fn lemma_seq_enc_push<T: Encodable>(s: Seq<T>, x: T)
    ensures
        seq_enc(s.push(x)) == seq_enc(s) + x.enc(),
    decreases s.len(),
{
    if s.len() == 0 {
        assert(s.push(x)[0] == x);
        assert(s.push(x).drop_first() =~= Seq::<T>::empty());
        assert(seq_enc(s.push(x).drop_first()) =~= Seq::<u8>::empty());
        assert(seq_enc(s.push(x)) =~= x.enc() + Seq::<u8>::empty());
        assert(seq_enc(s) =~= Seq::<u8>::empty());
        assert(seq_enc(s.push(x)) =~= seq_enc(s) + x.enc());
    } else {
        assert(s.push(x)[0] == s[0]);
        assert(s.push(x).drop_first() =~= s.drop_first().push(x));
        lemma_seq_enc_push(s.drop_first(), x);
        assert(s[0].enc() + (seq_enc(s.drop_first()) + x.enc()) =~= (s[0].enc() + seq_enc(
            s.drop_first(),
        )) + x.enc());
    }
}

/// Appends the wire form of `v` and returns the number of bytes added.
pub fn encode_vec<T: Encodable>(v: &Vec<T>, s: &mut Vec<u8>) -> (n: usize)
    ensures
        final(s)@ == old(s)@ + vec_enc(v@),
        n == vec_enc(v@).len(),
{
    let start = s.len();
    let vi = VarInt(v.len() as u64);
    let _ = vi.encode(s);
    let mut i: usize = 0;
    while i < v.len()
        invariant
            i <= v@.len(),
            s@ == old(s)@ + varint_bytes(v@.len() as u64) + seq_enc(v@.take(i as int)),
        decreases v@.len() - i,
    {
        let ghost before = s@;
        let _ = v[i].encode(s);
        proof {
            lemma_seq_enc_push(v@.take(i as int), v@[i as int]);
            assert(v@.take(i as int + 1) =~= v@.take(i as int).push(v@[i as int]));
            assert(s@ =~= old(s)@ + varint_bytes(v@.len() as u64) + seq_enc(
                v@.take(i as int + 1),
            ));
        }
        i = i + 1;
    }
    proof {
        assert(v@.take(v@.len() as int) =~= v@);
        assert(old(s)@ + varint_bytes(v@.len() as u64) + seq_enc(v@) =~= old(s)@ + vec_enc(v@));
    }
    s.len() - start
}

/// Decoding of `count` items, one after the other.
pub open spec fn seq_dec<T: Decodable>(data: Seq<u8>, count: nat) -> Result<(Seq<T::V>, int), Error>
    decreases count,
{
    if count == 0 {
        Ok((Seq::empty(), 0))
    } else {
        match T::dec(data) {
            Ok((v, k)) => match seq_dec::<T>(data.skip(k), (count - 1) as nat) {
                Ok((vs, m)) => Ok((seq![v] + vs, k + m)),
                Err(e) => Err(e),
            },
            Err(e) => Err(e),
        }
    }
}

/// The decoder for a whole vector: a count, then that many items.
pub open spec fn vec_dec<T: Decodable>(data: Seq<u8>) -> Result<(Seq<T::V>, int), Error> {
    match VarInt::dec(data) {
        Ok((vi, k)) => match seq_dec::<T>(data.skip(k), vi.0 as nat) {
            Ok((vs, m)) => Ok((vs, k + m)),
            Err(e) => Err(e),
        },
        Err(e) => Err(e),
    }
}

/// Reads a vector at `pos`, mirroring `vec_dec`.
pub fn decode_vec<T: Decodable>(data: &[u8], pos: usize) -> (r: Result<(Vec<T>, usize), Error>)
    requires
        pos <= data@.len(),
    ensures
        match r {
            Ok((v, end)) => pos <= end <= data@.len() && vec_dec::<T>(data@.skip(pos as int))
                == Ok::<(Seq<T::V>, int), Error>((v.deep_view(), end - pos)),
            Err(e) => vec_dec::<T>(data@.skip(pos as int)) == Err::<(Seq<T::V>, int), Error>(e),
        },
{
    let ghost whole = vec_dec::<T>(data@.skip(pos as int));
    match VarInt::decode(data, pos) {
        Ok((vi, mid)) => {
            let count = vi.0;
            let mut acc: Vec<T> = Vec::new();
            let mut cur = mid;
            let mut i: u64 = 0;
            proof {
                assert(data@.skip(pos as int).skip((mid - pos) as int) =~= data@.skip(mid as int));
                assert(acc.deep_view() =~= Seq::<T::V>::empty());
            }
            while i < count
                invariant
                    i <= count,
                    pos <= mid <= cur <= data@.len(),
                    acc.deep_view().len() == i,
                    whole == vec_dec::<T>(data@.skip(pos as int)),
                    (match seq_dec::<T>(data@.skip(cur as int), (count - i) as nat) {
                        Ok((vs, m)) => whole == Ok::<(Seq<T::V>, int), Error>((
                            acc.deep_view() + vs,
                            (cur - pos) + m,
                        )),
                        Err(e) => whole == Err::<(Seq<T::V>, int), Error>(e),
                    }),
                decreases count - i,
            {
                match T::decode(data, cur) {
                    Ok((v, end)) => {
                        proof {
                            assert(data@.skip(cur as int).skip((end - cur) as int) =~= data@.skip(
                                end as int,
                            ));
                        }
                        let ghost old_acc = acc.deep_view();
                        acc.push(v);
                        proof {
                            assert(acc.deep_view() =~= old_acc + seq![v.deep_view()]);
                            if let Ok((vs2, m2)) = seq_dec::<T>(
                                data@.skip(end as int),
                                (count - i - 1) as nat,
                            ) {
                                assert(old_acc + (seq![v.deep_view()] + vs2) =~= acc.deep_view()
                                    + vs2);
                            }
                        }
                        cur = end;
                        i = i + 1;
                    },
                    Err(e) => {
                        return Err(e);
                    },
                }
            }
            proof {
                assert(seq_dec::<T>(data@.skip(cur as int), 0) == Ok::<(Seq<T::V>, int), Error>((
                    Seq::empty(),
                    0,
                )));
                assert(acc.deep_view() + Seq::<T::V>::empty() =~= acc.deep_view());
            }
            Ok((acc, cur))
        },
        Err(e) => Err(e),
    }
}

/// Round trip for item sequences: decoding `count == s.len()` items from the
/// encoding of `s` yields the items of `s`.
pub proof fn lemma_seq_enc_dec<T: Decodable>(s: Seq<T>, rest: Seq<u8>)
    requires
        seq_enc_fits(s),
    ensures
        seq_dec::<T>(seq_enc(s) + rest, s.len()) == Ok::<(Seq<T::V>, int), Error>((
            seq_deep_view(s),
            seq_enc(s).len() as int,
        )),
    decreases s.len(),
{
    if s.len() == 0 {
        assert(seq_deep_view(s) =~= Seq::<T::V>::empty());
    } else {
        let head = s[0];
        let tail = s.drop_first();
        assert(seq_enc(s) + rest =~= head.enc() + (seq_enc(tail) + rest));
        T::lemma_enc_dec(head, seq_enc(tail) + rest);
        assert((seq_enc(s) + rest).skip(head.enc().len() as int) =~= seq_enc(tail) + rest);
        lemma_seq_enc_dec::<T>(tail, rest);
        assert(seq![head.deep_view()] + seq_deep_view(tail) =~= seq_deep_view(s));
    }
}

/// Round trip for whole vectors.
pub proof fn lemma_vec_enc_dec<T: Decodable>(s: Seq<T>, rest: Seq<u8>)
    requires
        seq_enc_fits(s),
        s.len() <= u64::MAX,
    ensures
        vec_dec::<T>(vec_enc(s) + rest) == Ok::<(Seq<T::V>, int), Error>((
            seq_deep_view(s),
            vec_enc(s).len() as int,
        )),
{
    let l = s.len() as u64;
    VarInt::lemma_enc_dec(VarInt(l), seq_enc(s) + rest);
    assert(vec_enc(s) + rest =~= varint_bytes(l) + (seq_enc(s) + rest));
    let k = varint_bytes(l).len() as int;
    assert((vec_enc(s) + rest).skip(k) =~= seq_enc(s) + rest);
    lemma_seq_enc_dec::<T>(s, rest);
}

impl<T: Encodable> Encodable for Vec<Option<T>> {
    open spec fn enc(&self) -> Seq<u8> {
        vec_enc(self@)
    }

    open spec fn enc_fits(&self) -> bool {
        self@.len() <= u64::MAX && seq_enc_fits(self@)
    }

    fn encode(&self, s: &mut Vec<u8>) -> (n: usize) {
        encode_vec(self, s)
    }
}

impl<T: Decodable> Decodable for Vec<Option<T>> {
    open spec fn dec(data: Seq<u8>) -> Result<(Self::V, int), Error> {
        vec_dec::<Option<T>>(data)
    }

    fn decode(data: &[u8], pos: usize) -> (r: Result<(Self, usize), Error>) {
        decode_vec::<Option<T>>(data, pos)
    }

    proof fn lemma_enc_dec(v: Self, rest: Seq<u8>) {
        lemma_vec_enc_dec::<Option<T>>(v@, rest);
        assert(v.deep_view() =~= seq_deep_view(v@));
    }
}

// ---------------------------------------------------------------------------
// Hex rendering
// ---------------------------------------------------------------------------

/// The lowercase hex digit of a nibble.
pub open spec fn hex_digit(n: u8) -> char
    recommends
        n < 16,
{
    if n < 10 {
        ((48 + n) as char)
    } else {
        ((87 + n) as char)
    }
}

/// The lowercase hex rendering of a byte string, high nibble of each byte
/// first.
pub open spec fn hex_of(b: Seq<u8>) -> Seq<char>
    decreases b.len(),
{
    if b.len() == 0 {
        Seq::empty()
    } else {
        seq![hex_digit(b[0] / 16), hex_digit(b[0] % 16)] + hex_of(b.drop_first())
    }
}

/// Relies on hex::encode: every input byte becomes two lowercase hex digits,
/// high nibble first, so the output has exactly twice as many characters.
#[verifier::external_body]
fn hex_encode(b: &Vec<u8>) -> (r: String)
    ensures
        r@ == hex_of(b@),
{
    hex::encode(b)
}

/// Encodes a value and renders the bytes as lowercase hex.
pub fn serialize_hex<T: Encodable>(data: &T) -> (r: String)
    ensures
        r@ == hex_of(data.enc()),
{
    let bytes = serialize(data);
    hex_encode(&bytes)
}

} // verus!
