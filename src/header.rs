//! The one-byte header and the variable-width additional value.
use vstd::prelude::*;

use crate::Error;

verus! {

/// The 5-bit descriptor of a header byte.
#[derive(Clone, Copy, Debug, PartialEq, Eq, Structural)]
pub enum Info {
    /// The additional value is carried in the descriptor itself (0..=23).
    Tiny(u8),
    /// One byte of additional value follows.
    U8,
    /// Two bytes of additional value follow.
    U16,
    /// Four bytes of additional value follow.
    U32,
    /// Eight bytes of additional value follow.
    U64,
    /// Reserved code 28.
    Reserved28,
    /// Reserved code 29.
    Reserved29,
    /// Reserved code 30.
    Reserved30,
    /// Indefinite-length aggregate, or the break marker under major type 7.
    Indefinite,
}

impl Info {
    /// The 5-bit code that stands for this descriptor in a header byte.
    pub open spec fn code(self) -> int {
        match self {
            Info::Tiny(v) => v as int,
            Info::U8 => 24,
            Info::U16 => 25,
            Info::U32 => 26,
            Info::U64 => 27,
            Info::Reserved28 => 28,
            Info::Reserved29 => 29,
            Info::Reserved30 => 30,
            Info::Indefinite => 31,
        }
    }

    /// A descriptor can be written into a header: an immediate is at most 23.
    pub open spec fn encodable(self) -> bool {
        match self {
            Info::Tiny(v) => v <= 23,
            _ => true,
        }
    }

    /// The descriptor read from a 5-bit code.
    pub fn from_code(b: u8) -> (r: Result<Info, Error>)
        ensures
            b <= 31 ==> r == Ok::<Info, Error>(info_of_code(b as int)),
            b > 31 ==> r == Err::<Info, Error>(Error::Fatal),
    {
        if b <= 23 {
            Ok(Info::Tiny(b))
        } else if b == 24 {
            Ok(Info::U8)
        } else if b == 25 {
            Ok(Info::U16)
        } else if b == 26 {
            Ok(Info::U32)
        } else if b == 27 {
            Ok(Info::U64)
        } else if b == 28 {
            Ok(Info::Reserved28)
        } else if b == 29 {
            Ok(Info::Reserved29)
        } else if b == 30 {
            Ok(Info::Reserved30)
        } else if b == 31 {
            Ok(Info::Indefinite)
        } else {
            Err(Error::Fatal)
        }
    }

    /// The descriptor of least width that carries `num`.
    pub fn from_u64(num: u64) -> (r: Info)
        ensures
            r == minimal_info(num),
    {
        if num <= 23 {
            Info::Tiny(num as u8)
        } else if num <= 0xff {
            Info::U8
        } else if num <= 0xffff {
            Info::U16
        } else if num <= 0xffff_ffff {
            Info::U32
        } else {
            Info::U64
        }
    }

    /// The descriptor of least width that carries a length.
    pub fn from_usize(num: usize) -> (r: Info)
        ensures
            r == minimal_info(num as u64),
    {
        Info::from_u64(num as u64)
    }
}

/// The descriptor that a 5-bit code (0..=31) stands for.
pub open spec fn info_of_code(c: int) -> Info {
    if c <= 23 {
        Info::Tiny(c as u8)
    } else if c == 24 {
        Info::U8
    } else if c == 25 {
        Info::U16
    } else if c == 26 {
        Info::U32
    } else if c == 27 {
        Info::U64
    } else if c == 28 {
        Info::Reserved28
    } else if c == 29 {
        Info::Reserved29
    } else if c == 30 {
        Info::Reserved30
    } else {
        Info::Indefinite
    }
}

/// The descriptor of least width that carries `n`.
pub open spec fn minimal_info(n: u64) -> Info {
    if n <= 23 {
        Info::Tiny(n as u8)
    } else if n <= 0xff {
        Info::U8
    } else if n <= 0xffff {
        Info::U16
    } else if n <= 0xffff_ffff {
        Info::U32
    } else {
        Info::U64
    }
}

/// 256 to the power `w`.
pub open spec fn pow256(w: nat) -> nat
    decreases w,
{
    if w == 0 {
        1
    } else {
        256 * pow256((w - 1) as nat)
    }
}

/// The number that a big-endian byte string stands for.
pub open spec fn be_value(s: Seq<u8>) -> nat
    decreases s.len(),
{
    if s.len() == 0 {
        0
    } else {
        (be_value(s.drop_last()) * 256 + s.last()) as nat
    }
}

/// The `w` low-order bytes of `n`, most significant first.
pub open spec fn be_bytes(n: nat, w: nat) -> Seq<u8>
    decreases w,
{
    if w == 0 {
        Seq::empty()
    } else {
        be_bytes(n / 256, (w - 1) as nat).push((n % 256) as u8)
    }
}

/// Number of bytes of additional value written for `n`: the least of
/// 0, 1, 2, 4 and 8 that holds it (0 when the header carries it).
pub open spec fn addnl_width(n: u64) -> nat {
    if n <= 23 {
        0
    } else if n <= 0xff {
        1
    } else if n <= 0xffff {
        2
    } else if n <= 0xffff_ffff {
        4
    } else {
        8
    }
}

/// The bytes of additional value written for `n`.
pub open spec fn addnl_bytes(n: u64) -> Seq<u8> {
    be_bytes(n as nat, addnl_width(n))
}

/// The header byte for a major type and a descriptor.
pub open spec fn hdr_byte(major: u8, info: Info) -> u8 {
    (major * 32 + info.code()) as u8
}

/// Reading a header byte at `pos`: the major type, the descriptor and the
/// position after it.
pub open spec fn spec_decode_hdr(data: Seq<u8>, pos: usize) -> Result<(u8, Info, usize), Error> {
    if pos < data.len() {
        let b = data[pos as int];
        Ok(((b / 32) as u8, info_of_code((b % 32) as int), (pos + 1) as usize))
    } else {
        Err(Error::IoError)
    }
}

/// Reading `w` big-endian bytes at `pos`.
pub open spec fn spec_read_be(data: Seq<u8>, pos: usize, w: nat) -> Result<(u64, usize), Error> {
    if pos + w <= data.len() {
        Ok((be_value(data.subrange(pos as int, pos + w)) as u64, (pos + w) as usize))
    } else {
        Err(Error::IoError)
    }
}

/// Reading the additional value that a descriptor announces.
pub open spec fn spec_decode_addnl(info: Info, data: Seq<u8>, pos: usize) -> Result<(u64, usize), Error> {
    match info {
        Info::Tiny(n) => Ok((n as u64, pos)),
        Info::U8 => spec_read_be(data, pos, 1),
        Info::U16 => spec_read_be(data, pos, 2),
        Info::U32 => spec_read_be(data, pos, 4),
        Info::U64 => spec_read_be(data, pos, 8),
        _ => Err(Error::FailCbor),
    }
}

/// Appends the header byte `(major << 5) | code` to `buf`.
pub fn encode_hdr(major: u8, info: Info, buf: &mut Vec<u8>) -> (r: Result<usize, Error>)
    requires
        major <= 7,
    ensures
        info.encodable() ==> r == Ok::<usize, Error>(1) && final(buf)@ == old(buf)@.push(
            hdr_byte(major, info),
        ),
        !info.encodable() ==> r == Err::<usize, Error>(Error::FailCbor) && final(buf)@ == old(
            buf,
        )@,
{
    let code: u8 = match info {
        Info::Tiny(v) => {
            if v > 23 {
                return Err(Error::FailCbor);
            }
            v
        },
        Info::U8 => 24,
        Info::U16 => 25,
        Info::U32 => 26,
        Info::U64 => 27,
        Info::Reserved28 => 28,
        Info::Reserved29 => 29,
        Info::Reserved30 => 30,
        Info::Indefinite => 31,
    };
    buf.push(major * 32 + code);
    Ok(1)
}

/// Reads the header byte at `pos`: its major type, its descriptor, and the
/// position after it.
pub fn decode_hdr(data: &[u8], pos: usize) -> (r: Result<(u8, Info, usize), Error>)
    ensures
        r == spec_decode_hdr(data@, pos),
{
    if pos >= data.len() {
        return Err(Error::IoError);
    }
    let b = data[pos];
    match Info::from_code(b % 32) {
        Ok(info) => Ok((b / 32, info, pos + 1)),
        Err(e) => Err(e),
    }
}

pub(crate) proof fn lemma_pow256_values()
    ensures
        pow256(0) == 1,
        pow256(1) == 0x100,
        pow256(2) == 0x1_0000,
        pow256(4) == 0x1_0000_0000,
        pow256(8) == 0x1_0000_0000_0000_0000,
{
    reveal_with_fuel(pow256, 9);
}

proof fn lemma_pow256_mono(i: nat, j: nat)
    requires
        i <= j,
    ensures
        pow256(i) <= pow256(j),
    decreases j,
{
    if i < j {
        lemma_pow256_mono(i, (j - 1) as nat);
    }
}

/// Appends the `w` low-order bytes of `n`, most significant first.
pub(crate) fn write_be(n: u64, w: usize, buf: &mut Vec<u8>)
    requires
        w <= 8,
    ensures
        final(buf)@ == old(buf)@ + be_bytes(n as nat, w as nat),
    decreases w,
{
    if w == 0 {
        assert(old(buf)@ + Seq::<u8>::empty() =~= old(buf)@);
        return;
    }
    write_be(n / 256, w - 1, buf);
    buf.push((n % 256) as u8);
    assert(buf@ =~= old(buf)@ + be_bytes(n as nat, w as nat));
}

/// Reads `w` big-endian bytes at `pos`.
pub(crate) fn read_be(data: &[u8], pos: usize, w: usize) -> (r: Result<(u64, usize), Error>)
    requires
        w <= 8,
    ensures
        r == spec_read_be(data@, pos, w as nat),
{
    if w > data.len() || pos > data.len() - w {
        return Err(Error::IoError);
    }
    let len = data.len();
    let mut acc: u64 = 0;
    let mut i: usize = 0;
    proof {
        lemma_pow256_values();
        assert(data@.subrange(pos as int, pos as int) =~= Seq::<u8>::empty());
    }
    while i < w
        invariant
            i <= w,
            w <= 8,
            len == data@.len(),
            pos + w <= len,
            acc as nat == be_value(data@.subrange(pos as int, pos + i)),
            acc < pow256(i as nat),
        decreases w - i,
    {
        let ghost p = pow256(i as nat);
        proof {
            lemma_pow256_mono((i + 1) as nat, 8);
            lemma_pow256_values();
            assert(data@.subrange(pos as int, pos + i + 1).drop_last() =~= data@.subrange(
                pos as int,
                pos + i,
            ));
            let b = data@[pos + i];
            assert(acc * 256 + b < 256 * p) by (nonlinear_arith)
                requires
                    acc < p,
                    b < 256,
            ;
        }
        acc = acc * 256 + data[pos + i] as u64;
        i += 1;
    }
    Ok((acc, pos + w))
}

/// Appends the additional value for `num` in the least width that holds
/// it: nothing for 0..=23, else 1, 2, 4 or 8 big-endian bytes.
pub fn encode_addnl(num: u64, buf: &mut Vec<u8>) -> (r: Result<usize, Error>)
    ensures
        r == Ok::<usize, Error>(addnl_width(num) as usize),
        final(buf)@ == old(buf)@ + addnl_bytes(num),
{
    let w: usize = if num <= 23 {
        0
    } else if num <= 0xff {
        1
    } else if num <= 0xffff {
        2
    } else if num <= 0xffff_ffff {
        4
    } else {
        8
    };
    write_be(num, w, buf);
    Ok(w)
}

/// Reads the additional value that `info` announces at `pos`; reserved and
/// indefinite descriptors carry none.
pub fn decode_addnl(info: Info, data: &[u8], pos: usize) -> (r: Result<(u64, usize), Error>)
    ensures
        r == spec_decode_addnl(info, data@, pos),
{
    match info {
        Info::Tiny(n) => Ok((n as u64, pos)),
        Info::U8 => read_be(data, pos, 1),
        Info::U16 => read_be(data, pos, 2),
        Info::U32 => read_be(data, pos, 4),
        Info::U64 => read_be(data, pos, 8),
        _ => Err(Error::FailCbor),
    }
}

/// A big-endian string of `w` bytes stands for a number below 256 to the `w`.
pub(crate) proof fn lemma_be_value_bound(s: Seq<u8>)
    ensures
        be_value(s) < pow256(s.len()),
    decreases s.len(),
{
    if s.len() > 0 {
        let p = pow256((s.len() - 1) as nat);
        lemma_be_value_bound(s.drop_last());
        let v = be_value(s.drop_last());
        let b = s.last();
        assert(v * 256 + b < 256 * p) by (nonlinear_arith)
            requires
                v < p,
                b < 256,
        ;
    }
}

pub(crate) proof fn lemma_be_bytes_len(n: nat, w: nat)
    ensures
        be_bytes(n, w).len() == w,
    decreases w,
{
    if w > 0 {
        lemma_be_bytes_len(n / 256, (w - 1) as nat);
    }
}

pub(crate) proof fn lemma_be_bytes(n: nat, w: nat)
    requires
        n < pow256(w),
    ensures
        be_bytes(n, w).len() == w,
        be_value(be_bytes(n, w)) == n,
    decreases w,
{
    if w > 0 {
        lemma_be_bytes(n / 256, (w - 1) as nat);
        assert(be_bytes(n, w).drop_last() =~= be_bytes(n / 256, (w - 1) as nat));
    }
}

/// Every header byte reads back as the major type and the descriptor it
/// was written from, for each major type 0..=7 and each code 0..=31; the
/// reserved and indefinite descriptors carry no additional value.
pub proof fn lemma_header_round_trip(major: u8, code: u8, data: Seq<u8>, pos: usize)
    requires
        major <= 7,
        code <= 31,
        pos < data.len(),
        data[pos as int] == hdr_byte(major, info_of_code(code as int)),
    ensures
        info_of_code(code as int).encodable(),
        info_of_code(code as int).code() == code,
        spec_decode_hdr(data, pos) == Ok::<(u8, Info, usize), Error>(
            (major, info_of_code(code as int), (pos + 1) as usize),
        ),
        code >= 28 ==> spec_decode_addnl(info_of_code(code as int), data, pos) == Err::<
            (u64, usize),
            Error,
        >(Error::FailCbor),
{
}

/// For every `n`, the bytes that `encode_addnl` writes for `n` read back as
/// `n` under the least descriptor that carries `n`; there are 0 of them for
/// n <= 23, 1 for n <= 255, 2 for n <= 65535, 4 for n <= 4294967295, else 8.
pub proof fn lemma_addnl_round_trip(n: u64, data: Seq<u8>, pos: usize)
    requires
        pos + addnl_width(n) <= data.len(),
        data.subrange(pos as int, pos + addnl_width(n)) == addnl_bytes(n),
    ensures
        addnl_bytes(n).len() == addnl_width(n),
        spec_decode_addnl(minimal_info(n), data, pos) == Ok::<(u64, usize), Error>(
            (n, (pos + addnl_width(n)) as usize),
        ),
{
    lemma_pow256_values();
    if n > 23 {
        lemma_be_bytes(n as nat, addnl_width(n));
    }
}

} // verus!
