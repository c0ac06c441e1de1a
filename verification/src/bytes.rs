//! Little-endian numbers in byte strings.

use vstd::prelude::*;

verus! {

/// The byte of weight `256^j` of `x`.
pub open spec fn byte_of(x: int, j: int) -> u8 {
    if j == 0 {
        (x % 256) as u8
    } else if j == 1 {
        (x / 256 % 256) as u8
    } else if j == 2 {
        (x / 65536 % 256) as u8
    } else {
        (x / 16777216 % 256) as u8
    }
}

/// The 32-bit number whose four bytes start at `pos`, least byte first.
pub open spec fn u32_at(b: Seq<u8>, pos: int) -> u32 {
    (b[pos] + 256 * b[pos + 1] + 65536 * b[pos + 2] + 16777216 * b[pos + 3]) as u32
}

/// The signed 16-bit number whose two bytes start at `pos`, least byte first.
pub open spec fn i16_at(b: Seq<u8>, pos: int) -> i16 {
    let v = b[pos] + 256 * b[pos + 1];
    (if v < 32768 {
        v
    } else {
        v - 65536
    }) as i16
}

/// The `n` 32-bit numbers that start at `pos`.
pub open spec fn u32s_at(b: Seq<u8>, pos: int, n: nat) -> Seq<u32> {
    Seq::new(n, |i: int| u32_at(b, pos + 4 * i))
}

/// The `n` signed 16-bit numbers that start at `pos`.
pub open spec fn i16s_at(b: Seq<u8>, pos: int, n: nat) -> Seq<i16> {
    Seq::new(n, |i: int| i16_at(b, pos + 2 * i))
}

/// The bytes of a 32-bit number.
pub open spec fn u32_bytes(x: u32) -> Seq<u8> {
    Seq::new(4, |j: int| byte_of(x as int, j))
}

/// The bytes of all of `s`, number after number.
pub open spec fn u32s_bytes(s: Seq<u32>) -> Seq<u8> {
    Seq::new(4 * s.len(), |i: int| byte_of(s[i / 4] as int, i % 4))
}

/// `x` as an unsigned 16-bit number of the same bits.
pub open spec fn unsigned16(x: i16) -> int {
    if x < 0 {
        x + 65536
    } else {
        x as int
    }
}

/// The bytes of all of `s`, number after number.
pub open spec fn i16s_bytes(s: Seq<i16>) -> Seq<u8> {
    Seq::new(2 * s.len(), |i: int| byte_of(unsigned16(s[i / 2]), i % 2))
}

/// Writing a 32-bit number and reading it gives the number back.
pub proof fn u32_round_trip(x: u32)
    ensures
        u32_at(u32_bytes(x), 0) == x,
{
}

/// Writing numbers anywhere and reading there gives the numbers back.
pub proof fn u32s_round_trip(before: Seq<u8>, s: Seq<u32>, after: Seq<u8>)
    ensures
        u32s_at(before + u32s_bytes(s) + after, before.len() as int, s.len()) == s,
{
    let b = before + u32s_bytes(s) + after;
    let n = before.len() as int;
    assert forall|i: int| 0 <= i < s.len() implies u32_at(b, n + 4 * i) == s[i] by {
        assert(b[n + 4 * i] == byte_of(s[i] as int, 0));
        assert(b[n + 4 * i + 1] == byte_of(s[i] as int, 1));
        assert(b[n + 4 * i + 2] == byte_of(s[i] as int, 2));
        assert(b[n + 4 * i + 3] == byte_of(s[i] as int, 3));
    }
    assert(u32s_at(b, n, s.len()) =~= s);
}

/// Writing numbers anywhere and reading there gives the numbers back.
pub proof fn i16s_round_trip(before: Seq<u8>, s: Seq<i16>, after: Seq<u8>)
    ensures
        i16s_at(before + i16s_bytes(s) + after, before.len() as int, s.len()) == s,
{
    let b = before + i16s_bytes(s) + after;
    let n = before.len() as int;
    assert forall|i: int| 0 <= i < s.len() implies i16_at(b, n + 2 * i) == s[i] by {
        assert(b[n + 2 * i] == byte_of(unsigned16(s[i]), 0));
        assert(b[n + 2 * i + 1] == byte_of(unsigned16(s[i]), 1));
    }
    assert(i16s_at(b, n, s.len()) =~= s);
}

/// Reads the 32-bit number at `pos`.
pub fn read_u32(b: &[u8], pos: usize) -> (r: u32)
    requires
        pos + 4 <= b@.len(),
    ensures
        r == u32_at(b@, pos as int),
{
    b[pos] as u32 + 256 * (b[pos + 1] as u32) + 65536 * (b[pos + 2] as u32) + 16777216 * (b[pos
        + 3] as u32)
}

/// Reads the signed 16-bit number at `pos`.
pub fn read_i16(b: &[u8], pos: usize) -> (r: i16)
    requires
        pos + 2 <= b@.len(),
    ensures
        r == i16_at(b@, pos as int),
{
    let v: i32 = b[pos] as i32 + 256 * (b[pos + 1] as i32);
    if v < 32768 {
        v as i16
    } else {
        (v - 65536) as i16
    }
}

/// Reads `n` 32-bit numbers from `pos` on.
pub fn read_u32s(b: &[u8], pos: usize, n: usize) -> (r: Vec<u32>)
    requires
        pos + 4 * n <= b@.len(),
    ensures
        r@ == u32s_at(b@, pos as int, n as nat),
{
    let len: usize = b.len();
    let mut r: Vec<u32> = Vec::new();
    let mut i: usize = 0;
    while i < n
        invariant
            i <= n,
            len == b@.len(),
            pos + 4 * n <= len,
            r@ == u32s_at(b@, pos as int, i as nat),
        decreases n - i,
    {
        r.push(read_u32(b, pos + 4 * i));
        i = i + 1;
        assert(r@ =~= u32s_at(b@, pos as int, i as nat));
    }
    r
}

/// Reads `n` signed 16-bit numbers from `pos` on.
pub fn read_i16s(b: &[u8], pos: usize, n: usize) -> (r: Vec<i16>)
    requires
        pos + 2 * n <= b@.len(),
    ensures
        r@ == i16s_at(b@, pos as int, n as nat),
{
    let len: usize = b.len();
    let mut r: Vec<i16> = Vec::new();
    let mut i: usize = 0;
    while i < n
        invariant
            i <= n,
            len == b@.len(),
            pos + 2 * n <= len,
            r@ == i16s_at(b@, pos as int, i as nat),
        decreases n - i,
    {
        r.push(read_i16(b, pos + 2 * i));
        i = i + 1;
        assert(r@ =~= i16s_at(b@, pos as int, i as nat));
    }
    r
}

/// Appends the bytes of a 32-bit number.
pub fn push_u32(out: &mut Vec<u8>, x: u32)
    ensures
        final(out)@ == old(out)@ + u32_bytes(x),
{
    let ghost before = out@;
    out.push((x % 256) as u8);
    out.push((x / 256 % 256) as u8);
    out.push((x / 65536 % 256) as u8);
    out.push((x / 16777216 % 256) as u8);
    assert(out@ =~= before + u32_bytes(x));
}

/// Appends the bytes of all of `s`.
pub fn push_u32s(out: &mut Vec<u8>, s: &[u32])
    ensures
        final(out)@ == old(out)@ + u32s_bytes(s@),
{
    let ghost before = out@;
    let mut i: usize = 0;
    assert(out@ =~= before + u32s_bytes(s@.take(0)));
    while i < s.len()
        invariant
            i <= s@.len(),
            out@ == before + u32s_bytes(s@.take(i as int)),
        decreases s@.len() - i,
    {
        push_u32(out, s[i]);
        assert(out@ =~= before + u32s_bytes(s@.take(i + 1)));
        i = i + 1;
    }
    assert(s@.take(i as int) =~= s@);
}

/// Appends the bytes of all of `s`.
pub fn push_i16s(out: &mut Vec<u8>, s: &[i16])
    ensures
        final(out)@ == old(out)@ + i16s_bytes(s@),
{
    let ghost before = out@;
    let mut i: usize = 0;
    assert(out@ =~= before + i16s_bytes(s@.take(0)));
    while i < s.len()
        invariant
            i <= s@.len(),
            out@ == before + i16s_bytes(s@.take(i as int)),
        decreases s@.len() - i,
    {
        let x: i16 = s[i];
        let w: i32 = if x < 0 {
            x as i32 + 65536
        } else {
            x as i32
        };
        out.push((w % 256) as u8);
        out.push((w / 256 % 256) as u8);
        assert(out@ =~= before + i16s_bytes(s@.take(i + 1)));
        i = i + 1;
    }
    assert(s@.take(i as int) =~= s@);
}

/// Appends all of `s`.
pub fn push_all(out: &mut Vec<u8>, s: &[u8])
    ensures
        final(out)@ == old(out)@ + s@,
{
    let ghost before = out@;
    let mut i: usize = 0;
    assert(out@ =~= before + s@.take(0));
    while i < s.len()
        invariant
            i <= s@.len(),
            out@ == before + s@.take(i as int),
        decreases s@.len() - i,
    {
        out.push(s[i]);
        assert(out@ =~= before + s@.take(i + 1));
        i = i + 1;
    }
    assert(s@.take(i as int) =~= s@);
}

/// Copies the bytes from `from` up to `to`.
pub fn copy_range(b: &[u8], from: usize, to: usize) -> (r: Vec<u8>)
    requires
        from <= to <= b@.len(),
    ensures
        r@ == b@.subrange(from as int, to as int),
{
    let mut r: Vec<u8> = Vec::new();
    push_all(&mut r, &b[from..to]);
    assert(r@ =~= b@.subrange(from as int, to as int));
    r
}

} // verus!
