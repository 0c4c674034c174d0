//! Fixed-width integer encodings and the byte-level reading helpers
//! shared by the node encoding and the file format.
use vstd::prelude::*;

verus! {

/// `s` holds `t` starting at position `pos`.
pub open spec fn holds_at(s: Seq<u8>, pos: int, t: Seq<u8>) -> bool {
    &&& 0 <= pos
    &&& pos + t.len() <= s.len()
    &&& s.subrange(pos, pos + t.len()) == t
}

pub proof fn lemma_holds_at_split(s: Seq<u8>, pos: int, a: Seq<u8>, b: Seq<u8>)
    requires
        holds_at(s, pos, a + b),
    ensures
        holds_at(s, pos, a),
        holds_at(s, pos + a.len(), b),
{
    assert(s.subrange(pos, pos + a.len()) =~= (a + b).subrange(0, a.len() as int));
    assert((a + b).subrange(0, a.len() as int) =~= a);
    assert(s.subrange(pos + a.len(), pos + a.len() + b.len()) =~= (a + b).subrange(
        a.len() as int,
        (a.len() + b.len()) as int,
    ));
    assert((a + b).subrange(a.len() as int, (a.len() + b.len()) as int) =~= b);
}

/// What a string holds, a longer string starting with it holds too.
pub proof fn lemma_holds_at_prefix(a: Seq<u8>, b: Seq<u8>, pos: int, t: Seq<u8>)
    requires
        holds_at(a, pos, t),
    ensures
        holds_at(a + b, pos, t),
{
    assert((a + b).subrange(pos, pos + t.len()) =~= a.subrange(pos, pos + t.len()));
}

/// What `t` holds at `q`, `s` holds at `p + q` when it holds `t` at `p`.
pub proof fn lemma_holds_at_compose(s: Seq<u8>, p: int, t: Seq<u8>, q: int, u: Seq<u8>)
    requires
        holds_at(s, p, t),
        holds_at(t, q, u),
    ensures
        holds_at(s, p + q, u),
{
    assert(s.subrange(p + q, p + q + u.len()) =~= t.subrange(q, q + u.len()));
}

pub proof fn lemma_holds_at_whole(s: Seq<u8>)
    ensures
        holds_at(s, 0, s),
{
    assert(s.subrange(0, s.len() as int) =~= s);
}

pub proof fn lemma_holds_at_index(s: Seq<u8>, pos: int, t: Seq<u8>, i: int)
    requires
        holds_at(s, pos, t),
        0 <= i < t.len(),
    ensures
        s[pos + i] == t[i],
{
    assert(s.subrange(pos, pos + t.len())[i] == s[pos + i]);
}

// ---------- little endian (node encoding) ----------

pub open spec fn u32_le_bytes(x: u32) -> Seq<u8> {
    seq![x as u8, (x >> 8) as u8, (x >> 16) as u8, (x >> 24) as u8]
}

pub open spec fn u64_le_bytes(x: u64) -> Seq<u8> {
    seq![
        x as u8,
        (x >> 8) as u8,
        (x >> 16) as u8,
        (x >> 24) as u8,
        (x >> 32) as u8,
        (x >> 40) as u8,
        (x >> 48) as u8,
        (x >> 56) as u8,
    ]
}

pub open spec fn u32_from_le(b0: u8, b1: u8, b2: u8, b3: u8) -> u32 {
    (b0 as u32) | ((b1 as u32) << 8) | ((b2 as u32) << 16) | ((b3 as u32) << 24)
}

pub open spec fn u64_from_le(b0: u8, b1: u8, b2: u8, b3: u8, b4: u8, b5: u8, b6: u8, b7: u8) -> u64 {
    (b0 as u64) | ((b1 as u64) << 8) | ((b2 as u64) << 16) | ((b3 as u64) << 24) | ((b4 as u64)
        << 32) | ((b5 as u64) << 40) | ((b6 as u64) << 48) | ((b7 as u64) << 56)
}

pub open spec fn parse_u32_le_at(s: Seq<u8>, pos: int) -> Option<(u32, int)> {
    if 0 <= pos && pos + 4 <= s.len() {
        Some((u32_from_le(s[pos], s[pos + 1], s[pos + 2], s[pos + 3]), pos + 4))
    } else {
        None
    }
}

pub open spec fn parse_u64_le_at(s: Seq<u8>, pos: int) -> Option<(u64, int)> {
    if 0 <= pos && pos + 8 <= s.len() {
        Some(
            (
                u64_from_le(
                    s[pos],
                    s[pos + 1],
                    s[pos + 2],
                    s[pos + 3],
                    s[pos + 4],
                    s[pos + 5],
                    s[pos + 6],
                    s[pos + 7],
                ),
                pos + 8,
            ),
        )
    } else {
        None
    }
}

proof fn lemma_u32_le_bits(x: u32)
    ensures
        u32_from_le(x as u8, (x >> 8) as u8, (x >> 16) as u8, (x >> 24) as u8) == x,
{
    assert(((x as u8) as u32) | ((((x >> 8) as u8) as u32) << 8) | ((((x >> 16) as u8) as u32)
        << 16) | ((((x >> 24) as u8) as u32) << 24) == x) by (bit_vector);
}

proof fn lemma_u64_le_bits(x: u64)
    ensures
        u64_from_le(
            x as u8,
            (x >> 8) as u8,
            (x >> 16) as u8,
            (x >> 24) as u8,
            (x >> 32) as u8,
            (x >> 40) as u8,
            (x >> 48) as u8,
            (x >> 56) as u8,
        ) == x,
{
    assert(((x as u8) as u64) | ((((x >> 8) as u8) as u64) << 8) | ((((x >> 16) as u8) as u64)
        << 16) | ((((x >> 24) as u8) as u64) << 24) | ((((x >> 32) as u8) as u64) << 32) | ((((x
        >> 40) as u8) as u64) << 40) | ((((x >> 48) as u8) as u64) << 48) | ((((x >> 56) as u8)
        as u64) << 56) == x) by (bit_vector);
}

pub proof fn lemma_parse_u32_le(s: Seq<u8>, pos: int, x: u32)
    requires
        holds_at(s, pos, u32_le_bytes(x)),
    ensures
        parse_u32_le_at(s, pos) == Some((x, pos + 4)),
{
    let t = u32_le_bytes(x);
    assert forall|i: int| 0 <= i < 4 implies s[pos + i] == t[i] by {
        lemma_holds_at_index(s, pos, t, i);
    }
    lemma_u32_le_bits(x);
}

pub proof fn lemma_parse_u64_le(s: Seq<u8>, pos: int, x: u64)
    requires
        holds_at(s, pos, u64_le_bytes(x)),
    ensures
        parse_u64_le_at(s, pos) == Some((x, pos + 8)),
{
    let t = u64_le_bytes(x);
    assert forall|i: int| 0 <= i < 8 implies s[pos + i] == t[i] by {
        lemma_holds_at_index(s, pos, t, i);
    }
    lemma_u64_le_bits(x);
}

pub fn push_u32_le(out: &mut Vec<u8>, x: u32)
    ensures
        final(out)@ == old(out)@ + u32_le_bytes(x),
{
    out.push(x as u8);
    out.push((x >> 8) as u8);
    out.push((x >> 16) as u8);
    out.push((x >> 24) as u8);
    assert(out@ =~= old(out)@ + u32_le_bytes(x));
}

pub fn push_u64_le(out: &mut Vec<u8>, x: u64)
    ensures
        final(out)@ == old(out)@ + u64_le_bytes(x),
{
    out.push(x as u8);
    out.push((x >> 8) as u8);
    out.push((x >> 16) as u8);
    out.push((x >> 24) as u8);
    out.push((x >> 32) as u8);
    out.push((x >> 40) as u8);
    out.push((x >> 48) as u8);
    out.push((x >> 56) as u8);
    assert(out@ =~= old(out)@ + u64_le_bytes(x));
}

/// Appends every byte of `bytes` to `out`.
pub fn push_all(out: &mut Vec<u8>, bytes: &[u8])
    ensures
        final(out)@ == old(out)@ + bytes@,
{
    let mut i: usize = 0;
    while i < bytes.len()
        invariant
            i <= bytes.len(),
            out@ == old(out)@ + bytes@.take(i as int),
        decreases bytes.len() - i,
    {
        out.push(bytes[i]);
        i = i + 1;
        assert(out@ =~= old(out)@ + bytes@.take(i as int));
    }
    assert(bytes@.take(i as int) =~= bytes@);
}

pub fn read_u32_le(s: &[u8], pos: usize) -> (r: Option<(u32, usize)>)
    ensures
        match parse_u32_le_at(s@, pos as int) {
            Some((v, p)) => (r matches Some((x, q)) && x == v && q == p),
            None => r is None,
        },
{
    if s.len() < 4 || pos > s.len() - 4 {
        return None;
    }
    let v = (s[pos] as u32) | ((s[pos + 1] as u32) << 8) | ((s[pos + 2] as u32) << 16) | ((s[pos
        + 3] as u32) << 24);
    Some((v, pos + 4))
}

pub fn read_u64_le(s: &[u8], pos: usize) -> (r: Option<(u64, usize)>)
    ensures
        match parse_u64_le_at(s@, pos as int) {
            Some((v, p)) => (r matches Some((x, q)) && x == v && q == p),
            None => r is None,
        },
{
    if s.len() < 8 || pos > s.len() - 8 {
        return None;
    }
    let v = (s[pos] as u64) | ((s[pos + 1] as u64) << 8) | ((s[pos + 2] as u64) << 16) | ((s[pos
        + 3] as u64) << 24) | ((s[pos + 4] as u64) << 32) | ((s[pos + 5] as u64) << 40) | ((s[pos
        + 6] as u64) << 48) | ((s[pos + 7] as u64) << 56);
    Some((v, pos + 8))
}

/// Copies `len` bytes of `s` starting at `pos`.
pub fn copy_range(s: &[u8], pos: usize, len: usize) -> (r: Vec<u8>)
    requires
        pos + len <= s.len(),
    ensures
        r@ == s@.subrange(pos as int, pos + len),
{
    let mut out: Vec<u8> = Vec::with_capacity(len);
    let mut i: usize = 0;
    while i < len
        invariant
            i <= len,
            pos + len <= s.len(),
            out@ == s@.subrange(pos as int, pos + i),
        decreases len - i,
    {
        out.push(s[pos + i]);
        i = i + 1;
        assert(out@ =~= s@.subrange(pos as int, pos + i));
    }
    out
}

// ---------- big endian (file format) ----------

pub open spec fn u32_be_bytes(x: u32) -> Seq<u8> {
    seq![(x >> 24) as u8, (x >> 16) as u8, (x >> 8) as u8, x as u8]
}

pub open spec fn u64_be_bytes(x: u64) -> Seq<u8> {
    seq![
        (x >> 56) as u8,
        (x >> 48) as u8,
        (x >> 40) as u8,
        (x >> 32) as u8,
        (x >> 24) as u8,
        (x >> 16) as u8,
        (x >> 8) as u8,
        x as u8,
    ]
}

pub fn push_u32_be(out: &mut Vec<u8>, x: u32)
    ensures
        final(out)@ == old(out)@ + u32_be_bytes(x),
{
    out.push((x >> 24) as u8);
    out.push((x >> 16) as u8);
    out.push((x >> 8) as u8);
    out.push(x as u8);
    assert(out@ =~= old(out)@ + u32_be_bytes(x));
}

pub fn push_u64_be(out: &mut Vec<u8>, x: u64)
    ensures
        final(out)@ == old(out)@ + u64_be_bytes(x),
{
    out.push((x >> 56) as u8);
    out.push((x >> 48) as u8);
    out.push((x >> 40) as u8);
    out.push((x >> 32) as u8);
    out.push((x >> 24) as u8);
    out.push((x >> 16) as u8);
    out.push((x >> 8) as u8);
    out.push(x as u8);
    assert(out@ =~= old(out)@ + u64_be_bytes(x));
}

/// Reads a big-endian `u32` at `pos`: the value whose encoding the four
/// bytes there are.
pub fn read_u32_be(s: &[u8], pos: usize) -> (r: Option<(u32, usize)>)
    ensures
        r is Some <==> pos + 4 <= s@.len(),
        r matches Some((x, q)) ==> q == pos + 4 && u32_be_bytes(x) == s@.subrange(pos as int, pos + 4),
{
    if s.len() < 4 || pos > s.len() - 4 {
        return None;
    }
    let b0 = s[pos];
    let b1 = s[pos + 1];
    let b2 = s[pos + 2];
    let b3 = s[pos + 3];
    let v = ((b0 as u32) << 24) | ((b1 as u32) << 16) | ((b2 as u32) << 8) | (b3 as u32);
    assert(((v >> 24) as u8) == b0 && ((v >> 16) as u8) == b1 && ((v >> 8) as u8) == b2 && (v as u8)
        == b3) by (bit_vector)
        requires
            v == ((b0 as u32) << 24) | ((b1 as u32) << 16) | ((b2 as u32) << 8) | (b3 as u32),
    ;
    assert(u32_be_bytes(v) =~= s@.subrange(pos as int, pos + 4));
    Some((v, pos + 4))
}

/// Reads a big-endian `u64` at `pos`: the value whose encoding the eight
/// bytes there are.
pub fn read_u64_be(s: &[u8], pos: usize) -> (r: Option<(u64, usize)>)
    ensures
        r is Some <==> pos + 8 <= s@.len(),
        r matches Some((x, q)) ==> q == pos + 8 && u64_be_bytes(x) == s@.subrange(pos as int, pos + 8),
{
    if s.len() < 8 || pos > s.len() - 8 {
        return None;
    }
    let b0 = s[pos];
    let b1 = s[pos + 1];
    let b2 = s[pos + 2];
    let b3 = s[pos + 3];
    let b4 = s[pos + 4];
    let b5 = s[pos + 5];
    let b6 = s[pos + 6];
    let b7 = s[pos + 7];
    let v = ((b0 as u64) << 56) | ((b1 as u64) << 48) | ((b2 as u64) << 40) | ((b3 as u64) << 32)
        | ((b4 as u64) << 24) | ((b5 as u64) << 16) | ((b6 as u64) << 8) | (b7 as u64);
    assert(((v >> 56) as u8) == b0 && ((v >> 48) as u8) == b1 && ((v >> 40) as u8) == b2 && ((v
        >> 32) as u8) == b3 && ((v >> 24) as u8) == b4 && ((v >> 16) as u8) == b5 && ((v >> 8)
        as u8) == b6 && (v as u8) == b7) by (bit_vector)
        requires
            v == ((b0 as u64) << 56) | ((b1 as u64) << 48) | ((b2 as u64) << 40) | ((b3 as u64)
                << 32) | ((b4 as u64) << 24) | ((b5 as u64) << 16) | ((b6 as u64) << 8) | (b7 as u64),
    ;
    assert(u64_be_bytes(v) =~= s@.subrange(pos as int, pos + 8));
    Some((v, pos + 8))
}

/// Two big-endian encodings are equal only for equal values.
pub proof fn lemma_u64_be_injective(x: u64, y: u64)
    requires
        u64_be_bytes(x) == u64_be_bytes(y),
    ensures
        x == y,
{
    assert(u64_be_bytes(x)[0] == u64_be_bytes(y)[0]);
    assert(u64_be_bytes(x)[1] == u64_be_bytes(y)[1]);
    assert(u64_be_bytes(x)[2] == u64_be_bytes(y)[2]);
    assert(u64_be_bytes(x)[3] == u64_be_bytes(y)[3]);
    assert(u64_be_bytes(x)[4] == u64_be_bytes(y)[4]);
    assert(u64_be_bytes(x)[5] == u64_be_bytes(y)[5]);
    assert(u64_be_bytes(x)[6] == u64_be_bytes(y)[6]);
    assert(u64_be_bytes(x)[7] == u64_be_bytes(y)[7]);
    assert(((x >> 56) as u8) == ((y >> 56) as u8) && ((x >> 48) as u8) == ((y >> 48) as u8) && ((x
        >> 40) as u8) == ((y >> 40) as u8) && ((x >> 32) as u8) == ((y >> 32) as u8) && ((x >> 24)
        as u8) == ((y >> 24) as u8) && ((x >> 16) as u8) == ((y >> 16) as u8) && ((x >> 8) as u8)
        == ((y >> 8) as u8) && (x as u8) == (y as u8) ==> x == y) by (bit_vector);
}

/// Two big-endian encodings are equal only for equal values.
pub proof fn lemma_u32_be_injective(x: u32, y: u32)
    requires
        u32_be_bytes(x) == u32_be_bytes(y),
    ensures
        x == y,
{
    assert(u32_be_bytes(x)[0] == u32_be_bytes(y)[0]);
    assert(u32_be_bytes(x)[1] == u32_be_bytes(y)[1]);
    assert(u32_be_bytes(x)[2] == u32_be_bytes(y)[2]);
    assert(u32_be_bytes(x)[3] == u32_be_bytes(y)[3]);
    assert(((x >> 24) as u8) == ((y >> 24) as u8) && ((x >> 16) as u8) == ((y >> 16) as u8) && ((x
        >> 8) as u8) == ((y >> 8) as u8) && (x as u8) == (y as u8) ==> x == y) by (bit_vector);
}

/// Reads the eight bytes at `pos`.
pub fn read_array8(s: &[u8], pos: usize) -> (r: Option<([u8; 8], usize)>)
    ensures
        r is Some <==> pos + 8 <= s@.len(),
        r matches Some((a, q)) ==> q == pos + 8 && a@ == s@.subrange(pos as int, pos + 8),
{
    if s.len() < 8 || pos > s.len() - 8 {
        return None;
    }
    let mut a: [u8; 8] = [0u8; 8];
    let mut i: usize = 0;
    while i < 8
        invariant
            i <= 8,
            pos + 8 <= s.len(),
            a@.len() == 8,
            forall|j: int| 0 <= j < i ==> a@[j] == s@[pos + j],
        decreases 8 - i,
    {
        a[i] = s[pos + i];
        i = i + 1;
    }
    assert(a@ =~= s@.subrange(pos as int, pos + 8));
    Some((a, pos + 8))
}

/// Reads the thirty-two bytes at `pos`.
pub fn read_array32(s: &[u8], pos: usize) -> (r: Option<([u8; 32], usize)>)
    ensures
        r is Some <==> pos + 32 <= s@.len(),
        r matches Some((a, q)) ==> q == pos + 32 && a@ == s@.subrange(pos as int, pos + 32),
{
    if s.len() < 32 || pos > s.len() - 32 {
        return None;
    }
    let mut a: [u8; 32] = [0u8; 32];
    let mut i: usize = 0;
    while i < 32
        invariant
            i <= 32,
            pos + 32 <= s.len(),
            a@.len() == 32,
            forall|j: int| 0 <= j < i ==> a@[j] == s@[pos + j],
        decreases 32 - i,
    {
        a[i] = s[pos + i];
        i = i + 1;
    }
    assert(a@ =~= s@.subrange(pos as int, pos + 32));
    Some((a, pos + 32))
}

} // verus!
