//! Little-endian integers in byte sequences.

use vstd::prelude::*;

verus! {

/// The four bytes of `v`, low byte first. `v` lies in `[0, 2^32)`.
#[verifier::opaque]
pub open spec fn u32_bytes(v: int) -> Seq<u8> {
    seq![
        (v % 256) as u8,
        ((v / 256) % 256) as u8,
        ((v / 65536) % 256) as u8,
        ((v / 16777216) % 256) as u8,
    ]
}

/// The four bytes of `v` in two's complement, low byte first.
pub open spec fn i32_bytes(v: int) -> Seq<u8> {
    u32_bytes(
        if v < 0 {
            v + 0x1_0000_0000
        } else {
            v
        },
    )
}

/// The number that the four bytes of `data` from `at` on stand for, low
/// byte first.
pub open spec fn u32_at(data: Seq<u8>, at: int) -> int {
    data[at] + 256 * data[at + 1] + 65536 * data[at + 2] + 16777216 * data[at + 3]
}

/// The number that the four bytes of `data` from `at` on stand for, high
/// byte first.
pub open spec fn u32_be_at(data: Seq<u8>, at: int) -> int {
    16777216 * data[at] + 65536 * data[at + 1] + 256 * data[at + 2] + data[at + 3]
}

/// The number that the four bytes of `data` from `at` on stand for in
/// two's complement, low byte first.
pub open spec fn i32_at(data: Seq<u8>, at: int) -> int {
    if u32_at(data, at) >= 0x8000_0000 {
        u32_at(data, at) - 0x1_0000_0000
    } else {
        u32_at(data, at)
    }
}

/// Whether `data` has `len` bytes from `at` on.
pub open spec fn has_bytes(data: Seq<u8>, at: int, len: int) -> bool {
    0 <= at && 0 <= len && at + len <= data.len()
}

/// A number has four bytes, which stand for the number.
pub proof fn lemma_u32_bytes(v: int)
    requires
        0 <= v < 0x1_0000_0000,
    ensures
        u32_bytes(v).len() == 4,
        u32_at(u32_bytes(v), 0) == v,
{
    reveal(u32_bytes);
}

/// A signed number has four bytes, which stand for the number.
pub proof fn lemma_i32_bytes(v: int)
    requires
        -0x8000_0000 <= v < 0x8000_0000,
    ensures
        i32_bytes(v).len() == 4,
        i32_at(i32_bytes(v), 0) == v,
{
    lemma_u32_bytes(
        if v < 0 {
            v + 0x1_0000_0000
        } else {
            v
        },
    );
}

/// Four bytes stand for the same number wherever they lie.
pub proof fn lemma_u32_at_part(head: Seq<u8>, part: Seq<u8>, tail: Seq<u8>)
    requires
        part.len() == 4,
    ensures
        u32_at(head + part + tail, head.len() as int) == u32_at(part, 0),
        i32_at(head + part + tail, head.len() as int) == i32_at(part, 0),
{
    let data = head + part + tail;
    let at = head.len() as int;
    assert(data[at] == part[0]);
    assert(data[at + 1] == part[1]);
    assert(data[at + 2] == part[2]);
    assert(data[at + 3] == part[3]);
}

/// Joining five parts between a head and a tail: where each part starts,
/// whatever the brackets.
pub proof fn lemma_five_parts(
    head: Seq<u8>,
    a: Seq<u8>,
    b: Seq<u8>,
    c: Seq<u8>,
    d: Seq<u8>,
    e: Seq<u8>,
    tail: Seq<u8>,
)
    ensures
        head + (a + b + c + d + e) + tail == head + a + (b + c + d + e + tail),
        head + (a + b + c + d + e) + tail == (head + a) + b + (c + d + e + tail),
        head + (a + b + c + d + e) + tail == (head + a + b) + c + (d + e + tail),
        head + (a + b + c + d + e) + tail == (head + a + b + c) + d + (e + tail),
        (head + (a + b + c + d + e) + tail).subrange(
            (head.len() + a.len() + b.len() + c.len() + d.len()) as int,
            (head.len() + a.len() + b.len() + c.len() + d.len() + e.len()) as int,
        ) == e,
{
    let data = head + (a + b + c + d + e) + tail;
    assert(data =~= head + a + (b + c + d + e + tail));
    assert(data =~= (head + a) + b + (c + d + e + tail));
    assert(data =~= (head + a + b) + c + (d + e + tail));
    assert(data =~= (head + a + b + c) + d + (e + tail));
    assert(data.subrange(
        (head.len() + a.len() + b.len() + c.len() + d.len()) as int,
        (head.len() + a.len() + b.len() + c.len() + d.len() + e.len()) as int,
    ) =~= e);
}

/// Whether `data` has `len` bytes from `at` on.
pub fn in_reach(data: &[u8], at: usize, len: usize) -> (b: bool)
    ensures
        b == has_bytes(data@, at as int, len as int),
        data@.len() <= usize::MAX,
{
    len <= data.len() && at <= data.len() - len
}

/// The number at `at`, or `None` where `data` has no four bytes there.
pub fn read_u32(data: &[u8], at: usize) -> (v: Option<u32>)
    ensures
        v == (if has_bytes(data@, at as int, 4) {
            Some(u32_at(data@, at as int) as u32)
        } else {
            None
        }),
        v matches Some(n) ==> n == u32_at(data@, at as int),
{
    if data.len() < 4 || at > data.len() - 4 {
        return None;
    }
    let v: u32 = data[at] as u32 + 256 * (data[at + 1] as u32) + 65536 * (data[at + 2] as u32)
        + 16777216 * (data[at + 3] as u32);
    Some(v)
}

/// The signed number at `at`, or `None` where `data` has no four bytes there.
pub fn read_i32(data: &[u8], at: usize) -> (v: Option<i32>)
    ensures
        v == (if has_bytes(data@, at as int, 4) {
            Some(i32_at(data@, at as int) as i32)
        } else {
            None
        }),
        v matches Some(n) ==> n == i32_at(data@, at as int),
{
    match read_u32(data, at) {
        Some(u) => {
            if u >= 0x8000_0000 {
                Some((u as i64 - 0x1_0000_0000) as i32)
            } else {
                Some(u as i32)
            }
        },
        None => None,
    }
}

/// Appends the four bytes of `v`.
pub fn write_u32(buf: &mut Vec<u8>, v: u32)
    ensures
        final(buf)@ == old(buf)@ + u32_bytes(v as int),
{
    let ghost before = buf@;
    buf.push((v % 256) as u8);
    buf.push(((v / 256) % 256) as u8);
    buf.push(((v / 65536) % 256) as u8);
    buf.push(((v / 16777216) % 256) as u8);
    proof {
        reveal(u32_bytes);
    }
    assert(buf@ =~= before + u32_bytes(v as int));
}

/// Appends the four bytes of `v` in two's complement.
pub fn write_i32(buf: &mut Vec<u8>, v: i32)
    ensures
        final(buf)@ == old(buf)@ + i32_bytes(v as int),
{
    let u: u32 = if v < 0 {
        (v as i64 + 0x1_0000_0000) as u32
    } else {
        v as u32
    };
    write_u32(buf, u);
}

/// Appends the bytes of `data` from `from` up to `to`.
pub fn write_range(buf: &mut Vec<u8>, data: &[u8], from: usize, to: usize)
    requires
        from <= to <= data@.len(),
    ensures
        final(buf)@ == old(buf)@ + data@.subrange(from as int, to as int),
{
    let ghost before = buf@;
    let mut i: usize = from;
    while i < to
        invariant
            from <= i <= to <= data@.len(),
            buf@ == before + data@.subrange(from as int, i as int),
        decreases to - i,
    {
        buf.push(data[i]);
        i = i + 1;
        assert(buf@ =~= before + data@.subrange(from as int, i as int));
    }
}

/// The bytes of `data` from `from` up to `to`.
pub fn copy_range(data: &[u8], from: usize, to: usize) -> (out: Vec<u8>)
    requires
        from <= to <= data@.len(),
    ensures
        out@ == data@.subrange(from as int, to as int),
{
    let mut out: Vec<u8> = Vec::new();
    write_range(&mut out, data, from, to);
    assert(out@ =~= data@.subrange(from as int, to as int));
    out
}

/// Joining byte sequences does not depend on where the brackets stand.
pub proof fn lemma_concat_assoc(a: Seq<u8>, b: Seq<u8>, c: Seq<u8>)
    ensures
        a + (b + c) == (a + b) + c,
{
    assert(a + (b + c) =~= (a + b) + c);
}

/// The byte sequences of `parts`, one after the other.
pub open spec fn joined(parts: Seq<Seq<u8>>) -> Seq<u8>
    decreases parts.len(),
{
    if parts.len() == 0 {
        Seq::empty()
    } else {
        parts.first() + joined(parts.drop_first())
    }
}

/// Joining with one more part at the end appends the part.
pub proof fn lemma_joined_push(parts: Seq<Seq<u8>>, last: Seq<u8>)
    ensures
        joined(parts.push(last)) == joined(parts) + last,
    decreases parts.len(),
{
    let more = parts.push(last);
    if parts.len() == 0 {
        assert(more.drop_first() =~= Seq::empty());
        assert(joined(more.drop_first()) == Seq::<u8>::empty());
        assert(more.first() == last);
        assert(last + Seq::<u8>::empty() =~= Seq::<u8>::empty() + last);
    } else {
        lemma_joined_push(parts.drop_first(), last);
        assert(more.drop_first() =~= parts.drop_first().push(last));
        lemma_concat_assoc(parts.first(), joined(parts.drop_first()), last);
    }
}

/// Where part `k` of `parts` starts in their joining: the lengths of
/// the parts before it, added up.
pub open spec fn part_start(parts: Seq<Seq<u8>>, k: int) -> int
    decreases k,
{
    if k <= 0 {
        0
    } else {
        part_start(parts, k - 1) + parts[k - 1].len()
    }
}

/// Whether `data` holds the bytes of `part` from `at` on.
pub open spec fn has_part(data: Seq<u8>, at: int, part: Seq<u8>) -> bool {
    &&& 0 <= at
    &&& at + part.len() <= data.len()
    &&& forall|j: int| 0 <= j < part.len() ==> data[at + j] == #[trigger] part[j]
}

/// A part starts after the first part where it starts among the others.
proof fn lemma_part_start_shift(parts: Seq<Seq<u8>>, k: int)
    requires
        1 <= k <= parts.len(),
    ensures
        part_start(parts, k) == parts.first().len() + part_start(parts.drop_first(), k - 1),
        part_start(parts, k) >= 0,
    decreases k,
{
    if k > 1 {
        lemma_part_start_shift(parts, k - 1);
        assert(parts.drop_first()[k - 2] == parts[k - 1]);
    } else {
        assert(part_start(parts, 0) == 0);
        assert(part_start(parts.drop_first(), 0) == 0);
    }
}

/// The joining of parts ends where a part after the last would start.
pub proof fn lemma_joined_len(parts: Seq<Seq<u8>>)
    ensures
        joined(parts).len() == part_start(parts, parts.len() as int),
    decreases parts.len(),
{
    if parts.len() > 0 {
        lemma_joined_len(parts.drop_first());
        lemma_part_start_shift(parts, parts.len() as int);
    }
}

/// The joining of parts holds each part at its start.
pub proof fn lemma_joined_part(parts: Seq<Seq<u8>>, k: int)
    requires
        0 <= k < parts.len(),
    ensures
        has_part(joined(parts), part_start(parts, k), parts[k]),
    decreases parts.len(),
{
    let rest = parts.drop_first();
    lemma_joined_len(parts);
    lemma_joined_len(rest);
    lemma_part_start_shift(parts, parts.len() as int);
    if k > 0 {
        lemma_joined_part(rest, k - 1);
        lemma_part_start_shift(parts, k);
        lemma_part_start_shift(parts, k + 1);
        assert(rest[k - 1] == parts[k]);
        let at = part_start(rest, k - 1);
        assert forall|j: int| 0 <= j < parts[k].len() implies joined(parts)[part_start(parts, k)
            + j] == #[trigger] parts[k][j] by {
            assert(joined(parts)[parts.first().len() + at + j] == joined(rest)[at + j]);
        }
    }
}

/// Four bytes that `data` holds stand for the same number in `data`.
pub proof fn lemma_part_u32(data: Seq<u8>, at: int, part: Seq<u8>)
    requires
        has_part(data, at, part),
        part.len() == 4,
    ensures
        u32_at(data, at) == u32_at(part, 0),
        i32_at(data, at) == i32_at(part, 0),
        data.subrange(at, at + 4) == part,
{
    assert(data[at] == part[0]);
    assert(data[at + 1] == part[1]);
    assert(data[at + 2] == part[2]);
    assert(data[at + 3] == part[3]);
    assert(data.subrange(at, at + 4) =~= part);
}

} // verus!
