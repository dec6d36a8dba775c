use vstd::prelude::*;

verus! {

/// The big-endian `u32` held by the four bytes of `s` from `at` on.
pub open spec fn word(s: Seq<u8>, at: int) -> u32 {
    ((s[at] as u32) << 24u32) | ((s[at + 1] as u32) << 16u32) | ((s[at + 2] as u32) << 8u32) | (
    s[at + 3] as u32)
}

/// The big-endian `u16` held by the two bytes of `s` from `at` on.
pub open spec fn half(s: Seq<u8>, at: int) -> u16 {
    ((s[at] as u16) << 8u16) | (s[at + 1] as u16)
}

/// The four big-endian bytes of `x`.
pub open spec fn word_bytes(x: u32) -> Seq<u8> {
    seq![(x >> 24u32) as u8, (x >> 16u32) as u8, (x >> 8u32) as u8, x as u8]
}

/// The two big-endian bytes of `x`.
pub open spec fn half_bytes(x: u16) -> Seq<u8> {
    seq![(x >> 8u16) as u8, x as u8]
}

/// A word reads the same from any sequence that agrees on its four bytes.
pub proof fn lemma_word_frame(a: Seq<u8>, b: Seq<u8>, at: int)
    requires
        0 <= at,
        at + 4 <= a.len(),
        at + 4 <= b.len(),
        a[at] == b[at],
        a[at + 1] == b[at + 1],
        a[at + 2] == b[at + 2],
        a[at + 3] == b[at + 3],
    ensures
        word(a, at) == word(b, at),
{
}

/// Reads the big-endian word at `at`.
pub fn read_word(s: &Vec<u8>, at: usize) -> (r: u32)
    requires
        at + 4 <= s.len(),
    ensures
        r == word(s@, at as int),
{
    ((s[at] as u32) << 24u32) | ((s[at + 1] as u32) << 16u32) | ((s[at + 2] as u32) << 8u32) | (
    s[at + 3] as u32)
}

/// Reads the big-endian half-word at `at`.
pub fn read_half(s: &Vec<u8>, at: usize) -> (r: u16)
    requires
        at + 2 <= s.len(),
    ensures
        r == half(s@, at as int),
{
    ((s[at] as u16) << 8u16) | (s[at + 1] as u16)
}

/// Appends `x` in four big-endian bytes.
pub fn push_word(buf: &mut Vec<u8>, x: u32)
    ensures
        final(buf)@.len() == old(buf)@.len() + 4,
        forall|i: int| 0 <= i < old(buf)@.len() ==> #[trigger] final(buf)@[i] == old(buf)@[i],
        word(final(buf)@, old(buf)@.len() as int) == x,
        final(buf)@ == old(buf)@ + word_bytes(x),
{
    let b0 = (x >> 24u32) as u8;
    let b1 = (x >> 16u32) as u8;
    let b2 = (x >> 8u32) as u8;
    let b3 = x as u8;
    assert(((b0 as u32) << 24u32) | ((b1 as u32) << 16u32) | ((b2 as u32) << 8u32) | (b3 as u32)
        == x) by (bit_vector)
        requires
            b0 == (x >> 24u32) as u8,
            b1 == (x >> 16u32) as u8,
            b2 == (x >> 8u32) as u8,
            b3 == x as u8,
    ;
    let ghost start = buf@;
    buf.push(b0);
    buf.push(b1);
    buf.push(b2);
    buf.push(b3);
    assert(buf@ =~= start + word_bytes(x));
}

/// Appends `x` in two big-endian bytes.
pub fn push_half(buf: &mut Vec<u8>, x: u16)
    ensures
        final(buf)@.len() == old(buf)@.len() + 2,
        forall|i: int| 0 <= i < old(buf)@.len() ==> #[trigger] final(buf)@[i] == old(buf)@[i],
        half(final(buf)@, old(buf)@.len() as int) == x,
        final(buf)@ == old(buf)@ + half_bytes(x),
{
    let b0 = (x >> 8u16) as u8;
    let b1 = x as u8;
    assert(((b0 as u16) << 8u16) | (b1 as u16) == x) by (bit_vector)
        requires
            b0 == (x >> 8u16) as u8,
            b1 == x as u8,
    ;
    let ghost start = buf@;
    buf.push(b0);
    buf.push(b1);
    assert(buf@ =~= start + half_bytes(x));
}

/// Appends each word of `ws` in turn, and `pad` zero words after them.
pub fn push_words(buf: &mut Vec<u8>, ws: &Vec<u32>, pad: usize)
    requires
        old(buf)@.len() + 4 * (ws@.len() + pad) <= usize::MAX,
    ensures
        final(buf)@.len() == old(buf)@.len() + 4 * (ws@.len() + pad),
        forall|i: int| 0 <= i < old(buf)@.len() ==> #[trigger] final(buf)@[i] == old(buf)@[i],
        forall|j: int|
            0 <= j < ws@.len() + pad ==> #[trigger] word(final(buf)@, old(buf)@.len() + 4 * j) == if j
                < ws@.len() {
                ws@[j]
            } else {
                0
            },
{
    let ghost start = buf@.len();
    let n = ws.len();
    let mut j: usize = 0;
    while j < n + pad
        invariant
            j <= n + pad,
            n == ws@.len(),
            start + 4 * (n + pad) <= usize::MAX,
            buf@.len() == start + 4 * j,
            forall|i: int| 0 <= i < start ==> #[trigger] buf@[i] == old(buf)@[i],
            forall|k: int|
                0 <= k < j ==> #[trigger] word(buf@, start + 4 * k) == if k < n {
                    ws@[k]
                } else {
                    0
                },
        decreases n + pad - j,
    {
        let x = if j < n {
            ws[j]
        } else {
            0
        };
        let ghost before = buf@;
        push_word(buf, x);
        proof {
            assert forall|k: int| 0 <= k < j + 1 implies #[trigger] word(buf@, start + 4 * k) == if k
                < n {
                ws@[k]
            } else {
                0
            } by {
                if k < j {
                    lemma_word_frame(before, buf@, start + 4 * k);
                }
            }
        }
        j += 1;
    }
}

} // verus!
