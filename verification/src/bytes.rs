//! Little-endian words and the byte strings they are stored as.

use vstd::prelude::*;

verus! {

/// Byte `k` (0 = least significant) of a 32-bit word.
pub open spec fn le_byte(w: u32, k: int) -> u8 {
    if k == 0 {
        (w % 256) as u8
    } else if k == 1 {
        ((w / 256) % 256) as u8
    } else if k == 2 {
        ((w / 65536) % 256) as u8
    } else {
        (w / 16777216) as u8
    }
}

/// The four bytes of a word, least significant first.
pub open spec fn le32(w: u32) -> Seq<u8> {
    seq![le_byte(w, 0), le_byte(w, 1), le_byte(w, 2), le_byte(w, 3)]
}

/// The two bytes of a half word, least significant first.
pub open spec fn le16(h: u16) -> Seq<u8> {
    seq![(h % 256) as u8, (h / 256) as u8]
}

/// The word stored at byte offset `p`.
pub open spec fn word_at(b: Seq<u8>, p: int) -> u32 {
    (b[p] + 256 * b[p + 1] + 65536 * b[p + 2] + 16777216 * b[p + 3]) as u32
}

/// The half word stored at byte offset `p`.
pub open spec fn half_at(b: Seq<u8>, p: int) -> u16 {
    (b[p] + 256 * b[p + 1]) as u16
}

/// A word string as bytes.
#[verifier::opaque]
pub open spec fn words_bytes(ws: Seq<u32>) -> Seq<u8> {
    Seq::new(4 * ws.len(), |k: int| le_byte(ws[k / 4], k % 4))
}

/// A word takes four bytes.
pub broadcast proof fn lemma_words_bytes_len(ws: Seq<u32>)
    ensures
        #[trigger] words_bytes(ws).len() == 4 * ws.len(),
{
    reveal(words_bytes);
}

/// A word is stored in four bytes and a half word in two, the least significant first, and
/// each behind the one before.
pub proof fn numbers_are_stored_low_byte_first(ws: Seq<u32>, hs: Seq<u16>, k: int)
    ensures
        words_bytes(ws).len() == 4 * ws.len(),
        halves_bytes(hs).len() == 2 * hs.len(),
        0 <= k < ws.len() ==> ({
            let b = words_bytes(ws);
            ws[k] == b[4 * k] + 0x100 * b[4 * k + 1] + 0x1_0000 * b[4 * k + 2] + 0x100_0000 * b[4
                * k + 3]
        }),
        0 <= k < hs.len() ==> ({
            let b = halves_bytes(hs);
            hs[k] == b[2 * k] + 0x100 * b[2 * k + 1]
        }),
{
    reveal(words_bytes);
    if 0 <= k < ws.len() {
        assert((4 * k) / 4 == k && (4 * k) % 4 == 0);
        assert((4 * k + 1) / 4 == k && (4 * k + 1) % 4 == 1);
        assert((4 * k + 2) / 4 == k && (4 * k + 2) % 4 == 2);
        assert((4 * k + 3) / 4 == k && (4 * k + 3) % 4 == 3);
        lemma_word_round_trip(ws[k]);
    }
    if 0 <= k < hs.len() {
        assert((2 * k) / 2 == k && (2 * k) % 2 == 0);
        assert((2 * k + 1) / 2 == k && (2 * k + 1) % 2 == 1);
    }
}

/// The whole words at the front of a byte string.
pub open spec fn bytes_words(b: Seq<u8>) -> Seq<u32> {
    Seq::new(b.len() / 4, |k: int| word_at(b, 4 * k))
}

/// A half-word string as bytes.
pub open spec fn halves_bytes(hs: Seq<u16>) -> Seq<u8> {
    Seq::new(2 * hs.len(), |k: int| le16(hs[k / 2])[k % 2])
}

/// The whole half words at the front of a byte string.
pub open spec fn bytes_halves(b: Seq<u8>) -> Seq<u16> {
    Seq::new(b.len() / 2, |k: int| half_at(b, 2 * k))
}

/// Storing a word and reading it back changes nothing.
pub proof fn lemma_word_round_trip(w: u32)
    ensures
        word_at(le32(w), 0) == w,
{
}

proof fn lemma_base_256(a: int, b: int, c: int, d: int)
    requires
        0 <= a < 256,
        0 <= b < 256,
        0 <= c < 256,
        0 <= d < 256,
    ensures
        ({
            let w = a + 256 * b + 65536 * c + 16777216 * d;
            &&& 0 <= w <= u32::MAX
            &&& w % 256 == a
            &&& (w / 256) % 256 == b
            &&& (w / 65536) % 256 == c
            &&& w / 16777216 == d
        }),
{
    let w = a + 256 * b + 65536 * c + 16777216 * d;
    assert(w / 256 == b + 256 * c + 65536 * d);
    assert(w / 65536 == c + 256 * d);
    assert(w / 16777216 == d);
}

/// Reading a word and storing it again gives the four bytes it was read from.
pub proof fn lemma_bytes_round_trip(b: Seq<u8>, p: int)
    requires
        0 <= p,
        p + 4 <= b.len(),
    ensures
        le_byte(word_at(b, p), 0) == b[p],
        le_byte(word_at(b, p), 1) == b[p + 1],
        le_byte(word_at(b, p), 2) == b[p + 2],
        le_byte(word_at(b, p), 3) == b[p + 3],
        le32(word_at(b, p)) == b.subrange(p, p + 4),
{
    lemma_base_256(b[p] as int, b[p + 1] as int, b[p + 2] as int, b[p + 3] as int);
    assert(le32(word_at(b, p)) =~= b.subrange(p, p + 4));
}

/// Words written in two parts are the two parts' bytes in a row.
pub proof fn lemma_words_bytes_add(a: Seq<u32>, b: Seq<u32>)
    ensures
        words_bytes(a + b) == words_bytes(a) + words_bytes(b),
{
    reveal(words_bytes);
    assert(words_bytes(a + b) =~= words_bytes(a) + words_bytes(b)) by {
        assert forall|k: int| 4 * a.len() <= k < 4 * (a.len() + b.len()) implies words_bytes(
            a + b,
        )[k] == words_bytes(b)[k - 4 * a.len()] by {
            assert(k / 4 - a.len() == (k - 4 * a.len()) / 4);
            assert(k % 4 == (k - 4 * a.len()) % 4);
        }
    }
}

/// A single word is its four bytes.
pub proof fn lemma_one_word(w: u32)
    ensures
        words_bytes(seq![w]) == le32(w),
{
    reveal(words_bytes);
    assert(words_bytes(seq![w]) =~= le32(w));
}

/// A word string survives being written to bytes and read back.
pub proof fn lemma_words_round_trip(ws: Seq<u32>)
    ensures
        bytes_words(words_bytes(ws)) == ws,
{
    reveal(words_bytes);
    let b = words_bytes(ws);
    assert(bytes_words(b) =~= ws) by {
        assert forall|k: int| 0 <= k < ws.len() implies bytes_words(b)[k] == ws[k] by {
            assert((4 * k) / 4 == k && (4 * k) % 4 == 0);
            assert((4 * k + 1) / 4 == k && (4 * k + 1) % 4 == 1);
            assert((4 * k + 2) / 4 == k && (4 * k + 2) % 4 == 2);
            assert((4 * k + 3) / 4 == k && (4 * k + 3) % 4 == 3);
            lemma_word_round_trip(ws[k]);
        }
    }
}

/// A byte string of whole words is the bytes of the words read from it.
pub proof fn lemma_file_round_trip(b: Seq<u8>)
    requires
        b.len() % 4 == 0,
    ensures
        words_bytes(bytes_words(b)) == b,
{
    reveal(words_bytes);
    let ws = bytes_words(b);
    assert(words_bytes(ws) =~= b) by {
        assert forall|k: int| 0 <= k < b.len() implies words_bytes(ws)[k] == b[k] by {
            lemma_bytes_round_trip(b, 4 * (k / 4));
        }
    }
}

/// A half-word string survives being written to bytes and read back.
pub proof fn lemma_halves_round_trip(hs: Seq<u16>)
    ensures
        bytes_halves(halves_bytes(hs)) == hs,
{
    let b = halves_bytes(hs);
    assert(bytes_halves(b) =~= hs) by {
        assert forall|k: int| 0 <= k < hs.len() implies bytes_halves(b)[k] == hs[k] by {
            assert((2 * k) / 2 == k && (2 * k) % 2 == 0);
            assert((2 * k + 1) / 2 == k && (2 * k + 1) % 2 == 1);
        }
    }
}

/// Two word strings with the same bytes are the same.
pub proof fn lemma_words_bytes_injective(a: Seq<u32>, b: Seq<u32>)
    requires
        words_bytes(a) == words_bytes(b),
    ensures
        a == b,
{
    lemma_words_round_trip(a);
    lemma_words_round_trip(b);
}

/// Words read one after the other are the bytes they were read from, in a row.
pub proof fn lemma_read_on(b: Seq<u8>, start: int, mid: int, end: int, a: Seq<u32>, v: Seq<u32>)
    requires
        0 <= start <= mid <= end <= b.len(),
        words_bytes(a) == b.subrange(start, mid),
        words_bytes(v) == b.subrange(mid, end),
    ensures
        words_bytes(a + v) == b.subrange(start, end),
{
    lemma_words_bytes_add(a, v);
    assert(b.subrange(start, end) =~= b.subrange(start, mid) + b.subrange(mid, end));
}

/// Two splits of one string at the same place are the same split.
pub proof fn lemma_split_injective<T>(a1: Seq<T>, b1: Seq<T>, a2: Seq<T>, b2: Seq<T>)
    requires
        a1 + b1 == a2 + b2,
        a1.len() == a2.len(),
    ensures
        a1 == a2,
        b1 == b2,
{
    assert(a1 =~= (a1 + b1).take(a1.len() as int));
    assert(a2 =~= (a2 + b2).take(a2.len() as int));
    assert(b1 =~= (a1 + b1).skip(a1.len() as int));
    assert(b2 =~= (a2 + b2).skip(a2.len() as int));
}

/// Appends the four bytes of `w`.
pub fn push_u32(out: &mut Vec<u8>, w: u32)
    ensures
        final(out)@ == old(out)@ + le32(w),
{
    out.push((w % 256) as u8);
    out.push(((w / 256) % 256) as u8);
    out.push(((w / 65536) % 256) as u8);
    out.push((w / 16777216) as u8);
    assert(out@ =~= old(out)@ + le32(w));
}

/// Appends the two bytes of `h`.
pub fn push_u16(out: &mut Vec<u8>, h: u16)
    ensures
        final(out)@ == old(out)@ + le16(h),
{
    out.push((h % 256) as u8);
    out.push((h / 256) as u8);
    assert(out@ =~= old(out)@ + le16(h));
}

/// Appends a word string.
pub fn push_words(out: &mut Vec<u8>, ws: &[u32])
    ensures
        final(out)@ == old(out)@ + words_bytes(ws@),
{
    let mut i: usize = 0;
    proof {
        lemma_words_bytes_len(ws@.take(0));
    }
    assert(out@ =~= old(out)@ + words_bytes(ws@.take(0)));
    while i < ws.len()
        invariant
            i <= ws.len(),
            out@ == old(out)@ + words_bytes(ws@.take(i as int)),
        decreases ws.len() - i,
    {
        push_u32(out, ws[i]);
        proof {
            let w = ws@[i as int];
            lemma_words_bytes_add(ws@.take(i as int), seq![w]);
            assert(ws@.take(i + 1) =~= ws@.take(i as int) + seq![w]);
            lemma_one_word(w);
            assert(out@ =~= old(out)@ + words_bytes(ws@.take(i + 1)));
        }
        i = i + 1;
    }
    assert(ws@.take(i as int) =~= ws@);
}

/// Appends a half-word string.
pub fn push_halves(out: &mut Vec<u8>, hs: &[u16])
    ensures
        final(out)@ == old(out)@ + halves_bytes(hs@),
{
    let mut i: usize = 0;
    assert(out@ =~= old(out)@ + halves_bytes(hs@.take(0)));
    while i < hs.len()
        invariant
            i <= hs.len(),
            out@ == old(out)@ + halves_bytes(hs@.take(i as int)),
        decreases hs.len() - i,
    {
        push_u16(out, hs[i]);
        proof {
            let a = hs@.take(i as int);
            let b = hs@.take(i + 1);
            assert(halves_bytes(b) =~= halves_bytes(a) + le16(hs@[i as int]));
            assert(out@ =~= old(out)@ + halves_bytes(b));
        }
        i = i + 1;
    }
    assert(hs@.take(i as int) =~= hs@);
}

/// Appends raw bytes.
pub fn push_bytes(out: &mut Vec<u8>, bs: &[u8])
    ensures
        final(out)@ == old(out)@ + bs@,
{
    let mut i: usize = 0;
    assert(out@ =~= old(out)@ + bs@.take(0));
    while i < bs.len()
        invariant
            i <= bs.len(),
            out@ == old(out)@ + bs@.take(i as int),
        decreases bs.len() - i,
    {
        out.push(bs[i]);
        assert(out@ =~= old(out)@ + bs@.take(i + 1));
        i = i + 1;
    }
    assert(bs@.take(i as int) =~= bs@);
}

/// The word at byte offset `p`.
pub fn read_u32(b: &[u8], p: usize) -> (w: u32)
    requires
        p + 4 <= b.len(),
    ensures
        w == word_at(b@, p as int),
{
    b[p] as u32 + 256 * (b[p + 1] as u32) + 65536 * (b[p + 2] as u32) + 16777216 * (b[p + 3] as u32)
}

/// The words stored from byte offset `p` on.
pub open spec fn words_at(b: Seq<u8>, p: int, n: int) -> Seq<u32> {
    Seq::new(n as nat, |k: int| word_at(b, p + 4 * k))
}

/// The half words stored from byte offset `p` on.
pub open spec fn halves_at(b: Seq<u8>, p: int, n: int) -> Seq<u16> {
    Seq::new(n as nat, |k: int| half_at(b, p + 2 * k))
}

/// Words that were read are stored again as the bytes they were read from.
proof fn lemma_words_at(b: Seq<u8>, p: int, n: int)
    requires
        0 <= p,
        0 <= n,
        p + 4 * n <= b.len(),
    ensures
        words_bytes(words_at(b, p, n)) == b.subrange(p, p + 4 * n),
{
    let t = b.subrange(p, p + 4 * n);
    assert(words_at(b, p, n) =~= bytes_words(t)) by {
        assert forall|k: int| 0 <= k < n implies words_at(b, p, n)[k] == bytes_words(t)[k] by {
            assert(t[4 * k] == b[p + 4 * k] && t[4 * k + 1] == b[p + 4 * k + 1] && t[4 * k + 2] == b[p
                + 4 * k + 2] && t[4 * k + 3] == b[p + 4 * k + 3]);
        }
    }
    lemma_file_round_trip(t);
}

/// Half words that were read are stored again as the bytes they were read from.
proof fn lemma_halves_at(b: Seq<u8>, p: int, n: int)
    requires
        0 <= p,
        0 <= n,
        p + 2 * n <= b.len(),
    ensures
        halves_bytes(halves_at(b, p, n)) == b.subrange(p, p + 2 * n),
{
    let t = b.subrange(p, p + 2 * n);
    let h = halves_bytes(halves_at(b, p, n));
    assert forall|k: int| 0 <= k < 2 * n implies h[k] == t[k] by {
        assert(k == 2 * (k / 2) + k % 2);
    }
    assert(h =~= t);
}

/// Reads words from byte offset `p` on.
fn read_words(b: &[u8], p: usize, n: usize) -> (v: Vec<u32>)
    requires
        p + 4 * n <= b.len(),
    ensures
        v@ == words_at(b@, p as int, n as int),
{
    let mut v: Vec<u32> = Vec::with_capacity(n);
    let mut i: usize = 0;
    while i < n
        invariant
            i <= n,
            p + 4 * n <= b.len(),
            v@ == words_at(b@, p as int, i as int),
        decreases n - i,
    {
        v.push(read_u32(b, p + 4 * i));
        i = i + 1;
        assert(v@ =~= words_at(b@, p as int, i as int));
    }
    v
}

/// Reads half words from byte offset `p` on.
fn read_halves(b: &[u8], p: usize, n: usize) -> (v: Vec<u16>)
    requires
        p + 2 * n <= b.len(),
    ensures
        v@ == halves_at(b@, p as int, n as int),
{
    let mut v: Vec<u16> = Vec::with_capacity(n);
    let mut i: usize = 0;
    while i < n
        invariant
            i <= n,
            p + 2 * n <= b.len(),
            v@ == halves_at(b@, p as int, i as int),
        decreases n - i,
    {
        v.push(b[p + 2 * i] as u16 + 256 * (b[p + 2 * i + 1] as u16));
        i = i + 1;
        assert(v@ =~= halves_at(b@, p as int, i as int));
    }
    v
}

/// A cursor over a byte string; it never moves past the end.
pub struct Reader<'a> {
    pub buf: &'a [u8],
    pub pos: usize,
}

impl<'a> Reader<'a> {
    /// The cursor is inside the buffer.
    pub open spec fn wf(self) -> bool {
        self.pos <= self.buf@.len()
    }

    /// The bytes not yet read.
    pub open spec fn rest(self) -> Seq<u8> {
        self.buf@.skip(self.pos as int)
    }

    /// A cursor at the front of `buf`.
    pub fn new(buf: &'a [u8]) -> (r: Self)
        ensures
            r.wf(),
            r.buf@ == buf@,
            r.pos == 0,
    {
        Reader { buf, pos: 0 }
    }

    /// Reads one word, or nothing where fewer than four bytes are left.
    pub fn u32(&mut self) -> (r: Option<u32>)
        requires
            old(self).wf(),
        ensures
            final(self).wf(),
            final(self).buf@ == old(self).buf@,
            match r {
                Some(w) => old(self).pos + 4 <= old(self).buf@.len() && final(self).pos == old(
                    self,
                ).pos + 4 && w == word_at(old(self).buf@, old(self).pos as int) && w == word_at(
                    old(self).rest(),
                    0,
                ) && final(self).rest() == old(self).rest().skip(4),
                None => old(self).pos + 4 > old(self).buf@.len() && final(self).pos == old(self).pos,
            },
    {
        if self.buf.len() - self.pos < 4 {
            return None;
        }
        let w: u32 = read_u32(self.buf, self.pos);
        self.pos = self.pos + 4;
        assert(self.rest() =~= old(self).rest().skip(4));
        Some(w)
    }

    /// Reads `n` bytes, or nothing where fewer are left.
    pub fn bytes(&mut self, n: usize) -> (r: Option<Vec<u8>>)
        requires
            old(self).wf(),
        ensures
            final(self).wf(),
            final(self).buf@ == old(self).buf@,
            match r {
                Some(v) => old(self).pos + n <= old(self).buf@.len() && final(self).pos == old(
                    self,
                ).pos + n && v@ == old(self).rest().take(n as int) && final(self).rest() == old(
                    self,
                ).rest().skip(n as int),
                None => old(self).pos + n > old(self).buf@.len() && final(self).pos == old(self).pos,
            },
    {
        if self.buf.len() - self.pos < n {
            return None;
        }
        let start: usize = self.pos;
        let mut v: Vec<u8> = Vec::with_capacity(n);
        let mut i: usize = 0;
        while i < n
            invariant
                i <= n,
                start == self.pos,
                start + n <= self.buf.len(),
                v@ == self.buf@.subrange(start as int, start + i),
            decreases n - i,
        {
            v.push(self.buf[start + i]);
            i = i + 1;
            assert(v@ =~= self.buf@.subrange(start as int, start + i));
        }
        self.pos = start + n;
        assert(v@ =~= old(self).rest().take(n as int));
        assert(self.rest() =~= old(self).rest().skip(n as int));
        Some(v)
    }

    /// Reads `n` words, or nothing where fewer than `4 * n` bytes are left.
    pub fn words(&mut self, n: u128) -> (r: Option<Vec<u32>>)
        requires
            old(self).wf(),
        ensures
            final(self).wf(),
            final(self).buf@ == old(self).buf@,
            match r {
                Some(v) => old(self).pos + 4 * n <= old(self).buf@.len() && final(self).pos == old(
                    self,
                ).pos + 4 * n && v@.len() == n && words_bytes(v@) == old(self).buf@.subrange(
                    old(self).pos as int,
                    old(self).pos + 4 * n,
                ) && words_bytes(v@) == old(self).rest().take(4 * n as int) && final(self).rest()
                    == old(self).rest().skip(4 * n as int),
                None => old(self).pos + 4 * n > old(self).buf@.len() && final(self).pos == old(
                    self,
                ).pos,
            },
    {
        let left: usize = self.buf.len() - self.pos;
        if n > (left / 4) as u128 {
            return None;
        }
        let count: usize = n as usize;
        let v: Vec<u32> = read_words(self.buf, self.pos, count);
        proof {
            lemma_words_at(self.buf@, self.pos as int, count as int);
        }
        self.pos = self.pos + 4 * count;
        proof {
            let b = old(self).buf@.subrange(old(self).pos as int, old(self).pos + 4 * count);
            assert(b =~= old(self).rest().take(4 * count as int));
            assert(self.rest() =~= old(self).rest().skip(4 * count as int));
        }
        Some(v)
    }

    /// Reads `n` half words, or nothing where fewer than `2 * n` bytes are left.
    pub fn halves(&mut self, n: u32) -> (r: Option<Vec<u16>>)
        requires
            old(self).wf(),
        ensures
            final(self).wf(),
            final(self).buf@ == old(self).buf@,
            match r {
                Some(v) => old(self).pos + 2 * n <= old(self).buf@.len() && final(self).pos == old(
                    self,
                ).pos + 2 * n && v@.len() == n && halves_bytes(v@) == old(self).rest().take(
                    2 * n as int,
                ) && final(self).rest() == old(self).rest().skip(2 * n as int),
                None => old(self).pos + 2 * n > old(self).buf@.len() && final(self).pos == old(
                    self,
                ).pos,
            },
    {
        let left: usize = self.buf.len() - self.pos;
        if n as u64 > (left / 2) as u64 {
            return None;
        }
        let count: usize = n as usize;
        let v: Vec<u16> = read_halves(self.buf, self.pos, count);
        proof {
            lemma_halves_at(self.buf@, self.pos as int, count as int);
        }
        self.pos = self.pos + 2 * count;
        proof {
            let b = old(self).buf@.subrange(old(self).pos as int, old(self).pos + 2 * count);
            assert(b =~= old(self).rest().take(2 * count as int));
            assert(self.rest() =~= old(self).rest().skip(2 * count as int));
        }
        Some(v)
    }
}

} // verus!
