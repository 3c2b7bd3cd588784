//! Sidecar of pre-quantized 4-bit weights, and the parts of the Hessian-guided
//! quantizer that decide order and layout.
//!
//! A linear of `[n_in, n_out]` weights is stored as nibbles with one half-precision
//! scale per 32 input channels and column, in the layout of `quant`. With
//! act-order the input channels are stored in descending order of the Hessian's
//! diagonal; `perm[k]` is the input channel stored at position `k`.

use crate::bytes::{
    halves_bytes, le32, lemma_halves_round_trip, lemma_one_word, lemma_word_round_trip,
    lemma_words_round_trip, push_bytes, push_halves, push_u32, word_at, words_bytes, Reader,
};
use vstd::prelude::*;

verus! {

broadcast use crate::bytes::lemma_words_bytes_len;

/// "MXGQ", read as a little-endian word.
pub const SIDECAR_MAGIC: u32 = 0x5147584D;

pub const SIDECAR_VERSION: u32 = 2;

/// Which linear inside a block. `Up` is the gated MLP's second input projection,
/// which reads the same activations as `Fc`.
#[derive(Clone, Copy, PartialEq, Eq, Structural, Hash, Debug)]
pub enum Role {
    Qkv,
    Proj,
    Fc,
    Up,
    Fc2,
}

/// The number that stands for a role in a sidecar file.
pub open spec fn role_tag(r: Role) -> u32 {
    match r {
        Role::Qkv => 0,
        Role::Proj => 1,
        Role::Fc => 2,
        Role::Up => 3,
        Role::Fc2 => 4,
    }
}

/// The role that a number stands for.
pub open spec fn tag_role(t: u32) -> Option<Role> {
    if t == 0 {
        Some(Role::Qkv)
    } else if t == 1 {
        Some(Role::Proj)
    } else if t == 2 {
        Some(Role::Fc)
    } else if t == 3 {
        Some(Role::Up)
    } else if t == 4 {
        Some(Role::Fc2)
    } else {
        None
    }
}

/// A role and its tag stand for each other.
pub proof fn role_tags_read_back(r: Role, t: u32)
    ensures
        tag_role(role_tag(r)) == Some(r),
        tag_role(t) == Some(r) <==> t == role_tag(r),
{
}

impl Role {
    /// The number that stands for the role in a sidecar file.
    pub fn tag(self) -> (t: u32)
        ensures
            t == role_tag(self),
    {
        match self {
            Role::Qkv => 0,
            Role::Proj => 1,
            Role::Fc => 2,
            Role::Up => 3,
            Role::Fc2 => 4,
        }
    }

    /// The role that a number stands for.
    pub fn from_tag(t: u32) -> (r: Option<Role>)
        ensures
            r == tag_role(t),
    {
        match t {
            0 => Some(Role::Qkv),
            1 => Some(Role::Proj),
            2 => Some(Role::Fc),
            3 => Some(Role::Up),
            4 => Some(Role::Fc2),
            _ => None,
        }
    }
}

/// One pre-quantized linear: packed nibbles, half-precision scale patterns and the
/// channel order.
pub struct Entry {
    pub q: Vec<u8>,
    pub scales: Vec<u16>,
    pub perm: Vec<i32>,
}

/// What an `Entry` holds.
#[verifier::ext_equal]
pub struct EntryView {
    pub q: Seq<u8>,
    pub scales: Seq<u16>,
    pub perm: Seq<i32>,
}

impl View for Entry {
    type V = EntryView;

    open spec fn view(&self) -> EntryView {
        EntryView { q: self.q@, scales: self.scales@, perm: self.perm@ }
    }
}

/// An entry under its key.
pub struct Row {
    pub layer: usize,
    pub role: Role,
    pub entry: Entry,
}

/// What a `Row` holds.
#[verifier::ext_equal]
pub struct RowView {
    pub layer: usize,
    pub role: Role,
    pub entry: EntryView,
}

impl View for Row {
    type V = RowView;

    open spec fn view(&self) -> RowView {
        RowView { layer: self.layer, role: self.role, entry: self.entry@ }
    }
}

impl RowView {
    pub open spec fn key(self) -> (usize, Role) {
        (self.layer, self.role)
    }

    /// Every length and the layer fit the 32-bit fields of the file.
    pub open spec fn storable(self) -> bool {
        &&& self.layer <= u32::MAX
        &&& self.entry.q.len() <= u32::MAX
        &&& self.entry.scales.len() <= u32::MAX
        &&& self.entry.perm.len() <= u32::MAX
    }
}

/// File order of keys: by layer, then by role tag.
pub open spec fn key_before(a: (usize, Role), b: (usize, Role)) -> bool {
    a.0 < b.0 || (a.0 == b.0 && role_tag(a.1) < role_tag(b.1))
}

/// In file order, no key twice.
pub open spec fn in_order(rows: Seq<RowView>) -> bool {
    forall|i: int, j: int|
        0 <= i < j < rows.len() ==> key_before(#[trigger] rows[i].key(), #[trigger] rows[j].key())
}

/// The entries that a list of rows leaves behind, each row replacing an earlier
/// one under the same key.
pub open spec fn row_map(rows: Seq<RowView>) -> Map<(usize, Role), EntryView>
    decreases rows.len(),
{
    if rows.len() == 0 {
        Map::empty()
    } else {
        row_map(rows.drop_last()).insert(rows.last().key(), rows.last().entry)
    }
}

/// Pre-quantized linears, by layer and role. Tensors that it does not hold take the
/// ordinary upload path.
pub struct Sidecar {
    rows: Vec<Row>,
}

impl View for Sidecar {
    type V = Map<(usize, Role), EntryView>;

    open spec fn view(&self) -> Map<(usize, Role), EntryView> {
        row_map(self.listing())
    }
}

/// The channel order is the plain one.
pub open spec fn identity_perm(perm: Seq<i32>) -> bool {
    forall|k: int| 0 <= k < perm.len() ==> #[trigger] perm[k] == k
}

/// True where the channel order is the plain one.
pub fn is_identity(perm: &[i32]) -> (r: bool)
    ensures
        r == identity_perm(perm@),
{
    let mut k: usize = 0;
    while k < perm.len()
        invariant
            k <= perm.len(),
            forall|j: int| 0 <= j < k ==> #[trigger] perm@[j] == j,
        decreases perm.len() - k,
    {
        if perm[k] < 0 || perm[k] as usize != k {
            return false;
        }
        k = k + 1;
    }
    true
}

/// The bytes of a row in a sidecar file.
#[verifier::opaque]
pub open spec fn row_bytes(r: RowView) -> Seq<u8> {
    le32(r.layer as u32) + (le32(role_tag(r.role)) + (le32(r.entry.q.len() as u32) + (r.entry.q + (
    le32(r.entry.scales.len() as u32) + (halves_bytes(r.entry.scales) + (le32(
        r.entry.perm.len() as u32,
    ) + words_bytes(perm_words(r.entry.perm))))))))
}

/// A channel order as two's-complement words.
pub open spec fn perm_words(perm: Seq<i32>) -> Seq<u32> {
    perm.map_values(|p: i32| p as u32)
}

/// A channel order from two's-complement words.
pub open spec fn words_perm(ws: Seq<u32>) -> Seq<i32> {
    ws.map_values(|w: u32| w as i32)
}

/// The rows one after the other.
pub open spec fn rows_bytes(rows: Seq<RowView>) -> Seq<u8>
    decreases rows.len(),
{
    if rows.len() == 0 {
        Seq::empty()
    } else {
        row_bytes(rows[0]) + rows_bytes(rows.skip(1))
    }
}

/// The bytes of a sidecar file.
pub open spec fn sidecar_bytes(rows: Seq<RowView>) -> Seq<u8> {
    le32(SIDECAR_MAGIC) + (le32(SIDECAR_VERSION) + (le32(rows.len() as u32) + rows_bytes(rows)))
}

/// Bytes stand in others from `at` on.
pub open spec fn held_from(b: Seq<u8>, at: int, t: Seq<u8>) -> bool {
    &&& 0 <= at && at + t.len() <= b.len()
    &&& forall|i: int| 0 <= i < t.len() ==> b[at + i] == #[trigger] t[i]
}

proof fn lemma_held_word(b: Seq<u8>, at: int, w: u32)
    requires
        held_from(b, at, le32(w)),
    ensures
        word_at(b, at) == w,
{
    lemma_word_round_trip(w);
    let t = le32(w);
    assert(b[at + 0] == t[0] && b[at + 1] == t[1] && b[at + 2] == t[2] && b[at + 3] == t[3]);
}

/// A row of a sidecar is its layer and the number of its role, then the packed weights, the
/// scales and the channel order, each behind its count.
pub proof fn sidecar_rows_are_laid_out(r: RowView)
    requires
        r.storable(),
    ensures
        ({
            let b = row_bytes(r);
            let (q, s, p) = (r.entry.q, r.entry.scales, r.entry.perm);
            let scales_at: int = 12 + q.len() as int;
            let perm_at: int = 16 + q.len() as int + 2 * s.len() as int;
            &&& word_at(b, 0) == r.layer
            &&& word_at(b, 4) == (match r.role {
                Role::Qkv => 0u32,
                Role::Proj => 1,
                Role::Fc => 2,
                Role::Up => 3,
                Role::Fc2 => 4,
            })
            &&& word_at(b, 8) == q.len()
            &&& held_from(b, 12, q)
            &&& word_at(b, scales_at) == s.len()
            &&& held_from(b, scales_at + 4, halves_bytes(s))
            &&& word_at(b, perm_at) == p.len()
            &&& held_from(b, perm_at + 4, words_bytes(perm_words(p)))
            &&& b.len() == perm_at + 4 + 4 * p.len()
        }),
{
    reveal(row_bytes);
    let b = row_bytes(r);
    let (q, s, p) = (r.entry.q, r.entry.scales, r.entry.perm);
    let sb = halves_bytes(s);
    assert(sb.len() == 2 * s.len());
    let scales_at: int = 12 + q.len() as int;
    let perm_at: int = 16 + q.len() as int + 2 * s.len() as int;
    assert(held_from(b, 0, le32(r.layer as u32)));
    assert(held_from(b, 4, le32(role_tag(r.role))));
    assert(held_from(b, 8, le32(q.len() as u32)));
    assert(held_from(b, scales_at, le32(s.len() as u32)));
    assert(held_from(b, perm_at, le32(p.len() as u32)));
    lemma_held_word(b, 0, r.layer as u32);
    lemma_held_word(b, 4, role_tag(r.role));
    lemma_held_word(b, 8, q.len() as u32);
    lemma_held_word(b, scales_at, s.len() as u32);
    lemma_held_word(b, perm_at, p.len() as u32);
}

/// Bytes taken up by the rows before the `k`-th.
pub open spec fn rows_before(rows: Seq<RowView>, k: int) -> int
    decreases k,
{
    if k <= 0 {
        0
    } else {
        rows_before(rows, k - 1) + row_bytes(rows[k - 1]).len()
    }
}

proof fn lemma_row_place(rows: Seq<RowView>, k: int)
    requires
        0 <= k < rows.len(),
    ensures
        held_from(rows_bytes(rows), rows_before(rows, k), row_bytes(rows[k])),
    decreases k,
{
    let t = rows.skip(1);
    if k > 0 {
        lemma_row_place(t, k - 1);
        lemma_rows_before(rows, k);
        let at = rows_before(t, k - 1);
        let w = row_bytes(rows[k]);
        assert(t[k - 1] == rows[k]);
        assert forall|i: int| 0 <= i < w.len() implies rows_bytes(rows)[rows_before(rows, k) + i]
            == #[trigger] w[i] by {
            assert(rows_bytes(t)[at + i] == w[i]);
        }
    }
}

proof fn lemma_rows_before(rows: Seq<RowView>, k: int)
    requires
        0 < k <= rows.len(),
    ensures
        rows_before(rows, k) == row_bytes(rows[0]).len() + rows_before(rows.skip(1), k - 1),
        rows_before(rows.skip(1), k - 1) >= 0,
    decreases k,
{
    reveal_with_fuel(rows_before, 2);
    if k > 1 {
        lemma_rows_before(rows, k - 1);
        assert(rows.skip(1)[k - 2] == rows[k - 1]);
    }
}

/// A sidecar file is the magic word, the version, the number of rows and the rows in turn.
pub proof fn sidecar_files_are_laid_out(rows: Seq<RowView>, k: int)
    requires
        rows.len() <= u32::MAX,
        0 <= k < rows.len(),
    ensures
        ({
            let b = sidecar_bytes(rows);
            &&& word_at(b, 0) == 0x5147584D
            &&& word_at(b, 4) == 2
            &&& word_at(b, 8) == rows.len()
            &&& held_from(b, 12 + rows_before(rows, k), row_bytes(rows[k]))
        }),
{
    let b = sidecar_bytes(rows);
    assert(held_from(b, 0, le32(SIDECAR_MAGIC)));
    assert(held_from(b, 4, le32(SIDECAR_VERSION)));
    assert(held_from(b, 8, le32(rows.len() as u32)));
    lemma_held_word(b, 0, SIDECAR_MAGIC);
    lemma_held_word(b, 4, SIDECAR_VERSION);
    lemma_held_word(b, 8, rows.len() as u32);
    lemma_row_place(rows, k);
    let at = rows_before(rows, k);
    let w = row_bytes(rows[k]);
    assert forall|i: int| 0 <= i < w.len() implies b[12 + at + i] == #[trigger] w[i] by {
        assert(rows_bytes(rows)[at + i] == w[i]);
    }
}

/// Why a byte string is not a sidecar file.
#[derive(Debug, Clone, Copy, PartialEq, Eq, Structural)]
pub enum SidecarError {
    /// The file ends before its last entry does.
    Truncated,
    /// The magic word is another one.
    NotSidecar,
    UnsupportedVersion(u32),
    /// An entry has a tag that stands for no role.
    BadRole(u32),
}

/// One row at the front of a byte string, and what follows it.
#[verifier::opaque]
pub open spec fn parse_row(s: Seq<u8>) -> Result<(RowView, Seq<u8>), SidecarError> {
    if s.len() < 8 {
        Err(SidecarError::Truncated)
    } else if tag_role(word_at(s, 4)) is None {
        Err(SidecarError::BadRole(word_at(s, 4)))
    } else {
        let layer = word_at(s, 0) as usize;
        let role = tag_role(word_at(s, 4)).unwrap();
        match parse_counted(s.skip(8), 1) {
            None => Err(SidecarError::Truncated),
            Some((q, s1)) => match parse_counted(s1, 2) {
                None => Err(SidecarError::Truncated),
                Some((sb, s2)) => match parse_counted(s2, 4) {
                    None => Err(SidecarError::Truncated),
                    Some((pb, s3)) => Ok(
                        (
                            RowView {
                                layer,
                                role,
                                entry: EntryView {
                                    q,
                                    scales: crate::bytes::bytes_halves(sb),
                                    perm: words_perm(crate::bytes::bytes_words(pb)),
                                },
                            },
                            s3,
                        ),
                    ),
                },
            },
        }
    }
}

/// A counted string of elements of `width` bytes at the front, and what follows it.
pub open spec fn parse_counted(s: Seq<u8>, width: int) -> Option<(Seq<u8>, Seq<u8>)> {
    if s.len() < 4 || s.len() - 4 < width * word_at(s, 0) {
        None
    } else {
        let n = width * word_at(s, 0);
        Some((s.skip(4).take(n), s.skip(4).skip(n)))
    }
}

/// `n` rows at the front of a byte string.
pub open spec fn parse_rows(s: Seq<u8>, n: nat) -> Result<Seq<RowView>, SidecarError>
    decreases n,
{
    if n == 0 {
        Ok(Seq::empty())
    } else {
        match parse_row(s) {
            Err(e) => Err(e),
            Ok((row, rest)) => match parse_rows(rest, (n - 1) as nat) {
                Err(e) => Err(e),
                Ok(rows) => Ok(seq![row] + rows),
            },
        }
    }
}

/// The rows of a sidecar file, or the first thing that is wrong with it. Bytes
/// behind the last row are not looked at.
pub open spec fn parse_sidecar(b: Seq<u8>) -> Result<Seq<RowView>, SidecarError> {
    if b.len() < 4 {
        Err(SidecarError::Truncated)
    } else if word_at(b, 0) != SIDECAR_MAGIC {
        Err(SidecarError::NotSidecar)
    } else if b.len() < 8 {
        Err(SidecarError::Truncated)
    } else if word_at(b, 4) != SIDECAR_VERSION {
        Err(SidecarError::UnsupportedVersion(word_at(b, 4)))
    } else if b.len() < 12 {
        Err(SidecarError::Truncated)
    } else {
        parse_rows(b.skip(12), word_at(b, 8) as nat)
    }
}

proof fn lemma_assoc(a: Seq<u8>, b: Seq<u8>, c: Seq<u8>)
    ensures
        (a + b) + c == a + (b + c),
{
    assert((a + b) + c =~= a + (b + c));
}

proof fn lemma_front_word(w: u32, t: Seq<u8>)
    ensures
        word_at(le32(w) + t, 0) == w,
        (le32(w) + t).skip(4) == t,
        (le32(w) + t).len() == 4 + t.len(),
{
    lemma_word_round_trip(w);
    let s = le32(w) + t;
    assert(s[0] == le32(w)[0] && s[1] == le32(w)[1] && s[2] == le32(w)[2] && s[3] == le32(w)[3]);
    assert(s.skip(4) =~= t);
}

proof fn lemma_counted(n: u32, data: Seq<u8>, t: Seq<u8>, width: int)
    requires
        data.len() == width * n,
        0 <= width,
    ensures
        parse_counted(le32(n) + (data + t), width) == Some((data, t)),
{
    lemma_front_word(n, data + t);
    assert((data + t).take(data.len() as int) =~= data);
    assert((data + t).skip(data.len() as int) =~= t);
}

proof fn lemma_perm_words(perm: Seq<i32>)
    ensures
        words_perm(perm_words(perm)) == perm,
{
    assert forall|k: int| 0 <= k < perm.len() implies words_perm(perm_words(perm))[k] == perm[k] by {
        let p = perm[k];
        assert(((p as u32) as i32) == p) by (bit_vector);
    }
    assert(words_perm(perm_words(perm)) =~= perm);
}

/// The bytes of a row, with others behind them.
spec fn row_and(r: RowView, t: Seq<u8>) -> Seq<u8> {
    let e = r.entry;
    let s3 = le32(e.perm.len() as u32) + (words_bytes(perm_words(e.perm)) + t);
    let s2 = le32(e.scales.len() as u32) + (halves_bytes(e.scales) + s3);
    let s1 = le32(e.q.len() as u32) + (e.q + s2);
    le32(r.layer as u32) + (le32(role_tag(r.role)) + s1)
}

proof fn lemma_row_and(r: RowView, t: Seq<u8>)
    ensures
        row_bytes(r) + t == row_and(r, t),
{
    reveal(row_bytes);
    let e = r.entry;
    let p = words_bytes(perm_words(e.perm));
    let h = halves_bytes(e.scales);
    let b6 = le32(e.perm.len() as u32) + p;
    let b5 = h + b6;
    let b4 = le32(e.scales.len() as u32) + b5;
    let b3 = e.q + b4;
    let b2 = le32(e.q.len() as u32) + b3;
    let b1 = le32(role_tag(r.role)) + b2;
    lemma_assoc(le32(e.perm.len() as u32), p, t);
    lemma_assoc(h, b6, t);
    lemma_assoc(le32(e.scales.len() as u32), b5, t);
    lemma_assoc(e.q, b4, t);
    lemma_assoc(le32(e.q.len() as u32), b3, t);
    lemma_assoc(le32(role_tag(r.role)), b2, t);
    lemma_assoc(le32(r.layer as u32), b1, t);
}

proof fn lemma_second_word(v: u32, w: u32, t: Seq<u8>)
    ensures
        ({
            let s = le32(v) + (le32(w) + t);
            word_at(s, 0) == v && word_at(s, 4) == w && s.skip(8) == t && s.len() == 8 + t.len()
        }),
{
    let u = le32(w) + t;
    let s = le32(v) + u;
    lemma_front_word(v, u);
    lemma_front_word(w, t);
    assert(s[4] == u[0] && s[5] == u[1] && s[6] == u[2] && s[7] == u[3]);
    assert(s.skip(8) =~= t);
}

/// A row parses back from its own bytes, whatever follows.
proof fn lemma_row_round_trip(r: RowView, t: Seq<u8>)
    requires
        r.storable(),
    ensures
        parse_row(row_bytes(r) + t) == Ok::<(RowView, Seq<u8>), SidecarError>((r, t)),
{
    reveal(parse_row);
    lemma_row_and(r, t);
    let e = r.entry;
    let pw = perm_words(e.perm);
    let p = words_bytes(pw);
    let h = halves_bytes(e.scales);
    let s3 = le32(e.perm.len() as u32) + (p + t);
    let s2 = le32(e.scales.len() as u32) + (h + s3);
    let s1 = le32(e.q.len() as u32) + (e.q + s2);
    lemma_second_word(r.layer as u32, role_tag(r.role), s1);
    lemma_counted(e.q.len() as u32, e.q, s2, 1);
    lemma_counted(e.scales.len() as u32, h, s3, 2);
    lemma_counted(e.perm.len() as u32, p, t, 4);
    lemma_halves_round_trip(e.scales);
    lemma_words_round_trip(pw);
    lemma_perm_words(e.perm);
}

proof fn lemma_rows_round_trip(rows: Seq<RowView>, t: Seq<u8>)
    requires
        forall|i: int| 0 <= i < rows.len() ==> (#[trigger] rows[i]).storable(),
    ensures
        parse_rows(rows_bytes(rows) + t, rows.len()) == Ok::<Seq<RowView>, SidecarError>(rows),
    decreases rows.len(),
{
    if rows.len() > 0 {
        let tail = rows.skip(1);
        let rest = rows_bytes(tail) + t;
        lemma_assoc(row_bytes(rows[0]), rows_bytes(tail), t);
        lemma_row_round_trip(rows[0], rest);
        lemma_rows_round_trip(tail, t);
        assert(seq![rows[0]] + tail =~= rows);
    } else {
        assert(rows =~= Seq::empty());
    }
}

/// A saved sidecar parses back to the rows that were saved, in their order.
pub proof fn sidecar_reads_back_its_rows(rows: Seq<RowView>)
    requires
        rows.len() <= u32::MAX,
        forall|i: int| 0 <= i < rows.len() ==> (#[trigger] rows[i]).storable(),
    ensures
        parse_sidecar(sidecar_bytes(rows)) == Ok::<Seq<RowView>, SidecarError>(rows),
{
    let b = sidecar_bytes(rows);
    let s2 = le32(rows.len() as u32) + rows_bytes(rows);
    let s1 = le32(SIDECAR_VERSION) + s2;
    lemma_front_word(SIDECAR_MAGIC, s1);
    lemma_front_word(SIDECAR_VERSION, s2);
    lemma_front_word(rows.len() as u32, rows_bytes(rows));
    assert(b[4] == s1[0] && b[5] == s1[1] && b[6] == s1[2] && b[7] == s1[3]);
    assert(b[8] == s2[0] && b[9] == s2[1] && b[10] == s2[2] && b[11] == s2[3]);
    assert(b.skip(12) =~= rows_bytes(rows) + Seq::<u8>::empty()) by {
        assert(b.skip(4) =~= s1);
        assert(s1.skip(4) =~= s2);
        assert(b.skip(12) =~= s2.skip(4));
    }
    lemma_rows_round_trip(rows, Seq::empty());
}

/// The keys of a list of rows are the keys of the map it leaves behind.
proof fn lemma_row_map_keys(rows: Seq<RowView>)
    ensures
        forall|k: (usize, Role)| #[trigger] row_map(rows).contains_key(k) ==> exists|i: int|
            0 <= i < rows.len() && (#[trigger] rows[i]).key() == k,
        forall|i: int| 0 <= i < rows.len() ==> row_map(rows).contains_key((#[trigger] rows[i]).key()),
    decreases rows.len(),
{
    if rows.len() > 0 {
        let t = rows.drop_last();
        lemma_row_map_keys(t);
        assert forall|k: (usize, Role)| #[trigger] row_map(rows).contains_key(k) implies exists|i: int|
            0 <= i < rows.len() && (#[trigger] rows[i]).key() == k by {
            if k == rows.last().key() {
                assert(rows[rows.len() - 1].key() == k);
            } else {
                assert(row_map(t).contains_key(k));
                let i = choose|i: int| 0 <= i < t.len() && (#[trigger] t[i]).key() == k;
                assert(rows[i].key() == k);
            }
        }
        assert forall|i: int| 0 <= i < rows.len() implies row_map(rows).contains_key(
            (#[trigger] rows[i]).key(),
        ) by {
            if i < t.len() {
                assert(t[i] == rows[i]);
            }
        }
    }
}

/// Under distinct keys each row is found under its own.
proof fn lemma_row_map_value(rows: Seq<RowView>, i: int)
    requires
        in_order(rows),
        0 <= i < rows.len(),
    ensures
        row_map(rows)[rows[i].key()] == rows[i].entry,
    decreases rows.len(),
{
    let t = rows.drop_last();
    if i < t.len() {
        assert(in_order(t)) by {
            assert forall|a: int, b: int| 0 <= a < b < t.len() implies key_before(
                #[trigger] t[a].key(),
                #[trigger] t[b].key(),
            ) by {
                assert(t[a] == rows[a] && t[b] == rows[b]);
            }
        }
        assert(t[i] == rows[i]);
        lemma_row_map_value(t, i);
        assert(key_before(rows[i].key(), rows[rows.len() - 1].key()));
    }
}

/// The map of a list without the key, with the row put in at a place, is the old
/// map with the entry put in.
proof fn lemma_row_map_insert(rows: Seq<RowView>, at: int, r: RowView)
    requires
        0 <= at <= rows.len(),
        forall|i: int| 0 <= i < rows.len() ==> (#[trigger] rows[i]).key() != r.key(),
    ensures
        row_map(rows.insert(at, r)) == row_map(rows).insert(r.key(), r.entry),
    decreases rows.len(),
{
    let out = rows.insert(at, r);
    if at == rows.len() {
        assert(out.drop_last() =~= rows);
        assert(out.last() == r);
    } else {
        let t = rows.drop_last();
        assert(out.drop_last() =~= t.insert(at, r));
        assert(out.last() == rows.last());
        assert forall|i: int| 0 <= i < t.len() implies (#[trigger] t[i]).key() != r.key() by {
            assert(t[i] == rows[i]);
        }
        lemma_row_map_insert(t, at, r);
        assert(rows[rows.len() - 1].key() != r.key());
        assert(row_map(out) =~= row_map(rows).insert(r.key(), r.entry));
    }
}

/// Replacing the row of a key replaces its entry.
proof fn lemma_row_map_replace(rows: Seq<RowView>, at: int, r: RowView)
    requires
        in_order(rows),
        0 <= at < rows.len(),
        rows[at].key() == r.key(),
    ensures
        row_map(rows.update(at, r)) == row_map(rows).insert(r.key(), r.entry),
    decreases rows.len(),
{
    let out = rows.update(at, r);
    let t = rows.drop_last();
    if at == t.len() {
        assert(out.drop_last() =~= t);
        assert(row_map(out) =~= row_map(rows).insert(r.key(), r.entry));
    } else {
        assert(out.drop_last() =~= t.update(at, r));
        assert(in_order(t)) by {
            assert forall|a: int, b: int| 0 <= a < b < t.len() implies key_before(
                #[trigger] t[a].key(),
                #[trigger] t[b].key(),
            ) by {
                assert(t[a] == rows[a] && t[b] == rows[b]);
            }
        }
        lemma_row_map_replace(t, at, r);
        assert(key_before(rows[at].key(), rows[rows.len() - 1].key()));
        assert(row_map(out) =~= row_map(rows).insert(r.key(), r.entry));
    }
}

/// Loading a saved sidecar gives back the same entries under the same keys.
pub proof fn sidecar_load_gives_back_what_was_saved(rows: Seq<RowView>, loaded: Seq<RowView>)
    requires
        rows.len() <= u32::MAX,
        forall|i: int| 0 <= i < rows.len() ==> (#[trigger] rows[i]).storable(),
        parse_sidecar(sidecar_bytes(rows)) == Ok::<Seq<RowView>, SidecarError>(loaded),
    ensures
        row_map(loaded) == row_map(rows),
{
    sidecar_reads_back_its_rows(rows);
}

impl Sidecar {
    /// The rows in file order.
    pub closed spec fn listing(self) -> Seq<RowView> {
        self.rows@.map_values(|r: Row| r@)
    }

    /// The rows are in file order, no key twice.
    pub closed spec fn wf(self) -> bool {
        in_order(self.listing())
    }

    /// A sidecar without entries.
    pub fn new() -> (s: Self)
        ensures
            s.wf(),
            s@ == Map::<(usize, Role), EntryView>::empty(),
            s.listing() == Seq::<RowView>::empty(),
    {
        let s = Sidecar { rows: Vec::new() };
        assert(s.listing() =~= Seq::<RowView>::empty());
        s
    }

    /// Puts an entry under a key, in place of the one that was there.
    pub fn insert(&mut self, layer: usize, role: Role, entry: Entry)
        requires
            old(self).wf(),
        ensures
            final(self).wf(),
            final(self)@ == old(self)@.insert((layer, role), entry@),
    {
        let mut at: usize = 0;
        while at < self.rows.len() && (self.rows[at].layer < layer || (self.rows[at].layer == layer
            && self.rows[at].role.tag() < role.tag()))
            invariant
                *self == *old(self),
                at <= self.rows.len(),
                forall|i: int|
                    0 <= i < at ==> key_before((#[trigger] self.listing()[i]).key(), (layer, role)),
            decreases self.rows.len() - at,
        {
            assert(self.listing()[at as int] == self.rows@[at as int]@);
            at = at + 1;
        }
        let ghost before = self.listing();
        let ghost r = RowView { layer, role, entry: entry@ };
        let row = Row { layer, role, entry };
        if at < self.rows.len() && self.rows[at].layer == layer && self.rows[at].role.tag()
            == role.tag() {
            proof {
                role_tags_read_back(role, role_tag(role));
                role_tags_read_back(before[at as int].role, role_tag(role));
            }
            self.rows.set(at, row);
            proof {
                assert(self.listing() =~= before.update(at as int, r));
                lemma_row_map_replace(before, at as int, r);
                let after = self.listing();
                assert forall|i: int, j: int| 0 <= i < j < after.len() implies key_before(
                    #[trigger] after[i].key(),
                    #[trigger] after[j].key(),
                ) by {
                    assert(after[i].key() == before[i].key() && after[j].key() == before[j].key());
                }
            }
        } else {
            self.rows.insert(at, row);
            proof {
                let after = self.listing();
                assert(after =~= before.insert(at as int, r));
                assert forall|i: int| at <= i < before.len() implies key_before(
                    r.key(),
                    (#[trigger] before[i]).key(),
                ) by {
                    if i > at {
                        assert(key_before(before[at as int].key(), before[i].key()));
                    }
                }
                assert forall|i: int| 0 <= i < before.len() implies (#[trigger] before[i]).key()
                    != r.key() by {}
                lemma_row_map_insert(before, at as int, r);
                assert forall|i: int, j: int| 0 <= i < j < after.len() implies key_before(
                    #[trigger] after[i].key(),
                    #[trigger] after[j].key(),
                ) by {
                    let bi = if i < at { i } else { i - 1 };
                    let bj = if j < at { j } else { j - 1 };
                    if i != at && j != at {
                        assert(after[i] == before[bi] && after[j] == before[bj]);
                    } else if i == at {
                        assert(after[j] == before[bj]);
                    } else {
                        assert(after[i] == before[bi]);
                    }
                }
            }
        }
    }

    /// The entry under a key.
    pub fn get(&self, layer: usize, role: Role) -> (r: Option<&Entry>)
        requires
            self.wf(),
        ensures
            match r {
                Some(e) => self@.contains_key((layer, role)) && e@ == self@[(layer, role)],
                None => !self@.contains_key((layer, role)),
            },
    {
        let mut i: usize = 0;
        while i < self.rows.len()
            invariant
                self.wf(),
                i <= self.rows.len(),
                forall|j: int|
                    0 <= j < i ==> (#[trigger] self.listing()[j]).key() != (layer, role),
            decreases self.rows.len() - i,
        {
            assert(self.listing()[i as int] == self.rows@[i as int]@);
            proof {
                role_tags_read_back(role, role_tag(self.rows@[i as int].role));
            }
            if self.rows[i].layer == layer && self.rows[i].role.tag() == role.tag() {
                proof {
                    lemma_row_map_keys(self.listing());
                    lemma_row_map_value(self.listing(), i as int);
                }
                return Some(&self.rows[i].entry);
            }
            i = i + 1;
        }
        proof {
            lemma_row_map_keys(self.listing());
        }
        None
    }

    /// True if any entry reorders channels.
    pub fn has_act_order(&self) -> (r: bool)
        requires
            self.wf(),
        ensures
            r == exists|k: (usize, Role)| #[trigger]
                self@.contains_key(k) && !identity_perm(self@[k].perm),
    {
        proof {
            lemma_row_map_keys(self.listing());
        }
        let mut i: usize = 0;
        while i < self.rows.len()
            invariant
                self.wf(),
                i <= self.rows.len(),
                forall|j: int|
                    0 <= j < i ==> identity_perm((#[trigger] self.listing()[j]).entry.perm),
                forall|j: int|
                    0 <= j < self.listing().len() ==> self@.contains_key(
                        (#[trigger] self.listing()[j]).key(),
                    ),
            decreases self.rows.len() - i,
        {
            assert(self.listing()[i as int] == self.rows@[i as int]@);
            if !is_identity(&self.rows[i].entry.perm) {
                proof {
                    lemma_row_map_value(self.listing(), i as int);
                    let k = self.listing()[i as int].key();
                    assert(self@.contains_key(k) && !identity_perm(self@[k].perm));
                }
                return true;
            }
            i = i + 1;
        }
        proof {
            assert forall|k: (usize, Role)| #[trigger] self@.contains_key(k) implies identity_perm(
                self@[k].perm,
            ) by {
                let j = choose|j: int|
                    0 <= j < self.listing().len() && (#[trigger] self.listing()[j]).key() == k;
                lemma_row_map_value(self.listing(), j);
            }
        }
        false
    }

    /// The bytes of the sidecar's file: its rows in file order.
    pub fn save(&self) -> (out: Vec<u8>)
        requires
            self.wf(),
        ensures
            in_order(self.listing()),
            out@ == sidecar_bytes(self.listing()),
    {
        let mut out: Vec<u8> = Vec::new();
        push_u32(&mut out, SIDECAR_MAGIC);
        push_u32(&mut out, SIDECAR_VERSION);
        push_u32(&mut out, self.rows.len() as u32);
        let ghost head = out@;
        let ghost all = self.listing();
        let mut i: usize = 0;
        proof {
            assert(all.skip(0) =~= all);
            assert(head + rows_bytes(all.skip(0)) =~= sidecar_bytes(all));
        }
        while i < self.rows.len()
            invariant
                i <= self.rows.len(),
                all == self.listing(),
                out@ + rows_bytes(all.skip(i as int)) == sidecar_bytes(all),
            decreases self.rows.len() - i,
        {
            let ghost before = out@;
            let r = &self.rows[i];
            push_row(&mut out, r);
            proof {
                let s = all.skip(i as int);
                assert(s[0] == r@);
                assert(s.skip(1) =~= all.skip(i + 1));
                assert(before + (row_bytes(r@) + rows_bytes(s.skip(1))) =~= (before + row_bytes(r@))
                    + rows_bytes(s.skip(1)));
            }
            i = i + 1;
        }
        proof {
            assert(all.skip(i as int) =~= Seq::empty());
            assert(out@ + Seq::<u8>::empty() =~= out@);
        }
        out
    }

    /// Reads a sidecar file: the entries it holds, or the first thing that is wrong
    /// with it.
    pub fn load(buf: &[u8]) -> (res: Result<Sidecar, SidecarError>)
        ensures
            match res {
                Ok(s) => {
                    &&& s.wf()
                    &&& parse_sidecar(buf@) matches Ok(rows)
                    &&& s@ == row_map(rows)
                },
                Err(e) => parse_sidecar(buf@) matches Err(f) && f == e,
            },
    {
        let mut r = Reader::new(buf);
        assert(r.rest() =~= buf@);
        match r.u32() {
            None => {
                return Err(SidecarError::Truncated);
            },
            Some(w) => {
                if w != SIDECAR_MAGIC {
                    return Err(SidecarError::NotSidecar);
                }
            },
        }
        match r.u32() {
            None => {
                return Err(SidecarError::Truncated);
            },
            Some(w) => {
                if w != SIDECAR_VERSION {
                    return Err(SidecarError::UnsupportedVersion(w));
                }
            },
        }
        let n: u32 = match r.u32() {
            None => {
                return Err(SidecarError::Truncated);
            },
            Some(w) => w,
        };
        assert(r.rest() =~= buf@.skip(12));
        let ghost b = buf@.skip(12);
        let ghost mut read: Seq<RowView> = Seq::empty();
        let mut s = Sidecar::new();
        let mut i: u32 = 0;
        while i < n
            invariant
                i <= n,
                r.wf(),
                s.wf(),
                b == buf@.skip(12),
                parse_sidecar(buf@) == parse_rows(b, n as nat),
                s@ == row_map(read),
                match parse_rows(r.rest(), (n - i) as nat) {
                    Ok(more) => parse_rows(b, n as nat) == Ok::<Seq<RowView>, SidecarError>(
                        read + more,
                    ),
                    Err(e) => parse_rows(b, n as nat) == Err::<Seq<RowView>, SidecarError>(e),
                },
            decreases n - i,
        {
            match read_row(&mut r) {
                Err(e) => {
                    return Err(e);
                },
                Ok(row) => {
                    proof {
                        let v = row@;
                        assert(read.push(v).drop_last() =~= read);
                        match parse_rows(r.rest(), (n - i - 1) as nat) {
                            Ok(more) => {
                                assert(read + (seq![v] + more) =~= read.push(v) + more);
                            },
                            Err(e) => {},
                        }
                        read = read.push(v);
                    }
                    s.insert(row.layer, row.role, row.entry);
                },
            }
            i = i + 1;
        }
        assert(read + Seq::<RowView>::empty() =~= read);
        Ok(s)
    }
}

/// Appends a row.
fn push_row(out: &mut Vec<u8>, r: &Row)
    ensures
        final(out)@ == old(out)@ + row_bytes(r@),
{
    reveal(row_bytes);
    push_u32(out, r.layer as u32);
    push_u32(out, r.role.tag());
    push_u32(out, r.entry.q.len() as u32);
    push_bytes(out, &r.entry.q);
    push_u32(out, r.entry.scales.len() as u32);
    push_halves(out, &r.entry.scales);
    push_u32(out, r.entry.perm.len() as u32);
    let ghost before = out@;
    let perm = &r.entry.perm;
    let ghost all = perm_words(perm@);
    let mut k: usize = 0;
    assert(words_bytes(all.take(0)) =~= Seq::<u8>::empty());
    assert(out@ =~= before + words_bytes(all.take(0)));
    while k < perm.len()
        invariant
            k <= perm.len(),
            all == perm_words(perm@),
            out@ == before + words_bytes(all.take(k as int)),
        decreases perm.len() - k,
    {
        let ghost mid = out@;
        push_u32(out, perm[k] as u32);
        proof {
            let w = all[k as int];
            crate::bytes::lemma_words_bytes_add(all.take(k as int), seq![w]);
            assert(all.take(k + 1) =~= all.take(k as int) + seq![w]);
            lemma_one_word(w);
            assert(out@ =~= before + words_bytes(all.take(k + 1)));
        }
        k = k + 1;
    }
    assert(all.take(k as int) =~= all);
    assert(out@ =~= old(out)@ + row_bytes(r@));
}

/// Reads a row.
fn read_row(r: &mut Reader) -> (res: Result<Row, SidecarError>)
    requires
        old(r).wf(),
    ensures
        final(r).wf(),
        match res {
            Ok(row) => parse_row(old(r).rest()) == Ok::<(RowView, Seq<u8>), SidecarError>(
                (row@, final(r).rest()),
            ),
            Err(e) => parse_row(old(r).rest()) == Err::<(RowView, Seq<u8>), SidecarError>(e),
        },
{
    reveal(parse_row);
    let ghost s = r.rest();
    let layer: u32 = match r.u32() {
        None => {
            return Err(SidecarError::Truncated);
        },
        Some(w) => w,
    };
    let tag: u32 = match r.u32() {
        None => {
            return Err(SidecarError::Truncated);
        },
        Some(w) => w,
    };
    assert(r.rest() =~= s.skip(8));
    let role: Role = match Role::from_tag(tag) {
        None => {
            return Err(SidecarError::BadRole(tag));
        },
        Some(role) => role,
    };
    let ghost s0 = r.rest();
    let q: Vec<u8> = match r.u32() {
        None => {
            return Err(SidecarError::Truncated);
        },
        Some(n) => {
            match r.bytes(n as usize) {
                None => {
                    return Err(SidecarError::Truncated);
                },
                Some(v) => v,
            }
        },
    };
    let ghost s1 = r.rest();
    assert(parse_counted(s0, 1) == Some((q@, s1)));
    let scales: Vec<u16> = match r.u32() {
        None => {
            return Err(SidecarError::Truncated);
        },
        Some(n) => {
            match r.halves(n) {
                None => {
                    return Err(SidecarError::Truncated);
                },
                Some(v) => v,
            }
        },
    };
    let ghost s2 = r.rest();
    assert(parse_counted(s1, 2) == Some((halves_bytes(scales@), s2)));
    let words: Vec<u32> = match r.u32() {
        None => {
            return Err(SidecarError::Truncated);
        },
        Some(n) => {
            match r.words(n as u128) {
                None => {
                    return Err(SidecarError::Truncated);
                },
                Some(v) => v,
            }
        },
    };
    assert(parse_counted(s2, 4) == Some((words_bytes(words@), r.rest())));
    let mut perm: Vec<i32> = Vec::with_capacity(words.len());
    let mut k: usize = 0;
    while k < words.len()
        invariant
            k <= words.len(),
            perm@ == words_perm(words@).take(k as int),
        decreases words.len() - k,
    {
        perm.push(words[k] as i32);
        k = k + 1;
        assert(perm@ =~= words_perm(words@).take(k as int));
    }
    proof {
        assert(perm@ =~= words_perm(words@));
        lemma_halves_round_trip(scales@);
        lemma_words_round_trip(words@);
    }
    Ok(Row { layer: layer as usize, role, entry: Entry { q, scales, perm } })
}

} // verus!
