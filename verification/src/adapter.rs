//! The exit adapter of self-speculative decoding: a linear map from the hidden state
//! after the first layers to a prediction of the last one, and the file it is kept in.

use crate::bytes::{
    bytes_words, lemma_file_round_trip, lemma_words_bytes_add, lemma_words_round_trip, push_words,
    read_u32, words_bytes,
};
use crate::text::ends_with;
use vstd::prelude::*;
use vstd::string::{StrSliceExecFns, StringExecFns};

verus! {

broadcast use crate::bytes::lemma_words_bytes_len;

/// First word of an adapter file: the letters `MXSP`.
pub const SPEC_MAGIC: u32 = 0x5053_584D;

/// Version of the adapter file.
pub const SPEC_VERSION: u32 = 1;

/// Linear map from the hidden state after layer `k` to the final one. The weight from
/// input channel `i` to output channel `o` stands at `i * n_embd + o`.
#[derive(Debug)]
pub struct ExitAdapter {
    pub k: usize,
    pub n_embd: usize,
    pub a: Vec<u32>,
}

/// The contents of an [`ExitAdapter`].
#[verifier::ext_equal]
pub struct AdapterView {
    pub k: usize,
    pub n_embd: usize,
    pub a: Seq<u32>,
}

impl View for ExitAdapter {
    type V = AdapterView;

    open spec fn view(&self) -> AdapterView {
        AdapterView { k: self.k, n_embd: self.n_embd, a: self.a@ }
    }
}

/// Why a file is no adapter.
#[derive(Debug, Clone, Copy, PartialEq, Eq, Structural)]
pub enum AdapterError {
    /// The header is not complete.
    Truncated,
    /// The file does not start with [`SPEC_MAGIC`].
    BadMagic,
    /// The version is not [`SPEC_VERSION`].
    BadVersion,
    /// The weights are not a square matrix of the stated width.
    SizeMismatch,
}

/// The file that holds an adapter, word by word: the header, then the weights.
pub open spec fn adapter_words(v: AdapterView) -> Seq<u32> {
    seq![SPEC_MAGIC, SPEC_VERSION, v.k as u32, v.n_embd as u32] + v.a
}

/// The file that holds an adapter.
pub open spec fn adapter_bytes(v: AdapterView) -> Seq<u8> {
    words_bytes(adapter_words(v))
}

/// What a file holds.
pub open spec fn adapter_outcome(b: Seq<u8>) -> Result<AdapterView, AdapterError> {
    let ws = bytes_words(b);
    if b.len() < 16 {
        Err(AdapterError::Truncated)
    } else if ws[0] != SPEC_MAGIC {
        Err(AdapterError::BadMagic)
    } else if ws[1] != SPEC_VERSION {
        Err(AdapterError::BadVersion)
    } else if b.len() - 16 != 4 * (ws[3] * ws[3]) {
        Err(AdapterError::SizeMismatch)
    } else {
        Ok(AdapterView { k: ws[2] as usize, n_embd: ws[3] as usize, a: ws.skip(4) })
    }
}

/// The file beside a model: `model.bin` has `model.spec.bin`.
pub open spec fn adapter_path(model: Seq<char>) -> Seq<char> {
    if ends_with(model, ".bin"@) {
        model.take(model.len() - 4) + ".spec.bin"@
    } else {
        model + ".spec.bin"@
    }
}

/// The adapter file that belongs to a model file.
pub fn sidecar_path(model_bin: &str) -> (r: String)
    ensures
        r@ == adapter_path(model_bin@),
{
    let n: usize = model_bin.unicode_len();
    proof {
        reveal_strlit(".bin");
        assert(".bin"@.len() == 4);
        if n >= 4 {
            let t = model_bin@.skip(n - 4);
            assert(t.len() == 4);
            assert(t =~= ".bin"@ <==> t[0] == '.' && t[1] == 'b' && t[2] == 'i' && t[3] == 'n');
        }
    }
    if n >= 4 && model_bin.get_char(n - 4) == '.' && model_bin.get_char(n - 3) == 'b'
        && model_bin.get_char(n - 2) == 'i' && model_bin.get_char(n - 1) == 'n' {
        let stem: &str = model_bin.substring_char(0, n - 4);
        assert(stem@ =~= model_bin@.take(n - 4));
        return stem.to_owned().concat(".spec.bin");
    }
    model_bin.to_owned().concat(".spec.bin")
}

impl ExitAdapter {
    /// The adapter file.
    pub fn save(&self) -> (b: Vec<u8>)
        ensures
            b@ == adapter_bytes(self@),
    {
        let mut b: Vec<u8> = Vec::new();
        let mut header: Vec<u32> = Vec::new();
        header.push(SPEC_MAGIC);
        header.push(SPEC_VERSION);
        header.push(self.k as u32);
        header.push(self.n_embd as u32);
        push_words(&mut b, header.as_slice());
        push_words(&mut b, self.a.as_slice());
        proof {
            lemma_words_bytes_add(header@, self.a@);
            assert(header@ + self.a@ =~= adapter_words(self@));
            assert(b@ =~= words_bytes(header@) + words_bytes(self.a@));
        }
        b
    }

    /// Reads an adapter file.
    pub fn load(b: &[u8]) -> (r: Result<ExitAdapter, AdapterError>)
        ensures
            match adapter_outcome(b@) {
                Ok(v) => r is Ok && r->Ok_0@ == v,
                Err(e) => r == Err::<ExitAdapter, AdapterError>(e),
            },
    {
        if b.len() < 16 {
            return Err(AdapterError::Truncated);
        }
        if read_u32(b, 0) != SPEC_MAGIC {
            return Err(AdapterError::BadMagic);
        }
        if read_u32(b, 4) != SPEC_VERSION {
            return Err(AdapterError::BadVersion);
        }
        let k: usize = read_u32(b, 8) as usize;
        let n: u32 = read_u32(b, 12);
        assert(n * n <= u32::MAX * u32::MAX) by (nonlinear_arith)
            requires
                n <= u32::MAX,
        ;
        if (b.len() - 16) as u128 != 4 * (n as u128 * n as u128) {
            return Err(AdapterError::SizeMismatch);
        }
        let ghost ws = bytes_words(b@);
        let mut a: Vec<u32> = Vec::new();
        let mut p: usize = 16;
        while p < b.len()
            invariant
                16 <= p <= b.len(),
                b.len() % 4 == 0,
                p % 4 == 0,
                ws == bytes_words(b@),
                a@ == ws.subrange(4, p as int / 4),
            decreases b.len() - p,
        {
            a.push(read_u32(b, p));
            p = p + 4;
            assert(a@ =~= ws.subrange(4, p as int / 4));
        }
        assert(ws.subrange(4, p as int / 4) =~= ws.skip(4));
        Ok(ExitAdapter { k, n_embd: n as usize, a })
    }
}

/// Loading gives back the adapter that was saved.
pub proof fn adapter_load_gives_back_what_was_saved(v: AdapterView)
    requires
        v.k <= u32::MAX,
        v.n_embd <= u32::MAX,
        v.a.len() == v.n_embd * v.n_embd,
    ensures
        adapter_outcome(adapter_bytes(v)) == Ok::<AdapterView, AdapterError>(v),
{
    let ws = adapter_words(v);
    lemma_words_round_trip(ws);
    assert(ws.skip(4) =~= v.a);
}

proof fn lemma_header_and_weights(ws: Seq<u32>, v: AdapterView)
    requires
        ws.len() >= 4,
        ws[0] == SPEC_MAGIC,
        ws[1] == SPEC_VERSION,
        ws[2] == v.k,
        ws[3] == v.n_embd,
        v.a == ws.skip(4),
    ensures
        adapter_words(v) == ws,
{
    assert(adapter_words(v) =~= ws);
}

/// A file that loads is the one that saving the adapter would write.
pub proof fn adapter_files_are_canonical(b: Seq<u8>)
    requires
        adapter_outcome(b) is Ok,
    ensures
        adapter_bytes(adapter_outcome(b)->Ok_0) == b,
{
    let ws = bytes_words(b);
    let n = ws[3] as int;
    let m = n * n;
    assert(b.len() == 16 + 4 * m);
    lemma_file_round_trip(b);
    lemma_header_and_weights(ws, adapter_outcome(b)->Ok_0);
}

/// An adapter file is the magic word, the version, the number of layers that draft, the width
/// and the weights, one word each.
pub proof fn adapter_files_are_laid_out(v: AdapterView, i: int)
    requires
        v.k <= u32::MAX,
        v.n_embd <= u32::MAX,
        0 <= i < v.a.len(),
    ensures
        ({
            let w = adapter_words(v);
            &&& w[0] == SPEC_MAGIC && w[1] == SPEC_VERSION
            &&& w[2] == v.k && w[3] == v.n_embd
            &&& w[4 + i] == v.a[i]
            &&& w.len() == 4 + v.a.len()
        }),
{
}

/// The adapter stands beside the model, under the model's name with `.spec.bin` in place of
/// `.bin`, or behind it where the model has another ending.
pub proof fn adapters_are_named_after_their_model(name: Seq<char>)
    ensures
        adapter_path(name + ".bin"@) == name + ".spec.bin"@,
        !ends_with(name, ".bin"@) ==> adapter_path(name) == name + ".spec.bin"@,
{
    reveal_strlit(".bin");
    let m = name + ".bin"@;
    assert(m.skip(m.len() - 4) =~= ".bin"@);
    assert(m.take(m.len() - 4) =~= name);
}

} // verus!
