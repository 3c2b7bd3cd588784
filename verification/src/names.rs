//! The names under which the device module exports the kernels.
//!
//! A name says what the kernel does, in which form it takes a matrix, and where it takes its
//! tokens and positions from or in which tiles it works.

use crate::kernel::{kernel_name, Kernel};
use crate::meaning::{form_of, tiling, Form};
use vstd::prelude::*;

verus! {

/// How the name of a kernel says the form of its matrix; `plain` says single precision.
pub open spec fn form_word(f: Form, plain: Seq<char>) -> Seq<char> {
    match f {
        Form::F32 => plain,
        Form::F16 => "_half"@,
        Form::Int8 => "_int8"@,
        Form::Int4 => "_int4"@,
        Form::Int4K => "_int4k"@,
        Form::Int3 => "_int3"@,
        Form::Int2 => "_int2"@,
    }
}

/// The kernel looks up embeddings.
pub open spec fn looks_up(k: Kernel) -> bool {
    match k {
        Kernel::Embed
        | Kernel::EmbedHalf
        | Kernel::EmbedInt8
        | Kernel::EmbedDyn
        | Kernel::EmbedHalfDyn
        | Kernel::EmbedInt8Dyn
        | Kernel::EmbedInt4
        | Kernel::EmbedInt4Dyn
        | Kernel::EmbedBatch
        | Kernel::EmbedHalfBatch
        | Kernel::EmbedInt8Batch
        | Kernel::EmbedInt4Batch
        | Kernel::EmbedInt2
        | Kernel::EmbedInt2Dyn
        | Kernel::EmbedInt2Batch
        | Kernel::EmbedInt3
        | Kernel::EmbedInt3Dyn
        | Kernel::EmbedInt3Batch
        | Kernel::EmbedInt4k
        | Kernel::EmbedInt4kDyn
        | Kernel::EmbedInt4kBatch => true,
        _ => false,
    }
}

/// The kernel multiplies one row by a matrix.
pub open spec fn multiplies_a_row(k: Kernel) -> bool {
    match k {
        Kernel::Gemv
        | Kernel::GemvHalf
        | Kernel::GemvInt8
        | Kernel::GemvInt4
        | Kernel::GemvInt2
        | Kernel::GemvInt3
        | Kernel::GemvInt4k => true,
        _ => false,
    }
}

/// The kernel multiplies several rows by a matrix.
pub open spec fn multiplies_rows(k: Kernel) -> bool {
    match k {
        Kernel::GemmF32
        | Kernel::GemmHalf
        | Kernel::GemmF32Wide
        | Kernel::GemmHalfWide
        | Kernel::GemmInt8Wide
        | Kernel::GemmInt4Wide
        | Kernel::GemmInt8
        | Kernel::GemmInt4
        | Kernel::GemmF32Skinny
        | Kernel::GemmHalfSkinny
        | Kernel::GemmInt8Skinny
        | Kernel::GemmInt4Skinny
        | Kernel::GemmRowsF32
        | Kernel::GemmRowsHalf
        | Kernel::GemmRowsInt8
        | Kernel::GemmRowsInt4
        | Kernel::GemmInt2
        | Kernel::GemmInt2Skinny
        | Kernel::GemmRowsInt2
        | Kernel::GemmInt3
        | Kernel::GemmInt3Skinny
        | Kernel::GemmRowsInt3
        | Kernel::GemmInt4kWide
        | Kernel::GemmInt4k
        | Kernel::GemmInt4kSkinny
        | Kernel::GemmRowsInt4k => true,
        _ => false,
    }
}

/// Token and position of the lookup: handed over, in memory, or a run of tokens.
pub open spec fn source_word(k: Kernel) -> Seq<char> {
    match k {
        Kernel::EmbedDyn
        | Kernel::EmbedHalfDyn
        | Kernel::EmbedInt8Dyn
        | Kernel::EmbedInt4Dyn
        | Kernel::EmbedInt2Dyn
        | Kernel::EmbedInt3Dyn
        | Kernel::EmbedInt4kDyn => "_dyn"@,
        Kernel::EmbedBatch
        | Kernel::EmbedHalfBatch
        | Kernel::EmbedInt8Batch
        | Kernel::EmbedInt4Batch
        | Kernel::EmbedInt2Batch
        | Kernel::EmbedInt3Batch
        | Kernel::EmbedInt4kBatch => "_batch"@,
        _ => Seq::empty(),
    }
}

/// The tiles of the multiplication: of sixteen rows, of sixty-four, or of more.
pub open spec fn tile_word(k: Kernel) -> Seq<char> {
    match tiling(k).1 {
        Some((rows, cols)) => if rows == 16 {
            "_skinny"@
        } else if rows == 64 {
            Seq::empty()
        } else {
            "_wide"@
        },
        None => Seq::empty(),
    }
}

/// A lookup is exported as `embed`, the form of the table, and where tokens and positions come
/// from.
pub proof fn lookups_are_named_by_form_and_source(k: Kernel)
    requires
        looks_up(k),
    ensures
        kernel_name(k) == "embed"@ + form_word(form_of(k), Seq::empty()) + source_word(k),
{
    reveal_strlit("_batch");
    reveal_strlit("_dyn");
    reveal_strlit("_half");
    reveal_strlit("_int2");
    reveal_strlit("_int3");
    reveal_strlit("_int4");
    reveal_strlit("_int4k");
    reveal_strlit("_int8");
    reveal_strlit("embed");
    reveal_strlit("embed_batch");
    reveal_strlit("embed_dyn");
    reveal_strlit("embed_half");
    reveal_strlit("embed_half_batch");
    reveal_strlit("embed_half_dyn");
    reveal_strlit("embed_int2");
    reveal_strlit("embed_int2_batch");
    reveal_strlit("embed_int2_dyn");
    reveal_strlit("embed_int3");
    reveal_strlit("embed_int3_batch");
    reveal_strlit("embed_int3_dyn");
    reveal_strlit("embed_int4");
    reveal_strlit("embed_int4_batch");
    reveal_strlit("embed_int4_dyn");
    reveal_strlit("embed_int4k");
    reveal_strlit("embed_int4k_batch");
    reveal_strlit("embed_int4k_dyn");
    reveal_strlit("embed_int8");
    reveal_strlit("embed_int8_batch");
    reveal_strlit("embed_int8_dyn");
    match k {
        Kernel::Embed => {
            assert("embed"@ =~= "embed"@ + Seq::<char>::empty() + Seq::<char>::empty());
        },
        Kernel::EmbedHalf => {
            assert("embed_half"@ =~= "embed"@ + "_half"@ + Seq::<char>::empty());
        },
        Kernel::EmbedInt8 => {
            assert("embed_int8"@ =~= "embed"@ + "_int8"@ + Seq::<char>::empty());
        },
        Kernel::EmbedDyn => {
            assert("embed_dyn"@ =~= "embed"@ + Seq::<char>::empty() + "_dyn"@);
        },
        Kernel::EmbedHalfDyn => {
            assert("embed_half_dyn"@ =~= "embed"@ + "_half"@ + "_dyn"@);
        },
        Kernel::EmbedInt8Dyn => {
            assert("embed_int8_dyn"@ =~= "embed"@ + "_int8"@ + "_dyn"@);
        },
        Kernel::EmbedInt4 => {
            assert("embed_int4"@ =~= "embed"@ + "_int4"@ + Seq::<char>::empty());
        },
        Kernel::EmbedInt4Dyn => {
            assert("embed_int4_dyn"@ =~= "embed"@ + "_int4"@ + "_dyn"@);
        },
        Kernel::EmbedBatch => {
            assert("embed_batch"@ =~= "embed"@ + Seq::<char>::empty() + "_batch"@);
        },
        Kernel::EmbedHalfBatch => {
            assert("embed_half_batch"@ =~= "embed"@ + "_half"@ + "_batch"@);
        },
        Kernel::EmbedInt8Batch => {
            assert("embed_int8_batch"@ =~= "embed"@ + "_int8"@ + "_batch"@);
        },
        Kernel::EmbedInt4Batch => {
            assert("embed_int4_batch"@ =~= "embed"@ + "_int4"@ + "_batch"@);
        },
        Kernel::EmbedInt2 => {
            assert("embed_int2"@ =~= "embed"@ + "_int2"@ + Seq::<char>::empty());
        },
        Kernel::EmbedInt2Dyn => {
            assert("embed_int2_dyn"@ =~= "embed"@ + "_int2"@ + "_dyn"@);
        },
        Kernel::EmbedInt2Batch => {
            assert("embed_int2_batch"@ =~= "embed"@ + "_int2"@ + "_batch"@);
        },
        Kernel::EmbedInt3 => {
            assert("embed_int3"@ =~= "embed"@ + "_int3"@ + Seq::<char>::empty());
        },
        Kernel::EmbedInt3Dyn => {
            assert("embed_int3_dyn"@ =~= "embed"@ + "_int3"@ + "_dyn"@);
        },
        Kernel::EmbedInt3Batch => {
            assert("embed_int3_batch"@ =~= "embed"@ + "_int3"@ + "_batch"@);
        },
        Kernel::EmbedInt4k => {
            assert("embed_int4k"@ =~= "embed"@ + "_int4k"@ + Seq::<char>::empty());
        },
        Kernel::EmbedInt4kDyn => {
            assert("embed_int4k_dyn"@ =~= "embed"@ + "_int4k"@ + "_dyn"@);
        },
        Kernel::EmbedInt4kBatch => {
            assert("embed_int4k_batch"@ =~= "embed"@ + "_int4k"@ + "_batch"@);
        },
        _ => {},
    }
}

/// A one-row multiplication is exported as `gemv` and the form of its matrix.
pub proof fn row_products_are_named_by_form(k: Kernel)
    requires
        multiplies_a_row(k),
    ensures
        kernel_name(k) == "gemv"@ + form_word(form_of(k), Seq::empty()),
{
    reveal_strlit("_half");
    reveal_strlit("_int2");
    reveal_strlit("_int3");
    reveal_strlit("_int4");
    reveal_strlit("_int4k");
    reveal_strlit("_int8");
    reveal_strlit("gemv");
    reveal_strlit("gemv_half");
    reveal_strlit("gemv_int2");
    reveal_strlit("gemv_int3");
    reveal_strlit("gemv_int4");
    reveal_strlit("gemv_int4k");
    reveal_strlit("gemv_int8");
    match k {
        Kernel::Gemv => {
            assert("gemv"@ =~= "gemv"@ + Seq::<char>::empty());
        },
        Kernel::GemvHalf => {
            assert("gemv_half"@ =~= "gemv"@ + "_half"@);
        },
        Kernel::GemvInt8 => {
            assert("gemv_int8"@ =~= "gemv"@ + "_int8"@);
        },
        Kernel::GemvInt4 => {
            assert("gemv_int4"@ =~= "gemv"@ + "_int4"@);
        },
        Kernel::GemvInt2 => {
            assert("gemv_int2"@ =~= "gemv"@ + "_int2"@);
        },
        Kernel::GemvInt3 => {
            assert("gemv_int3"@ =~= "gemv"@ + "_int3"@);
        },
        Kernel::GemvInt4k => {
            assert("gemv_int4k"@ =~= "gemv"@ + "_int4k"@);
        },
        _ => {},
    }
}

/// A several-row multiplication is exported as `gemm`, or `gemm_rows` where it goes over the
/// columns once, the form of its matrix, and its tiles.
pub proof fn products_are_named_by_form_and_tiles(k: Kernel)
    requires
        multiplies_rows(k),
    ensures
        kernel_name(k) == (if tiling(k).1 is None {
            "gemm_rows"@
        } else {
            "gemm"@
        }) + form_word(tiling(k).0, "_f32"@) + tile_word(k),
{
    reveal_strlit("_f32");
    reveal_strlit("_half");
    reveal_strlit("_int2");
    reveal_strlit("_int3");
    reveal_strlit("_int4");
    reveal_strlit("_int4k");
    reveal_strlit("_int8");
    reveal_strlit("_skinny");
    reveal_strlit("_wide");
    reveal_strlit("gemm");
    reveal_strlit("gemm_f32");
    reveal_strlit("gemm_f32_skinny");
    reveal_strlit("gemm_f32_wide");
    reveal_strlit("gemm_half");
    reveal_strlit("gemm_half_skinny");
    reveal_strlit("gemm_half_wide");
    reveal_strlit("gemm_int2");
    reveal_strlit("gemm_int2_skinny");
    reveal_strlit("gemm_int3");
    reveal_strlit("gemm_int3_skinny");
    reveal_strlit("gemm_int4");
    reveal_strlit("gemm_int4_skinny");
    reveal_strlit("gemm_int4_wide");
    reveal_strlit("gemm_int4k");
    reveal_strlit("gemm_int4k_skinny");
    reveal_strlit("gemm_int4k_wide");
    reveal_strlit("gemm_int8");
    reveal_strlit("gemm_int8_skinny");
    reveal_strlit("gemm_int8_wide");
    reveal_strlit("gemm_rows");
    reveal_strlit("gemm_rows_f32");
    reveal_strlit("gemm_rows_half");
    reveal_strlit("gemm_rows_int2");
    reveal_strlit("gemm_rows_int3");
    reveal_strlit("gemm_rows_int4");
    reveal_strlit("gemm_rows_int4k");
    reveal_strlit("gemm_rows_int8");
    match k {
        Kernel::GemmF32 => {
            assert("gemm_f32"@ =~= "gemm"@ + "_f32"@ + Seq::<char>::empty());
        },
        Kernel::GemmHalf => {
            assert("gemm_half"@ =~= "gemm"@ + "_half"@ + Seq::<char>::empty());
        },
        Kernel::GemmF32Wide => {
            assert("gemm_f32_wide"@ =~= "gemm"@ + "_f32"@ + "_wide"@);
        },
        Kernel::GemmHalfWide => {
            assert("gemm_half_wide"@ =~= "gemm"@ + "_half"@ + "_wide"@);
        },
        Kernel::GemmInt8Wide => {
            assert("gemm_int8_wide"@ =~= "gemm"@ + "_int8"@ + "_wide"@);
        },
        Kernel::GemmInt4Wide => {
            assert("gemm_int4_wide"@ =~= "gemm"@ + "_int4"@ + "_wide"@);
        },
        Kernel::GemmInt8 => {
            assert("gemm_int8"@ =~= "gemm"@ + "_int8"@ + Seq::<char>::empty());
        },
        Kernel::GemmInt4 => {
            assert("gemm_int4"@ =~= "gemm"@ + "_int4"@ + Seq::<char>::empty());
        },
        Kernel::GemmF32Skinny => {
            assert("gemm_f32_skinny"@ =~= "gemm"@ + "_f32"@ + "_skinny"@);
        },
        Kernel::GemmHalfSkinny => {
            assert("gemm_half_skinny"@ =~= "gemm"@ + "_half"@ + "_skinny"@);
        },
        Kernel::GemmInt8Skinny => {
            assert("gemm_int8_skinny"@ =~= "gemm"@ + "_int8"@ + "_skinny"@);
        },
        Kernel::GemmInt4Skinny => {
            assert("gemm_int4_skinny"@ =~= "gemm"@ + "_int4"@ + "_skinny"@);
        },
        Kernel::GemmRowsF32 => {
            assert("gemm_rows_f32"@ =~= "gemm_rows"@ + "_f32"@ + Seq::<char>::empty());
        },
        Kernel::GemmRowsHalf => {
            assert("gemm_rows_half"@ =~= "gemm_rows"@ + "_half"@ + Seq::<char>::empty());
        },
        Kernel::GemmRowsInt8 => {
            assert("gemm_rows_int8"@ =~= "gemm_rows"@ + "_int8"@ + Seq::<char>::empty());
        },
        Kernel::GemmRowsInt4 => {
            assert("gemm_rows_int4"@ =~= "gemm_rows"@ + "_int4"@ + Seq::<char>::empty());
        },
        Kernel::GemmInt2 => {
            assert("gemm_int2"@ =~= "gemm"@ + "_int2"@ + Seq::<char>::empty());
        },
        Kernel::GemmInt2Skinny => {
            assert("gemm_int2_skinny"@ =~= "gemm"@ + "_int2"@ + "_skinny"@);
        },
        Kernel::GemmRowsInt2 => {
            assert("gemm_rows_int2"@ =~= "gemm_rows"@ + "_int2"@ + Seq::<char>::empty());
        },
        Kernel::GemmInt3 => {
            assert("gemm_int3"@ =~= "gemm"@ + "_int3"@ + Seq::<char>::empty());
        },
        Kernel::GemmInt3Skinny => {
            assert("gemm_int3_skinny"@ =~= "gemm"@ + "_int3"@ + "_skinny"@);
        },
        Kernel::GemmRowsInt3 => {
            assert("gemm_rows_int3"@ =~= "gemm_rows"@ + "_int3"@ + Seq::<char>::empty());
        },
        Kernel::GemmInt4kWide => {
            assert("gemm_int4k_wide"@ =~= "gemm"@ + "_int4k"@ + "_wide"@);
        },
        Kernel::GemmInt4k => {
            assert("gemm_int4k"@ =~= "gemm"@ + "_int4k"@ + Seq::<char>::empty());
        },
        Kernel::GemmInt4kSkinny => {
            assert("gemm_int4k_skinny"@ =~= "gemm"@ + "_int4k"@ + "_skinny"@);
        },
        Kernel::GemmRowsInt4k => {
            assert("gemm_rows_int4k"@ =~= "gemm_rows"@ + "_int4k"@ + Seq::<char>::empty());
        },
        _ => {},
    }
}

/// The other kernels are exported under the names of what they do; those that work on a run of
/// rows, or read the position from memory, under the name of the one that works on one row and
/// is handed the position, and a word for that.
pub proof fn kernels_are_named_for_what_they_do()
    ensures
        kernel_name(Kernel::Layernorm) == "layernorm"@,
        kernel_name(Kernel::Rmsnorm) == "rmsnorm"@,
        kernel_name(Kernel::Rope) == "rope"@,
        kernel_name(Kernel::RopeDyn) == kernel_name(Kernel::Rope) + "_dyn"@,
        kernel_name(Kernel::RopeBatch) == kernel_name(Kernel::Rope) + "_batch"@,
        kernel_name(Kernel::SiluMul) == "silu_mul"@,
        kernel_name(Kernel::QuantizeAct) == "quantize_act"@,
        kernel_name(Kernel::CopyKvDyn) == "copy_kv_dyn"@,
        kernel_name(Kernel::CopyKvBatch) == "copy_kv_batch"@,
        kernel_name(Kernel::QuantizeKv) == "quantize_kv"@,
        kernel_name(Kernel::QuantizeKvDyn) == kernel_name(Kernel::QuantizeKv) + "_dyn"@,
        kernel_name(Kernel::QuantizeKvBatch) == kernel_name(Kernel::QuantizeKv) + "_batch"@,
        kernel_name(Kernel::AttnDecode) == "attn_decode"@,
        kernel_name(Kernel::AttnDecodeDyn) == kernel_name(Kernel::AttnDecode) + "_dyn"@,
        kernel_name(Kernel::AttnDecodeQ8) == "attn_decode_q8"@,
        kernel_name(Kernel::AttnDecodeQ8Dyn) == kernel_name(Kernel::AttnDecodeQ8) + "_dyn"@,
        kernel_name(Kernel::AttnPrefill) == "attn_prefill"@,
        kernel_name(Kernel::AttnPrefillQ8) == "attn_prefill_q8"@,
        kernel_name(Kernel::LayernormBatch) == kernel_name(Kernel::Layernorm) + "_batch"@,
        kernel_name(Kernel::RmsnormBatch) == kernel_name(Kernel::Rmsnorm) + "_batch"@,
        kernel_name(Kernel::AddInplace) == "add_inplace"@,
        kernel_name(Kernel::GeluInplace) == "gelu_inplace"@,
        kernel_name(Kernel::ArgmaxAdvance) == "argmax_advance"@,
        kernel_name(Kernel::ArgmaxRows) == "argmax_rows"@,
        kernel_name(Kernel::CopyRow) == "copy_row"@,
{
    reveal_strlit("_batch");
    reveal_strlit("_dyn");
    reveal_strlit("add_inplace");
    reveal_strlit("argmax_advance");
    reveal_strlit("argmax_rows");
    reveal_strlit("attn_decode");
    reveal_strlit("attn_decode_dyn");
    reveal_strlit("attn_decode_q8");
    reveal_strlit("attn_decode_q8_dyn");
    reveal_strlit("attn_prefill");
    reveal_strlit("attn_prefill_q8");
    reveal_strlit("copy_kv_batch");
    reveal_strlit("copy_kv_dyn");
    reveal_strlit("copy_row");
    reveal_strlit("gelu_inplace");
    reveal_strlit("layernorm");
    reveal_strlit("layernorm_batch");
    reveal_strlit("quantize_act");
    reveal_strlit("quantize_kv");
    reveal_strlit("quantize_kv_batch");
    reveal_strlit("quantize_kv_dyn");
    reveal_strlit("rmsnorm");
    reveal_strlit("rmsnorm_batch");
    reveal_strlit("rope");
    reveal_strlit("rope_batch");
    reveal_strlit("rope_dyn");
    reveal_strlit("silu_mul");
    assert("rope_dyn"@ =~= "rope"@ + "_dyn"@);
    assert("rope_batch"@ =~= "rope"@ + "_batch"@);
    assert("quantize_kv_dyn"@ =~= "quantize_kv"@ + "_dyn"@);
    assert("quantize_kv_batch"@ =~= "quantize_kv"@ + "_batch"@);
    assert("attn_decode_dyn"@ =~= "attn_decode"@ + "_dyn"@);
    assert("attn_decode_q8_dyn"@ =~= "attn_decode_q8"@ + "_dyn"@);
    assert("layernorm_batch"@ =~= "layernorm"@ + "_batch"@);
    assert("rmsnorm_batch"@ =~= "rmsnorm"@ + "_batch"@);
}

} // verus!
