//! The device kernels that the engine launches, by name.

use crate::text::{blank, is_blank};
use vstd::prelude::*;

verus! {

/// A kernel of the compiled device module.
#[derive(Debug, Clone, Copy, PartialEq, Eq, Hash, Structural)]
pub enum Kernel {
    Embed,
    EmbedHalf,
    EmbedInt8,
    EmbedDyn,
    EmbedHalfDyn,
    EmbedInt8Dyn,
    EmbedInt4,
    EmbedInt4Dyn,
    EmbedBatch,
    EmbedHalfBatch,
    EmbedInt8Batch,
    EmbedInt4Batch,
    EmbedInt2,
    EmbedInt2Dyn,
    EmbedInt2Batch,
    EmbedInt3,
    EmbedInt3Dyn,
    EmbedInt3Batch,
    Layernorm,
    Rmsnorm,
    Rope,
    RopeDyn,
    RopeBatch,
    SiluMul,
    Gemv,
    GemvHalf,
    GemvInt8,
    GemvInt4,
    GemvInt2,
    GemvInt3,
    GemmF32,
    GemmHalf,
    GemmF32Wide,
    GemmHalfWide,
    GemmInt8Wide,
    GemmInt4Wide,
    GemmInt8,
    GemmInt4,
    GemmF32Skinny,
    GemmHalfSkinny,
    GemmInt8Skinny,
    GemmInt4Skinny,
    GemmRowsF32,
    GemmRowsHalf,
    GemmRowsInt8,
    GemmRowsInt4,
    GemmInt2,
    GemmInt2Skinny,
    GemmRowsInt2,
    GemmInt3,
    GemmInt3Skinny,
    GemmRowsInt3,
    EmbedInt4k,
    EmbedInt4kDyn,
    EmbedInt4kBatch,
    GemvInt4k,
    GemmInt4kWide,
    GemmInt4k,
    GemmInt4kSkinny,
    GemmRowsInt4k,
    QuantizeAct,
    CopyKvDyn,
    CopyKvBatch,
    QuantizeKv,
    QuantizeKvDyn,
    QuantizeKvBatch,
    AttnDecode,
    AttnDecodeDyn,
    AttnDecodeQ8,
    AttnDecodeQ8Dyn,
    AttnPrefill,
    AttnPrefillQ8,
    LayernormBatch,
    RmsnormBatch,
    AddInplace,
    GeluInplace,
    ArgmaxAdvance,
    ArgmaxRows,
    CopyRow,
}

/// The name under which the device module exports a kernel.
pub open spec fn kernel_name(k: Kernel) -> Seq<char> {
    match k {
        Kernel::Embed => "embed"@,
        Kernel::EmbedHalf => "embed_half"@,
        Kernel::EmbedInt8 => "embed_int8"@,
        Kernel::EmbedDyn => "embed_dyn"@,
        Kernel::EmbedHalfDyn => "embed_half_dyn"@,
        Kernel::EmbedInt8Dyn => "embed_int8_dyn"@,
        Kernel::EmbedInt4 => "embed_int4"@,
        Kernel::EmbedInt4Dyn => "embed_int4_dyn"@,
        Kernel::EmbedBatch => "embed_batch"@,
        Kernel::EmbedHalfBatch => "embed_half_batch"@,
        Kernel::EmbedInt8Batch => "embed_int8_batch"@,
        Kernel::EmbedInt4Batch => "embed_int4_batch"@,
        Kernel::EmbedInt2 => "embed_int2"@,
        Kernel::EmbedInt2Dyn => "embed_int2_dyn"@,
        Kernel::EmbedInt2Batch => "embed_int2_batch"@,
        Kernel::EmbedInt3 => "embed_int3"@,
        Kernel::EmbedInt3Dyn => "embed_int3_dyn"@,
        Kernel::EmbedInt3Batch => "embed_int3_batch"@,
        Kernel::Layernorm => "layernorm"@,
        Kernel::Rmsnorm => "rmsnorm"@,
        Kernel::Rope => "rope"@,
        Kernel::RopeDyn => "rope_dyn"@,
        Kernel::RopeBatch => "rope_batch"@,
        Kernel::SiluMul => "silu_mul"@,
        Kernel::Gemv => "gemv"@,
        Kernel::GemvHalf => "gemv_half"@,
        Kernel::GemvInt8 => "gemv_int8"@,
        Kernel::GemvInt4 => "gemv_int4"@,
        Kernel::GemvInt2 => "gemv_int2"@,
        Kernel::GemvInt3 => "gemv_int3"@,
        Kernel::GemmF32 => "gemm_f32"@,
        Kernel::GemmHalf => "gemm_half"@,
        Kernel::GemmF32Wide => "gemm_f32_wide"@,
        Kernel::GemmHalfWide => "gemm_half_wide"@,
        Kernel::GemmInt8Wide => "gemm_int8_wide"@,
        Kernel::GemmInt4Wide => "gemm_int4_wide"@,
        Kernel::GemmInt8 => "gemm_int8"@,
        Kernel::GemmInt4 => "gemm_int4"@,
        Kernel::GemmF32Skinny => "gemm_f32_skinny"@,
        Kernel::GemmHalfSkinny => "gemm_half_skinny"@,
        Kernel::GemmInt8Skinny => "gemm_int8_skinny"@,
        Kernel::GemmInt4Skinny => "gemm_int4_skinny"@,
        Kernel::GemmRowsF32 => "gemm_rows_f32"@,
        Kernel::GemmRowsHalf => "gemm_rows_half"@,
        Kernel::GemmRowsInt8 => "gemm_rows_int8"@,
        Kernel::GemmRowsInt4 => "gemm_rows_int4"@,
        Kernel::GemmInt2 => "gemm_int2"@,
        Kernel::GemmInt2Skinny => "gemm_int2_skinny"@,
        Kernel::GemmRowsInt2 => "gemm_rows_int2"@,
        Kernel::GemmInt3 => "gemm_int3"@,
        Kernel::GemmInt3Skinny => "gemm_int3_skinny"@,
        Kernel::GemmRowsInt3 => "gemm_rows_int3"@,
        Kernel::EmbedInt4k => "embed_int4k"@,
        Kernel::EmbedInt4kDyn => "embed_int4k_dyn"@,
        Kernel::EmbedInt4kBatch => "embed_int4k_batch"@,
        Kernel::GemvInt4k => "gemv_int4k"@,
        Kernel::GemmInt4kWide => "gemm_int4k_wide"@,
        Kernel::GemmInt4k => "gemm_int4k"@,
        Kernel::GemmInt4kSkinny => "gemm_int4k_skinny"@,
        Kernel::GemmRowsInt4k => "gemm_rows_int4k"@,
        Kernel::QuantizeAct => "quantize_act"@,
        Kernel::CopyKvDyn => "copy_kv_dyn"@,
        Kernel::CopyKvBatch => "copy_kv_batch"@,
        Kernel::QuantizeKv => "quantize_kv"@,
        Kernel::QuantizeKvDyn => "quantize_kv_dyn"@,
        Kernel::QuantizeKvBatch => "quantize_kv_batch"@,
        Kernel::AttnDecode => "attn_decode"@,
        Kernel::AttnDecodeDyn => "attn_decode_dyn"@,
        Kernel::AttnDecodeQ8 => "attn_decode_q8"@,
        Kernel::AttnDecodeQ8Dyn => "attn_decode_q8_dyn"@,
        Kernel::AttnPrefill => "attn_prefill"@,
        Kernel::AttnPrefillQ8 => "attn_prefill_q8"@,
        Kernel::LayernormBatch => "layernorm_batch"@,
        Kernel::RmsnormBatch => "rmsnorm_batch"@,
        Kernel::AddInplace => "add_inplace"@,
        Kernel::GeluInplace => "gelu_inplace"@,
        Kernel::ArgmaxAdvance => "argmax_advance"@,
        Kernel::ArgmaxRows => "argmax_rows"@,
        Kernel::CopyRow => "copy_row"@,
    }
}

/// Every kernel, in the order in which an engine loads them.
pub open spec fn kernels() -> Seq<Kernel> {
    seq![
        Kernel::Embed,
        Kernel::EmbedHalf,
        Kernel::EmbedInt8,
        Kernel::EmbedDyn,
        Kernel::EmbedHalfDyn,
        Kernel::EmbedInt8Dyn,
        Kernel::EmbedInt4,
        Kernel::EmbedInt4Dyn,
        Kernel::EmbedBatch,
        Kernel::EmbedHalfBatch,
        Kernel::EmbedInt8Batch,
        Kernel::EmbedInt4Batch,
        Kernel::EmbedInt2,
        Kernel::EmbedInt2Dyn,
        Kernel::EmbedInt2Batch,
        Kernel::EmbedInt3,
        Kernel::EmbedInt3Dyn,
        Kernel::EmbedInt3Batch,
        Kernel::Layernorm,
        Kernel::Rmsnorm,
        Kernel::Rope,
        Kernel::RopeDyn,
        Kernel::RopeBatch,
        Kernel::SiluMul,
        Kernel::Gemv,
        Kernel::GemvHalf,
        Kernel::GemvInt8,
        Kernel::GemvInt4,
        Kernel::GemvInt2,
        Kernel::GemvInt3,
        Kernel::GemmF32,
        Kernel::GemmHalf,
        Kernel::GemmF32Wide,
        Kernel::GemmHalfWide,
        Kernel::GemmInt8Wide,
        Kernel::GemmInt4Wide,
        Kernel::GemmInt8,
        Kernel::GemmInt4,
        Kernel::GemmF32Skinny,
        Kernel::GemmHalfSkinny,
        Kernel::GemmInt8Skinny,
        Kernel::GemmInt4Skinny,
        Kernel::GemmRowsF32,
        Kernel::GemmRowsHalf,
        Kernel::GemmRowsInt8,
        Kernel::GemmRowsInt4,
        Kernel::GemmInt2,
        Kernel::GemmInt2Skinny,
        Kernel::GemmRowsInt2,
        Kernel::GemmInt3,
        Kernel::GemmInt3Skinny,
        Kernel::GemmRowsInt3,
        Kernel::EmbedInt4k,
        Kernel::EmbedInt4kDyn,
        Kernel::EmbedInt4kBatch,
        Kernel::GemvInt4k,
        Kernel::GemmInt4kWide,
        Kernel::GemmInt4k,
        Kernel::GemmInt4kSkinny,
        Kernel::GemmRowsInt4k,
        Kernel::QuantizeAct,
        Kernel::CopyKvDyn,
        Kernel::CopyKvBatch,
        Kernel::QuantizeKv,
        Kernel::QuantizeKvDyn,
        Kernel::QuantizeKvBatch,
        Kernel::AttnDecode,
        Kernel::AttnDecodeDyn,
        Kernel::AttnDecodeQ8,
        Kernel::AttnDecodeQ8Dyn,
        Kernel::AttnPrefill,
        Kernel::AttnPrefillQ8,
        Kernel::LayernormBatch,
        Kernel::RmsnormBatch,
        Kernel::AddInplace,
        Kernel::GeluInplace,
        Kernel::ArgmaxAdvance,
        Kernel::ArgmaxRows,
        Kernel::CopyRow,
    ]
}

impl Kernel {
    /// The name under which the device module exports the kernel.
    pub fn name(self) -> (s: &'static str)
        ensures
            s@ == kernel_name(self),
    {
        match self {
            Kernel::Embed => "embed",
            Kernel::EmbedHalf => "embed_half",
            Kernel::EmbedInt8 => "embed_int8",
            Kernel::EmbedDyn => "embed_dyn",
            Kernel::EmbedHalfDyn => "embed_half_dyn",
            Kernel::EmbedInt8Dyn => "embed_int8_dyn",
            Kernel::EmbedInt4 => "embed_int4",
            Kernel::EmbedInt4Dyn => "embed_int4_dyn",
            Kernel::EmbedBatch => "embed_batch",
            Kernel::EmbedHalfBatch => "embed_half_batch",
            Kernel::EmbedInt8Batch => "embed_int8_batch",
            Kernel::EmbedInt4Batch => "embed_int4_batch",
            Kernel::EmbedInt2 => "embed_int2",
            Kernel::EmbedInt2Dyn => "embed_int2_dyn",
            Kernel::EmbedInt2Batch => "embed_int2_batch",
            Kernel::EmbedInt3 => "embed_int3",
            Kernel::EmbedInt3Dyn => "embed_int3_dyn",
            Kernel::EmbedInt3Batch => "embed_int3_batch",
            Kernel::Layernorm => "layernorm",
            Kernel::Rmsnorm => "rmsnorm",
            Kernel::Rope => "rope",
            Kernel::RopeDyn => "rope_dyn",
            Kernel::RopeBatch => "rope_batch",
            Kernel::SiluMul => "silu_mul",
            Kernel::Gemv => "gemv",
            Kernel::GemvHalf => "gemv_half",
            Kernel::GemvInt8 => "gemv_int8",
            Kernel::GemvInt4 => "gemv_int4",
            Kernel::GemvInt2 => "gemv_int2",
            Kernel::GemvInt3 => "gemv_int3",
            Kernel::GemmF32 => "gemm_f32",
            Kernel::GemmHalf => "gemm_half",
            Kernel::GemmF32Wide => "gemm_f32_wide",
            Kernel::GemmHalfWide => "gemm_half_wide",
            Kernel::GemmInt8Wide => "gemm_int8_wide",
            Kernel::GemmInt4Wide => "gemm_int4_wide",
            Kernel::GemmInt8 => "gemm_int8",
            Kernel::GemmInt4 => "gemm_int4",
            Kernel::GemmF32Skinny => "gemm_f32_skinny",
            Kernel::GemmHalfSkinny => "gemm_half_skinny",
            Kernel::GemmInt8Skinny => "gemm_int8_skinny",
            Kernel::GemmInt4Skinny => "gemm_int4_skinny",
            Kernel::GemmRowsF32 => "gemm_rows_f32",
            Kernel::GemmRowsHalf => "gemm_rows_half",
            Kernel::GemmRowsInt8 => "gemm_rows_int8",
            Kernel::GemmRowsInt4 => "gemm_rows_int4",
            Kernel::GemmInt2 => "gemm_int2",
            Kernel::GemmInt2Skinny => "gemm_int2_skinny",
            Kernel::GemmRowsInt2 => "gemm_rows_int2",
            Kernel::GemmInt3 => "gemm_int3",
            Kernel::GemmInt3Skinny => "gemm_int3_skinny",
            Kernel::GemmRowsInt3 => "gemm_rows_int3",
            Kernel::EmbedInt4k => "embed_int4k",
            Kernel::EmbedInt4kDyn => "embed_int4k_dyn",
            Kernel::EmbedInt4kBatch => "embed_int4k_batch",
            Kernel::GemvInt4k => "gemv_int4k",
            Kernel::GemmInt4kWide => "gemm_int4k_wide",
            Kernel::GemmInt4k => "gemm_int4k",
            Kernel::GemmInt4kSkinny => "gemm_int4k_skinny",
            Kernel::GemmRowsInt4k => "gemm_rows_int4k",
            Kernel::QuantizeAct => "quantize_act",
            Kernel::CopyKvDyn => "copy_kv_dyn",
            Kernel::CopyKvBatch => "copy_kv_batch",
            Kernel::QuantizeKv => "quantize_kv",
            Kernel::QuantizeKvDyn => "quantize_kv_dyn",
            Kernel::QuantizeKvBatch => "quantize_kv_batch",
            Kernel::AttnDecode => "attn_decode",
            Kernel::AttnDecodeDyn => "attn_decode_dyn",
            Kernel::AttnDecodeQ8 => "attn_decode_q8",
            Kernel::AttnDecodeQ8Dyn => "attn_decode_q8_dyn",
            Kernel::AttnPrefill => "attn_prefill",
            Kernel::AttnPrefillQ8 => "attn_prefill_q8",
            Kernel::LayernormBatch => "layernorm_batch",
            Kernel::RmsnormBatch => "rmsnorm_batch",
            Kernel::AddInplace => "add_inplace",
            Kernel::GeluInplace => "gelu_inplace",
            Kernel::ArgmaxAdvance => "argmax_advance",
            Kernel::ArgmaxRows => "argmax_rows",
            Kernel::CopyRow => "copy_row",
        }
    }
}

/// The kernels to load from a compiled module, in order.
pub fn load_kernels() -> (ks: Vec<Kernel>)
    ensures
        ks@ == kernels(),
{
    let ks: Vec<Kernel> = vec![
        Kernel::Embed,
        Kernel::EmbedHalf,
        Kernel::EmbedInt8,
        Kernel::EmbedDyn,
        Kernel::EmbedHalfDyn,
        Kernel::EmbedInt8Dyn,
        Kernel::EmbedInt4,
        Kernel::EmbedInt4Dyn,
        Kernel::EmbedBatch,
        Kernel::EmbedHalfBatch,
        Kernel::EmbedInt8Batch,
        Kernel::EmbedInt4Batch,
        Kernel::EmbedInt2,
        Kernel::EmbedInt2Dyn,
        Kernel::EmbedInt2Batch,
        Kernel::EmbedInt3,
        Kernel::EmbedInt3Dyn,
        Kernel::EmbedInt3Batch,
        Kernel::Layernorm,
        Kernel::Rmsnorm,
        Kernel::Rope,
        Kernel::RopeDyn,
        Kernel::RopeBatch,
        Kernel::SiluMul,
        Kernel::Gemv,
        Kernel::GemvHalf,
        Kernel::GemvInt8,
        Kernel::GemvInt4,
        Kernel::GemvInt2,
        Kernel::GemvInt3,
        Kernel::GemmF32,
        Kernel::GemmHalf,
        Kernel::GemmF32Wide,
        Kernel::GemmHalfWide,
        Kernel::GemmInt8Wide,
        Kernel::GemmInt4Wide,
        Kernel::GemmInt8,
        Kernel::GemmInt4,
        Kernel::GemmF32Skinny,
        Kernel::GemmHalfSkinny,
        Kernel::GemmInt8Skinny,
        Kernel::GemmInt4Skinny,
        Kernel::GemmRowsF32,
        Kernel::GemmRowsHalf,
        Kernel::GemmRowsInt8,
        Kernel::GemmRowsInt4,
        Kernel::GemmInt2,
        Kernel::GemmInt2Skinny,
        Kernel::GemmRowsInt2,
        Kernel::GemmInt3,
        Kernel::GemmInt3Skinny,
        Kernel::GemmRowsInt3,
        Kernel::EmbedInt4k,
        Kernel::EmbedInt4kDyn,
        Kernel::EmbedInt4kBatch,
        Kernel::GemvInt4k,
        Kernel::GemmInt4kWide,
        Kernel::GemmInt4k,
        Kernel::GemmInt4kSkinny,
        Kernel::GemmRowsInt4k,
        Kernel::QuantizeAct,
        Kernel::CopyKvDyn,
        Kernel::CopyKvBatch,
        Kernel::QuantizeKv,
        Kernel::QuantizeKvDyn,
        Kernel::QuantizeKvBatch,
        Kernel::AttnDecode,
        Kernel::AttnDecodeDyn,
        Kernel::AttnDecodeQ8,
        Kernel::AttnDecodeQ8Dyn,
        Kernel::AttnPrefill,
        Kernel::AttnPrefillQ8,
        Kernel::LayernormBatch,
        Kernel::RmsnormBatch,
        Kernel::AddInplace,
        Kernel::GeluInplace,
        Kernel::ArgmaxAdvance,
        Kernel::ArgmaxRows,
        Kernel::CopyRow,
    ];
    assert(ks@ =~= kernels());
    ks
}

/// Where a kernel stands in the load order.
pub open spec fn kernel_slot(k: Kernel) -> int {
    match k {
        Kernel::Embed => 0,
        Kernel::EmbedHalf => 1,
        Kernel::EmbedInt8 => 2,
        Kernel::EmbedDyn => 3,
        Kernel::EmbedHalfDyn => 4,
        Kernel::EmbedInt8Dyn => 5,
        Kernel::EmbedInt4 => 6,
        Kernel::EmbedInt4Dyn => 7,
        Kernel::EmbedBatch => 8,
        Kernel::EmbedHalfBatch => 9,
        Kernel::EmbedInt8Batch => 10,
        Kernel::EmbedInt4Batch => 11,
        Kernel::EmbedInt2 => 12,
        Kernel::EmbedInt2Dyn => 13,
        Kernel::EmbedInt2Batch => 14,
        Kernel::EmbedInt3 => 15,
        Kernel::EmbedInt3Dyn => 16,
        Kernel::EmbedInt3Batch => 17,
        Kernel::Layernorm => 18,
        Kernel::Rmsnorm => 19,
        Kernel::Rope => 20,
        Kernel::RopeDyn => 21,
        Kernel::RopeBatch => 22,
        Kernel::SiluMul => 23,
        Kernel::Gemv => 24,
        Kernel::GemvHalf => 25,
        Kernel::GemvInt8 => 26,
        Kernel::GemvInt4 => 27,
        Kernel::GemvInt2 => 28,
        Kernel::GemvInt3 => 29,
        Kernel::GemmF32 => 30,
        Kernel::GemmHalf => 31,
        Kernel::GemmF32Wide => 32,
        Kernel::GemmHalfWide => 33,
        Kernel::GemmInt8Wide => 34,
        Kernel::GemmInt4Wide => 35,
        Kernel::GemmInt8 => 36,
        Kernel::GemmInt4 => 37,
        Kernel::GemmF32Skinny => 38,
        Kernel::GemmHalfSkinny => 39,
        Kernel::GemmInt8Skinny => 40,
        Kernel::GemmInt4Skinny => 41,
        Kernel::GemmRowsF32 => 42,
        Kernel::GemmRowsHalf => 43,
        Kernel::GemmRowsInt8 => 44,
        Kernel::GemmRowsInt4 => 45,
        Kernel::GemmInt2 => 46,
        Kernel::GemmInt2Skinny => 47,
        Kernel::GemmRowsInt2 => 48,
        Kernel::GemmInt3 => 49,
        Kernel::GemmInt3Skinny => 50,
        Kernel::GemmRowsInt3 => 51,
        Kernel::EmbedInt4k => 52,
        Kernel::EmbedInt4kDyn => 53,
        Kernel::EmbedInt4kBatch => 54,
        Kernel::GemvInt4k => 55,
        Kernel::GemmInt4kWide => 56,
        Kernel::GemmInt4k => 57,
        Kernel::GemmInt4kSkinny => 58,
        Kernel::GemmRowsInt4k => 59,
        Kernel::QuantizeAct => 60,
        Kernel::CopyKvDyn => 61,
        Kernel::CopyKvBatch => 62,
        Kernel::QuantizeKv => 63,
        Kernel::QuantizeKvDyn => 64,
        Kernel::QuantizeKvBatch => 65,
        Kernel::AttnDecode => 66,
        Kernel::AttnDecodeDyn => 67,
        Kernel::AttnDecodeQ8 => 68,
        Kernel::AttnDecodeQ8Dyn => 69,
        Kernel::AttnPrefill => 70,
        Kernel::AttnPrefillQ8 => 71,
        Kernel::LayernormBatch => 72,
        Kernel::RmsnormBatch => 73,
        Kernel::AddInplace => 74,
        Kernel::GeluInplace => 75,
        Kernel::ArgmaxAdvance => 76,
        Kernel::ArgmaxRows => 77,
        Kernel::CopyRow => 78,
    }
}

/// True where both builds of the kernels are there: an empty or blank text stands for
/// kernels that could not be compiled.
pub fn ptx_available(llm_ptx: &str, llm_ag8_ptx: &str) -> (r: bool)
    ensures
        r == (!blank(llm_ptx@) && !blank(llm_ag8_ptx@)),
{
    !is_blank(llm_ptx) && !is_blank(llm_ag8_ptx)
}

/// Loading covers every kernel that a plan can name, each exactly once.
pub proof fn every_kernel_is_loaded_once(k: Kernel)
    ensures
        0 <= kernel_slot(k) < kernels().len(),
        kernels()[kernel_slot(k)] == k,
        forall|i: int| 0 <= i < kernels().len() && #[trigger] kernels()[i] == k ==> i == kernel_slot(k),
{
    assert forall|i: int| 0 <= i < kernels().len() && #[trigger] kernels()[i] == k implies i
        == kernel_slot(k) by {
        assert(kernel_slot(kernels()[i]) == i);
    }
}

} // verus!
