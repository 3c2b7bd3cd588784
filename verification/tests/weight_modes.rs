use mx_engine::model::{Arch, Config};
use mx_engine::quant::{
    act_group, column_chunks, decode_weight_bytes, kbench_shapes, mixed_tiers, sub_byte,
    weight_footprint, WeightMode,
};
use mx_engine::setup::mode_accepts;

const MODES: [WeightMode; 7] = [
    WeightMode::Fp32,
    WeightMode::Fp16,
    WeightMode::Int8,
    WeightMode::Int4,
    WeightMode::Int4K,
    WeightMode::Int3,
    WeightMode::Int2,
];

fn args(s: &str) -> Vec<String> {
    s.split_whitespace().map(str::to_string).collect()
}

#[test]
fn flags_pick_a_mode() {
    assert_eq!(WeightMode::parse(&args("generate hello")), WeightMode::Fp32);
    for m in MODES {
        let a = args(&format!("generate x --{}", m.label()));
        assert_eq!(WeightMode::try_parse(&a), Some(m));
        assert_eq!(WeightMode::parse(&a), m);
    }
    assert_eq!(WeightMode::try_parse(&args("--int4 --int8")), None);
    assert_eq!(WeightMode::try_parse(&args("--int4 --int4")), Some(WeightMode::Int4));
    assert_eq!(WeightMode::try_parse(&args("--int4k --int2 --fp16")), None);
}

#[test]
fn rates_count_scales() {
    let per = |m: WeightMode| m.bytes_per_param() as f64 / 32.0;
    assert_eq!(per(WeightMode::Fp32), 4.0);
    assert_eq!(per(WeightMode::Fp16), 2.0);
    assert_eq!(per(WeightMode::Int8), 1.0);
    assert_eq!(per(WeightMode::Int4), 0.5 + 2.0 / 32.0);
    assert_eq!(per(WeightMode::Int4K), 0.5 + 1.0 / 16.0 + 4.0 / 128.0);
    assert_eq!(per(WeightMode::Int3), 0.375 + 1.0 / 16.0 + 4.0 / 128.0);
    assert_eq!(per(WeightMode::Int2), 0.25 + 1.0 / 16.0 + 4.0 / 128.0);
}

#[test]
fn low_rungs_keep_embeddings_up() {
    assert_eq!(mixed_tiers(WeightMode::Int2, false, false), (WeightMode::Int4, WeightMode::Int4));
    assert_eq!(mixed_tiers(WeightMode::Int3, false, false), (WeightMode::Int4, WeightMode::Int3));
    assert_eq!(mixed_tiers(WeightMode::Int4, true, false), (WeightMode::Int8, WeightMode::Int4));
    assert_eq!(mixed_tiers(WeightMode::Int4K, false, true), (WeightMode::Int4K, WeightMode::Int8));
    // never a step down
    assert_eq!(mixed_tiers(WeightMode::Fp16, true, true), (WeightMode::Fp16, WeightMode::Fp16));
    for m in MODES {
        for (e, f) in [(false, false), (true, false), (false, true), (true, true)] {
            let (a, b) = mixed_tiers(m, e, f);
            assert!(a.bytes_per_param() >= m.bytes_per_param());
            assert!(b.bytes_per_param() >= m.bytes_per_param());
        }
    }
    assert_eq!(WeightMode::Int2.embed_mode(), WeightMode::Int4);
    assert_eq!(WeightMode::Int3.ffn_down_mode(), WeightMode::Int3);
}

#[test]
fn footprints_are_the_documented_sizes() {
    let mb = |c: &Config, m: WeightMode| weight_footprint(c, m, false, false) as f64 / 32.0e6;
    assert_eq!(mb(&Config::gpt2_small(), WeightMode::Fp32).round(), 497.0);
    assert_eq!(mb(&Config::qwen25_05b(), WeightMode::Fp16).round(), 988.0);
    assert_eq!(mb(&Config::tinyllama_11b(), WeightMode::Int4).round(), 619.0);
    let c = Config::gpt2_small();
    let plain = weight_footprint(&c, WeightMode::Int4, false, false);
    let mixed = weight_footprint(&c, WeightMode::Int4, true, true);
    // embeddings and output projections at eight bits instead of four and a half
    assert_eq!(mixed - plain, (50257 * 768 + 12 * 3072 * 768) as u128 * (32 - 18));
}

#[test]
fn shapes_of_a_model() {
    let v = kbench_shapes(&Config::gpt2_small());
    assert_eq!(v[0], ("qkv", 768, 2304, true));
    assert_eq!(v[2], ("ffn_up", 768, 3072, true));
    assert_eq!(v[4], ("lm_head", 768, 50257, false));
    let q = kbench_shapes(&Config::qwen25_05b());
    assert_eq!(q[0], ("qkv", 896, 1152, true));
    assert_eq!(q[1], ("attn_proj", 896, 896, true));
    assert_eq!(q[2].0, "ffn_gate/up");
    assert_eq!(act_group(Arch::Gpt2), 4);
    assert_eq!(act_group(Arch::Llama), 8);
}

#[test]
fn streamed_bytes_count_scales() {
    assert_eq!(decode_weight_bytes(WeightMode::Int8, 64, 10), 64 * 10 + 40);
    assert_eq!(decode_weight_bytes(WeightMode::Int4, 64, 10), 320 + 2 * 10 * 2);
}

#[test]
fn modes_need_whole_blocks() {
    assert!(mode_accepts(WeightMode::Fp32, 3));
    assert!(mode_accepts(WeightMode::Int8, 12) && !mode_accepts(WeightMode::Int8, 10));
    assert!(mode_accepts(WeightMode::Int4, 64) && !mode_accepts(WeightMode::Int4, 40));
    assert!(mode_accepts(WeightMode::Int2, 256) && !mode_accepts(WeightMode::Int2, 64));
}

#[test]
fn sub_scales_share_a_byte() {
    assert_eq!(sub_byte(3, 10), 0xa3);
    assert_eq!(sub_byte(15, 0), 0x0f);
}

#[test]
fn columns_are_shared_out() {
    assert_eq!(column_chunks(10, 4), vec![(0, 3), (3, 6), (6, 9), (9, 10)]);
    assert_eq!(column_chunks(3, 8), vec![(0, 1), (1, 2), (2, 3)]);
    assert_eq!(column_chunks(8, 1), vec![(0, 8)]);
}
