use mx_engine::bench::{kbench, median};
use mx_engine::kernel::{load_kernels, ptx_available, Kernel};
use mx_engine::launch::{blocks, cfg1d, Arg, Buf, Step};
use mx_engine::model::Config;
use mx_engine::nvcc::{compiler_candidates, is_device_source, nvcc_args, ptx_path, variant_path};
use mx_engine::quant::WeightMode;
use mx_engine::suite::{
    backward, flash, fused, naive, row_major_gemm, to_colmajor, to_rowmajor, BlasShape, CallArg,
    Fused, Operand, Rung, HEAD,
};

#[test]
fn every_kernel_has_a_name_of_its_own() {
    let ks = load_kernels();
    let mut names: Vec<&str> = ks.iter().map(|k| k.name()).collect();
    assert_eq!(names.len(), 79);
    names.sort();
    names.dedup();
    assert_eq!(names.len(), 79);
    assert_eq!(Kernel::GemvInt4.name(), "gemv_int4");
    assert_eq!(Kernel::AttnDecode.name(), "attn_decode");
}

#[test]
fn empty_builds_are_not_available() {
    assert!(ptx_available(".version 8.0", "//"));
    assert!(!ptx_available(".version 8.0", " \n"));
    assert!(!ptx_available("", ".version 8.0"));
}

#[test]
fn blocks_round_up() {
    assert_eq!(blocks(0, 256), 0);
    assert_eq!(blocks(256, 256), 1);
    assert_eq!(blocks(257, 256), 2);
    assert_eq!(cfg1d(1000), (4, 1, 1));
}

#[test]
fn kernel_benchmarks_are_planned() {
    let c = Config::gpt2_small();
    let b = kbench(&c, WeightMode::Int8, 512).unwrap();
    assert_eq!(b.act_words, 512 * 3072 / 4);
    assert_eq!(b.act_groups, 512 * 3072 / 4);
    assert_eq!(b.cases.len(), 5);
    let qkv = &b.cases[0];
    assert_eq!((qkv.label, qkv.k, qkv.n), ("qkv", 768, 2304));
    assert_eq!(qkv.seed, 0x9E37_79B9 ^ 2304);
    assert_eq!(qkv.bytes, 768 * 2304 + 2304 * 4);
    assert_eq!(qkv.decode.len(), 1);
    assert_eq!(qkv.prefill.len(), 2);
    assert!(b.cases[4].prefill.is_empty());
    match &qkv.decode[0] {
        Step::Launch(l) => {
            assert_eq!(l.kernel, Kernel::GemvInt8);
            assert_eq!(l.grid, (9, 1, 1));
            assert_eq!(l.args[0], Arg::Buf(Buf::BenchY));
        }
        _ => panic!("a launch was planned"),
    }
    assert!(kbench(&c, WeightMode::Fp32, 512).is_none());
    assert!(kbench(&Config::qwen25_05b(), WeightMode::Int4, 64).is_some());
}

#[test]
fn medians_are_the_upper_middle() {
    let m = |v: &[f32]| f32::from_bits(median(&v.iter().map(|x| x.to_bits()).collect::<Vec<_>>()));
    assert_eq!(m(&[3.0, 1.0, 2.0]), 2.0);
    assert_eq!(m(&[4.0, 1.0, 3.0, 2.0]), 3.0);
    assert_eq!(m(&[5.0]), 5.0);
    assert_eq!(m(&[1.0, -1.0, 0.0, f32::INFINITY, -2.0]), 0.0);
}

#[test]
fn ladder_covers_the_matrix() {
    let v = Rung::ladder();
    assert_eq!(v.len(), 5);
    assert_eq!(v[0].label(), "v1 naive");
    assert_eq!(v[4].file(), "gemm_05_vectorized.ptx");
    let c = Rung::Naive.call(512).unwrap();
    assert_eq!((c.name, c.grid, c.block), ("gemm_naive", (32, 32, 1), (16, 16, 1)));
    assert_eq!(c.args[3], CallArg::I32(512));
    let c = Rung::Vectorized.call(256).unwrap();
    assert_eq!((c.grid, c.block), ((2, 2, 1), (256, 1, 1)));
    assert!(Rung::Tiled.call(48).is_none());
}

#[test]
fn attention_is_planned() {
    let v = naive(100, true);
    assert_eq!(v.len(), 3);
    assert_eq!(v[0].grid, (7, 7, 1));
    assert_eq!(v[1].grid, (100, 1, 1));
    assert_eq!((v[2].grid, v[2].block), ((1, 25, 1), (HEAD as u32, 4, 1)));
    assert_eq!(v[0].args[4], CallArg::I32(1));
    let f = flash(100, false, false);
    assert_eq!((f.name, f.grid), ("attn_flash", (2, 1, 1)));
    assert_eq!(f.args.len(), 6);
    let l = flash(100, false, true);
    assert_eq!(l.name, "attn_flash_lse");
    assert_eq!(l.args[4], CallArg::Buf(Operand::Lse));
    let b = backward(512, true);
    assert_eq!((b[0].name, b[1].name), ("attn_bwd_preprocess", "attn_bwd"));
    assert_eq!(b[1].grid, (2, 1, 1));
    assert_eq!(b[1].args.len(), 11);
    for call in v.iter().chain(&b) {
        for (i, x) in call.args.iter().enumerate() {
            if matches!(x, CallArg::Buf(_)) {
                assert!(!call.args[i + 1..].contains(x), "{}", call.name);
            }
        }
    }
}

#[test]
fn fused_steps_are_planned() {
    let g = fused(Fused::Gemm, 256, 3072, 768);
    assert_eq!((g.name, g.grid), ("cute_gemm", (2, 24, 1)));
    assert_eq!(g.args[6], CallArg::F32(1.0f32.to_bits()));
    let r = fused(Fused::RowMajor, 256, 3072, 768);
    assert_eq!((r.name, r.grid), ("gemm_dbuf", (24, 2, 1)));
    let b = fused(Fused::BiasGelu, 100, 3, 1);
    assert_eq!((b.grid, b.args.len()), ((2, 1, 1), 4));
    assert_eq!(fused(Fused::GemmBiasGelu, 128, 128, 8).args[2], CallArg::Buf(Operand::Bias));
    assert_eq!(row_major_gemm(2, 3, 4), BlasShape { m: 4, n: 2, k: 3, lda: 4, ldb: 3, ldc: 4 });
}

#[test]
fn storage_orders_are_inverse() {
    let a: Vec<f32> = (0..6).map(|x| x as f32).collect();
    let cm = to_colmajor(&a, 2, 3);
    assert_eq!(cm, vec![0.0, 3.0, 1.0, 4.0, 2.0, 5.0]);
    assert_eq!(to_rowmajor(&cm, 2, 3), a);
}

#[test]
fn device_sources_are_compiled() {
    assert!(is_device_source("kernels/llm.cu") && is_device_source("a.b.cu"));
    assert!(!is_device_source("kernels/llm.cuh") && !is_device_source("kernels/.cu") && !is_device_source("kernels.cu/readme"));
    assert_eq!(ptx_path("/out", "kernels/llm.cu"), "/out/llm.ptx");
    assert_eq!(variant_path("/out", "llm_ag8"), "/out/llm_ag8.ptx");
    let v = compiler_candidates(Some("/cuda"));
    assert_eq!(v[0], "/cuda/bin/nvcc");
    assert_eq!(v[1..], compiler_candidates(None)[..]);
    let a = nvcc_args("k/llm.cu", "o/llm.ptx", &["-DAG=8".to_string()], Some("/usr/bin/g++-14"));
    assert_eq!(a.join(" "), "-ptx -O3 -arch sm_61 -lineinfo -Wno-deprecated-gpu-targets -DAG=8 k/llm.cu -o o/llm.ptx -ccbin /usr/bin/g++-14");
    assert_eq!(nvcc_args("a", "b", &[], None).len(), 9);
}

#[test]
fn compiled_files_change_the_last_component_only() {
    assert_eq!(variant_path("d", "a.b/c"), "d/a.b/c.ptx");
    assert_eq!(variant_path("d", "a.b"), "d/a.ptx");
    assert_eq!(variant_path("d", "x/"), "d/x.ptx");
    assert_eq!(variant_path("d", ".."), "d/..");
    assert_eq!(variant_path("d", ""), "d.ptx");
    let dirs = ["", "/", ".", "..", "d", "d/", "d.e", "/o.p/q.r", "d/.", "d//", "./", "/."];
    let names = [
        "", "/", ".", "..", "x", "x/", "x//", "x/.", "x/./", "x/..", ".x", ".x.y", "x.", "x..", "..x", "..x/", "a/..x", "...", "x.\u{e9}/",
        "x.y", "x.y/", "x.long/.//", "a.b/c", "a.b/c.d", "a.b/", "/abs/k.v", "./x.y", "../x.y", "a/./b.c",
    ];
    for d in dirs {
        for n in names {
            let want = std::path::Path::new(d).join(n).with_extension("ptx");
            assert_eq!(variant_path(d, n), want.to_str().unwrap(), "{d:?} {n:?}");
        }
    }
}

#[test]
fn device_sources_go_by_their_file_name() {
    let paths = ["", "/", ".", "..", "k.cu", "k.cu/", "k.cu/.", "k.cu/..", ".cu", "..cu", "a.b.cu", "d.cu/k", "d/k.cu//", "k.cuh"];
    for p in paths {
        let std_path = std::path::Path::new(p);
        assert_eq!(is_device_source(p), std_path.extension().is_some_and(|e| e == "cu"), "{p:?}");
        if let Some(stem) = std_path.file_stem() {
            let want = std::path::Path::new("/out").join(stem).with_extension("ptx");
            assert_eq!(ptx_path("/out", p), want.to_str().unwrap(), "{p:?}");
        }
    }
}
