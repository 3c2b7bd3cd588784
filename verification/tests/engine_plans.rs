use mx_engine::batch::GraphOp;
use mx_engine::decode::SpecAction;
use mx_engine::engine::{sizes_fit, Engine, MAX_CTX};
use mx_engine::floatbits::argmax;
use mx_engine::gptq::{Entry, Role, Sidecar};
use mx_engine::kernel::Kernel;
use mx_engine::launch::{Arg, Buf, KvPart, Launch, Plane, Step, Tensor, VecName, Weights};
use mx_engine::model::{Arch, Config, Layer, Model};
use mx_engine::quant::WeightMode;
use mx_engine::setup::{Elem, EngineError, Setup};
use mx_engine::upload::{linear_in, matrix_of, vector_of};

fn model(arch: Arch, n_ctx: usize) -> Model {
    let c = Config {
        arch,
        n_layer: 2,
        n_head: 2,
        n_kv_head: if arch == Arch::Gpt2 { 2 } else { 1 },
        head_dim: 64,
        n_embd: 128,
        n_inter: 256,
        n_ctx,
        n_vocab: 300,
        rope_theta: 0,
        norm_eps: 0x3727C5AC,
    };
    let (e, i, qkv) = (c.n_embd, c.n_inter, c.qkv_dim());
    let gpt = arch == Arch::Gpt2;
    let some = |n: usize, on: bool| if on { vec![0u32; n] } else { Vec::new() };
    let layers = (0..2)
        .map(|_| Layer {
            ln1_g: vec![0; e],
            ln1_b: some(e, gpt),
            qkv_w: vec![0; e * qkv],
            qkv_b: vec![0; qkv],
            proj_w: vec![0; c.q_dim() * e],
            proj_b: vec![0; e],
            ln2_g: vec![0; e],
            ln2_b: some(e, gpt),
            fc_w: vec![0; e * i],
            fc_b: some(i, gpt),
            up_w: some(e * i, !gpt),
            fc2_w: vec![0; i * e],
            fc2_b: some(e, gpt),
        })
        .collect();
    Model {
        config: c,
        wte: vec![0; c.n_vocab * e],
        wpe: some(c.n_ctx * e, gpt),
        layers,
        lnf_g: vec![0; e],
        lnf_b: some(e, gpt),
        lm_head: some(c.n_vocab * e, arch == Arch::Llama),
    }
}

fn launches(steps: &[Step]) -> Vec<&Launch> {
    steps.iter().filter_map(|s| match s { Step::Launch(l) => Some(l), _ => None }).collect()
}

fn kernels(steps: &[Step]) -> Vec<Kernel> {
    launches(steps).iter().map(|l| l.kernel).collect()
}

fn makes(s: &Setup, b: Buf) -> bool {
    let part = |w: &Weights| match *w {
        Weights::F32(v) | Weights::F16(v) => b == v,
        Weights::Int8 { q, scales } => b == q || b == scales,
        Weights::Int4 { q, scales, perm } => b == q || b == scales || perm == Some(b),
        Weights::Int4K { q, sub, dm } | Weights::Int3 { q, sub, dm } | Weights::Int2 { q, sub, dm } => {
            b == q || b == sub || b == dm
        }
    };
    match s {
        Setup::Zeros { buf, .. } => b == *buf,
        Setup::Vector(buf) => b == *buf,
        Setup::Matrix { w, .. } | Setup::Entry { w, .. } => part(w),
    }
}

/// Every buffer has been made and is handed over once.
fn sound(steps: &[Step], setup: &[Setup]) {
    let made = |b: Buf| assert!(setup.iter().any(|s| makes(s, b)), "{b:?}");
    for s in steps {
        match s {
            Step::Launch(l) => {
                for (i, a) in l.args.iter().enumerate() {
                    if let Arg::Buf(b) = a {
                        made(*b);
                        assert!(!l.args[i + 1..].contains(a), "{:?} twice", b);
                    }
                }
            }
            Step::Copy { src, dst, .. } => {
                made(*src);
                made(*dst);
                assert!(src != dst);
            }
            Step::Upload { dst, .. } => made(*dst),
        }
    }
}

#[test]
fn decode_step_of_gpt2() {
    let (e, setup) = Engine::new(&model(Arch::Gpt2, 16), WeightMode::Fp32, false).unwrap();
    let steps = e.forward(7, 3);
    let layer = [
        Kernel::Layernorm,
        Kernel::Gemv,
        Kernel::AttnDecode,
        Kernel::Gemv,
        Kernel::Layernorm,
        Kernel::Gemv,
        Kernel::GeluInplace,
        Kernel::Gemv,
    ];
    let mut want = vec![Kernel::Embed];
    want.extend(layer);
    want.extend(layer);
    want.extend([Kernel::Layernorm, Kernel::Gemv]);
    assert_eq!(kernels(&steps), want);
    let copies: Vec<(Buf, usize, usize, usize)> = steps
        .iter()
        .filter_map(|s| match s {
            Step::Copy { dst, dst_at, src_at, len, .. } => Some((*dst, *dst_at, *src_at, *len)),
            _ => None,
        })
        .collect();
    assert_eq!(copies[0], (Buf::Kv(0, KvPart::K), 3 * 128, 128, 128));
    assert_eq!(copies[3], (Buf::Kv(1, KvPart::V), 3 * 128, 256, 128));
    assert_eq!(launches(&steps)[0].args[3], Arg::I32(7));
    sound(&steps, &setup);
}

#[test]
fn every_plan_is_sound() {
    let modes = [
        WeightMode::Fp32,
        WeightMode::Fp16,
        WeightMode::Int8,
        WeightMode::Int4,
        WeightMode::Int4K,
        WeightMode::Int3,
        WeightMode::Int2,
    ];
    for arch in [Arch::Gpt2, Arch::Qwen2, Arch::Llama] {
        for mode in modes {
            for kv8 in [false, true] {
                let (mut e, setup) = Engine::new(&model(arch, 80), mode, kv8).unwrap();
                assert!(e.batch_ready());
                sound(&e.forward(1, 2), &setup);
                let long: Vec<u32> = (0..70).collect();
                sound(&e.prefill(&long, 0), &setup);
                sound(&e.prefill(&[1, 2, 3], 5), &setup);
                sound(&e.verify_argmax(&[1, 2, 3], 5), &setup);
                let graph = e.capture_decode_graph().unwrap();
                sound(&graph, &setup);
                assert!(e.capture_decode_graph().is_none());
            }
        }
    }
}

#[test]
fn batches_pick_their_kernels_by_size() {
    let (e, _) = Engine::new(&model(Arch::Gpt2, 80), WeightMode::Fp32, false).unwrap();
    let run = |n: u32| kernels(&e.prefill(&(0..n).collect::<Vec<u32>>(), 0));
    assert!(run(1).contains(&Kernel::Gemv) && !run(1).contains(&Kernel::EmbedBatch));
    assert!(run(4).contains(&Kernel::EmbedBatch));
    assert!(run(4).contains(&Kernel::GemmRowsF32));
    assert!(run(70).contains(&Kernel::GemmF32Wide));
    assert_eq!(run(70).last(), Some(&Kernel::Gemv));
}

#[test]
fn graphs_read_token_and_position_from_the_device() {
    let (mut e, _) = Engine::new(&model(Arch::Llama, 16), WeightMode::Int4, true).unwrap();
    let g = e.capture_decode_graph().unwrap();
    let ks = kernels(&g);
    assert_eq!(ks[0], Kernel::EmbedInt4Dyn);
    assert!(ks.contains(&Kernel::RopeDyn) && ks.contains(&Kernel::AttnDecodeQ8Dyn));
    assert_eq!(ks.last(), Some(&Kernel::ArgmaxAdvance));
    assert!(e.capture_decode_graph().is_none());
}

#[test]
fn graph_decoding_replays_once_per_step() {
    let (e, _) = Engine::new(&model(Arch::Gpt2, 16), WeightMode::Fp32, false).unwrap();
    for n in [0usize, 1, 4] {
        let ops = e.graph_decode(5, 3, n);
        match (&ops[0], &ops[1]) {
            (
                GraphOp::Run(Step::Upload { dst: a, values: x }),
                GraphOp::Run(Step::Upload { dst: b, values: y }),
            ) => {
                assert_eq!((*a, x.clone(), *b, y.clone()), (Buf::GraphTok, vec![5], Buf::GraphPos, vec![3]));
            }
            _ => panic!("two uploads"),
        }
        assert!(matches!(ops[2], GraphOp::Prepare));
        assert_eq!(ops.iter().filter(|o| matches!(o, GraphOp::Replay)).count(), n);
        assert!(ops[3..3 + n].iter().all(|o| matches!(o, GraphOp::Replay)));
        assert!(matches!(ops[3 + n], GraphOp::Answer(Buf::GraphTok)));
        assert_eq!(ops.len(), n + 4);
    }
}

#[test]
fn opening_sets_up_the_buffers() {
    let (e, setup) = Engine::new(&model(Arch::Qwen2, 16), WeightMode::Int2, false).unwrap();
    // embeddings and output projections one tier up
    assert!(matches!(e.wte_t, Weights::Int4 { .. }));
    assert!(matches!(e.layers[1].fc2_w, Weights::Int4 { .. }));
    assert!(matches!(e.layers[1].fc_w, Weights::Int2 { .. }));
    assert_eq!(e.ag, 8);
    let zeros = |b: Buf| {
        setup.iter().find_map(|s| match s {
            Setup::Zeros { buf, elem, len } if *buf == b => Some((*elem, *len)),
            _ => None,
        })
    };
    assert_eq!(zeros(Buf::X), Some((Elem::Single, 128)));
    assert_eq!(zeros(Buf::BatchLogits), Some((Elem::Single, 32 * 300)));
    assert_eq!(zeros(Buf::ActQ), Some((Elem::Word, 16 * 256 / 4)));
    assert_eq!(zeros(Buf::ActScale), Some((Elem::Single, 16 * 256 / 8)));
    assert_eq!(zeros(Buf::Kv(1, KvPart::V)), Some((Elem::Single, 16 * 64)));
    assert_eq!(zeros(Buf::Kv(1, KvPart::Ks)), None);
    assert_eq!(zeros(Buf::Wpe), Some((Elem::Single, 16 * 128)));
    let (_, q8) = Engine::new(&model(Arch::Qwen2, 16), WeightMode::Fp16, true).unwrap();
    assert!(q8.contains(&Setup::Zeros { buf: Buf::Kv(0, KvPart::K), elem: Elem::Byte, len: 16 * 64 }));
    assert!(q8.contains(&Setup::Zeros { buf: Buf::Kv(0, KvPart::Kb), elem: Elem::Single, len: 16 }));
}

#[test]
fn models_that_do_not_fit_are_refused() {
    let long = Engine::new(&model(Arch::Gpt2, MAX_CTX + 1), WeightMode::Fp32, false);
    assert_eq!(long.err(), Some(EngineError::ContextTooLong(MAX_CTX + 1)));
    let mut m = model(Arch::Gpt2, 16);
    // a width that fills no four-bit group
    m.config.n_embd = 120;
    let c = m.config;
    for l in m.layers.iter_mut() {
        l.ln1_g = vec![0; 120];
        l.ln1_b = vec![0; 120];
        l.qkv_w = vec![0; 120 * c.qkv_dim()];
        l.proj_w = vec![0; c.q_dim() * 120];
        l.proj_b = vec![0; 120];
        l.ln2_g = vec![0; 120];
        l.ln2_b = vec![0; 120];
        l.fc_w = vec![0; 120 * c.n_inter];
        l.fc2_w = vec![0; c.n_inter * 120];
        l.fc2_b = vec![0; 120];
    }
    m.wte = vec![0; c.n_vocab * 120];
    m.wpe = vec![0; c.n_ctx * 120];
    m.lnf_g = vec![0; 120];
    m.lnf_b = vec![0; 120];
    assert_eq!(
        Engine::new(&m, WeightMode::Int4, false).err(),
        Some(EngineError::BadWidth(WeightMode::Int4, 120))
    );
    assert!(Engine::new(&m, WeightMode::Fp32, false).is_ok());
    assert!(sizes_fit(&c));
    let mut huge = c;
    huge.n_head = usize::MAX;
    assert!(!sizes_fit(&huge));
}

#[test]
fn reordered_linears_run_token_by_token() {
    let m = model(Arch::Gpt2, 16);
    let mut side = Sidecar::new();
    let perm: Vec<i32> = (0..128).rev().collect();
    side.insert(0, Role::Qkv, Entry { q: vec![0; 64 * 384], scales: vec![0; 4 * 384], perm });
    let (e, setup) = Engine::new_quant(&m, WeightMode::Int4, false, Some(&side), false, false).unwrap();
    assert!(e.gptq_act_order);
    let p = Buf::Matrix(Tensor::Linear(0, Role::Qkv), Plane::Perm);
    assert!(matches!(e.layers[0].qkv_w, Weights::Int4 { perm: Some(b), .. } if b == p));
    assert!(matches!(e.layers[1].qkv_w, Weights::Int4 { perm: None, .. }));
    let steps = e.prefill(&[1, 2, 3], 0);
    let ks = kernels(&steps);
    assert_eq!(ks.iter().filter(|k| **k == Kernel::EmbedInt4).count(), 3);
    assert!(!ks.contains(&Kernel::EmbedInt4Batch));
    sound(&steps, &setup);
    assert!(setup.iter().any(|s| matches!(s, Setup::Entry { layer: 0, role: Role::Qkv, .. })));

    // a draft is verified by decode steps, whose logits are gathered row by row
    let v = e.verify_argmax(&[7, 8], 5);
    sound(&v, &setup);
    let mut at = 0;
    for (i, tok) in [7u32, 8].into_iter().enumerate() {
        let one = e.forward(tok, 5 + i);
        assert_eq!(format!("{:?}", &v[at..at + one.len()]), format!("{one:?}"));
        at += one.len();
        assert!(matches!(
            v[at],
            Step::Copy { src: Buf::Logits, src_at: 0, dst: Buf::BatchLogits, dst_at, len }
                if dst_at == i * m.config.n_vocab && len == m.config.n_vocab
        ));
        at += 1;
    }
    assert_eq!(at + 1, v.len());
    assert_eq!(kernels(&v).last(), Some(&Kernel::ArgmaxRows));
    assert!(!kernels(&v).contains(&Kernel::EmbedInt4Batch));
}

#[test]
fn speculation_starts_inside_the_context() {
    let (e, _) = Engine::new(&model(Arch::Gpt2, 16), WeightMode::Fp32, false).unwrap();
    let s = e.speculative_loop(&[1, 2, 3, 1, 2, 3], 1, 2, 4);
    match s.next() {
        SpecAction::Verify { draft, pos } => {
            assert_eq!((draft, pos), (vec![1, 2], 6));
            assert!(pos + 2 <= e.config.n_ctx);
        }
        _ => panic!("the prompt recurs"),
    }
    // nothing is asked for where nothing is wanted
    assert!(matches!(e.speculative_loop(&[4], 5, 0, 1).next(), SpecAction::Done));
}

#[test]
fn mixed_storage_bumps_to_int8() {
    let m = model(Arch::Llama, 16);
    let (e, _) = Engine::new_quant(&m, WeightMode::Int4, false, None, true, true).unwrap();
    assert!(matches!(e.wte_t, Weights::Int8 { .. }));
    assert!(matches!(e.lm_head_t, Some(Weights::Int8 { .. })));
    assert!(matches!(e.layers[0].fc2_w, Weights::Int8 { .. }));
    assert!(matches!(e.layers[0].fc_w, Weights::Int4 { .. }));
}

#[test]
fn uploads_find_their_tensors() {
    for arch in [Arch::Gpt2, Arch::Qwen2, Arch::Llama] {
        let m = model(arch, 16);
        let (_, setup) = Engine::new(&m, WeightMode::Int8, false).unwrap();
        for s in &setup {
            match *s {
                Setup::Zeros { .. } => {}
                Setup::Vector(b) => assert!(!vector_of(&m, b).unwrap().is_empty(), "{b:?}"),
                Setup::Matrix { tensor, n_in, n_out, .. } => {
                    assert_eq!(matrix_of(&m, tensor, n_in, n_out).unwrap().len(), n_in * n_out)
                }
                Setup::Entry { .. } => panic!("there is no sidecar"),
            }
        }
    }
}

#[test]
fn tables_are_turned_and_linears_taken_as_they_are() {
    let mut m = model(Arch::Llama, 16);
    m.wte = (0..300 * 128).collect();
    m.lm_head = (0..300 * 128).map(|x| x + 1).collect();
    m.layers[1].up_w = (0..128 * 256).collect();
    m.layers[1].ln2_g = vec![9; 128];
    let wte = matrix_of(&m, Tensor::Wte, 128, 300).unwrap();
    assert_eq!(wte[5 * 300 + 7], 7 * 128 + 5);
    let head = matrix_of(&m, Tensor::LmHead, 128, 300).unwrap();
    assert_eq!(head[127 * 300 + 299], 299 * 128 + 127 + 1);
    assert_eq!(matrix_of(&m, Tensor::Linear(1, Role::Up), 128, 256).unwrap(), m.layers[1].up_w);
    assert_eq!(linear_in(&m.layers[1], Role::Up), &m.layers[1].up_w);
    assert_eq!(vector_of(&m, Buf::Vector(1, VecName::Ln2G)).unwrap(), &vec![9; 128]);

    assert_eq!(matrix_of(&m, Tensor::Wte, 128, 301), None);
    assert_eq!(matrix_of(&m, Tensor::Linear(2, Role::Up), 128, 256), None);
    assert_eq!(matrix_of(&m, Tensor::Linear(0, Role::Up), 256, 256), None);
    assert_eq!(matrix_of(&m, Tensor::Bench, 128, 256), None);
    assert_eq!(vector_of(&m, Buf::Vector(2, VecName::Ln2G)), None);
    assert_eq!(vector_of(&m, Buf::Logits), None);
}

/// A device that scrambles what it is handed: four words per buffer, made of the kernel, of
/// its arguments and of what the buffers held.
#[derive(Clone)]
struct Toy(Vec<(Buf, [u32; 4])>);

fn scramble(text: &str, words: &[u32]) -> u32 {
    let mut h = 2166136261u32;
    for x in text.bytes().map(u32::from).chain(words.iter().copied()) {
        h = (h ^ x).wrapping_mul(16777619).rotate_left(5);
    }
    h >> 2
}

impl Toy {
    fn get(&self, b: Buf) -> [u32; 4] {
        self.0.iter().find(|x| x.0 == b).map_or([0; 4], |x| x.1)
    }

    fn set(&mut self, b: Buf, v: [u32; 4]) {
        self.0.retain(|x| x.0 != b);
        self.0.push((b, v));
    }

    fn mix(&mut self, text: &str, bufs: &[Buf]) {
        let words: Vec<u32> = bufs.iter().flat_map(|b| self.get(*b)).collect();
        for b in bufs {
            let v = [0, 1, 2, 3].map(|i| scramble(&format!("{text} {b:?} {i}"), &words));
            self.set(*b, v);
        }
    }

    fn copy(&mut self, src: Buf, src_at: usize, dst: Buf, dst_at: usize, len: usize) {
        self.mix(&format!("copy {src_at} {dst_at} {len}"), &[dst, src]);
    }

    fn launch(&mut self, l: &Launch) {
        let (tok, pos) = (self.get(Buf::GraphTok)[0], self.get(Buf::GraphPos)[0]);
        let name = format!("{:?}", l.kernel);
        match (l.kernel, &l.args[..]) {
            (Kernel::ArgmaxAdvance, _) => {
                let best = argmax(&self.get(Buf::Logits));
                self.set(Buf::GraphTok, [best, 0, 0, 0]);
                self.set(Buf::GraphPos, [pos + 1, 0, 0, 0]);
            }
            (Kernel::CopyKvDyn, &[Arg::Buf(k), Arg::Buf(v), Arg::Buf(qkv), _, Arg::I32(q), Arg::I32(w)]) => {
                let (q, w) = (q as usize, w as usize);
                self.copy(qkv, q, k, pos as usize * w, w);
                self.copy(qkv, q + w, v, pos as usize * w, w);
            }
            _ => {
                let host = name.strip_suffix("Dyn").unwrap_or(&name);
                let args: Vec<Arg> = l
                    .args
                    .iter()
                    .map(|a| match *a {
                        Arg::Buf(Buf::GraphTok) => Arg::I32(tok as i32),
                        Arg::Buf(Buf::GraphPos) => Arg::I32(pos as i32),
                        a => a,
                    })
                    .collect();
                let bufs: Vec<Buf> =
                    args.iter().filter_map(|a| match a { Arg::Buf(b) => Some(*b), _ => None }).collect();
                self.mix(&format!("{host} {:?} {:?} {} {args:?}", l.grid, l.block, l.shared), &bufs);
            }
        }
    }

    fn run(&mut self, steps: &[Step]) {
        for s in steps {
            match s {
                Step::Launch(l) => self.launch(l),
                Step::Copy { src, src_at, dst, dst_at, len } => self.copy(*src, *src_at, *dst, *dst_at, *len),
                Step::Upload { dst, values } => self.set(*dst, [values[0] as u32, 0, 0, 0]),
            }
        }
    }
}

#[test]
fn graph_decoding_ends_where_the_host_loop_ends() {
    for arch in [Arch::Gpt2, Arch::Qwen2, Arch::Llama] {
        for kv8 in [false, true] {
            for mode in [WeightMode::Fp32, WeightMode::Fp16, WeightMode::Int8, WeightMode::Int4] {
                let (mut e, _) = Engine::new(&model(arch, 16), mode, kv8).unwrap();
                let graph = e.capture_decode_graph().unwrap();
                let mut tokens = Vec::new();
                for n in 0..6 {
                    let (first, pos) = (2u32, 4);
                    let mut host = Toy(Vec::new());
                    let mut tok = first;
                    for i in 0..n {
                        host.run(&e.forward(tok, pos + i));
                        tok = argmax(&host.get(Buf::Logits));
                    }
                    let mut dev = Toy(Vec::new());
                    let mut answer = None;
                    for op in e.graph_decode(first, pos, n) {
                        match op {
                            GraphOp::Run(step) => dev.run(std::slice::from_ref(&step)),
                            GraphOp::Prepare => {}
                            GraphOp::Replay => dev.run(&graph),
                            GraphOp::Answer(buf) => answer = Some(dev.get(buf)[0]),
                        }
                    }
                    assert_eq!(answer, Some(tok));
                    assert_eq!(dev.get(Buf::GraphPos)[0] as usize, pos + n);
                    for (b, words) in &host.0 {
                        assert_eq!(dev.get(*b), *words, "{b:?}");
                    }
                    tokens.push(tok);
                }
                assert_eq!(tokens[0], 2);
                assert!(tokens.iter().any(|t| *t != tokens[0]));
            }
        }
    }
}
