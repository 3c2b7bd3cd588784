use mx_engine::adapter::{sidecar_path, AdapterError, ExitAdapter, SPEC_MAGIC};
use mx_engine::bytes::push_u32;
use mx_engine::gptq::{is_identity, Entry, Role, Sidecar, SidecarError};
use mx_engine::model::{Arch, Config, Layer, LoadError, Model};

fn config(arch: Arch) -> Config {
    Config {
        arch,
        n_layer: 2,
        n_head: 4,
        n_kv_head: if arch == Arch::Gpt2 { 4 } else { 2 },
        head_dim: 2,
        n_embd: 8,
        n_inter: 16,
        n_ctx: 5,
        n_vocab: 11,
        rope_theta: 0x461C4000,
        norm_eps: 0x3727C5AC,
    }
}

fn ramp(n: usize, from: &mut u32) -> Vec<u32> {
    (0..n).map(|_| { *from += 1; *from }).collect()
}

fn model(arch: Arch) -> Model {
    let c = config(arch);
    let (e, inter, qkv) = (c.n_embd, c.n_inter, c.qkv_dim());
    let mut k = 0u32;
    let gpt = arch == Arch::Gpt2;
    let llama = arch == Arch::Llama;
    let some = |n: usize, on: bool, k: &mut u32| if on { ramp(n, k) } else { Vec::new() };
    let layers = (0..c.n_layer)
        .map(|_| Layer {
            ln1_g: ramp(e, &mut k),
            ln1_b: some(e, gpt, &mut k),
            qkv_w: ramp(e * qkv, &mut k),
            qkv_b: if llama { vec![0; qkv] } else { ramp(qkv, &mut k) },
            proj_w: ramp(c.q_dim() * e, &mut k),
            proj_b: if gpt { ramp(e, &mut k) } else { vec![0; e] },
            ln2_g: ramp(e, &mut k),
            ln2_b: some(e, gpt, &mut k),
            fc_w: ramp(e * inter, &mut k),
            fc_b: some(inter, gpt, &mut k),
            up_w: some(e * inter, !gpt, &mut k),
            fc2_w: ramp(inter * e, &mut k),
            fc2_b: some(e, gpt, &mut k),
        })
        .collect();
    Model {
        config: c,
        wte: ramp(c.n_vocab * e, &mut k),
        wpe: some(c.n_ctx * e, gpt, &mut k),
        layers,
        lnf_g: ramp(e, &mut k),
        lnf_b: some(e, gpt, &mut k),
        lm_head: some(c.n_vocab * e, llama, &mut k),
    }
}

#[test]
fn models_load_as_they_were_saved() {
    for arch in [Arch::Gpt2, Arch::Qwen2, Arch::Llama] {
        let m = model(arch);
        let bytes = m.save();
        let back = Model::load(&bytes).unwrap();
        assert_eq!(back.config, m.config);
        assert_eq!(back.wte, m.wte);
        assert_eq!(back.wpe, m.wpe);
        assert_eq!(back.lnf_g, m.lnf_g);
        assert_eq!(back.lnf_b, m.lnf_b);
        assert_eq!(back.lm_head, m.lm_head);
        for (a, b) in back.layers.iter().zip(&m.layers) {
            assert_eq!(a.qkv_w, b.qkv_w);
            assert_eq!(a.qkv_b, b.qkv_b);
            assert_eq!(a.proj_b, b.proj_b);
            assert_eq!(a.fc_b, b.fc_b);
            assert_eq!(a.up_w, b.up_w);
            assert_eq!(a.fc2_w, b.fc2_w);
            assert_eq!(a.fc2_b, b.fc2_b);
        }
        assert_eq!(back.save(), bytes);
    }
}

#[test]
fn model_header_is_as_documented() {
    let b = model(Arch::Qwen2).save();
    let word = |i: usize| u32::from_le_bytes([b[4 * i], b[4 * i + 1], b[4 * i + 2], b[4 * i + 3]]);
    assert_eq!(&b[..4], b"MXGP");
    assert_eq!(word(1), 2);
    assert_eq!(word(2), 1);
    assert_eq!((word(3), word(4), word(5), word(6)), (2, 4, 2, 2));
    assert_eq!((word(7), word(8), word(9), word(10)), (8, 16, 5, 11));
    assert_eq!((word(11), word(12)), (0x461C4000, 0x3727C5AC));
}

#[test]
fn broken_models_are_refused() {
    let good = model(Arch::Gpt2).save();
    let err = |b: &[u8]| Model::load(b).err().unwrap();
    assert_eq!(err(&good[..3]), LoadError::Truncated);
    assert_eq!(err(&good[..30]), LoadError::Truncated);
    assert_eq!(err(&good[..good.len() - 1]), LoadError::Truncated);
    let mut longer = good.clone();
    longer.push(0);
    assert_eq!(err(&longer), LoadError::TrailingBytes);
    let patched = |at: usize, w: u32| {
        let mut b = good.clone();
        b[at..at + 4].copy_from_slice(&w.to_le_bytes());
        b
    };
    assert_eq!(err(&patched(0, 7)), LoadError::NotModel);
    assert_eq!(err(&patched(4, 1)), LoadError::UnsupportedVersion(1));
    assert_eq!(err(&patched(8, 3)), LoadError::UnknownArch(3));
    let mut huge = patched(16, u32::MAX);
    huge[24..28].copy_from_slice(&u32::MAX.to_le_bytes());
    assert!(matches!(err(&huge), LoadError::Truncated | LoadError::TooLarge));
}

fn entry(seed: u8, perm: Vec<i32>) -> Entry {
    Entry { q: vec![seed, seed + 1, 0xff], scales: vec![0x3c00, seed as u16], perm }
}

#[test]
fn sidecars_load_as_they_were_saved() {
    let mut s = Sidecar::new();
    s.insert(1, Role::Fc, entry(5, vec![0, 1]));
    s.insert(0, Role::Fc2, entry(9, vec![1, 0]));
    s.insert(1, Role::Qkv, entry(7, vec![]));
    s.insert(1, Role::Fc, entry(6, vec![0, 1]));
    let bytes = s.save();
    let back = Sidecar::load(&bytes).unwrap();
    assert_eq!(back.save(), bytes);
    let e = back.get(1, Role::Fc).unwrap();
    assert_eq!((e.q.clone(), e.scales.clone(), e.perm.clone()), (vec![6, 7, 0xff], vec![0x3c00, 6], vec![0, 1]));
    assert_eq!(back.get(0, Role::Fc2).unwrap().perm, vec![1, 0]);
    assert!(back.get(0, Role::Qkv).is_none());
    assert!(back.get(1, Role::Up).is_none());
    assert!(back.has_act_order());
    // rows come by layer, then by role
    let word = |b: &[u8], i: usize| u32::from_le_bytes([b[i], b[i + 1], b[i + 2], b[i + 3]]);
    assert_eq!(&bytes[..4], b"MXGQ");
    assert_eq!((word(&bytes, 4), word(&bytes, 8)), (2, 3));
    assert_eq!((word(&bytes, 12), word(&bytes, 16), word(&bytes, 20)), (0, 4, 3));
}

#[test]
fn plain_orders_are_no_act_order() {
    let mut s = Sidecar::new();
    assert!(!s.has_act_order());
    s.insert(0, Role::Up, entry(1, vec![0, 1, 2]));
    assert!(!s.has_act_order());
    s.insert(0, Role::Proj, entry(1, vec![0, 2, 1]));
    assert!(s.has_act_order());
    assert!(is_identity(&[0, 1, 2]) && !is_identity(&[0, 2, 1]) && is_identity(&[]));
}

#[test]
fn broken_sidecars_are_refused() {
    let mut s = Sidecar::new();
    s.insert(0, Role::Qkv, entry(1, vec![0]));
    let good = s.save();
    let err = |b: &[u8]| Sidecar::load(b).err().unwrap();
    assert_eq!(err(&good[..2]), SidecarError::Truncated);
    assert_eq!(err(&good[..good.len() - 1]), SidecarError::Truncated);
    let patched = |at: usize, w: u32| {
        let mut b = good.clone();
        b[at..at + 4].copy_from_slice(&w.to_le_bytes());
        b
    };
    assert_eq!(err(&patched(0, 1)), SidecarError::NotSidecar);
    assert_eq!(err(&patched(4, 1)), SidecarError::UnsupportedVersion(1));
    assert!(matches!(err(&patched(16, 5)), SidecarError::BadRole(5)));
}

#[test]
fn roles_have_tags() {
    for r in [Role::Qkv, Role::Proj, Role::Fc, Role::Up, Role::Fc2] {
        assert_eq!(Role::from_tag(r.tag()), Some(r));
    }
    assert_eq!(Role::Fc2.tag(), 4);
    assert_eq!(Role::from_tag(5), None);
}

#[test]
fn adapters_load_as_they_were_saved() {
    let a = ExitAdapter { k: 6, n_embd: 2, a: vec![1, 2, 3, 0x3f800000] };
    let b = a.save();
    assert_eq!(b.len(), 16 + 16);
    assert_eq!(&b[..4], b"MXSP");
    let back = ExitAdapter::load(&b).unwrap();
    assert_eq!((back.k, back.n_embd, back.a.clone()), (6, 2, vec![1, 2, 3, 0x3f800000]));
    assert_eq!(back.save(), b);
}

#[test]
fn broken_adapters_are_refused() {
    let file = |words: &[u32]| {
        let mut b = Vec::new();
        for &w in words {
            push_u32(&mut b, w);
        }
        b
    };
    let err = |b: &[u8]| ExitAdapter::load(b).err().unwrap();
    assert_eq!(err(&[1, 2, 3]), AdapterError::Truncated);
    assert_eq!(err(&file(&[1, 1, 0, 0])), AdapterError::BadMagic);
    assert_eq!(err(&file(&[SPEC_MAGIC, 2, 0, 0])), AdapterError::BadVersion);
    assert_eq!(err(&file(&[SPEC_MAGIC, 1, 0, 2, 9])), AdapterError::SizeMismatch);
    assert_eq!(err(&file(&[SPEC_MAGIC, 1, 0, u32::MAX])), AdapterError::SizeMismatch);
    assert!(ExitAdapter::load(&file(&[SPEC_MAGIC, 1, 3, 0])).is_ok());
}

#[test]
fn adapters_stand_beside_their_models() {
    assert_eq!(sidecar_path("models/gpt2.bin"), "models/gpt2.spec.bin");
    assert_eq!(sidecar_path("model"), "model.spec.bin");
    assert_eq!(sidecar_path("bin"), "bin.spec.bin");
}
