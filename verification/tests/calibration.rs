use mx_engine::calib::{mirror, site_idx, site_widths, windows, ActStats, Hessians, Moments, Site};
use mx_engine::channels::{
    assemble, build, channel_order, layer_jobs, permute_rows, permute_sym, prepare,
    unordered_diagonal, widths_match, worker_count, working_weights, Done, Job,
};
use mx_engine::gptq::Role;
use mx_engine::model::{Config, Layer, Model};
use mx_engine::random::pseudo_rand;
use mx_engine::smooth::{attn_peaks, mlp_peaks, row_absmax, smooth};

fn bits(v: &[f32]) -> Vec<u32> {
    v.iter().map(|x| x.to_bits()).collect()
}

fn floats(v: &[u32]) -> Vec<f32> {
    v.iter().map(|&x| f32::from_bits(x)).collect()
}

fn rand(n: usize, seed: u64) -> Vec<f32> {
    pseudo_rand(n, seed).iter().map(|&x| x as f32 / 8388608.0).collect()
}

#[test]
fn windows_follow_each_other() {
    assert_eq!(windows(10, 4, 100), vec![(0, 4), (4, 8), (8, 10)]);
    // a single token is no window
    assert_eq!(windows(9, 4, 100), vec![(0, 4), (4, 8)]);
    assert_eq!(windows(100, 4, 6), vec![(0, 4), (4, 6)]);
    assert_eq!(windows(5, 128, 100), vec![(0, 5)]);
    assert_eq!(windows(10, 1, 100), vec![]);
    assert_eq!(windows(10, 0, 100), vec![]);
    assert_eq!(windows(1, 4, 100), vec![]);
    assert_eq!(windows(usize::MAX, usize::MAX, 9), vec![(0, 9)]);
}

#[test]
fn statistics_keep_the_largest_magnitude() {
    let mut c = Config::gpt2_small();
    c.n_layer = 2;
    c.n_embd = 3;
    let mut s = ActStats::new(&c);
    s.observe(1, Site::Qkv, &bits(&[1.0, -2.0, 0.5]));
    s.observe(1, Site::Qkv, &bits(&[-0.5, 1.0, -0.75]));
    s.observe(0, Site::Fc, &bits(&[f32::NAN, -0.0, f32::INFINITY]));
    s.observe(0, Site::Proj, &bits(&[9.0, 9.0, 9.0]));
    s.observe(0, Site::Fc2, &bits(&[9.0]));
    assert_eq!(floats(&s.attn[1]), vec![1.0, 2.0, 0.75]);
    assert_eq!(floats(&s.attn[0]), vec![0.0, 0.0, 0.0]);
    assert_eq!(floats(&s.mlp[0]), vec![0.0, 0.0, f32::INFINITY]);
}

#[test]
fn sites_have_places_and_widths() {
    assert_eq!((site_idx(Site::Qkv), site_idx(Site::Proj), site_idx(Site::Fc), site_idx(Site::Fc2)), (0, 1, 2, 3));
    let c = Config::qwen25_05b();
    let w = site_widths(&c);
    assert_eq!(w, [896, 896, 896, 4864]);
    assert!(widths_match(&w, &c));
    assert!(!widths_match(&w, &Config::gpt2_small()));
}

fn small() -> Config {
    let mut c = Config::gpt2_small();
    c.n_layer = 2;
    c.n_embd = 2;
    c.n_head = 1;
    c.n_kv_head = 1;
    c.head_dim = 3;
    c.n_inter = 4;
    c
}

fn times_plus(sum: u32, a: u32, b: u32) -> u32 {
    (f32::from_bits(sum) + f32::from_bits(a) * f32::from_bits(b)).to_bits()
}

#[test]
fn positions_are_counted_once() {
    let c = small();
    let mut m = Moments::new(&c);
    let x = bits(&[1.0; 4]);
    for _ in 0..3 {
        for l in 0..2 {
            for s in [Site::Qkv, Site::Proj, Site::Fc, Site::Fc2] {
                m.observe(&c, l, s, &x, &times_plus);
            }
        }
    }
    assert_eq!(m.finish(&c).count, 3);
}

#[test]
fn passes_count_all_but_a_lone_last_token() {
    for (tokens, positions) in [(0, 0), (1, 0), (2, 2), (8, 8), (9, 8), (10, 10), (11, 11), (13, 12)] {
        let n: usize = windows(tokens, 4, 100).iter().map(|(from, to)| to - from).sum();
        assert_eq!(n, positions, "{tokens}");
    }
}

#[test]
fn second_moments_of_a_pass() {
    let c = small();
    let mut m = Moments::new(&c);
    m.observe(&c, 1, Site::Proj, &bits(&[1.0, 2.0, -3.0]), &times_plus);
    m.observe(&c, 1, Site::Proj, &bits(&[0.5, 0.0, 4.0]), &times_plus);
    // what stands behind the width of the site is not read
    m.observe(&c, 0, Site::Qkv, &bits(&[2.0, 5.0, 7.0]), &times_plus);
    let h = m.finish(&c);
    assert_eq!(h.count, 1);
    assert_eq!(h.n_in, [2, 3, 2, 4]);
    assert_eq!(h.h.len(), 2);
    for layer in &h.h {
        assert_eq!(layer.iter().map(|x| x.len()).collect::<Vec<_>>(), [4, 9, 4, 16]);
    }
    assert_eq!(floats(&h.h[1][1]), [1.25, 2.0, -1.0, 2.0, 4.0, -6.0, -1.0, -6.0, 25.0]);
    assert_eq!(floats(&h.h[0][0]), [4.0, 10.0, 10.0, 25.0]);
    assert_eq!(floats(&h.h[0][1]), [0.0; 9]);
}

#[test]
fn zero_channels_add_nothing() {
    // 0 times infinity would be no number
    let c = small();
    let mut m = Moments::new(&c);
    m.observe(&c, 0, Site::Fc, &bits(&[-0.0, f32::INFINITY]), &times_plus);
    assert_eq!(floats(&m.finish(&c).h[0][2]), [0.0, 0.0, 0.0, f32::INFINITY]);
}

#[test]
fn moments_are_mirrored() {
    let c = small();
    let layer = || vec![vec![1, 2, 9, 4], vec![0; 9], vec![5, 6, 9, 8], vec![0; 16]];
    let h = Hessians::new(&c, &vec![layer(), layer()], 7);
    assert_eq!(h.count, 7);
    assert_eq!(h.h[0][0], vec![1, 2, 2, 4]);
    assert_eq!(h.h[1][2], vec![5, 6, 6, 8]);
}

#[test]
fn mirrored_matrices_are_symmetric() {
    let m = vec![1, 2, 3, 9, 4, 5, 9, 9, 6];
    assert_eq!(mirror(&m, 3), vec![1, 2, 3, 2, 4, 5, 3, 5, 6]);
}

#[test]
fn jobs_of_a_layer() {
    let c = Config::qwen25_05b();
    let v = layer_jobs(&c, true);
    assert_eq!(v.len(), 5);
    assert_eq!(v[0], Job { role: Role::Qkv, site: 0, n_in: 896, n_out: 1152 });
    assert_eq!(v[3], Job { role: Role::Fc2, site: 3, n_in: 4864, n_out: 896 });
    assert_eq!(v[4], Job { role: Role::Up, site: 2, n_in: 896, n_out: 4864 });
    assert_eq!(layer_jobs(&Config::gpt2_small(), false).len(), 4);
    assert_eq!(worker_count(16, &Config::gpt2_small()), 4);
    assert_eq!(worker_count(16, &c), 2);
    assert_eq!(worker_count(1, &c), 1);
    let mut one = Config::gpt2_small();
    one.n_layer = 0;
    assert_eq!(worker_count(8, &one), 1);
}

#[test]
fn channels_come_in_descending_order() {
    let h = bits(&[1.0, 0.0, 0.0, 0.0, 3.0, 0.0, 0.0, 0.0, 1.0]);
    assert_eq!(channel_order(&h, 3, true), vec![1, 0, 2]);
    assert_eq!(channel_order(&h, 3, false), vec![0, 1, 2]);
    assert!(!unordered_diagonal(&h, 3));
    assert!(unordered_diagonal(&bits(&[1.0, 0.0, 0.0, f32::NAN]), 2));
}

#[test]
fn matrices_are_put_in_channel_order() {
    let h: Vec<u32> = (0..9).collect();
    assert_eq!(permute_sym(&h, 3, &[2, 0, 1]), vec![8, 6, 7, 2, 0, 1, 5, 3, 4]);
    let w: Vec<u32> = (0..6).collect();
    assert_eq!(permute_rows(&w, 3, 2, &[2, 0, 1]), vec![4, 5, 0, 1, 2, 3]);
    // the plain order changes nothing
    assert_eq!(permute_sym(&h, 3, &[0, 1, 2]), h);
    assert_eq!(permute_rows(&w, 3, 2, &[0, 1, 2]), w);
}

#[test]
fn gathering_keeps_products() {
    let perm = [2i32, 0, 3, 1];
    let x = [3.0f32, -1.0, 4.0, 1.0];
    let w = [5.0f32, 1.0, 9.0, -2.0, 2.0, 3.0, 6.0, -7.0];
    let wp = floats(&permute_rows(&bits(&w), 4, 2, &perm));
    assert_eq!(wp[0..2], [2.0, 3.0]);
    for o in 0..2 {
        let plain: f32 = (0..4).map(|i| x[i] * w[i * 2 + o]).sum();
        let gathered: f32 = (0..4).map(|k| x[perm[k] as usize] * wp[k * 2 + o]).sum();
        assert_eq!(plain, gathered);
    }
}

#[test]
fn dead_channels_are_cleared() {
    let h = bits(&[1.0, 0.0, 0.0, 0.0]);
    let w = bits(&[1.0, 2.0, 3.0, 4.0]);
    assert_eq!(floats(&working_weights(&w, &h, 2, 2)), vec![1.0, 0.0, 2.0, 0.0]);
}

#[test]
fn peaks_are_taken_per_row() {
    let w = bits(&[1.0, -4.0, f32::NAN, 0.5, -0.25, 0.0]);
    assert_eq!(floats(&row_absmax(&w, 2, 3)), vec![4.0, 0.5]);
    let mut c = Config::qwen25_05b();
    c.n_embd = 2;
    c.n_inter = 3;
    c.n_head = 1;
    c.n_kv_head = 1;
    c.head_dim = 1;
    let layer = Layer {
        ln1_g: vec![],
        ln1_b: vec![],
        qkv_w: w.clone(),
        qkv_b: vec![],
        proj_w: vec![],
        proj_b: vec![],
        ln2_g: vec![],
        ln2_b: vec![],
        fc_w: w.clone(),
        fc_b: vec![],
        up_w: bits(&[0.0, 1.0, 2.0, 3.0, 0.0, 0.0]),
        fc2_w: vec![],
        fc2_b: vec![],
    };
    assert_eq!(floats(&attn_peaks(&layer, &c)), vec![4.0, 0.5]);
    assert_eq!(floats(&mlp_peaks(&layer, &c)), vec![4.0, 3.0]);
    c.arch = Config::gpt2_small().arch;
    assert_eq!(floats(&mlp_peaks(&layer, &c)), vec![4.0, 0.5]);
}

#[test]
fn quantized_linears_are_gathered() {
    let e = |n: u8| assemble((0..8).collect(), &[n; 8], vec![1], 8, 1);
    let s = build(vec![
        Done { layer: 1, role: Role::Qkv, entry: e(1) },
        Done { layer: 0, role: Role::Fc, entry: e(2) },
        Done { layer: 1, role: Role::Qkv, entry: e(3) },
    ]);
    assert_eq!(s.get(1, Role::Qkv).unwrap().q, vec![0x33; 4]);
    assert_eq!(s.get(0, Role::Fc).unwrap().q, vec![0x22; 4]);
    assert!(s.get(0, Role::Qkv).is_none());
    assert!(!s.has_act_order());
}

const GROUP: usize = 32;

fn half(x: f32) -> f32 {
    half::f16::from_f32(x).to_f32()
}

fn cholesky(a: &[f64], n: usize) -> Vec<f64> {
    let mut l = vec![0.0f64; n * n];
    for j in 0..n {
        let s: f64 = a[j * n + j] - (0..j).map(|k| l[j * n + k] * l[j * n + k]).sum::<f64>();
        l[j * n + j] = if s > 1e-12 { s.sqrt() } else { 1e-6 };
        for i in j + 1..n {
            let s: f64 = a[i * n + j] - (0..j).map(|k| l[i * n + k] * l[j * n + k]).sum::<f64>();
            l[i * n + j] = s / l[j * n + j];
        }
    }
    l
}

/// Upper factor of the inverse of the damped matrix.
fn inverse_factor(h: &[f32], n: usize, damp: f64) -> Vec<f64> {
    let mean = (0..n).map(|i| h[i * n + i] as f64).sum::<f64>() / n as f64;
    let lambda = (damp * mean).max(1e-9);
    let mut a: Vec<f64> = h.iter().map(|&x| x as f64).collect();
    for i in 0..n {
        a[i * n + i] += lambda;
    }
    let l = cholesky(&a, n);
    // columns of the inverse, by two triangular solves each
    let mut inv = vec![0.0f64; n * n];
    for c in 0..n {
        let mut y = vec![0.0f64; n];
        for i in 0..n {
            let b = if i == c { 1.0 } else { 0.0 };
            y[i] = (b - (0..i).map(|k| l[i * n + k] * y[k]).sum::<f64>()) / l[i * n + i];
        }
        for i in (0..n).rev() {
            let s: f64 = (i + 1..n).map(|k| l[k * n + i] * inv[k * n + c]).sum();
            inv[i * n + c] = (y[i] - s) / l[i * n + i];
        }
    }
    let l2 = cholesky(&inv, n);
    let mut u = vec![0.0f64; n * n];
    for i in 0..n {
        for j in i..n {
            u[i * n + j] = l2[j * n + i];
        }
    }
    u
}

/// Error feedback over a prepared linear.
fn quantize(w: &[f32], h: &[f32], n_in: usize, n_out: usize, act_order: bool) -> (Vec<f32>, Vec<i32>) {
    let p = prepare(&bits(w), &bits(h), n_in, n_out, act_order).unwrap();
    let u = inverse_factor(&floats(&p.h), n_in, 0.01);
    let mut wc = floats(&p.working);
    let scales: Vec<f32> = floats(&p.absmax).iter().map(|&m| half(m / -8.0)).collect();
    let mut nibbles = vec![0u8; n_in * n_out];
    for i in 0..n_in {
        let inv = if u[i * n_in + i] > 1e-12 { 1.0 / u[i * n_in + i] } else { 0.0 };
        for o in 0..n_out {
            let d = scales[(i / GROUP) * n_out + o];
            let wv = wc[o * n_in + i];
            let (nib, dq) = if d != 0.0 {
                let nib = ((wv / d).round() + 8.0).clamp(0.0, 15.0) as u8;
                (nib, (nib as f32 - 8.0) * d)
            } else {
                (8u8, 0.0)
            };
            nibbles[o * n_in + i] = nib;
            let err = (wv - dq) * inv as f32;
            for j in i + 1..n_in {
                wc[o * n_in + j] -= err * u[i * n_in + j] as f32;
            }
        }
    }
    let bits16: Vec<u16> = scales.iter().map(|&s| half::f16::from_f32(s).to_bits()).collect();
    let e = assemble(p.perm, &nibbles, bits16, n_in, n_out);
    let mut out = vec![0.0f32; n_in * n_out];
    for i in 0..n_in {
        for o in 0..n_out {
            let nib = (e.q[((i / 8) * n_out + o) * 4 + (i % 4)] >> (4 * ((i % 8) / 4))) & 0xf;
            let d = half::f16::from_bits(e.scales[(i / GROUP) * n_out + o]).to_f32();
            out[i * n_out + o] = (nib as f32 - 8.0) * d;
        }
    }
    (out, e.perm)
}

fn rtn(w: &[f32], n_in: usize, n_out: usize) -> Vec<f32> {
    let mut out = vec![0.0f32; n_in * n_out];
    for o in 0..n_out {
        for g in 0..n_in / GROUP {
            let mut m = 0.0f32;
            for i in g * GROUP..(g + 1) * GROUP {
                if w[i * n_out + o].abs() > m.abs() {
                    m = w[i * n_out + o];
                }
            }
            let d = half(m / -8.0);
            for i in g * GROUP..(g + 1) * GROUP {
                let nib = if d != 0.0 { ((w[i * n_out + o] / d).round() + 8.0).clamp(0.0, 15.0) } else { 8.0 };
                out[i * n_out + o] = (nib - 8.0) * d;
            }
        }
    }
    out
}

fn h_err(w: &[f32], wq: &[f32], h: &[f32], n_in: usize, n_out: usize) -> f64 {
    let mut total = 0.0f64;
    for o in 0..n_out {
        let dw: Vec<f64> = (0..n_in).map(|i| (w[i * n_out + o] - wq[i * n_out + o]) as f64).collect();
        for i in 0..n_in {
            let hd: f64 = (0..n_in).map(|j| h[i * n_in + j] as f64 * dw[j]).sum();
            total += dw[i] * hd;
        }
    }
    total
}

#[test]
fn gptq_beats_rtn_on_h_metric() {
    let (n_in, n_out) = (64usize, 12usize); // 2 groups
    let w = rand(n_in * n_out, 1);
    // H = BBᵀ + 0.1 I, symmetric PD, with correlated channels
    let b = rand(n_in * n_in, 7);
    let mut h = vec![0.0f32; n_in * n_in];
    for i in 0..n_in {
        for j in 0..n_in {
            let mut s = 0.0f32;
            for k in 0..n_in {
                s += b[i * n_in + k] * b[j * n_in + k];
            }
            h[i * n_in + j] = s + if i == j { 0.1 } else { 0.0 };
        }
    }
    let (wq_gptq, perm) = quantize(&w, &h, n_in, n_out, false);
    let wq_rtn = rtn(&w, n_in, n_out);
    let eg = h_err(&w, &wq_gptq, &h, n_in, n_out);
    let er = h_err(&w, &wq_rtn, &h, n_in, n_out);
    assert!(eg <= er * 1.02 + 1e-6, "GPTQ H-error {eg:.4} should be <= RTN {er:.4}");
    assert_eq!(perm, (0..n_in as i32).collect::<Vec<_>>(), "no act-order => identity perm");

    let (wq_perm, perm) = quantize(&w, &h, n_in, n_out, true);
    let mut wq_ao = vec![0.0f32; n_in * n_out];
    for k in 0..n_in {
        let orig = perm[k] as usize;
        wq_ao[orig * n_out..orig * n_out + n_out].copy_from_slice(&wq_perm[k * n_out..k * n_out + n_out]);
    }
    let ea_err = h_err(&w, &wq_ao, &h, n_in, n_out);
    assert!(ea_err <= er * 1.02 + 1e-6, "act-order GPTQ H-error {ea_err:.4} should be <= RTN {er:.4}");
}

#[test]
fn widths_that_fill_no_groups_are_refused() {
    assert!(prepare(&[0; 8], &[0; 16], 4, 2, false).is_none());
}

fn small_model(gpt: bool) -> Model {
    let mut c = if gpt { Config::gpt2_small() } else { Config::qwen25_05b() };
    c.n_layer = 1;
    c.n_head = 1;
    c.n_kv_head = 1;
    c.head_dim = 2;
    c.n_embd = 4;
    c.n_inter = 3;
    c.n_ctx = 2;
    c.n_vocab = 5;
    let t = |n: usize, seed: u64| bits(&rand(n, seed));
    let only = |on: bool, v: Vec<u32>| if on { v } else { Vec::new() };
    Model {
        config: c,
        wte: t(20, 1),
        wpe: only(gpt, t(8, 2)),
        layers: vec![Layer {
            ln1_g: t(4, 3),
            ln1_b: only(gpt, t(4, 4)),
            qkv_w: t(24, 5),
            qkv_b: t(6, 6),
            proj_w: t(8, 7),
            proj_b: t(4, 8),
            ln2_g: t(4, 9),
            ln2_b: only(gpt, t(4, 10)),
            fc_w: t(12, 11),
            fc_b: only(gpt, t(3, 12)),
            up_w: only(!gpt, t(12, 13)),
            fc2_w: t(12, 14),
            fc2_b: only(gpt, t(4, 15)),
        }],
        lnf_g: t(4, 16),
        lnf_b: only(gpt, t(4, 17)),
        lm_head: Vec::new(),
    }
}

/// `(x * g + b) @ w`
fn normed_product(x: &[f32], g: &[u32], b: &[u32], w: &[u32], n_out: usize) -> Vec<f32> {
    let (g, b, w) = (floats(g), floats(b), floats(w));
    (0..n_out)
        .map(|o| {
            (0..x.len())
                .map(|i| (x[i] * g[i] + b.get(i).copied().unwrap_or(0.0)) * w[i * n_out + o])
                .sum()
        })
        .collect()
}

fn smoothed(m: &Model, act: &ActStats) -> Model {
    let f = f32::from_bits;
    smooth(
        m,
        act,
        &|a, w| (f(a).powf(0.5) / f(w).powf(0.5)).to_bits(),
        &|x, s| (f(x) / f(s)).to_bits(),
        &|x, s| (f(x) * f(s)).to_bits(),
    )
}

#[test]
fn smoothing_keeps_what_the_linears_compute() {
    for gpt in [true, false] {
        let m = small_model(gpt);
        // the second channel is dead: its factor is one
        let act = ActStats { attn: vec![bits(&[9.0, 0.0, 1.0, 4.0])], mlp: vec![bits(&[0.5, 0.0, 16.0, 2.0])] };
        let s = smoothed(&m, &act);
        let (a, b) = (&m.layers[0], &s.layers[0]);
        let x = rand(4, 21);
        let pairs = [
            (
                normed_product(&x, &a.ln1_g, &a.ln1_b, &a.qkv_w, 6),
                normed_product(&x, &b.ln1_g, &b.ln1_b, &b.qkv_w, 6),
            ),
            (
                normed_product(&x, &a.ln2_g, &a.ln2_b, &a.fc_w, 3),
                normed_product(&x, &b.ln2_g, &b.ln2_b, &b.fc_w, 3),
            ),
        ];
        for (want, got) in pairs {
            for (w, g) in want.iter().zip(&got) {
                assert!((w - g).abs() < 1e-5, "{w} {g}");
            }
        }
        assert_ne!(a.qkv_w, b.qkv_w);
        assert_eq!(a.qkv_w[6..12], b.qkv_w[6..12]);
        assert_eq!(a.ln1_g[1], b.ln1_g[1]);
        assert_eq!(a.up_w.is_empty(), gpt);
        assert_eq!(a.up_w == b.up_w, gpt);
        assert_eq!((&a.qkv_b, &a.proj_w, &a.proj_b), (&b.qkv_b, &b.proj_w, &b.proj_b));
        assert_eq!((&a.fc_b, &a.fc2_w, &a.fc2_b), (&b.fc_b, &b.fc2_w, &b.fc2_b));
        assert_eq!((&m.wte, &m.wpe, &m.lnf_g), (&s.wte, &s.wpe, &s.lnf_g));
    }
}

#[test]
fn factors_have_exact_values() {
    let mut m = small_model(true);
    // row peaks 4, 1, 1, 1
    m.layers[0].qkv_w = bits(&[&[4.0, 0.0, 0.0, 0.0, 0.0, 0.0][..], &[1.0; 18]].concat());
    m.layers[0].ln1_g = bits(&[1.0; 4]);
    let act = ActStats {
        attn: vec![bits(&[1.0, f32::INFINITY, 0.0, 9.0])],
        mlp: vec![bits(&[1.0; 4])],
    };
    let s = smoothed(&m, &act);
    // factors 1/2, one for the infinite and for the dead channel, 3
    assert_eq!(floats(&s.layers[0].ln1_g), vec![2.0, 1.0, 1.0, 1.0 / 3.0]);
    assert_eq!(floats(&s.layers[0].qkv_w)[..6], [2.0, 0.0, 0.0, 0.0, 0.0, 0.0]);
    assert_eq!(floats(&s.layers[0].qkv_w)[6..18], [1.0; 12]);
    assert_eq!(floats(&s.layers[0].qkv_w)[18..], [3.0; 6]);
}

#[test]
fn sidecars_hold_one_entry_per_job_in_any_order() {
    let c = small_model(false).config;
    let mut items = Vec::new();
    for (k, job) in layer_jobs(&c, true).iter().enumerate() {
        items.push((0usize, job.role, k as u8));
    }
    let make = |order: &[usize]| {
        build(
            order
                .iter()
                .map(|&k| Done {
                    layer: items[k].0,
                    role: items[k].1,
                    entry: assemble((0..8).collect(), &[items[k].2; 8], vec![1], 8, 1),
                })
                .collect(),
        )
    };
    let (a, b) = (make(&[0, 1, 2, 3, 4]), make(&[3, 0, 4, 2, 1]));
    assert_eq!(a.save(), b.save());
    for role in [Role::Qkv, Role::Proj, Role::Fc, Role::Up, Role::Fc2] {
        assert!(a.get(0, role).is_some() && a.get(1, role).is_none());
    }
}
