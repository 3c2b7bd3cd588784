use mx_engine::floatbits::{abs_bits, abs_gt, argmax, gt, is_zero, nan, total_rank_of};
use mx_engine::layout::{group_absmax, pack_q2, pack_q3, pack_q4, pack_q8, transpose};
use mx_engine::random::pseudo_rand;

fn values(n: usize, limit: u8) -> Vec<u8> {
    pseudo_rand(n, 5).iter().map(|&x| (x.unsigned_abs() % limit as u32) as u8).collect()
}

#[test]
fn nibbles_lie_where_the_kernels_look() {
    let (n_in, n_out) = (32usize, 3usize);
    let v = values(n_in * n_out, 16);
    let q = pack_q4(&v, n_in, n_out);
    assert_eq!(q.len(), n_in / 2 * n_out);
    for i in 0..n_in {
        for o in 0..n_out {
            let b = q[((i / 8) * n_out + o) * 4 + i % 4];
            assert_eq!((b >> (4 * ((i % 8) / 4))) & 15, v[o * n_in + i]);
        }
    }
}

#[test]
fn bit_pairs_lie_where_the_kernels_look() {
    let (n_in, n_out) = (32usize, 5usize);
    let v = values(n_in * n_out, 4);
    let q = pack_q2(&v, n_in, n_out);
    assert_eq!(q.len(), n_in / 4 * n_out);
    for i in 0..n_in {
        for o in 0..n_out {
            let b = q[((i / 16) * n_out + o) * 4 + i % 4];
            assert_eq!((b >> (2 * ((i % 16) / 4))) & 3, v[o * n_in + i]);
        }
    }
}

#[test]
fn three_bit_planes_lie_where_the_kernels_look() {
    let (n_in, n_out) = (64usize, 2usize);
    let v = values(n_in * n_out, 8);
    let q = pack_q3(&v, n_in, n_out);
    assert_eq!(q.len(), n_in / 32 * 3 * 4 * n_out);
    for i in 0..n_in {
        for o in 0..n_out {
            let base = (i / 32) * 3;
            let lo = q[((base + (i % 32) / 16) * n_out + o) * 4 + i % 4] >> (2 * ((i % 16) / 4)) & 3;
            let hi = q[((base + 2) * n_out + o) * 4 + i % 4] >> ((i % 32) / 4) & 1;
            assert_eq!(lo | hi << 2, v[o * n_in + i]);
        }
    }
}

#[test]
fn eight_bit_words_hold_four_rows() {
    let (n_in, n_out) = (8usize, 3usize);
    let v: Vec<i8> = (0..(n_in * n_out) as i32).map(|x| (x * 11 - 100) as i8).collect();
    let q = pack_q8(&v, n_in, n_out);
    for i in 0..n_in {
        for o in 0..n_out {
            assert_eq!(q[((i / 4) * n_out + o) * 4 + i % 4], v[i * n_out + o]);
        }
    }
}

#[test]
fn transposing_twice_changes_nothing() {
    let w: Vec<u32> = (0..12).collect();
    let t = transpose(&w, 3, 4);
    assert_eq!(t, vec![0, 4, 8, 1, 5, 9, 2, 6, 10, 3, 7, 11]);
    assert_eq!(transpose(&t, 4, 3), w);
    assert_eq!(transpose(&[1.5f32, 2.5], 1, 2), vec![1.5, 2.5]);
}

#[test]
fn groups_keep_the_sign_of_their_largest() {
    let w: Vec<u32> = [1.0f32, -3.0, 2.0, 3.0, 0.0, -0.5, f32::NAN, 0.25].iter().map(|x| x.to_bits()).collect();
    // two columns, groups of two rows
    let m = group_absmax(&w, 4, 2, 2);
    assert_eq!(m, vec![2.0f32.to_bits(), (-3.0f32).to_bits(), 0, (-0.5f32).to_bits()]);
}

#[test]
fn numbers_compare_by_their_patterns() {
    let v = [f32::NEG_INFINITY, -2.0, -0.0, 0.0, 1e-45, 1.0, f32::INFINITY, f32::NAN];
    for a in v {
        for b in v {
            assert_eq!(gt(a.to_bits(), b.to_bits()), a > b, "{a} {b}");
            assert_eq!(abs_gt(a.to_bits(), b.to_bits()), a.abs() > b.abs(), "{a} {b}");
            assert_eq!(total_rank_of(a.to_bits()) < total_rank_of(b.to_bits()), a.total_cmp(&b).is_lt());
        }
        assert_eq!(nan(a.to_bits()), a.is_nan());
        assert_eq!(is_zero(a.to_bits()), a == 0.0);
        assert_eq!(abs_bits(a.to_bits()), a.abs().to_bits());
    }
    assert_eq!(argmax(&[]), 0);
}

#[test]
fn planes_tell_their_weights_apart() {
    let (n_in, n_out) = (32, 3);
    let zero = vec![0u8; n_in * n_out];
    for k in 0..n_in * n_out {
        let mut v = zero.clone();
        v[k] = 1;
        assert_ne!(pack_q4(&v, n_in, n_out), pack_q4(&zero, n_in, n_out));
        assert_ne!(pack_q2(&v, n_in, n_out), pack_q2(&zero, n_in, n_out));
        assert_ne!(pack_q3(&v, n_in, n_out), pack_q3(&zero, n_in, n_out));
        v[k] = 4;
        assert_ne!(pack_q3(&v, n_in, n_out), pack_q3(&zero, n_in, n_out));
        let mut w = vec![0i8; n_in * n_out];
        w[k] = -1;
        assert_ne!(pack_q8(&w, n_in, n_out), pack_q8(&vec![0i8; n_in * n_out], n_in, n_out));
    }
}
