use mx_engine::checkpoint::{
    convert, convert_qwen, convert_tinyllama, decode_tensor, join_qkv, layer_tensors,
    table_tensors, transpose_linear, ConvertError, Store,
};
use mx_engine::model::{Arch, Config};

/// A file of tensors: name, element type, bytes.
fn file(tensors: &[(String, &str, Vec<u8>)]) -> Vec<u8> {
    let mut header = String::from("{");
    let mut data: Vec<u8> = Vec::new();
    for (i, (name, dtype, bytes)) in tensors.iter().enumerate() {
        let width = if *dtype == "F32" { 4 } else { 2 };
        if i > 0 {
            header.push(',');
        }
        header.push_str(&format!(
            "\"{name}\":{{\"dtype\":\"{dtype}\",\"shape\":[{}],\"data_offsets\":[{},{}]}}",
            bytes.len() / width,
            data.len(),
            data.len() + bytes.len()
        ));
        data.extend_from_slice(bytes);
    }
    header.push('}');
    while header.len() % 8 != 0 {
        header.push(' ');
    }
    let mut out = (header.len() as u64).to_le_bytes().to_vec();
    out.extend_from_slice(header.as_bytes());
    out.extend_from_slice(&data);
    out
}

fn singles(v: &[f32]) -> Vec<u8> {
    v.iter().flat_map(|x| x.to_le_bytes()).collect()
}

fn gpt2_names() -> Vec<String> {
    let c = Config::gpt2_small();
    let mut v: Vec<String> = Vec::new();
    for l in 0..c.n_layer {
        v.extend(layer_tensors(&c, l).into_iter().map(|i| i.name));
    }
    v.extend(table_tensors(Arch::Gpt2).into_iter().map(|i| i.name));
    v
}

#[test]
fn tensors_are_decoded() {
    let b = singles(&[1.5, -2.0]);
    assert_eq!(decode_tensor(Store::Single, &b), Some(vec![1.5f32.to_bits(), (-2.0f32).to_bits()]));
    assert_eq!(decode_tensor(Store::Brain, &[0xc0, 0x3f, 0x00, 0xc0]), Some(vec![1.5f32.to_bits(), (-2.0f32).to_bits()]));
    assert_eq!(decode_tensor(Store::Other, &b), None);
    // a rest that fills no element is passed over
    assert_eq!(decode_tensor(Store::Single, &b[..7]), Some(vec![1.5f32.to_bits()]));
}

#[test]
fn linears_are_turned_and_joined() {
    assert_eq!(transpose_linear(&[1, 2, 3, 4, 5, 6], 2, 3), vec![1, 4, 2, 5, 3, 6]);
    let j = join_qkv(&[1, 2, 3, 4], &[5, 6], &[7, 8], 2, 2, 1);
    assert_eq!(j, vec![1, 2, 5, 7, 3, 4, 6, 8]);
}

#[test]
fn names_of_a_layer() {
    let v = layer_tensors(&Config::gpt2_small(), 11);
    assert_eq!(v[0].name, "h.11.ln_1.weight");
    assert_eq!(v[11].name, "h.11.mlp.c_proj.bias");
    let q = layer_tensors(&Config::qwen25_05b(), 3);
    assert_eq!(q[1].name, "model.layers.3.self_attn.k_proj.weight");
    assert_eq!(q[1].shape, Some((128, 896)));
    assert_eq!(table_tensors(Arch::Llama)[2].name, "lm_head.weight");
}

#[test]
fn gpt2_checkpoints_convert() {
    let mut tensors: Vec<(String, &str, Vec<u8>)> = Vec::new();
    for (i, name) in gpt2_names().into_iter().enumerate() {
        // every third name carries the prefix, every second tensor is stored in half
        let name = if i % 3 == 0 { format!("transformer.{name}") } else { name };
        if i % 2 == 0 {
            tensors.push((name, "F32", singles(&[i as f32, -1.0])));
        } else {
            let hi = ((i as f32).to_bits() >> 16) as u16;
            tensors.push((name, "BF16", hi.to_le_bytes().to_vec()));
        }
    }
    let m = convert(&file(&tensors)).unwrap();
    assert_eq!(m.layers.len(), 12);
    assert_eq!(m.layers[0].ln1_g, vec![0.0f32.to_bits(), (-1.0f32).to_bits()]);
    assert_eq!(m.layers[0].ln1_b, vec![1.0f32.to_bits()]);
    assert_eq!(m.layers[0].qkv_w, vec![2.0f32.to_bits(), (-1.0f32).to_bits()]);
    assert_eq!(m.layers[11].fc2_b, vec![143.0f32.to_bits()]);
    assert!(m.layers[3].up_w.is_empty());
    assert_eq!(m.wte, vec![144.0f32.to_bits(), (-1.0f32).to_bits()]);
    assert_eq!(m.lnf_b, vec![147.0f32.to_bits()]);
    assert!(m.lm_head.is_empty());
    assert_eq!(m.config, Config::gpt2_small());
}

#[test]
fn broken_checkpoints_are_refused() {
    assert_eq!(convert(b"nothing").err(), Some(ConvertError::BadCheckpoint));
    let none: Vec<(String, &str, Vec<u8>)> = Vec::new();
    let missing = |name: &str| Some(ConvertError::Missing(name.to_string()));
    assert_eq!(convert(&file(&none)).err(), missing("h.0.ln_1.weight"));
    assert_eq!(convert_qwen(&file(&none)).err(), missing("model.layers.0.self_attn.q_proj.weight"));
    assert_eq!(convert_tinyllama(&file(&none)).err(), missing("model.layers.0.self_attn.q_proj.weight"));
    let one = vec![("h.0.ln_1.weight".to_string(), "F32", singles(&[1.0]))];
    assert_eq!(convert(&file(&one)).err(), missing("h.0.ln_1.bias"));
    let half = vec![("h.0.ln_1.weight".to_string(), "F16", vec![0, 0])];
    assert_eq!(convert(&file(&half)).err(), Some(ConvertError::UnsupportedDtype("h.0.ln_1.weight".to_string())));
    let small = vec![("model.layers.0.self_attn.q_proj.weight".to_string(), "F32", singles(&[1.0]))];
    assert_eq!(
        convert_qwen(&file(&small)).err(),
        Some(ConvertError::TooSmall("model.layers.0.self_attn.q_proj.weight".to_string()))
    );
}
