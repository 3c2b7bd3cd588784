use mx_engine::cli::{
    argmax_is_binding, calib_path, config_for, data_path, mixed_flags, mixed_tag, mode_filter,
    model_choice, modes_for, opt_n, opt_usize, opt_value, prompt, sidecar_applies, sidecar_path,
    verify_combos, wants_gptq,
};
use mx_engine::model::{Arch, Config};
use mx_engine::quant::{flag, WeightMode};

fn args(s: &str) -> Vec<String> {
    s.split_whitespace().map(str::to_string).collect()
}

#[test]
fn options_take_the_next_argument() {
    let a = args("generate hello -n 12 --model qwen --seed");
    assert_eq!(opt_value(&a, "--model"), Some("qwen"));
    assert_eq!(opt_value(&a, "--seed"), None);
    assert_eq!(opt_value(&a, "--top-k"), None);
    assert_eq!(opt_n(&a, 64), Some(12));
    assert_eq!(opt_usize(&a, "--seed", 5), Some(5));
    assert_eq!(opt_n(&args("bench"), 64), Some(64));
    assert_eq!(opt_n(&args("bench -n lots"), 64), None);
    // the first occurrence counts
    assert_eq!(opt_n(&args("bench -n 1 -n 2"), 64), Some(1));
    assert!(flag(&a, "-n") && !flag(&a, "--kv8"));
}

#[test]
fn models_are_found_by_name() {
    let c = model_choice(&args("export"), "models").unwrap();
    assert_eq!((c.dir.as_str(), c.bin.as_str(), c.arch), ("models", "models/gpt2.bin", Arch::Gpt2));
    assert_eq!(sidecar_path(&c), "models/gpt2.bin.gptq4.bin");
    let q = model_choice(&args("export --model qwen"), "models").unwrap();
    assert_eq!(q.bin, "models/qwen/qwen2.5-0.5b.bin");
    assert_eq!(q.arch, Arch::Qwen2);
    let t = model_choice(&args("export --model tinyllama"), "models").unwrap();
    assert_eq!((t.dir.as_str(), t.bin.as_str()), ("models/tinyllama", "models/tinyllama/tinyllama-1.1b.bin"));
    assert!(model_choice(&args("export --model opt"), "models").is_none());
    assert_eq!(config_for(Arch::Qwen2), Config::qwen25_05b());
    assert_eq!(config_for(Arch::Llama).n_embd, 2048);
}

#[test]
fn corpora_are_found() {
    assert_eq!(calib_path("models"), "models/wikitext-2-raw/wiki.calib.raw");
    assert_eq!(data_path(&args("ppl"), "models"), "models/wikitext-2-raw/wiki.test.raw");
    assert_eq!(data_path(&args("ppl --data x.txt"), "models"), "x.txt");
}

#[test]
fn gptq_excludes_smoothing() {
    assert_eq!(wants_gptq(&args("ppl")), Some(false));
    assert_eq!(wants_gptq(&args("ppl --smooth")), Some(false));
    assert_eq!(wants_gptq(&args("ppl --gptq")), Some(true));
    assert_eq!(wants_gptq(&args("ppl --gptq --smooth")), None);
    assert!(sidecar_applies(WeightMode::Int4) && !sidecar_applies(WeightMode::Int4K));
}

#[test]
fn sweeps_cover_what_fits() {
    assert_eq!(modes_for(Arch::Gpt2).len(), 7);
    assert_eq!(modes_for(Arch::Qwen2)[0], WeightMode::Fp16);
    assert_eq!(
        modes_for(Arch::Llama),
        vec![WeightMode::Int4, WeightMode::Int4K, WeightMode::Int8, WeightMode::Int3, WeightMode::Int2]
    );
    let v = verify_combos(Arch::Llama);
    assert_eq!(v.len(), 7);
    assert_eq!(v[0], (WeightMode::Int4, false));
    assert_eq!(v[5], (WeightMode::Int4, true));
    assert_eq!(v[6], (WeightMode::Int8, true));
    assert!(argmax_is_binding(WeightMode::Int8) && !argmax_is_binding(WeightMode::Int4));
    assert_eq!(mode_filter(&args("bench")), None);
    assert_eq!(mode_filter(&args("bench --fp32")), Some(WeightMode::Fp32));
    assert_eq!(mode_filter(&args("bench --int3")), Some(WeightMode::Int3));
}

#[test]
fn mixed_storage_is_asked_for() {
    assert_eq!(mixed_flags(&args("ppl")), (false, false));
    assert_eq!(mixed_flags(&args("ppl --mixed")), (true, true));
    assert_eq!(mixed_flags(&args("ppl --embed-int8")), (true, false));
    assert_eq!(mixed_flags(&args("ppl --ffn-down-int8")), (false, true));
    assert_eq!(mixed_tag(true, true), "+mixed");
    assert_eq!(mixed_tag(true, false), "+e8");
    assert_eq!(mixed_tag(false, true), "+f8");
    assert_eq!(mixed_tag(false, false), "");
}

#[test]
fn prompts_are_no_options() {
    let a = vec!["generate".to_string(), "Hello there".to_string()];
    assert_eq!(prompt(&a), Some("Hello there"));
    assert_eq!(prompt(&args("generate -n 3")), None);
    assert_eq!(prompt(&args("generate")), None);
    assert_eq!(prompt(&["generate".to_string(), String::new()]), Some(""));
}
