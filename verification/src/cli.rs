//! What the command line asks for: the model, the storage mode and the options.

use crate::export::{joined, path_join};
use crate::model::{Arch, Config};
use crate::model::{gpt2_config, qwen_config, tinyllama_config};
use crate::quant::{flag, given, picked, picks_at_most_one, WeightMode};
use crate::text::{parse_usize, parsed, str_eq};
use vstd::prelude::*;
use vstd::string::{StrSliceExecFns, StringExecFns};

verus! {

/// The argument behind the first occurrence of a name, if there is one.
pub open spec fn value_of(args: Seq<String>, name: Seq<char>) -> Option<Seq<char>>
    decreases args.len(),
{
    if args.len() == 0 {
        None
    } else if args[0]@ == name {
        if args.len() > 1 {
            Some(args[1]@)
        } else {
            None
        }
    } else {
        value_of(args.skip(1), name)
    }
}

/// The argument behind a name.
pub fn opt_value<'a>(args: &'a [String], name: &str) -> (r: Option<&'a str>)
    ensures
        match r {
            Some(v) => value_of(args@, name@) == Some(v@),
            None => value_of(args@, name@) is None,
        },
{
    let mut i: usize = 0;
    assert(args@.skip(0) =~= args@);
    while i < args.len()
        invariant
            i <= args.len(),
            value_of(args@, name@) == value_of(args@.skip(i as int), name@),
        decreases args.len() - i,
    {
        proof {
            assert(args@.skip(i as int).skip(1) =~= args@.skip(i + 1));
        }
        if str_eq(args[i].as_str(), name) {
            if i + 1 < args.len() {
                return Some(args[i + 1].as_str());
            }
            return None;
        }
        i = i + 1;
    }
    None
}

/// A numeric option: the value given, the default where none is, nothing where the value
/// given is no number.
pub open spec fn number_of(args: Seq<String>, name: Seq<char>, default: usize) -> Option<usize> {
    match value_of(args, name) {
        Some(v) => parsed(v),
        None => Some(default),
    }
}

/// A numeric option.
pub fn opt_usize(args: &[String], name: &str, default: usize) -> (r: Option<usize>)
    ensures
        r == number_of(args@, name@, default),
{
    match opt_value(args, name) {
        Some(v) => parse_usize(v),
        None => Some(default),
    }
}

/// The option `-n`.
pub fn opt_n(args: &[String], default: usize) -> (r: Option<usize>)
    ensures
        r == number_of(args@, "-n"@, default),
{
    opt_usize(args, "-n", default)
}

/// A model by name: where its files lie and what it is.
#[derive(Debug)]
pub struct ModelChoice {
    pub dir: String,
    pub bin: String,
    pub arch: Arch,
}

/// The contents of a [`ModelChoice`].
#[verifier::ext_equal]
pub struct ModelChoiceView {
    pub dir: Seq<char>,
    pub bin: Seq<char>,
    pub arch: Arch,
}

impl View for ModelChoice {
    type V = ModelChoiceView;

    open spec fn view(&self) -> ModelChoiceView {
        ModelChoiceView { dir: self.dir@, bin: self.bin@, arch: self.arch }
    }
}

/// The files of a model, below the directory of all models.
pub open spec fn choice_of(models_dir: Seq<char>, arch: Arch) -> ModelChoiceView {
    match arch {
        Arch::Gpt2 => ModelChoiceView {
            dir: models_dir,
            bin: joined(models_dir, "gpt2.bin"@),
            arch,
        },
        Arch::Qwen2 => {
            let dir = joined(models_dir, "qwen"@);
            ModelChoiceView { dir, bin: joined(dir, "qwen2.5-0.5b.bin"@), arch }
        },
        Arch::Llama => {
            let dir = joined(models_dir, "tinyllama"@);
            ModelChoiceView { dir, bin: joined(dir, "tinyllama-1.1b.bin"@), arch }
        },
    }
}

/// The architecture that `--model` names.
pub open spec fn arch_named(name: Seq<char>) -> Option<Arch> {
    if name == "gpt2"@ {
        Some(Arch::Gpt2)
    } else if name == "qwen"@ {
        Some(Arch::Qwen2)
    } else if name == "tinyllama"@ {
        Some(Arch::Llama)
    } else {
        None
    }
}

/// The value of `--model`, GPT-2 where it is not given.
pub open spec fn model_name(args: Seq<String>) -> Seq<char> {
    match value_of(args, "--model"@) {
        Some(v) => v,
        None => "gpt2"@,
    }
}

/// The model that the arguments name; nothing where no model has that name.
pub fn model_choice(args: &[String], models_dir: &str) -> (r: Option<ModelChoice>)
    ensures
        match arch_named(model_name(args@)) {
            Some(arch) => r is Some && r.unwrap()@ == choice_of(models_dir@, arch),
            None => r is None,
        },
{
    let name: &str = match opt_value(args, "--model") {
        Some(v) => v,
        None => "gpt2",
    };
    if str_eq(name, "gpt2") {
        let bin: String = path_join(models_dir, "gpt2.bin");
        return Some(ModelChoice { dir: models_dir.to_owned(), bin, arch: Arch::Gpt2 });
    }
    if str_eq(name, "qwen") {
        let dir: String = path_join(models_dir, "qwen");
        let bin: String = path_join(dir.as_str(), "qwen2.5-0.5b.bin");
        return Some(ModelChoice { dir, bin, arch: Arch::Qwen2 });
    }
    if str_eq(name, "tinyllama") {
        let dir: String = path_join(models_dir, "tinyllama");
        let bin: String = path_join(dir.as_str(), "tinyllama-1.1b.bin");
        return Some(ModelChoice { dir, bin, arch: Arch::Llama });
    }
    None
}

/// The shape of the model that an architecture stands for.
pub open spec fn shape_of(arch: Arch) -> Config {
    match arch {
        Arch::Gpt2 => gpt2_config(),
        Arch::Qwen2 => qwen_config(),
        Arch::Llama => tinyllama_config(),
    }
}

/// The shape of the model that an architecture stands for.
pub fn config_for(arch: Arch) -> (c: Config)
    ensures
        c == shape_of(arch),
{
    match arch {
        Arch::Gpt2 => Config::gpt2_small(),
        Arch::Qwen2 => Config::qwen25_05b(),
        Arch::Llama => Config::tinyllama_11b(),
    }
}

/// The file of pre-quantized weights beside a model: `model.bin` has
/// `model.bin.gptq4.bin`.
pub fn sidecar_path(choice: &ModelChoice) -> (path: String)
    ensures
        path@ == choice@.bin + ".gptq4.bin"@,
{
    choice.bin.as_str().to_owned().concat(".gptq4.bin")
}

/// The corpus that calibration reads.
pub fn calib_path(models_dir: &str) -> (path: String)
    ensures
        path@ == joined(models_dir@, "wikitext-2-raw/wiki.calib.raw"@),
{
    path_join(models_dir, "wikitext-2-raw/wiki.calib.raw")
}

/// The corpus that perplexity is measured on.
pub fn data_path(args: &[String], models_dir: &str) -> (path: String)
    ensures
        path@ == match value_of(args@, "--data"@) {
            Some(v) => v,
            None => joined(models_dir@, "wikitext-2-raw/wiki.test.raw"@),
        },
{
    match opt_value(args, "--data") {
        Some(v) => v.to_owned(),
        None => path_join(models_dir, "wikitext-2-raw/wiki.test.raw"),
    }
}

/// Whether pre-quantized weights are asked for. `None` where smoothing is asked for too:
/// they were made from weights that had not been smoothed.
pub fn wants_gptq(args: &[String]) -> (r: Option<bool>)
    ensures
        r == (if !given(args@, "--gptq"@) {
            Some(false)
        } else if given(args@, "--smooth"@) {
            None
        } else {
            Some(true)
        }),
{
    if !flag(args, "--gptq") {
        return Some(false);
    }
    if flag(args, "--smooth") {
        return None;
    }
    Some(true)
}

/// Pre-quantized weights take the place of others only in the four-bit mode whose layout
/// they have.
pub fn sidecar_applies(mode: WeightMode) -> (r: bool)
    ensures
        r == (mode == WeightMode::Int4),
{
    mode == WeightMode::Int4
}

/// The storage modes in which a model fits the card.
pub open spec fn fitting_modes(arch: Arch) -> Seq<WeightMode> {
    match arch {
        Arch::Gpt2 => seq![
            WeightMode::Fp32,
            WeightMode::Fp16,
            WeightMode::Int8,
            WeightMode::Int4,
            WeightMode::Int4K,
            WeightMode::Int3,
            WeightMode::Int2,
        ],
        Arch::Qwen2 => seq![
            WeightMode::Fp16,
            WeightMode::Int8,
            WeightMode::Int4,
            WeightMode::Int4K,
            WeightMode::Int3,
            WeightMode::Int2,
        ],
        Arch::Llama => seq![
            WeightMode::Int4,
            WeightMode::Int4K,
            WeightMode::Int8,
            WeightMode::Int3,
            WeightMode::Int2,
        ],
    }
}

/// The storage modes in which a model fits the card.
pub fn modes_for(arch: Arch) -> (v: Vec<WeightMode>)
    ensures
        v@ == fitting_modes(arch),
{
    match arch {
        Arch::Gpt2 => vec![
            WeightMode::Fp32,
            WeightMode::Fp16,
            WeightMode::Int8,
            WeightMode::Int4,
            WeightMode::Int4K,
            WeightMode::Int3,
            WeightMode::Int2,
        ],
        Arch::Qwen2 => vec![
            WeightMode::Fp16,
            WeightMode::Int8,
            WeightMode::Int4,
            WeightMode::Int4K,
            WeightMode::Int3,
            WeightMode::Int2,
        ],
        Arch::Llama => vec![
            WeightMode::Int4,
            WeightMode::Int4K,
            WeightMode::Int8,
            WeightMode::Int3,
            WeightMode::Int2,
        ],
    }
}

/// The combinations of storage mode and eight-bit cache that are compared against the
/// reference: every mode without, the first mode and int8 with.
pub open spec fn combinations(arch: Arch) -> Seq<(WeightMode, bool)> {
    Seq::new(fitting_modes(arch).len(), |i: int| (fitting_modes(arch)[i], false)) + seq![
        (fitting_modes(arch)[0], true),
        (WeightMode::Int8, true),
    ]
}

/// The combinations that are compared against the reference.
pub fn verify_combos(arch: Arch) -> (v: Vec<(WeightMode, bool)>)
    ensures
        v@ == combinations(arch),
{
    let modes: Vec<WeightMode> = modes_for(arch);
    let mut v: Vec<(WeightMode, bool)> = Vec::new();
    let mut i: usize = 0;
    while i < modes.len()
        invariant
            i <= modes.len(),
            modes@ == fitting_modes(arch),
            v@ == Seq::new(i as nat, |j: int| (fitting_modes(arch)[j], false)),
        decreases modes.len() - i,
    {
        v.push((modes[i], false));
        i = i + 1;
        assert(v@ =~= Seq::new(i as nat, |j: int| (fitting_modes(arch)[j], false)));
    }
    v.push((modes[0], true));
    v.push((WeightMode::Int8, true));
    assert(v@ =~= combinations(arch));
    v
}

/// The low rungs may change which token is likeliest; the others have to agree with the
/// reference.
pub fn argmax_is_binding(mode: WeightMode) -> (r: bool)
    ensures
        r == !crate::quant::below_int8(mode),
{
    match mode {
        WeightMode::Int4 => false,
        WeightMode::Int4K => false,
        WeightMode::Int3 => false,
        WeightMode::Int2 => false,
        _ => true,
    }
}

/// Whether embeddings and head, and the MLP's output projection, are stored in eight bits.
pub open spec fn mixed_wanted(args: Seq<String>) -> (bool, bool) {
    (
        given(args, "--mixed"@) || given(args, "--embed-int8"@),
        given(args, "--mixed"@) || given(args, "--ffn-down-int8"@),
    )
}

/// Whether embeddings and head, and the MLP's output projection, are stored in eight bits.
pub fn mixed_flags(args: &[String]) -> (r: (bool, bool))
    ensures
        r == mixed_wanted(args@),
{
    let both: bool = flag(args, "--mixed");
    (both || flag(args, "--embed-int8"), both || flag(args, "--ffn-down-int8"))
}

/// The mark of mixed storage in listings.
pub fn mixed_tag(embed_int8: bool, ffn_down_int8: bool) -> (s: &'static str)
    ensures
        s@ == (if embed_int8 && ffn_down_int8 {
            "+mixed"@
        } else if embed_int8 {
            "+e8"@
        } else if ffn_down_int8 {
            "+f8"@
        } else {
            ""@
        }),
{
    if embed_int8 && ffn_down_int8 {
        "+mixed"
    } else if embed_int8 {
        "+e8"
    } else if ffn_down_int8 {
        "+f8"
    } else {
        ""
    }
}

/// Some mode is named, `--fp32` among them.
pub open spec fn names_a_mode(args: Seq<String>) -> bool {
    ||| given(args, "--fp32"@)
    ||| given(args, "--fp16"@)
    ||| given(args, "--int8"@)
    ||| given(args, "--int4"@)
    ||| given(args, "--int4k"@)
    ||| given(args, "--int3"@)
    ||| given(args, "--int2"@)
}

/// The one mode that a sweep is restricted to, where one is named.
pub fn mode_filter(args: &[String]) -> (r: Option<WeightMode>)
    requires
        picks_at_most_one(args@),
    ensures
        match r {
            Some(m) => names_a_mode(args@) && picked(args@, m),
            None => !names_a_mode(args@),
        },
{
    if flag(args, "--fp32") || flag(args, "--fp16") || flag(args, "--int8") || flag(args, "--int4")
        || flag(args, "--int4k") || flag(args, "--int3") || flag(args, "--int2") {
        Some(WeightMode::parse(args))
    } else {
        None
    }
}

/// The prompt of a generation: the argument behind the command, unless it is an option.
pub fn prompt(args: &[String]) -> (r: Option<&str>)
    ensures
        match r {
            Some(p) => args@.len() > 1 && p@ == args@[1]@ && !(p@.len() > 0 && p@[0] == '-'),
            None => args@.len() <= 1 || (args@[1]@.len() > 0 && args@[1]@[0] == '-'),
        },
{
    if args.len() <= 1 {
        return None;
    }
    let p: &str = args[1].as_str();
    if p.unicode_len() > 0 && p.get_char(0) == '-' {
        return None;
    }
    Some(p)
}

/// The value of an option is the argument behind its first mention, nothing where it is not
/// mentioned or mentioned last.
pub proof fn options_take_what_follows_their_first_mention(
    args: Seq<String>,
    name: Seq<char>,
    i: int,
)
    requires
        0 <= i <= args.len(),
        forall|j: int| 0 <= j < i ==> (#[trigger] args[j])@ != name,
        i < args.len() ==> args[i]@ == name,
    ensures
        value_of(args, name) == (if i + 1 < args.len() {
            Some(args[i + 1]@)
        } else {
            None
        }),
    decreases i,
{
    if i > 0 {
        let rest = args.skip(1);
        assert(args[0]@ != name);
        assert forall|j: int| 0 <= j < i - 1 implies (#[trigger] rest[j])@ != name by {
            assert(args[j + 1]@ != name);
        }
        options_take_what_follows_their_first_mention(rest, name, i - 1);
    }
}

/// The smallest model fits the card in every mode, the next in every mode but the widest, and
/// the largest in the integer modes. No mode is listed twice.
pub proof fn larger_models_fit_in_fewer_modes(arch: Arch, m: WeightMode, i: int, j: int)
    requires
        0 <= i < j < fitting_modes(arch).len(),
    ensures
        fitting_modes(arch).contains(m) <==> match arch {
            Arch::Gpt2 => true,
            Arch::Qwen2 => m != WeightMode::Fp32,
            Arch::Llama => m != WeightMode::Fp32 && m != WeightMode::Fp16,
        },
        fitting_modes(arch)[i] != fitting_modes(arch)[j],
{
    let v = fitting_modes(arch);
    assert(v[0] == v[0] && v[1] == v[1] && v[2] == v[2] && v[3] == v[3] && v[4] == v[4]);
    if arch != Arch::Llama {
        assert(v[5] == v[5]);
    }
    if arch == Arch::Gpt2 {
        assert(v[6] == v[6]);
    }
}

/// Every mode is compared with the plain cache, and the widest that fits and the eight-bit one
/// with the narrow cache besides.
pub proof fn every_fitting_mode_is_compared(arch: Arch, m: WeightMode, kv8: bool)
    ensures
        combinations(arch).len() == fitting_modes(arch).len() + 2,
        combinations(arch).contains((m, kv8)) <==> if kv8 {
            m == WeightMode::Int8 || m == fitting_modes(arch)[0]
        } else {
            fitting_modes(arch).contains(m)
        },
{
    let v = fitting_modes(arch);
    let c = combinations(arch);
    let n = v.len() as int;
    assert(c[n] == (v[0], true) && c[n + 1] == (WeightMode::Int8, true));
    if v.contains(m) {
        let i = choose|i: int| 0 <= i < v.len() && v[i] == m;
        assert(c[i] == (m, false));
    }
    if c.contains((m, kv8)) {
        let i = choose|i: int| 0 <= i < c.len() && c[i] == (m, kv8);
        if i < n {
            assert(v[i] == m);
        }
    }
}

} // verus!
