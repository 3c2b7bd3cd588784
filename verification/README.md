# mx_engine

The core of an inference engine for GPT-2 small, Qwen2.5-0.5B and TinyLlama-1.1B on a card
with two gigabytes of memory, written in Rust and verified with Verus.

## Layout

- `src/` is the library. Everything in it is verified.
  - Files: `bytes`, `model` (model files), `gptq` (sidecars of pre-quantized weights),
    `adapter`, `checkpoint` (published checkpoints), `export` (downloads and corpora),
    `text`, `nvcc`.
  - Text: `marks`, `pretoken` and `tokenizer` (byte-level BPE).
  - Weights: `quant` (storage modes), `layout` (packing), `matrix`, `calib`, `smooth`,
    `channels` (channel orders of error-feedback quantization).
  - Device work: `kernel`, `launch`, `engine`, `batch`, `setup`, `upload`, `plans`,
    `replay`, `bench`, `suite`.
  - Decoding: `floatbits`, `order`, `random`, `sample`, `decode`.
  - Command line: `cli`.
- `tests/` runs the library on concrete values.
- `app/` is the program around it: the driver, files and downloads, threads, and
  everything that computes in floating point.

## How it is put together

Device work is data. The library works out every kernel launch, copy and upload as a list
of steps over named buffers, and the program carries the list out. What a decode step, a
batched prefill, a draft verification or a captured graph consists of is thus a value that
contracts can speak of; `plans` proves that every such list works only on buffers that
opening the model has set up, hands no buffer to a launch twice, and stays inside the
cache and the scratch.

A captured graph is the decode step with token and position read from device memory.
`replay` proves that, and that on a device whose kernels do what their names say decoding by
the graph ends with the token that decoding step by step on the host ends with.

Numbers in single and half precision are held as their bit patterns. Comparing and
ordering them is done on the patterns (`floatbits`, `order`); arithmetic on them is left to
the program.

Decoding with drafts is a state machine (`decode`): the program asks it for the next
request, runs that on the device and hands back the greedy choices.
`speculative_decoding_is_lossless` states that the outcome is the greedy one, wherever the
choices that are handed back are the model's own. That the rows of a batch on the device are
those choices is not proved: it rests on the kernels.

Calls into `serde_json`, `safetensors` and a few functions of the standard library stand
behind small functions whose contracts are believed; each says in its comment what it
claims.
