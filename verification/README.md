# moe_infer

Inference for mixture-of-experts language models, with contracts that Verus proves.

- `src/` is the library. Every function in it is verified, but for the wrappers around `serde_json`
  (`json`) and the standard library (`http`, `engine`, `chars`): their contracts are trusted.
- `tests/` runs it, with the machine's own arithmetic.
- `app/` is what touches the outside: files, sockets, the model hub, Python, the command line.

## Numbers

A single-precision number is held as its bits (`float`). Sign, order, minimum and maximum are decided
on the bits. Operations that round are supplied through the trait `Arith`; a contract names the
result of each operation, and so says which operations are applied, to what, and in which order.
How far numbers move when they are quantized and decoded again (`accuracy`) is stated for arithmetic
that rounds to the nearest number (`rounding`).

## Modules

| Module | What it does |
|--------|--------------|
| `float`, `bf16`, `rounding` | numbers, their short form, and what they stand for |
| `nibble`, `grid`, `bytes` | packing, row-major addressing, little-endian bytes |
| `int4`, `int8`, `fp4`, `fp8`, `dtype` | storage formats: encoding, decoding, manifests |
| `accuracy` | error bounds of the storage formats |
| `constants`, `config` | sizes of the known models, and the check of a configuration |
| `weights` | named tensors, packed matrices, norms |
| `math`, `topk`, `rope`, `logits` | activations, the best scores, rotary angles, the best token |
| `attention`, `linear`, `moe`, `embed` | the parts of a layer, one token at a time |
| `cache`, `model`, `forward` | what layers remember, whole layers, and whole runs |
| `ready` | whether weights and sizes fit, so that the layers can run |
| `device` | the commands that a graphics device runs for a layer |
| `generate` | which token runs next, and when a generation ends |
| `text`, `chars`, `json` | texts, and what is read from JSON |
| `http`, `chat`, `vocab` | requests, responses, prompts, token texts |
| `hub` | which files of a model are needed |
| `engine`, `error` | engines by name, messages |

What relates several functions stands in proof functions whose names begin with `law_`.
