# nam_rs

Inference for [Neural Amp Modeler](https://www.neuralampmodeler.com/) (NAM) `.nam`
models, written in Verus: executable Rust whose behaviour is stated in contracts and
proved.

The library reads the JSON text of a `.nam` file and runs the neural network it holds,
a block at a time or sample by sample. It knows three architectures: WaveNet (with the
second-generation features: FiLM, gating and blending, bottlenecks, grouped
convolutions, multi-tap heads, post-stack heads and nested conditioning models), LSTM,
and containers of submodels with a width dial.

## What is proved

- **The forward pass.** The engines are generic over their arithmetic, and every number
  carries, as ghost state, the expression it was computed by. The contract of each
  engine says which expression of the input samples and the file's weights each output
  is. A block run is the same expression as a run sample by sample, however the stream
  is cut into blocks; under an arithmetic whose operations are functions, such as that
  of a processor's floats, it is the same number, bit for bit.
- **Loading.** Which files load, which engine each of them becomes, and for every file
  that does not load, the exact error.
- **Parsing.** Which texts hold a model and which model that is, field by field. Of a
  text that holds none, the first thing that is wrong with it, in words, and where in the
  text that is. A known name stands once in a file; unknown members are skipped, whatever
  they hold. Reading metadata is lenient field by field.
- **Absence of panics.** No overflow, no index out of bounds, no missing weight.

The laws that hold of the library as a whole stand in `src/laws.rs`: streaming, reset,
selection, documents, warmup. Those of the numbers that come out stand in
`src/laws/numbers.rs`: a block against its samples, blocks of any sizes, warmup, reset
after any use, containers against their submodels, and what in a file has no part in its
sound.

## What is trusted

JSON text is read, skipped, split into values and written by `serde_json`; the calls stand
behind small functions in `src/json.rs` whose contracts are not proved. Two functions in
`src/text.rs` call the standard library: one shows a text as `Debug` does, the other takes
off its first character.

## Layout

- `src/` is the library.
- `tests/` runs it, in single precision.
- `app/` runs the engines on `f32` and reads files from disk.
