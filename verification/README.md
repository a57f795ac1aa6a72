# streamloader

Indexes SafeTensors checkpoints as they are - a single file, shards with an
index, or a directory of shards - and groups their tensors into logical
transformer blocks, without splitting or copying the files. On top of that
stands the bookkeeping of an engine that streams blocks to a GPU.

- `src/` is the library, verified with Verus. It does no input or output. Opening
  a model goes step by step: `opening::Opening` says what has to be looked up next
  and takes the answer.
- `app/` is the rest: the command line, the file system and memory maps, and CUDA
  and Python around the engine.
- `tests/` runs the library on checkpoints in memory.

What the library states is in its contracts. What holds between several
operations stands in `block_laws`, `model_laws`, `opening_laws`, `engine_laws`,
`engine_runs` and `residency`.

Taken on trust are the header parser of `safetensors` (with `serde_json` beneath
it) and the hash of `blake3`: see `header` and `checksum`.

Paths are byte strings with `/` between their parts. The files of a model must not
change while it is open.
