# inferno

A CPU-first inference engine for language models: it reads GGUF and MLX model files,
builds a graph of scalar operations, interprets it, plans emitted code for it, and keeps
compiled models in a cache that is verified before anything in it is loaded.

The library under `src/` is written in Verus. Every function in it carries a contract
that is proved: no panic, no overflow, and the exact result or error for every input.

- `formats`: model files. GGUF and safetensors parsers over arbitrary bytes, tensor
  names, half precision, block quantization and how far it errs, and the files that the
  tests run on.
- `float`: single precision, bit by bit: rounding to nearest even, sums, products,
  quotients, conversions.
- `graph`: the graph of a model, the scalar operations, and the interpreter. Running a
  prompt at once gives the same bits as running it in parts. Attention gives a mean of
  the values that it sees, and turning keeps lengths, up to rounding.
- `codegen`: steps, profiler slots, and the code that is emitted, as a value with a
  meaning of its own. Each piece of it is proved to do what the scalar operation does,
  and the whole of it, for one token and for a prompt in tiles of any length, to leave
  the interpreter's logits and cache behind, however the workers share the tokens, where
  the kernels multiply and attend as the scalar operations do.
- `engine`: the content-addressed cache, the checks of what it holds, and the state of a
  compiled model.
- `cli`: what is decided and what is printed.

Numbers are held by their bits. Elementary functions, and how numbers are written, are
handed in by the caller.

`app/` is the program around the library: the command line, files, LLVM, the loader of
compiled code, and the thread pool.
