# codebot

A small language model that writes code, and what it takes to train it: a
byte-pair tokenizer, the data of three trainings, and the bookkeeping around
generation. The library under `src/` is verified with Verus; the program under
`app/` reads and writes files, runs threads and hands numbers to the model.

## The library

| Module | What it holds |
| --- | --- |
| `pairs`, `words`, `pair_index`, `bpe` | Merging pairs of tokens, and learning which to merge |
| `chunks`, `corpus` | Cutting a corpus file, counting its words, training the tokenizer |
| `parts`, `pattern`, `tokenizer` | From text to tokens and back |
| `cbor` | Merge rules and tokens as bytes |
| `dataset`, `sft`, `grpo` | Examples of code, chats and sums, and their batches |
| `generation` | Generating token by token |
| `schedule`, `model` | How much is trained, and the shape of the model |
| `search`, `text` | Looking for text in text, numbers in decimal, small edits |
| `ordered` | The ordered maps and sets of `indexmap` |

Each function says in its contract what it returns. What holds of several
functions together is stated by proof functions whose names start with `law_`:
that decoding undoes encoding, that training learns the greedy rules in whatever
order words are visited, that neither the order nor the repetition of documents
changes what is learned, that counting in parallel is counting in sequence, and
others.

What comes from other crates is called in functions marked `external_body`, each
with a comment that says what is taken on trust: the maps of `indexmap`, the
regular expressions of `fancy-regex`, the CBOR of `ciborium`, and a few functions
of the standard library.

## The program

`app/main.rs` has one function for each step; `main` calls the one to run.

1. Train the tokenizer: `data/tiny_codes.txt` to `data/merge_rules.cbor`.
2. Convert the code: `data/tiny_codes.bin`.
3. Train on code. `CH02_ITERS`, `CH02_EPOCHS` and `CH02_MAX_ITEMS` set how much.
4. Train on chats: `data/tiny_codes_sft.json`.
5. Train on sums of two numbers from one to nine, with eight answers to each
   prompt.

The model runs on CUDA.
