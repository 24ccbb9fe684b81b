# lean-to

A proxy between an editor and the Lean 4 language server. It runs `lake serve` and adds to what the
server offers. Each feature is on by default and has its own flag under
`initialization_options.leanTo`:

| Feature | Flag |
| --- | --- |
| Goals at the end of a line | `inlayHints` |
| Lenses above declarations | `codeLens` |
| More semantic tokens | `semanticTokens` |
| Goals in hovers | `hover` |
| Progress bar | `progress` |
| Restart on outdated imports | `autoRestart` |

## Layout

- `src/` is the library. It holds what the proxy decides and computes, with contracts that Verus
  proves, and no input or output. The one exception is the percentage of the progress bar, which is
  computed in floating point and stands in `app/progress.rs`.
- `app/` is the program around it: the pipes, the tasks and timers, and the editor's extension.
- `tests/` runs the library on concrete values, with the crates that it calls linked in.

What the library takes on trust are the short contracts of the functions marked `external_body`,
and of the `assume_specification`, each of which names the function that it stands for: those of
`serde_json` in `src/json.rs`, of `ropey` and `dashmap` in `src/documents.rs`, of `lru` in
`src/probes.rs`, and a few of the standard library in `src/text.rs`, `src/framing.rs` and
`src/progress.rs`.
