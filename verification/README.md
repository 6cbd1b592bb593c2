# cordis

A runtime for applications made of components that come and go while the application runs.
Components declare the services they need and provide, and a supervisor loads, reloads and unloads
them as providers appear and disappear. Everything a component does is an effect with an inverse,
so that taking a component down undoes it. The logic is written and proved in Verus.

- `src/` is the library. Every function states what it returns or changes, and Verus checks it.
  The public proof functions are the laws of the library: that consumers leave before their
  providers, that inverses run in reverse, that a failed reconciliation or reload leaves everything
  as it was, and others.
- `app/` is the program around it: tasks and channels, files, Wasmtime and the command line. It
  performs what the library's step machines ask for and hands the outcomes back.
- `tests/` runs the library.

| Modules | Subject |
| --- | --- |
| `fiber`, `supervisor_model`, `supervisor`, `command`, `teardown`, `following`, `graph` | lifecycles, dependency graph, scheduling |
| `context`, `service`, `native`, `id`, `error`, `rendering` | realms, identities, dispatchers, errors |
| `effect`, `event`, `timer`, `tracking`, `logger` | effects, listeners, timers, collections, logs |
| `dynamic`, `kernel`, `method`, `loader` | components behind a boundary, and their mounting |
| `entry`, `tree`, `transaction`, `reconcile`, `document`, `expression`, `sorting`, `schema`, `json`, `value`, `likeness` | declarative applications |
| `artifact`, `digest`, `policy`, `capability`, `reload`, `wasm_error` | artifacts and hot reload |
| `abi`, `expansion` | service and component declarations |
| `cli` | command line |
| `text`, `order`, `search` | texts, sorted sets and maps, searching |

What Verus takes on trust is marked `external_body` or `assume_specification`, with a comment that
names the outside function: hashing (`blake3`), expressions (`rhai`), JSON (`serde_json`), schemas
(`jsonschema`, `schemars`), and a few functions of the standard library on characters and texts.
