# Manifold

A local pipeline runtime: pipelines of nodes in YAML, engines that run the nodes, sandboxed
WebAssembly guests, and an in-memory store of runs, entries and edges.

The logic is a Verus library. Its functions carry contracts, and Verus proves that they keep them;
only of an engine nothing is said in general, since what an engine does is up to each. What the
library has from other crates (JSON, YAML, TOML, UUIDs, instants, WebAssembly) it calls through
small wrappers whose contracts are believed; each says so in its comment.

## Layout

- `src/`: the library.
  - `text`, `strmap`, `value`: texts, ordered maps and the values that pipelines exchange.
  - `json`, `jsontext`, `record`, `runtext`: values and records of runs as JSON.
  - `config`, `yaml`, `graph`: pipelines, their form in YAML, and their order.
  - `store`, `namespace`, `ids`, `batch`, `runtime`: what is stored, and for whom.
  - `schedule`, `engine`: which node runs when, and on what.
  - `guest`, `pdk`, `asset`: guests, their side of the host functions, and the files they ask for.
  - `cli`, `inspect`, `report`, `manifest`, `wasm_check`, `error`: the commands.
- `app/`: the program: arguments, files, tasks, the sandbox and the terminal.
- `tests/`: tests of the library as its users see it.

## What is proved

Besides what each function returns, the library states laws as public proof functions. Among them:

- A run starts each node at most once, and only after every node that feeds it has finished with an
  output; a run without an error completes every node. The record of a node follows those of the
  nodes that feed it, and the outputs of a run have the names of its inputs and of the nodes that
  completed (`schedule`).
- A faulty pipeline is refused before anything runs or is stored; of any other, exactly the record
  that is handed back is stored, and it is found again (`runtime`).
- A node on an engine that nobody registered leaves a failed run that says so (`schedule`).
- A value, a record of a run or a pipeline that was written is read back (`json`, `record`, `yaml`).
- A record in which a field stands twice is refused, and what is no field is not looked at
  (`runtext`).
- Edges and the indexes of their vertices stay in step, in the store and in a batch of writes
  (`store`, `batch`).
- Applications with different names never share a key (`namespace`, `manifest`).
- A guest runs on the buffer that its input was written into, its output is read before anything is
  freed, and no buffer is freed twice under the same address and length (`guest`).
- A guest gets what it has set, in at most two tries, however long it is (`guest`, `pdk`).
- Whoever asks the asset host for a file gets that file (`asset`).
- A comparison of two runs speaks of every key of either (`report`).

## Checks

`manifold check` is advice: imports of a module that it should not have are reported as warnings.
