# tracebridge

Lauterbach TRACE32 PowerView from the command line, VS Code and RustRover, with
its logic verified by Verus.

- `src/` is the library, with contracts that Verus proves.
  - `t32rcl/`: the TRACE32 Remote API: frames, requests, answers, addresses,
    symbols, and the sequences of requests that make up one operation.
  - `config`, `pycompat`, `paths`, `document`: loading `trace32.toml`.
  - `flash`, `target`, `remote`, `powerview`, `t32config`: choosing a flash script,
    programming the target, starting PowerView.
  - `rtt`: the SEGGER RTT channel and its terminal.
  - `dap/`: the Debug Adapter Protocol and the rules of the proxy.
  - `vscode/`, `rustrover`, `init`: the files written for a project and its editors.
  - `cli`: what the commands report.
  - `text`, `bytes`, `json`, `world`, `errors`: shared by the rest.
- `app/` is the program around it: sockets, files, processes, the terminal.
- `tests/` runs the library.

The library does no I/O. What it has to know of the file system it asks for: such a
function returns `Lookup::Ask` with a question, and is called again with the answer
in its `World`. What it does over a socket or a process is a sequence of steps: it
hands out a request and takes in what came of it.
