# Stride

A serving runtime for large language models, verified with Verus.

`src/` is the library. It holds every decision of the runtime, each with a
contract that Verus proves:

| Module | What it decides |
|---|---|
| `kvcache` | Paged blocks, content addresses, prefix reuse, eviction |
| `sched` | Continuous batching, chunked prefill, deadline ranking, preemption |
| `model` | Geometry, number formats, parallelism, capacity planning |
| `backend` | Tokenizers and which of their files are safe to load, sampling, the executor interface, the worker protocol |
| `engine` | The serving loop: admission, passes, settling tokens, streams |
| `server` | What the OpenAI-compatible routes answer, deployment arguments |
| `ids`, `request`, `sequence`, `sampling`, `error`, `number`, `text`, `lists`, `json` | What the others are made of |

Each data structure has a view of mathematical values, each operation is a
function on that view, and the executable code is proved to refine it. What
holds of the library as a whole stands beside it as proof functions whose names
start with `law_`.

The runtime never reads the wall clock. Every component takes the current tick
as an argument, which is what makes a scheduling run replayable from a recorded
trace. Rates and shares are kept as exact ratios, and single precision numbers
by their bits; dividing, exponentiating and displaying them is left to the
program.

`app/` is that program: the command line, the HTTP server, the task that runs
the engine, the connection to a worker, the analytic simulator and the floating
point arithmetic of sampling.

`tests/` runs the library.
