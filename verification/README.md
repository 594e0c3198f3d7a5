# Noya

Noya is a coding agent for the terminal. It talks to a model, runs the tools
that the model asks for inside one workspace, and keeps every conversation as a
durable session.

The library under `src/` holds everything that Noya decides and computes. It is
written in Rust with Verus contracts, and every function in it is proved to keep
its contract. The program under `app/` is ordinary Rust: it reads and writes
files, opens connections, starts processes, draws the terminal and hands plain
values to the library.

## Layout

| Path | What it holds |
| --- | --- |
| `src/text.rs`, `src/seqs.rs`, `src/order.rs`, `src/paths.rs` | texts, sequences, order, paths |
| `src/json.rs`, `src/ids.rs` | JSON texts and identifiers |
| `src/llm/` | requests, answers and streams of both provider protocols |
| `src/model.rs` | models, credentials and the catalogs of discovered models |
| `src/session/` | the event log of a session, what it amounts to, recovery, compaction, branches and forks |
| `src/job/` | background jobs, their records and who works on them |
| `src/agent/` | prompts, turns, approval, limits and quality gates |
| `src/tools/` | workspace paths, edits, results of code navigation |
| `src/skills.rs` | Skill packages and how they enter the prompt |
| `src/daemon.rs` | the messages between the daemon and its clients |
| `src/tui/` | the state of the terminal interface, Markdown and line breaking |
| `src/cli.rs` | what the command line decides and prints |
| `tests/` | tests of the library |
| `app/` | the program |

## How to read the contracts

A type that carries data has a view, which is what contracts speak of. Texts are
sequences of characters, paths are texts, moments are nanoseconds since the
epoch, and identifiers are 128-bit numbers that are written as UUIDs. Errors are
texts too: a contract says on which inputs a function fails and with which
words.

What an outside crate computes has a name without a definition, such as
`json_compact` or `text_width`; the small function that makes the call says that
its result is what the name stands for. Random identifiers and the time have no
name: a contract holds whatever they are.

What holds of the library as a whole is stated by public proof functions. Those
on sessions are in `src/session/laws.rs`, `conversation.rs`, `forks.rs` and
`branches.rs`, those on jobs in `src/job/laws.rs`, and those on whole streams in
`src/llm/whole.rs`; the others stand beside the functions that they are about.
