# pfp

A sampling profiler for PHP 8.0 to 8.5, as a verified library and a thin program
around it.

`pfp` attaches to a running PHP process and walks the call stack of the Zend VM
without pausing it. It writes stacks, folded stacks or pprof profiles, pushes
profiles to a Pyroscope server, or shows a live table.

## Layout

`src/` is the library. Everything in it is verified with Verus; nothing in it
touches a process, a file or the network.

| Module | What it is about |
|--------|------------------|
| `text`, `clock`, `intern`, `wire` | Text, times, interning tables, the protobuf wire format |
| `remote` | What is known of another process's memory: the replies to reads |
| `replies` | Laws on how computations depend on those replies |
| `arch`, `prologue`, `tls` | Accessor functions, decoded from their instructions |
| `offsets`, `zend` | The structures of the Zend VM: frames, strings, hash tables |
| `elf`, `symbols` | Symbols and the version literal of a binary |
| `proc`, `discover` | Memory maps and process discovery |
| `target` | Attaching, capturing stacks, request variables |
| `output`, `pprof`, `pyroscope` | Sinks |
| `tui` | Aggregation for the live display |
| `cli`, `sampler` | What the command line asks for, and how sampling goes |

`app/` is the program: argument parsing, reads of memory and `/proc`, threads,
the terminal and the network.

## Reading memory

A computation on another process's memory is a function of the replies to reads.
Where it needs a reply that is not there, it stops and says which; the program
makes the read, supplies the reply and runs the computation again. `replies`
proves that it then comes to what it would have come to with all the replies from
the start, and that it never asks for a reply it has.

## What is trusted

- `elf`: the `object` crate's reading of ELF files.
- `wire`: the `prost` crate's writing of fields.
- `pprof::gzip`: the `flate2` crate's compression.
- `text::decode_lossy`, `String::push` and `zend::shared`: three functions of the
  standard library.

Each has a contract and a comment that says what is taken for granted.
