# cubecl_memory

Memory management for compute streams, with what a CUDA and a WebGPU backend decide on top
of it. The library is verified with Verus: functions state what they return and what they
change, and the laws that hold across calls are public proof functions. Of `can_mut` and
`is_free` of a memory handle it is stated only that memory which is read only is neither: they
read a counter that other threads change.

## The library, `src/`

- `memory`: handles, storages, pages and pools. `manage` is the manager itself, with its
  capture arena, a pool that keeps its addresses from one region to the next. `model` is
  what its contracts speak of. What follows of sequences of calls is in `laws`, `history`,
  `windows`, `refill` and `tally`.
- `cuda`: what a stream keeps and lets go (`stream`, `stream_laws`), what a command copies and stages
  (`command`, `copy`), what a launch uploads, binds and records (`launch`), captured graphs
  and how their launches are rewritten (`graph`, `nodes`), the cache of per-launch metadata
  (`meta_cache`), tensor maps (`tensor_map`), collectives (`communication`), the book-keeping
  of allocations (`gpu_storage`), and settings (`settings`, `install`, `host_stall_trace`).
- `webgpu`: the memory of a WebGPU device.
- `policy`, `handle`, `settled`, `fnv`, `first`, `sort`, `text`: what these share.

What the proofs rest on is marked `#[verifier::external_body]`, each with a comment that names
the function it calls and says what is claimed of it: `hashbrown` maps in `memory::external`,
`bytemuck` casts in `cuda::words`, the standard sort in `sort`, and reference counts in
`memory::handle`.

The number of holders of a handle and the place that its clones share can change on other
threads. Functions that read them say what holds whatever was read. In `memory` there is next
to each a function that takes the reading as an argument and pins the result down. Those of the
streams, the commands and the WebGPU memory that call them say what holds of some reading. A
handle finds its memory whatever its clones say of the place: the pools know it by its id.

## Around it

- `app/` calls the driver, the communication library, WebGPU and the environment. It hands the
  library plain values and performs what the library decides.
- `tests/` runs the library on concrete values.
