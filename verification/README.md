# Fence

Crash-consistent shared-memory log for CXL memory pools, verified with Verus.

Hosts that share memory over CXL append records to one log without locks. Every record is
flushed to the medium before a pointer or a state announces it, so a host that crashes in the
middle of a write never makes others read garbage, and any surviving host can put the log in
order.

## Layout

- `src/`: the library. Everything in it is verified.
  - `engine`, `recovery`, `compaction`, `metrics`, `record`: append, read, trim, recover.
  - `layout`, `memory`, `pool`: where things lie in a pool, and what they mean.
  - `backend`, `heap_backend`: access to shared memory.
  - `protocol`, `system`, `progress`, `laws`: the log protocol access by access, many hosts
    and crashes, appends side by side, and what holds of the log as a whole.
  - `catalog`, `region`, `allocator`, `alloc_laws`: named regions.
  - `config`, `defaults`, `startup`, `report`: configuration, opening a pool, what is printed.
  - `mmap_backend`, `persistence`: decisions behind mapping files and flushing caches.
  - `crash_sim`, `assertions`, `temp_pool`, `barrier`: aids for tests.
- `app/`: the `fenced` daemon: command line, files, memory mappings, cache instructions.
- `tests/`: tests of the library.

## What is proved

Each operation has two guarantees. On a pool that one host has to itself, its result and its
effect on every byte are given exactly. Whatever other hosts do meanwhile, its accesses follow
the protocol and its result is that of what they loaded; `system` shows that hosts that follow
it never return one index twice and never read an unfinished or damaged record, and that the
record of an append that has returned stays on the medium, in whatever order their accesses
fall and whichever of them crash. `progress` shows that, where hosts append, read and advance
the tail and none of them crashes, every append that has succeeded can be read back once all
of them have returned.

The model behind `system` lets accesses take effect one at a time. It trusts the hardware to
order them as the requested memory orderings promise, and flushes to reach the medium.
