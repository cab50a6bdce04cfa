# maramos

The logic of a small x86-64 hobby kernel and of its disk-image tool, written in Verus: each
function carries a `requires`/`ensures` contract that Verus proves.

## Layout

- `src/fs/lemonfs/` — LemonFS as the kernel mounts it: superblock checks and sealing, the
  block bitmap allocator, link chains, directories read from and written back to their block
  chains, and the mounted volume (`create`, `read`, `write`, `delete`, `list`, `size`,
  symbolic links).
- `src/fs/hashtable/` — the hash-table layout of LemonFS: the storage-drive trait and an
  in-memory drive, name hashing, table slots and probing, directories of hash pointers and a
  cache of looked-up entries.
- `src/lemoncc/` — disk images in the hash-table layout as the image tool builds them:
  formatting, path resolution, reading, writing, removing and moving files.
- `src/gpt/` — GUID partition tables: the protective MBR, header checks with their fallback to
  the backup header, partition entries and partitions seen as drives of their own.
- `src/scheduling/` — tasks, per-CPU run queues and the load-balancing plan.
- `src/loader/` — the checks and the segment plan of an ELF executable.
- `src/syscalls/`, `src/helpers/`, `src/library/` — system-call arguments, CRC-32, time
  units, late initialisation and the framebuffer console's arithmetic.
- `app/` — the command-line image tool and the parts that need I/O, locks or the ELF parser.
- `tests/` — tests of the library through its public API.
