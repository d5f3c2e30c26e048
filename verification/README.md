# qunix

The verified core of the Qunix kernel, written in Verus.

- `src/` is the library. Every operation is verified against its contract:
  the buddy and per-CPU frame allocators, address spaces and page tables
  (mmap with its flags, mremap, copy-on-write fork),
  slab caches, LZ4 compression with zswap and zram, pipes, semaphores,
  message queues, shared memory and epoll, the JBD2 journal (block images,
  commit, checkpointing, descriptor parsing and crash recovery), ext4 (superblock
  geometry, inodes, extent and block maps, file data, directory entries,
  mounting with journal replay), tmpfs files and directories, FAT32 (boot
  parameters, 8.3 names, allocation table and cluster chains),
  ELF parsing, the exec plan (main image, interpreter, start-up layout)
  and the initial stack image, the bootloader's kernel-image plan, the
  virtual `/proc` and `/etc` files and their text, the IDT,
  IRQ, keyboard, console, VGA, PCI, NVMe and ACPI logic, DRM modes and
  atomic commits, io_uring ring geometry, and futexes.
- `tests/` exercises the library on concrete values.
- `app/` is the unverified glue: global locks, and the loops that meet
  hardware memory and devices (mapping pages and writing the stack image,
  freeing and clearing frames, parking futex waiters).
