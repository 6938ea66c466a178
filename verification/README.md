# ziran

The logic of Ziran OS, a small x86-64 teaching kernel, as a Verus library:
every data structure, parser and decision rule the kernel runs, with its
contract proved.

- `src/` — the verified library. Devices (`pic`, `pit`, `serial`,
  `keyboard`, `vga_buffer`, `fw_cfg`) are described as the port writes and
  buffer images they produce; memory (`multiboot`, `frame_allocator`,
  `paging`, `heap`); traps and privilege (`interrupts`, `gdt`, `usermode`,
  `task`); and the services on top (`fs`, `shell`, `net`).
- `tests/` — scenario tests over the library.
- `app/` — the kernel around it: port and memory-mapped I/O, control
  registers, the assembly entry points, global locks and the boot sequence.

Page-table walks are step machines: each step names the entry to read, the
table to allocate or the entries to store, and the caller performs it. The
laws `law_map_then_translate`, `law_unmap_then_translate` and
`law_identity_map` in `paging` state what a completed walk leaves behind.
`law_identity_tables` shows that a mapping above the identity window walks
only the boot PML4 and PDPT, so those laws apply to the kernel's own tree.

The filesystem is checked once, at mount: `law_mounted_paths_in_bounds`
says every path of a mounted image resolves inside it,
`law_validation_work` bounds the entries a mount reads by the image's size,
and
`law_boot_image_round_trip` and `law_boot_secret_unreachable` say that the
boot RAM disk mounts, that each file it holds reads back as written, and that
no path reaches the bytes it keeps unnamed.
