# qemulbench

A self-contained Linux benchmark launcher: it runs a command natively in an
embedded root filesystem (`native`), through QEMU user-mode emulation
(`user`), or inside a QEMU virtual machine (`system`).

The decisions the launcher makes are a library verified with Verus:

- `src/cpio.rs` — the cpio "newc" format: writing entries, finding the
  trailer, and unpacking an archive step by step into safe relative paths.
- `src/overlay.rs` — the overlay archive that carries mounted host trees
  into a guest, and splicing it onto a root filesystem archive.
- `src/image.rs` — decompressing the embedded payloads (zstd) and building
  the initial RAM disk.
- `src/system.rs` — planning a virtual machine run: QEMU options and their
  overrides, the kernel command line (shell quoting and base64), KVM and
  CPU-cluster decisions.
- `src/cpu.rs` — grouping the cores of `/proc/cpuinfo` by CPU part and
  choosing the cluster to pin to.
- `src/mount.rs` — `HOST[:GUEST]` mount arguments.
- `src/launch.rs` — where a command's program is found, and how a guest
  reports its exit code.
- `src/cli.rs`, `src/assets.rs`, `src/text.rs`, `src/bytes.rs` — the command
  line's values, the payload choice, and text and byte helpers.

`app/` is the program around the library: argument parsing with clap, the
embedded payloads, file-system and process work, signal forwarding and the
namespace setup of native runs. `tests/` exercises the library.
