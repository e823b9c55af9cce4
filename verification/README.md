# cloud-hypervisor-jailer

A Linux-only, manifest-driven privilege boundary for one Cloud Hypervisor process, with its
decisions verified by Verus.

- `src/` is the verified library. It validates a manifest, orders the stages of a launch, and
  computes what each stage does: which paths are bound where and with which flags, which
  permissions are granted, which device nodes, limits and cgroup files are written, and which
  command line is executed. It performs no input or output.
- `app/` is the program: it parses the JSON manifest, asks the library what comes next, and makes
  the system calls.
- `tests/` runs the library, and holds its reading of paths and texts against the platform's.

The library calls one outside function, `libc::makedev`; its contract in `src/jail.rs` is believed,
not proved.
