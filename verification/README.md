# quackos

The servers of the QuackOS microkernel system as a verified library: the memory
manager, the process manager, the task manager, the file system server with
ext4, and the layer that runs Linux programs.

- `src/` is the library. Every function carries a contract over a mathematical
  model of its data, and Verus proves it. Laws that span several functions are
  public proof functions named `law_..`.
- `app/` is the running system around it: locks, the VirtIO block device, the
  calls into the microkernel, and the loops of the servers.
- `tests/` runs the library on concrete values.

| Module  | What it holds                                                     |
|---------|-------------------------------------------------------------------|
| `mm`    | regions, physical pages, page faults, the memory manager          |
| `task`  | tasks on top of the kernel's threads                              |
| `proc`  | process table, process manager, program loader                    |
| `fs`    | paths, entries, open files, the server, its protocol, and ext4    |
| `linux` | system calls: what each decides, and what it asks of the kernel   |
| `user`  | the programs `echo` and `ls`                                      |

Outside crates: `xmas-elf` reads program headers and `hashbrown` keeps extended
attributes, both behind small functions whose contracts are believed; `spin`
and `virtio-drivers` are used in `app/` only.
