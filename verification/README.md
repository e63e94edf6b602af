# rcore_kernel

A small teaching kernel for 64-bit RISC-V and the file system that it boots from, with contracts that
Verus proves.

The library (`src/`) holds what the kernel decides and computes:

- `easy_fs`: a file system with one directory on a block device: the block cache, the bitmaps, index
  nodes with direct and indirect blocks, directory entries, creating, linking, unlinking, reading and
  writing files
- `mm`: addresses, physical frames, page tables of three levels, address spaces, program files in ELF
  format, the memory of programs as the kernel uses it
- `fs`: files as processes see them: regular files and the console
- `task`: processes, their numbers, kernel stacks and saved registers, the queue of those that are
  ready
- `kernel`: all of this together, the choice of the process that runs next, how processes are born and
  end, how the kernel starts
- `syscall`: what processes can ask for
- `trap`: why the kernel was entered, and what it does about it
- `batch`, `link_app`: programs that are linked into the image of the kernel and run one after the
  other

Physical memory is a value of the library, so every function says in its contract what it does to the
bytes of which frame. Proof functions whose names start with `law_` state what holds across
functions: that a read gives back what a write wrote, that no frame is lost, that processes cannot
touch each other's memory, that the next process is one that has come least far.

What cannot be met is left out by `requires`. The modules called `guard` hold functions that test
these conditions at run time.

`app/` is the machine around the library: start-up, entering and leaving the kernel, the console, the
disk. `tests/` runs the library on concrete values.
