# runikraft

The data structures and rules of a small unikernel, written in Verus with
their behaviour stated as contracts and proved.

- `chain`, `rklist`, `list`: linked lists (singly and doubly linked, with
  tail pointer) kept in an arena of slots; each list is seen as the
  sequence of its elements, and every operation states what it does to it.
- `compat_list`, `entry_list`: intrusive lists whose nodes live in a
  caller's vector and link to each other by index.
- `buddy`: a buddy allocator over a region of addresses, with the laws that
  blocks handed out are disjoint, lie inside the region and come back whole:
  a freed block merges with its free buddy, so no free block has a free
  buddy, and freeing a block just handed out restores the free lists.
- `rkalloc`: the allocator interface, over memory seen as a vector of
  bytes indexed by address (moving a block copies its bytes), and a bump
  allocator.
- `rklock`, `mbox`, `mpi`: semaphores, a reentrant mutex and mailboxes,
  with their first-in-first-out laws.
- `argparse`, `param`: splitting a shell command line into piped commands
  and their redirections.
- `gpu`, `cursor`, `sudoku_draw`: drawing lines, characters, the mouse
  cursor and the sudoku board on a framebuffer in memory.
- `sudoku`, `sudoku_input`, `rkinput`: the rules of the sudoku game, its
  solver and the handling of key events.
- `netdev`, `blkdev`, `blkfront`, `errno`, `bitcount`, `align_as`, `time`:
  device descriptions, IPv4 addresses, error numbers and small helpers.

`app/` runs the sudoku game on a framebuffer in memory, fed with key events
on standard input, and prints how a command line is taken apart.
