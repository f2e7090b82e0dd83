# disktree

Disk-space accounting and guarded removal. The library decides what a scan of
a volume covers, what may be deleted and in which order, what is handed to
the trash, and what is reported; each of its functions states what it returns
in a contract that Verus proves.

- `src/` is the verified library. It works on plain values: paths as bytes
  and components, the text of a mount table, the facts the disk gave.
- `app/` reads those from the machine and carries out what the library
  decides: directory handles, mount tables, the environment, threads, tools.
- `tests/` runs the library on concrete values, and its removals on a disk
  kept in memory.

Where things are:

| module | what it decides |
| --- | --- |
| `path`, `order`, `platform` | paths, their components and their order |
| `guards`, `system`, `judge` | how paths compare, and which must not be touched |
| `mounts`, `space` | mount tables, and which mounts belong to a disk |
| `removal`, `worker` | plans, and the run that reports each target |
| `deletion`, `descent`, `sweep`, `fault` | removing one target for good: its stages, the way down, emptying a directory |
| `trash`, `xdg` | backends, tools and the XDG trash layout |
| `windows`, `wide` | directory records, names and paths on Windows |
| `marks`, `tree`, `export`, `size` | marks, sizes, lists and prompts |
| `access`, `appearance`, `menu`, `bundle` | the desktop application around it |
| `text`, `lists` | text and sequences, shared by the rest |
