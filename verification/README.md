# BranchFS

A filesystem that branches: isolated workspaces on top of a directory, with copy-on-write deltas,
commits into the parent and aborts that leave nothing behind.

`src/` is the library. It decides everything that does not need the disk or the kernel, and its
functions are proved against their contracts. Eight items are believed without proof, each with its
reason beside it: `String::push` and the comparison of strings (`text`), the error numbers
(`errors`) and the open flags (`control`) of the system, the test for UTF-8 (`merge`), fresh
identifiers (`names`), and the quoting of a text for a message with the name of its result
(`daemon`).

| Modules | What they hold |
|---------|----------------|
| `text`, `table`, `order`, `size`, `names` | strings, small tables, sorting, sizes and names |
| `paths`, `tree`, `records`, `errors` | paths and places, directory trees, records, errors |
| `branch`, `journal`, `quota` | one branch, the files that record it, the storage limit |
| `manager`, `changes`, `writes`, `revert`, `rename` | the branches of a store and what changes them |
| `lookup`, `resolve`, `snapshot` | what a branch sees, and copying it |
| `merge`, `commit`, `staged`, `staging`, `side_bytes` | merging texts, committing, and publishing a commit |
| `inode`, `context`, `fs`, `operations`, `control` | a mount and its operations |
| `daemon` | requests and answers |
| `laws`, `commit_laws`, `staged_laws`, `snapshot_laws`, `listing_laws`, `mount_laws` | what the operations promise together |

An operation that works on the disk looks first, hands what it found to the library, and carries
out the plan that comes back. `app/` does this: it holds the command line, the daemon's socket, the
disk and the kernel interface.
