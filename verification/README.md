# linuxfile

A Linux filesystem with `std::fs` semantics in a single file, written and proved in Verus.

`src/` is the library. It holds no handle of the host: a mounted volume is a value, an image is a
sequence of bytes, and what a call owes the host file is a list of operations
(`LinuxFile::take_ops`). What the calls do is stated over `model::FsView`, the filesystem as a
mathematical value:

| Layer | Modules |
|---|---|
| Bytes, errors, types | `bytes`, `crc`, `error`, `text`, `types`, `path`, `options` |
| Formats on disk | `format`, `inode`, `dir`, `xattr`, `tree`, `compress`, `allocmap`, `journal`, `disk` |
| Image, cache, free space | `store`, `cache`, `allocator`, `volume`, `extents`, `blocks`, `records` |
| A mounted volume | `inner`, `data`, `edit`, `table`, `attrs`, `names`, `persist`, `flush`, `mount` |
| Opening an image | `load`, `inspect`, `reopen`, `open`, `recovery` |
| What operations mean | `model`, `ops`, `calls` |
| The interface | `fs`, `file`, `context` |
| What holds across calls | `laws`, `naming`, `space` |

`app/` binds volumes to host files: it reads the image, performs the operations, shares a volume
between handles under a lock, and adds the traits of `std` (`Read`, `Write`, `Seek`, `Error`).

`tests/` runs the library from outside.
