# squashfs_image

An in-memory SquashFS tree and a verified writer that turns it into an image.

`Filesystem` holds the nodes of a filesystem. `push_file` inserts a file and the directories that it needs,
`mut_file` gives access to a file that is there, and `to_bytes` writes the image.

- `src/filesystem.rs`, `src/node.rs`, `src/path.rs`, `src/tree.rs`: the nodes, their paths and the tree that
  these span.
- `src/squashfs.rs`, `src/inode.rs`, `src/entry.rs`, `src/fragment.rs`, `src/metadata.rs`, `src/data.rs`,
  `src/compressor.rs`, `src/bytes.rs`: the records of an image and the blocks that hold them.
- `src/image.rs`: what the image of a filesystem is. `to_bytes` is proved to write exactly that.
- `src/growth.rs`, `src/laws.rs`, `src/layout.rs`, `src/storing.rs`, `src/numbering.rs`, `src/reading.rs`,
  `src/records.rs`, `src/pushing.rs`: what holds of every image. Its parts are where the superblock says, each
  field of a record is read where the format has it, and each inode has a number of its own. Of the nodes at
  one place the last counts: if nothing is below it, it is found again from the root with its metadata and
  contents (a symbolic link if its own name is the last on the way). A directory with something below it has
  the metadata of the root.
- `app/`: a tool that replaces a file in an image.

The compressors are taken from `flate2` and `xz2`. Three things of these are not proved: that they accept the
level, preset and dictionary that they are given, that reading their encoders to the end succeeds, and that
the stream depends on what they are given alone. That the stream can be expanded again is not stated.
