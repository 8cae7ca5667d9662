//! In-memory representation of SquashFS filesystem tree used for writing to image.

use vstd::prelude::*;
use crate::bytes::{copy_of, push_all, push_u16, push_u64};
use crate::compressor::{CompressionOptions, Compressor};
use crate::data::{Added, DataWriter};
use crate::entry::{by_name, dir_views, entry_views, is_run, runs, Dir, Entry};
use crate::error::SquashfsError;
use crate::fragment::{fragment_records, Fragment};
use crate::growth::{growing_keeps_parameters, node_grows};
use crate::image::{all_written, beginning, can_pad, children_stay_unwritten, children_written,
    directory_header, directory_written, entered, file_written, finished, image, leaf_written,
    leaves_stay_unwritten, leaves_written, listed, listing_stays_unwritten, main_sections, node_written,
    padding, path_written, symlink_written, table_section, with_fragments, with_ids, zeros, Draft,
    FilesystemView, Progress, Written};
use crate::inode::{BasicDirectory, BasicFile, BasicSymlink, Inode, InodeId, InodeInner};
use crate::metadata::{set_if_uncompressed, MetadataWriter};
use crate::node::{node_views, FileView, FilesystemHeader, Node, NodeView, PathView, SquashfsFile,
    SquashfsPath, SquashfsSymlink};
use crate::path::{absolute, are_first_names, contents, is_absolute, location, same_path, UnixPath};
use crate::pushing::{first_file_is_there, pushing_fills_the_way};
use crate::squashfs::{id_records, Id, SuperBlock, SUPERBLOCK_SIZE};
use crate::tree::{tree_of, TreeNode};

verus! {

/// In-memory representation of a Squashfs Image.
#[derive(PartialEq, Eq)]
pub struct Filesystem {
    /// See [`crate::squashfs::SuperBlock`].`block_size`
    pub block_size: u32,
    /// See [`crate::squashfs::SuperBlock`].`block_log`
    pub block_log: u16,
    /// See [`crate::squashfs::SuperBlock`].`compressor`
    pub compressor: Compressor,
    /// The parameters that were recorded for the compressor
    pub compression_options: Option<CompressionOptions>,
    /// The ids of users and groups
    pub id_table: Option<Vec<Id>>,
    /// "/" node
    pub root_inode: SquashfsPath,
    /// All other nodes of filesystem
    pub nodes: Vec<Node>,
}

impl View for Filesystem {
    type V = FilesystemView;

    open spec fn view(&self) -> FilesystemView {
        FilesystemView {
            block_size: self.block_size,
            block_log: self.block_log,
            compressor: self.compressor,
            compression_options: self.compression_options,
            id_table: match self.id_table {
                Some(ids) => Some(ids@),
                None => None,
            },
            root_inode: self.root_inode@,
            nodes: node_views(self.nodes@),
        }
    }
}

impl Clone for Filesystem {
    /// The same filesystem.
    fn clone(&self) -> (r: Self)
        ensures
            r@ == self@,
    {
        let id_table: Option<Vec<Id>> = match &self.id_table {
            Some(ids) => {
                let mut copy: Vec<Id> = Vec::new();
                let mut i: usize = 0;
                while i < ids.len()
                    invariant
                        i <= ids.len(),
                        copy@ == ids@.take(i as int),
                    decreases ids.len() - i,
                {
                    copy.push(ids[i]);
                    i += 1;
                    assert(copy@ =~= ids@.take(i as int));
                }
                assert(copy@ =~= ids@);
                Some(copy)
            },
            None => None,
        };
        let mut nodes: Vec<Node> = Vec::new();
        let mut i: usize = 0;
        while i < self.nodes.len()
            invariant
                i <= self.nodes.len(),
                node_views(nodes@) == node_views(self.nodes@).take(i as int),
            decreases self.nodes.len() - i,
        {
            let node: Node = self.nodes[i].clone();
            let ghost before = node_views(nodes@);
            nodes.push(node);
            i += 1;
            assert(node_views(nodes@) =~= before.push(node@));
            assert(node_views(nodes@) =~= node_views(self.nodes@).take(i as int));
        }
        assert(node_views(nodes@) =~= node_views(self.nodes@));
        Filesystem {
            block_size: self.block_size,
            block_log: self.block_log,
            compressor: self.compressor,
            compression_options: self.compression_options,
            id_table,
            root_inode: self.root_inode.clone(),
            nodes,
        }
    }
}

/// What is said of a filesystem is said of its fields.
pub proof fn filesystem_is_of_fields(fs: Filesystem)
    ensures
        fs@.block_size == fs.block_size,
        fs@.block_log == fs.block_log,
        fs@.compressor == fs.compressor,
        fs@.compression_options == fs.compression_options,
        fs.id_table is None <==> fs@.id_table is None,
        fs.id_table is Some ==> fs@.id_table.unwrap() == fs.id_table.unwrap()@,
        fs@.root_inode.header == fs.root_inode.header,
        fs@.root_inode.path == fs.root_inode.path.bytes@,
        fs@.nodes.len() == fs.nodes@.len(),
        forall|i: int| 0 <= i < fs.nodes@.len() ==> #[trigger] fs@.nodes[i] == fs.nodes@[i]@,
{
}

/// Writing is repeatable: what writing the image of a filesystem gave, it gives for a clone as well.
pub proof fn clone_has_same_image(
    fs: Filesystem,
    first: Result<Vec<u8>, SquashfsError>,
    copy: Filesystem,
    second: Result<Vec<u8>, SquashfsError>,
)
    requires
        call_ensures(Filesystem::to_bytes, (&fs,), first),
        cloned(fs, copy),
        call_ensures(Filesystem::to_bytes, (&copy,), second),
    ensures
        copy@ == fs@,
        match (first, second) {
            (Ok(a), Ok(b)) => a@ == b@,
            (Err(a), Err(b)) => a == b,
            _ => false,
        },
{
    assert(copy@.compressor == copy.compressor && fs@.compressor == fs.compressor);
}

/// Whether `nodes` hold a directory at the place where `names` lead.
pub open spec fn has_dir(nodes: Seq<NodeView>, names: Seq<Seq<u8>>) -> bool {
    exists|i: int|
        0 <= i < nodes.len() && (#[trigger] nodes[i]) is Path && location(nodes[i].path()) == names
}

/// The directories on the way over `names` to the `count`th that `nodes` do not hold, outermost first.
pub open spec fn missing_dirs(
    nodes: Seq<NodeView>,
    names: Seq<Seq<u8>>,
    count: int,
    header: FilesystemHeader,
) -> Seq<NodeView>
    decreases count,
{
    if count <= 0 {
        Seq::empty()
    } else {
        let before = missing_dirs(nodes, names, count - 1, header);
        if has_dir(nodes, names.take(count)) {
            before
        } else {
            before.push(NodeView::Path(PathView { header, path: absolute(names.take(count)) }))
        }
    }
}

/// The nodes after a file was inserted: those that were there, the missing directories, the file.
pub open spec fn with_file(nodes: Seq<NodeView>, file: FileView) -> Seq<NodeView> {
    let names = location(file.path);
    (nodes + missing_dirs(nodes, names, names.len() - 1, file.header)).push(NodeView::File(file))
}

/// The index of the first file at `path`, the number of nodes if there is none.
pub open spec fn file_index(nodes: Seq<NodeView>, path: Seq<u8>) -> int
    decreases nodes.len(),
{
    if nodes.len() == 0 || (nodes[0] is File && same_path(nodes[0].path(), path)) {
        0
    } else {
        1 + file_index(nodes.drop_first(), path)
    }
}

/// How far the writers have come, with `inode` as the number for the next inode.
pub open spec fn progress(
    inode: u32,
    inode_writer: MetadataWriter,
    dir_writer: MetadataWriter,
    data_writer: DataWriter,
) -> Progress {
    Progress { inode, inodes: inode_writer@, dirs: dir_writer@, data: data_writer@ }
}

/// Whether the writers are sound and compress alike.
pub open spec fn writers_agree(
    inode_writer: MetadataWriter,
    dir_writer: MetadataWriter,
    data_writer: DataWriter,
) -> bool {
    &&& inode_writer.wf()
    &&& dir_writer.wf()
    &&& data_writer.wf()
    &&& inode_writer.spec_compressor() == data_writer.compressor
    &&& dir_writer.spec_compressor() == data_writer.compressor
}

/// Names and nodes that are to be recorded.
pub open spec fn leaf_views(leaves: Seq<(Vec<u8>, &Node)>) -> Seq<(Seq<u8>, NodeView)> {
    leaves.map_values(|l: (Vec<u8>, &Node)| (l.0@, l.1@))
}

impl Filesystem {
    /// Whether the nodes hold a directory at the place where the first `count` of `names` lead.
    fn has_dir(&self, names: &Vec<Vec<u8>>, count: usize) -> (r: bool)
        requires
            count <= names.len(),
        ensures
            r == has_dir(self@.nodes, contents(names@).take(count as int)),
    {
        let ghost nodes = self@.nodes;
        let ghost wanted = contents(names@).take(count as int);
        let mut i: usize = 0;
        while i < self.nodes.len()
            invariant
                i <= self.nodes.len(),
                count <= names.len(),
                nodes == node_views(self.nodes@),
                wanted == contents(names@).take(count as int),
                forall|j: int| 0 <= j < i ==> !((#[trigger] nodes[j]) is Path && location(nodes[j].path())
                    == wanted),
            decreases self.nodes.len() - i,
        {
            assert(nodes[i as int] == self.nodes@[i as int]@);
            if let Node::Path(dir) = &self.nodes[i] {
                if are_first_names(&dir.path.location(), names, count) {
                    return true;
                }
            }
            i += 1;
        }
        false
    }

    /// Insert file `bytes` into `path` with metadata `header`.
    ///
    /// This will create dirs for every directory in the path that doesn't exist in `nodes` with
    /// the metadata of `header`.
    pub fn push_file(&mut self, bytes: Vec<u8>, path: UnixPath, header: FilesystemHeader)
        ensures
            final(self)@ == (FilesystemView {
                nodes: with_file(
                    old(self)@.nodes,
                    FileView { header, path: path@, bytes: bytes@ },
                ),
                ..old(self)@
            }),
            ({
                let before = old(self)@.nodes;
                let after = final(self)@.nodes;
                let way = location(path@);
                &&& before.len() < after.len()
                &&& after.take(before.len() as int) == before
                &&& after.last() == NodeView::File(FileView { header, path: path@, bytes: bytes@ })
                &&& forall|k: int|
                    #![trigger way.take(k)]
                    1 <= k < way.len() ==> exists|i: int|
                        0 <= i < after.len() && (#[trigger] after[i]) is Path && location(after[i].path())
                            == way.take(k)
                &&& forall|i: int|
                    before.len() <= i < after.len() - 1 ==> (#[trigger] after[i]) is Path
                        && after[i]->Path_0.header == header
            }),
    {
        let ghost before = self@.nodes;
        let names: Vec<Vec<u8>> = path.location();
        let ghost all = contents(names@);
        let mut missing: Vec<Node> = Vec::new();
        let mut count: usize = 1;
        assert(node_views(missing@) =~= missing_dirs(before, all, 0, header));
        while count < names.len()
            invariant
                1 <= count,
                count <= names.len() || count == 1,
                before == self@.nodes,
                all == contents(names@),
                node_views(missing@) == missing_dirs(before, all, count - 1, header),
            decreases names.len() - count,
        {
            if !self.has_dir(&names, count) {
                let ghost known = node_views(missing@);
                let dir: SquashfsPath = SquashfsPath { header, path: UnixPath::absolute(&names, count) };
                let node: Node = Node::Path(dir);
                missing.push(node);
                assert(node_views(missing@) =~= known.push(node@));
            }
            count += 1;
        }
        let file: SquashfsFile = SquashfsFile { header, path, bytes };
        let node: Node = Node::File(file);
        proof {
            if names.len() == 0 {
                assert(missing_dirs(before, all, -1, header) =~= missing_dirs(before, all, 0, header));
            }
        }
        let ghost dirs = node_views(missing@);
        self.nodes.append(&mut missing);
        self.nodes.push(node);
        assert(node_views(self.nodes@) =~= (before + dirs).push(node@));
        proof {
            pushing_fills_the_way(before, node@->File_0);
            assert(self@.nodes.take(before.len() as int) =~= before);
        }
    }

    /// Take a mutable reference to existing file at `find_path`.
    pub fn mut_file(&mut self, find_path: UnixPath) -> (r: Option<&mut SquashfsFile>)
        requires
            is_absolute(find_path@),
        ensures
            ({
                let i = file_index(old(self)@.nodes, find_path@);
                match r {
                    Some(file) => {
                        &&& 0 <= i < old(self).nodes@.len()
                        &&& old(self).nodes@[i] == Node::File(*file)
                        &&& location(file.path@) == location(find_path@)
                        &&& file.path@.len() > 0 && file.path@[0] == 0x2f
                        &&& *final(self) == (Filesystem {
                            nodes: final(self).nodes,
                            ..*old(self)
                        })
                        &&& final(self).nodes@ == old(self).nodes@.update(i, Node::File(*final(file)))
                    },
                    None => i == old(self).nodes@.len() && *final(self) == *old(self),
                }
            }),
            r is None ==> forall|j: int|
                0 <= j < old(self)@.nodes.len() && (#[trigger] old(self)@.nodes[j]) is File && location(
                    old(self)@.nodes[j].path(),
                ) == location(find_path@) ==> old(self)@.nodes[j].path().len() == 0
                    || old(self)@.nodes[j].path()[0] != 0x2f,
    {
        let ghost nodes = self@.nodes;
        proof {
            first_file_is_there(nodes, find_path@);
        }
        let mut i: usize = 0;
        assert(nodes.skip(0) =~= nodes);
        while i < self.nodes.len()
            invariant
                i <= self.nodes.len() == nodes.len(),
                nodes == node_views(self.nodes@),
                *self == *old(self),
                file_index(nodes, find_path@) < nodes.len() ==> {
                    let node = nodes[file_index(nodes, find_path@)];
                    &&& location(node.path()) == location(find_path@)
                    &&& node.path().len() > 0
                    &&& node.path()[0] == 0x2f
                },
                file_index(nodes, find_path@) == i + file_index(nodes.skip(i as int), find_path@),
            decreases self.nodes.len() - i,
        {
            assert(nodes.skip(i as int)[0] == self.nodes@[i as int]@);
            let found: bool = match &self.nodes[i] {
                Node::File(file) => file.path.same_path(&find_path),
                _ => false,
            };
            if found {
                return match &mut self.nodes[i] {
                    Node::File(file) => Some(file),
                    _ => None,
                };
            }
            assert(nodes.skip(i as int).drop_first() =~= nodes.skip(i + 1));
            i += 1;
        }
        None
    }

    /// Records `inode` and makes an entry called `name` for it. There is no entry where the record or
    /// the length of the name does not fit.
    fn enter(inode: Inode, name: Vec<u8>, inode_writer: &mut MetadataWriter) -> (r: Option<Entry>)
        requires
            old(inode_writer).wf(),
        ensures
            final(inode_writer).wf(),
            final(inode_writer).spec_compressor() == old(inode_writer).spec_compressor(),
            forall|p: Progress, header: FilesystemHeader|
                p.inodes == old(inode_writer)@ && p.data.compressor == old(
                    inode_writer,
                ).spec_compressor() && inode.header == header.spec_numbered(inode.header.inode_number)
                    ==> match r {
                    Some(entry) => #[trigger] entered(
                        p,
                        inode.id,
                        header,
                        inode.header.inode_number,
                        inode.inner@,
                        name@,
                    ) == Some((entry@, Progress { inodes: final(inode_writer)@, ..p })),
                    None => entered(
                        p,
                        inode.id,
                        header,
                        inode.header.inode_number,
                        inode.inner@,
                        name@,
                    ) is None,
                },
    {
        let start: u32 = inode_writer.metadata_start();
        let offset: u16 = inode_writer.uncompressed_len();
        let bytes: Vec<u8> = inode.to_bytes();
        if !inode_writer.write_all(bytes.as_slice()) {
            return None;
        }
        let len: u16 = (name.len() % 0x1_0000) as u16;
        if len == 0 {
            return None;
        }
        Some(
            Entry {
                start,
                offset,
                inode: inode.header.inode_number,
                t: inode.id,
                name_size: len - 1,
                name,
            },
        )
    }

    /// Write data and metadata for path node.
    fn path(
        name: Vec<u8>,
        path: &SquashfsPath,
        inode: &mut u32,
        parent_inode: u32,
        dir_writer: &MetadataWriter,
        inode_writer: &mut MetadataWriter,
        data_writer: &DataWriter,
    ) -> (r: Option<Entry>)
        requires
            writers_agree(*old(inode_writer), *dir_writer, *data_writer),
        ensures
            writers_agree(*final(inode_writer), *dir_writer, *data_writer),
            ({
                let p = progress(*old(inode), *old(inode_writer), *dir_writer, *data_writer);
                match r {
                    Some(entry) => path_written(p, name@, path@, parent_inode) == Some(
                        (
                            entry@,
                            progress(*final(inode), *final(inode_writer), *dir_writer, *data_writer),
                        ),
                    ),
                    None => path_written(p, name@, path@, parent_inode) is None,
                }
            }),
    {
        let number: u32 = *inode;
        if number == u32::MAX {
            return None;
        }
        let dir_inode: Inode = Inode {
            id: InodeId::BasicDirectory,
            header: path.header.numbered(number),
            inner: InodeInner::BasicDirectory(
                BasicDirectory {
                    block_index: dir_writer.metadata_start(),
                    link_count: 2,
                    file_size: 3,
                    block_offset: dir_writer.uncompressed_len(),
                    parent_inode,
                },
            ),
        };
        *inode = number + 1;
        Self::enter(dir_inode, name, inode_writer)
    }

    /// Write data and metadata for file node.
    fn file(
        file: &SquashfsFile,
        inode: &mut u32,
        data_writer: &mut DataWriter,
        dir_writer: &MetadataWriter,
        inode_writer: &mut MetadataWriter,
    ) -> (r: Option<Entry>)
        requires
            writers_agree(*old(inode_writer), *dir_writer, *old(data_writer)),
        ensures
            writers_agree(*final(inode_writer), *dir_writer, *final(data_writer)),
            ({
                let p = progress(*old(inode), *old(inode_writer), *dir_writer, *old(data_writer));
                match r {
                    Some(entry) => file_written(p, file@) == Some(
                        (
                            entry@,
                            progress(*final(inode), *final(inode_writer), *dir_writer, *final(data_writer)),
                        ),
                    ),
                    None => file_written(p, file@) is None,
                }
            }),
    {
        let number: u32 = *inode;
        if number == u32::MAX {
            return None;
        }
        let name: Vec<u8> = match file.path.file_name() {
            Some(name) => name,
            None => {
                return None;
            },
        };
        let file_size: u32 = (file.bytes.len() as u64 % 0x1_0000_0000) as u32;
        let added: Added = match data_writer.add_bytes(file.bytes.as_slice()) {
            Some(added) => added,
            None => {
                return None;
            },
        };
        let basic_file: BasicFile = match added {
            Added::Data { blocks_start, block_sizes } => BasicFile {
                blocks_start,
                frag_index: 0xffff_ffff,  // <- no fragment
                block_offset: 0x0,  // <- no fragment
                file_size,
                block_sizes,
            },
            Added::Fragment { frag_index, block_offset } => BasicFile {
                blocks_start: 0,
                frag_index,
                block_offset,
                file_size,
                block_sizes: Vec::new(),
            },
        };
        let file_inode: Inode = Inode {
            id: InodeId::BasicFile,
            header: file.header.numbered(number),
            inner: InodeInner::BasicFile(basic_file),
        };
        *inode = number + 1;
        Self::enter(file_inode, name, inode_writer)
    }

    /// Write data and metadata for symlink node.
    fn symlink(
        symlink: &SquashfsSymlink,
        inode: &mut u32,
        dir_writer: &MetadataWriter,
        inode_writer: &mut MetadataWriter,
        data_writer: &DataWriter,
    ) -> (r: Option<Entry>)
        requires
            writers_agree(*old(inode_writer), *dir_writer, *data_writer),
        ensures
            writers_agree(*final(inode_writer), *dir_writer, *data_writer),
            ({
                let p = progress(*old(inode), *old(inode_writer), *dir_writer, *data_writer);
                match r {
                    Some(entry) => symlink_written(p, symlink@) == Some(
                        (
                            entry@,
                            progress(*final(inode), *final(inode_writer), *dir_writer, *data_writer),
                        ),
                    ),
                    None => symlink_written(p, symlink@) is None,
                }
            }),
    {
        let number: u32 = *inode;
        if number == u32::MAX {
            return None;
        }
        let link: Vec<u8> = copy_of(symlink.link.as_str().as_bytes());
        let name: Vec<u8> = copy_of(symlink.original.as_str().as_bytes());
        let sym_inode: Inode = Inode {
            id: InodeId::BasicSymlink,
            header: symlink.header.numbered(number),
            inner: InodeInner::BasicSymlink(
                BasicSymlink {
                    link_count: 0x1,
                    target_size: (link.len() as u64 % 0x1_0000_0000) as u32,
                    target_path: link,
                },
            ),
        };
        *inode = number + 1;
        Self::enter(sym_inode, name, inode_writer)
    }

    /// Writes one node with nothing below it, called `name`, below the directory `parent_inode`.
    fn write_leaf(
        name: Vec<u8>,
        node: &Node,
        inode: &mut u32,
        inode_writer: &mut MetadataWriter,
        dir_writer: &MetadataWriter,
        data_writer: &mut DataWriter,
        parent_inode: u32,
    ) -> (r: Option<Entry>)
        requires
            writers_agree(*old(inode_writer), *dir_writer, *old(data_writer)),
        ensures
            writers_agree(*final(inode_writer), *dir_writer, *final(data_writer)),
            ({
                let p = progress(*old(inode), *old(inode_writer), *dir_writer, *old(data_writer));
                match r {
                    Some(entry) => leaf_written(p, name@, node@, parent_inode) == Some(
                        (
                            entry@,
                            progress(*final(inode), *final(inode_writer), *dir_writer, *final(data_writer)),
                        ),
                    ),
                    None => leaf_written(p, name@, node@, parent_inode) is None,
                }
            }),
    {
        proof {
            reveal(leaf_written);
        }
        match node {
            Node::Path(path) => Self::path(
                name,
                path,
                inode,
                parent_inode,
                dir_writer,
                inode_writer,
                data_writer,
            ),
            Node::File(file) => Self::file(file, inode, data_writer, dir_writer, inode_writer),
            Node::Symlink(symlink) => Self::symlink(symlink, inode, dir_writer, inode_writer, data_writer),
        }
    }

    /// Writes the listing of a directory, and returns the size to record for it.
    fn write_listing(entries: Vec<Entry>, dir_writer: &mut MetadataWriter) -> (r: Option<u16>)
        requires
            old(dir_writer).wf(),
        ensures
            final(dir_writer).wf(),
            final(dir_writer).spec_compressor() == old(dir_writer).spec_compressor(),
            forall|p: Progress|
                p.dirs == old(dir_writer)@ && p.data.compressor == old(dir_writer).spec_compressor()
                    ==> match r {
                    Some(size) => #[trigger] listed(p, runs(by_name(entry_views(entries@)))) == Some(
                        (Progress { dirs: final(dir_writer)@, ..p }, size),
                    ),
                    None => listed(p, runs(by_name(entry_views(entries@)))) is None,
                },
    {
        let ghost listing = runs(by_name(entry_views(entries@)));
        let dirs: Vec<Dir> = Entry::into_dir(entries);
        let mut total_size: u16 = 3;
        let mut i: usize = 0;
        assert(listing.take(0) =~= Seq::empty());
        while i < dirs.len()
            invariant
                i <= dirs.len(),
                listing == runs(by_name(entry_views(entries@))),
                listing == dir_views(dirs@),
                forall|j: int| 0 <= j < dirs.len() ==> is_run((#[trigger] dirs[j])@),
                dir_writer.wf(),
                dir_writer.spec_compressor() == old(dir_writer).spec_compressor(),
                forall|p: Progress|
                    p.dirs == old(dir_writer)@ && p.data.compressor == old(dir_writer).spec_compressor()
                        ==> #[trigger] listed(p, listing.take(i as int)) == Some(
                        (Progress { dirs: dir_writer@, ..p }, total_size),
                    ),
            decreases dirs.len() - i,
        {
            let ghost before = dir_writer@;
            let bytes: Vec<u8> = dirs[i].to_bytes();
            let size: u16 = (bytes.len() % 0x1_0000) as u16;
            let written: bool = dir_writer.write_all(bytes.as_slice());
            proof {
                assert(listing[i as int] == dirs[i as int]@);
                assert(listing.take(i + 1).drop_last() =~= listing.take(i as int));
                assert(listing.take(i + 1).last() == listing[i as int]);
            }
            if !written || size > u16::MAX - total_size {
                proof {
                    assert forall|p: Progress|
                        p.dirs == old(dir_writer)@ && p.data.compressor == old(
                            dir_writer,
                        ).spec_compressor() implies #[trigger] listed(p, listing) is None by {
                        assert(listed(p, listing.take(i as int)) is Some);
                        assert(listed(p, listing.take(i + 1)) is None);
                        listing_stays_unwritten(p, listing, i + 1);
                    }
                }
                return None;
            }
            total_size = total_size + size;
            i += 1;
            proof {
                assert forall|p: Progress|
                    p.dirs == old(dir_writer)@ && p.data.compressor == old(dir_writer).spec_compressor()
                        implies #[trigger] listed(p, listing.take(i as int)) == Some(
                    (Progress { dirs: dir_writer@, ..p }, total_size),
                ) by {
                    assert(listed(p, listing.take(i - 1)) is Some);
                }
            }
        }
        assert(listing.take(i as int) =~= listing);
        Some(total_size)
    }

    /// Create SquashFS file system from each node of Tree.
    ///
    /// This works by recursively creating Inodes and Dirs for each node in the tree. This also
    /// keeps track of parent directories by calling this function on all nodes of a dir to get only
    /// the nodes, but going into the child dirs in the case that it contains a child dir.
    fn write_node<'a>(
        tree: &TreeNode<'a>,
        child: &TreeNode<'a>,
        root_node: &SquashfsPath,
        inode: &mut u32,
        inode_writer: &mut MetadataWriter,
        dir_writer: &mut MetadataWriter,
        data_writer: &mut DataWriter,
        dir_parent_inode: u32,
    ) -> (r: Option<(Vec<Entry>, Vec<(Vec<u8>, &'a Node)>, u64)>)
        requires
            writers_agree(*old(inode_writer), *old(dir_writer), *old(data_writer)),
        ensures
            writers_agree(*final(inode_writer), *final(dir_writer), *final(data_writer)),
            ({
                let written = node_written(
                    progress(*old(inode), *old(inode_writer), *old(dir_writer), *old(data_writer)),
                    child.tree(),
                    directory_header(tree.tree(), root_node@),
                    dir_parent_inode,
                );
                match r {
                    Some((entries, leaves, root_inode)) => written == Some(
                        Written {
                            entries: entry_views(entries@),
                            leaves: leaf_views(leaves@),
                            reference: root_inode,
                            progress: progress(
                                *final(inode),
                                *final(inode_writer),
                                *final(dir_writer),
                                *final(data_writer),
                            ),
                        },
                    ),
                    None => written is None,
                }
            }),
        decreases *child, 1int,
    {
        let ghost header = directory_header(tree.tree(), root_node@);
        let ghost t = child.tree();
        let mut nodes: Vec<(Vec<u8>, &'a Node)> = Vec::new();
        let mut ret_entries: Vec<Entry> = Vec::new();
        proof {
            TreeNode::trees_are_each(child.children@);
        }

        // If no children, just return this entry since it doesn't have anything recursive/new
        // directories
        if child.children.len() == 0 {
            return match child.node {
                Some(node) => {
                    let name: Vec<u8> = copy_of(child.name.as_slice());
                    nodes.push((name, node));
                    assert(leaf_views(nodes@) =~= seq![(t.name, node@)]);
                    assert(entry_views(ret_entries@) =~= Seq::empty());
                    Some((ret_entries, nodes, 0))
                },
                None => None,
            };
        }

        // store parent Inode, this is used for child Dirs, as they will need this to reference
        // back to this
        let parent_inode: u32 = *inode;
        if parent_inode == u32::MAX {
            return None;
        }
        *inode = parent_inode + 1;

        // tree has children, this is a Dir, get information of every child node
        let (mut write_entries, child_dir_nodes) = match Self::write_children(
            tree,
            child,
            root_node,
            inode,
            inode_writer,
            dir_writer,
            data_writer,
            parent_inode,
        ) {
            Some(below) => below,
            None => {
                return None;
            },
        };
        let ghost dir_entries = entry_views(write_entries@);

        // write child inodes
        let mut leaf_entries: Vec<Entry> = match Self::write_leaves(
            &child_dir_nodes,
            inode,
            inode_writer,
            dir_writer,
            data_writer,
            parent_inode,
        ) {
            Some(entries) => entries,
            None => {
                return None;
            },
        };
        let ghost all_entries = dir_entries + entry_views(leaf_entries@);
        write_entries.append(&mut leaf_entries);
        assert(entry_views(write_entries@) =~= all_entries);

        // write dir
        let r = Self::write_directory(
            tree,
            child,
            root_node,
            write_entries,
            inode,
            inode_writer,
            dir_writer,
            data_writer,
            parent_inode,
            dir_parent_inode,
        );
        match r {
            Some(entry) => {
                let root_inode: u64 = entry.start as u64 * 0x1_0000 + entry.offset as u64;
                let ghost e = entry@;
                ret_entries.push(entry);
                assert(entry_views(ret_entries@) =~= seq![e]);
                assert(leaf_views(nodes@) =~= Seq::empty());
                Some((ret_entries, nodes, root_inode))
            },
            None => None,
        }
    }

    /// Writes all places below `child`, which is the directory `parent_inode`. The second component
    /// holds those with nothing below them, which are left to the directory.
    fn write_children<'a>(
        tree: &TreeNode<'a>,
        child: &TreeNode<'a>,
        root_node: &SquashfsPath,
        inode: &mut u32,
        inode_writer: &mut MetadataWriter,
        dir_writer: &mut MetadataWriter,
        data_writer: &mut DataWriter,
        parent_inode: u32,
    ) -> (r: Option<(Vec<Entry>, Vec<(Vec<u8>, &'a Node)>)>)
        requires
            writers_agree(*old(inode_writer), *old(dir_writer), *old(data_writer)),
        ensures
            writers_agree(*final(inode_writer), *final(dir_writer), *final(data_writer)),
            ({
                let written = children_written(
                    progress(*old(inode), *old(inode_writer), *old(dir_writer), *old(data_writer)),
                    child.tree().children,
                    directory_header(tree.tree(), root_node@),
                    parent_inode,
                );
                match r {
                    Some((entries, leaves)) => written == Some(
                        Written {
                            entries: entry_views(entries@),
                            leaves: leaf_views(leaves@),
                            reference: 0,
                            progress: progress(
                                *final(inode),
                                *final(inode_writer),
                                *final(dir_writer),
                                *final(data_writer),
                            ),
                        },
                    ),
                    None => written is None,
                }
            }),
        decreases *child, 0int,
    {
        let ghost header = directory_header(tree.tree(), root_node@);
        let ghost t = child.tree();
        let ghost q = progress(*inode, *inode_writer, *dir_writer, *data_writer);
        proof {
            TreeNode::trees_are_each(child.children@);
        }
        let mut write_entries: Vec<Entry> = Vec::new();
        let mut child_dir_nodes: Vec<(Vec<u8>, &'a Node)> = Vec::new();
        let mut i: usize = 0;
        proof {
            assert(t.children.take(0) =~= Seq::empty());
            assert(entry_views(write_entries@) =~= Seq::empty());
            assert(leaf_views(child_dir_nodes@) =~= Seq::empty());
        }
        while i < child.children.len()
            invariant
                i <= child.children.len(),
                t == child.tree(),
                t.children.len() == child.children.len(),
                forall|j: int|
                    0 <= j < child.children.len() ==> (#[trigger] t.children[j])
                        == child.children@[j].tree(),
                header == directory_header(tree.tree(), root_node@),
                q == progress(*old(inode), *old(inode_writer), *old(dir_writer), *old(data_writer)),
                writers_agree(*inode_writer, *dir_writer, *data_writer),
                children_written(q, t.children.take(i as int), header, parent_inode) == Some(
                    Written {
                        entries: entry_views(write_entries@),
                        leaves: leaf_views(child_dir_nodes@),
                        reference: 0,
                        progress: progress(*inode, *inode_writer, *dir_writer, *data_writer),
                    },
                ),
            decreases child.children.len() - i,
        {
            let ghost known = entry_views(write_entries@);
            let ghost waiting = leaf_views(child_dir_nodes@);
            proof {
                assert(t.children.take(i + 1).drop_last() =~= t.children.take(i as int));
                assert(t.children.take(i + 1).last() == t.children[i as int]);
                assert(decreases_to!(*child => child.children@[i as int]));
            }
            let below = Self::write_node(
                tree,
                &child.children[i],
                root_node,
                inode,
                inode_writer,
                dir_writer,
                data_writer,
                parent_inode,
            );
            match below {
                Some((mut l_dir_entries, mut l_dir_nodes, _)) => {
                    let ghost e = entry_views(l_dir_entries@);
                    let ghost l = leaf_views(l_dir_nodes@);
                    write_entries.append(&mut l_dir_entries);
                    child_dir_nodes.append(&mut l_dir_nodes);
                    assert(entry_views(write_entries@) =~= known + e);
                    assert(leaf_views(child_dir_nodes@) =~= waiting + l);
                },
                None => {
                    proof {
                        children_stay_unwritten(q, t.children, i + 1, header, parent_inode);
                    }
                    return None;
                },
            }
            i += 1;
        }
        assert(t.children.take(i as int) =~= t.children);
        Some((write_entries, child_dir_nodes))
    }

    /// Writes nodes with nothing below them, which are in the directory `parent_inode`.
    fn write_leaves(
        nodes: &Vec<(Vec<u8>, &Node)>,
        inode: &mut u32,
        inode_writer: &mut MetadataWriter,
        dir_writer: &MetadataWriter,
        data_writer: &mut DataWriter,
        parent_inode: u32,
    ) -> (r: Option<Vec<Entry>>)
        requires
            writers_agree(*old(inode_writer), *dir_writer, *old(data_writer)),
        ensures
            writers_agree(*final(inode_writer), *dir_writer, *final(data_writer)),
            ({
                let written = leaves_written(
                    progress(*old(inode), *old(inode_writer), *dir_writer, *old(data_writer)),
                    leaf_views(nodes@),
                    parent_inode,
                );
                match r {
                    Some(entries) => written == Some(
                        (
                            entry_views(entries@),
                            progress(*final(inode), *final(inode_writer), *dir_writer, *final(data_writer)),
                        ),
                    ),
                    None => written is None,
                }
            }),
    {
        let ghost leaves = leaf_views(nodes@);
        let ghost q = progress(*inode, *inode_writer, *dir_writer, *data_writer);
        let mut entries: Vec<Entry> = Vec::new();
        let mut k: usize = 0;
        proof {
            assert(leaves.take(0) =~= Seq::empty());
            assert(entry_views(entries@) =~= Seq::empty());
        }
        while k < nodes.len()
            invariant
                k <= nodes.len(),
                leaves == leaf_views(nodes@),
                q == progress(*old(inode), *old(inode_writer), *dir_writer, *old(data_writer)),
                writers_agree(*inode_writer, *dir_writer, *data_writer),
                leaves_written(q, leaves.take(k as int), parent_inode) == Some(
                    (
                        entry_views(entries@),
                        progress(*inode, *inode_writer, *dir_writer, *data_writer),
                    ),
                ),
            decreases nodes.len() - k,
        {
            let name: Vec<u8> = copy_of(nodes[k].0.as_slice());
            proof {
                assert(leaves[k as int] == (name@, nodes@[k as int].1@));
                assert(leaves.take(k + 1).drop_last() =~= leaves.take(k as int));
                assert(leaves.take(k + 1).last() == leaves[k as int]);
            }
            let ghost known = entry_views(entries@);
            match Self::write_leaf(
                name,
                nodes[k].1,
                inode,
                inode_writer,
                dir_writer,
                data_writer,
                parent_inode,
            ) {
                Some(entry) => {
                    entries.push(entry);
                    assert(entry_views(entries@) =~= known.push(entry@));
                },
                None => {
                    proof {
                        leaves_stay_unwritten(q, leaves, k + 1, parent_inode);
                    }
                    return None;
                },
            }
            k += 1;
        }
        assert(leaves.take(k as int) =~= leaves);
        Some(entries)
    }

    /// Writes the listing and the inode of `child`, which is the directory `parent_inode`.
    fn write_directory(
        tree: &TreeNode,
        child: &TreeNode,
        root_node: &SquashfsPath,
        write_entries: Vec<Entry>,
        inode: &u32,
        inode_writer: &mut MetadataWriter,
        dir_writer: &mut MetadataWriter,
        data_writer: &DataWriter,
        parent_inode: u32,
        dir_parent_inode: u32,
    ) -> (r: Option<Entry>)
        requires
            writers_agree(*old(inode_writer), *old(dir_writer), *data_writer),
        ensures
            writers_agree(*final(inode_writer), *final(dir_writer), *data_writer),
            ({
                let written = directory_written(
                    progress(*inode, *old(inode_writer), *old(dir_writer), *data_writer),
                    child.tree().name,
                    entry_views(write_entries@),
                    directory_header(tree.tree(), root_node@),
                    parent_inode,
                    dir_parent_inode,
                );
                match r {
                    Some(entry) => written == Some(
                        (entry@, progress(*inode, *final(inode_writer), *final(dir_writer), *data_writer)),
                    ),
                    None => written is None,
                }
            }),
    {
        proof {
            reveal(directory_written);
        }
        let ghost listing = runs(by_name(entry_views(write_entries@)));
        let ghost r = progress(*inode, *inode_writer, *dir_writer, *data_writer);
        let block_index: u32 = dir_writer.metadata_start();
        let block_offset: u16 = dir_writer.uncompressed_len();
        let file_size: u16 = match Self::write_listing(write_entries, dir_writer) {
            Some(size) => size,
            None => {
                assert(listed(r, listing) is None);
                return None;
            },
        };
        assert(listed(r, listing) is Some);

        let path_header: FilesystemHeader = match tree.node {
            Some(node) => {
                if !node.is_path() {
                    return None;
                }
                node.expect_path().header
            },
            None => root_node.header,
        };

        // write parent_inode
        let dir_inode: Inode = Inode {
            id: InodeId::BasicDirectory,
            header: path_header.numbered(parent_inode),
            inner: InodeInner::BasicDirectory(
                BasicDirectory {
                    block_index,
                    link_count: 2,
                    file_size,
                    block_offset,
                    parent_inode: dir_parent_inode,
                },
            ),
        };
        let name: Vec<u8> = copy_of(child.name.as_slice());
        Self::enter(dir_inode, name, inode_writer)
    }

    /// Convert into bytes that can be stored on disk and used as a read-only
    /// filesystem. This generates the Superblock with the correct fields from `Filesystem`, and
    /// the data after that contains the nodes.
    pub fn to_bytes(&self) -> (r: Result<Vec<u8>, SquashfsError>)
        ensures
            match r {
                Ok(bytes) => self.compressor.writes() && image(self@) == Some(bytes@),
                Err(SquashfsError::UnsupportedCompression(compressor)) => {
                    !self.compressor.writes() && compressor == self.compressor
                },
                Err(SquashfsError::Unrepresentable) => {
                    self.compressor.writes() && image(self@) is None
                },
            },
    {
        if !self.compressor.can_write() {
            return Err(SquashfsError::UnsupportedCompression(self.compressor));
        }
        let mut superblock: SuperBlock = SuperBlock::new(self.compressor);
        let tree: TreeNode = TreeNode::from_nodes(&self.nodes);

        let mut data_writer: DataWriter = DataWriter::new(
            self.compressor,
            SUPERBLOCK_SIZE as u32,
            self.block_size,
        );
        let mut inode_writer: MetadataWriter = MetadataWriter::new(self.compressor);
        let mut dir_writer: MetadataWriter = MetadataWriter::new(self.compressor);

        // Creating Inodes and Dirs
        let mut inode: u32 = 1;
        let root_inode: u64 = match Self::write_node(
            &tree,
            &tree,
            &self.root_inode,
            &mut inode,
            &mut inode_writer,
            &mut dir_writer,
            &mut data_writer,
            0,
        ) {
            Some((_, _, root_inode)) => root_inode,
            None => {
                return Err(SquashfsError::Unrepresentable);
            },
        };
        let ghost written = all_written(self@).unwrap();
        proof {
            let t = tree_of(self@.nodes);
            node_grows(beginning(self@), t, directory_header(t, self@.root_inode), 0);
            growing_keeps_parameters(beginning(self@).data, written.progress.data);
        }
        if !data_writer.finalize() {
            return Err(SquashfsError::Unrepresentable);
        }
        let ghost data = written.progress.data.flushed().unwrap();

        superblock.root_inode = root_inode;
        superblock.inode_count = inode;
        superblock.block_size = self.block_size;
        superblock.block_log = self.block_log;

        // Empty Squashfs
        let mut c: Vec<u8> = Self::zeros(SUPERBLOCK_SIZE);

        // Writing Data
        push_all(&mut c, data_writer.data_bytes.as_slice());

        // Writing Inodes
        superblock.inode_table = c.len() as u64;
        let inodes: Vec<u8> = inode_writer.finalize();
        push_all(&mut c, inodes.as_slice());

        // Writing Dirs
        superblock.dir_table = c.len() as u64;
        let dirs: Vec<u8> = dir_writer.finalize();
        push_all(&mut c, dirs.as_slice());
        proof {
            let d = main_sections(self@, written, data);
            assert(data_writer@ == data);
            assert(inode_writer@ == written.progress.inodes);
            assert(dir_writer@ == written.progress.dirs);
            assert(c@ == d.bytes);
            assert(superblock == d.superblock);
        }

        Self::write_frag_table(&mut c, &data_writer.fragment_table, &mut superblock);
        Self::write_id_table(&mut c, &self.id_table, &mut superblock);

        // The padded length is counted in 32 bits
        if c.len() as u64 % 0x1_0000_0000 >= 0xffff_f000 {
            return Err(SquashfsError::Unrepresentable);
        }
        Self::finalize(&mut c, &mut superblock);
        Ok(c)
    }

    /// `n` zero bytes.
    fn zeros(n: usize) -> (r: Vec<u8>)
        ensures
            r@ == zeros(n as nat),
    {
        let mut r: Vec<u8> = Vec::new();
        let mut i: usize = 0;
        while i < n
            invariant
                i <= n,
                r@ == zeros(i as nat),
            decreases n - i,
        {
            r.push(0);
            i += 1;
            assert(r@ =~= zeros(i as nat));
        }
        r
    }

    /// Pads the image `w` out to whole blocks of 4096 bytes, and puts the superblock at its front.
    pub fn finalize(w: &mut Vec<u8>, superblock: &mut SuperBlock)
        requires
            can_pad(old(w)@.len()),
        ensures
            (Draft { bytes: final(w)@, superblock: *final(superblock) }) == finished(
                Draft { bytes: old(w)@, superblock: *old(superblock) },
            ),
    {
        // Pad out block_size
        superblock.bytes_used = w.len() as u64;
        let used: u32 = (w.len() as u64 % 0x1_0000_0000) as u32;
        let blocks_used: u32 = used / 0x1000;
        let pad_len: u32 = (blocks_used + 1) * 0x1000 - used;
        let pad: Vec<u8> = Self::zeros(pad_len as usize);
        assert(pad_len == padding(w@.len()));
        push_all(w, pad.as_slice());

        // Write the superblock over the beginning
        let ghost padded = w@;
        let front: Vec<u8> = superblock.to_bytes();
        let mut i: usize = 0;
        while i < SUPERBLOCK_SIZE
            invariant
                i <= SUPERBLOCK_SIZE == front.len(),
                w.len() == padded.len(),
                SUPERBLOCK_SIZE <= padded.len(),
                forall|j: int| 0 <= j < i ==> w@[j] == front@[j],
                forall|j: int| i <= j < padded.len() ==> w@[j] == padded[j],
            decreases SUPERBLOCK_SIZE - i,
        {
            w.set(i, front[i]);
            i += 1;
        }
        assert(w@ =~= front@ + padded.skip(SUPERBLOCK_SIZE as int));
    }

    /// Appends a table of `bytes`, and returns where it ends: where the reference to it stands.
    fn write_table(w: &mut Vec<u8>, bytes: &Vec<u8>) -> (r: u64)
        ensures
            final(w)@ == old(w)@ + table_section(bytes@, old(w)@.len()),
            r == old(w)@.len() + 2 + bytes@.len(),
    {
        let ghost before = w@;
        let table_dat: u64 = w.len() as u64;
        push_u16(w, set_if_uncompressed((bytes.len() % 0x1_0000) as u16));
        push_all(w, bytes.as_slice());
        let table: u64 = w.len() as u64;
        push_u64(w, table_dat);
        assert(w@ =~= before + table_section(bytes@, before.len()));
        table
    }

    /// Appends the id table to the image `w`, if there is one.
    pub fn write_id_table(
        w: &mut Vec<u8>,
        id_table: &Option<Vec<Id>>,
        write_superblock: &mut SuperBlock,
    )
        ensures
            (Draft { bytes: final(w)@, superblock: *final(write_superblock) }) == with_ids(
                Draft { bytes: old(w)@, superblock: *old(write_superblock) },
                match *id_table {
                    Some(ids) => Some(ids@),
                    None => None,
                },
            ),
    {
        if let Some(id) = id_table {
            let mut bytes: Vec<u8> = Vec::new();
            let mut i: usize = 0;
            assert(id@.take(0) =~= Seq::empty());
            while i < id.len()
                invariant
                    i <= id.len(),
                    bytes@ == id_records(id@.take(i as int)),
                decreases id.len() - i,
            {
                let record: Vec<u8> = id[i].to_bytes();
                push_all(&mut bytes, record.as_slice());
                assert(id@.take(i + 1).drop_last() =~= id@.take(i as int));
                i += 1;
            }
            assert(id@.take(i as int) =~= id@);
            write_superblock.id_table = Self::write_table(w, &bytes);
            write_superblock.id_count = (id.len() % 0x1_0000) as u16;
        }
    }

    /// Appends the fragment table to the image `w`.
    pub fn write_frag_table(
        w: &mut Vec<u8>,
        frag_table: &Vec<Fragment>,
        write_superblock: &mut SuperBlock,
    )
        ensures
            (Draft { bytes: final(w)@, superblock: *final(write_superblock) }) == with_fragments(
                Draft { bytes: old(w)@, superblock: *old(write_superblock) },
                frag_table@,
            ),
    {
        let mut bytes: Vec<u8> = Vec::new();
        let mut i: usize = 0;
        assert(frag_table@.take(0) =~= Seq::empty());
        while i < frag_table.len()
            invariant
                i <= frag_table.len(),
                bytes@ == fragment_records(frag_table@.take(i as int)),
            decreases frag_table.len() - i,
        {
            let record: Vec<u8> = frag_table[i].to_bytes();
            push_all(&mut bytes, record.as_slice());
            assert(frag_table@.take(i + 1).drop_last() =~= frag_table@.take(i as int));
            i += 1;
        }
        assert(frag_table@.take(i as int) =~= frag_table@);
        write_superblock.frag_table = Self::write_table(w, &bytes);
        write_superblock.frag_count = (frag_table.len() as u64 % 0x1_0000_0000) as u32;
    }
}

} // verus!
