//! The nodes of a filesystem: files, symbolic links and directories.

use vstd::prelude::*;
use crate::bytes::copy_of;
use crate::inode::InodeHeader;
use crate::path::UnixPath;

verus! {

/// The metadata of a node.
#[derive(Debug, PartialEq, Eq, Clone, Copy, Structural)]
pub struct FilesystemHeader {
    pub permissions: u16,
    pub uid: u16,
    pub gid: u16,
    pub mtime: u32,
}

impl Default for FilesystemHeader {
    /// All zero.
    fn default() -> (r: Self)
        ensures
            r == (FilesystemHeader { permissions: 0, uid: 0, gid: 0, mtime: 0 }),
    {
        FilesystemHeader { permissions: 0, uid: 0, gid: 0, mtime: 0 }
    }
}

impl vstd::std_specs::convert::FromSpecImpl<InodeHeader> for FilesystemHeader {
    open spec fn obeys_from_spec() -> bool {
        true
    }

    open spec fn from_spec(inode_header: InodeHeader) -> Self {
        FilesystemHeader {
            permissions: inode_header.permissions,
            uid: inode_header.uid,
            gid: inode_header.gid,
            mtime: inode_header.mtime,
        }
    }
}

impl From<InodeHeader> for FilesystemHeader {
    /// What the header of an inode holds besides the number of the inode.
    fn from(inode_header: InodeHeader) -> (r: Self) {
        FilesystemHeader {
            permissions: inode_header.permissions,
            uid: inode_header.uid,
            gid: inode_header.gid,
            mtime: inode_header.mtime,
        }
    }
}

impl FilesystemHeader {
    /// The header of the inode `inode_number` with this metadata.
    pub open spec fn spec_numbered(self, inode_number: u32) -> InodeHeader {
        InodeHeader {
            permissions: self.permissions,
            uid: self.uid,
            gid: self.gid,
            mtime: self.mtime,
            inode_number,
        }
    }

    /// The header of the inode `inode_number` with this metadata.
    pub fn numbered(self, inode_number: u32) -> (r: InodeHeader)
        ensures
            r == self.spec_numbered(inode_number),
    {
        InodeHeader {
            permissions: self.permissions,
            uid: self.uid,
            gid: self.gid,
            mtime: self.mtime,
            inode_number,
        }
    }
}

/// The metadata that an inode header was made of is read back from it.
pub proof fn header_round_trip(header: FilesystemHeader, inode_number: u32)
    ensures
        <FilesystemHeader as vstd::std_specs::convert::FromSpec<InodeHeader>>::from_spec(
            header.spec_numbered(inode_number),
        ) == header,
{
}

/// A file with its contents.
#[derive(PartialEq, Eq)]
pub struct SquashfsFile {
    pub header: FilesystemHeader,
    pub path: UnixPath,
    pub bytes: Vec<u8>,
}

/// A symbolic link: its name and what it links to.
#[derive(Debug, PartialEq, Eq)]
pub struct SquashfsSymlink {
    pub header: FilesystemHeader,
    pub path: UnixPath,
    pub original: String,
    pub link: String,
}

/// A directory.
#[derive(Debug, PartialEq, Eq)]
pub struct SquashfsPath {
    pub header: FilesystemHeader,
    pub path: UnixPath,
}

/// Nodes that are converted into filesystem tree during writing to bytes.
#[derive(PartialEq, Eq)]
pub enum Node {
    File(SquashfsFile),
    Symlink(SquashfsSymlink),
    Path(SquashfsPath),
}

/// A file with its contents.
#[verifier::ext_equal]
pub struct FileView {
    pub header: FilesystemHeader,
    pub path: Seq<u8>,
    pub bytes: Seq<u8>,
}

/// A symbolic link: its name and what it links to.
#[verifier::ext_equal]
pub struct SymlinkView {
    pub header: FilesystemHeader,
    pub path: Seq<u8>,
    pub original: Seq<char>,
    pub link: Seq<char>,
}

/// A directory.
#[verifier::ext_equal]
pub struct PathView {
    pub header: FilesystemHeader,
    pub path: Seq<u8>,
}

/// A file, a symbolic link or a directory.
#[verifier::ext_equal]
pub enum NodeView {
    File(FileView),
    Symlink(SymlinkView),
    Path(PathView),
}

impl View for SquashfsFile {
    type V = FileView;

    open spec fn view(&self) -> FileView {
        FileView { header: self.header, path: self.path@, bytes: self.bytes@ }
    }
}

impl View for SquashfsSymlink {
    type V = SymlinkView;

    open spec fn view(&self) -> SymlinkView {
        SymlinkView {
            header: self.header,
            path: self.path@,
            original: self.original@,
            link: self.link@,
        }
    }
}

impl View for SquashfsPath {
    type V = PathView;

    open spec fn view(&self) -> PathView {
        PathView { header: self.header, path: self.path@ }
    }
}

impl View for Node {
    type V = NodeView;

    open spec fn view(&self) -> NodeView {
        match self {
            Node::File(file) => NodeView::File(file@),
            Node::Symlink(symlink) => NodeView::Symlink(symlink@),
            Node::Path(path) => NodeView::Path(path@),
        }
    }
}

impl Clone for SquashfsFile {
    /// The same file.
    fn clone(&self) -> (r: Self)
        ensures
            r@ == self@,
    {
        SquashfsFile {
            header: self.header,
            path: self.path.clone(),
            bytes: copy_of(self.bytes.as_slice()),
        }
    }
}

impl Clone for SquashfsSymlink {
    /// The same symbolic link.
    fn clone(&self) -> (r: Self)
        ensures
            r@ == self@,
    {
        SquashfsSymlink {
            header: self.header,
            path: self.path.clone(),
            original: self.original.clone(),
            link: self.link.clone(),
        }
    }
}

impl Clone for SquashfsPath {
    /// The same directory.
    fn clone(&self) -> (r: Self)
        ensures
            r@ == self@,
    {
        SquashfsPath { header: self.header, path: self.path.clone() }
    }
}

impl Clone for Node {
    /// The same node.
    fn clone(&self) -> (r: Self)
        ensures
            r@ == self@,
    {
        match self {
            Node::File(file) => Node::File(file.clone()),
            Node::Symlink(symlink) => Node::Symlink(symlink.clone()),
            Node::Path(path) => Node::Path(path.clone()),
        }
    }
}

impl NodeView {
    /// The path of the node.
    pub open spec fn path(self) -> Seq<u8> {
        match self {
            NodeView::File(file) => file.path,
            NodeView::Symlink(symlink) => symlink.path,
            NodeView::Path(path) => path.path,
        }
    }
}

/// The views of several nodes.
pub open spec fn node_views(nodes: Seq<Node>) -> Seq<NodeView> {
    nodes.map_values(|n: Node| n@)
}

impl Node {
    /// The directory that this node is.
    pub fn expect_path(&self) -> (r: &SquashfsPath)
        requires
            *self is Path,
        ensures
            *r == self->Path_0,
    {
        match self {
            Node::Path(path) => path,
            _ => vstd::pervasive::unreached(),
        }
    }

    /// Whether the node is a file.
    pub fn is_file(&self) -> (r: bool)
        ensures
            r == (*self is File),
    {
        matches!(self, Node::File(_))
    }

    /// Whether the node is a symbolic link.
    pub fn is_symlink(&self) -> (r: bool)
        ensures
            r == (*self is Symlink),
    {
        matches!(self, Node::Symlink(_))
    }

    /// Whether the node is a directory.
    pub fn is_path(&self) -> (r: bool)
        ensures
            r == (*self is Path),
    {
        matches!(self, Node::Path(_))
    }

    /// The path of the node.
    pub fn path(&self) -> (r: &UnixPath)
        ensures
            r@ == self@.path(),
    {
        match self {
            Node::File(file) => &file.path,
            Node::Symlink(symlink) => &symlink.path,
            Node::Path(path) => &path.path,
        }
    }
}

/// The metadata of a node is that of its inode, field by field, and so the other way round.
pub proof fn header_keeps_fields(inode_header: InodeHeader, header: FilesystemHeader, inode_number: u32)
    ensures
        ({
            let read = <FilesystemHeader as vstd::std_specs::convert::FromSpec<InodeHeader>>::from_spec(
                inode_header,
            );
            &&& <FilesystemHeader as vstd::std_specs::convert::FromSpec<InodeHeader>>::obeys_from_spec()
            &&& read.permissions == inode_header.permissions
            &&& read.uid == inode_header.uid
            &&& read.gid == inode_header.gid
            &&& read.mtime == inode_header.mtime
        }),
        header.spec_numbered(inode_number).permissions == header.permissions,
        header.spec_numbered(inode_number).uid == header.uid,
        header.spec_numbered(inode_number).gid == header.gid,
        header.spec_numbered(inode_number).mtime == header.mtime,
        header.spec_numbered(inode_number).inode_number == inode_number,
{
}

/// What is said of nodes is said of what they hold.
pub proof fn views_are_of_fields(
    file: SquashfsFile,
    symlink: SquashfsSymlink,
    path: SquashfsPath,
    nodes: Seq<Node>,
    i: int,
)
    requires
        0 <= i < nodes.len(),
    ensures
        file@.header == file.header,
        file@.path == file.path.bytes@,
        file@.bytes == file.bytes@,
        symlink@.header == symlink.header,
        symlink@.path == symlink.path.bytes@,
        symlink@.original == symlink.original@,
        symlink@.link == symlink.link@,
        path@.header == path.header,
        path@.path == path.path.bytes@,
        Node::File(file)@ == NodeView::File(file@),
        Node::Symlink(symlink)@ == NodeView::Symlink(symlink@),
        Node::Path(path)@ == NodeView::Path(path@),
        NodeView::File(file@).path() == file.path.bytes@,
        NodeView::Symlink(symlink@).path() == symlink.path.bytes@,
        NodeView::Path(path@).path() == path.path.bytes@,
        node_views(nodes).len() == nodes.len(),
        node_views(nodes)[i] == nodes[i]@,
{
}

} // verus!
