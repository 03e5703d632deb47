use crate::digest::hex_of;
use crate::object::{kind_name, Kind};
use crate::tree::{mode_bytes, EntryView, Mode, TreeEntry};
use vstd::prelude::*;

verus! {

/// Creates an empty store in the current directory.
pub struct Init;

/// Prints the payload of a stored blob.
pub struct CatFile {
    pub object_hash: String,
    pub pretty_print: bool,
}

/// Stores a file as a blob, or only prints its identifier.
pub struct HashObject {
    pub file: String,
    pub write: bool,
}

/// Lists the entries of a stored tree.
pub struct LsTree {
    pub object_hash: String,
    pub name_only: bool,
}

/// Stores the working directory as a tree and prints its identifier.
pub struct WriteTree;

/// Stores a commit of a tree and prints its identifier.
pub struct CommitTree {
    pub tree_sha: String,
    pub parent_commit: Option<String>,
    pub message: String,
}

/// Fetches a remote repository's advertisement.
pub struct Clone {
    pub url: String,
    pub path: Option<String>,
}

/// A subcommand and its arguments.
pub enum Command {
    Init(Init),
    CatFile(CatFile),
    HashObject(HashObject),
    LsTree(LsTree),
    WriteTree(WriteTree),
    CommitTree(CommitTree),
    Clone(Clone),
}

/// A mode as listed: padded with zeros to six digits.
pub open spec fn listed_mode(m: Mode) -> Seq<u8> {
    if mode_bytes(m).len() == 5 {
        seq![48u8] + mode_bytes(m)
    } else {
        mode_bytes(m)
    }
}

/// One line of a tree listing: the name alone, or the padded mode, the
/// child's kind, its hex identifier padded to 44 columns, and the name.
pub open spec fn listing_line(e: EntryView, k: Kind, name_only: bool) -> Seq<u8> {
    if name_only {
        e.name + seq![10u8]
    } else {
        listed_mode(e.mode) + seq![32u8] + kind_name(k) + seq![32u8] + hex_of(e.hash) + seq![
            32u8,
            32,
            32,
            32,
            32,
        ] + e.name + seq![10u8]
    }
}

impl LsTree {
    /// The listing line of entry `e`, whose object is of kind `kind`.
    pub fn line(&self, e: &TreeEntry, kind: Kind) -> (r: Vec<u8>)
        ensures
            r@ == listing_line(e@, kind, self.name_only),
    {
        let mut out: Vec<u8> = Vec::new();
        if self.name_only {
            out.extend_from_slice(e.name.as_slice());
            out.push(10u8);
            assert(out@ =~= listing_line(e@, kind, self.name_only));
            return out;
        }
        let m = e.mode.digits();
        if m.len() == 5 {
            out.push(48u8);
        }
        out.extend_from_slice(m.as_slice());
        out.push(32u8);
        let k = kind.name();
        out.extend_from_slice(k.as_slice());
        out.push(32u8);
        let h = crate::digest::hex_encode(e.hash.as_slice());
        out.extend_from_slice(h.as_slice());
        out.extend_from_slice(&[32u8, 32, 32, 32, 32]);
        out.extend_from_slice(e.name.as_slice());
        out.push(10u8);
        assert(out@ =~= listing_line(e@, kind, self.name_only));
        out
    }
}

impl WriteTree {
    /// The names left out of the tree at the top of the working directory:
    /// the store's own directory `.git` and the build output `target`.
    pub fn ignored_names() -> (r: Vec<Vec<u8>>)
        ensures
            r@.len() == 2,
            r@[0]@ == seq![46u8, 103, 105, 116],
            r@[1]@ == seq![116u8, 97, 114, 103, 101, 116],
    {
        let git = vec![46u8, 103, 105, 116];
        let target = vec![116u8, 97, 114, 103, 101, 116];
        assert(git@ =~= seq![46u8, 103, 105, 116]);
        assert(target@ =~= seq![116u8, 97, 114, 103, 101, 116]);
        let mut r: Vec<Vec<u8>> = Vec::new();
        r.push(git);
        r.push(target);
        r
    }
}

} // verus!
