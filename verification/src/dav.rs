use vstd::prelude::*;

verus! {

/// A directory entry of a listing.
#[derive(Debug)]
pub struct Folder {
    pub name: String,
    pub path: String,
}

/// A file entry of a listing, with its size in bytes.
#[derive(Debug)]
pub struct File {
    pub name: String,
    pub path: String,
    pub size: u64,
}

/// One entry of a listing: a folder or a file.
#[derive(Debug)]
pub enum DavItem {
    Folder(Folder),
    File(File),
}

impl DavItem {
    /// The entry's name, whichever kind it is.
    pub fn name(&self) -> (r: &String)
        ensures
            match self {
                DavItem::Folder(f) => r@ == f.name@,
                DavItem::File(f) => r@ == f.name@,
            },
    {
        match self {
            DavItem::Folder(f) => &f.name,
            DavItem::File(f) => &f.name,
        }
    }

    /// Whether the entry is a folder.
    pub fn is_folder(&self) -> (r: bool)
        ensures
            r == (self is Folder),
    {
        match self {
            DavItem::Folder(_) => true,
            DavItem::File(_) => false,
        }
    }
}

} // verus!
