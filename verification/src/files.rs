//! What stands on disk where a file is looked for.

use vstd::prelude::*;

verus! {

/// A file as it is found: there is none, there is one that cannot be read, with
/// the reason, or it holds these bytes.
#[derive(Debug)]
pub enum FileContent {
    Missing,
    Unreadable(String),
    Bytes(Vec<u8>),
}

/// What is said of a file as it is found.
pub ghost enum ContentView {
    Missing,
    Unreadable(Seq<char>),
    Bytes(Seq<u8>),
}

impl View for FileContent {
    type V = ContentView;

    open spec fn view(&self) -> ContentView {
        match self {
            FileContent::Missing => ContentView::Missing,
            FileContent::Unreadable(why) => ContentView::Unreadable(why@),
            FileContent::Bytes(data) => ContentView::Bytes(data@),
        }
    }
}

impl ContentView {
    /// What the file holds, where it could be read.
    pub open spec fn bytes(self) -> Option<Seq<u8>> {
        match self {
            ContentView::Bytes(data) => Some(data),
            _ => None,
        }
    }
}

impl FileContent {
    /// What the file holds, where it could be read.
    pub fn bytes(&self) -> (r: Option<&Vec<u8>>)
        ensures
            match r {
                Some(data) => self@.bytes() == Some(data@),
                None => self@.bytes() is None,
            },
    {
        match self {
            FileContent::Bytes(data) => Some(data),
            _ => None,
        }
    }
}

} // verus!
