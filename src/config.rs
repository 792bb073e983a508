use vstd::prelude::*;

verus! {

/// A remote file of the layout: its name, the URL its bytes come from, and its size.
pub struct URLFile {
    pub name: String,
    pub url: String,
    pub size: usize,
}

/// A directory of the layout, with its entries in declared order.
pub struct Directory {
    pub name: String,
    pub contents: Vec<InputFile>,
}

/// One entry of the layout: a remote file or a directory.
pub enum InputFile {
    URLFile(URLFile),
    Directory(Directory),
}

impl URLFile {
    pub fn new(name: String, url: String, size: usize) -> (r: URLFile)
        ensures
            r.name@ == name@,
            r.url@ == url@,
            r.size == size,
    {
        URLFile { name, url, size }
    }
}

impl Directory {
    pub fn new(name: String, contents: Vec<InputFile>) -> (r: Directory)
        ensures
            r.name@ == name@,
            r.contents@ == contents@,
    {
        Directory { name, contents }
    }
}

impl InputFile {
    /// The name of the entry, in the abstract.
    pub open spec fn spec_name(&self) -> Seq<char> {
        match self {
            InputFile::URLFile(f) => f.name@,
            InputFile::Directory(d) => d.name@,
        }
    }

    pub fn name(&self) -> (r: &str)
        ensures
            r@ == self.spec_name(),
    {
        match self {
            InputFile::URLFile(urlfile) => urlfile.name.as_str(),
            InputFile::Directory(directory) => directory.name.as_str(),
        }
    }
}

} // verus!
