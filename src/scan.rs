use vstd::prelude::*;

use crate::classify::{classify_path, view_opt, Analyzer, MediaData, MediaView};

verus! {

/// A regular file: its path and the identifier of its data on the device.
#[derive(Debug, PartialEq, Eq)]
pub struct FileEntry {
    pub path: String,
    pub inode: u64,
}

impl View for FileEntry {
    type V = (Seq<char>, u64);

    open spec fn view(&self) -> (Seq<char>, u64) {
        (self.path@, self.inode)
    }
}

/// A directory tree as read from disk, children in listing order.
pub enum Entry {
    File(FileEntry),
    Dir { path: String, children: Vec<Entry> },
}

/// The files under `e`, depth first, in listing order.
pub open spec fn files_of(e: Entry) -> Seq<(Seq<char>, u64)>
    decreases e,
{
    match e {
        Entry::File(f) => seq![f@],
        Entry::Dir { path, children } => files_in(children@),
    }
}

pub open spec fn files_in(cs: Seq<Entry>) -> Seq<(Seq<char>, u64)>
    decreases cs,
{
    if cs.len() == 0 {
        Seq::empty()
    } else {
        files_in(cs.drop_last()) + files_of(cs.last())
    }
}

/// Appends the files under `path` to `output`.
pub fn find_all_files_aux(path: &Entry, output: &mut Vec<FileEntry>)
    ensures
        final(output)@.map_values(|f: FileEntry| f@) == old(output)@.map_values(|f: FileEntry| f@)
            + files_of(*path),
    decreases path,
{
    match path {
        Entry::File(f) => {
            output.push(FileEntry { path: f.path.clone(), inode: f.inode });
            assert(final(output)@.map_values(|f: FileEntry| f@) =~= old(output)@.map_values(
                |f: FileEntry| f@,
            ) + files_of(*path));
        },
        Entry::Dir { path: _, children } => {
            let mut k: usize = 0;
            assert(children@.subrange(0, 0) =~= Seq::<Entry>::empty());
            assert(output@.map_values(|f: FileEntry| f@) =~= old(output)@.map_values(
                |f: FileEntry| f@,
            ) + files_in(children@.subrange(0, 0)));
            while k < children.len()
                invariant
                    k <= children.len(),
                    path is Dir && path->Dir_children == *children,
                    output@.map_values(|f: FileEntry| f@) == old(output)@.map_values(
                        |f: FileEntry| f@,
                    ) + files_in(children@.subrange(0, k as int)),
                decreases children.len() - k,
            {
                let ghost before = output@.map_values(|f: FileEntry| f@);
                proof {
                    broadcast use vstd::std_specs::vec::axiom_vec_index_decreases;
                    assert(decreases_to!(*children => children@[k as int]));
                    assert(decreases_to!(*path => path->Dir_children));
                    assert(decreases_to!(*path => children@[k as int]));
                }
                find_all_files_aux(&children[k], output);
                assert(children@.subrange(0, k + 1).drop_last() =~= children@.subrange(
                    0,
                    k as int,
                ));
                k = k + 1;
                assert(output@.map_values(|f: FileEntry| f@) =~= old(output)@.map_values(
                    |f: FileEntry| f@,
                ) + files_in(children@.subrange(0, k as int)));
            }
            assert(children@.subrange(0, k as int) =~= children@);
        },
    }
}

/// The files under `path`, depth first.
pub fn find_all_files(path: &Entry) -> (r: Vec<FileEntry>)
    ensures
        r@.map_values(|f: FileEntry| f@) == files_of(*path),
{
    let mut files: Vec<FileEntry> = Vec::new();
    find_all_files_aux(path, &mut files);
    assert(files@.map_values(|f: FileEntry| f@) =~= files_of(*path));
    files
}


/// A file of the source tree: its path, what it was recognised as (`None`
/// where its kind is unknown), and its inode.
#[derive(Debug)]
pub struct ScannedFile {
    pub path: String,
    pub metadata: Option<MediaData>,
    pub inode: u64,
}

/// `ScannedFile` as plain values.
pub struct ScannedView {
    pub path: Seq<char>,
    pub media: Option<MediaView>,
    pub inode: u64,
}

impl View for ScannedFile {
    type V = ScannedView;

    open spec fn view(&self) -> ScannedView {
        ScannedView { path: self.path@, media: view_opt(self.metadata), inode: self.inode }
    }
}

pub open spec fn views(fs: Seq<ScannedFile>) -> Seq<ScannedView> {
    fs.map_values(|f: ScannedFile| f@)
}

impl Analyzer {
    /// Every file under `path`, in scan order, with what it is recognised as.
    pub fn analyze_directory(&self, path: &Entry) -> (r: Vec<ScannedFile>)
        ensures
            r.len() == files_of(*path).len(),
            forall|i: int|
                0 <= i < r.len() ==> (#[trigger] r@[i])@ == (ScannedView {
                    path: files_of(*path)[i].0,
                    media: classify_path(files_of(*path)[i].0),
                    inode: files_of(*path)[i].1,
                }),
    {
        let found = find_all_files(path);
        let ghost fv = found@.map_values(|f: FileEntry| f@);
        let mut out: Vec<ScannedFile> = Vec::new();
        let mut k: usize = 0;
        while k < found.len()
            invariant
                k <= found.len(),
                out.len() == k,
                fv == files_of(*path),
                fv == found@.map_values(|f: FileEntry| f@),
                forall|i: int|
                    0 <= i < k ==> (#[trigger] out@[i])@ == (ScannedView {
                        path: fv[i].0,
                        media: classify_path(fv[i].0),
                        inode: fv[i].1,
                    }),
            decreases found.len() - k,
        {
            let f = &found[k];
            assert(fv[k as int] == f@);
            out.push(
                ScannedFile {
                    path: f.path.clone(),
                    metadata: self.analyze(f.path.as_str()),
                    inode: f.inode,
                },
            );
            k = k + 1;
        }
        out
    }
}

} // verus!
