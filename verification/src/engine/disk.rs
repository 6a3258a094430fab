//! A model of the disk: the log file, the manifest file and the files of
//! the table directory, with what each disk operation does to them.

use crate::engine::{DiskOp, DiskOpView, op_views};
use crate::engine::naming::{is_table_name, table_name_check};
use crate::manifest::same_text;
use vstd::prelude::*;

verus! {

/// A file of the table directory: its name and its content.
pub type FileView = (Seq<char>, Seq<u8>);

/// What a disk holds.
pub struct DiskView {
    /// The log file's content, or `None` where the file does not exist.
    pub wal: Option<Seq<u8>>,
    /// The manifest file's text, or `None` where the file does not exist.
    pub manifest: Option<Seq<char>>,
    /// The other files of the table directory.
    pub files: Seq<FileView>,
}

/// Whether a file outlasts an operation.
pub open spec fn survives(file: FileView, op: DiskOpView) -> bool {
    match op {
        DiskOpView::WriteTable { name, image } => file.0 != name,
        DiskOpView::RemoveFile { name } => file.0 != name,
        DiskOpView::RetainTables { keep } => !is_table_name(file.0) || keep == Some(file.0),
        _ => true,
    }
}

/// The files that outlast an operation, in their order.
pub open spec fn survivors(files: Seq<FileView>, op: DiskOpView) -> Seq<FileView>
    decreases files.len(),
{
    if files.len() == 0 {
        Seq::empty()
    } else if survives(files.last(), op) {
        survivors(files.drop_last(), op).push(files.last())
    } else {
        survivors(files.drop_last(), op)
    }
}

/// The content of the first file named `name` among the first `n` files.
pub open spec fn file_among(files: Seq<FileView>, name: Seq<char>, n: int) -> Option<Seq<u8>>
    decreases n,
{
    if n <= 0 {
        None
    } else {
        match file_among(files, name, n - 1) {
            Some(image) => Some(image),
            None => if files[n - 1].0 == name {
                Some(files[n - 1].1)
            } else {
                None
            },
        }
    }
}

impl DiskView {
    /// The content of the file `name` of the table directory, if it is
    /// there.
    pub open spec fn file(self, name: Seq<char>) -> Option<Seq<u8>> {
        file_among(self.files, name, self.files.len() as int)
    }

    /// The disk after one operation.
    pub open spec fn apply(self, op: DiskOpView) -> DiskView {
        match op {
            DiskOpView::CreateWal => DiskView {
                wal: Some(
                    match self.wal {
                        Some(log) => log,
                        None => Seq::empty(),
                    },
                ),
                ..self
            },
            DiskOpView::AppendWal { frame, sync } => DiskView {
                wal: Some(
                    match self.wal {
                        Some(log) => log + frame,
                        None => frame,
                    },
                ),
                ..self
            },
            DiskOpView::TruncateWal => DiskView { wal: Some(Seq::empty()), ..self },
            DiskOpView::WriteTable { name, image } => DiskView {
                files: survivors(self.files, op).push((name, image)),
                ..self
            },
            DiskOpView::SaveManifest { text } => DiskView { manifest: Some(text), ..self },
            DiskOpView::RemoveFile { name } => DiskView {
                files: survivors(self.files, op),
                ..self
            },
            DiskOpView::RetainTables { keep } => DiskView {
                files: survivors(self.files, op),
                ..self
            },
        }
    }

    /// The disk after the operations were performed in order.
    pub open spec fn apply_all(self, ops: Seq<DiskOpView>) -> DiskView
        decreases ops.len(),
    {
        if ops.len() == 0 {
            self
        } else {
            self.apply_all(ops.drop_last()).apply(ops.last())
        }
    }
}

/// A disk held in memory.
#[derive(Debug, Clone, PartialEq, Eq)]
pub struct Disk {
    /// The log file's content, or `None` where the file does not exist.
    pub wal: Option<Vec<u8>>,
    /// The manifest file's text, or `None` where the file does not exist.
    pub manifest: Option<String>,
    /// The other files of the table directory, each with its name.
    pub files: Vec<(String, Vec<u8>)>,
}

/// The views of a vector of files.
pub open spec fn file_views(files: Seq<(String, Vec<u8>)>) -> Seq<FileView> {
    Seq::new(files.len(), |i: int| (files[i].0@, files[i].1@))
}

impl View for Disk {
    type V = DiskView;

    open spec fn view(&self) -> DiskView {
        DiskView {
            wal: match self.wal {
                Some(log) => Some(log@),
                None => None,
            },
            manifest: match self.manifest {
                Some(text) => Some(text@),
                None => None,
            },
            files: file_views(self.files@),
        }
    }
}

/// Whether an exec file outlasts an operation.
fn outlasts(name: &str, op: &DiskOp) -> (r: bool)
    ensures
        forall|image: Seq<u8>| r == survives((name@, image), op@),
{
    match op {
        DiskOp::WriteTable { name: written, image } => !same_text(name, written.as_str()),
        DiskOp::RemoveFile { name: removed } => !same_text(name, removed.as_str()),
        DiskOp::RetainTables { keep } => {
            if !table_name_check(name) {
                true
            } else {
                match keep {
                    Some(k) => same_text(name, k.as_str()),
                    None => false,
                }
            }
        },
        _ => true,
    }
}

impl Disk {
    /// A disk without any file.
    pub fn new() -> (d: Self)
        ensures
            d@ == (DiskView { wal: None, manifest: None, files: Seq::empty() }),
    {
        let d = Disk { wal: None, manifest: None, files: Vec::new() };
        assert(d@.files =~= Seq::<FileView>::empty());
        d
    }

    /// The content of the file `name` of the table directory, if it is
    /// there.
    pub fn file(&self, name: &str) -> (r: Option<&Vec<u8>>)
        ensures
            match self@.file(name@) {
                Some(image) => r is Some && r->Some_0@ == image,
                None => r is None,
            },
    {
        let mut i: usize = 0;
        while i < self.files.len()
            invariant
                0 <= i <= self.files@.len(),
                file_among(self@.files, name@, i as int) is None,
            decreases self.files@.len() - i,
        {
            if same_text(self.files[i].0.as_str(), name) {
                proof {
                    lemma_file_found(self@.files, name@, i as int, self.files@.len() as int);
                }
                return Some(&self.files[i].1);
            }
            i += 1;
        }
        None
    }

    /// Removes the files that do not outlast `op`.
    fn sweep(&mut self, op: &DiskOp)
        ensures
            final(self)@ == (DiskView { files: survivors(old(self)@.files, op@), ..old(self)@ }),
    {
        let ghost files = file_views(self.files@);
        let mut kept: Vec<(String, Vec<u8>)> = Vec::new();
        let mut i: usize = 0;
        assert(files.take(0) =~= Seq::<FileView>::empty());
        assert(file_views(kept@) =~= survivors(files.take(0), op@));
        while i < self.files.len()
            invariant
                0 <= i <= self.files@.len(),
                self.files == old(self).files,
                files == file_views(self.files@),
                file_views(kept@) == survivors(files.take(i as int), op@),
            decreases self.files@.len() - i,
        {
            let name: &String = &self.files[i].0;
            let image: &Vec<u8> = &self.files[i].1;
            proof {
                assert(files.take(i + 1).drop_last() =~= files.take(i as int));
                assert(files.take(i + 1).last() == (name@, image@));
            }
            if outlasts(name.as_str(), op) {
                let ghost before = file_views(kept@);
                kept.push((name.clone(), crate::bytes::copy_bytes(image.as_slice())));
                assert(file_views(kept@) =~= before.push((name@, image@)));
            }
            i += 1;
        }
        assert(files.take(i as int) =~= files);
        self.files = kept;
    }

    /// Performs one operation.
    pub fn apply(&mut self, op: &DiskOp)
        ensures
            final(self)@ == old(self)@.apply(op@),
    {
        match op {
            DiskOp::CreateWal => {
                if self.wal.is_none() {
                    self.wal = Some(Vec::new());
                }
            },
            DiskOp::AppendWal { frame, sync } => {
                let mut log: Vec<u8> = match self.wal.take() {
                    Some(l) => l,
                    None => Vec::new(),
                };
                let ghost before = log@;
                crate::codec::push_bytes(&mut log, frame.as_slice());
                assert(Seq::<u8>::empty() + frame@ =~= frame@);
                self.wal = Some(log);
            },
            DiskOp::TruncateWal => {
                self.wal = Some(Vec::new());
            },
            DiskOp::WriteTable { name, image } => {
                self.sweep(op);
                let ghost before = file_views(self.files@);
                self.files.push((name.clone(), crate::bytes::copy_bytes(image.as_slice())));
                assert(file_views(self.files@) =~= before.push((name@, image@)));
            },
            DiskOp::SaveManifest { text } => {
                self.manifest = Some(text.clone());
            },
            DiskOp::RemoveFile { name } => {
                self.sweep(op);
            },
            DiskOp::RetainTables { keep } => {
                self.sweep(op);
            },
        }
    }

    /// Performs the operations in order.
    pub fn apply_all(&mut self, ops: &[DiskOp])
        ensures
            final(self)@ == old(self)@.apply_all(op_views(ops@)),
    {
        let ghost views = op_views(ops@);
        let mut i: usize = 0;
        assert(views.take(0) =~= Seq::<DiskOpView>::empty());
        while i < ops.len()
            invariant
                0 <= i <= ops@.len(),
                views == op_views(ops@),
                self@ == old(self)@.apply_all(views.take(i as int)),
            decreases ops@.len() - i,
        {
            self.apply(&ops[i]);
            proof {
                assert(views.take(i + 1).drop_last() =~= views.take(i as int));
                assert(views.take(i + 1).last() == ops@[i as int]@);
            }
            i += 1;
        }
        assert(views.take(i as int) =~= views);
    }
}

/// A file that is the first of its name among the first `i + 1` files is
/// the first of its name among any more.
pub proof fn lemma_file_found(files: Seq<FileView>, name: Seq<char>, i: int, n: int)
    requires
        0 <= i < n <= files.len(),
        file_among(files, name, i) is None,
        files[i].0 == name,
    ensures
        file_among(files, name, n) == Some(files[i].1),
    decreases n,
{
    if n > i + 1 {
        lemma_file_found(files, name, i, n - 1);
    }
}

} // verus!
