//! The per-file and per-directory records a snapshot is made of.

use vstd::prelude::*;

use crate::classify::spec_file_type;
use crate::classify::recognize_file_type;

verus! {

/// Mathematical image of a [`File`]: type code, base name, byte size.
pub struct FileView {
    pub typ: u8,
    pub name: Seq<char>,
    pub size: u64,
}

/// Mathematical image of a [`Dir`]: size, own files, child paths.
pub struct DirView {
    pub size: u64,
    pub files: Seq<FileView>,
    pub children: Seq<Seq<char>>,
}

/// A file directly contained in a directory.
#[derive(Debug)]
pub struct File {
    pub typ: u8,
    pub name: String,
    pub size: u64,
}

/// One directory of a snapshot: its size (own size right after the walk,
/// recursive size after aggregation), its own files, and the normalized
/// paths of its direct subdirectories.
#[derive(Debug)]
pub struct Dir {
    pub size: u64,
    pub file: Vec<File>,
    pub children: Vec<String>,
}

impl View for File {
    type V = FileView;

    open spec fn view(&self) -> FileView {
        FileView { typ: self.typ, name: self.name@, size: self.size }
    }
}

impl View for Dir {
    type V = DirView;

    open spec fn view(&self) -> DirView {
        DirView {
            size: self.size,
            files: self.file@.map_values(|f: File| f@),
            children: self.children@.map_values(|c: String| c@),
        }
    }
}

/// Sum of the sizes of a sequence of file records.
pub open spec fn spec_files_size(fs: Seq<FileView>) -> int
    decreases fs.len(),
{
    if fs.len() == 0 {
        0
    } else {
        spec_files_size(fs.drop_last()) + fs.last().size
    }
}

/// A size sum never shrinks when a record is appended, and never goes
/// below zero.
pub proof fn lemma_files_size_nonneg(fs: Seq<FileView>)
    ensures
        spec_files_size(fs) >= 0,
    decreases fs.len(),
{
    if fs.len() > 0 {
        lemma_files_size_nonneg(fs.drop_last());
    }
}

/// The sum over a prefix is bounded by the sum over the whole.
pub proof fn lemma_files_size_take(fs: Seq<FileView>, i: int)
    requires
        0 <= i <= fs.len(),
    ensures
        spec_files_size(fs.take(i)) <= spec_files_size(fs),
        i < fs.len() ==> spec_files_size(fs.take(i + 1)) == spec_files_size(fs.take(i))
            + fs[i].size,
    decreases fs.len() - i,
{
    if i < fs.len() {
        assert(fs.take(i + 1).drop_last() =~= fs.take(i));
        assert(fs.take(i + 1).last() == fs[i]);
        lemma_files_size_take(fs, i + 1);
        if i + 1 == fs.len() {
            assert(fs.take(i + 1) =~= fs);
        }
    } else {
        assert(fs.take(i) =~= fs);
    }
}

/// Whether one of the given names is `n`.
pub open spec fn spec_name_listed(names: Seq<Seq<char>>, n: Seq<char>) -> bool {
    exists|k: int| 0 <= k < names.len() && names[k] == n
}

/// Whether `names` holds the name `n`.
fn names_contain(names: &Vec<String>, n: &String) -> (r: bool)
    ensures
        r == spec_name_listed(names@.map_values(|s: String| s@), n@),
{
    let ghost nv = names@.map_values(|s: String| s@);
    let mut k: usize = 0;
    while k < names.len()
        invariant
            k <= names.len(),
            nv == names@.map_values(|s: String| s@),
            forall|j: int| 0 <= j < k ==> nv[j] != n@,
        decreases names.len() - k,
    {
        if names[k] == *n {
            assert(nv[k as int] == n@);
            return true;
        }
        k = k + 1;
    }
    false
}

impl File {
    /// A file record for a file named `name` of `size` bytes, classified
    /// from the name's extension.
    pub fn new(name: String, size: u64) -> (f: File)
        ensures
            f@ == (FileView { typ: spec_file_type(name@), name: name@, size }),
    {
        let typ = recognize_file_type(name.as_str());
        File { typ, name, size }
    }

    /// The file's coarse type code.
    pub fn typ(&self) -> (t: u8)
        ensures
            t == self@.typ,
    {
        self.typ
    }

    /// The file's base name.
    pub fn name(&self) -> (n: &String)
        ensures
            n@ == self@.name,
    {
        &self.name
    }

    /// The file's byte size.
    pub fn size(&self) -> (s: u64)
        ensures
            s == self@.size,
    {
        self.size
    }
}

impl Default for Dir {
    /// An empty directory record: size zero, no files, no children.
    fn default() -> (d: Dir)
        ensures
            d@ == (DirView { size: 0, files: Seq::<FileView>::empty(), children: Seq::<
                Seq<char>,
            >::empty() }),
    {
        let d = Dir { size: 0, file: Vec::new(), children: Vec::new() };
        proof {
            assert(d@.files =~= Seq::<FileView>::empty());
            assert(d@.children =~= Seq::<Seq<char>>::empty());
        }
        d
    }
}

impl Dir {
    /// Appends `file` to the directory's own files and adds its size to
    /// the running size.
    pub fn add_file(&mut self, file: File)
        requires
            old(self)@.size + file@.size <= u64::MAX,
        ensures
            final(self)@.size == old(self)@.size + file@.size,
            final(self)@.files == old(self)@.files.push(file@),
            final(self)@.children == old(self)@.children,
    {
        self.size = self.size + file.size;
        let ghost fv = file@;
        self.file.push(file);
        proof {
            assert(self@.files =~= old(self)@.files.push(fv));
        }
    }

    /// Drops every own file whose name is listed in `files`, and resets
    /// the size to the sum of the remaining files' sizes.
    pub fn remove_file(&mut self, files: Vec<String>)
        requires
            spec_files_size(
                old(self)@.files.filter(
                    |f: FileView|
                        !spec_name_listed(files@.map_values(|s: String| s@), f.name),
                ),
            ) <= u64::MAX,
        ensures
            final(self)@.files == old(self)@.files.filter(
                |f: FileView| !spec_name_listed(files@.map_values(|s: String| s@), f.name),
            ),
            final(self)@.size == spec_files_size(final(self)@.files),
            final(self)@.children == old(self)@.children,
    {
        let ghost names = files@.map_values(|s: String| s@);
        let ghost pred = |f: FileView| !spec_name_listed(names, f.name);
        let ghost allv = self@.files;
        let mut kept: Vec<File> = Vec::new();
        let mut i: usize = 0;
        while i < self.file.len()
            invariant
                i <= self.file.len(),
                names == files@.map_values(|s: String| s@),
                pred == (|f: FileView| !spec_name_listed(names, f.name)),
                allv == self@.files,
                allv == old(self)@.files,
                self.file == old(self).file,
                self.children == old(self).children,
                self.size == old(self).size,
                kept@.map_values(|f: File| f@) == allv.take(i as int).filter(pred),
            decreases self.file.len() - i,
        {
            let f = &self.file[i];
            proof {
                assert(allv.take(i + 1).drop_last() =~= allv.take(i as int));
                assert(allv.take(i + 1).last() == allv[i as int]);
                allv.take(i + 1).filter_lemma(pred);
                reveal_with_fuel(Seq::filter, 2);
            }
            if !names_contain(&files, &f.name) {
                let copy = File { typ: f.typ, name: f.name.clone(), size: f.size };
                assert(copy@ == allv[i as int]);
                kept.push(copy);
            }
            proof {
                assert(allv.take(i + 1).filter(pred) =~= if pred(allv[i as int]) {
                    allv.take(i as int).filter(pred).push(allv[i as int])
                } else {
                    allv.take(i as int).filter(pred)
                });
                assert(kept@.map_values(|f: File| f@) =~= allv.take(i + 1).filter(pred));
            }
            i = i + 1;
        }
        proof {
            assert(allv.take(allv.len() as int) =~= allv);
        }
        let ghost keptv = kept@.map_values(|f: File| f@);
        let mut total: u64 = 0;
        let mut k: usize = 0;
        proof {
            assert(keptv.take(0) =~= Seq::<FileView>::empty());
        }
        while k < kept.len()
            invariant
                k <= kept.len(),
                keptv == kept@.map_values(|f: File| f@),
                spec_files_size(keptv) <= u64::MAX,
                total == spec_files_size(keptv.take(k as int)),
            decreases kept.len() - k,
        {
            proof {
                lemma_files_size_take(keptv, k as int);
                lemma_files_size_take(keptv, k + 1);
                lemma_files_size_nonneg(keptv.take(k as int));
                lemma_files_size_nonneg(keptv.take(k + 1));
            }
            total = total + kept[k].size;
            k = k + 1;
        }
        proof {
            assert(keptv.take(kept@.len() as int) =~= keptv);
        }
        self.file = kept;
        self.size = total;
    }

    /// Appends a subdirectory path to the directory's child list.
    pub fn add_child(&mut self, child: String)
        ensures
            final(self)@.children == old(self)@.children.push(child@),
            final(self)@.files == old(self)@.files,
            final(self)@.size == old(self)@.size,
    {
        let ghost cv = child@;
        self.children.push(child);
        proof {
            assert(self@.children =~= old(self)@.children.push(cv));
        }
    }

    /// Drops every child path that is listed in `children`.
    pub fn remove_child(&mut self, children: Vec<String>)
        ensures
            final(self)@.children == old(self)@.children.filter(
                |c: Seq<char>| !spec_name_listed(children@.map_values(|s: String| s@), c),
            ),
            final(self)@.files == old(self)@.files,
            final(self)@.size == old(self)@.size,
    {
        let ghost names = children@.map_values(|s: String| s@);
        let ghost pred = |c: Seq<char>| !spec_name_listed(names, c);
        let ghost allv = self@.children;
        let mut kept: Vec<String> = Vec::new();
        let mut i: usize = 0;
        while i < self.children.len()
            invariant
                i <= self.children.len(),
                names == children@.map_values(|s: String| s@),
                pred == (|c: Seq<char>| !spec_name_listed(names, c)),
                allv == self@.children,
                allv == old(self)@.children,
                self.children == old(self).children,
                self.file == old(self).file,
                self.size == old(self).size,
                kept@.map_values(|c: String| c@) == allv.take(i as int).filter(pred),
            decreases self.children.len() - i,
        {
            let c = &self.children[i];
            proof {
                assert(allv.take(i + 1).drop_last() =~= allv.take(i as int));
                assert(allv.take(i + 1).last() == allv[i as int]);
                reveal_with_fuel(Seq::filter, 2);
            }
            if !names_contain(&children, c) {
                kept.push(c.clone());
            }
            proof {
                assert(allv.take(i + 1).filter(pred) =~= if pred(allv[i as int]) {
                    allv.take(i as int).filter(pred).push(allv[i as int])
                } else {
                    allv.take(i as int).filter(pred)
                });
                assert(kept@.map_values(|c: String| c@) =~= allv.take(i + 1).filter(pred));
            }
            i = i + 1;
        }
        proof {
            assert(allv.take(allv.len() as int) =~= allv);
        }
        self.children = kept;
    }

    /// The directory's size field: own size right after the walk,
    /// recursive size after aggregation.
    pub fn size(&self) -> (s: u64)
        ensures
            s == self@.size,
    {
        self.size
    }

    /// The directory's own files.
    pub fn files(&self) -> (fs: &Vec<File>)
        ensures
            fs@.map_values(|f: File| f@) == self@.files,
    {
        &self.file
    }

    /// The normalized paths of the directory's direct subdirectories.
    pub fn children(&self) -> (cs: &Vec<String>)
        ensures
            cs@.map_values(|c: String| c@) == self@.children,
    {
        &self.children
    }
}

} // verus!
