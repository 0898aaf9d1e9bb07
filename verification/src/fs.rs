//! A plain-value snapshot of the parts of the filesystem a scan consults:
//! which probed paths are directories (with their recursive sizes) and
//! which are files.
//!
//! The caller probes the candidate paths once and hands the snapshot in;
//! every decision the library takes against it is then a function of the
//! snapshot value. Paths are compared as exact strings, with no
//! canonicalization, so two spellings of one directory stay distinct.

use vstd::prelude::*;

use crate::text::str_eq_chars;

verus! {

/// One probed directory with its recursive content size in bytes.
pub struct DirEntry {
    pub path: String,
    pub bytes: u64,
}

pub ghost struct DirModel {
    pub path: Seq<char>,
    pub bytes: u64,
}

impl View for DirEntry {
    type V = DirModel;

    open spec fn view(&self) -> DirModel {
        DirModel { path: self.path@, bytes: self.bytes }
    }
}

impl DeepView for DirEntry {
    type V = DirModel;

    open spec fn deep_view(&self) -> DirModel {
        self.view()
    }
}

/// The filesystem snapshot: probed directories and probed plain files.
pub struct FsSnapshot {
    pub dirs: Vec<DirEntry>,
    pub files: Vec<String>,
}

/// The recorded size of `p` among `dirs`, first entry wins; 0 when absent.
pub open spec fn size_of_in(dirs: Seq<DirEntry>, p: Seq<char>) -> u64
    decreases dirs.len(),
{
    if dirs.len() == 0 {
        0
    } else if dirs[0].path@ == p {
        dirs[0].bytes
    } else {
        size_of_in(dirs.drop_first(), p)
    }
}

impl FsSnapshot {
    pub open spec fn spec_is_dir(self, p: Seq<char>) -> bool {
        exists|i: int| 0 <= i < self.dirs@.len() && (#[trigger] self.dirs@[i]).path@ == p
    }

    pub open spec fn spec_is_file(self, p: Seq<char>) -> bool {
        exists|i: int| 0 <= i < self.files@.len() && (#[trigger] self.files@[i])@ == p
    }

    pub open spec fn spec_dir_size(self, p: Seq<char>) -> u64 {
        size_of_in(self.dirs@, p)
    }

    /// Whether `p` was probed and found to be a directory.
    pub fn is_dir(&self, p: &Vec<char>) -> (r: bool)
        ensures
            r == self.spec_is_dir(p@),
    {
        let n: usize = self.dirs.len();
        let mut i: usize = 0;
        while i < n
            invariant
                i <= n,
                n == self.dirs@.len(),
                forall|j: int| 0 <= j < i ==> (#[trigger] self.dirs@[j]).path@ != p@,
            decreases n - i,
        {
            if str_eq_chars(self.dirs[i].path.as_str(), p) {
                return true;
            }
            i = i + 1;
        }
        false
    }

    /// Whether `p` was probed and found to be a plain file.
    pub fn is_file(&self, p: &Vec<char>) -> (r: bool)
        ensures
            r == self.spec_is_file(p@),
    {
        let n: usize = self.files.len();
        let mut i: usize = 0;
        while i < n
            invariant
                i <= n,
                n == self.files@.len(),
                forall|j: int| 0 <= j < i ==> (#[trigger] self.files@[j])@ != p@,
            decreases n - i,
        {
            if str_eq_chars(self.files[i].as_str(), p) {
                return true;
            }
            i = i + 1;
        }
        false
    }

    /// The recorded recursive size of directory `p`; 0 when `p` was not
    /// probed as a directory.
    pub fn dir_size(&self, p: &Vec<char>) -> (r: u64)
        ensures
            r == self.spec_dir_size(p@),
    {
        let n: usize = self.dirs.len();
        proof {
            assert(self.dirs@.subrange(0, n as int) =~= self.dirs@);
        }
        let mut i: usize = 0;
        while i < n
            invariant
                i <= n,
                n == self.dirs@.len(),
                size_of_in(self.dirs@, p@) == size_of_in(
                    self.dirs@.subrange(i as int, n as int),
                    p@,
                ),
            decreases n - i,
        {
            proof {
                let suf = self.dirs@.subrange(i as int, n as int);
                assert(suf[0] == self.dirs@[i as int]);
                assert(suf.drop_first() =~= self.dirs@.subrange(i + 1, n as int));
            }
            if str_eq_chars(self.dirs[i].path.as_str(), p) {
                return self.dirs[i].bytes;
            }
            i = i + 1;
        }
        0
    }
}

/// Index of the last path separator (`\` or `/`), or -1 when none.
pub open spec fn last_sep_idx(s: Seq<char>) -> int
    decreases s.len(),
{
    if s.len() == 0 {
        -1
    } else if s.last() == '\\' || s.last() == '/' {
        s.len() - 1
    } else {
        last_sep_idx(s.drop_last())
    }
}

/// The parent directory of a path: the text before the last separator.
/// A path with no separator has no parent.
pub open spec fn spec_parent_dir(p: Seq<char>) -> Option<Seq<char>> {
    let i = last_sep_idx(p);
    if i >= 0 {
        Option::Some(p.take(i))
    } else {
        Option::None
    }
}

pub proof fn lemma_last_sep_idx_range(s: Seq<char>)
    ensures
        -1 <= last_sep_idx(s) < s.len(),
    decreases s.len(),
{
    if s.len() > 0 && !(s.last() == '\\' || s.last() == '/') {
        lemma_last_sep_idx_range(s.drop_last());
    }
}

/// The parent directory of `p`, over character vectors.
pub fn parent_dir_chars(p: &Vec<char>) -> (r: Option<Vec<char>>)
    ensures
        r.deep_view() == spec_parent_dir(p@),
{
    proof {
        lemma_last_sep_idx_range(p@);
    }
    let mut i: usize = p.len();
    proof {
        assert(p@.subrange(0, p@.len() as int) =~= p@);
    }
    while i > 0
        invariant
            i <= p@.len(),
            last_sep_idx(p@) == last_sep_idx(p@.subrange(0, i as int)),
        decreases i,
    {
        proof {
            let pre = p@.subrange(0, i as int);
            assert(pre.last() == p@[i - 1]);
            assert(pre.drop_last() =~= p@.subrange(0, i - 1));
        }
        let c = p[i - 1];
        if c == '\\' || c == '/' {
            let out = crate::text::copy_range(p, 0, i - 1);
            proof {
                assert(last_sep_idx(p@) == i - 1);
            }
            return Some(out);
        }
        i = i - 1;
    }
    proof {
        assert(last_sep_idx(p@) == -1);
    }
    None
}


/// The parent directory of a path, over strings.
pub fn parent_dir(path: &str) -> (r: Option<String>)
    ensures
        r.deep_view() == spec_parent_dir(path@),
{
    let v = crate::chars::string_to_chars(path);
    match parent_dir_chars(&v) {
        Some(p) => Some(crate::chars::chars_to_string(&p)),
        None => None,
    }
}


/// Two snapshots with the same probed paths and sizes.
pub open spec fn fs_eq(f1: FsSnapshot, f2: FsSnapshot) -> bool {
    f1.dirs.deep_view() == f2.dirs.deep_view() && f1.files.deep_view() == f2.files.deep_view()
}

proof fn lemma_size_of_in_eq(d1: Seq<DirEntry>, d2: Seq<DirEntry>, p: Seq<char>)
    requires
        crate::sort::dv_seq(d1) == crate::sort::dv_seq(d2),
    ensures
        size_of_in(d1, p) == size_of_in(d2, p),
    decreases d1.len(),
{
    let m1 = crate::sort::dv_seq(d1);
    let m2 = crate::sort::dv_seq(d2);
    assert(m1.len() == d1.len());
    assert(m2.len() == d2.len());
    assert(d1.len() == d2.len());
    if d1.len() > 0 {
        assert(m1[0] == d1[0].deep_view());
        assert(m2[0] == d2[0].deep_view());
        assert(d1[0].path@ == d2[0].path@ && d1[0].bytes == d2[0].bytes);
        let t1 = crate::sort::dv_seq(d1.drop_first());
        let t2 = crate::sort::dv_seq(d2.drop_first());
        assert(t1.len() == d1.len() - 1);
        assert(t2.len() == d2.len() - 1);
        assert forall|i: int| 0 <= i < t1.len() implies t1[i] == t2[i] by {
            assert(t1[i] == d1.drop_first()[i].deep_view());
            assert(t2[i] == d2.drop_first()[i].deep_view());
            assert(d1.drop_first()[i] == d1[i + 1]);
            assert(d2.drop_first()[i] == d2[i + 1]);
            assert(m1[i + 1] == d1[i + 1].deep_view());
            assert(m2[i + 1] == d2[i + 1].deep_view());
        }
        assert(t1 =~= t2);
        lemma_size_of_in_eq(d1.drop_first(), d2.drop_first(), p);
    }
}

/// Every snapshot question is answered alike by equal snapshots.
pub proof fn lemma_fs_eq(f1: FsSnapshot, f2: FsSnapshot, p: Seq<char>)
    requires
        fs_eq(f1, f2),
    ensures
        f1.spec_is_dir(p) == f2.spec_is_dir(p),
        f1.spec_is_file(p) == f2.spec_is_file(p),
        f1.spec_dir_size(p) == f2.spec_dir_size(p),
{
    broadcast use crate::chars::lemma_vec_dv;

    assert(crate::sort::dv_seq(f1.dirs@) =~= f1.dirs.deep_view());
    assert(crate::sort::dv_seq(f2.dirs@) =~= f2.dirs.deep_view());
    lemma_size_of_in_eq(f1.dirs@, f2.dirs@, p);
    assert(f1.dirs@.len() == f2.dirs@.len());
    assert(f1.files@.len() == f2.files@.len());
    assert forall|i: int| 0 <= i < f1.dirs@.len() implies (#[trigger] f1.dirs@[i]).path@
        == f2.dirs@[i].path@ by {
        assert(f1.dirs.deep_view()[i] == f1.dirs@[i].deep_view());
        assert(f2.dirs.deep_view()[i] == f2.dirs@[i].deep_view());
    }
    assert forall|i: int| 0 <= i < f1.files@.len() implies (#[trigger] f1.files@[i])@
        == f2.files@[i]@ by {
        assert(f1.files.deep_view()[i] == f1.files@[i]@);
        assert(f2.files.deep_view()[i] == f2.files@[i]@);
    }
    assert(f1.spec_is_dir(p) == f2.spec_is_dir(p)) by {
        if f1.spec_is_dir(p) {
            let i = choose|i: int| 0 <= i < f1.dirs@.len() && (#[trigger] f1.dirs@[i]).path@
                == p;
            assert(f2.dirs@[i].path@ == p);
        }
        if f2.spec_is_dir(p) {
            let i = choose|i: int| 0 <= i < f2.dirs@.len() && (#[trigger] f2.dirs@[i]).path@
                == p;
            assert(f1.dirs@[i].path@ == p);
        }
    }
    assert(f1.spec_is_file(p) == f2.spec_is_file(p)) by {
        if f1.spec_is_file(p) {
            let i = choose|i: int| 0 <= i < f1.files@.len() && (#[trigger] f1.files@[i])@ == p;
            assert(f2.files@[i]@ == p);
        }
        if f2.spec_is_file(p) {
            let i = choose|i: int| 0 <= i < f2.files@.len() && (#[trigger] f2.files@[i])@ == p;
            assert(f1.files@[i]@ == p);
        }
    }
}

} // verus!
