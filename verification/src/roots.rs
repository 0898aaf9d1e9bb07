//! The app-data roots: for each present root, a listing of its immediate
//! child directories keyed by the ASCII-lowered child name.
//!
//! The caller enumerates the children of each root directory once and
//! hands the raw names and absolute paths in; building the keyed map —
//! the case folding and the duplicate-key handling — is verified here.
//! The first occurrence of a key keeps its position; a later duplicate
//! overwrites the stored path.

use vstd::prelude::*;

use crate::text::find_str_idx;
use crate::text::lower_seq;
use crate::text::lower_chars;
use crate::chars::string_to_chars;
use crate::chars::chars_to_string;

verus! {

broadcast use {crate::chars::lemma_dv, crate::chars::lemma_vec_dv};

/// One immediate child of a root directory, as listed by the caller.
pub struct FolderListing {
    pub name: String,
    pub path: String,
}

pub ghost struct ListingModel {
    pub name: Seq<char>,
    pub path: Seq<char>,
}

impl View for FolderListing {
    type V = ListingModel;

    open spec fn view(&self) -> ListingModel {
        ListingModel { name: self.name@, path: self.path@ }
    }
}

impl DeepView for FolderListing {
    type V = ListingModel;

    open spec fn deep_view(&self) -> ListingModel {
        self.view()
    }
}

/// One folder of a root: the case-folded key and the absolute path.
pub struct FolderSlot {
    pub key: String,
    pub path: String,
}

pub ghost struct SlotModel {
    pub key: Seq<char>,
    pub path: Seq<char>,
}

impl View for FolderSlot {
    type V = SlotModel;

    open spec fn view(&self) -> SlotModel {
        SlotModel { key: self.key@, path: self.path@ }
    }
}

impl DeepView for FolderSlot {
    type V = SlotModel;

    open spec fn deep_view(&self) -> SlotModel {
        self.view()
    }
}

pub open spec fn slot_keys(sl: Seq<SlotModel>) -> Seq<Seq<char>> {
    sl.map_values(|s: SlotModel| s.key)
}

/// One listing folded into the map: a known key overwrites its path, a
/// new key is appended.
pub open spec fn spec_add_listing(sl: Seq<SlotModel>, l: ListingModel) -> Seq<SlotModel> {
    let k = lower_seq(l.name);
    let i = find_str_idx(slot_keys(sl), k);
    if i >= 0 {
        sl.update(i, SlotModel { key: k, path: l.path })
    } else {
        sl.push(SlotModel { key: k, path: l.path })
    }
}

pub open spec fn spec_build_folders(ls: Seq<ListingModel>) -> Seq<SlotModel>
    decreases ls.len(),
{
    if ls.len() == 0 {
        Seq::empty()
    } else {
        spec_add_listing(spec_build_folders(ls.drop_last()), ls.last())
    }
}

pub open spec fn distinct_keys(ks: Seq<Seq<char>>) -> bool {
    forall|i: int, j: int| 0 <= i < j < ks.len() ==> ks[i] != ks[j]
}

/// Folding a listing in never files two folders under one key.
pub proof fn lemma_build_folders_distinct(ls: Seq<ListingModel>)
    ensures
        distinct_keys(slot_keys(spec_build_folders(ls))),
    decreases ls.len(),
{
    if ls.len() > 0 {
        lemma_build_folders_distinct(ls.drop_last());
        let sl = spec_build_folders(ls.drop_last());
        let l = ls.last();
        let k = lower_seq(l.name);
        let i = find_str_idx(slot_keys(sl), k);
        crate::text::lemma_find_str_idx(slot_keys(sl), k);
        let sl2 = spec_build_folders(ls);
        if i >= 0 {
            assert(slot_keys(sl2) =~= slot_keys(sl).update(i, k));
            assert(slot_keys(sl)[i] == k);
            assert forall|a: int, b: int|
                0 <= a < b < slot_keys(sl2).len() implies slot_keys(sl2)[a] != slot_keys(
                sl2,
            )[b] by {
                assert(slot_keys(sl2)[a] == slot_keys(sl).update(i, k)[a]);
                assert(slot_keys(sl2)[b] == slot_keys(sl).update(i, k)[b]);
            }
        } else {
            assert(slot_keys(sl2) =~= slot_keys(sl).push(k));
            assert forall|a: int, b: int|
                0 <= a < b < slot_keys(sl2).len() implies slot_keys(sl2)[a] != slot_keys(
                sl2,
            )[b] by {
                if b == slot_keys(sl).len() {
                    assert(slot_keys(sl2)[b] == k);
                    assert(slot_keys(sl2)[a] == slot_keys(sl)[a]);
                }
            }
        }
    }
}

/// The folders of one app-data root, keyed by case-folded child name.
pub struct RootFolders {
    pub folders: Vec<FolderSlot>,
}

impl RootFolders {
    pub open spec fn model(self) -> Seq<SlotModel> {
        self.folders.deep_view()
    }

    pub open spec fn spec_contains_key(self, k: Seq<char>) -> bool {
        find_str_idx(slot_keys(self.model()), k) >= 0
    }

    pub open spec fn spec_get(self, k: Seq<char>) -> Option<Seq<char>> {
        let i = find_str_idx(slot_keys(self.model()), k);
        if i >= 0 {
            Option::Some(self.model()[i].path)
        } else {
            Option::None
        }
    }

    fn find_key(&self, k: &Vec<char>) -> (r: Option<usize>)
        ensures
            match r {
                Some(i) => i < self.folders@.len() && find_str_idx(
                    slot_keys(self.model()),
                    k@,
                ) == i as int,
                None => find_str_idx(slot_keys(self.model()), k@) == -1,
            },
    {
        let n: usize = self.folders.len();
        let mut i: usize = 0;
        proof {
            crate::text::lemma_find_str_idx(slot_keys(self.model()), k@);
        }
        while i < n
            invariant
                i <= n,
                n == self.folders@.len(),
                -1 <= find_str_idx(slot_keys(self.model()), k@) < n as int,
                find_str_idx(slot_keys(self.model()), k@) >= 0 ==> slot_keys(self.model())[
                    find_str_idx(slot_keys(self.model()), k@)] == k@,
                find_str_idx(slot_keys(self.model()), k@) == -1 ==> forall|j: int|
                    0 <= j < n ==> slot_keys(self.model())[j] != k@,
                forall|j: int| 0 <= j < find_str_idx(slot_keys(self.model()), k@) ==> slot_keys(
                    self.model(),
                )[j] != k@,
                forall|j: int| 0 <= j < i ==> slot_keys(self.model())[j] != k@,
            decreases n - i,
        {
            proof {
                assert(slot_keys(self.model())[i as int] == self.folders@[i as int]@.key);
            }
            if crate::text::str_eq_chars(self.folders[i].key.as_str(), k) {
                return Some(i);
            }
            i = i + 1;
        }
        None
    }

    /// Whether a folder with this key exists in the root.
    pub fn contains_key(&self, k: &Vec<char>) -> (r: bool)
        ensures
            r == self.spec_contains_key(k@),
    {
        self.find_key(k).is_some()
    }

    /// The stored path of the folder with this key.
    pub fn get_path(&self, k: &Vec<char>) -> (r: Option<String>)
        ensures
            r.deep_view() == self.spec_get(k@),
    {
        match self.find_key(k) {
            Some(i) => {
                proof {
                    assert(self.model()[i as int].path == self.folders@[i as int]@.path);
                }
                Some(self.folders[i].path.clone())
            },
            None => None,
        }
    }

    pub fn len(&self) -> (r: usize)
        ensures
            r == self.model().len(),
    {
        self.folders.len()
    }
}

/// Build the keyed folder map of one root from its raw child listing.
pub fn build_root_folders(listing: Vec<FolderListing>) -> (r: RootFolders)
    ensures
        r.model() == spec_build_folders(listing.deep_view()),
        distinct_keys(slot_keys(r.model())),
{
    let ghost orig = listing.deep_view();
    let mut listing = listing;
    let mut folders: Vec<FolderSlot> = Vec::new();
    let n: usize = listing.len();
    let mut idx: usize = 0;
    proof {
        assert(orig.take(0) =~= Seq::<ListingModel>::empty());
        assert(folders.deep_view() =~= spec_build_folders(orig.take(0)));
    }
    while idx < n
        invariant
            idx <= n,
            n == orig.len(),
            n == listing@.len() + idx,
            listing.deep_view() == orig.skip(idx as int),
            folders.deep_view() == spec_build_folders(orig.take(idx as int)),
        decreases n - idx,
    {
        let ghost sl = spec_build_folders(orig.take(idx as int));
        let ghost pre_at = listing@;
        let ghost pre_deep = listing.deep_view();
        proof {
            assert(forall|j: int|
                0 <= j < pre_at.len() ==> pre_deep[j] == (#[trigger] pre_at[j]).deep_view());
        }
        let l = listing.remove(0);
        proof {
            assert(l@ == orig[idx as int]);
            assert forall|j: int| 0 <= j < listing@.len() implies listing.deep_view()[j]
                == orig.skip(idx + 1)[j] by {
                assert(listing.deep_view()[j] == listing@[j].deep_view());
                assert(listing@[j] == pre_at[j + 1]);
                assert(pre_at[j + 1].deep_view() == pre_deep[j + 1]);
            }
            assert(listing.deep_view() =~= orig.skip(idx + 1));
            assert(orig.take(idx + 1).drop_last() =~= orig.take(idx as int));
            assert(orig.take(idx + 1).last() == orig[idx as int]);
        }
        let nc = string_to_chars(l.name.as_str());
        let k = lower_chars(&nc);
        let ghost fpre_deep = folders.deep_view();
        proof {
            assert(slot_keys(fpre_deep) =~= slot_keys(sl));
        }
        let slot = FolderSlot { key: chars_to_string(&k), path: l.path };
        match find_slot_key(&folders, &k) {
            Some(i) => {
                let _ = folders.remove(i);
                folders.insert(i, slot);
                proof {
                    let sl2 = spec_add_listing(sl, l@);
                    assert(sl2 == sl.update(i as int, SlotModel {
                        key: lower_seq(l@.name),
                        path: l@.path,
                    }));
                    assert forall|j: int| 0 <= j < folders@.len() implies folders.deep_view()[j]
                        == sl2[j] by {
                        assert(folders.deep_view()[j] == folders@[j]@);
                        if j != i {
                            assert(folders@[j]@ == fpre_deep[j]);
                        }
                    }
                    assert(folders.deep_view() =~= sl2);
                }
            },
            None => {
                folders.push(slot);
                proof {
                    let sl2 = spec_add_listing(sl, l@);
                    assert forall|j: int| 0 <= j < folders@.len() implies folders.deep_view()[j]
                        == sl2[j] by {
                        assert(folders.deep_view()[j] == folders@[j]@);
                        if j < folders@.len() - 1 {
                            assert(folders@[j]@ == fpre_deep[j]);
                        }
                    }
                    assert(folders.deep_view() =~= sl2);
                }
            },
        }
        idx = idx + 1;
    }
    proof {
        assert(orig.take(n as int) =~= orig);
        lemma_build_folders_distinct(orig);
    }
    RootFolders { folders }
}

fn find_slot_key(folders: &Vec<FolderSlot>, k: &Vec<char>) -> (r: Option<usize>)
    ensures
        match r {
            Some(i) => i < folders@.len() && find_str_idx(
                slot_keys(folders.deep_view()),
                k@,
            ) == i as int,
            None => find_str_idx(slot_keys(folders.deep_view()), k@) == -1,
        },
{
    let n: usize = folders.len();
    let mut i: usize = 0;
    proof {
        crate::text::lemma_find_str_idx(slot_keys(folders.deep_view()), k@);
    }
    while i < n
        invariant
            i <= n,
            n == folders@.len(),
            -1 <= find_str_idx(slot_keys(folders.deep_view()), k@) < n as int,
            find_str_idx(slot_keys(folders.deep_view()), k@) >= 0 ==> slot_keys(
                folders.deep_view(),
            )[find_str_idx(slot_keys(folders.deep_view()), k@)] == k@,
            find_str_idx(slot_keys(folders.deep_view()), k@) == -1 ==> forall|j: int|
                0 <= j < n ==> slot_keys(folders.deep_view())[j] != k@,
            forall|j: int| 0 <= j < find_str_idx(slot_keys(folders.deep_view()), k@)
                ==> slot_keys(folders.deep_view())[j] != k@,
            forall|j: int| 0 <= j < i ==> slot_keys(folders.deep_view())[j] != k@,
        decreases n - i,
    {
        proof {
            assert(slot_keys(folders.deep_view())[i as int] == folders@[i as int]@.key);
        }
        if crate::text::str_eq_chars(folders[i].key.as_str(), k) {
            return Some(i);
        }
        i = i + 1;
    }
    None
}

/// The four app-data roots; a root the environment does not offer is
/// absent.
pub struct Roots {
    pub local: Option<RootFolders>,
    pub roaming: Option<RootFolders>,
    pub local_low: Option<RootFolders>,
    pub program_data: Option<RootFolders>,
}

} // verus!
