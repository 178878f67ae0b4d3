//! A model of the destination tree: the set of file paths that exist,
//! each with its size in kilobytes. Fetch runs are verified against this
//! model; the surrounding program performs the same steps on the real
//! filesystem.

use vstd::prelude::*;

use crate::text::str_eq;

verus! {

/// The map an entry list denotes: later entries would win, but the
/// invariant keeps all keys distinct.
pub open spec fn files_map(s: Seq<(String, u64)>) -> Map<Seq<char>, u64>
    decreases s.len(),
{
    if s.len() == 0 {
        Map::empty()
    } else {
        files_map(s.drop_last()).insert(s.last().0@, s.last().1)
    }
}

/// No two entries name the same path.
pub open spec fn unique_paths(s: Seq<(String, u64)>) -> bool {
    forall|i: int, j: int| 0 <= i < j < s.len() ==> s[i].0@ != s[j].0@
}

/// A path is in the denoted map exactly when some entry names it.
proof fn lemma_files_map_dom(s: Seq<(String, u64)>, k: Seq<char>)
    ensures
        files_map(s).dom().contains(k) <==> exists|i: int| 0 <= i < s.len() && s[i].0@ == k,
    decreases s.len(),
{
    if s.len() > 0 {
        lemma_files_map_dom(s.drop_last(), k);
        if s.last().0@ == k {
            assert(s[s.len() - 1].0@ == k);
        } else if exists|i: int| 0 <= i < s.len() && s[i].0@ == k {
            let i = choose|i: int| 0 <= i < s.len() && s[i].0@ == k;
            assert(s.drop_last()[i] == s[i]);
        }
    }
}

/// With distinct paths, each entry's size is the one the map records.
proof fn lemma_files_map_at(s: Seq<(String, u64)>, i: int)
    requires
        unique_paths(s),
        0 <= i < s.len(),
    ensures
        files_map(s).dom().contains(s[i].0@),
        files_map(s)[s[i].0@] == s[i].1,
    decreases s.len(),
{
    if i < s.len() - 1 {
        assert(unique_paths(s.drop_last()));
        assert(s.drop_last()[i] == s[i]);
        lemma_files_map_at(s.drop_last(), i);
        assert(s[i].0@ != s.last().0@);
    }
}

/// Removing an entry removes exactly its path from the denoted map.
proof fn lemma_files_map_remove(s: Seq<(String, u64)>, i: int)
    requires
        unique_paths(s),
        0 <= i < s.len(),
    ensures
        files_map(s.remove(i)) =~= files_map(s).remove(s[i].0@),
    decreases s.len(),
{
    if i == s.len() - 1 {
        assert(s.remove(i) =~= s.drop_last());
        lemma_files_map_dom(s.drop_last(), s[i].0@);
        assert(!files_map(s.drop_last()).dom().contains(s[i].0@));
        assert(files_map(s.drop_last()) =~= files_map(s.drop_last()).insert(
            s.last().0@,
            s.last().1,
        ).remove(s[i].0@));
    } else {
        assert(unique_paths(s.drop_last()));
        assert(s.drop_last()[i] == s[i]);
        lemma_files_map_remove(s.drop_last(), i);
        assert(s.remove(i).drop_last() =~= s.drop_last().remove(i));
        assert(s.remove(i).last() == s.last());
        assert(s[i].0@ != s.last().0@);
    }
}

/// The files that exist under one destination root, sizes in kilobytes.
pub struct Disk {
    files: Vec<(String, u64)>,
}

impl View for Disk {
    type V = Map<Seq<char>, u64>;

    closed spec fn view(&self) -> Map<Seq<char>, u64> {
        files_map(self.files@)
    }
}

impl Disk {
    #[verifier::type_invariant]
    spec fn wf(&self) -> bool {
        unique_paths(self.files@)
    }

    /// An empty destination tree.
    pub fn new() -> (r: Disk)
        ensures
            r@ == Map::<Seq<char>, u64>::empty(),
    {
        Disk { files: Vec::new() }
    }

    /// Whether a file exists at `path`.
    pub fn contains(&self, path: &str) -> (r: bool)
        ensures
            r == self@.dom().contains(path@),
    {
        let mut i: usize = 0;
        proof {
            lemma_files_map_dom(self.files@, path@);
        }
        while i < self.files.len()
            invariant
                i <= self.files@.len(),
                forall|j: int| 0 <= j < i ==> self.files@[j].0@ != path@,
                self@.dom().contains(path@) <==> exists|j: int|
                    0 <= j < self.files@.len() && self.files@[j].0@ == path@,
            decreases self.files@.len() - i,
        {
            if str_eq(self.files[i].0.as_str(), path) {
                return true;
            }
            i = i + 1;
        }
        false
    }

    /// The size recorded for an existing file.
    pub fn size_of(&self, path: &str) -> (r: u64)
        requires
            self@.dom().contains(path@),
        ensures
            r == self@[path@],
    {
        proof {
            use_type_invariant(&*self);
            lemma_files_map_dom(self.files@, path@);
        }
        let mut i: usize = 0;
        while i < self.files.len()
            invariant
                i <= self.files@.len(),
                unique_paths(self.files@),
                self@ == files_map(self.files@),
                forall|j: int| 0 <= j < i ==> self.files@[j].0@ != path@,
                exists|j: int| 0 <= j < self.files@.len() && self.files@[j].0@ == path@,
            decreases self.files@.len() - i,
        {
            if str_eq(self.files[i].0.as_str(), path) {
                proof {
                    lemma_files_map_at(self.files@, i as int);
                }
                return self.files[i].1;
            }
            i = i + 1;
        }
        proof {
            assert(false);
        }
        0
    }

    /// Materializes a file that does not exist yet.
    pub fn create(&mut self, path: &str, size: u64)
        requires
            !old(self)@.dom().contains(path@),
        ensures
            final(self)@ == old(self)@.insert(path@, size),
    {
        proof {
            use_type_invariant(&*self);
            lemma_files_map_dom(self.files@, path@);
        }
        let mut files: Vec<(String, u64)> = Vec::new();
        core::mem::swap(&mut files, &mut self.files);
        files.push((path.to_owned(), size));
        proof {
            assert(files@.drop_last() =~= old(self).files@);
            assert(unique_paths(files@));
        }
        core::mem::swap(&mut files, &mut self.files);
    }

    /// Deletes the file at `path` if it exists.
    pub fn remove(&mut self, path: &str)
        ensures
            final(self)@ == old(self)@.remove(path@),
    {
        proof {
            use_type_invariant(&*self);
            lemma_files_map_dom(self.files@, path@);
        }
        let mut i: usize = 0;
        while i < self.files.len()
            invariant
                i <= self.files@.len(),
                unique_paths(self.files@),
                self == old(self),
                forall|j: int| 0 <= j < i ==> self.files@[j].0@ != path@,
            decreases self.files@.len() - i,
        {
            if str_eq(self.files[i].0.as_str(), path) {
                proof {
                    lemma_files_map_remove(self.files@, i as int);
                    assert(unique_paths(self.files@.remove(i as int)));
                }
                let mut files: Vec<(String, u64)> = Vec::new();
                core::mem::swap(&mut files, &mut self.files);
                files.remove(i);
                core::mem::swap(&mut files, &mut self.files);
                return;
            }
            i = i + 1;
        }
        proof {
            assert(!old(self)@.dom().contains(path@));
            assert(self@ =~= old(self)@.remove(path@));
        }
    }
}

} // verus!
