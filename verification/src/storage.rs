//! A model of the output directory: a collection of named files and their
//! byte contents. File creation is exclusive — creating a name that already
//! exists fails and leaves the directory unchanged — and appending adds
//! bytes to the end of an existing file.

use vstd::prelude::*;

verus! {

/// Why a directory operation failed.
#[derive(Clone, Copy, Debug, PartialEq, Eq, Structural)]
pub enum StorageError {
    /// Exclusive creation found the name already present.
    AlreadyExists,
    /// An append named a file that is not present.
    NotFound,
}

/// The mapping an association list of files denotes, a later entry
/// overwriting an earlier one with the same name.
pub open spec fn contents_of(files: Seq<(String, Vec<u8>)>) -> Map<Seq<char>, Seq<u8>>
    decreases files.len(),
{
    if files.len() == 0 {
        Map::empty()
    } else {
        contents_of(files.drop_last()).insert(files.last().0@, files.last().1@)
    }
}

proof fn lemma_contents_domain(files: Seq<(String, Vec<u8>)>, name: Seq<char>)
    ensures
        contents_of(files).contains_key(name) <==> exists|i: int|
            0 <= i < files.len() && files[i].0@ == name,
    decreases files.len(),
{
    if files.len() > 0 {
        lemma_contents_domain(files.drop_last(), name);
        if files.last().0@ == name {
            assert(files[files.len() - 1].0@ == name);
        } else if contents_of(files).contains_key(name) {
            let i = choose|i: int| 0 <= i < files.drop_last().len() && files.drop_last()[i].0@
                == name;
            assert(files[i].0@ == name);
        } else {
            assert(forall|i: int|
                0 <= i < files.len() - 1 ==> files.drop_last()[i] == files[i]);
        }
    }
}

proof fn lemma_contents_at(files: Seq<(String, Vec<u8>)>, i: int)
    requires
        0 <= i < files.len(),
        forall|j: int, k: int| 0 <= j < k < files.len() ==> files[j].0@ != files[k].0@,
    ensures
        contents_of(files).contains_key(files[i].0@),
        contents_of(files)[files[i].0@] == files[i].1@,
    decreases files.len(),
{
    if i == files.len() - 1 {
        assert(files.last() == files[i]);
    } else {
        assert(forall|j: int, k: int|
            0 <= j < k < files.len() - 1 ==> files.drop_last()[j].0@ != files.drop_last()[k].0@);
        lemma_contents_at(files.drop_last(), i);
        assert(files.drop_last()[i] == files[i]);
        assert(files.last().0@ != files[i].0@);
    }
}

/// The directory: file names with their contents, no name occurring twice.
pub struct Directory {
    files: Vec<(String, Vec<u8>)>,
}

impl View for Directory {
    type V = Map<Seq<char>, Seq<u8>>;

    closed spec fn view(&self) -> Map<Seq<char>, Seq<u8>> {
        contents_of(self.files@)
    }
}

impl Directory {
    /// Each file name occurs at most once.
    pub closed spec fn wf(&self) -> bool {
        forall|i: int, j: int|
            0 <= i < j < self.files@.len() ==> self.files@[i].0@ != self.files@[j].0@
    }

    /// An empty directory.
    pub fn new() -> (d: Directory)
        ensures
            d.wf(),
            d@ == Map::<Seq<char>, Seq<u8>>::empty(),
    {
        Directory { files: Vec::new() }
    }

    /// The index of `name` in the list, if it is present.
    fn index_of(&self, name: &str) -> (r: Option<usize>)
        ensures
            (match r {
                Some(i) => i < self.files@.len() && self.files@[i as int].0@ == name@,
                None => forall|i: int| 0 <= i < self.files@.len() ==> self.files@[i].0@ != name@,
            }),
    {
        let name_string = name.to_owned();
        let mut i: usize = 0;
        while i < self.files.len()
            invariant
                i <= self.files@.len(),
                name_string@ == name@,
                forall|j: int| 0 <= j < i ==> self.files@[j].0@ != name@,
            decreases self.files@.len() - i,
        {
            if self.files[i].0 == name_string {
                return Some(i);
            }
            i = i + 1;
        }
        None
    }

    /// Whether a file called `name` is present.
    pub fn contains(&self, name: &str) -> (r: bool)
        ensures
            r == self@.contains_key(name@),
    {
        proof {
            lemma_contents_domain(self.files@, name@);
        }
        match self.index_of(name) {
            Some(_) => true,
            None => false,
        }
    }

    /// Creates an empty file called `name`; exclusive, so a name that is
    /// already present is refused and nothing changes.
    pub fn create_new(&mut self, name: &str) -> (r: Result<(), StorageError>)
        requires
            old(self).wf(),
        ensures
            final(self).wf(),
            old(self)@.contains_key(name@) ==> r == Err::<(), StorageError>(
                StorageError::AlreadyExists,
            ) && final(self)@ == old(self)@,
            !old(self)@.contains_key(name@) ==> r == Ok::<(), StorageError>(()) && final(self)@
                == old(self)@.insert(name@, Seq::<u8>::empty()),
    {
        proof {
            lemma_contents_domain(self.files@, name@);
        }
        if self.contains(name) {
            return Err(StorageError::AlreadyExists);
        }
        let empty: Vec<u8> = Vec::new();
        self.files.push((name.to_owned(), empty));
        proof {
            assert(self.files@.drop_last() =~= old(self).files@);
            assert(forall|i: int|
                0 <= i < old(self).files@.len() ==> self.files@[i] == old(self).files@[i]);
        }
        Ok(())
    }

    /// Appends `chunk` to the end of the file called `name`; a name that
    /// is not present is refused and nothing changes.
    pub fn append(&mut self, name: &str, chunk: &Vec<u8>) -> (r: Result<(), StorageError>)
        requires
            old(self).wf(),
        ensures
            final(self).wf(),
            old(self)@.contains_key(name@) ==> r == Ok::<(), StorageError>(()) && final(self)@
                == old(self)@.insert(name@, old(self)@[name@] + chunk@),
            !old(self)@.contains_key(name@) ==> r == Err::<(), StorageError>(
                StorageError::NotFound,
            ) && final(self)@ == old(self)@,
    {
        proof {
            lemma_contents_domain(self.files@, name@);
        }
        match self.index_of(name) {
            None => Err(StorageError::NotFound),
            Some(i) => {
                proof {
                    lemma_contents_at(self.files@, i as int);
                }
                let mut grown = self.files[i].1.clone();
                let mut k: usize = 0;
                while k < chunk.len()
                    invariant
                        k <= chunk@.len(),
                        grown@ == self.files@[i as int].1@ + chunk@.subrange(0, k as int),
                        i < self.files@.len(),
                    decreases chunk@.len() - k,
                {
                    grown.push(chunk[k]);
                    proof {
                        assert(self.files@[i as int].1@ + chunk@.subrange(0, k + 1) =~= (
                        self.files@[i as int].1@ + chunk@.subrange(0, k as int)).push(
                            chunk@[k as int],
                        ));
                    }
                    k = k + 1;
                }
                proof {
                    assert(chunk@.subrange(0, chunk@.len() as int) =~= chunk@);
                }
                let name_again = self.files[i].0.clone();
                self.files.set(i, (name_again, grown));
                proof {
                    lemma_update_contents(old(self).files@, i as int, self.files@[i as int]);
                }
                Ok(())
            },
        }
    }

    /// The contents of the file called `name`, if it is present.
    pub fn read(&self, name: &str) -> (r: Option<&Vec<u8>>)
        requires
            self.wf(),
        ensures
            (match r {
                Some(v) => self@.contains_key(name@) && self@[name@] == v@,
                None => !self@.contains_key(name@),
            }),
    {
        proof {
            lemma_contents_domain(self.files@, name@);
        }
        match self.index_of(name) {
            None => None,
            Some(i) => {
                proof {
                    lemma_contents_at(self.files@, i as int);
                }
                Some(&self.files[i].1)
            },
        }
    }
}

proof fn lemma_update_contents(files: Seq<(String, Vec<u8>)>, i: int, entry: (String, Vec<u8>))
    requires
        0 <= i < files.len(),
        forall|j: int, k: int| 0 <= j < k < files.len() ==> files[j].0@ != files[k].0@,
        entry.0@ == files[i].0@,
    ensures
        contents_of(files.update(i, entry)) == contents_of(files).insert(entry.0@, entry.1@),
    decreases files.len(),
{
    let updated = files.update(i, entry);
    if i == files.len() - 1 {
        assert(updated.drop_last() =~= files.drop_last());
        assert(updated.last() == entry);
        assert(contents_of(files).insert(entry.0@, entry.1@) =~= contents_of(
            files.drop_last(),
        ).insert(entry.0@, entry.1@));
    } else {
        assert(forall|j: int, k: int|
            0 <= j < k < files.len() - 1 ==> files.drop_last()[j].0@ != files.drop_last()[k].0@);
        assert(updated.drop_last() =~= files.drop_last().update(i, entry));
        lemma_update_contents(files.drop_last(), i, entry);
        assert(updated.last() == files.last());
        assert(files.last().0@ != entry.0@);
        assert(contents_of(files.drop_last()).insert(entry.0@, entry.1@).insert(
            files.last().0@,
            files.last().1@,
        ) =~= contents_of(files.drop_last()).insert(files.last().0@, files.last().1@).insert(
            entry.0@,
            entry.1@,
        ));
    }
}

} // verus!
