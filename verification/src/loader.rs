//! The programs that are built into the kernel image, by name.

use vstd::prelude::*;

verus! {

/// The built-in programs: for each its name and its ELF file.
pub struct AppRegistry {
    names: Vec<Vec<u8>>,
    data: Vec<Vec<u8>>,
}

/// Index of the first of `names` that equals `name`, below `upto`.
pub open spec fn first_named(names: Seq<Seq<u8>>, name: Seq<u8>, upto: int) -> Option<int>
    decreases upto,
{
    if upto <= 0 {
        None
    } else {
        match first_named(names, name, upto - 1) {
            Some(i) => Some(i),
            None => if names[upto - 1] == name {
                Some(upto - 1)
            } else {
                None
            },
        }
    }
}

fn same_bytes(a: &Vec<u8>, b: &[u8]) -> (r: bool)
    ensures
        r == (a@ == b@),
{
    if a.len() != b.len() {
        return false;
    }
    let mut i: usize = 0;
    while i < a.len()
        invariant
            i <= a@.len(),
            a@.len() == b@.len(),
            forall|j: int| 0 <= j < i ==> a@[j] == b@[j],
        decreases a@.len() - i,
    {
        if a[i] != b[i] {
            return false;
        }
        i += 1;
    }
    assert(a@ =~= b@);
    true
}

impl AppRegistry {
    /// The names of the programs, in the order of the image.
    pub closed spec fn names(&self) -> Seq<Seq<u8>> {
        Seq::new(self.names@.len(), |i: int| self.names@[i]@)
    }

    /// The files of the programs, in the order of the image.
    pub closed spec fn files(&self) -> Seq<Seq<u8>> {
        Seq::new(self.data@.len(), |i: int| self.data@[i]@)
    }

    /// Whether there is a file for every name.
    pub open spec fn wf(&self) -> bool {
        self.names().len() == self.files().len()
    }

    /// The registry of the programs with the given names and files; `None`
    /// unless there are as many names as files.
    pub fn new(names: Vec<Vec<u8>>, data: Vec<Vec<u8>>) -> (r: Option<Self>)
        ensures
            r.is_some() <==> names@.len() == data@.len(),
            r matches Some(apps) ==> apps.wf() && apps.names() == Seq::new(
                names@.len(),
                |i: int| names@[i]@,
            ) && apps.files() == Seq::new(data@.len(), |i: int| data@[i]@),
    {
        if names.len() != data.len() {
            return None;
        }
        Some(AppRegistry { names, data })
    }

    pub fn get_num_app(&self) -> (r: usize)
        ensures
            r == self.names().len(),
    {
        self.names.len()
    }

    /// The file of program `app_id`.
    pub fn get_app_data(&self, app_id: usize) -> (r: &Vec<u8>)
        requires
            self.wf(),
            app_id < self.names().len(),
        ensures
            r@ == self.files()[app_id as int],
    {
        &self.data[app_id]
    }

    /// The file of the first program called `name`, if there is one.
    pub fn get_app_data_by_name(&self, name: &[u8]) -> (r: Option<&Vec<u8>>)
        requires
            self.wf(),
        ensures
            match r {
                Some(file) => first_named(self.names(), name@, self.names().len() as int) matches Some(
                    i,
                ) && 0 <= i < self.files().len() && file@ == self.files()[i],
                None => first_named(self.names(), name@, self.names().len() as int).is_none(),
            },
    {
        let mut i: usize = 0;
        while i < self.names.len()
            invariant
                i <= self.names@.len(),
                self.wf(),
                first_named(self.names(), name@, i as int).is_none(),
            decreases self.names@.len() - i,
        {
            if same_bytes(&self.names[i], name) {
                proof {
                    assert(self.names()[i as int] == name@);
                    Self::lemma_first_named_stays(self.names(), name@, i as int + 1, self.names().len() as int);
                }
                return Some(self.get_app_data(i));
            }
            proof {
                assert(self.names()[i as int] != name@);
            }
            i += 1;
        }
        None
    }

    proof fn lemma_first_named_stays(names: Seq<Seq<u8>>, name: Seq<u8>, found: int, upto: int)
        requires
            found <= upto,
            first_named(names, name, found).is_some(),
        ensures
            first_named(names, name, upto) == first_named(names, name, found),
        decreases upto - found,
    {
        if found < upto {
            Self::lemma_first_named_stays(names, name, found, upto - 1);
        }
    }

    /// The names of all programs.
    pub fn list_apps(&self) -> (r: &Vec<Vec<u8>>)
        ensures
            r@.len() == self.names().len(),
            forall|i: int| 0 <= i < r@.len() ==> (#[trigger] r@[i])@ == self.names()[i],
    {
        &self.names
    }
}

} // verus!
