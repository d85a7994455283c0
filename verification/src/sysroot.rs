//! The crates of the standard library as found under the compiler's sysroot.
use vstd::prelude::*;
use vstd::string::StringExecFns;

verus! {

/// One crate of the sysroot.
#[derive(Clone, Debug)]
pub struct SysrootCrateData {
    pub name: String,
    /// Path of the crate's root file.
    pub root: String,
    /// Folder that holds the root file.
    pub root_dir: String,
    /// Positions in [`Sysroot::crates`] of the crates this one depends on.
    pub deps: Vec<usize>,
}

/// The sysroot. A crate is known by its position in `crates`.
#[derive(Clone, Debug)]
pub struct Sysroot {
    pub crates: Vec<SysrootCrateData>,
}

/// Position of the first crate of `crates` among the first `n` that is
/// called `name`, if there is one.
pub open spec fn first_named(crates: Seq<SysrootCrateData>, name: Seq<char>, n: int) -> Option<int>
    decreases n,
{
    if n <= 0 {
        None
    } else {
        match first_named(crates, name, n - 1) {
            Some(i) => Some(i),
            None => if crates[n - 1].name@ == name {
                Some(n - 1)
            } else {
                None
            },
        }
    }
}

impl Sysroot {
    /// Position of the first crate called `name`.
    pub open spec fn spec_by_name(&self, name: Seq<char>) -> Option<int> {
        first_named(self.crates@, name, self.crates@.len() as int)
    }

    /// Position of the first crate called `name`.
    pub fn by_name(&self, name: &str) -> (found: Option<usize>)
        ensures
            found matches Some(i) ==> self.spec_by_name(name@) == Some(i as int),
            found is None ==> self.spec_by_name(name@) is None,
    {
        let wanted = String::from_str(name);
        let mut i: usize = 0;
        while i < self.crates.len()
            invariant
                0 <= i <= self.crates.len(),
                wanted@ == name@,
                first_named(self.crates@, name@, i as int) is None,
            decreases self.crates.len() - i,
        {
            if self.crates[i].name == wanted {
                proof {
                    lemma_first_named_stable(self.crates@, name@, i as int + 1, self.crates@.len() as int);
                }
                return Some(i);
            }
            i += 1;
        }
        None
    }

    /// Position of the crate called `std`.
    pub fn std_crate(&self) -> (found: Option<usize>)
        ensures
            found matches Some(i) ==> self.spec_by_name("std"@) == Some(i as int),
            found is None ==> self.spec_by_name("std"@) is None,
    {
        self.by_name("std")
    }
}

/// Once a crate of that name is found, looking further changes nothing.
pub(crate) proof fn lemma_first_named_stable(crates: Seq<SysrootCrateData>, name: Seq<char>, n: int, m: int)
    requires
        0 <= n <= m,
        first_named(crates, name, n) is Some,
    ensures
        first_named(crates, name, m) == first_named(crates, name, n),
    decreases m - n,
{
    if n < m {
        lemma_first_named_stable(crates, name, n, m - 1);
    }
}

} // verus!
