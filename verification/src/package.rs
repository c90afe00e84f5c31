//! Packages and forests of packages, with their mathematical views.

use vstd::prelude::*;

verus! {

/// A package: a node of the dependency forest.
///
/// A package owns its dependencies, so a package with everything below it is a
/// tree. The integrity is empty until somebody has computed it.
#[derive(Debug, PartialEq, Eq)]
pub struct Package {
    pub name: String,
    pub version: String,
    pub dependencies: Vec<Package>,
    pub integrity: String,
    pub installed: bool,
}

/// What a [`Package`] is, as a value of mathematics.
pub ghost struct PackageView {
    pub name: Seq<char>,
    pub version: Seq<char>,
    pub dependencies: Seq<PackageView>,
    pub integrity: Seq<char>,
    pub installed: bool,
}

impl PackageView {
    /// The package that `Package::new` builds: nothing below it, not installed,
    /// no integrity yet.
    pub open spec fn leaf(name: Seq<char>, version: Seq<char>) -> PackageView {
        PackageView {
            name,
            version,
            dependencies: Seq::empty(),
            integrity: Seq::empty(),
            installed: false,
        }
    }

    /// The display form, `name@version`.
    pub open spec fn display(self) -> Seq<char> {
        self.name + seq!['@'] + self.version
    }
}

/// The views of a sequence of packages, one by one.
pub open spec fn views(s: Seq<Package>) -> Seq<PackageView>
    decreases s, 0int,
{
    Seq::new(
        s.len(),
        |i: int|
            if 0 <= i < s.len() {
                s[i]@
            } else {
                arbitrary()
            },
    )
}

/// `views` keeps the length and takes the view at every index.
pub proof fn lemma_views_index(s: Seq<Package>)
    ensures
        views(s).len() == s.len(),
        forall|i: int| 0 <= i < s.len() ==> #[trigger] views(s)[i] == s[i]@,
{
}

impl View for Package {
    type V = PackageView;

    open spec fn view(&self) -> PackageView
        decreases self, 1int,
    {
        PackageView {
            name: self.name@,
            version: self.version@,
            dependencies: views(self.dependencies@),
            integrity: self.integrity@,
            installed: self.installed,
        }
    }
}

impl Package {
    /// A package with no dependencies, not installed and without integrity.
    pub fn new(name: String, version: String) -> (p: Self)
        ensures
            p@ == PackageView::leaf(name@, version@),
    {
        let p = Package {
            name,
            version,
            dependencies: Vec::new(),
            integrity: String::new(),
            installed: false,
        };
        assert(p@.dependencies =~= Seq::empty());
        p
    }

    /// Whether the package is installed.
    pub fn is_installed(&self) -> (b: bool)
        ensures
            b == self@.installed,
    {
        self.installed
    }

    /// Whether the package has at least one dependency.
    pub fn has_deps(&self) -> (b: bool)
        ensures
            b == (self@.dependencies.len() > 0),
    {
        proof {
            lemma_views_index(self.dependencies@);
        }
        self.dependencies.len() > 0
    }

    /// The display form, `name@version`.
    pub fn to_string(&self) -> (s: String)
        ensures
            s@ == self@.display(),
    {
        proof {
            reveal_strlit("@");
        }
        let s = self.name.clone().concat("@").concat(self.version.as_str());
        assert("@"@ =~= seq!['@']);
        s
    }
}

impl Clone for Package {
    /// A deep copy: the package with everything below it.
    fn clone(&self) -> (p: Self)
        ensures
            p@ == self@,
        decreases self,
    {
        let mut dependencies: Vec<Package> = Vec::new();
        let n = self.dependencies.len();
        let mut i: usize = 0;
        while i < n
            invariant
                n == self.dependencies.len(),
                i <= n,
                dependencies.len() == i,
                forall|j: int| 0 <= j < i ==> dependencies@[j]@ == self.dependencies@[j]@,
            decreases n - i,
        {
            let d = self.dependencies[i].clone();
            dependencies.push(d);
            i = i + 1;
        }
        assert(views(dependencies@) =~= views(self.dependencies@));
        Package {
            name: self.name.clone(),
            version: self.version.clone(),
            dependencies,
            integrity: self.integrity.clone(),
            installed: self.installed,
        }
    }
}

} // verus!
