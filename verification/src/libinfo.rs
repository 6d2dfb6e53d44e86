use vstd::prelude::*;

verus! {

/// One discovered static library: its file name (the `lib<name>.a` form)
/// and the directory it was found in, which a linker search path is later
/// derived from. Identity of a library is its name alone.
#[derive(Debug)]
pub struct LibInfo {
    pub name: String,
    pub dir: String,
}

impl LibInfo {
    pub fn new(name: String, dir: String) -> (r: LibInfo)
        ensures
            r.name == name,
            r.dir == dir,
    {
        LibInfo { name, dir }
    }

    /// The library's name, for diagnostics.
    pub fn display_string(&self) -> (r: String)
        ensures
            r@ == self.name@,
    {
        self.name.clone()
    }
}

impl Clone for LibInfo {
    fn clone(&self) -> (r: Self)
        ensures
            r == *self,
    {
        LibInfo { name: self.name.clone(), dir: self.dir.clone() }
    }
}

impl PartialEq for LibInfo {
    fn eq(&self, other: &Self) -> (r: bool) {
        self.name == other.name
    }
}

impl vstd::std_specs::cmp::PartialEqSpecImpl for LibInfo {
    open spec fn obeys_eq_spec() -> bool {
        true
    }

    open spec fn eq_spec(&self, other: &Self) -> bool {
        self.name@ == other.name@
    }
}

impl Eq for LibInfo {

}

impl Default for LibInfo {
    fn default() -> (r: Self)
        ensures
            r.name@ == Seq::<char>::empty(),
            r.dir@ == Seq::<char>::empty(),
    {
        LibInfo { name: String::new(), dir: String::new() }
    }
}

} // verus!
