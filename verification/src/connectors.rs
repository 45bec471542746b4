//! The adapter registry: an ordered, fixed-at-construction collection
//! of the known adapters, addressed by integer index.  Index 0 is the
//! REST adapter, index 1 the scraping adapter; the preference store
//! scopes its per-adapter data by the same index.  Validating an index
//! is the boundary layer's job, not the registry's.

use vstd::prelude::*;

use crate::mangadex::MangaDex;
use crate::mangakakalot::MangaKakalot;
use vstd::string::StringExecFns;

verus! {

pub struct Connectors {
    pub mangadex: MangaDex,
    pub mangakakalot: MangaKakalot,
}

impl Connectors {
    pub fn new() -> (r: Connectors) {
        Connectors { mangadex: MangaDex::new(), mangakakalot: MangaKakalot::new() }
    }

    /// How many adapters the registry holds.
    pub fn len(&self) -> (r: usize)
        ensures
            r == 2,
    {
        2
    }

    /// The adapters' names, in index order.
    pub fn names(&self) -> (r: Vec<String>)
        ensures
            r@.len() == 2,
            r@[0]@ == "MangaDex"@,
            r@[1]@ == "MangaKakalot"@,
    {
        let mut v: Vec<String> = Vec::new();
        let mut a = String::new();
        a.append(self.mangadex.name());
        v.push(a);
        let mut b = String::new();
        b.append(self.mangakakalot.name());
        v.push(b);
        v
    }
}

} // verus!
