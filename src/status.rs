//! The caller's record of which patch URIs have been applied.
use vstd::hash_map::StringHashMap;
use vstd::prelude::*;

verus! {

/// Whether the patch at a URI has been applied to the font yet.
#[derive(PartialEq, Eq, Debug)]
pub enum UriStatus {
    Applied,
    /// Not applied yet; holds the fetched patch data.
    Pending(Vec<u8>),
}

/// The status of each patch URI known to the caller.
pub struct UriStatusMap {
    map: StringHashMap<UriStatus>,
}

impl View for UriStatusMap {
    type V = Map<Seq<char>, UriStatus>;

    closed spec fn view(&self) -> Map<Seq<char>, UriStatus> {
        self.map@
    }
}

impl UriStatusMap {
    /// A map with no URI in it.
    pub fn new() -> (r: UriStatusMap)
        ensures
            r@ == Map::<Seq<char>, UriStatus>::empty(),
    {
        UriStatusMap { map: StringHashMap::new() }
    }

    /// Sets the status of `uri`.
    pub fn insert(&mut self, uri: String, status: UriStatus)
        ensures
            final(self)@ == old(self)@.insert(uri@, status),
    {
        self.map.insert(uri, status);
    }

    /// The status of `uri`, if it is known.
    pub fn get(&self, uri: &str) -> (r: Option<&UriStatus>)
        ensures
            match r {
                Some(s) => self@.contains_key(uri@) && *s == self@[uri@],
                None => !self@.contains_key(uri@),
            },
    {
        self.map.get(uri)
    }

    /// Whether the status of `uri` is known.
    pub fn contains_key(&self, uri: &str) -> (r: bool)
        ensures
            r == self@.contains_key(uri@),
    {
        self.map.contains_key(uri)
    }

    /// The number of URIs in the map.
    pub fn len(&self) -> (r: usize)
        ensures
            r == self@.len(),
    {
        self.map.len()
    }
}

} // verus!
