//! Adapter descriptions and lookups in a list of registered adapters.
use vstd::prelude::*;
use vstd::string::StringExecFns;

verus! {

/// The version recorded in adapter descriptions.
pub const ADAPTER_VERSION: &'static str = "0.1.0";

/// Information about a CAN adapter.
#[derive(Debug)]
pub struct AdapterInfo {
    /// Stable adapter name.
    pub name: String,
    /// Human-readable adapter description.
    pub description: String,
    /// Adapter crate version.
    pub version: String,
    /// Whether CAN FD is supported.
    pub supports_fd: bool,
    /// Whether CAN XL is supported.
    pub supports_xl: bool,
    /// Whether hardware filters are supported.
    pub supports_hw_filters: bool,
    /// Supported platform names.
    pub platforms: Vec<String>,
}

/// The content of an adapter description.
pub ghost struct AdapterInfoModel {
    pub name: Seq<char>,
    pub description: Seq<char>,
    pub version: Seq<char>,
    pub supports_fd: bool,
    pub supports_xl: bool,
    pub supports_hw_filters: bool,
    pub platforms: Seq<Seq<char>>,
}

impl View for AdapterInfo {
    type V = AdapterInfoModel;

    open spec fn view(&self) -> AdapterInfoModel {
        AdapterInfoModel {
            name: self.name@,
            description: self.description@,
            version: self.version@,
            supports_fd: self.supports_fd,
            supports_xl: self.supports_xl,
            supports_hw_filters: self.supports_hw_filters,
            platforms: self.platforms@.map_values(|p: String| p@),
        }
    }
}

/// Copies a list of strings.
fn clone_strings(v: &Vec<String>) -> (r: Vec<String>)
    ensures
        r@.map_values(|p: String| p@) == v@.map_values(|p: String| p@),
{
    let mut r: Vec<String> = Vec::new();
    let mut i: usize = 0;
    while i < v.len()
        invariant
            i <= v@.len(),
            r@.len() == i,
            forall|k: int| 0 <= k < i ==> (#[trigger] r@[k])@ == v@[k]@,
        decreases v@.len() - i,
    {
        r.push(v[i].clone());
        i = i + 1;
    }
    assert(r@.map_values(|p: String| p@) =~= v@.map_values(|p: String| p@));
    r
}

impl Clone for AdapterInfo {
    fn clone(&self) -> (c: Self)
        ensures
            c@ == self@,
    {
        AdapterInfo {
            name: self.name.clone(),
            description: self.description.clone(),
            version: self.version.clone(),
            supports_fd: self.supports_fd,
            supports_xl: self.supports_xl,
            supports_hw_filters: self.supports_hw_filters,
            platforms: clone_strings(&self.platforms),
        }
    }
}

impl AdapterInfo {
    /// Creates adapter metadata with default capabilities: no FD, XL or
    /// hardware filters, no platforms, and the adapter crate's version.
    pub fn new(name: &str, description: &str) -> (info: Self)
        ensures
            info@ == (AdapterInfoModel {
                name: name@,
                description: description@,
                version: ADAPTER_VERSION@,
                supports_fd: false,
                supports_xl: false,
                supports_hw_filters: false,
                platforms: Seq::empty(),
            }),
    {
        let info = AdapterInfo {
            name: String::from_str(name),
            description: String::from_str(description),
            version: String::from_str(ADAPTER_VERSION),
            supports_fd: false,
            supports_xl: false,
            supports_hw_filters: false,
            platforms: Vec::new(),
        };
        assert(info.platforms@.map_values(|p: String| p@) =~= Seq::<Seq<char>>::empty());
        info
    }

    /// Sets CAN FD support metadata.
    pub fn with_fd_support(self, supports: bool) -> (info: Self)
        ensures
            info@ == (AdapterInfoModel { supports_fd: supports, ..self@ }),
    {
        let mut info = self;
        info.supports_fd = supports;
        info
    }

    /// Sets CAN XL support metadata.
    pub fn with_xl_support(self, supports: bool) -> (info: Self)
        ensures
            info@ == (AdapterInfoModel { supports_xl: supports, ..self@ }),
    {
        let mut info = self;
        info.supports_xl = supports;
        info
    }

    /// Sets hardware-filter support metadata.
    pub fn with_hw_filters(self, supports: bool) -> (info: Self)
        ensures
            info@ == (AdapterInfoModel { supports_hw_filters: supports, ..self@ }),
    {
        let mut info = self;
        info.supports_hw_filters = supports;
        info
    }
}

/// The names of the registered adapters, in registration order.
pub fn list_adapters(registry: &[AdapterInfo]) -> (names: Vec<String>)
    ensures
        names@.len() == registry@.len(),
        forall|k: int| 0 <= k < registry@.len() ==> (#[trigger] names@[k])@ == registry@[k].name@,
{
    let mut names: Vec<String> = Vec::new();
    let mut i: usize = 0;
    while i < registry.len()
        invariant
            i <= registry@.len(),
            names@.len() == i,
            forall|k: int| 0 <= k < i ==> (#[trigger] names@[k])@ == registry@[k].name@,
        decreases registry@.len() - i,
    {
        names.push(registry[i].name.clone());
        i = i + 1;
    }
    names
}

/// The first registered adapter with a name, if any.
pub fn find_adapter(registry: &[AdapterInfo], name: &str) -> (r: Option<AdapterInfo>)
    ensures
        match r {
            Some(info) => exists|k: int|
                0 <= k < registry@.len() && registry@[k].name@ == name@ && info@ == registry@[k]@
                    && forall|j: int| 0 <= j < k ==> (#[trigger] registry@[j]).name@ != name@,
            None => forall|k: int| 0 <= k < registry@.len() ==> (#[trigger] registry@[k]).name@ != name@,
        },
{
    let mut i: usize = 0;
    while i < registry.len()
        invariant
            i <= registry@.len(),
            forall|j: int| 0 <= j < i ==> (#[trigger] registry@[j]).name@ != name@,
        decreases registry@.len() - i,
    {
        if crate::text::str_equal(registry[i].name.as_str(), name) {
            return Some(registry[i].clone());
        }
        i = i + 1;
    }
    None
}

} // verus!
