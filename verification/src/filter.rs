//! Acceptance filters.
//!
//! A filter matches a message when
//! `(received_id & mask) == (filter_id & mask)` and, if the filter names a
//! frame kind, the message's extended flag equals it. A filter set matches
//! when any of its filters does; an empty set matches everything.
use vstd::prelude::*;

use crate::message::flags::{flag_set, EXTENDED_ID};
use crate::message::CanMessage;

verus! {

/// A single CAN message filter.
#[derive(Debug, Clone, Copy, PartialEq, Eq, Structural)]
pub struct CanFilter {
    /// The CAN ID to match against.
    pub can_id: u32,
    /// Mask applied to both the filter ID and the received ID; only bits
    /// where the mask is 1 are compared.
    pub can_mask: u32,
    /// `Some(true)`: only extended frames; `Some(false)`: only standard
    /// frames; `None`: both.
    pub extended: Option<bool>,
}

/// Whether filter `f` accepts a frame with identifier `id` whose extended flag is `ext`.
pub open spec fn filter_accepts(f: CanFilter, id: u32, ext: bool) -> bool {
    &&& (f.extended matches Some(e) ==> e == ext)
    &&& (f.can_id ^ id) & f.can_mask == 0
}

/// Whether a list of filters accepts a frame: it is empty, or one of its filters does.
pub open spec fn filters_accept(fs: Seq<CanFilter>, id: u32, ext: bool) -> bool {
    fs.len() == 0 || exists|i: int| 0 <= i < fs.len() && filter_accepts(#[trigger] fs[i], id, ext)
}

impl CanFilter {
    /// Creates a new filter.
    pub fn new(can_id: u32, can_mask: u32, extended: Option<bool>) -> (f: Self)
        ensures
            f == (CanFilter { can_id, can_mask, extended }),
    {
        CanFilter { can_id, can_mask, extended }
    }

    /// Whether a message passes this filter.
    pub fn matches(&self, msg: &CanMessage) -> (b: bool)
        ensures
            b == filter_accepts(*self, msg.arbitration_id, flag_set(msg.flags, EXTENDED_ID)),
    {
        if let Some(filter_extended) = self.extended {
            if filter_extended != msg.is_extended_id() {
                return false;
            }
        }
        (self.can_id ^ msg.arbitration_id) & self.can_mask == 0
    }
}

/// A collection of CAN filters with OR semantics; empty matches all.
#[derive(Debug, Clone, Default)]
pub struct CanFilters {
    filters: Vec<CanFilter>,
}

impl View for CanFilters {
    type V = Seq<CanFilter>;

    closed spec fn view(&self) -> Seq<CanFilter> {
        self.filters@
    }
}

impl CanFilters {
    /// Creates an empty filter set (matches all messages).
    pub fn new() -> (fs: Self)
        ensures
            fs@ == Seq::<CanFilter>::empty(),
    {
        CanFilters { filters: Vec::new() }
    }

    /// Creates a filter set from a list of filters.
    pub fn from_filters(filters: Vec<CanFilter>) -> (fs: Self)
        ensures
            fs@ == filters@,
    {
        CanFilters { filters }
    }

    /// Adds a filter.
    pub fn add(&mut self, filter: CanFilter)
        ensures
            final(self)@ == old(self)@.push(filter),
    {
        self.filters.push(filter);
    }

    /// Whether a message passes the set: the set is empty or one filter matches.
    pub fn matches(&self, msg: &CanMessage) -> (b: bool)
        ensures
            b == filters_accept(self@, msg.arbitration_id, flag_set(msg.flags, EXTENDED_ID)),
    {
        if self.filters.len() == 0 {
            return true;
        }
        let mut i: usize = 0;
        while i < self.filters.len()
            invariant
                i <= self.filters@.len(),
                forall|k: int|
                    0 <= k < i ==> !filter_accepts(
                        #[trigger] self.filters@[k],
                        msg.arbitration_id,
                        flag_set(msg.flags, EXTENDED_ID),
                    ),
            decreases self.filters.len() - i,
        {
            if self.filters[i].matches(msg) {
                return true;
            }
            i = i + 1;
        }
        false
    }

    /// The number of filters.
    pub fn len(&self) -> (n: usize)
        ensures
            n == self@.len(),
    {
        self.filters.len()
    }

    /// Whether there are no filters (the set matches all).
    pub fn is_empty(&self) -> (b: bool)
        ensures
            b == (self@.len() == 0),
    {
        self.filters.len() == 0
    }

    /// The filter list (for hardware filter programming).
    pub fn as_slice(&self) -> (s: &[CanFilter])
        ensures
            s@ == self@,
    {
        self.filters.as_slice()
    }
}

impl From<Vec<CanFilter>> for CanFilters {
    fn from(filters: Vec<CanFilter>) -> (fs: Self)
        ensures
            fs@ == filters@,
    {
        CanFilters { filters }
    }
}

impl vstd::std_specs::convert::FromSpecImpl<Vec<CanFilter>> for CanFilters {
    open spec fn obeys_from_spec() -> bool {
        true
    }

    closed spec fn from_spec(filters: Vec<CanFilter>) -> Self {
        CanFilters { filters }
    }
}

impl From<CanFilter> for CanFilters {
    fn from(filter: CanFilter) -> (fs: Self)
        ensures
            fs@ == seq![filter],
    {
        let mut filters: Vec<CanFilter> = Vec::new();
        filters.push(filter);
        CanFilters { filters }
    }
}

impl vstd::std_specs::convert::FromSpecImpl<CanFilter> for CanFilters {
    /// The vector inside a fresh set is known only by its contents, so no
    /// single value is promised; `from` states what holds.
    open spec fn obeys_from_spec() -> bool {
        false
    }

    open spec fn from_spec(filter: CanFilter) -> Self {
        choose|fs: CanFilters| fs@ == seq![filter]
    }
}

/// An empty filter set accepts every message.
pub proof fn law_empty_filters_accept_all(id: u32, ext: bool)
    ensures
        filters_accept(Seq::empty(), id, ext),
{
}

/// A non-empty filter set accepts exactly the messages that one of its
/// filters accepts, and adding a filter only widens what it accepts.
pub proof fn law_filters_or(fs: Seq<CanFilter>, f: CanFilter, id: u32, ext: bool)
    ensures
        filters_accept(fs.push(f), id, ext) <==> (filter_accepts(f, id, ext) || (fs.len() > 0
            && filters_accept(fs, id, ext))),
{
    let g = fs.push(f);
    if filter_accepts(f, id, ext) {
        assert(g[fs.len() as int] == f);
    }
    if fs.len() > 0 && filters_accept(fs, id, ext) {
        let i = choose|i: int| 0 <= i < fs.len() && filter_accepts(#[trigger] fs[i], id, ext);
        assert(g[i] == fs[i]);
    }
    if filters_accept(g, id, ext) {
        let i = choose|i: int| 0 <= i < g.len() && filter_accepts(#[trigger] g[i], id, ext);
        if i < fs.len() {
            assert(g[i] == fs[i]);
        }
    }
}

/// A filter with a full mask on the standard (11-bit) range and `Some(false)`
/// accepts exactly the standard frames whose identifier equals the filter's
/// in those bits.
pub proof fn law_exact_standard_filter(can_id: u32, id: u32, ext: bool)
    requires
        can_id < 0x800,
        id < 0x800,
    ensures
        filter_accepts(CanFilter { can_id, can_mask: 0x7FF, extended: Some(false) }, id, ext) <==> (
        !ext && id == can_id),
{
    assert((can_id ^ id) & 0x7FF == 0 <==> id == can_id) by (bit_vector)
        requires
            can_id < 0x800,
            id < 0x800,
    ;
}

/// A filter accepts exactly the frames whose identifier equals the
/// filter's in every bit of the 32-bit mask, of the kind it names, for
/// standard and extended frames alike.
pub proof fn law_filter_compares_masked_bits(f: CanFilter, id: u32, ext: bool)
    ensures
        filter_accepts(f, id, ext) <==> ((f.extended matches Some(e) ==> e == ext) && id & f.can_mask
            == f.can_id & f.can_mask),
{
    let a = f.can_id;
    let m = f.can_mask;
    assert(((a ^ id) & m == 0) <==> (id & m == a & m)) by (bit_vector);
}

/// A filter with the full 29-bit mask and `Some(true)` accepts exactly the
/// extended frames whose identifier equals the filter's.
pub proof fn law_exact_extended_filter(can_id: u32, id: u32, ext: bool)
    requires
        can_id < 0x2000_0000,
        id < 0x2000_0000,
    ensures
        filter_accepts(CanFilter { can_id, can_mask: 0x1FFF_FFFF, extended: Some(true) }, id, ext) <==> (
        ext && id == can_id),
{
    assert((can_id ^ id) & 0x1FFF_FFFF == 0 <==> id == can_id) by (bit_vector)
        requires
            can_id < 0x2000_0000,
            id < 0x2000_0000,
    ;
}

} // verus!
