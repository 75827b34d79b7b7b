//! Instrumented profiling: named scopes opened and closed in nested order,
//! their wall time summed per call stack, and dumped as folded stacks
//! (`outer;inner 1234`, one line per stack, heaviest first).
use vstd::prelude::*;

use crate::external::{instant_now, nanos_since};
use crate::text::{chars_of, dec_digits, decimal_string, str_equal};

verus! {

/// The characters of each name on a stack.
pub open spec fn names_view(names: Seq<&'static str>) -> Seq<Seq<char>> {
    names.map_values(|n: &'static str| n@)
}

/// One accumulated call stack: its frames, total nanoseconds and number of
/// closed scopes.
pub type StackTotal = (Seq<Seq<char>>, u64, u64);

/// `a + b`, held at the bound of `u64`.
pub open spec fn sat_add(a: u64, b: u64) -> u64 {
    if a + b > u64::MAX {
        u64::MAX
    } else {
        (a + b) as u64
    }
}

/// Whether `a` may be dumped before `b`: more total time, or the same time
/// and at least as many samples.
pub open spec fn ranks_before(a: StackTotal, b: StackTotal) -> bool {
    a.1 > b.1 || (a.1 == b.1 && a.2 >= b.2)
}

/// The totals after one more sample of `elapsed` nanoseconds for `key`:
/// added to its entry, or a new entry at the end.
pub open spec fn with_sample(totals: Seq<StackTotal>, key: Seq<Seq<char>>, elapsed: u64) -> Seq<StackTotal> {
    if exists|i: int| 0 <= i < totals.len() && #[trigger] totals[i].0 == key {
        let i = choose|i: int| 0 <= i < totals.len() && #[trigger] totals[i].0 == key;
        totals.update(i, (key, sat_add(totals[i].1, elapsed), sat_add(totals[i].2, 1)))
    } else {
        totals.push((key, elapsed, 1))
    }
}

/// Frame names joined by `;`.
pub open spec fn join_names(names: Seq<Seq<char>>) -> Seq<char>
    decreases names.len(),
{
    if names.len() == 0 {
        seq![]
    } else if names.len() == 1 {
        names[0]
    } else {
        join_names(names.drop_last()) + seq![';'] + names.last()
    }
}

/// One folded-stack line: the frames, a space, the total in nanoseconds.
pub open spec fn folded_line(t: StackTotal) -> Seq<char> {
    join_names(t.0) + seq![' '] + chars_of(dec_digits(t.1 as nat)) + seq!['\n']
}

/// The lines of the totals taken in `order`.
pub open spec fn folded_text(totals: Seq<StackTotal>, order: Seq<usize>) -> Seq<char>
    decreases order.len(),
{
    if order.len() == 0 {
        seq![]
    } else {
        folded_text(totals, order.drop_last()) + folded_line(totals[order.last() as int])
    }
}

/// `order` lists every entry once, heaviest first.
pub open spec fn is_dump_order(totals: Seq<StackTotal>, order: Seq<usize>) -> bool {
    &&& order.len() == totals.len()
    &&& forall|k: int| 0 <= k < order.len() ==> #[trigger] order[k] < totals.len()
    &&& forall|j: int, k: int| 0 <= j < k < order.len() ==> order[j] != order[k]
    &&& forall|j: int, k: int|
        0 <= j < k < order.len() ==> ranks_before(
            #[trigger] totals[order[j] as int],
            #[trigger] totals[order[k] as int],
        )
}

/// The folded-stack text of `totals`, in some heaviest-first order.
pub open spec fn is_folded_dump(totals: Seq<StackTotal>, text: Seq<char>) -> bool {
    exists|order: Seq<usize>| #[trigger] is_dump_order(totals, order) && text == folded_text(totals, order)
}

struct FoldedEntry {
    names: Vec<&'static str>,
    total_ns: u64,
    count: u64,
}

impl FoldedEntry {
    spec fn view(&self) -> StackTotal {
        (names_view(self.names@), self.total_ns, self.count)
    }
}

/// Profiling state: whether scopes record, the stack of open scopes, and
/// the accumulated totals per call stack.
pub struct Profiler {
    enabled: bool,
    stack: Vec<&'static str>,
    entries: Vec<FoldedEntry>,
}

/// A scoped timer, opened by `Scope::new` and closed by `Scope::end`.
pub struct Scope {
    name: &'static str,
    started: std::time::Instant,
    enabled: bool,
}

impl Scope {
    /// The name recorded as the scope's own frame.
    pub closed spec fn label(&self) -> Seq<char> {
        self.name@
    }

    /// Whether profiling was on when the scope was opened.
    pub closed spec fn recording(&self) -> bool {
        self.enabled
    }

    /// Opens a scope named `name`. When profiling is on, its name goes on
    /// top of the stack of open scopes; the scope starts measuring wall
    /// time now.
    pub fn new(profiler: &mut Profiler, name: &'static str) -> (s: Scope)
        requires
            old(profiler).wf(),
        ensures
            final(profiler).wf(),
            s.label() == name@,
            s.recording() == old(profiler).is_on(),
            final(profiler).is_on() == old(profiler).is_on(),
            final(profiler).totals() == old(profiler).totals(),
            final(profiler).open_stack() == if old(profiler).is_on() {
                old(profiler).open_stack().push(name@)
            } else {
                old(profiler).open_stack()
            },
    {
        let started = instant_now();
        let enabled = profiler.enabled;
        if enabled {
            profiler.stack.push(name);
            proof {
                assert(names_view(profiler.stack@) =~= names_view(old(profiler).stack@).push(name@));
            }
        }
        Scope { name, started, enabled }
    }

    /// Closes the scope and records its wall time (see
    /// `Profiler::record_scope`), whatever the clock gave.
    pub fn end(self, profiler: &mut Profiler)
        requires
            old(profiler).wf(),
        ensures
            exists|elapsed: u64| closes(*old(profiler), *final(profiler), self, elapsed),
    {
        let nanos = nanos_since(&self.started);
        let elapsed: u64 = if nanos > 0xffff_ffff_ffff_ffffu128 {
            0xffff_ffff_ffff_ffffu64
        } else {
            nanos as u64
        };
        profiler.record_scope(self, elapsed);
    }
}

/// What closing `scope` after `elapsed` nanoseconds does: nothing when it
/// was opened with profiling off or is not on top of the stack; otherwise
/// its frame leaves the stack and the whole stack, up to and including it,
/// gets one more sample.
pub open spec fn closes(before: Profiler, after: Profiler, scope: Scope, elapsed: u64) -> bool {
    let stack = before.open_stack();
    &&& after.wf()
    &&& after.is_on() == before.is_on()
    &&& if scope.recording() && stack.len() > 0 && stack.last() == scope.label() {
        &&& after.open_stack() == stack.drop_last()
        &&& after.totals() == with_sample(before.totals(), stack, elapsed)
    } else {
        &&& after.open_stack() == stack
        &&& after.totals() == before.totals()
    }
}

/// Whether two stacks name the same frames.
fn same_names(a: &Vec<&'static str>, b: &Vec<&'static str>) -> (r: bool)
    ensures
        r == (names_view(a@) == names_view(b@)),
{
    if a.len() != b.len() {
        proof {
            assert(names_view(a@).len() != names_view(b@).len());
        }
        return false;
    }
    let mut i: usize = 0;
    while i < a.len()
        invariant
            i <= a@.len(),
            a@.len() == b@.len(),
            forall|k: int| 0 <= k < i ==> a@[k]@ == b@[k]@,
        decreases a@.len() - i,
    {
        if !str_equal(a[i], b[i]) {
            proof {
                assert(names_view(a@)[i as int] != names_view(b@)[i as int]);
            }
            return false;
        }
        i = i + 1;
    }
    proof {
        assert(names_view(a@) =~= names_view(b@));
    }
    true
}

/// A copy of a stack.
fn copy_names(names: &Vec<&'static str>) -> (r: Vec<&'static str>)
    ensures
        r@ == names@,
{
    let mut out: Vec<&'static str> = Vec::new();
    let mut i: usize = 0;
    while i < names.len()
        invariant
            i <= names@.len(),
            out@ == names@.subrange(0, i as int),
        decreases names@.len() - i,
    {
        out.push(names[i]);
        i = i + 1;
        proof {
            assert(out@ =~= names@.subrange(0, i as int));
        }
    }
    proof {
        assert(out@ =~= names@);
    }
    out
}

impl Profiler {
    /// Every call stack has at most one entry.
    pub closed spec fn wf(&self) -> bool {
        forall|i: int, j: int|
            0 <= i < j < self.entries@.len() ==> names_view((#[trigger] self.entries@[i]).names@)
                != names_view((#[trigger] self.entries@[j]).names@)
    }

    /// Whether scopes opened now record.
    pub closed spec fn is_on(&self) -> bool {
        self.enabled
    }

    /// The names of the open scopes, outermost first.
    pub closed spec fn open_stack(&self) -> Seq<Seq<char>> {
        names_view(self.stack@)
    }

    /// The accumulated totals, in the order their stacks first closed.
    pub closed spec fn totals(&self) -> Seq<StackTotal> {
        self.entries@.map_values(|e: FoldedEntry| e@)
    }

    /// A profiler with profiling off and nothing recorded.
    pub fn new() -> (p: Self)
        ensures
            p.wf(),
            !p.is_on(),
            p.open_stack().len() == 0,
            p.totals().len() == 0,
    {
        Profiler { enabled: false, stack: Vec::new(), entries: Vec::new() }
    }

    /// Turns profiling on. Idempotent.
    pub fn enable(&mut self)
        requires
            old(self).wf(),
        ensures
            final(self).wf(),
            final(self).is_on(),
            final(self).open_stack() == old(self).open_stack(),
            final(self).totals() == old(self).totals(),
    {
        self.enabled = true;
    }

    /// Turns profiling off.
    pub fn disable(&mut self)
        requires
            old(self).wf(),
        ensures
            final(self).wf(),
            !final(self).is_on(),
            final(self).open_stack() == old(self).open_stack(),
            final(self).totals() == old(self).totals(),
    {
        self.enabled = false;
    }

    /// Whether profiling is on.
    pub fn is_enabled(&self) -> (r: bool)
        ensures
            r == self.is_on(),
    {
        self.enabled
    }

    /// Closes `scope` after `elapsed` nanoseconds of wall time. A scope
    /// opened with profiling off does nothing; so does one whose name is
    /// not on top of the stack (the measurement is dropped and the stack
    /// kept). Otherwise its frame leaves the stack and the stack as it was,
    /// the scope's own frame last, gets one more sample: its total and its
    /// count grow (held at the bound of `u64`).
    pub fn record_scope(&mut self, scope: Scope, elapsed: u64)
        requires
            old(self).wf(),
        ensures
            closes(*old(self), *final(self), scope, elapsed),
    {
        if !scope.enabled {
            return;
        }
        let len = self.stack.len();
        if len == 0 {
            return;
        }
        let top = self.stack[len - 1];
        if !str_equal(top, scope.name) {
            return;
        }
        let key = copy_names(&self.stack);
        self.stack.pop();
        proof {
            assert(names_view(self.stack@) =~= names_view(old(self).stack@).drop_last());
        }
        self.add_sample(key, elapsed);
    }

    fn add_sample(&mut self, key: Vec<&'static str>, elapsed: u64)
        requires
            old(self).wf(),
        ensures
            final(self).wf(),
            final(self).enabled == old(self).enabled,
            final(self).stack@ == old(self).stack@,
            final(self).totals() == with_sample(old(self).totals(), names_view(key@), elapsed),
    {
        let ghost k = names_view(key@);
        let ghost totals = self.totals();
        let n = self.entries.len();
        let mut j: usize = 0;
        while j < n
            invariant
                n == self.entries@.len(),
                j <= n,
                self.entries@ == old(self).entries@,
                self.stack@ == old(self).stack@,
                self.enabled == old(self).enabled,
                old(self).wf(),
                totals == old(self).totals(),
                k == names_view(key@),
                forall|i: int| 0 <= i < j ==> (#[trigger] totals[i]).0 != k,
            decreases n - j,
        {
            if same_names(&self.entries[j].names, &key) {
                let total = self.entries[j].total_ns.saturating_add(elapsed);
                let count = self.entries[j].count.saturating_add(1);
                let entry = FoldedEntry { names: key, total_ns: total, count };
                proof {
                    assert(totals[j as int].0 == k);
                    let c = choose|i: int| 0 <= i < totals.len() && #[trigger] totals[i].0 == k;
                    assert(totals[c].0 == self.entries@[c]@.0);
                    assert(c == j as int);
                }
                self.entries.set(j, entry);
                proof {
                    assert(self.totals() =~= with_sample(totals, k, elapsed));
                    assert forall|a: int, b: int| 0 <= a < b < self.entries@.len() implies names_view(
                        (#[trigger] self.entries@[a]).names@,
                    ) != names_view((#[trigger] self.entries@[b]).names@) by {
                        assert(self.entries@[a]@ == self.totals()[a]);
                        assert(self.entries@[b]@ == self.totals()[b]);
                        if a != j as int && b != j as int {
                            assert(old(self).entries@[a] == self.entries@[a]);
                            assert(old(self).entries@[b] == self.entries@[b]);
                        } else if a == j as int {
                            assert(old(self).entries@[b] == self.entries@[b]);
                            assert(old(self).entries@[a]@ == totals[a]);
                        } else {
                            assert(old(self).entries@[a] == self.entries@[a]);
                            assert(old(self).entries@[b]@ == totals[b]);
                        }
                    }
                }
                return;
            }
            j = j + 1;
        }
        let entry = FoldedEntry { names: key, total_ns: elapsed, count: 1 };
        self.entries.push(entry);
        proof {
            assert(self.totals() =~= totals.push((k, elapsed, 1)));
            assert forall|a: int, b: int| 0 <= a < b < self.entries@.len() implies names_view(
                (#[trigger] self.entries@[a]).names@,
            ) != names_view((#[trigger] self.entries@[b]).names@) by {
                assert(old(self).entries@[a] == self.entries@[a]);
                if b < n {
                    assert(old(self).entries@[b] == self.entries@[b]);
                } else {
                    assert(totals[a] == old(self).entries@[a]@);
                }
            }
        }
    }

    /// Whether the entry at `index` ranks before a total of `total`
    /// nanoseconds over `count` samples.
    fn goes_before(&self, index: usize, total: u64, count: u64) -> (r: bool)
        requires
            index < self.entries@.len(),
        ensures
            r == ranks_before(self.totals()[index as int], (Seq::empty(), total, count)),
    {
        let e = &self.entries[index];
        e.total_ns > total || (e.total_ns == total && e.count >= count)
    }

    /// The entries in dump order: heaviest total first, then most samples;
    /// entries that tie keep the order in which their stacks first closed.
    fn dump_order(&self) -> (order: Vec<usize>)
        ensures
            is_dump_order(self.totals(), order@),
    {
        let ghost t = self.totals();
        let n = self.entries.len();
        let mut order: Vec<usize> = Vec::new();
        let mut i: usize = 0;
        while i < n
            invariant
                n == self.entries@.len(),
                t == self.totals(),
                i <= n,
                order@.len() == i,
                forall|k: int| 0 <= k < i ==> #[trigger] order@[k] < i,
                forall|a: int, b: int| 0 <= a < b < i ==> order@[a] != order@[b],
                forall|a: int, b: int|
                    0 <= a < b < i ==> ranks_before(
                        #[trigger] t[order@[a] as int],
                        #[trigger] t[order@[b] as int],
                    ),
            decreases n - i,
        {
            let total = self.entries[i].total_ns;
            let count = self.entries[i].count;
            let mut p: usize = 0;
            while p < order.len() && self.goes_before(order[p], total, count)
                invariant
                    n == self.entries@.len(),
                    t == self.totals(),
                    i < n,
                    order@.len() == i,
                    p <= i,
                    total == t[i as int].1,
                    count == t[i as int].2,
                    forall|k: int| 0 <= k < i ==> #[trigger] order@[k] < i,
                    forall|a: int| 0 <= a < p ==> ranks_before(#[trigger] t[order@[a] as int], t[i as int]),
                decreases i - p,
            {
                p = p + 1;
            }
            let ghost old_order = order@;
            proof {
                assert forall|b: int| p <= b < i implies !ranks_before(t[old_order[b] as int], t[i as int])
                    && ranks_before(t[i as int], #[trigger] t[old_order[b] as int]) by {
                    if p < i {
                        assert(!ranks_before(t[old_order[p as int] as int], t[i as int]));
                        if b > p {
                            assert(ranks_before(t[old_order[p as int] as int], t[old_order[b] as int]));
                        }
                    }
                }
            }
            order.insert(p, i);
            proof {
                let ord = order@;
                assert(ord == old_order.insert(p as int, i));
                assert forall|k: int| 0 <= k < i + 1 implies #[trigger] ord[k] < i + 1 by {
                    if k < p {
                        assert(ord[k] == old_order[k]);
                    } else if k > p {
                        assert(ord[k] == old_order[k - 1]);
                    }
                }
                assert forall|a: int, b: int| 0 <= a < b < i + 1 implies ord[a] != ord[b] by {
                    if a < p && b < p {
                        assert(ord[a] == old_order[a] && ord[b] == old_order[b]);
                    } else if a < p && b > p {
                        assert(ord[a] == old_order[a] && ord[b] == old_order[b - 1]);
                    } else if a > p {
                        assert(ord[a] == old_order[a - 1] && ord[b] == old_order[b - 1]);
                    } else if a == p {
                        assert(ord[b] == old_order[b - 1]);
                    } else {
                        assert(ord[a] == old_order[a]);
                    }
                }
                assert forall|a: int, b: int| 0 <= a < b < i + 1 implies ranks_before(
                    #[trigger] t[ord[a] as int],
                    #[trigger] t[ord[b] as int],
                ) by {
                    if a < p && b < p {
                        assert(ord[a] == old_order[a] && ord[b] == old_order[b]);
                    } else if a < p && b == p {
                        assert(ord[a] == old_order[a]);
                    } else if a < p && b > p {
                        assert(ord[a] == old_order[a] && ord[b] == old_order[b - 1]);
                        assert(ranks_before(t[old_order[a] as int], t[i as int]));
                        assert(ranks_before(t[i as int], t[old_order[b - 1] as int]));
                    } else if a == p {
                        assert(ord[b] == old_order[b - 1]);
                    } else {
                        assert(ord[a] == old_order[a - 1] && ord[b] == old_order[b - 1]);
                    }
                }
            }
            i = i + 1;
        }
        order
    }

    /// Appends the frames of `names` joined by `;`.
    fn push_joined(out: &mut String, names: &Vec<&'static str>)
        ensures
            final(out)@ == old(out)@ + join_names(names_view(names@)),
    {
        let ghost start = out@;
        let mut i: usize = 0;
        while i < names.len()
            invariant
                i <= names@.len(),
                out@ == start + join_names(names_view(names@.subrange(0, i as int))),
            decreases names@.len() - i,
        {
            proof {
                reveal_strlit(";");
                let before = names_view(names@.subrange(0, i as int));
                let after = names_view(names@.subrange(0, i + 1));
                assert(after.drop_last() =~= before);
                assert(after.last() == names@[i as int]@);
            }
            if i > 0 {
                out.append(";");
            }
            out.append(names[i]);
            i = i + 1;
            proof {
                let after = names_view(names@.subrange(0, i as int));
                if i == 1 {
                    assert(after =~= seq![names@[0]@]);
                }
            }
        }
        proof {
            assert(names@.subrange(0, names@.len() as int) =~= names@);
        }
    }

    /// Appends the folded stacks, one line per call stack (frames joined by
    /// `;`, a space, the total in nanoseconds), heaviest first.
    pub fn dump_folded(&self, out: &mut String)
        requires
            self.wf(),
        ensures
            is_folded_dump(self.totals(), final(out)@.subrange(old(out)@.len() as int, final(out)@.len() as int)),
            final(out)@.subrange(0, old(out)@.len() as int) == old(out)@,
    {
        let order = self.dump_order();
        let ghost t = self.totals();
        let ghost start = out@;
        let mut k: usize = 0;
        while k < order.len()
            invariant
                t == self.totals(),
                is_dump_order(t, order@),
                self.entries@.len() == t.len(),
                k <= order@.len(),
                out@ == start + folded_text(t, order@.subrange(0, k as int)),
            decreases order@.len() - k,
        {
            let e = &self.entries[order[k]];
            Self::push_joined(out, &e.names);
            proof {
                reveal_strlit(" ");
                reveal_strlit("\n");
            }
            out.append(" ");
            let number = decimal_string(e.total_ns);
            out.append(number.as_str());
            out.append("\n");
            proof {
                let prefix = order@.subrange(0, k + 1);
                assert(prefix.drop_last() =~= order@.subrange(0, k as int));
                assert(t[order@[k as int] as int] == e@);
                assert(out@ =~= start + folded_text(t, prefix));
            }
            k = k + 1;
        }
        proof {
            assert(order@.subrange(0, order@.len() as int) =~= order@);
            assert(out@.subrange(start.len() as int, out@.len() as int) =~= folded_text(t, order@));
            assert(out@.subrange(0, start.len() as int) =~= start);
        }
    }

    /// Appends the folded stacks as `dump_folded` does, then forgets every
    /// total; the open scopes and the on/off state stay.
    pub fn dump_and_reset(&mut self, out: &mut String)
        requires
            old(self).wf(),
        ensures
            is_folded_dump(old(self).totals(), final(out)@.subrange(old(out)@.len() as int, final(out)@.len() as int)),
            final(out)@.subrange(0, old(out)@.len() as int) == old(out)@,
            final(self).wf(),
            final(self).is_on() == old(self).is_on(),
            final(self).open_stack() == old(self).open_stack(),
            final(self).totals().len() == 0,
    {
        self.dump_folded(out);
        self.reset_totals();
    }

    /// Forgets every total; the open scopes and the on/off state stay.
    pub fn reset_totals(&mut self)
        requires
            old(self).wf(),
        ensures
            final(self).wf(),
            final(self).is_on() == old(self).is_on(),
            final(self).open_stack() == old(self).open_stack(),
            final(self).totals().len() == 0,
    {
        self.entries = Vec::new();
    }

    /// The folded stacks as a string.
    pub fn snapshot(&self) -> (s: String)
        requires
            self.wf(),
        ensures
            is_folded_dump(self.totals(), s@),
    {
        let mut s = String::new();
        self.dump_folded(&mut s);
        proof {
            assert(s@.subrange(0, s@.len() as int) =~= s@);
        }
        s
    }
}

} // verus!
