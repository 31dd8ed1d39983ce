use vstd::prelude::*;

use crate::bytecode::{BytecodeModule, GlobalModel, GlobalValueKind, ModuleModel};
use crate::error::MuninnError;
use crate::runtime::{vm_error, vm_error_owned};
use crate::span::Span;
use crate::text::{decimal, owned, push_str, same_text, u64_text};

verus! {

/// Where a pending reload stands.
#[derive(Debug, Clone, Copy, PartialEq, Eq, Structural)]
pub enum ReloadStatus {
    Idle,
    Pending,
    Ready,
}

/// How a VM executes: whether hot loops are traced, and after how many
/// iterations.
#[derive(Debug, Clone, Copy, PartialEq, Eq, Structural)]
pub struct VmOptions {
    pub jit_enabled: bool,
    pub hot_loop_threshold: usize,
}

impl Default for VmOptions {
    /// Tracing off; a loop is hot after 100 iterations.
    fn default() -> (o: VmOptions)
        ensures
            o == (VmOptions { jit_enabled: false, hot_loop_threshold: 100 }),
    {
        VmOptions { jit_enabled: false, hot_loop_threshold: 100 }
    }
}

/// Counters of the global lookup cache.
#[derive(Debug, Clone, Copy, PartialEq, Eq, Structural)]
pub struct GlobalCacheStats {
    pub hits: usize,
    pub misses: usize,
    /// Number of cache eviction events: single-key evictions on global
    /// writes plus whole-cache clears on reload. Includes events where the
    /// evicted key (or the whole cache) was already empty.
    pub invalidations: usize,
}

impl Default for GlobalCacheStats {
    fn default() -> (s: GlobalCacheStats)
        ensures
            s == (GlobalCacheStats { hits: 0, misses: 0, invalidations: 0 }),
    {
        GlobalCacheStats { hits: 0, misses: 0, invalidations: 0 }
    }
}

/// A reload applies only at a safe point: the top-level frame (or none).
pub open spec fn is_safe_point(frame_depth: usize) -> bool {
    frame_depth <= 1
}

/// Where a reload stands, given whether one is pending and how deep the
/// call stack is. There is no execution budget: a reload staged against a
/// non-terminating nested call stays pending.
pub fn reload_status(pending: bool, frame_depth: usize) -> (s: ReloadStatus)
    ensures
        s == (if !pending {
            ReloadStatus::Idle
        } else if is_safe_point(frame_depth) {
            ReloadStatus::Ready
        } else {
            ReloadStatus::Pending
        }),
{
    if !pending {
        ReloadStatus::Idle
    } else if frame_depth <= 1 {
        ReloadStatus::Ready
    } else {
        ReloadStatus::Pending
    }
}

/// Charges one instruction against the fuel budget: the new count, or the
/// deterministic trap once the count exceeds `max_steps`.
pub fn charge_step(steps_used: u64, max_steps: Option<u64>, span: Span) -> (r: Result<u64, MuninnError>)
    requires
        steps_used < u64::MAX,
    ensures
        match max_steps {
            Some(max) => if steps_used + 1 > max {
                r matches Err(e) && e.phase@ == "vm"@ && e.span == span && e.message@ == "fuel exhausted after "@
                    + decimal((steps_used + 1) as nat) + " instructions (max_steps "@ + decimal(max as nat) + ")"@
            } else {
                r == Ok::<u64, MuninnError>((steps_used + 1) as u64)
            },
            None => r == Ok::<u64, MuninnError>((steps_used + 1) as u64),
        },
{
    let used = steps_used + 1;
    match max_steps {
        Some(max) => {
            if used > max {
                let mut msg = owned("fuel exhausted after ");
                let a = u64_text(used);
                push_str(&mut msg, a.as_str());
                push_str(&mut msg, " instructions (max_steps ");
                let b = u64_text(max);
                push_str(&mut msg, b.as_str());
                push_str(&mut msg, ")");
                return Err(vm_error_owned(msg, span));
            }
            Ok(used)
        },
        None => Ok(used),
    }
}

// ----- reloading a module under live globals -----

/// The kind of a runtime value.
#[derive(Debug, Clone, Copy, PartialEq, Eq, Structural)]
pub enum ValueKind {
    Int,
    Float,
    Bool,
    String,
    Tensor,
    Function,
    Native,
    Nil,
}

pub open spec fn value_kind_text(k: ValueKind) -> Seq<char> {
    match k {
        ValueKind::Int => "Int"@,
        ValueKind::Float => "Float"@,
        ValueKind::Bool => "Bool"@,
        ValueKind::String => "String"@,
        ValueKind::Tensor => "Tensor"@,
        ValueKind::Function => "Function"@,
        ValueKind::Native => "NativeFunction"@,
        ValueKind::Nil => "Void"@,
    }
}

impl ValueKind {
    /// The name of the kind as diagnostics write it.
    pub fn kind_name(self) -> (s: &'static str)
        ensures
            s@ == value_kind_text(self),
    {
        match self {
            ValueKind::Int => "Int",
            ValueKind::Float => "Float",
            ValueKind::Bool => "Bool",
            ValueKind::String => "String",
            ValueKind::Tensor => "Tensor",
            ValueKind::Function => "Function",
            ValueKind::Native => "NativeFunction",
            ValueKind::Nil => "Void",
        }
    }
}

pub open spec fn global_kind_text(k: GlobalValueKind) -> Seq<char> {
    match k {
        GlobalValueKind::Int => "Int"@,
        GlobalValueKind::Float => "Float"@,
        GlobalValueKind::Bool => "Bool"@,
        GlobalValueKind::String => "String"@,
        GlobalValueKind::Tensor => "Tensor"@,
        GlobalValueKind::Function => "Function"@,
    }
}

fn global_kind_name(k: GlobalValueKind) -> (s: &'static str)
    ensures
        s@ == global_kind_text(k),
{
    match k {
        GlobalValueKind::Int => "Int",
        GlobalValueKind::Float => "Float",
        GlobalValueKind::Bool => "Bool",
        GlobalValueKind::String => "String",
        GlobalValueKind::Tensor => "Tensor",
        GlobalValueKind::Function => "Function",
    }
}

/// Whether a live value of kind `v` may be held by a global declared `g`.
pub open spec fn kind_matches(v: ValueKind, g: GlobalValueKind) -> bool {
    match (v, g) {
        (ValueKind::Int, GlobalValueKind::Int) => true,
        (ValueKind::Float, GlobalValueKind::Float) => true,
        (ValueKind::Bool, GlobalValueKind::Bool) => true,
        (ValueKind::String, GlobalValueKind::String) => true,
        (ValueKind::Tensor, GlobalValueKind::Tensor) => true,
        (ValueKind::Function, GlobalValueKind::Function) => true,
        _ => false,
    }
}

/// The declared kind of the first global named `name`, if any.
pub open spec fn declared_kind(gs: Seq<GlobalModel>, name: Seq<char>) -> Option<GlobalValueKind>
    decreases gs.len(),
{
    if gs.len() == 0 {
        None
    } else if gs[0].name == name {
        Some(gs[0].kind)
    } else {
        declared_kind(gs.drop_first(), name)
    }
}

pub open spec fn live_problem(live: Seq<(Seq<char>, ValueKind)>, gs: Seq<GlobalModel>) -> Option<Seq<char>>
    decreases live.len(),
{
    if live.len() == 0 {
        None
    } else {
        let (name, kind) = live[0];
        if kind == ValueKind::Native {
            live_problem(live.drop_first(), gs)
        } else {
            match declared_kind(gs, name) {
                None => Some("reload rejected: global '"@ + name + "' is missing in new module"@),
                Some(k) => if !kind_matches(kind, k) {
                    Some(
                        "reload rejected: global '"@ + name + "' changed kind from "@ + value_kind_text(kind)
                            + " to "@ + global_kind_text(k),
                    )
                } else {
                    live_problem(live.drop_first(), gs)
                },
            }
        }
    }
}

pub open spec fn live_views(live: Seq<(String, ValueKind)>) -> Seq<(Seq<char>, ValueKind)> {
    live.map_values(|e: (String, ValueKind)| (e.0@, e.1))
}

/// Why a reload to module `m` is refused while the globals `live` (name
/// and value kind, in the order they are checked) hold values: a missing
/// entry function, a live global the new module drops, or one it retypes.
/// Natives are skipped.
pub open spec fn reload_problem(live: Seq<(Seq<char>, ValueKind)>, m: ModuleModel) -> Option<Seq<char>> {
    if m.entry_function >= m.functions.len() {
        Some("reload module is missing a valid entry function"@)
    } else {
        live_problem(live, m.globals)
    }
}

proof fn lemma_declared_kind(gs: Seq<GlobalModel>, name: Seq<char>, i: int)
    requires
        0 <= i < gs.len(),
        gs[i].name == name,
        forall|j: int| 0 <= j < i ==> gs[j].name != name,
    ensures
        declared_kind(gs, name) == Some(gs[i].kind),
    decreases i,
{
    if i > 0 {
        let rest = gs.drop_first();
        assert forall|j: int| 0 <= j < i - 1 implies rest[j].name != name by {
            assert(rest[j] == gs[j + 1]);
        }
        lemma_declared_kind(rest, name, i - 1);
    }
}

proof fn lemma_declared_none(gs: Seq<GlobalModel>, name: Seq<char>)
    requires
        forall|j: int| 0 <= j < gs.len() ==> gs[j].name != name,
    ensures
        declared_kind(gs, name) is None,
    decreases gs.len(),
{
    if gs.len() > 0 {
        let rest = gs.drop_first();
        assert forall|j: int| 0 <= j < rest.len() implies rest[j].name != name by {
            assert(rest[j] == gs[j + 1]);
        }
        lemma_declared_none(rest, name);
    }
}

/// Rejects reloads that drop or retype live globals. The errors carry the
/// synthetic span: a global has no source location on either side, so
/// its name and both kinds in the message are the location.
pub fn check_reload_compatibility(live: &[(String, ValueKind)], next: &BytecodeModule) -> (r: Result<(), MuninnError>)
    ensures
        match reload_problem(live_views(live@), next@) {
            None => r is Ok,
            Some(m) => r matches Err(e) && e.phase@ == "vm"@ && e.message@ == m && e.span == Span::synthetic(),
        },
{
    if next.entry_function >= next.functions.len() {
        return Err(vm_error("reload module is missing a valid entry function", Span::default()));
    }
    let ghost views = live_views(live@);
    proof {
        assert(views.skip(0) =~= views);
    }
    let mut i: usize = 0;
    while i < live.len()
        invariant
            i <= live@.len(),
            views == live_views(live@),
            next@.entry_function < next@.functions.len(),
            live_problem(views, next@.globals) == live_problem(views.skip(i as int), next@.globals),
        decreases live@.len() - i,
    {
        let ghost rest = views.skip(i as int);
        proof {
            assert(rest[0] == views[i as int]);
            assert(rest.drop_first() =~= views.skip(i + 1));
        }
        let kind = live[i].1;
        if kind != ValueKind::Native {
            let name = live[i].0.as_str();
            match next.global_kind(name) {
                None => {
                    proof {
                        lemma_declared_none(next@.globals, name@);
                    }
                    let mut msg = owned("reload rejected: global '");
                    push_str(&mut msg, name);
                    push_str(&mut msg, "' is missing in new module");
                    return Err(vm_error_owned(msg, Span::default()));
                },
                Some(expected) => {
                    proof {
                        let w = choose|w: int|
                            0 <= w < next@.globals.len() && next@.globals[w].name == name@
                                && next@.globals[w].kind == expected && forall|j: int|
                                0 <= j < w ==> next@.globals[j].name != name@;
                        lemma_declared_kind(next@.globals, name@, w);
                    }
                    if !value_matches_kind(kind, expected) {
                        let mut msg = owned("reload rejected: global '");
                        push_str(&mut msg, name);
                        push_str(&mut msg, "' changed kind from ");
                        push_str(&mut msg, kind.kind_name());
                        push_str(&mut msg, " to ");
                        push_str(&mut msg, global_kind_name(expected));
                        return Err(vm_error_owned(msg, Span::default()));
                    }
                },
            }
        }
        i = i + 1;
    }
    proof {
        assert(views.skip(live@.len() as int) =~= Seq::<(Seq<char>, ValueKind)>::empty());
    }
    Ok(())
}

fn value_matches_kind(v: ValueKind, g: GlobalValueKind) -> (b: bool)
    ensures
        b == kind_matches(v, g),
{
    match (v, g) {
        (ValueKind::Int, GlobalValueKind::Int) => true,
        (ValueKind::Float, GlobalValueKind::Float) => true,
        (ValueKind::Bool, GlobalValueKind::Bool) => true,
        (ValueKind::String, GlobalValueKind::String) => true,
        (ValueKind::Tensor, GlobalValueKind::Tensor) => true,
        (ValueKind::Function, GlobalValueKind::Function) => true,
        _ => false,
    }
}

/// The error a rejected reload request reports: the first validation
/// problem, re-phased as a VM error (or a generic one if none was given).
pub fn first_validation_error(errors: Vec<MuninnError>) -> (e: MuninnError)
    ensures
        errors@.len() > 0 ==> e.phase@ == "vm"@ && e.message == errors@[0].message && e.span == errors@[0].span,
        errors@.len() == 0 ==> e.phase@ == "vm"@ && e.message@ == "invalid bytecode module"@ && e.span
            == Span::synthetic(),
{
    let mut errors = errors;
    if errors.len() == 0 {
        return vm_error("invalid bytecode module", Span::default());
    }
    let first = errors.remove(0);
    vm_error_owned(first.message, first.span)
}

// ----- the global lookup cache -----

/// The value cached under `name` and still current at `epoch` (the first
/// entry for the name decides).
pub open spec fn cached_in<V>(entries: Seq<(String, V, u64)>, name: Seq<char>, epoch: u64) -> Option<V>
    decreases entries.len(),
{
    if entries.len() == 0 {
        None
    } else if entries[0].0@ == name {
        if entries[0].2 == epoch {
            Some(entries[0].1)
        } else {
            None
        }
    } else {
        cached_in(entries.drop_first(), name, epoch)
    }
}

/// Global values the VM has looked up, served until the global is written
/// or the whole cache is invalidated (on reload).
#[derive(Debug)]
pub struct GlobalCache<V> {
    entries: Vec<(String, V, u64)>,
    epoch: u64,
    stats: GlobalCacheStats,
}

impl<V: Clone> GlobalCache<V> {
    /// The value a lookup of `name` would be served.
    pub closed spec fn cached(&self, name: Seq<char>) -> Option<V> {
        cached_in(self.entries@, name, self.epoch)
    }

    pub closed spec fn spec_stats(&self) -> GlobalCacheStats {
        self.stats
    }

    pub fn new() -> (c: GlobalCache<V>)
        ensures
            forall|n: Seq<char>| c.cached(n) is None,
            c.spec_stats() == (GlobalCacheStats { hits: 0, misses: 0, invalidations: 0 }),
    {
        GlobalCache { entries: Vec::new(), epoch: 0, stats: GlobalCacheStats::default() }
    }

    pub fn stats(&self) -> (s: GlobalCacheStats)
        ensures
            s == self.spec_stats(),
    {
        self.stats
    }

    /// The first entry for `name`, which decides what is cached for it.
    fn find(&self, name: &str) -> (r: Option<usize>)
        ensures
            match r {
                Some(i) => i < self.entries@.len() && self.cached(name@) == (if self.entries@[i as int].2
                    == self.epoch {
                    Some(self.entries@[i as int].1)
                } else {
                    None::<V>
                }),
                None => self.cached(name@) is None,
            },
    {
        let mut i: usize = 0;
        proof {
            assert(self.entries@.skip(0) =~= self.entries@);
        }
        while i < self.entries.len()
            invariant
                i <= self.entries@.len(),
                cached_in(self.entries@, name@, self.epoch) == cached_in(self.entries@.skip(i as int), name@, self.epoch),
            decreases self.entries@.len() - i,
        {
            proof {
                assert(self.entries@.skip(i as int).drop_first() =~= self.entries@.skip(i + 1));
                assert(self.entries@.skip(i as int)[0] == self.entries@[i as int]);
            }
            if same_text(self.entries[i].0.as_str(), name) {
                return Some(i);
            }
            i = i + 1;
        }
        proof {
            assert(self.entries@.skip(self.entries@.len() as int) =~= Seq::<(String, V, u64)>::empty());
        }
        None
    }

    /// Serves `name` from the cache, counting a hit, or counts a miss.
    pub fn lookup(&mut self, name: &str) -> (r: Option<V>)
        requires
            old(self).spec_stats().hits < usize::MAX,
            old(self).spec_stats().misses < usize::MAX,
        ensures
            forall|n: Seq<char>| final(self).cached(n) == old(self).cached(n),
            match old(self).cached(name@) {
                Some(v) => r matches Some(x) && cloned(v, x) && final(self).spec_stats() == (GlobalCacheStats {
                    hits: (old(self).spec_stats().hits + 1) as usize,
                    ..old(self).spec_stats()
                }),
                None => r is None && final(self).spec_stats() == (GlobalCacheStats {
                    misses: (old(self).spec_stats().misses + 1) as usize,
                    ..old(self).spec_stats()
                }),
            },
    {
        match self.find(name) {
            Some(i) => {
                if self.entries[i].2 == self.epoch {
                    let v = self.entries[i].1.clone();
                    self.stats.hits = self.stats.hits + 1;
                    Some(v)
                } else {
                    self.stats.misses = self.stats.misses + 1;
                    None
                }
            },
            None => {
                self.stats.misses = self.stats.misses + 1;
                None
            },
        }
    }

    /// Caches `value` under `name` for the current epoch.
    pub fn insert(&mut self, name: String, value: V)
        ensures
            final(self).cached(name@) == Some(value),
            forall|n: Seq<char>| n != name@ ==> final(self).cached(n) == old(self).cached(n),
            final(self).spec_stats() == old(self).spec_stats(),
    {
        let ghost before = self.entries@;
        let ghost key = name@;
        let epoch = self.epoch;
        self.entries.insert(0, (name, value, epoch));
        proof {
            assert(self.entries@.drop_first() =~= before);
            assert forall|n: Seq<char>| n != key implies #[trigger] cached_in(self.entries@, n, self.epoch) == cached_in(
                before,
                n,
                self.epoch,
            ) by {}
        }
    }

    /// Evicts `name` after a write to that global; other globals stay
    /// cached. The event is counted even when nothing was cached.
    pub fn evict(&mut self, name: &str)
        requires
            old(self).spec_stats().invalidations < usize::MAX,
        ensures
            final(self).cached(name@) is None,
            forall|n: Seq<char>| n != name@ ==> final(self).cached(n) == old(self).cached(n),
            final(self).spec_stats() == (GlobalCacheStats {
                invalidations: (old(self).spec_stats().invalidations + 1) as usize,
                ..old(self).spec_stats()
            }),
    {
        let ghost before = self.entries@;
        let mut rest: Vec<(String, V, u64)> = Vec::new();
        std::mem::swap(&mut rest, &mut self.entries);
        let mut kept: Vec<(String, V, u64)> = Vec::new();
        proof {
            assert(kept@ + without(rest@, name@) =~= without(before, name@));
        }
        while rest.len() > 0
            invariant
                kept@ + without(rest@, name@) == without(before, name@),
            decreases rest@.len(),
        {
            let ghost r0 = rest@;
            let e = rest.remove(0);
            proof {
                assert(r0.drop_first() =~= rest@);
                assert(r0[0] == e);
            }
            if !same_text(e.0.as_str(), name) {
                let ghost k0 = kept@;
                kept.push(e);
                proof {
                    assert(k0 + without(r0, name@) =~= k0 + (seq![e] + without(rest@, name@)));
                    assert(kept@ + without(rest@, name@) =~= k0 + (seq![e] + without(rest@, name@)));
                }
            }
        }
        proof {
            assert(kept@ + without(rest@, name@) =~= kept@);
            assert forall|n: Seq<char>| n != name@ implies #[trigger] cached_in(kept@, n, self.epoch) == cached_in(
                before,
                n,
                self.epoch,
            ) by {
                lemma_without_cached(before, name@, n, self.epoch);
            }
            lemma_without_cached(before, name@, name@, self.epoch);
        }
        self.entries = kept;
        self.stats.invalidations = self.stats.invalidations + 1;
    }

    /// Drops every cached value (a reload moves to a new epoch). The event
    /// is counted even when the cache was empty.
    pub fn invalidate_all(&mut self)
        requires
            old(self).spec_stats().invalidations < usize::MAX,
        ensures
            forall|n: Seq<char>| final(self).cached(n) is None,
            final(self).spec_stats() == (GlobalCacheStats {
                invalidations: (old(self).spec_stats().invalidations + 1) as usize,
                ..old(self).spec_stats()
            }),
    {
        self.epoch = self.epoch.wrapping_add(1);
        self.stats.invalidations = self.stats.invalidations + 1;
        if self.entries.len() > 0 {
            self.entries.clear();
        }
        proof {
            assert(self.entries@.len() == 0);
        }
    }
}

/// The entries of other names than `name`, in order.
pub open spec fn without<V>(entries: Seq<(String, V, u64)>, name: Seq<char>) -> Seq<(String, V, u64)>
    decreases entries.len(),
{
    if entries.len() == 0 {
        entries
    } else if entries[0].0@ == name {
        without(entries.drop_first(), name)
    } else {
        seq![entries[0]] + without(entries.drop_first(), name)
    }
}

proof fn lemma_without_cached<V>(entries: Seq<(String, V, u64)>, name: Seq<char>, n: Seq<char>, epoch: u64)
    ensures
        n != name ==> cached_in(without(entries, name), n, epoch) == cached_in(entries, n, epoch),
        cached_in(without(entries, name), name, epoch) is None,
    decreases entries.len(),
{
    if entries.len() > 0 {
        lemma_without_cached(entries.drop_first(), name, n, epoch);
        if entries[0].0@ != name {
            let w = seq![entries[0]] + without(entries.drop_first(), name);
            assert(w.drop_first() =~= without(entries.drop_first(), name));
        }
    }
}

} // verus!
