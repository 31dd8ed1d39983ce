use vstd::prelude::*;

use crate::natives::{HostCaps, NativeFunctionKind, names_contain, names_have};
use crate::text::owned;

verus! {

/// Built-in tensor element limit; the host default.
pub const DEFAULT_MAX_TENSOR_ELEMENTS: usize = 10000000;

/// Instruction budget of a sandboxed guest.
pub const SANDBOX_MAX_STEPS: u64 = 100000;

/// Deny-by-default host policy for embedding untrusted scripts.
///
/// `HostPolicy::default()` is permissive (all natives allowed, no limits);
/// `HostPolicy::sandboxed()` is the deny-by-default starting point where
/// the host explicitly enables what the guest may use. Allowlists are kept
/// free of repeats.
#[derive(Debug, Clone)]
pub struct HostPolicy {
    /// Deterministic instruction budget; `None` = unlimited.
    pub max_steps: Option<u64>,
    /// Best-effort wall-clock preemption; `None` = no limit.
    pub wall_clock_timeout_ms: Option<u64>,
    /// Cap on tensor element counts at native allocation boundaries.
    pub max_tensor_elements: usize,
    /// `None` allows every native; `Some(kinds)` only those listed.
    pub allowed_natives: Option<Vec<NativeFunctionKind>>,
    /// When true, scripts cannot overwrite existing globals.
    pub readonly_globals: bool,
    /// Script arguments visible to `args_len`/`args_get`.
    pub argv: Vec<String>,
    /// `None` allows every env name; `Some(names)` only those listed.
    pub allowed_env: Option<Vec<String>>,
    /// Root scoping the filesystem natives; `None` denies all access.
    pub fs_root: Option<String>,
    /// Piped stdin content visible to `stdin_read`.
    pub stdin_data: String,
}

/// The kinds listed in `v`.
pub open spec fn kinds_set(v: Seq<NativeFunctionKind>) -> Set<NativeFunctionKind> {
    Set::new(|k: NativeFunctionKind| v.contains(k))
}

proof fn lemma_kinds_set_push(v: Seq<NativeFunctionKind>, kind: NativeFunctionKind)
    ensures
        kinds_set(v.push(kind)) == kinds_set(v).insert(kind),
{
    assert forall|k: NativeFunctionKind| #[trigger] kinds_set(v.push(kind)).contains(k) == kinds_set(
        v,
    ).insert(kind).contains(k) by {
        if v.contains(k) {
            let j = choose|j: int| 0 <= j < v.len() && v[j] == k;
            assert(v.push(kind)[j] == k);
        }
        if k == kind {
            assert(v.push(kind)[v.len() as int] == k);
        }
        if v.push(kind).contains(k) {
            let j = choose|j: int| 0 <= j < v.push(kind).len() && v.push(kind)[j] == k;
            if j < v.len() {
                assert(v[j] == k);
            }
        }
    }
    assert(kinds_set(v.push(kind)) =~= kinds_set(v).insert(kind));
}

/// The allowlist of natives as a set, `None` for allow-all.
pub open spec fn native_set(p: HostPolicy) -> Option<Set<NativeFunctionKind>> {
    match p.allowed_natives {
        None => None,
        Some(v) => Some(kinds_set(v@)),
    }
}

/// The allowlist of env names as a set of texts, `None` for allow-all.
pub open spec fn env_set(p: HostPolicy) -> Option<Set<Seq<char>>> {
    match p.allowed_env {
        None => None,
        Some(v) => Some(Set::new(|n: Seq<char>| names_have(v@, n))),
    }
}

/// Whether an allowlist (`None` for allow-all) admits `kind`.
pub open spec fn set_allows(s: Option<Set<NativeFunctionKind>>, kind: NativeFunctionKind) -> bool {
    match s {
        None => true,
        Some(s) => s.contains(kind),
    }
}

/// Whether `p` lets the guest call `kind`.
pub open spec fn allows_native(p: HostPolicy, kind: NativeFunctionKind) -> bool {
    set_allows(native_set(p), kind)
}

/// The native allowlist after allowing `kind`: an allow-all policy becomes
/// an allowlist holding just `kind`.
pub open spec fn after_allow(s: Option<Set<NativeFunctionKind>>, kind: NativeFunctionKind) -> Option<
    Set<NativeFunctionKind>,
> {
    Some(
        match s {
            None => Set::empty().insert(kind),
            Some(s) => s.insert(kind),
        },
    )
}

/// Whether `p` lets the guest read the env name `name`.
pub open spec fn allows_env(p: HostPolicy, name: Seq<char>) -> bool {
    match env_set(p) {
        None => true,
        Some(s) => s.contains(name),
    }
}

/// The allowlists hold no repeats.
pub open spec fn policy_wf(p: HostPolicy) -> bool {
    &&& (p.allowed_natives matches Some(v) ==> v@.no_duplicates())
    &&& (p.allowed_env matches Some(v) ==> forall|i: int, j: int|
        0 <= i < j < v@.len() ==> (#[trigger] v@[i])@ != (#[trigger] v@[j])@)
}

/// Everything but the native allowlist is as in `q`.
pub open spec fn same_but_natives(p: HostPolicy, q: HostPolicy) -> bool {
    &&& p.max_steps == q.max_steps
    &&& p.wall_clock_timeout_ms == q.wall_clock_timeout_ms
    &&& p.max_tensor_elements == q.max_tensor_elements
    &&& p.readonly_globals == q.readonly_globals
    &&& p.argv == q.argv
    &&& p.allowed_env == q.allowed_env
    &&& p.fs_root == q.fs_root
    &&& p.stdin_data == q.stdin_data
}

/// Everything but the env allowlist is as in `q`.
pub open spec fn same_but_env(p: HostPolicy, q: HostPolicy) -> bool {
    &&& p.max_steps == q.max_steps
    &&& p.wall_clock_timeout_ms == q.wall_clock_timeout_ms
    &&& p.max_tensor_elements == q.max_tensor_elements
    &&& p.allowed_natives == q.allowed_natives
    &&& p.readonly_globals == q.readonly_globals
    &&& p.argv == q.argv
    &&& p.fs_root == q.fs_root
    &&& p.stdin_data == q.stdin_data
}

impl HostPolicy {
    /// Deny-by-default policy: no natives, no env names, no filesystem,
    /// a bounded instruction budget and the default tensor cap.
    pub fn sandboxed() -> (p: HostPolicy)
        ensures
            p.max_steps == Some(SANDBOX_MAX_STEPS),
            p.wall_clock_timeout_ms is None,
            p.max_tensor_elements == DEFAULT_MAX_TENSOR_ELEMENTS,
            native_set(p) == Some(Set::<NativeFunctionKind>::empty()),
            env_set(p) == Some(Set::<Seq<char>>::empty()),
            !p.readonly_globals,
            p.argv@.len() == 0,
            p.fs_root is None,
            p.stdin_data@.len() == 0,
            policy_wf(p),
    {
        let p = HostPolicy {
            max_steps: Some(SANDBOX_MAX_STEPS),
            wall_clock_timeout_ms: None,
            max_tensor_elements: DEFAULT_MAX_TENSOR_ELEMENTS,
            allowed_natives: Some(Vec::new()),
            readonly_globals: false,
            argv: Vec::new(),
            allowed_env: Some(Vec::new()),
            fs_root: None,
            stdin_data: String::new(),
        };
        proof {
            assert(kinds_set(Seq::<NativeFunctionKind>::empty()) =~= Set::<NativeFunctionKind>::empty());
            assert(env_set(p).unwrap() =~= Set::<Seq<char>>::empty());
        }
        p
    }

    /// Explicitly enables one native builtin for the guest. An allow-all
    /// policy becomes an allowlist holding just `kind`.
    pub fn allow(&mut self, kind: NativeFunctionKind)
        requires
            policy_wf(*old(self)),
        ensures
            policy_wf(*final(self)),
            same_but_natives(*final(self), *old(self)),
            native_set(*final(self)) == after_allow(native_set(*old(self)), kind),
    {
        match &mut self.allowed_natives {
            Some(kinds) => {
                let ghost before = kinds@;
                let mut found = false;
                let mut i: usize = 0;
                while i < kinds.len()
                    invariant
                        i <= kinds@.len(),
                        kinds@ == before,
                        found == exists|j: int| 0 <= j < i && kinds@[j] == kind,
                    decreases kinds@.len() - i,
                {
                    if kinds[i] == kind {
                        found = true;
                    }
                    i = i + 1;
                }
                if !found {
                    kinds.push(kind);
                    proof {
                        assert(kinds@ == before.push(kind));
                        lemma_kinds_set_push(before, kind);
                        assert forall|a: int, b: int| 0 <= a < b < kinds@.len() implies kinds@[a] != kinds@[b] by {
                            if b == kinds@.len() - 1 {
                                assert(kinds@[b] == kind);
                                assert(kinds@[a] == before[a]);
                            }
                        }
                    }
                } else {
                    proof {
                        let j = choose|j: int| 0 <= j < before.len() && before[j] == kind;
                        assert(before.contains(kind));
                        assert(kinds_set(before) =~= kinds_set(before).insert(kind));
                    }
                }
            },
            None => {
                let mut kinds: Vec<NativeFunctionKind> = Vec::new();
                kinds.push(kind);
                proof {
                    assert forall|k: NativeFunctionKind| kinds@.contains(k) == (k == kind) by {
                        if k == kind {
                            assert(kinds@[0] == k);
                        }
                    }
                    assert(kinds_set(kinds@) =~= Set::<NativeFunctionKind>::empty().insert(kind));
                }
                self.allowed_natives = Some(kinds);
            },
        }
    }

    /// Allows every known native builtin.
    pub fn allow_all_natives(&mut self)
        ensures
            same_but_natives(*final(self), *old(self)),
            final(self).allowed_natives is None,
    {
        self.allowed_natives = None;
    }

    pub fn is_native_allowed(&self, kind: NativeFunctionKind) -> (r: bool)
        ensures
            r == allows_native(*self, kind),
    {
        let allowed: &Option<Vec<NativeFunctionKind>> = &self.allowed_natives;
        match allowed {
            None => true,
            Some(kinds) => {
                let mut i: usize = 0;
                while i < kinds.len()
                    invariant
                        i <= kinds@.len(),
                        native_set(*self) == Some(kinds_set(kinds@)),
                        forall|j: int| 0 <= j < i ==> kinds@[j] != kind,
                    decreases kinds@.len() - i,
                {
                    if kinds[i] == kind {
                        proof {
                            assert(kinds@[i as int] == kind);
                            assert(kinds@.contains(kind));
                            assert(kinds_set(kinds@).contains(kind));
                        }
                        return true;
                    }
                    i = i + 1;
                }
                false
            },
        }
    }

    /// Explicitly allows one env name. An allow-all policy becomes an
    /// allowlist holding just `name`.
    pub fn allow_env(&mut self, name: &str)
        requires
            policy_wf(*old(self)),
        ensures
            policy_wf(*final(self)),
            same_but_env(*final(self), *old(self)),
            env_set(*final(self)) == Some(
                match env_set(*old(self)) {
                    None => Set::empty().insert(name@),
                    Some(s) => s.insert(name@),
                },
            ),
    {
        match &mut self.allowed_env {
            Some(names) => {
                let ghost before = names@;
                if !names_contain(names, name) {
                    names.push(owned(name));
                    proof {
                        assert forall|n: Seq<char>| names_have(names@, n) == (names_have(before, n) || n == name@) by {
                            if names_have(before, n) {
                                let k = choose|k: int| 0 <= k < before.len() && (#[trigger] before[k])@ == n;
                                assert(names@[k] == before[k]);
                            }
                            if n == name@ {
                                assert(names@[names@.len() - 1]@ == n);
                            }
                            if names_have(names@, n) {
                                let k = choose|k: int| 0 <= k < names@.len() && (#[trigger] names@[k])@ == n;
                                if k < before.len() {
                                    assert(names@[k] == before[k]);
                                }
                            }
                        }
                        assert(Set::new(|n: Seq<char>| names_have(names@, n)) =~= Set::new(
                            |n: Seq<char>| names_have(before, n),
                        ).insert(name@));
                        assert forall|a: int, b: int| 0 <= a < b < names@.len() implies (
                        #[trigger] names@[a])@ != (#[trigger] names@[b])@ by {
                            if b == names@.len() - 1 {
                                assert(names@[a] == before[a]);
                            }
                        }
                    }
                } else {
                    proof {
                        assert(Set::new(|n: Seq<char>| names_have(before, n)) =~= Set::new(
                            |n: Seq<char>| names_have(before, n),
                        ).insert(name@));
                    }
                }
            },
            None => {
                let mut names: Vec<String> = Vec::new();
                names.push(owned(name));
                proof {
                    assert forall|n: Seq<char>| names_have(names@, n) == (n == name@) by {
                        if n == name@ {
                            assert(names@[0]@ == n);
                        }
                    }
                    assert(Set::new(|n: Seq<char>| names_have(names@, n)) =~= Set::<Seq<char>>::empty().insert(name@));
                }
                self.allowed_env = Some(names);
            },
        }
    }

    /// Allows every env name.
    pub fn allow_all_env(&mut self)
        ensures
            same_but_env(*final(self), *old(self)),
            final(self).allowed_env is None,
    {
        self.allowed_env = None;
    }

    /// Drops filesystem access.
    pub fn revoke_fs(&mut self)
        ensures
            *final(self) == (HostPolicy { fs_root: None, ..*old(self) }),
    {
        self.fs_root = None;
    }

    /// Grants script arguments visible to `args_len`/`args_get`.
    pub fn set_argv(&mut self, argv: Vec<String>)
        ensures
            *final(self) == (HostPolicy { argv, ..*old(self) }),
    {
        self.argv = argv;
    }

    /// Scopes filesystem builtins under `root`.
    pub fn set_fs_root(&mut self, root: String)
        ensures
            *final(self) == (HostPolicy { fs_root: Some(root), ..*old(self) }),
    {
        self.fs_root = Some(root);
    }

    /// Seeds piped stdin content visible to `stdin_read`.
    pub fn set_stdin(&mut self, data: String)
        ensures
            *final(self) == (HostPolicy { stdin_data: data, ..*old(self) }),
    {
        self.stdin_data = data;
    }

    /// The per-call capability view for native dispatch.
    pub fn host_caps(&self) -> (caps: HostCaps<'_>)
        ensures
            caps.argv@ == self.argv@,
            *caps.allowed_env == self.allowed_env,
            *caps.fs_root == self.fs_root,
            caps.stdin_data@ == self.stdin_data@,
    {
        HostCaps {
            argv: self.argv.as_slice(),
            allowed_env: &self.allowed_env,
            fs_root: &self.fs_root,
            stdin_data: self.stdin_data.as_str(),
        }
    }
}

impl Default for HostPolicy {
    /// The permissive policy: every native and env name allowed, no
    /// limits, no filesystem.
    fn default() -> (p: HostPolicy)
        ensures
            p.max_steps is None,
            p.wall_clock_timeout_ms is None,
            p.max_tensor_elements == DEFAULT_MAX_TENSOR_ELEMENTS,
            p.allowed_natives is None,
            !p.readonly_globals,
            p.argv@.len() == 0,
            p.allowed_env is None,
            p.fs_root is None,
            p.stdin_data@.len() == 0,
            policy_wf(p),
    {
        HostPolicy {
            max_steps: None,
            wall_clock_timeout_ms: None,
            max_tensor_elements: DEFAULT_MAX_TENSOR_ELEMENTS,
            allowed_natives: None,
            readonly_globals: false,
            argv: Vec::new(),
            allowed_env: None,
            fs_root: None,
            stdin_data: String::new(),
        }
    }
}

/// Allowing a native grants it; on a policy with an allowlist it keeps
/// every native already granted.
pub proof fn law_allow_grants(p: HostPolicy, kind: NativeFunctionKind, other: NativeFunctionKind)
    requires
        native_set(p) is Some,
    ensures
        set_allows(after_allow(native_set(p), kind), kind),
        allows_native(p, other) ==> set_allows(after_allow(native_set(p), kind), other),
{
}

/// A sandboxed policy allows no native and no env name.
pub proof fn law_sandbox_denies(p: HostPolicy, kind: NativeFunctionKind, name: Seq<char>)
    requires
        native_set(p) == Some(Set::<NativeFunctionKind>::empty()),
        env_set(p) == Some(Set::<Seq<char>>::empty()),
    ensures
        !allows_native(p, kind),
        !allows_env(p, name),
{
}

} // verus!
