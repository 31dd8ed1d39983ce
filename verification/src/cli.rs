use vstd::prelude::*;

use crate::natives::{all_digits, digits_value, lemma_digits_value_grows, parse_i64, parse_i64_chars};
use crate::project::{has_prefix, starts_with_text};
use crate::text::{chars_of, is_digit_char, owned, push_str, same_text};
use vstd::string::StringSliceAdditionalSpecFns;
use crate::bytes::le16;
use crate::format::{format_source, formatted};
use crate::mubc::MUBC_VERSION;
use crate::vm::VmOptions;

verus! {

// ----- numbers on the command line -----

/// What `usize::from_str` accepts: an optional `+`, then at least one
/// decimal digit, with a value in range.
pub open spec fn parse_usize(s: Seq<char>) -> Option<usize> {
    let ds = if s.len() > 0 && s[0] == '+' { s.drop_first() } else { s };
    if ds.len() > 0 && all_digits(ds) && digits_value(ds) <= usize::MAX {
        Some(digits_value(ds) as usize)
    } else {
        None
    }
}

/// Reads a `usize` the way `str::parse` does.
pub fn parse_usize_text(text: &str) -> (r: Option<usize>)
    ensures
        r == parse_usize(text@),
{
    let chars = chars_of(text);
    let ghost s = text@;
    let n = chars.len();
    let start: usize = if n > 0 && chars[0] == '+' { 1 } else { 0 };
    let ghost ds = if s.len() > 0 && s[0] == '+' { s.drop_first() } else { s };
    proof {
        assert(ds =~= chars@.skip(start as int));
    }
    if start == n {
        return None;
    }
    let mut value: usize = 0;
    let mut i = start;
    while i < n
        invariant
            start <= i <= n,
            n == chars@.len(),
            chars@ == s,
            s == text@,
            ds == chars@.skip(start as int),
            ds == (if s.len() > 0 && s[0] == '+' { s.drop_first() } else { s }),
            all_digits(chars@.subrange(start as int, i as int)),
            value as int == digits_value(chars@.subrange(start as int, i as int)),
        decreases n - i,
    {
        let c = chars[i];
        let ghost pre = chars@.subrange(start as int, i as int);
        let ghost post = chars@.subrange(start as int, i + 1);
        proof {
            assert(post.drop_last() =~= pre);
            assert(post.last() == c);
            assert(ds[i - start] == c);
            assert(post =~= ds.take(i + 1 - start));
        }
        if !('0' <= c && c <= '9') {
            proof {
                assert(!is_digit_char(ds[i - start]));
                assert(!all_digits(ds));
            }
            return None;
        }
        let d: usize = (c as u32 - '0' as u32) as usize;
        if value > (usize::MAX - d) / 10 {
            proof {
                assert(value * 10 + d > usize::MAX) by (nonlinear_arith)
                    requires
                        value > (usize::MAX - d) / 10,
                        d <= 9,
                ;
                assert(digits_value(post) == value * 10 + d);
                if all_digits(ds) {
                    lemma_digits_value_grows(ds, i + 1 - start);
                }
            }
            return None;
        }
        proof {
            assert(value * 10 + d <= usize::MAX) by (nonlinear_arith)
                requires
                    value <= (usize::MAX - d) / 10,
                    d <= 9,
            ;
            assert forall|j: int| 0 <= j < post.len() implies is_digit_char(#[trigger] post[j]) by {
                if j < pre.len() {
                    assert(post[j] == pre[j]);
                }
            }
        }
        value = value * 10 + d;
        i = i + 1;
    }
    proof {
        assert(chars@.subrange(start as int, n as int) =~= ds);
    }
    Some(value)
}

// ----- file commands -----

/// Where a script may touch the filesystem.
#[derive(Debug, Clone)]
pub enum FsGrant {
    /// Scoped under the entry file's directory.
    Default,
    /// Scoped under an explicit root.
    Root(String),
    /// No filesystem access.
    Deny,
}

/// A file command after argument parsing: the VM options, the capability
/// grants, the entry file, and the script arguments.
#[derive(Debug, Clone)]
pub struct FileRequest {
    pub options: VmOptions,
    pub fs: FsGrant,
    pub env_names: Option<Vec<String>>,
    pub entry: String,
    pub argv: Vec<String>,
}

/// The filesystem grant as the contracts speak of it.
pub enum FsChoice {
    Default,
    Root(Seq<char>),
    Deny,
}

pub open spec fn fs_choice(g: FsGrant) -> FsChoice {
    match g {
        FsGrant::Default => FsChoice::Default,
        FsGrant::Root(r) => FsChoice::Root(r@),
        FsGrant::Deny => FsChoice::Deny,
    }
}

/// What the options before the entry file have set so far.
pub struct OptionScan {
    pub options: VmOptions,
    pub fs: FsChoice,
    pub env_names: Option<Seq<Seq<char>>>,
    pub positional: Seq<Seq<char>>,
}

pub open spec fn texts(v: Seq<String>) -> Seq<Seq<char>> {
    v.map_values(|s: String| s@)
}

/// Reads the option tokens from `i` on: `--jit`, `--jit-threshold N`,
/// `--allow-fs ROOT`, `--no-fs` and `--allow-env NAME`; any other token
/// starting with `--` is refused, and the rest are positional.
pub open spec fn scan_options(left: Seq<Seq<char>>, i: int, st: OptionScan, command: Seq<char>) -> Result<
    OptionScan,
    Seq<char>,
>
    decreases left.len() - i,
{
    if i < 0 || i >= left.len() {
        Ok(st)
    } else {
        let v = left[i];
        if v == "--jit"@ {
            scan_options(left, i + 1, OptionScan { options: VmOptions { jit_enabled: true, ..st.options }, ..st }, command)
        } else if v == "--jit-threshold"@ {
            if i + 1 >= left.len() {
                Err("missing value for --jit-threshold"@)
            } else {
                match parse_usize(left[i + 1]) {
                    Some(n) => scan_options(
                        left,
                        i + 2,
                        OptionScan { options: VmOptions { hot_loop_threshold: n, ..st.options }, ..st },
                        command,
                    ),
                    None => Err("invalid --jit-threshold value '"@ + left[i + 1] + "'"@),
                }
            }
        } else if v == "--allow-fs"@ {
            if i + 1 >= left.len() {
                Err("missing value for --allow-fs"@)
            } else {
                scan_options(left, i + 2, OptionScan { fs: FsChoice::Root(left[i + 1]), ..st }, command)
            }
        } else if v == "--no-fs"@ {
            scan_options(left, i + 1, OptionScan { fs: FsChoice::Deny, ..st }, command)
        } else if v == "--allow-env"@ {
            if i + 1 >= left.len() {
                Err("missing value for --allow-env"@)
            } else {
                let names = match st.env_names {
                    Some(ns) => ns,
                    None => seq![],
                };
                scan_options(left, i + 2, OptionScan { env_names: Some(names.push(left[i + 1])), ..st }, command)
            }
        } else if has_prefix(v, "--"@) {
            Err("unknown option '"@ + v + "' for command '"@ + command + "'"@)
        } else {
            scan_options(left, i + 1, OptionScan { positional: st.positional.push(v), ..st }, command)
        }
    }
}

/// The first `--` among the arguments, if any.
pub open spec fn first_dashes(args: Seq<Seq<char>>) -> Option<int> {
    if exists|i: int| 0 <= i < args.len() && args[i] == "--"@ {
        Some(choose|i: int| 0 <= i < args.len() && args[i] == "--"@ && forall|j: int| 0 <= j < i ==> args[j] != "--"@)
    } else {
        None
    }
}

/// The tokens before the first `--`, and the script arguments after it.
pub open spec fn split_at_dashes(args: Seq<Seq<char>>) -> (Seq<Seq<char>>, Seq<Seq<char>>) {
    match first_dashes(args) {
        Some(at) => (args.take(at), args.skip(at + 1)),
        None => (args, seq![]),
    }
}

/// What a file command's arguments ask for: the options, the entry (the
/// first positional token), and the script arguments (the other positional
/// tokens, then everything after `--`); or why they are refused.
pub open spec fn file_command(args: Seq<Seq<char>>, command: Seq<char>) -> Result<
    (VmOptions, FsChoice, Option<Seq<Seq<char>>>, Seq<char>, Seq<Seq<char>>),
    Seq<char>,
> {
    let (left, after) = split_at_dashes(args);
    let start = OptionScan {
        options: VmOptions { jit_enabled: false, hot_loop_threshold: 100 },
        fs: FsChoice::Default,
        env_names: None,
        positional: seq![],
    };
    match scan_options(left, 0, start, command) {
        Err(m) => Err(m),
        Ok(st) => if st.positional.len() == 0 {
            Err("missing source file for command '"@ + command + "'"@)
        } else {
            Ok((st.options, st.fs, st.env_names, st.positional[0], st.positional.drop_first() + after))
        },
    }
}

fn copy_strings(v: &[String], from: usize, to: usize) -> (r: Vec<String>)
    requires
        from <= to <= v@.len(),
    ensures
        texts(r@) == texts(v@).subrange(from as int, to as int),
{
    let mut r: Vec<String> = Vec::new();
    let mut i = from;
    while i < to
        invariant
            from <= i <= to <= v@.len(),
            texts(r@) == texts(v@).subrange(from as int, i as int),
        decreases to - i,
    {
        let ghost before = r@;
        r.push(v[i].clone());
        proof {
            assert(texts(r@) =~= texts(before).push(v@[i as int]@));
            assert(texts(v@).subrange(from as int, i + 1) =~= texts(v@).subrange(from as int, i as int).push(
                v@[i as int]@,
            ));
        }
        i = i + 1;
    }
    r
}

/// Splits command-line tokens at the first `--`: everything after it is
/// script arguments.
pub fn split_script_args(args: &[String]) -> (r: (Vec<String>, Vec<String>))
    ensures
        (texts(r.0@), texts(r.1@)) == split_at_dashes(texts(args@)),
{
    let ghost t = texts(args@);
    let mut i: usize = 0;
    while i < args.len()
        invariant
            i <= args@.len(),
            t == texts(args@),
            forall|j: int| 0 <= j < i ==> t[j] != "--"@,
        decreases args@.len() - i,
    {
        if same_text(args[i].as_str(), "--") {
            proof {
                let c = choose|k: int| 0 <= k < t.len() && t[k] == "--"@ && forall|j: int| 0 <= j < k ==> t[j] != "--"@;
                assert(0 <= i < t.len() && t[i as int] == "--"@ && forall|j: int| 0 <= j < i ==> t[j] != "--"@);
                if c < i {
                    assert(t[c] != "--"@);
                } else if c > i {
                    assert(t[i as int] != "--"@);
                }
                assert(texts(args@).skip(i + 1) =~= texts(args@).subrange(i + 1, args@.len() as int));
                assert(texts(args@).take(i as int) =~= texts(args@).subrange(0, i as int));
            }
            return (copy_strings(args, 0, i), copy_strings(args, i + 1, args.len()));
        }
        i = i + 1;
    }
    proof {
        assert(texts(args@).subrange(0, args@.len() as int) =~= texts(args@));
    }
    (copy_strings(args, 0, args.len()), Vec::new())
}

/// Parses `<options> <entry> [-- script-args...]`. Tokens after the entry
/// file (or after `--`) are script arguments, never options, so script
/// flags starting with `-` survive behind `--`. A refusal gives the
/// message to print before the usage text.
pub fn parse_file_command(args: &[String], command: &str) -> (r: Result<FileRequest, String>)
    ensures
        match file_command(texts(args@), command@) {
            Err(m) => r matches Err(e) && e@ == m,
            Ok((options, fs, env, entry, argv)) => r matches Ok(req) && req.options == options && fs_choice(req.fs)
                == fs && match (req.env_names, env) {
                (None, None) => true,
                (Some(v), Some(e)) => texts(v@) == e,
                _ => false,
            } && req.entry@ == entry && texts(req.argv@) == argv,
        },
{
    let (left, after) = split_script_args(args);
    let ghost l = texts(left@);
    let mut options = VmOptions::default();
    let mut fs = FsGrant::Default;
    let mut env_names: Option<Vec<String>> = None;
    let mut positional: Vec<String> = Vec::new();
    let ghost start = OptionScan {
        options: VmOptions { jit_enabled: false, hot_loop_threshold: 100 },
        fs: FsChoice::Default,
        env_names: None,
        positional: seq![],
    };
    proof {
        reveal_strlit("--jit");
        reveal_strlit("--jit-threshold");
        reveal_strlit("--allow-fs");
        reveal_strlit("--no-fs");
        reveal_strlit("--allow-env");
        reveal_strlit("--");
    }
    proof {
        assert(texts(positional@) =~= Seq::<Seq<char>>::empty());
    }
    let mut index: usize = 0;
    while index < left.len()
        invariant
            index <= left@.len(),
            l == texts(left@),
            (texts(left@), texts(after@)) == split_at_dashes(texts(args@)),
            start == (OptionScan {
                options: VmOptions { jit_enabled: false, hot_loop_threshold: 100 },
                fs: FsChoice::Default,
                env_names: None,
                positional: seq![],
            }),
            scan_options(l, 0, start, command@) == scan_options(
                l,
                index as int,
                OptionScan {
                    options,
                    fs: fs_choice(fs),
                    env_names: match env_names {
                        Some(v) => Some(texts(v@)),
                        None => None,
                    },
                    positional: texts(positional@),
                },
                command@,
            ),
        decreases left@.len() - index,
    {
        let v = left[index].as_str();
        proof {
            assert(l[index as int] == v@);
            reveal_strlit("--jit");
            reveal_strlit("--jit-threshold");
            reveal_strlit("--allow-fs");
            reveal_strlit("--no-fs");
            reveal_strlit("--allow-env");
            reveal_strlit("--");
        }
        if same_text(v, "--jit") {
            options.jit_enabled = true;
            index = index + 1;
        } else if same_text(v, "--jit-threshold") {
            if index + 1 >= left.len() {
                return Err(owned("missing value for --jit-threshold"));
            }
            let value = left[index + 1].as_str();
            proof {
                assert(l[index + 1] == value@);
            }
            match parse_usize_text(value) {
                Some(n) => {
                    options.hot_loop_threshold = n;
                    index = index + 2;
                },
                None => {
                    let mut m = owned("invalid --jit-threshold value '");
                    push_str(&mut m, value);
                    push_str(&mut m, "'");
                    return Err(m);
                },
            }
        } else if same_text(v, "--allow-fs") {
            if index + 1 >= left.len() {
                return Err(owned("missing value for --allow-fs"));
            }
            proof {
                assert(l[index + 1] == left@[index + 1]@);
            }
            fs = FsGrant::Root(left[index + 1].clone());
            index = index + 2;
        } else if same_text(v, "--no-fs") {
            fs = FsGrant::Deny;
            index = index + 1;
        } else if same_text(v, "--allow-env") {
            if index + 1 >= left.len() {
                return Err(owned("missing value for --allow-env"));
            }
            let name = left[index + 1].clone();
            proof {
                assert(l[index + 1] == name@);
            }
            let ghost old_env = match &env_names {
                Some(v) => Some(texts(v@)),
                None => None,
            };
            let mut names = match env_names {
                Some(ns) => ns,
                None => Vec::new(),
            };
            let ghost before = names@;
            proof {
                assert(texts(before) =~= match old_env {
                    Some(ns) => ns,
                    None => Seq::<Seq<char>>::empty(),
                });
            }
            names.push(name);
            proof {
                assert(texts(names@) =~= texts(before).push(l[index + 1]));
            }
            env_names = Some(names);
            index = index + 2;
        } else if starts_with_text(v, "--") {
            let mut m = owned("unknown option '");
            push_str(&mut m, v);
            push_str(&mut m, "' for command '");
            push_str(&mut m, command);
            push_str(&mut m, "'");
            return Err(m);
        } else {
            let ghost before = positional@;
            positional.push(left[index].clone());
            proof {
                assert(texts(positional@) =~= texts(before).push(l[index as int]));
            }
            index = index + 1;
        }
    }
    if positional.len() == 0 {
        let mut m = owned("missing source file for command '");
        push_str(&mut m, command);
        push_str(&mut m, "'");
        return Err(m);
    }
    let entry = positional.remove(0);
    let mut argv = positional;
    let mut k: usize = 0;
    let ghost base = texts(argv@);
    while k < after.len()
        invariant
            k <= after@.len(),
            texts(argv@) == base + texts(after@).take(k as int),
        decreases after@.len() - k,
    {
        let ghost before = argv@;
        argv.push(after[k].clone());
        proof {
            assert(texts(argv@) =~= texts(before).push(after@[k as int]@));
            assert(texts(after@).take(k + 1) =~= texts(after@).take(k as int).push(after@[k as int]@));
        }
        k = k + 1;
    }
    proof {
        assert(texts(after@).take(after@.len() as int) =~= texts(after@));
    }
    Ok(FileRequest { options, fs, env_names, entry, argv })
}

/// The one path a command takes, or the refusal message.
pub fn expect_single_path<'a>(args: &'a [String], command: &str) -> (r: Result<&'a str, String>)
    ensures
        args@.len() == 1 <==> r is Ok,
        r matches Ok(p) ==> p@ == args@[0]@,
        r matches Err(m) ==> m@ == "missing source file for command '"@ + command@ + "'"@,
{
    if args.len() != 1 {
        let mut m = owned("missing source file for command '");
        push_str(&mut m, command);
        push_str(&mut m, "'");
        return Err(m);
    }
    Ok(args[0].as_str())
}

// ----- exit codes -----

/// Script exit codes are kept within 0-125; anything else becomes 1
/// (126, 127 and 128+N stay reserved for the shell and signals).
pub fn clamp_exit_code(code: i64) -> (r: i32)
    ensures
        r == (if 0 <= code <= 125 { code as i32 } else { 1i32 }),
{
    if 0 <= code && code <= 125 {
        code as i32
    } else {
        1
    }
}

/// Whether `needle` occurs in `hay` at index `i`.
pub open spec fn occurs_at(hay: Seq<char>, needle: Seq<char>, i: int) -> bool {
    0 <= i <= hay.len() - needle.len() && hay.subrange(i, i + needle.len()) == needle
}

/// Where `needle` first occurs in `hay`.
pub open spec fn first_occurrence(hay: Seq<char>, needle: Seq<char>) -> Option<int> {
    if exists|i: int| #[trigger] occurs_at(hay, needle, i) {
        Some(choose|i: int| #[trigger] occurs_at(hay, needle, i) && forall|j: int| 0 <= j < i ==> !#[trigger] occurs_at(hay, needle, j))
    } else {
        None
    }
}

pub open spec fn is_code_char(c: char) -> bool {
    is_digit_char(c) || c == '-'
}

/// The leading run of digits and `-` of `s`.
pub open spec fn code_token(s: Seq<char>) -> Seq<char>
    decreases s.len(),
{
    if s.len() > 0 && is_code_char(s[0]) {
        seq![s[0]] + code_token(s.drop_first())
    } else {
        seq![]
    }
}

/// The exit code named by the first `exit code ` in joined runtime
/// output, clamped; none when there is no such trap or its code does not
/// read as an `i64`.
pub open spec fn joined_exit_code(message: Seq<char>) -> Option<i32> {
    match first_occurrence(message, "exit code "@) {
        None => None,
        Some(at) => match parse_i64(code_token(message.skip(at + 10))) {
            None => None,
            Some(code) => Some(if 0 <= code <= 125 { code as i32 } else { 1i32 }),
        },
    }
}

proof fn lemma_code_token(s: Seq<char>, k: int)
    requires
        0 <= k <= s.len(),
        forall|i: int| 0 <= i < k ==> is_code_char(#[trigger] s[i]),
        k == s.len() || !is_code_char(s[k]),
    ensures
        code_token(s) == s.take(k),
    decreases k,
{
    if k > 0 {
        let rest = s.drop_first();
        assert forall|i: int| 0 <= i < k - 1 implies is_code_char(#[trigger] rest[i]) by {
            assert(rest[i] == s[i + 1]);
        }
        if k < s.len() {
            assert(rest[k - 1] == s[k]);
        }
        lemma_code_token(rest, k - 1);
        assert(seq![s[0]] + rest.take(k - 1) =~= s.take(k));
    } else if s.len() > 0 {
        assert(s.take(0) =~= Seq::<char>::empty());
    } else {
        assert(s.take(0) =~= Seq::<char>::empty());
    }
}

/// Whether `n` occurs in `h` at index `at`.
fn matches_at(h: &Vec<char>, n: &Vec<char>, at: usize) -> (b: bool)
    requires
        at + n@.len() <= h@.len(),
    ensures
        b == occurs_at(h@, n@, at as int),
{
    let mut k: usize = 0;
    while k < n.len()
        invariant
            k <= n@.len(),
            at + n@.len() <= h@.len(),
            h.len() == h@.len(),
            forall|m: int| 0 <= m < k ==> h@[at + m] == n@[m],
        decreases n@.len() - k,
    {
        if h[at + k] != n[k] {
            proof {
                assert(h@.subrange(at as int, at + n@.len())[k as int] != n@[k as int]);
            }
            return false;
        }
        k = k + 1;
    }
    proof {
        assert(h@.subrange(at as int, at + n@.len()) =~= n@);
    }
    true
}

/// Where `n` first occurs in `h`.
fn find_text(h: &Vec<char>, n: &Vec<char>) -> (r: Option<usize>)
    requires
        n@.len() > 0,
    ensures
        r matches Some(i) ==> occurs_at(h@, n@, i as int) && first_occurrence(h@, n@) == Some(i as int),
        r is None ==> first_occurrence(h@, n@) is None,
{
    if h.len() < n.len() {
        proof {
            if exists|i: int| #[trigger] occurs_at(h@, n@, i) {
                assert(false);
            }
        }
        return None;
    }
    let mut at: usize = 0;
    while at <= h.len() - n.len()
        invariant
            0 < n@.len() <= h@.len(),
            h.len() == h@.len(),
            at <= h@.len() - n@.len() + 1,
            forall|j: int| 0 <= j < at ==> !#[trigger] occurs_at(h@, n@, j),
        decreases h@.len() - n@.len() + 1 - at,
    {
        if matches_at(h, n, at) {
            proof {
                let c = choose|i: int| #[trigger] occurs_at(h@, n@, i) && forall|j: int| 0 <= j < i ==> !#[trigger] occurs_at(h@, n@, j);
                if c < at {
                    assert(!occurs_at(h@, n@, c));
                } else if c > at {
                    assert(!occurs_at(h@, n@, at as int));
                }
            }
            return Some(at);
        }
        at = at + 1;
    }
    proof {
        if exists|i: int| #[trigger] occurs_at(h@, n@, i) {
            let w = choose|i: int| #[trigger] occurs_at(h@, n@, i);
            assert(!occurs_at(h@, n@, w));
        }
    }
    None
}

/// The run of digits and `-` at `from` in `h`.
fn code_token_at(h: &Vec<char>, from: usize) -> (t: Vec<char>)
    requires
        from <= h@.len(),
    ensures
        t@ == code_token(h@.skip(from as int)),
{
    let mut end = from;
    while end < h.len() && (is_ascii_digit_char(h[end]) || h[end] == '-')
        invariant
            from <= end <= h@.len(),
            forall|i: int| from <= i < end ==> is_code_char(#[trigger] h@[i]),
        decreases h@.len() - end,
    {
        end = end + 1;
    }
    let ghost tail = h@.skip(from as int);
    proof {
        assert forall|i: int| 0 <= i < end - from implies is_code_char(#[trigger] tail[i]) by {
            assert(tail[i] == h@[from + i]);
        }
        if end < h@.len() {
            assert(tail[end - from] == h@[end as int]);
        }
        lemma_code_token(tail, end - from);
    }
    let mut token: Vec<char> = Vec::new();
    let mut i = from;
    while i < end
        invariant
            from <= i <= end <= h@.len(),
            token@ == h@.subrange(from as int, i as int),
        decreases end - i,
    {
        token.push(h[i]);
        proof {
            assert(h@.subrange(from as int, i + 1) =~= h@.subrange(from as int, i as int).push(h@[i as int]));
        }
        i = i + 1;
    }
    proof {
        assert(tail.take(end - from) =~= token@);
    }
    token
}

/// Scans joined runtime output for an `exit(code)` trap message.
#[verifier::rlimit(40)]
pub fn exit_code_from_joined(message: &str) -> (r: Option<i32>)
    ensures
        r == joined_exit_code(message@),
{
    let h = chars_of(message);
    let n = chars_of("exit code ");
    proof {
        reveal_strlit("exit code ");
    }
    let at = match find_text(&h, &n) {
        Some(at) => at,
        None => {
            return None;
        },
    };
    let hl = h.len();
    proof {
        assert(n@.len() == 10);
    }
    let token = code_token_at(&h, at + 10);
    proof {
        assert(token@.skip(0) =~= token@);
    }
    match parse_i64_chars(&token, 0) {
        Some(code) => Some(clamp_exit_code(code)),
        None => None,
    }
}

fn is_ascii_digit_char(c: char) -> (b: bool)
    ensures
        b == is_digit_char(c),
{
    '0' <= c && c <= '9'
}

/// The exit status after failures in the given phases: 2 when any failure
/// is a source problem (not a `vm` trap), else 1.
pub fn failure_status(phases: &[&str]) -> (r: i32)
    ensures
        r == (if exists|i: int| 0 <= i < phases@.len() && phases@[i]@ != "vm"@ { 2i32 } else { 1i32 }),
{
    let mut i: usize = 0;
    while i < phases.len()
        invariant
            i <= phases@.len(),
            forall|j: int| 0 <= j < i ==> phases@[j]@ == "vm"@,
        decreases phases@.len() - i,
    {
        if !same_text(phases[i], "vm") {
            return 2;
        }
        i = i + 1;
    }
    1
}

// ----- fmt and build -----

/// What `fmt`'s arguments ask for: whether only to check, and the one
/// file; or why they are refused.
pub open spec fn fmt_command(args: Seq<Seq<char>>) -> Result<(bool, Seq<char>), Seq<char>>
    decreases args.len(),
{
    fmt_scan(args, 0, false, seq![])
}

pub open spec fn fmt_scan(args: Seq<Seq<char>>, i: int, check: bool, paths: Seq<Seq<char>>) -> Result<
    (bool, Seq<char>),
    Seq<char>,
>
    decreases args.len() - i,
{
    if i < 0 || i >= args.len() {
        if paths.len() != 1 {
            Err("missing source file for command 'fmt'"@)
        } else {
            Ok((check, paths[0]))
        }
    } else if args[i] == "--check"@ {
        fmt_scan(args, i + 1, true, paths)
    } else if has_prefix(args[i], "--"@) {
        Err("unknown option '"@ + args[i] + "' for command 'fmt'"@)
    } else {
        fmt_scan(args, i + 1, check, paths.push(args[i]))
    }
}

/// Parses `fmt [--check] <file>`.
pub fn parse_fmt_args(args: &[String]) -> (r: Result<(bool, String), String>)
    ensures
        match fmt_command(texts(args@)) {
            Ok((check, path)) => r matches Ok((c, p)) && c == check && p@ == path,
            Err(m) => r matches Err(e) && e@ == m,
        },
{
    let ghost t = texts(args@);
    let mut check = false;
    let mut paths: Vec<String> = Vec::new();
    let mut i: usize = 0;
    proof {
        assert(texts(paths@) =~= Seq::<Seq<char>>::empty());
    }
    while i < args.len()
        invariant
            i <= args@.len(),
            t == texts(args@),
            fmt_command(t) == fmt_scan(t, i as int, check, texts(paths@)),
        decreases args@.len() - i,
    {
        let a = args[i].as_str();
        proof {
            assert(t[i as int] == a@);
            reveal_strlit("--check");
            reveal_strlit("--");
        }
        if same_text(a, "--check") {
            check = true;
        } else if starts_with_text(a, "--") {
            let mut m = owned("unknown option '");
            push_str(&mut m, a);
            push_str(&mut m, "' for command 'fmt'");
            return Err(m);
        } else {
            let ghost before = paths@;
            paths.push(args[i].clone());
            proof {
                assert(texts(paths@) =~= texts(before).push(t[i as int]));
            }
        }
        i = i + 1;
    }
    if paths.len() != 1 {
        return Err(owned("missing source file for command 'fmt'"));
    }
    let path = paths.pop().unwrap();
    proof {
        assert(texts(paths@.push(path))[0] == path@);
    }
    Ok((check, path))
}

/// What `fmt` does with a file: nothing when it is already formatted,
/// report when only checking, else rewrite it with the formatted text.
#[derive(Debug)]
pub enum FormatAction {
    AlreadyFormatted,
    WouldReformat,
    Rewrite(String),
}

pub fn format_action(source: &str, check: bool) -> (a: FormatAction)
    ensures
        formatted(source@) == source@ ==> a is AlreadyFormatted,
        formatted(source@) != source@ && check ==> a is WouldReformat,
        formatted(source@) != source@ && !check ==> (a matches FormatAction::Rewrite(t) && t@ == formatted(
            source@,
        )),
{
    let out = format_source(source);
    if same_text(out.as_str(), source) {
        FormatAction::AlreadyFormatted
    } else if check {
        FormatAction::WouldReformat
    } else {
        FormatAction::Rewrite(out)
    }
}

/// Parses `build <file> [-o output.mubc]`: the source file and the
/// output path when one is given.
pub fn parse_build_args(args: &[String]) -> (r: Result<(String, Option<String>), String>)
    ensures
        args@.len() == 0 ==> (r matches Err(m) && m@ == "missing source file for command 'build'"@),
        args@.len() == 1 ==> (r matches Ok((src, out)) && src@ == args@[0]@ && out is None),
        args@.len() == 3 && args@[1]@ == "-o"@ ==> (r matches Ok((src, out)) && src@ == args@[0]@ && (out
            matches Some(o) && o@ == args@[2]@)),
        args@.len() > 0 && !(args@.len() == 1) && !(args@.len() == 3 && args@[1]@ == "-o"@) ==> (r matches Err(
            m,
        ) && m@ == "invalid arguments for command 'build'"@),
{
    if args.len() == 0 {
        return Err(owned("missing source file for command 'build'"));
    }
    if args.len() == 1 {
        return Ok((args[0].clone(), None));
    }
    if args.len() == 3 && same_text(args[1].as_str(), "-o") {
        return Ok((args[0].clone(), Some(args[2].clone())));
    }
    Err(owned("invalid arguments for command 'build'"))
}

// ----- the bytecode cache key -----

pub const FNV_OFFSET: u64 = 0xcbf29ce484222325;

pub const FNV_PRIME: u64 = 0x100000001b3;

/// One FNV-1a step: mix in the byte, then multiply by the prime.
pub open spec fn fnv1a_step(h: u64, b: u8) -> u64 {
    (h ^ (b as u64)).wrapping_mul(FNV_PRIME)
}

/// FNV-1a, 64 bits, from hash state `h` over `bytes`.
pub open spec fn fnv1a_from(h: u64, bytes: Seq<u8>) -> u64
    decreases bytes.len(),
{
    if bytes.len() == 0 {
        h
    } else {
        fnv1a_step(fnv1a_from(h, bytes.drop_last()), bytes.last())
    }
}

/// The cache key of a project: FNV-1a over the artifact format version,
/// the program version and the combined source.
pub fn project_digest(version: &str, combined: &str) -> (d: u64)
    ensures
        d == fnv1a_from(FNV_OFFSET, le16(MUBC_VERSION) + version.spec_bytes() + combined.spec_bytes()),
{
    let mut bytes: Vec<u8> = Vec::new();
    crate::bytes::push_le16(&mut bytes, MUBC_VERSION);
    crate::bytes::push_all(&mut bytes, version.as_bytes());
    crate::bytes::push_all(&mut bytes, combined.as_bytes());
    proof {
        assert(Seq::<u8>::empty() + le16(MUBC_VERSION) =~= le16(MUBC_VERSION));
    }
    let mut hash: u64 = FNV_OFFSET;
    let mut i: usize = 0;
    while i < bytes.len()
        invariant
            i <= bytes@.len(),
            hash == fnv1a_from(FNV_OFFSET, bytes@.take(i as int)),
        decreases bytes@.len() - i,
    {
        proof {
            assert(bytes@.take(i + 1).drop_last() =~= bytes@.take(i as int));
        }
        hash = (hash ^ (bytes[i] as u64)).wrapping_mul(FNV_PRIME);
        i = i + 1;
    }
    proof {
        assert(bytes@.take(bytes@.len() as int) =~= bytes@);
    }
    hash
}

} // verus!
