use vstd::prelude::*;

use crate::error::{rendered_text, MuninnError};
use crate::lexer::{keyword, keyword_of};
use crate::span::Span;
use crate::source::{char_index_of_byte, is_char_boundary, lemma_byte_offset_bound, lemma_byte_offset_injective, lemma_char_index_of_byte};
use crate::text::{
    byte_offset, char_utf8_width, chars_of, is_alpha_char, is_ascii_alpha, is_ascii_digit, is_digit_char, join,
    join_seq, lemma_byte_offset_monotone, lemma_byte_offset_step, lemma_utf8_len_push, owned, push_str,
    str_byte_len, string_from_chars, string_views, utf8_len, utf8_width,
};

verus! {

// ----- names and import specifiers -----

pub open spec fn is_identifier_char(c: char) -> bool {
    is_alpha_char(c) || is_digit_char(c) || c == '_'
}

/// A plain identifier: a letter or `_`, then letters, digits or `_`.
pub open spec fn is_identifier(s: Seq<char>) -> bool {
    &&& s.len() > 0
    &&& (is_alpha_char(s[0]) || s[0] == '_')
    &&& forall|i: int| 1 <= i < s.len() ==> is_identifier_char(#[trigger] s[i])
}

/// Whether `name` is a plain identifier, never a keyword or type name,
/// and therefore a valid rename target.
pub fn is_rename_identifier(name: &str) -> (r: bool)
    ensures
        r == (is_identifier(name@) && keyword(name@) is None),
{
    if keyword_of(name).is_some() {
        return false;
    }
    let cs = chars_of(name);
    if cs.len() == 0 {
        return false;
    }
    if !(is_ascii_alpha(cs[0]) || cs[0] == '_') {
        return false;
    }
    let mut i: usize = 1;
    while i < cs.len()
        invariant
            1 <= i <= cs@.len(),
            cs@ == name@,
            forall|j: int| 1 <= j < i ==> is_identifier_char(#[trigger] cs@[j]),
        decreases cs@.len() - i,
    {
        let c = cs[i];
        if !(is_ascii_alpha(c) || is_ascii_digit(c) || c == '_') {
            return false;
        }
        i = i + 1;
    }
    true
}

pub open spec fn has_prefix(s: Seq<char>, p: Seq<char>) -> bool {
    s.len() >= p.len() && s.take(p.len() as int) == p
}

pub open spec fn has_suffix(s: Seq<char>, p: Seq<char>) -> bool {
    s.len() >= p.len() && s.skip(s.len() - p.len()) == p
}

/// Whether `s` begins with `p`.
pub fn starts_with_text(s: &str, p: &str) -> (r: bool)
    ensures
        r == has_prefix(s@, p@),
{
    let a = chars_of(s);
    let b = chars_of(p);
    if a.len() < b.len() {
        return false;
    }
    let mut i: usize = 0;
    while i < b.len()
        invariant
            i <= b@.len() <= a@.len(),
            a@ == s@,
            b@ == p@,
            forall|j: int| 0 <= j < i ==> a@[j] == b@[j],
        decreases b@.len() - i,
    {
        if a[i] != b[i] {
            proof {
                assert(s@.take(p@.len() as int)[i as int] != p@[i as int]);
            }
            return false;
        }
        i = i + 1;
    }
    proof {
        assert(s@.take(p@.len() as int) =~= p@);
    }
    true
}

/// Whether `s` ends with `p`.
pub fn ends_with_text(s: &str, p: &str) -> (r: bool)
    ensures
        r == has_suffix(s@, p@),
{
    let a = chars_of(s);
    let b = chars_of(p);
    if a.len() < b.len() {
        return false;
    }
    let off = a.len() - b.len();
    let mut i: usize = 0;
    while i < b.len()
        invariant
            i <= b@.len() <= a@.len(),
            off + b@.len() == a@.len(),
            a@.len() == a.len(),
            a@ == s@,
            b@ == p@,
            forall|j: int| 0 <= j < i ==> a@[off + j] == b@[j],
        decreases b@.len() - i,
    {
        let k = off + i;
        if a[k] != b[i] {
            proof {
                assert(s@.skip(off as int)[i as int] != p@[i as int]);
            }
            return false;
        }
        i = i + 1;
    }
    proof {
        assert(s@.skip(off as int) =~= p@);
    }
    true
}

pub open spec fn reserved_alias_message() -> Seq<char> {
    "'@' prefixes are reserved for future package aliases; use a './' or '../' relative path"@
}

/// What an import specifier is refused for, given whether the platform
/// considers it an absolute path: a reserved `@` alias, an absolute path,
/// a path that is not file-relative, or a file that is not `.mun`.
pub open spec fn specifier_problem(spec: Seq<char>, absolute: bool) -> Option<Seq<char>> {
    if has_prefix(spec, "@"@) {
        Some(reserved_alias_message())
    } else if absolute {
        Some(
            "absolute import paths are not allowed: \""@ + spec
                + "\" (use a './' or '../' path relative to the importing file)"@,
        )
    } else if !has_prefix(spec, "./"@) && !has_prefix(spec, "../"@) {
        Some("import paths must be file-relative (start with './' or '../'), got \""@ + spec + "\""@)
    } else if !has_suffix(spec, ".mun"@) {
        Some("import path must end with '.mun', got \""@ + spec + "\""@)
    } else {
        None
    }
}

/// An accepted import specifier: a `./` or `../` path to a `.mun` file.
pub open spec fn specifier_accepted(spec: Seq<char>) -> bool {
    &&& !has_prefix(spec, "@"@)
    &&& (has_prefix(spec, "./"@) || has_prefix(spec, "../"@))
    &&& has_suffix(spec, ".mun"@)
}

/// A path text with no separator or drive mark: no `/`, `\\` or `:`.
pub open spec fn rootless(spec: Seq<char>) -> bool {
    forall|i: int| 0 <= i < spec.len() ==> spec[i] != '/' && spec[i] != '\\' && spec[i] != ':'
}

/// `std::path::Path::is_absolute` on the text of `spec`. What counts as
/// absolute differs between platforms; the contract claims only what holds
/// on each of them: an empty path, one that begins with `.`, and one with
/// no root or drive (no `/`, `\\` or `:` at all) are relative.
#[verifier::external_body]
fn path_is_absolute(spec: &str) -> (r: bool)
    ensures
        spec@.len() == 0 || spec@[0] == '.' ==> !r,
        rootless(spec@) ==> !r,
{
    std::path::Path::new(spec).is_absolute()
}

/// The refusal of an import specifier, given whether it is an absolute
/// path on this platform.
pub fn specifier_refusal(spec: &str, absolute: bool, span: Span) -> (r: Result<(), MuninnError>)
    ensures
        match specifier_problem(spec@, absolute) {
            None => r is Ok,
            Some(m) => r matches Err(e) && e.phase@ == "parser"@ && e.message@ == m && e.span == span,
        },
{
    proof {
        reveal_strlit("@");
        reveal_strlit("./");
        reveal_strlit("../");
        reveal_strlit(".mun");
    }
    if starts_with_text(spec, "@") {
        return Err(
            MuninnError::new(
                "parser",
                "'@' prefixes are reserved for future package aliases; use a './' or '../' relative path",
                span,
            ),
        );
    }
    if absolute {
        let mut msg = owned("absolute import paths are not allowed: \"");
        push_str(&mut msg, spec);
        push_str(&mut msg, "\" (use a './' or '../' path relative to the importing file)");
        return Err(MuninnError::from_string("parser", msg, span));
    }
    if !starts_with_text(spec, "./") && !starts_with_text(spec, "../") {
        let mut msg = owned("import paths must be file-relative (start with './' or '../'), got \"");
        push_str(&mut msg, spec);
        push_str(&mut msg, "\"");
        return Err(MuninnError::from_string("parser", msg, span));
    }
    if !ends_with_text(spec, ".mun") {
        let mut msg = owned("import path must end with '.mun', got \"");
        push_str(&mut msg, spec);
        push_str(&mut msg, "\"");
        return Err(MuninnError::from_string("parser", msg, span));
    }
    Ok(())
}

/// Validates one import specifier. Only `./` and `../` file-relative paths
/// with a `.mun` extension are accepted: absolute paths are unportable,
/// bare names invite search-path ambiguity, and `@` is reserved for future
/// package aliases.
pub fn check_specifier(spec: &str, span: Span) -> (r: Result<(), MuninnError>)
    ensures
        r is Ok <==> specifier_accepted(spec@),
        r matches Err(e) ==> e.phase@ == "parser"@ && e.span == span && (specifier_problem(spec@, false)
            == Some(e.message@) || specifier_problem(spec@, true) == Some(e.message@)),
        rootless(spec@) ==> (r matches Err(e) ==> specifier_problem(spec@, false) == Some(e.message@)),
{
    let absolute = path_is_absolute(spec);
    proof {
        reveal_strlit("./");
        reveal_strlit("../");
        if has_prefix(spec@, "./"@) {
            assert(spec@[0] == spec@.take(2)[0]);
        }
        if has_prefix(spec@, "../"@) {
            assert(spec@[0] == spec@.take(3)[0]);
        }
    }
    specifier_refusal(spec, absolute, span)
}

// ----- project files and their diagnostics -----

/// One file participating in a loaded project.
#[derive(Debug, Clone)]
pub struct ProjectFile {
    pub path: String,
    pub source: String,
}

/// A diagnostic tied to the file that owns its span.
#[derive(Debug, Clone)]
pub struct FileDiagnostic {
    pub path: String,
    pub source: String,
    pub error: MuninnError,
}

impl FileDiagnostic {
    /// `path: ` followed by the error rendered against the file's source.
    pub fn render(&self) -> (s: String)
        ensures
            s@ == self.path@ + ": "@ + rendered_text(self.error, self.source@),
    {
        let mut s = owned(self.path.as_str());
        push_str(&mut s, ": ");
        let body = self.error.render_with_source(self.source.as_str());
        push_str(&mut s, body.as_str());
        s
    }
}

// ----- the combined source of a project -----

/// Number of newlines in `s`.
pub open spec fn newlines(s: Seq<char>) -> nat
    decreases s.len(),
{
    if s.len() == 0 {
        0
    } else {
        newlines(s.drop_last()) + if s.last() == '\n' { 1nat } else { 0nat }
    }
}

/// The combined text after one more body: the body, then a newline unless
/// the text now ends with one.
pub open spec fn append_body(combined: Seq<char>, body: Seq<char>) -> Seq<char> {
    let c = combined + body;
    if c.len() > 0 && c.last() == '\n' {
        c
    } else {
        c.push('\n')
    }
}

/// All bodies, dependencies first, each ending on a line of its own.
pub open spec fn combine(bodies: Seq<Seq<char>>) -> Seq<char>
    decreases bodies.len(),
{
    if bodies.len() == 0 {
        seq![]
    } else {
        append_body(combine(bodies.drop_last()), bodies.last())
    }
}

pub open spec fn body_views(bodies: Seq<String>) -> Seq<Seq<char>> {
    bodies.map_values(|b: String| b@)
}

/// The line (1-based) of the combined source on which body `i` begins. The
/// combined text always ends with a newline, so its line count is its
/// newline count.
pub open spec fn body_start_line(bodies: Seq<Seq<char>>, i: int) -> int {
    newlines(combine(bodies.take(i))) + 1int
}

proof fn lemma_newlines_concat(a: Seq<char>, b: Seq<char>)
    ensures
        newlines(a + b) == newlines(a) + newlines(b),
    decreases b.len(),
{
    if b.len() == 0 {
        assert(a + b =~= a);
    } else {
        lemma_newlines_concat(a, b.drop_last());
        assert((a + b).drop_last() =~= a + b.drop_last());
    }
}

proof fn lemma_combine_newline_end(bodies: Seq<Seq<char>>)
    ensures
        combine(bodies).len() == 0 <==> bodies.len() == 0,
        bodies.len() > 0 ==> combine(bodies).last() == '\n',
    decreases bodies.len(),
{
    if bodies.len() > 0 {
        lemma_combine_newline_end(bodies.drop_last());
    }
}

/// An import-expanded project: dependency bodies first, entry last. Bodies
/// keep their line structure, so per-file line numbers survive; only
/// inter-file offsets shift, and `map_errors` reverses that shift.
#[derive(Debug, Clone)]
pub struct LoadedProject {
    pub entry: String,
    pub files: Vec<ProjectFile>,
    pub combined: String,
    /// The line of `combined` on which each body begins.
    pub line_starts: Vec<usize>,
}

/// The file owning combined-source `line`: the last body starting at or
/// before it (scanning stops at the first body starting after it), kept
/// within the files.
pub open spec fn first_after(starts: Seq<usize>, line: usize) -> nat
    decreases starts.len(),
{
    if starts.len() == 0 {
        0
    } else if starts[0] > line {
        0
    } else {
        1 + first_after(starts.drop_first(), line)
    }
}

pub open spec fn owner_of(starts: Seq<usize>, file_count: nat, line: usize) -> nat {
    let k = first_after(starts, line);
    let o: nat = if k == 0 { 0 } else { (k - 1) as nat };
    let last: nat = if file_count == 0 { 0 } else { (file_count - 1) as nat };
    if o <= last { o } else { last }
}

/// A line moved back by `start - 1`, never below line 1.
pub open spec fn shift_line(line: usize, start: usize) -> usize {
    let moved: int = line - (start - 1);
    if moved < 1 { 1 } else { moved as usize }
}

impl LoadedProject {
    /// Every body begins on line 1 or later.
    pub open spec fn starts_positive(&self) -> bool {
        forall|i: int| 0 <= i < self.line_starts@.len() ==> #[trigger] self.line_starts@[i] >= 1
    }

    /// Joins the loaded files' bodies (imports blanked), dependencies first
    /// and the entry last, each ending on a line of its own.
    pub fn assemble(entry: String, files: Vec<ProjectFile>, bodies: &Vec<String>) -> (p: LoadedProject)
        requires
            newlines(combine(body_views(bodies@))) < usize::MAX,
        ensures
            p.entry == entry,
            p.files == files,
            p.combined@ == combine(body_views(bodies@)),
            p.line_starts@.len() == bodies@.len(),
            forall|i: int| 0 <= i < bodies@.len() ==> #[trigger] p.line_starts@[i] == body_start_line(body_views(bodies@), i),
            p.starts_positive(),
    {
        let ghost views = body_views(bodies@);
        let mut combined = String::new();
        let mut line_starts: Vec<usize> = Vec::new();
        let mut lines: usize = 0;
        let mut ends_newline = false;
        let mut i: usize = 0;
        proof {
            assert(views.take(0) =~= Seq::<Seq<char>>::empty());
        }
        while i < bodies.len()
            invariant
                i <= bodies@.len(),
                views == body_views(bodies@),
                newlines(combine(views)) < usize::MAX,
                combined@ == combine(views.take(i as int)),
                lines == newlines(combined@),
                ends_newline == (combined@.len() > 0 && combined@.last() == '\n'),
                line_starts@.len() == i,
                forall|j: int| 0 <= j < i ==> #[trigger] line_starts@[j] == body_start_line(views, j),
                forall|j: int| 0 <= j < i ==> #[trigger] line_starts@[j] >= 1,
            decreases bodies@.len() - i,
        {
            proof {
                lemma_combine_prefix_newlines(views, i as int + 1);
                lemma_combine_prefix_newlines(views, i as int);
                assert(views.take(i + 1).drop_last() =~= views.take(i as int));
                assert(views.take(i + 1).last() == views[i as int]);
                assert(views[i as int] == bodies@[i as int]@);
            }
            line_starts.push(lines + 1);
            let body = chars_of(bodies[i].as_str());
            let ghost before = combined@;
            proof {
                let c = before + body@;
                assert(combine(views.take(i + 1)) == append_body(before, body@));
                assert(c.push('\n').drop_last() =~= c);
                assert(newlines(c) <= newlines(append_body(before, body@)));
            }
            let mut k: usize = 0;
            while k < body.len()
                invariant
                    k <= body@.len(),
                    body@ == views[i as int],
                    newlines(before + body@) < usize::MAX,
                    combined@ == before + body@.take(k as int),
                    lines == newlines(combined@),
                    ends_newline == (combined@.len() > 0 && combined@.last() == '\n'),
                decreases body@.len() - k,
            {
                let c = body[k];
                crate::text::push_char(&mut combined, c);
                proof {
                    assert(body@.take(k + 1) =~= body@.take(k as int).push(c));
                    assert(before + body@.take(k + 1) =~= (before + body@.take(k as int)).push(c));
                    assert(combined@.drop_last() =~= before + body@.take(k as int));
                    lemma_newlines_concat(before + body@.take(k + 1), body@.skip(k + 1));
                    assert(before + body@.take(k + 1) + body@.skip(k + 1) =~= before + body@);
                }
                if c == '\n' {
                    lines = lines + 1;
                    ends_newline = true;
                } else {
                    ends_newline = false;
                }
                k = k + 1;
            }
            proof {
                assert(body@.take(body@.len() as int) =~= body@);
            }
            if !ends_newline {
                crate::text::push_char(&mut combined, '\n');
                proof {
                    assert(combined@.drop_last() =~= before + body@);
                }
                lines = lines + 1;
                ends_newline = true;
            }
            i = i + 1;
        }
        proof {
            assert(views.take(bodies@.len() as int) =~= views);
        }
        LoadedProject { entry, files, combined, line_starts }
    }
}

impl LoadedProject {
    /// The file owning combined-source `line`.
    fn owner(&self, line: usize) -> (o: usize)
        ensures
            o == owner_of(self.line_starts@, self.files@.len(), line),
    {
        let mut k: usize = 0;
        while k < self.line_starts.len() && self.line_starts[k] <= line
            invariant
                k <= self.line_starts@.len(),
                forall|j: int| 0 <= j < k ==> #[trigger] self.line_starts@[j] <= line,
            decreases self.line_starts@.len() - k,
        {
            k = k + 1;
        }
        proof {
            lemma_first_after(self.line_starts@, line, k as int);
        }
        let o = if k == 0 { 0 } else { k - 1 };
        let last = if self.files.len() == 0 { 0 } else { self.files.len() - 1 };
        if o <= last { o } else { last }
    }

    /// Rewrites combined-source diagnostics to per-file diagnostics: a
    /// synthetic span (line 0), or a project without files, goes to the
    /// first file (or the entry path); any other goes to the file owning
    /// its line, with lines counted from that file's start.
    pub fn map_errors(&self, errors: Vec<MuninnError>) -> (r: Vec<FileDiagnostic>)
        requires
            self.starts_positive(),
        ensures
            r@.len() == errors@.len(),
            forall|i: int| 0 <= i < errors@.len() ==> #[trigger] mapped(*self, errors@[i], r@[i]),
    {
        let mut out: Vec<FileDiagnostic> = Vec::new();
        let mut rest = errors;
        let ghost all = rest@;
        let mut reversed: Vec<MuninnError> = Vec::new();
        while rest.len() > 0
            invariant
                rest@.len() + reversed@.len() == all.len(),
                forall|j: int| 0 <= j < rest@.len() ==> #[trigger] rest@[j] == all[j],
                forall|j: int| 0 <= j < reversed@.len() ==> #[trigger] reversed@[j] == all[all.len() - 1 - j],
            decreases rest@.len(),
        {
            let e = rest.pop().unwrap();
            reversed.push(e);
        }
        while reversed.len() > 0
            invariant
                self.starts_positive(),
                out@.len() + reversed@.len() == all.len(),
                forall|j: int| 0 <= j < reversed@.len() ==> #[trigger] reversed@[j] == all[all.len() - 1 - j],
                forall|j: int| 0 <= j < out@.len() ==> #[trigger] mapped(*self, all[j], out@[j]),
            decreases reversed@.len(),
        {
            let error = reversed.pop().unwrap();
            proof {
                assert(error == all[out@.len() as int]);
            }
            let d = self.map_one(error);
            out.push(d);
        }
        out
    }

    fn map_one(&self, error: MuninnError) -> (d: FileDiagnostic)
        requires
            self.starts_positive(),
        ensures
            mapped(*self, error, d),
    {
        let mut error = error;
        if error.span.line == 0 || self.files.len() == 0 {
            if self.files.len() > 0 {
                return FileDiagnostic {
                    path: self.files[0].path.clone(),
                    source: self.files[0].source.clone(),
                    error,
                };
            }
            return FileDiagnostic { path: self.entry.clone(), source: String::new(), error };
        }
        let owner = self.owner(error.span.line);
        let start = if owner < self.line_starts.len() { self.line_starts[owner] } else { 1 };
        error.span.line = shift(error.span.line, start);
        error.span.end_line = shift(error.span.end_line, start);
        FileDiagnostic {
            path: self.files[owner].path.clone(),
            source: self.files[owner].source.clone(),
            error,
        }
    }
}

fn shift(line: usize, start: usize) -> (r: usize)
    requires
        start >= 1,
    ensures
        r == shift_line(line, start),
{
    let moved = line.saturating_sub(start - 1);
    if moved < 1 { 1 } else { moved }
}

/// `d` is what `map_errors` makes of `e` in project `p`.
pub open spec fn mapped(p: LoadedProject, e: MuninnError, d: FileDiagnostic) -> bool {
    if e.span.line == 0 || p.files@.len() == 0 {
        &&& d.error == e
        &&& if p.files@.len() > 0 {
            d.path@ == p.files@[0].path@ && d.source@ == p.files@[0].source@
        } else {
            d.path@ == p.entry@ && d.source@.len() == 0
        }
    } else {
        let o = owner_of(p.line_starts@, p.files@.len(), e.span.line);
        let start: usize = if o < p.line_starts@.len() { p.line_starts@[o as int] } else { 1 };
        &&& d.path@ == p.files@[o as int].path@
        &&& d.source@ == p.files@[o as int].source@
        &&& d.error == (MuninnError {
            span: Span {
                line: shift_line(e.span.line, start),
                end_line: shift_line(e.span.end_line, start),
                ..e.span
            },
            ..e
        })
    }
}

proof fn lemma_first_after(starts: Seq<usize>, line: usize, k: int)
    requires
        0 <= k <= starts.len(),
        forall|j: int| 0 <= j < k ==> #[trigger] starts[j] <= line,
        k == starts.len() || starts[k] > line,
    ensures
        first_after(starts, line) == k,
    decreases k,
{
    if k > 0 {
        assert(starts[0] <= line);
        let rest = starts.drop_first();
        assert forall|j: int| 0 <= j < k - 1 implies #[trigger] rest[j] <= line by {
            assert(rest[j] == starts[j + 1]);
        }
        if k < starts.len() {
            assert(rest[k - 1] == starts[k]);
        }
        lemma_first_after(rest, line, k - 1);
    }
}

/// The combined text of a prefix of the bodies has no more newlines than
/// the whole, and at least one per body.
proof fn lemma_combine_prefix_newlines(bodies: Seq<Seq<char>>, k: int)
    requires
        0 <= k <= bodies.len(),
    ensures
        newlines(combine(bodies.take(k))) <= newlines(combine(bodies)),
    decreases bodies.len() - k,
{
    if k < bodies.len() {
        lemma_combine_prefix_newlines(bodies, k + 1);
        let pre = bodies.take(k + 1);
        assert(pre.drop_last() =~= bodies.take(k));
        lemma_newlines_concat(combine(bodies.take(k)), pre.last());
        if !((combine(bodies.take(k)) + pre.last()).len() > 0 && (combine(bodies.take(k)) + pre.last()).last()
            == '\n') {
            assert((combine(bodies.take(k)) + pre.last()).push('\n').drop_last() =~= combine(bodies.take(k))
                + pre.last());
        }
    } else {
        assert(bodies.take(k) =~= bodies);
    }
}

// ----- walking the imports -----

/// What the loader finds when it reaches a file.
#[derive(Debug)]
pub enum Visit {
    /// The file is already loaded (a diamond import).
    Done,
    /// The file is being loaded further up the chain: a cycle, with its
    /// diagnostic text and the file whose import closed it.
    Cycle { message: String, importer: String },
    /// The file has not been seen yet.
    Fresh,
}

/// The loader's memory during a depth-first walk of the imports: the
/// files finished, and the chain of files being loaded, each with the
/// label that names it in diagnostics.
#[derive(Debug)]
pub struct ImportWalk {
    pub completed: Vec<String>,
    pub chain: Vec<(String, String)>,
}

pub open spec fn has_path(paths: Seq<String>, path: Seq<char>) -> bool {
    exists|i: int| 0 <= i < paths.len() && (#[trigger] paths[i])@ == path
}

pub open spec fn chain_has(chain: Seq<(String, String)>, path: Seq<char>) -> bool {
    exists|i: int| 0 <= i < chain.len() && (#[trigger] chain[i]).0@ == path
}

/// Where `path` first occurs on the chain.
pub open spec fn chain_position(chain: Seq<(String, String)>, path: Seq<char>) -> int {
    choose|i: int| 0 <= i < chain.len() && chain[i].0@ == path && forall|j: int|
        0 <= j < i ==> (#[trigger] chain[j]).0@ != path
}

pub open spec fn chain_labels(chain: Seq<(String, String)>) -> Seq<Seq<char>> {
    chain.map_values(|e: (String, String)| e.1@)
}

/// `circular import: a.mun -> b.mun -> a.mun`: the labels from where the
/// file first joined the chain, then the file again.
pub open spec fn cycle_message(chain: Seq<(String, String)>, path: Seq<char>, label: Seq<char>) -> Seq<char> {
    "circular import: "@ + join_seq(
        chain_labels(chain.skip(chain_position(chain, path))).push(label),
        " -> "@,
    )
}

impl ImportWalk {
    pub fn new() -> (w: ImportWalk)
        ensures
            w.completed@.len() == 0,
            w.chain@.len() == 0,
    {
        ImportWalk { completed: Vec::new(), chain: Vec::new() }
    }

    /// Classifies the file at `path` (named `label` in diagnostics).
    pub fn visit(&self, path: &str, label: &str) -> (v: Visit)
        ensures
            match v {
                Visit::Done => has_path(self.completed@, path@),
                Visit::Cycle { message, importer } => !has_path(self.completed@, path@) && chain_has(
                    self.chain@,
                    path@,
                ) && message@ == cycle_message(self.chain@, path@, label@) && importer@
                    == self.chain@.last().0@,
                Visit::Fresh => !has_path(self.completed@, path@) && !chain_has(self.chain@, path@),
            },
    {
        let mut i: usize = 0;
        while i < self.completed.len()
            invariant
                i <= self.completed@.len(),
                forall|j: int| 0 <= j < i ==> (#[trigger] self.completed@[j])@ != path@,
            decreases self.completed@.len() - i,
        {
            if crate::text::same_text(self.completed[i].as_str(), path) {
                return Visit::Done;
            }
            i = i + 1;
        }
        let mut p: usize = 0;
        while p < self.chain.len()
            invariant
                p <= self.chain@.len(),
                forall|j: int| 0 <= j < self.completed@.len() ==> (#[trigger] self.completed@[j])@ != path@,
                forall|j: int| 0 <= j < p ==> (#[trigger] self.chain@[j]).0@ != path@,
            decreases self.chain@.len() - p,
        {
            if crate::text::same_text(self.chain[p].0.as_str(), path) {
                let mut labels: Vec<String> = Vec::new();
                let mut k: usize = p;
                proof {
                    assert(chain_position(self.chain@, path@) == p) by {
                        let c = chain_position(self.chain@, path@);
                        assert(0 <= p < self.chain@.len() && self.chain@[p as int].0@ == path@ && forall|j: int|
                            0 <= j < p ==> (#[trigger] self.chain@[j]).0@ != path@);
                        if c < p {
                            assert(self.chain@[c].0@ != path@);
                        } else if c > p {
                            assert(self.chain@[p as int].0@ != path@);
                        }
                    }
                }
                while k < self.chain.len()
                    invariant
                        p <= k <= self.chain@.len(),
                        string_views(labels@) == chain_labels(self.chain@.skip(p as int)).take(k - p),
                    decreases self.chain@.len() - k,
                {
                    let ghost old_labels = labels@;
                    let x = self.chain[k].1.clone();
                    labels.push(x);
                    proof {
                        let cl = chain_labels(self.chain@.skip(p as int));
                        assert(cl[k - p] == self.chain@[k as int].1@);
                        assert(string_views(labels@) =~= string_views(old_labels).push(x@));
                        assert(cl.take(k + 1 - p) =~= cl.take(k - p).push(cl[k - p]));
                    }
                    k = k + 1;
                }
                let ghost old_labels = labels@;
                labels.push(owned(label));
                proof {
                    let cl = chain_labels(self.chain@.skip(p as int));
                    assert(cl.take(k - p) =~= cl);
                    assert(string_views(labels@) =~= string_views(old_labels).push(label@));
                }
                let mut message = owned("circular import: ");
                let joined = join(&labels, " -> ");
                push_str(&mut message, joined.as_str());
                let importer = self.chain[self.chain.len() - 1].0.clone();
                return Visit::Cycle { message, importer };
            }
            p = p + 1;
        }
        Visit::Fresh
    }

    /// The file at `path` starts loading.
    pub fn enter(&mut self, path: String, label: String)
        ensures
            final(self).completed == old(self).completed,
            final(self).chain@ == old(self).chain@.push((path, label)),
    {
        self.chain.push((path, label));
    }

    /// The file at the end of the chain stops loading (finished or failed).
    pub fn leave(&mut self)
        ensures
            final(self).completed == old(self).completed,
            final(self).chain@ == (if old(self).chain@.len() > 0 {
                old(self).chain@.drop_last()
            } else {
                old(self).chain@
            }),
    {
        let _ = self.chain.pop();
    }

    /// The file at `path` is loaded; later visits find it done.
    pub fn finish(&mut self, path: String)
        ensures
            final(self).chain == old(self).chain,
            final(self).completed@ == old(self).completed@.push(path),
    {
        self.completed.push(path);
    }
}

// ----- blanking import statements -----

/// One character blanked: a newline stays, anything else becomes as many
/// spaces as it has UTF-8 bytes.
pub open spec fn blank_char(c: char) -> Seq<char> {
    if c == '\n' {
        seq!['\n']
    } else {
        Seq::new(utf8_width(c), |i: int| ' ')
    }
}

pub open spec fn blank_all(s: Seq<char>) -> Seq<char>
    decreases s.len(),
{
    if s.len() == 0 {
        seq![]
    } else {
        blank_all(s.drop_last()) + blank_char(s.last())
    }
}

/// The byte range of `span` within a text of `len` bytes: both ends
/// clamped to the text, the end never before the start.
pub open spec fn clamped_range(span: Span, len: nat) -> (int, int) {
    let start: int = if span.offset <= len { span.offset as int } else { len as int };
    let end0: int = if span.end_offset <= len { span.end_offset as int } else { len as int };
    (start, if end0 >= start { end0 } else { start })
}

/// `s` with the bytes of `span` blanked, when both ends of the clamped
/// range fall between characters; otherwise `s` unchanged.
pub open spec fn blank_span(s: Seq<char>, span: Span) -> Seq<char> {
    let (start, end) = clamped_range(span, utf8_len(s));
    if is_char_boundary(s, start) && is_char_boundary(s, end) {
        let i = char_index_of_byte(s, start);
        let j = char_index_of_byte(s, end);
        s.take(i) + blank_all(s.subrange(i, j)) + s.skip(j)
    } else {
        s
    }
}

/// The spans blanked one after another.
pub open spec fn blank_spans(s: Seq<char>, spans: Seq<Span>) -> Seq<char>
    decreases spans.len(),
{
    if spans.len() == 0 {
        s
    } else {
        blank_span(blank_spans(s, spans.drop_last()), spans.last())
    }
}

proof fn lemma_utf8_len_concat(a: Seq<char>, b: Seq<char>)
    ensures
        utf8_len(a + b) == utf8_len(a) + utf8_len(b),
    decreases b.len(),
{
    if b.len() == 0 {
        assert(a + b =~= a);
    } else {
        lemma_utf8_len_concat(a, b.drop_last());
        assert((a + b).drop_last() =~= a + b.drop_last());
    }
}

proof fn lemma_utf8_len_spaces(n: nat)
    ensures
        utf8_len(Seq::new(n, |i: int| ' ')) == n,
    decreases n,
{
    if n > 0 {
        lemma_utf8_len_spaces((n - 1) as nat);
        assert(Seq::new(n, |i: int| ' ').drop_last() =~= Seq::new((n - 1) as nat, |i: int| ' '));
    }
}

proof fn lemma_blank_all_len(s: Seq<char>)
    ensures
        utf8_len(blank_all(s)) == utf8_len(s),
    decreases s.len(),
{
    if s.len() > 0 {
        lemma_blank_all_len(s.drop_last());
        lemma_utf8_len_concat(blank_all(s.drop_last()), blank_char(s.last()));
        if s.last() == '\n' {
            assert(seq!['\n'].drop_last() =~= Seq::<char>::empty());
            assert(utf8_len(seq!['\n']) == utf8_len(Seq::<char>::empty()) + utf8_width('\n'));
        } else {
            lemma_utf8_len_spaces(utf8_width(s.last()));
        }
    }
}

proof fn lemma_blank_span_len(s: Seq<char>, span: Span)
    ensures
        utf8_len(blank_span(s, span)) == utf8_len(s),
{
    let (start, end) = clamped_range(span, utf8_len(s));
    if is_char_boundary(s, start) && is_char_boundary(s, end) {
        let i = char_index_of_byte(s, start);
        let j = char_index_of_byte(s, end);
        if i > j {
            lemma_byte_offset_monotone(s, j, i);
        }
        assert(s =~= s.take(i) + s.subrange(i, j) + s.skip(j));
        lemma_utf8_len_concat(s.take(i) + s.subrange(i, j), s.skip(j));
        lemma_utf8_len_concat(s.take(i), s.subrange(i, j));
        lemma_utf8_len_concat(s.take(i) + blank_all(s.subrange(i, j)), s.skip(j));
        lemma_utf8_len_concat(s.take(i), blank_all(s.subrange(i, j)));
        lemma_blank_all_len(s.subrange(i, j));
    }
}

/// The character index at byte `target`, if `target` falls between
/// characters.
pub(crate) fn boundary_index(chars: &Vec<char>, target: usize) -> (r: Option<usize>)
    requires
        utf8_len(chars@) <= usize::MAX,
    ensures
        r is Some <==> is_char_boundary(chars@, target as int),
        r matches Some(k) ==> k <= chars@.len() && byte_offset(chars@, k as int) == target
            && k == char_index_of_byte(chars@, target as int),
{
    let ghost s = chars@;
    let n = chars.len();
    let mut k: usize = 0;
    let mut b: usize = 0;
    proof {
        assert(s.take(0) =~= Seq::<char>::empty());
    }
    while k < n && b < target
        invariant
            n == s.len(),
            chars@ == s,
            k <= n,
            b == byte_offset(s, k as int),
            utf8_len(s) <= usize::MAX,
            forall|j: int| 0 <= j < k ==> #[trigger] byte_offset(s, j) < target,
        decreases n - k,
    {
        proof {
            lemma_byte_offset_step(s, k as int);
            lemma_byte_offset_bound(s, k + 1);
        }
        b = b + char_utf8_width(chars[k]);
        k = k + 1;
    }
    if b == target {
        proof {
            lemma_char_index_of_byte(s, k as int);
        }
        Some(k)
    } else {
        proof {
            if is_char_boundary(s, target as int) {
                let kt = char_index_of_byte(s, target as int);
                if kt < k {
                    assert(byte_offset(s, kt) < target);
                } else if kt > k {
                    lemma_byte_offset_monotone(s, k as int, kt);
                    if k == n {
                        assert(false);
                    }
                }
            }
        }
        None
    }
}

/// Blanks each import statement's span in `source` (newlines kept, every
/// other character replaced by spaces of the same byte length), so the
/// body keeps its line structure and byte offsets. A span whose clamped
/// ends do not fall between characters is skipped.
pub fn blank_imports(source: &str, spans: &[Span]) -> (body: String)
    ensures
        body@ == blank_spans(source@, spans@),
{
    let mut cur = chars_of(source);
    let len = str_byte_len(source);
    let mut n: usize = 0;
    proof {
        assert(spans@.take(0) =~= Seq::<Span>::empty());
    }
    while n < spans.len()
        invariant
            n <= spans@.len(),
            cur@ == blank_spans(source@, spans@.take(n as int)),
            utf8_len(cur@) == len,
        decreases spans@.len() - n,
    {
        let span = spans[n];
        proof {
            assert(spans@.take(n + 1).drop_last() =~= spans@.take(n as int));
            assert(spans@.take(n + 1).last() == span);
            lemma_blank_span_len(cur@, span);
        }
        let start = if span.offset <= len { span.offset } else { len };
        let end0 = if span.end_offset <= len { span.end_offset } else { len };
        let end = if end0 >= start { end0 } else { start };
        match (boundary_index(&cur, start), boundary_index(&cur, end)) {
            (Some(i), Some(j)) => {
                proof {
                    if i > j {
                        lemma_byte_offset_monotone(cur@, j as int, i as int);
                    }
                }
                let mut next: Vec<char> = Vec::new();
                let mut k: usize = 0;
                while k < i
                    invariant
                        k <= i <= j <= cur@.len(),
                        next@ == cur@.take(k as int),
                    decreases i - k,
                {
                    next.push(cur[k]);
                    proof {
                        assert(cur@.take(k + 1) =~= cur@.take(k as int).push(cur@[k as int]));
                    }
                    k = k + 1;
                }
                proof {
                    assert(cur@.subrange(i as int, i as int) =~= Seq::<char>::empty());
                    assert(cur@.take(i as int) + blank_all(Seq::<char>::empty()) =~= cur@.take(i as int));
                }
                while k < j
                    invariant
                        i <= k <= j <= cur@.len(),
                        next@ == cur@.take(i as int) + blank_all(cur@.subrange(i as int, k as int)),
                    decreases j - k,
                {
                    let c = cur[k];
                    let ghost before = next@;
                    if c == '\n' {
                        next.push('\n');
                        proof {
                            assert(next@ =~= before + seq!['\n']);
                        }
                    } else {
                        let w = char_utf8_width(c);
                        let mut m: usize = 0;
                        while m < w
                            invariant
                                m <= w,
                                w == utf8_width(c),
                                next@ == before + Seq::new(m as nat, |x: int| ' '),
                            decreases w - m,
                        {
                            next.push(' ');
                            proof {
                                assert(next@ =~= before + Seq::new((m + 1) as nat, |x: int| ' '));
                            }
                            m = m + 1;
                        }
                    }
                    proof {
                        let sub = cur@.subrange(i as int, k + 1);
                        assert(sub.drop_last() =~= cur@.subrange(i as int, k as int));
                        assert(sub.last() == c);
                        assert(next@ =~= cur@.take(i as int) + blank_all(sub));
                    }
                    k = k + 1;
                }
                while k < cur.len()
                    invariant
                        j <= k <= cur@.len(),
                        next@ == cur@.take(i as int) + blank_all(cur@.subrange(i as int, j as int))
                            + cur@.subrange(j as int, k as int),
                    decreases cur@.len() - k,
                {
                    next.push(cur[k]);
                    proof {
                        assert(cur@.subrange(j as int, k + 1) =~= cur@.subrange(j as int, k as int).push(
                            cur@[k as int],
                        ));
                    }
                    k = k + 1;
                }
                proof {
                    assert(cur@.subrange(j as int, cur@.len() as int) =~= cur@.skip(j as int));
                    assert(next@ =~= blank_span(cur@, span));
                }
                cur = next;
            },
            _ => {
                proof {
                    assert(cur@ == blank_span(cur@, span));
                }
            },
        }
        n = n + 1;
    }
    proof {
        assert(spans@.take(spans@.len() as int) =~= spans@);
    }
    string_from_chars(&cur)
}

// ----- laws -----

proof fn lemma_start_lines_ordered(bodies: Seq<Seq<char>>, a: int, b: int)
    requires
        0 <= a <= b <= bodies.len(),
    ensures
        body_start_line(bodies, a) <= body_start_line(bodies, b),
{
    let pre = bodies.take(b);
    lemma_combine_prefix_newlines(pre, a);
    assert(pre.take(a) =~= bodies.take(a));
}

/// A line of the combined source that lies in body `i` (at or after its
/// first line, before the next body's) is mapped back to file `i`, at its
/// line within that body.
pub proof fn law_map_errors_finds_the_body(starts: Seq<usize>, bodies: Seq<Seq<char>>, i: int, line: usize)
    requires
        starts.len() == bodies.len(),
        forall|k: int| 0 <= k < bodies.len() ==> #[trigger] starts[k] == body_start_line(bodies, k),
        0 <= i < bodies.len(),
        starts[i] <= line,
        i + 1 < bodies.len() ==> line < starts[i + 1],
    ensures
        owner_of(starts, bodies.len(), line) == i,
        shift_line(line, starts[i]) == line - starts[i] + 1,
{
    assert forall|j: int| 0 <= j < i + 1 implies #[trigger] starts[j] <= line by {
        lemma_start_lines_ordered(bodies, j, i);
    }
    lemma_first_after(starts, line, i + 1);
}

proof fn lemma_newlines_spaces(n: nat)
    ensures
        newlines(Seq::new(n, |i: int| ' ')) == 0,
    decreases n,
{
    if n > 0 {
        lemma_newlines_spaces((n - 1) as nat);
        assert(Seq::new(n, |i: int| ' ').drop_last() =~= Seq::new((n - 1) as nat, |i: int| ' '));
    }
}

proof fn lemma_blank_all_newlines(s: Seq<char>)
    ensures
        newlines(blank_all(s)) == newlines(s),
    decreases s.len(),
{
    if s.len() > 0 {
        lemma_blank_all_newlines(s.drop_last());
        lemma_newlines_concat(blank_all(s.drop_last()), blank_char(s.last()));
        if s.last() == '\n' {
            assert(seq!['\n'].drop_last() =~= Seq::<char>::empty());
            assert(newlines(seq!['\n']) == newlines(Seq::<char>::empty()) + 1);
        } else {
            lemma_newlines_spaces(utf8_width(s.last()));
        }
    }
}

proof fn lemma_blank_span_newlines(s: Seq<char>, span: Span)
    ensures
        newlines(blank_span(s, span)) == newlines(s),
{
    let (start, end) = clamped_range(span, utf8_len(s));
    if is_char_boundary(s, start) && is_char_boundary(s, end) {
        let i = char_index_of_byte(s, start);
        let j = char_index_of_byte(s, end);
        if i > j {
            lemma_byte_offset_monotone(s, j, i);
        }
        assert(s =~= s.take(i) + s.subrange(i, j) + s.skip(j));
        lemma_newlines_concat(s.take(i) + s.subrange(i, j), s.skip(j));
        lemma_newlines_concat(s.take(i), s.subrange(i, j));
        lemma_newlines_concat(s.take(i) + blank_all(s.subrange(i, j)), s.skip(j));
        lemma_newlines_concat(s.take(i), blank_all(s.subrange(i, j)));
        lemma_blank_all_newlines(s.subrange(i, j));
    }
}

/// Blanking import statements keeps a body's byte length and its number
/// of lines, so byte offsets and line numbers in it stay valid.
pub proof fn law_blanking_keeps_layout(s: Seq<char>, spans: Seq<Span>)
    ensures
        utf8_len(blank_spans(s, spans)) == utf8_len(s),
        newlines(blank_spans(s, spans)) == newlines(s),
    decreases spans.len(),
{
    if spans.len() > 0 {
        law_blanking_keeps_layout(s, spans.drop_last());
        lemma_blank_span_len(blank_spans(s, spans.drop_last()), spans.last());
        lemma_blank_span_newlines(blank_spans(s, spans.drop_last()), spans.last());
    }
}

} // verus!
