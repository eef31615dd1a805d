//! File names and directories: splitting a file stem into fields, and
//! picking the directories whose path a regular expression matches.
use crate::chars::{chars_of, Text};
use vstd::prelude::*;

verus! {

/// The first occurrence of `d` in `s` that starts at `from` or later.
pub open spec fn find_text(s: Seq<char>, d: Seq<char>, from: int) -> Option<int>
    decreases s.len() + 1 - from,
{
    if from < 0 || from + d.len() > s.len() {
        None
    } else if s.subrange(from, from + d.len()) == d {
        Some(from)
    } else {
        find_text(s, d, from + 1)
    }
}

proof fn lemma_find_text(s: Seq<char>, d: Seq<char>, from: int)
    requires
        0 <= from,
    ensures
        find_text(s, d, from) matches Some(i) ==> from <= i && i + d.len() <= s.len()
            && s.subrange(i, i + d.len()) == d,
    decreases s.len() + 1 - from,
{
    if from + d.len() <= s.len() && s.subrange(from, from + d.len()) != d {
        lemma_find_text(s, d, from + 1);
    }
}

/// The pieces of `s[from..]` between occurrences of the non-empty `d`.
pub open spec fn split_from(s: Seq<char>, d: Seq<char>, from: int) -> Seq<Seq<char>>
    decreases s.len() + 1 - from,
    via split_from_decreases
{
    if d.len() == 0 || from < 0 || from > s.len() {
        seq![]
    } else {
        match find_text(s, d, from) {
            Some(i) => seq![s.subrange(from, i)] + split_from(s, d, i + d.len()),
            None => seq![s.subrange(from, s.len() as int)],
        }
    }
}

#[via_fn]
proof fn split_from_decreases(s: Seq<char>, d: Seq<char>, from: int) {
    if 0 <= from {
        lemma_find_text(s, d, from);
    }
}

/// The pieces of `s` separated by `d`, as `str::split` gives them: between
/// the occurrences of `d` found from left to right; with an empty `d`, an
/// empty piece, each character, and an empty piece.
pub open spec fn split_text(s: Seq<char>, d: Seq<char>) -> Seq<Seq<char>> {
    if d.len() == 0 {
        seq![seq![]] + s.map_values(|c: char| seq![c]) + seq![seq![]]
    } else {
        split_from(s, d, 0)
    }
}

/// Pieces joined with `d` between them.
pub open spec fn join_with(ps: Seq<Seq<char>>, d: Seq<char>) -> Seq<char>
    decreases ps.len(),
{
    if ps.len() == 0 {
        seq![]
    } else if ps.len() == 1 {
        ps[0]
    } else {
        join_with(ps.drop_last(), d) + d + ps.last()
    }
}

/// The views of a sequence of string slices.
pub open spec fn strs(v: Seq<&str>) -> Seq<Seq<char>> {
    v.map_values(|s: &str| s@)
}

/// Whether `d` occurs in `s` at `i`.
fn occurs_at(s: &Vec<char>, d: &Vec<char>, i: usize) -> (b: bool)
    requires
        i + d.len() <= s.len(),
    ensures
        b == (s@.subrange(i as int, i + d.len()) == d@),
{
    let mut j: usize = 0;
    while j < d.len()
        invariant
            i + d.len() <= s.len(),
            j <= d.len(),
            forall|k: int| 0 <= k < j ==> s@[i + k] == d@[k],
        decreases d.len() - j,
    {
        if s[i + j] != d[j] {
            assert(s@.subrange(i as int, i + d.len())[j as int] != d@[j as int]);
            return false;
        }
        j += 1;
    }
    assert(s@.subrange(i as int, i + d.len()) =~= d@);
    true
}

/// The first occurrence of `d` in `s` at `from` or later.
fn find_text_at(s: &Vec<char>, d: &Vec<char>, from: usize) -> (r: Option<usize>)
    requires
        from <= s.len(),
        d.len() > 0,
    ensures
        match r {
            Some(i) => find_text(s@, d@, from as int) == Some(i as int),
            None => find_text(s@, d@, from as int) is None,
        },
{
    let mut i = from;
    while i <= s.len() && d.len() <= s.len() - i
        invariant
            from <= i,
            d.len() > 0,
            find_text(s@, d@, from as int) == find_text(s@, d@, i as int),
        decreases s.len() + 1 - i,
    {
        if occurs_at(s, d, i) {
            return Some(i);
        }
        i += 1;
    }
    None
}

/// The pieces of `s` separated by `delimiter` (`str::split`).
pub fn split_str<'a>(s: &'a str, delimiter: &str) -> (r: Vec<&'a str>)
    ensures
        strs(r@) == split_text(s@, delimiter@),
{
    let text = Text::new(s);
    let d = chars_of(delimiter);
    let n = text.len();
    let mut r: Vec<&'a str> = Vec::new();
    if d.len() == 0 {
        r.push(text.slice(0, 0));
        let mut i: usize = 0;
        assert(s@.subrange(0, 0) =~= seq![]);
        assert(strs(r@) =~= seq![seq![]] + s@.take(0).map_values(|c: char| seq![c]));
        while i < n
            invariant
                text.wf(),
                text.src@ == s@,
                n == s@.len(),
                i <= n,
                strs(r@) == seq![seq![]] + s@.take(i as int).map_values(|c: char| seq![c]),
            decreases n - i,
        {
            let ghost before = strs(r@);
            r.push(text.slice(i, i + 1));
            assert(s@.subrange(i as int, i + 1) =~= seq![s@[i as int]]);
            assert(s@.take(i + 1).map_values(|c: char| seq![c]) =~= s@.take(i as int).map_values(
                |c: char| seq![c],
            ).push(seq![s@[i as int]]));
            assert(strs(r@) =~= before.push(seq![s@[i as int]]));
            i += 1;
        }
        let ghost before = strs(r@);
        r.push(text.slice(n, n));
        assert(s@.subrange(n as int, n as int) =~= seq![]);
        assert(s@.take(n as int) =~= s@);
        assert(strs(r@) =~= before.push(seq![]));
        assert(strs(r@) =~= split_text(s@, delimiter@));
        return r;
    }
    let mut from: usize = 0;
    loop
        invariant
            text.wf(),
            text.src@ == s@,
            n == s@.len(),
            d@ == delimiter@,
            d.len() > 0,
            from <= n,
            split_text(s@, d@) == strs(r@) + split_from(s@, d@, from as int),
        decreases n + 1 - from,
    {
        let found = find_text_at(&text.chars, &d, from);
        let ghost before = strs(r@);
        proof {
            lemma_find_text(s@, d@, from as int);
        }
        if let Some(i) = found {
            r.push(text.slice(from, i));
            assert(strs(r@) =~= before.push(s@.subrange(from as int, i as int)));
            assert(split_from(s@, d@, from as int) == seq![s@.subrange(from as int, i as int)]
                + split_from(s@, d@, i + d.len()));
            assert(strs(r@) + split_from(s@, d@, i + d.len()) =~= before + split_from(
                s@,
                d@,
                from as int,
            ));
            from = i + d.len();
        } else {
            r.push(text.slice(from, n));
            assert(strs(r@) =~= before.push(s@.subrange(from as int, n as int)));
            assert(strs(r@) =~= split_text(s@, d@));
            return r;
        }
    }
}

/// Whether `a` occurs in `b` as a contiguous part.
pub open spec fn is_part_of(a: Seq<char>, b: Seq<char>) -> bool {
    exists|i: int| 0 <= i && i + a.len() <= b.len() && #[trigger] b.subrange(i, i + a.len()) == a
}

/// The part of the path `p` after its last `/`.
pub open spec fn after_last_slash(p: Seq<char>) -> Seq<char>
    decreases p.len(),
{
    if p.len() == 0 {
        p
    } else if p.last() == '/' {
        seq![]
    } else {
        after_last_slash(p.drop_last()).push(p.last())
    }
}

/// A name that is a file name on every platform: not empty, neither `.` nor
/// `..`, and without `/`, `\` or `:`.
pub open spec fn plain_name(n: Seq<char>) -> bool {
    &&& n.len() > 0
    &&& n != seq!['.']
    &&& n != seq!['.', '.']
    &&& !n.contains('/')
    &&& !n.contains('\\')
    &&& !n.contains(':')
}

/// A path whose file name is the same on every platform: it holds no `\`
/// and no `:` (so no prefix of a Windows path), it does not begin with `//`,
/// and the part after its last `/` is a plain name, which is its file name.
pub open spec fn plain_path(p: Seq<char>) -> bool {
    &&& !p.contains('\\')
    &&& !p.contains(':')
    &&& !(p.len() >= 2 && p[0] == '/' && p[1] == '/')
    &&& plain_name(after_last_slash(p))
}

/// The position of the last `.` of `n`, if it has one.
pub open spec fn last_dot(n: Seq<char>) -> Option<int>
    decreases n.len(),
{
    if n.len() == 0 {
        None
    } else if n.last() == '.' {
        Some(n.len() - 1)
    } else {
        last_dot(n.drop_last())
    }
}

/// The stem of a file name: the whole name if it has no `.` other than a
/// leading one, else the part before its last `.`.
pub open spec fn name_stem(n: Seq<char>) -> Seq<char> {
    match last_dot(n) {
        Some(i) => if i > 0 {
            n.subrange(0, i)
        } else {
            n
        },
        None => n,
    }
}

/// The extension of a file name: none if it has no `.` other than a leading
/// one, else the part after its last `.`.
pub open spec fn name_ext(n: Seq<char>) -> Option<Seq<char>> {
    match last_dot(n) {
        Some(i) => if i > 0 {
            Some(n.subrange(i + 1, n.len() as int))
        } else {
            None
        },
        None => None,
    }
}

/// The stem of the file name of `path` (`std::path::Path::file_stem`, as a
/// string). The contract claims that a stem, when there is one, is a
/// contiguous part of `path`, and, for a path whose file name is the same on
/// every platform (`plain_path`), what the documentation says: the file name
/// is the final component, and the stem is the whole name if it has no `.`
/// or only a leading one, else the part before the final `.`.  For other
/// paths, which part the stem is depends on the separators of the platform's
/// paths, and is left unsaid.
#[verifier::external_body]
fn file_stem<'a>(path: &'a str) -> (r: Option<&'a str>)
    ensures
        r matches Some(s) ==> is_part_of(s@, path@),
        match r {
            Some(s) => plain_path(path@) ==> s@ == name_stem(after_last_slash(path@)),
            None => !plain_path(path@),
        },
{
    match std::path::Path::new(path).file_stem() {
        Some(stem) => stem.to_str(),
        None => None,
    }
}

/// The fields of the file stem of `path` separated by `delimiter`, or `None`
/// where the path has no file name. The fields, joined with the delimiter,
/// are a contiguous part of `path`, and they are exactly what `split_str`
/// gives of that part. For a path whose file name is the same on every
/// platform, there are fields, and they split the stem of that name.
pub fn path_split<'a>(path: &'a str, delimiter: &str) -> (r: Option<Vec<&'a str>>)
    ensures
        r matches Some(v) ==> {
            &&& is_part_of(join_with(strs(v@), delimiter@), path@)
            &&& strs(v@) == split_text(join_with(strs(v@), delimiter@), delimiter@)
        },
        plain_path(path@) ==> (r matches Some(v) && strs(v@) == split_text(
            name_stem(after_last_slash(path@)),
            delimiter@,
        )),
{
    match file_stem(path) {
        Some(stem) => {
            let v = split_str(stem, delimiter);
            proof {
                lemma_split_join(stem@, delimiter@);
            }
            Some(v)
        },
        None => None,
    }
}

/// The extension of the file name of `path` (`std::path::Path::extension`,
/// as a string). The contract claims that an extension, when there is one,
/// is a contiguous part of `path`, and, for a path whose file name is the
/// same on every platform (`plain_path`), what the documentation says: none
/// if the name has no `.` or only a leading one, else the part after the
/// final `.`.  For other paths, which part the extension is depends on the
/// separators of the platform's paths, and is left unsaid.
#[verifier::external_body]
fn file_extension<'a>(path: &'a str) -> (r: Option<&'a str>)
    ensures
        r matches Some(e) ==> is_part_of(e@, path@),
        match r {
            Some(e) => plain_path(path@) ==> name_ext(after_last_slash(path@)) == Some(e@),
            None => plain_path(path@) ==> name_ext(after_last_slash(path@)) is None,
        },
{
    match std::path::Path::new(path).extension() {
        Some(ext) => ext.to_str(),
        None => None,
    }
}

/// The formats of log files that the library reads.
#[derive(Debug, Clone, Copy, PartialEq, Eq)]
pub enum LogFormat {
    /// A binary STDF file (extension `stdf`).
    Stdf,
    /// A text log of the tester (extension `txt`).
    Txt,
}

/// The format that a file extension names, if any.
pub open spec fn format_named(ext: Seq<char>) -> Option<LogFormat> {
    if ext == "stdf"@ {
        Some(LogFormat::Stdf)
    } else if ext == "txt"@ {
        Some(LogFormat::Txt)
    } else {
        None
    }
}

/// Whether two strings are equal.
fn same_text(a: &str, b: &str) -> (r: bool)
    ensures
        r == (a@ == b@),
{
    let x = chars_of(a);
    let y = chars_of(b);
    if x.len() != y.len() {
        return false;
    }
    let mut i: usize = 0;
    while i < x.len()
        invariant
            x@ == a@,
            y@ == b@,
            x.len() == y.len(),
            i <= x.len(),
            forall|j: int| 0 <= j < i ==> x@[j] == y@[j],
        decreases x.len() - i,
    {
        if x[i] != y[i] {
            return false;
        }
        i += 1;
    }
    assert(x@ =~= y@);
    true
}

/// The format that the file extension `ext` names: `stdf` or `txt`, exactly.
pub fn format_of_extension(ext: &str) -> (r: Option<LogFormat>)
    ensures
        r == format_named(ext@),
{
    if same_text(ext, "stdf") {
        proof {
            reveal_strlit("stdf");
        }
        Some(LogFormat::Stdf)
    } else if same_text(ext, "txt") {
        proof {
            reveal_strlit("stdf");
            reveal_strlit("txt");
        }
        Some(LogFormat::Txt)
    } else {
        proof {
            reveal_strlit("stdf");
            reveal_strlit("txt");
        }
        None
    }
}

/// The format that the file name at the end of the path `p` names by its
/// extension, if any.
pub open spec fn format_of_name(p: Seq<char>) -> Option<LogFormat> {
    match name_ext(after_last_slash(p)) {
        Some(e) => format_named(e),
        None => None,
    }
}

/// The format of the log file at `path`, told by the extension of its file
/// name; `None` where it has no extension or one that names no format.  For
/// a path whose file name is the same on every platform, that is exactly the
/// format its name's extension names.
pub fn log_format(path: &str) -> (r: Option<LogFormat>)
    ensures
        r matches Some(f) ==> exists|e: Seq<char>| is_part_of(e, path@) && format_named(e) == Some(f),
        plain_path(path@) ==> r == format_of_name(path@),
{
    match file_extension(path) {
        Some(ext) => format_of_extension(ext),
        None => None,
    }
}

/// What is asked of a log file.
#[derive(Debug, Clone, Copy, PartialEq, Eq)]
pub enum Operation {
    /// How many records of each kind it holds.
    Summary,
    /// Its header records.
    Header,
    /// Its parametric test results.
    Ptr,
    /// Its datalog text records.
    Dtr,
}

/// Whether the library reads `op` from a file of format `f`: every operation
/// from an STDF file, and only the parametric test results from a text log.
pub open spec fn supported(op: Operation, f: LogFormat) -> bool {
    match f {
        LogFormat::Stdf => true,
        LogFormat::Txt => op is Ptr,
    }
}

/// Whether the library reads `op` from a file of format `f`.
pub fn reads(op: Operation, f: LogFormat) -> (b: bool)
    ensures
        b == supported(op, f),
{
    match f {
        LogFormat::Stdf => true,
        LogFormat::Txt => match op {
            Operation::Ptr => true,
            _ => false,
        },
    }
}

/// Whether the pattern `p` is a regular expression that `regex::Regex::new`
/// accepts.
pub uninterp spec fn regex_compiles(p: Seq<char>) -> bool;

/// Whether the regular expression `p` matches somewhere in `t`
/// (`regex::Regex::is_match`).
pub uninterp spec fn regex_finds(p: Seq<char>, t: Seq<char>) -> bool;

/// A compiled regular expression of the regex crate.
#[verifier::external_type_specification]
#[verifier::external_body]
pub struct ExRegex(regex::Regex);

/// A compiled regular expression, with the pattern it was compiled from.
pub struct CompiledRegex {
    re: regex::Regex,
    pattern: Ghost<Seq<char>>,
}

impl CompiledRegex {
    /// The pattern this expression was compiled from.
    pub closed spec fn source(&self) -> Seq<char> {
        self.pattern@
    }
}

/// Compiles `pattern` (`regex::Regex::new`): `Some` exactly when the
/// pattern is a regular expression that the crate accepts.
#[verifier::external_body]
fn compile_regex(pattern: &str) -> (r: Option<CompiledRegex>)
    ensures
        r is Some == regex_compiles(pattern@),
        r matches Some(c) ==> c.source() == pattern@,
{
    match regex::Regex::new(pattern) {
        Ok(re) => Some(CompiledRegex { re, pattern: Ghost(pattern@) }),
        Err(_) => None,
    }
}

/// Whether the compiled expression matches somewhere in `text`
/// (`regex::Regex::is_match`).
#[verifier::external_body]
fn regex_is_match(c: &CompiledRegex, text: &str) -> (b: bool)
    ensures
        b == regex_finds(c.source(), text@),
{
    c.re.is_match(text)
}

/// Why directories could not be searched.
#[derive(Debug, Clone, Copy, PartialEq, Eq)]
pub enum SearchError {
    /// The pattern is not a regular expression.
    BadPattern,
}

/// The paths of `ps` that the regular expression `p` matches, in order.
pub open spec fn paths_matching(p: Seq<char>, ps: Seq<Seq<char>>) -> Seq<Seq<char>>
    decreases ps.len(),
{
    if ps.len() == 0 {
        seq![]
    } else if regex_finds(p, ps.last()) {
        paths_matching(p, ps.drop_last()).push(ps.last())
    } else {
        paths_matching(p, ps.drop_last())
    }
}

/// The views of a sequence of strings.
pub open spec fn string_views(v: Seq<String>) -> Seq<Seq<char>> {
    v.map_values(|s: String| s@)
}

/// The directory paths that the regular expression `pattern` matches, in
/// order, or an error if `pattern` is not a regular expression.
pub fn select_dirs(pattern: &str, dirs: Vec<String>) -> (r: Result<Vec<String>, SearchError>)
    ensures
        match r {
            Ok(v) => regex_compiles(pattern@) && string_views(v@) == paths_matching(
                pattern@,
                string_views(dirs@),
            ),
            Err(e) => !regex_compiles(pattern@) && e == SearchError::BadPattern,
        },
{
    let re = match compile_regex(pattern) {
        Some(re) => re,
        None => {
            return Err(SearchError::BadPattern);
        },
    };
    let ghost dv = string_views(dirs@);
    let mut out: Vec<String> = Vec::new();
    let mut i: usize = 0;
    assert(dv.take(0) =~= seq![]);
    assert(string_views(out@) =~= seq![]);
    while i < dirs.len()
        invariant
            regex_compiles(pattern@),
            re.source() == pattern@,
            dv == string_views(dirs@),
            i <= dirs.len(),
            string_views(out@) == paths_matching(pattern@, dv.take(i as int)),
        decreases dirs.len() - i,
    {
        assert(dv.take(i + 1).drop_last() =~= dv.take(i as int));
        assert(dv.take(i + 1).last() == dirs@[i as int]@);
        if regex_is_match(&re, dirs[i].as_str()) {
            let ghost before = string_views(out@);
            out.push(dirs[i].clone());
            assert(string_views(out@) =~= before.push(dirs@[i as int]@));
        }
        i += 1;
    }
    assert(dv.take(i as int) =~= dv);
    Ok(out)
}

proof fn lemma_join_prepend(a: Seq<char>, r: Seq<Seq<char>>, d: Seq<char>)
    requires
        r.len() >= 1,
    ensures
        join_with(seq![a] + r, d) == a + d + join_with(r, d),
    decreases r.len(),
{
    let ar = seq![a] + r;
    if r.len() == 1 {
        assert(ar.drop_last() =~= seq![a]);
        assert(ar.last() == r[0]);
        assert(join_with(seq![a], d) == a);
        assert(join_with(r, d) == r[0]);
        assert(join_with(ar, d) == join_with(ar.drop_last(), d) + d + ar.last());
    } else {
        lemma_join_prepend(a, r.drop_last(), d);
        assert(ar.drop_last() =~= seq![a] + r.drop_last());
        assert(ar.last() == r.last());
        assert(join_with(ar, d) == join_with(ar.drop_last(), d) + d + ar.last());
        assert(join_with(r, d) == join_with(r.drop_last(), d) + d + r.last());
        assert(a + d + join_with(r.drop_last(), d) + d + r.last() =~= a + d + (join_with(
            r.drop_last(),
            d,
        ) + d + r.last()));
    }
}

proof fn lemma_split_from_join(s: Seq<char>, d: Seq<char>, from: int)
    requires
        d.len() > 0,
        0 <= from <= s.len(),
    ensures
        split_from(s, d, from).len() >= 1,
        join_with(split_from(s, d, from), d) == s.subrange(from, s.len() as int),
    decreases s.len() + 1 - from,
{
    lemma_find_text(s, d, from);
    match find_text(s, d, from) {
        Some(i) => {
            lemma_split_from_join(s, d, i + d.len());
            lemma_join_prepend(s.subrange(from, i), split_from(s, d, i + d.len()), d);
            assert(s.subrange(from, i) + d + s.subrange(i + d.len(), s.len() as int) =~= s.subrange(
                from,
                s.len() as int,
            ));
        },
        None => {},
    }
}

proof fn lemma_join_chars(s: Seq<char>, k: int)
    requires
        0 <= k <= s.len(),
    ensures
        join_with(seq![seq![]] + s.take(k).map_values(|c: char| seq![c]), seq![]) == s.take(k),
    decreases k,
{
    let ps = seq![seq![]] + s.take(k).map_values(|c: char| seq![c]);
    if k == 0 {
        assert(ps =~= seq![seq![]]);
        assert(s.take(0) =~= seq![]);
    } else {
        lemma_join_chars(s, k - 1);
        assert(ps.drop_last() =~= seq![seq![]] + s.take(k - 1).map_values(|c: char| seq![c]));
        assert(ps.last() == seq![s[k - 1]]);
        assert(s.take(k - 1) + seq![] + seq![s[k - 1]] =~= s.take(k));
    }
}

/// Joining the pieces that `split_str` gives with the delimiter gives back
/// the string.
pub proof fn lemma_split_join(s: Seq<char>, d: Seq<char>)
    ensures
        join_with(split_text(s, d), d) == s,
{
    if d.len() == 0 {
        lemma_join_chars(s, s.len() as int);
        let ps = seq![seq![]] + s.map_values(|c: char| seq![c]);
        assert(s.take(s.len() as int) =~= s);
        assert(split_text(s, d) == ps.push(seq![]));
        assert(ps.push(seq![]).drop_last() =~= ps);
        assert(d =~= seq![]);
        assert(s + d + seq![] =~= s);
    } else {
        lemma_split_from_join(s, d, 0);
        assert(s.subrange(0, s.len() as int) =~= s);
    }
}

} // verus!
