//! Symbol paths and the regular expressions derived from them.
use vstd::prelude::*;
use crate::text::string_from_chars;
use crate::text::chars_of;

verus! {

#[verifier::external_type_specification]
#[verifier::external_body]
pub struct ExRegex(regex::Regex);

#[verifier::external_type_specification]
#[verifier::external_body]
pub struct ExRegexError(regex::Error);

/// What `regex::escape` makes of a text.
pub uninterp spec fn escaped(s: Seq<char>) -> Seq<char>;

/// Whether `regex::Regex::new` accepts a pattern.
pub uninterp spec fn compiles(pattern: Seq<char>) -> bool;

/// Whether a compiled pattern matches somewhere in a text.
pub uninterp spec fn matches_in(pattern: Seq<char>, text: Seq<char>) -> bool;

/// The character position where the leftmost match of a pattern in a text starts.
pub uninterp spec fn first_match(pattern: Seq<char>, text: Seq<char>) -> Option<nat>;

/// A compiled regular expression together with the text it was compiled from.
pub struct Pattern {
    source: String,
    re: regex::Regex,
}

impl View for Pattern {
    type V = Seq<char>;

    closed spec fn view(&self) -> Seq<char> {
        self.source@
    }
}

impl Pattern {
    /// The text the pattern was compiled from.
    pub fn source(&self) -> (r: &str)
        ensures
            r@ == self@,
    {
        self.source.as_str()
    }
}

/// Relies on `regex::escape`: the text with its meta characters escaped, so
/// that it matches literally.
#[verifier::external_body]
fn escape(s: &str) -> (r: String)
    ensures
        r@ == escaped(s@),
{
    regex::escape(s)
}

/// Relies on `regex::Regex::new`, which accepts or refuses a pattern by its text alone.
#[verifier::external_body]
fn compile_regex(source: String) -> (r: Result<Pattern, regex::Error>)
    ensures
        r is Ok <==> compiles(source@),
        r matches Ok(p) ==> p@ == source@,
{
    match regex::Regex::new(&source) {
        Ok(re) => Ok(Pattern { source, re }),
        Err(e) => Err(e),
    }
}

/// Relies on `regex::Regex::is_match`: whether the pattern matches anywhere in `text`.
#[verifier::external_body]
pub(crate) fn is_match(p: &Pattern, text: &str) -> (r: bool)
    ensures
        r == matches_in(p@, text@),
{
    p.re.is_match(text)
}

/// Relies on `regex::Regex::find`: the leftmost match, reported here by the
/// character position where it starts; there is one exactly when `is_match` holds.
#[verifier::external_body]
pub(crate) fn find_start(p: &Pattern, text: &str) -> (r: Option<usize>)
    ensures
        r is Some <==> matches_in(p@, text@),
        r is Some ==> first_match(p@, text@) == Some(r->0 as nat),
        r is None ==> first_match(p@, text@) is None,
        r is Some ==> r->0 <= text@.len(),
{
    p.re.find(text).map(|m| text[..m.start()].chars().count())
}

/// The segments of a symbol path, separated by `::` (read left to right, as
/// `str::split` does); always at least one segment.
pub open spec fn split_path(s: Seq<char>) -> Seq<Seq<char>>
    decreases s.len(),
{
    if s.len() < 2 {
        seq![s]
    } else if s[0] == ':' && s[1] == ':' {
        seq![Seq::empty()] + split_path(s.subrange(2, s.len() as int))
    } else {
        let r = split_path(s.drop_first());
        r.update(0, seq![s[0]] + r[0])
    }
}

pub proof fn lemma_split_path_nonempty(s: Seq<char>)
    ensures
        split_path(s).len() >= 1,
    decreases s.len(),
{
    if s.len() >= 2 {
        if s[0] == ':' && s[1] == ':' {
            lemma_split_path_nonempty(s.subrange(2, s.len() as int));
        } else {
            lemma_split_path_nonempty(s.drop_first());
        }
    }
}

pub open spec fn views(v: Seq<String>) -> Seq<Seq<char>> {
    v.map_values(|x: String| x@)
}

/// The segments of a `::`-separated symbol path.
pub fn split_symbol_path(path: &str) -> (r: Vec<String>)
    ensures
        views(r@) == split_path(path@),
{
    let cs = chars_of(path);
    let ghost s = path@;
    let mut done: Vec<String> = Vec::new();
    let mut cur: Vec<char> = Vec::new();
    let mut i: usize = 0;
    proof {
        assert(s.subrange(0, s.len() as int) == s);
        lemma_split_path_nonempty(s);
        assert(views(done@) == Seq::<Seq<char>>::empty());
        assert(seq![cur@ + split_path(s)[0]] + split_path(s).drop_first() == split_path(s));
    }
    while cs.len() - i > 1
        invariant
            cs@ == s,
            0 <= i <= cs.len(),
            split_path(s.subrange(i as int, s.len() as int)).len() >= 1,
            views(done@) + seq![cur@ + split_path(s.subrange(i as int, s.len() as int))[0]]
                + split_path(s.subrange(i as int, s.len() as int)).drop_first() == split_path(s),
        decreases cs.len() - i,
    {
        let ghost t = s.subrange(i as int, s.len() as int);
        if cs[i] == ':' && cs[i + 1] == ':' {
            let ghost t2 = s.subrange(i + 2, s.len() as int);
            proof {
                assert(t.subrange(2, t.len() as int) == t2);
                lemma_split_path_nonempty(t2);
                assert(split_path(t) == seq![Seq::<char>::empty()] + split_path(t2));
            }
            let seg = string_from_chars(cur.as_slice());
            let ghost old_done = done@;
            done.push(seg);
            cur = Vec::new();
            i = i + 2;
            proof {
                assert(views(done@) == views(old_done).push(seg@));
                assert(cur@ + split_path(t2)[0] == split_path(t2)[0]);
                assert(split_path(t2) == seq![split_path(t2)[0]] + split_path(t2).drop_first());
            }
        } else {
            let ghost t1 = s.subrange(i + 1, s.len() as int);
            let ghost old_cur = cur@;
            proof {
                assert(t.drop_first() == t1);
                lemma_split_path_nonempty(t1);
                assert(t[0] == cs@[i as int]);
            }
            cur.push(cs[i]);
            i = i + 1;
            proof {
                let r = split_path(t1);
                assert(split_path(t) == r.update(0, seq![t[0]] + r[0]));
                assert(cur@ + r[0] == old_cur + (seq![t[0]] + r[0]));
                assert(r.drop_first() == r.update(0, seq![t[0]] + r[0]).drop_first());
            }
        }
    }
    let ghost t = s.subrange(i as int, s.len() as int);
    let ghost old_cur = cur@;
    while i < cs.len()
        invariant
            cs@ == s,
            0 <= i <= cs.len(),
            s.len() - t.len() <= i,
            cur@ == old_cur + s.subrange(s.len() - t.len(), i as int),
            t.len() <= 1,
            t == s.subrange(s.len() - t.len(), s.len() as int),
        decreases cs.len() - i,
    {
        cur.push(cs[i]);
        i = i + 1;
        assert(cur@ == old_cur + s.subrange(s.len() - t.len(), i as int));
    }
    proof {
        assert(s.subrange(s.len() - t.len(), s.len() as int) == t);
        assert(split_path(t) == seq![t]);
    }
    let seg = string_from_chars(cur.as_slice());
    let ghost old_done = done@;
    done.push(seg);
    proof {
        assert(views(done@) == views(old_done).push(seg@));
        assert(split_path(t).drop_first() == Seq::<Seq<char>>::empty());
    }
    done
}

/// The function a symbol path names: its last segment, or `main` for an empty path.
pub open spec fn target_name(path: Seq<char>) -> Seq<char> {
    if path.len() == 0 {
        "main"@
    } else {
        split_path(path).last()
    }
}

/// The module segments of a symbol path: all segments but the last.
pub open spec fn module_segments(path: Seq<char>) -> Seq<Seq<char>> {
    split_path(path).drop_last()
}

/// Matches a definition header of the named function.
pub open spec fn definition_source(name: Seq<char>) -> Seq<char> {
    "fn\\s+"@ + escaped(name) + "\\s*[<(]"@
}

/// Matches a call of, or a path reference to, the named function.
pub open spec fn caller_source(name: Seq<char>) -> Seq<char> {
    "\\b"@ + escaped(name) + "\\s*[:<(]"@
}

/// Matches a declaration of the named module.
pub open spec fn module_source(name: Seq<char>) -> Seq<char> {
    "\\bmod\\s+"@ + escaped(name) + "\\s*;"@
}

/// Every pattern text derived from a symbol path, in the order they are compiled.
pub open spec fn all_sources(path: Seq<char>) -> Seq<Seq<char>> {
    seq![definition_source(target_name(path)), caller_source(target_name(path))]
        + module_segments(path).map_values(|m: Seq<char>| module_source(m))
}

/// The declaration pattern of one module segment.
pub struct ModulePattern {
    pub name: String,
    pub decl: Pattern,
}

/// The patterns derived from one symbol path.
pub struct PatternSet {
    pub function_name: String,
    pub definition: Pattern,
    pub caller: Pattern,
    pub modules: Vec<ModulePattern>,
}

/// A pattern text that the regular-expression engine refused.
#[derive(Debug)]
pub struct PatternError {
    pub pattern: String,
}

impl PatternSet {
    /// The set holds exactly the patterns derived from `path`.
    pub open spec fn derived_from(&self, path: Seq<char>) -> bool {
        &&& self.function_name@ == target_name(path)
        &&& self.definition@ == definition_source(target_name(path))
        &&& self.caller@ == caller_source(target_name(path))
        &&& self.modules@.len() == module_segments(path).len()
        &&& forall|i: int|
            0 <= i < self.modules@.len() ==> {
                &&& (#[trigger] self.modules@[i]).name@ == module_segments(path)[i]
                &&& self.modules@[i].decl@ == module_source(module_segments(path)[i])
            }
    }
}

fn wrapped(prefix: &str, name: &str, suffix: &str) -> (r: String)
    ensures
        r@ == prefix@ + escaped(name@) + suffix@,
{
    let esc = escape(name);
    let mut s = String::from_str(prefix);
    s.append(esc.as_str());
    s.append(suffix);
    s
}

fn compile(source: String) -> (r: Result<Pattern, PatternError>)
    ensures
        r is Ok <==> compiles(source@),
        r matches Ok(p) ==> p@ == source@,
        r matches Err(e) ==> e.pattern@ == source@,
{
    let copy = source.clone();
    match compile_regex(source) {
        Ok(p) => Ok(p),
        Err(_) => Err(PatternError { pattern: copy }),
    }
}

/// Derives and compiles the definition, caller and module-declaration
/// patterns of a `::`-separated symbol path. Names are escaped, so a segment
/// always stands for itself; the first pattern refused is reported.
pub fn build_patterns(function_path: &str) -> (r: Result<PatternSet, PatternError>)
    ensures
        r is Ok <==> forall|i: int|
            0 <= i < all_sources(function_path@).len() ==> compiles(
                #[trigger] all_sources(function_path@)[i],
            ),
        r matches Ok(ps) ==> ps.derived_from(function_path@),
        r matches Err(e) ==> !compiles(e.pattern@) && all_sources(function_path@).contains(
            e.pattern@,
        ),
{
    let ghost path = function_path@;
    let segs = split_symbol_path(function_path);
    proof {
        lemma_split_path_nonempty(path);
    }
    let ghost srcs = all_sources(path);
    let ghost mods = module_segments(path);
    assert(segs@.len() == split_path(path).len());
    let last = segs.len() - 1;
    let function_name = if function_path.is_empty() {
        String::from_str("main")
    } else {
        segs[last].clone()
    };
    assert(segs@[last as int]@ == split_path(path).last());
    assert(function_name@ == target_name(path));
    let definition = match compile(wrapped("fn\\s+", function_name.as_str(), "\\s*[<(]")) {
        Ok(p) => p,
        Err(e) => {
            assert(srcs[0] == e.pattern@);
            return Err(e);
        },
    };
    let caller = match compile(wrapped("\\b", function_name.as_str(), "\\s*[:<(]")) {
        Ok(p) => p,
        Err(e) => {
            assert(srcs[1] == e.pattern@);
            return Err(e);
        },
    };
    let mut modules: Vec<ModulePattern> = Vec::new();
    let mut i: usize = 0;
    while i < last
        invariant
            path == function_path@,
            segs@.len() == split_path(path).len(),
            last == segs@.len() - 1,
            mods == split_path(path).drop_last(),
            srcs == all_sources(path),
            views(segs@) == split_path(path),
            0 <= i <= last,
            modules@.len() == i,
            definition@ == srcs[0],
            caller@ == srcs[1],
            compiles(srcs[0]),
            compiles(srcs[1]),
            forall|j: int|
                0 <= j < i ==> {
                    &&& (#[trigger] modules@[j]).name@ == mods[j]
                    &&& modules@[j].decl@ == module_source(mods[j])
                    &&& compiles(module_source(mods[j]))
                },
        decreases last - i,
    {
        assert(segs@[i as int]@ == mods[i as int]);
        assert(srcs[i + 2] == module_source(mods[i as int]));
        let decl = match compile(wrapped("\\bmod\\s+", segs[i].as_str(), "\\s*;")) {
            Ok(p) => p,
            Err(e) => {
                assert(srcs[i + 2] == e.pattern@);
                assert(!compiles(srcs[i + 2]));
                return Err(e);
            },
        };
        modules.push(ModulePattern { name: segs[i].clone(), decl });
        i = i + 1;
    }
    assert forall|j: int| 0 <= j < srcs.len() implies compiles(#[trigger] srcs[j]) by {
        if j >= 2 {
            assert(srcs[j] == module_source(mods[j - 2]));
            assert(modules@[j - 2].name@ == mods[j - 2]);
        }
    }
    Ok(PatternSet { function_name, definition, caller, modules })
}

/// Matches a definition header with a plain parameter list: `fn name(...) {`.
pub open spec fn header_source(name: Seq<char>) -> Seq<char> {
    "fn "@ + escaped(name) + "\\([^\\)]*\\) \\{"@
}

/// The text from the first definition header of `function_name` to the end,
/// or empty text when there is none.
pub open spec fn body_from_header(content: Seq<char>, name: Seq<char>) -> Seq<char> {
    match first_match(header_source(name), content) {
        Some(k) => content.subrange(k as int, content.len() as int),
        None => Seq::empty(),
    }
}

/// The text of `content` from the first `fn name(...) {` header on; the
/// body is taken to run to the end of the text. Empty when there is no such header.
pub fn extract_function_body(content: &str, function_name: &str) -> (r: Result<
    String,
    PatternError,
>)
    ensures
        r is Ok <==> compiles(header_source(function_name@)),
        r matches Ok(s) ==> s@ == body_from_header(content@, function_name@),
        r matches Err(e) ==> e.pattern@ == header_source(function_name@),
{
    let p = compile(wrapped("fn ", function_name, "\\([^\\)]*\\) \\{"))?;
    match find_start(&p, content) {
        Some(k) => {
            let cs = chars_of(content);
            Ok(string_from_chars(vstd::slice::slice_subrange(cs.as_slice(), k, cs.len())))
        },
        None => Ok(String::new()),
    }
}

} // verus!
