//! Deriving comparison keys from raw lines: stripping the part of each line
//! that matches a user-supplied pattern, so that lines differing only in
//! their timestamps compare as equal.

use vstd::prelude::*;

verus! {

/// Why deriving comparison keys failed.
#[derive(Debug, Clone, PartialEq, Eq)]
pub enum TimestampParserError {
    InvalidPattern { pattern: String, message: String },
    ProcessingFailed { message: String },
}

impl TimestampParserError {
    pub fn invalid_pattern(pattern: String, message: String) -> (r: Self)
        ensures
            r == (TimestampParserError::InvalidPattern { pattern, message }),
    {
        Self::InvalidPattern { pattern, message }
    }

    pub fn processing_failed(message: String) -> (r: Self)
        ensures
            r == (TimestampParserError::ProcessingFailed { message }),
    {
        Self::ProcessingFailed { message }
    }
}

/// A comparison-key deriver: strips whatever matches the pattern from every
/// line, and rejects patterns that do not compile.
pub trait TimestampParserOperations {
    fn strip_timestamps(&mut self, lines: &[String], pattern: &str) -> Result<
        Vec<String>,
        TimestampParserError,
    >;
}

/// Relies on `str`'s `PartialEq`: two string slices are equal exactly when
/// their character sequences are.
#[verifier::external_body]
fn str_eq(a: &str, b: &str) -> (r: bool)
    ensures
        r == (a@ == b@),
{
    a == b
}

/// Whether the pattern is accepted by the regular-expression compiler; what
/// `regex::Regex::new` returns is a function of the pattern alone.
pub uninterp spec fn pattern_valid(pattern: Seq<char>) -> bool;

/// What stripping one line with a pattern leaves; what
/// `regex::Regex::replace_all` returns with an empty replacement is a
/// function of the pattern and the line alone.
pub uninterp spec fn strip_of(pattern: Seq<char>, line: Seq<char>) -> Seq<char>;

#[verifier::external_type_specification]
#[verifier::external_body]
pub struct ExRegex(regex::Regex);

/// Relies on `regex::Regex::new`: it compiles the pattern, deterministically
/// accepting or rejecting it, and on `regex::Error::to_string` for the
/// message of a rejection.
#[verifier::external_body]
fn compile_regex(pattern: &str) -> (r: Result<regex::Regex, String>)
    ensures
        r is Ok <==> pattern_valid(pattern@),
{
    match regex::Regex::new(pattern) {
        Ok(re) => Ok(re),
        Err(e) => Err(e.to_string()),
    }
}

/// A compiled pattern paired with its source text. Only [`compile_pattern`]
/// builds one, so the regular expression inside is always the one compiled
/// from the `pattern` field; the contract of [`replace_all_empty`] rests on
/// that.
pub struct CompiledPattern {
    pattern: String,
    regex: regex::Regex,
}

impl CompiledPattern {
    /// A compiled pattern only exists for a source text the compiler
    /// accepted.
    #[verifier::type_invariant]
    spec fn source_valid(self) -> bool {
        pattern_valid(self.pattern@)
    }
}

/// Spec-level access to the source text of a compiled pattern.
pub closed spec fn pattern_of(cp: &CompiledPattern) -> Seq<char> {
    cp.pattern@
}

/// Compiles a pattern, keeping its source text beside the result.
fn compile_pattern(pattern: &str) -> (r: Result<CompiledPattern, String>)
    ensures
        r is Ok <==> pattern_valid(pattern@),
        r is Ok ==> pattern_of(&r->Ok_0) == pattern@,
{
    match compile_regex(pattern) {
        Ok(regex) => Ok(CompiledPattern { pattern: pattern.to_owned(), regex }),
        Err(message) => Err(message),
    }
}

/// Relies on `regex::Regex::replace_all` with an empty replacement: the
/// result depends on the compiled pattern and the input line alone, and the
/// compiled pattern is the one built from `pattern_of(cp)` (see
/// [`CompiledPattern`]).
#[verifier::external_body]
fn replace_all_empty(cp: &CompiledPattern, line: &str) -> (r: String)
    ensures
        r@ == strip_of(pattern_of(cp), line@),
{
    cp.regex.replace_all(line, "").to_string()
}

/// Whether a pattern may be used for stripping: the empty pattern (which
/// strips nothing) or any pattern the compiler accepts.
pub fn pattern_is_valid(pattern: &str) -> (r: bool)
    ensures
        r == (pattern@.len() == 0 || pattern_valid(pattern@)),
{
    if pattern.is_empty() {
        return true;
    }
    match compile_regex(pattern) {
        Ok(_compiled) => true,
        Err(_message) => false,
    }
}

/// The comparison-key deriver backed by the regular-expression engine, with
/// a cache of the patterns compiled so far.
pub struct CoreTimestampParser {
    cache: Vec<CompiledPattern>,
}

impl CoreTimestampParser {
    /// The patterns compiled and cached so far.
    pub closed spec fn cached_patterns(&self) -> Seq<Seq<char>> {
        self.cache@.map(|k: int, cp: CompiledPattern| pattern_of(&cp))
    }

    pub fn new() -> (r: Self)
        ensures
            r.cached_patterns() == Seq::<Seq<char>>::empty(),
    {
        let r = Self { cache: Vec::new() };
        proof {
            assert(r.cached_patterns() =~= Seq::<Seq<char>>::empty());
        }
        r
    }

    /// How many distinct patterns the cache holds.
    pub fn cache_len(&self) -> (r: usize)
        ensures
            r == self.cached_patterns().len(),
    {
        self.cache.len()
    }

    /// The cached compilation of `pattern`, compiling and caching it on a
    /// miss; fails exactly when the pattern does not compile.
    fn cached_compile(&mut self, pattern: &str) -> (r: Result<usize, String>)
        ensures
            r is Ok <==> pattern_valid(pattern@),
            r is Ok ==> (r->Ok_0 as int) < final(self).cache@.len() && pattern_of(
                &final(self).cache@[r->Ok_0 as int],
            ) == pattern@ && (final(self).cached_patterns() == old(self).cached_patterns()
                || final(self).cached_patterns() == old(self).cached_patterns().push(pattern@)),
            r is Err ==> final(self).cached_patterns() == old(self).cached_patterns(),
    {
        let mut k: usize = 0;
        let n = self.cache.len();
        while k < n
            invariant
                0 <= k <= n,
                n == self.cache@.len(),
                self == old(self),
            decreases n - k,
        {
            let entry = &self.cache[k];
            if str_eq(entry.pattern.as_str(), pattern) {
                proof {
                    use_type_invariant(entry);
                    assert(pattern_of(&self.cache@[k as int]) == pattern@);
                    assert(pattern_valid(pattern@));
                }
                return Ok(k);
            }
            k = k + 1;
        }
        match compile_pattern(pattern) {
            Ok(cp) => {
                let ghost before = self.cached_patterns();
                let idx = self.cache.len();
                self.cache.push(cp);
                proof {
                    assert(self.cached_patterns() =~= before.push(pattern@));
                }
                Ok(idx)
            },
            Err(message) => Err(message),
        }
    }
}

impl TimestampParserOperations for CoreTimestampParser {
    /// Strips whatever the pattern matches from every line. An empty pattern
    /// leaves the lines untouched (and the cache too); a pattern that does
    /// not compile is reported as invalid, with the cache unchanged; any
    /// other pattern yields exactly one stripped line per input line.
    fn strip_timestamps(&mut self, lines: &[String], pattern: &str) -> (r: Result<
        Vec<String>,
        TimestampParserError,
    >)
        ensures
            pattern@.len() == 0 ==> r is Ok,
            r is Ok <==> (pattern@.len() == 0 || pattern_valid(pattern@)),
            r is Ok ==> r->Ok_0@.len() == lines@.len(),
            r is Ok ==> forall|i: int|
                0 <= i < lines@.len() ==> (#[trigger] r->Ok_0@[i])@ == (if pattern@.len() == 0 {
                    lines@[i]@
                } else {
                    strip_of(pattern@, lines@[i]@)
                }),
            r is Err ==> (r->Err_0 matches TimestampParserError::InvalidPattern {
                pattern: p,
                message: _,
            } && p@ == pattern@),
            pattern@.len() == 0 ==> final(self).cached_patterns() == old(self).cached_patterns(),
            r is Err ==> final(self).cached_patterns() == old(self).cached_patterns(),
    {
        if pattern.is_empty() {
            let mut copied: Vec<String> = Vec::new();
            let mut i: usize = 0;
            while i < lines.len()
                invariant
                    0 <= i <= lines@.len(),
                    copied@.len() == i,
                    forall|q: int| 0 <= q < i ==> (#[trigger] copied@[q])@ == lines@[q]@,
                decreases lines@.len() - i,
            {
                copied.push(lines[i].clone());
                i = i + 1;
            }
            return Ok(copied);
        }
        let idx = match self.cached_compile(pattern) {
            Ok(idx) => idx,
            Err(message) => {
                return Err(
                    TimestampParserError::invalid_pattern(pattern.to_owned(), message),
                );
            },
        };
        let mut stripped: Vec<String> = Vec::new();
        let mut i: usize = 0;
        while i < lines.len()
            invariant
                0 <= i <= lines@.len(),
                stripped@.len() == i,
                (idx as int) < self.cache@.len(),
                pattern_of(&self.cache@[idx as int]) == pattern@,
                forall|q: int|
                    0 <= q < i ==> (#[trigger] stripped@[q])@ == strip_of(pattern@, lines@[q]@),
            decreases lines@.len() - i,
        {
            let line = replace_all_empty(&self.cache[idx], lines[i].as_str());
            stripped.push(line);
            i = i + 1;
        }
        Ok(stripped)
    }
}

} // verus!
