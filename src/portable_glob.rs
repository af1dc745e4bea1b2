//! Validation of restricted, portable glob patterns.
//!
//! A pattern is checked in one left-to-right pass. The pass stops at the first
//! offending character and reports its position, counted in characters.
use vstd::prelude::*;

verus! {

#[verifier::external_type_specification]
#[verifier::external_body]
pub struct ExGlob(globset::Glob);

#[verifier::external_type_specification]
#[verifier::external_body]
pub struct ExGlobsetError(globset::Error);

/// What `char::is_alphanumeric` answers for a character (Unicode `Alphabetic`
/// or `Numeric`).
pub uninterp spec fn is_alphanumeric_char(c: char) -> bool;

/// An ASCII letter or digit.
pub open spec fn is_ascii_alphanumeric(c: char) -> bool {
    ('a' <= c <= 'z') || ('A' <= c <= 'Z') || ('0' <= c <= '9')
}

/// Whether `c` counts as alphanumeric in a pattern: for ASCII, a letter or a
/// digit; beyond ASCII, what `char::is_alphanumeric` says.
pub open spec fn pattern_alphanumeric(c: char) -> bool {
    if (c as u32) < 128 {
        is_ascii_alphanumeric(c)
    } else {
        is_alphanumeric_char(c)
    }
}

/// Relies on `char::is_alphanumeric`: the answer depends on the character
/// alone; among ASCII characters, exactly the letters and digits are
/// alphabetic or numeric.
#[verifier::external_body]
fn char_is_alphanumeric(c: char) -> (r: bool)
    ensures
        r == is_alphanumeric_char(c),
        (c as u32) < 128 ==> (r <==> is_ascii_alphanumeric(c)),
{
    c.is_alphanumeric()
}

/// Whether globset accepts a pattern, built with `literal_separator(true)`.
pub uninterp spec fn globset_accepts(pattern: Seq<char>) -> bool;

/// The paths, as bytes, that the glob globset builds from a pattern with
/// `literal_separator(true)` matches.
pub uninterp spec fn pattern_language(pattern: Seq<char>) -> Set<Seq<u8>>;

/// The regex that globset writes for a pattern built with
/// `literal_separator(true)`.
pub uninterp spec fn pattern_regex(pattern: Seq<char>) -> Seq<char>;

/// The pattern text a glob was built from (`Glob::glob`).
pub uninterp spec fn glob_text(glob: globset::Glob) -> Seq<char>;

/// The regex of a glob (`Glob::regex`).
pub uninterp spec fn glob_regex_text(glob: globset::Glob) -> Seq<char>;

/// The paths, as bytes, that a glob matches (`Glob::compile_matcher` then
/// `is_match_candidate` on `Candidate::from_bytes`).
pub uninterp spec fn glob_language(glob: globset::Glob) -> Set<Seq<u8>>;

/// `re` begins with the flag group `(?-u)`, which turns Unicode off.
pub open spec fn starts_byte_mode(re: Seq<char>) -> bool {
    re.len() >= 5 && re.subrange(0, 5) == seq!['(', '?', '-', 'u', ')']
}

/// `p` stays within one path segment: letters, digits, `_`, `-`, `.`, `?`,
/// and `*` never doubled.
pub open spec fn within_one_segment(p: Seq<char>) -> bool {
    forall|i: int|
        0 <= i < p.len() ==> pattern_alphanumeric(#[trigger] p[i]) || is_verbatim_punct(p[i])
            || p[i] == '?' || (p[i] == '*' && !(i + 1 < p.len() && p[i + 1] == '*'))
}

/// Relies on `globset::GlobBuilder::build` with `literal_separator(true)`:
/// whether it fails depends on the pattern text alone; the glob keeps the
/// text, and its regex and matches are those of that text. With the literal
/// separator, `?` becomes `[^/]` and `*` becomes `[^/]*`, so a pattern within
/// one segment matches no path holding `/`.
#[verifier::external_body]
fn build_glob(pattern: &str) -> (r: Result<globset::Glob, globset::Error>)
    ensures
        r is Ok <==> globset_accepts(pattern@),
        r matches Ok(g) ==> glob_text(g) == pattern@ && glob_regex_text(g) == pattern_regex(
            pattern@,
        ) && glob_language(g) == pattern_language(pattern@),
        r is Ok ==> starts_byte_mode(pattern_regex(pattern@)),
        r is Ok && within_one_segment(pattern@) ==> forall|w: Seq<u8>|
            #[trigger] pattern_language(pattern@).contains(w) ==> !w.contains(47u8),
{
    globset::GlobBuilder::new(pattern).literal_separator(true).build()
}

/// Why a pattern was rejected, and at which character position.
#[derive(Clone, Copy, Debug, PartialEq, Eq)]
pub enum GlobFault {
    /// The pattern is empty.
    EmptyPattern,
    /// `..` at the start of a segment.
    ParentDirectory { pos: usize },
    /// A character that is not allowed outside a class.
    InvalidCharacter { pos: usize, invalid: char },
    /// A character that is not allowed inside a class.
    InvalidCharacterRange { pos: usize, invalid: char },
    /// A run of three or more stars, or `**` that is not a whole segment.
    TooManyStars { pos: usize },
}

/// Punctuation that may stand verbatim, inside or outside a class.
pub open spec fn is_verbatim_punct(c: char) -> bool {
    c == '_' || c == '-' || c == '.'
}

/// Number of consecutive `*` starting at index `i`.
pub open spec fn star_run(s: Seq<char>, i: int) -> nat
    decreases s.len() - i,
{
    if 0 <= i < s.len() && s[i] == '*' {
        1 + star_run(s, i + 1)
    } else {
        0
    }
}

/// The outcome of scanning `s` from index `i`. `seg_start` says that `i` begins
/// a path segment, `in_class` that `i` lies inside `[...]`; `alnum[j]` says
/// whether `s[j]` is alphanumeric.
pub open spec fn scan(
    s: Seq<char>,
    alnum: Seq<bool>,
    i: int,
    seg_start: bool,
    in_class: bool,
) -> Option<GlobFault>
    decreases s.len() - i,
{
    if i < 0 || i >= s.len() {
        None
    } else if in_class {
        if alnum[i] || is_verbatim_punct(s[i]) {
            scan(s, alnum, i + 1, false, true)
        } else if s[i] == ']' {
            scan(s, alnum, i + 1, false, false)
        } else {
            Some(GlobFault::InvalidCharacterRange { pos: i as usize, invalid: s[i] })
        }
    } else if s[i] == '*' {
        let n = 1 + star_run(s, i + 1);
        if n >= 3 || (n == 2 && !(seg_start && (i + 2 == s.len() || s[i + 2] == '/'))) {
            Some(GlobFault::TooManyStars { pos: i as usize })
        } else {
            scan(s, alnum, i + n, false, false)
        }
    } else if s[i] == '/' {
        if i == 0 {
            Some(GlobFault::InvalidCharacter { pos: 0, invalid: '/' })
        } else {
            scan(s, alnum, i + 1, true, false)
        }
    } else if s[i] == '.' {
        if seg_start && i + 1 < s.len() && s[i + 1] == '.' {
            Some(GlobFault::ParentDirectory { pos: i as usize })
        } else {
            scan(s, alnum, i + 1, false, false)
        }
    } else if alnum[i] || s[i] == '_' || s[i] == '-' || s[i] == '?' {
        scan(s, alnum, i + 1, false, false)
    } else if s[i] == '[' {
        scan(s, alnum, i + 1, false, true)
    } else {
        Some(GlobFault::InvalidCharacter { pos: i as usize, invalid: s[i] })
    }
}

/// The first fault of pattern `s`, given which of its characters are
/// alphanumeric; `None` when the pattern is valid.
pub open spec fn fault_of(s: Seq<char>, alnum: Seq<bool>) -> Option<GlobFault> {
    if s.len() == 0 {
        Some(GlobFault::EmptyPattern)
    } else {
        scan(s, alnum, 0, true, false)
    }
}

/// Which characters of `s` are alphanumeric.
pub open spec fn alnum_flags(s: Seq<char>) -> Seq<bool> {
    Seq::new(s.len(), |i: int| pattern_alphanumeric(s[i]))
}

/// The first fault of pattern `s`; `None` when the pattern is valid.
pub open spec fn pattern_fault(s: Seq<char>) -> Option<GlobFault> {
    fault_of(s, alnum_flags(s))
}

/// Checks `glob` given which of its characters are alphanumeric.
pub fn check_classified(glob: &str, alnum: &Vec<bool>) -> (r: Result<(), GlobFault>)
    requires
        alnum@.len() == glob@.len(),
    ensures
        match fault_of(glob@, alnum@) {
            None => r is Ok,
            Some(f) => r == Err::<(), GlobFault>(f),
        },
{
    let len = glob.unicode_len();
    let ghost s = glob@;
    let ghost a = alnum@;
    if len == 0 {
        return Err(GlobFault::EmptyPattern);
    }
    let mut i: usize = 0;
    let mut seg_start = true;
    let mut in_class = false;
    while i < len
        invariant
            len == s.len(),
            len > 0,
            s == glob@,
            a == alnum@,
            a.len() == s.len(),
            i <= len,
            fault_of(s, a) == scan(s, a, i as int, seg_start, in_class),
        decreases len - i,
    {
        let c = glob.get_char(i);
        if in_class {
            if alnum[i] || c == '_' || c == '-' || c == '.' {
                seg_start = false;
            } else if c == ']' {
                seg_start = false;
                in_class = false;
            } else {
                return Err(GlobFault::InvalidCharacterRange { pos: i, invalid: c });
            }
            i = i + 1;
        } else if c == '*' {
            let mut j: usize = i + 1;
            while j < len && glob.get_char(j) == '*'
                invariant
                    len == s.len(),
                    s == glob@,
                    i < j <= len,
                    s[i as int] == '*',
                    star_run(s, i as int) == (j - i) + star_run(s, j as int),
                decreases len - j,
            {
                j = j + 1;
            }
            let n = j - i;
            if n >= 3 {
                return Err(GlobFault::TooManyStars { pos: i });
            }
            if n == 2 && !(seg_start && (j == len || glob.get_char(j) == '/')) {
                return Err(GlobFault::TooManyStars { pos: i });
            }
            seg_start = false;
            i = j;
        } else if c == '/' {
            if i == 0 {
                return Err(GlobFault::InvalidCharacter { pos: 0, invalid: '/' });
            }
            seg_start = true;
            i = i + 1;
        } else if c == '.' {
            if seg_start && i + 1 < len && glob.get_char(i + 1) == '.' {
                return Err(GlobFault::ParentDirectory { pos: i });
            }
            seg_start = false;
            i = i + 1;
        } else if alnum[i] || c == '_' || c == '-' || c == '?' {
            seg_start = false;
            i = i + 1;
        } else if c == '[' {
            seg_start = false;
            in_class = true;
            i = i + 1;
        } else {
            return Err(GlobFault::InvalidCharacter { pos: i, invalid: c });
        }
    }
    Ok(())
}


/// Why a pattern was refused.
#[derive(Debug)]
pub enum PortableGlobError {
    /// globset refused a pattern that passed validation.
    GlobError(globset::Error),
    EmptyPattern { glob: String },
    ParentDirectory { glob: String, pos: usize },
    InvalidCharacter { glob: String, pos: usize, invalid: char },
    InvalidCharacterRange { glob: String, pos: usize, invalid: char },
    TooManyStars { glob: String, pos: usize },
}

impl PortableGlobError {
    /// This error reports fault `f` in pattern `glob`.
    pub open spec fn reports(self, glob: Seq<char>, f: GlobFault) -> bool {
        match self {
            PortableGlobError::GlobError(_) => false,
            PortableGlobError::EmptyPattern { glob: g } => g@ == glob && f == GlobFault::EmptyPattern,
            PortableGlobError::ParentDirectory { glob: g, pos } => g@ == glob && f
                == GlobFault::ParentDirectory { pos },
            PortableGlobError::InvalidCharacter { glob: g, pos, invalid } => g@ == glob && f
                == GlobFault::InvalidCharacter { pos, invalid },
            PortableGlobError::InvalidCharacterRange { glob: g, pos, invalid } => g@ == glob && f
                == GlobFault::InvalidCharacterRange { pos, invalid },
            PortableGlobError::TooManyStars { glob: g, pos } => g@ == glob && f
                == GlobFault::TooManyStars { pos },
        }
    }

    /// The fault this error reports; `None` for an error of globset.
    pub open spec fn fault(self) -> Option<GlobFault> {
        match self {
            PortableGlobError::GlobError(_) => None,
            PortableGlobError::EmptyPattern { .. } => Some(GlobFault::EmptyPattern),
            PortableGlobError::ParentDirectory { pos, .. } => Some(
                GlobFault::ParentDirectory { pos },
            ),
            PortableGlobError::InvalidCharacter { pos, invalid, .. } => Some(
                GlobFault::InvalidCharacter { pos, invalid },
            ),
            PortableGlobError::InvalidCharacterRange { pos, invalid, .. } => Some(
                GlobFault::InvalidCharacterRange { pos, invalid },
            ),
            PortableGlobError::TooManyStars { pos, .. } => Some(GlobFault::TooManyStars { pos }),
        }
    }

    /// The error that reports fault `f` in pattern `glob`.
    pub fn from_fault(glob: &str, f: GlobFault) -> (e: Self)
        ensures
            e.reports(glob@, f),
    {
        let g = glob.to_owned();
        match f {
            GlobFault::EmptyPattern => PortableGlobError::EmptyPattern { glob: g },
            GlobFault::ParentDirectory { pos } => PortableGlobError::ParentDirectory { glob: g, pos },
            GlobFault::InvalidCharacter { pos, invalid } => PortableGlobError::InvalidCharacter {
                glob: g,
                pos,
                invalid,
            },
            GlobFault::InvalidCharacterRange { pos, invalid } => {
                PortableGlobError::InvalidCharacterRange { glob: g, pos, invalid }
            },
            GlobFault::TooManyStars { pos } => PortableGlobError::TooManyStars { glob: g, pos },
        }
    }
}

/// The decimal digit for `d < 10`.
pub open spec fn digit_char(d: nat) -> char {
    if d == 0 {
        '0'
    } else if d == 1 {
        '1'
    } else if d == 2 {
        '2'
    } else if d == 3 {
        '3'
    } else if d == 4 {
        '4'
    } else if d == 5 {
        '5'
    } else if d == 6 {
        '6'
    } else if d == 7 {
        '7'
    } else if d == 8 {
        '8'
    } else {
        '9'
    }
}

/// The decimal digits of `n`, most significant first.
pub open spec fn decimal(n: nat) -> Seq<char>
    decreases n,
{
    if n < 10 {
        seq![digit_char(n)]
    } else {
        decimal(n / 10).push(digit_char(n % 10))
    }
}

/// The decimal digit for `d < 10`, as text.
fn digit_str(d: usize) -> (r: &'static str)
    requires
        d < 10,
    ensures
        r@ == seq![digit_char(d as nat)],
{
    if d == 0 {
        proof {
            reveal_strlit("0");
        }
        "0"
    } else if d == 1 {
        proof {
            reveal_strlit("1");
        }
        "1"
    } else if d == 2 {
        proof {
            reveal_strlit("2");
        }
        "2"
    } else if d == 3 {
        proof {
            reveal_strlit("3");
        }
        "3"
    } else if d == 4 {
        proof {
            reveal_strlit("4");
        }
        "4"
    } else if d == 5 {
        proof {
            reveal_strlit("5");
        }
        "5"
    } else if d == 6 {
        proof {
            reveal_strlit("6");
        }
        "6"
    } else if d == 7 {
        proof {
            reveal_strlit("7");
        }
        "7"
    } else if d == 8 {
        proof {
            reveal_strlit("8");
        }
        "8"
    } else {
        proof {
            reveal_strlit("9");
        }
        "9"
    }
}

/// The decimal digits of `n`, most significant first.
fn decimal_text(n: usize) -> (r: String)
    ensures
        r@ == decimal(n as nat),
    decreases n,
{
    if n < 10 {
        String::from_str(digit_str(n))
    } else {
        let mut s = decimal_text(n / 10);
        s.append(digit_str(n % 10));
        assert(s@ =~= decimal(n as nat));
        s
    }
}

/// Relies on the `Display` of `char`: the character itself.
#[verifier::external_body]
fn char_text(c: char) -> (r: String)
    ensures
        r@ == seq![c],
{
    c.to_string()
}

impl PortableGlobError {
    /// The text of this error; not stated for an error of globset, whose text
    /// is globset's.
    pub open spec fn message(self) -> Seq<char> {
        match self {
            PortableGlobError::GlobError(_) => Seq::empty(),
            PortableGlobError::EmptyPattern { .. } => "The empty glob is not allowed"@,
            PortableGlobError::ParentDirectory { glob, pos } => "The parent directory operator (`..`) at position "@
                + decimal(pos as nat) + " is not allowed in glob: `"@ + glob@ + "`"@,
            PortableGlobError::InvalidCharacter { glob, pos, invalid } => "Invalid character `"@
                + seq![invalid] + "` at position "@ + decimal(pos as nat) + " in glob: `"@ + glob@
                + "`"@,
            PortableGlobError::InvalidCharacterRange { glob, pos, invalid } => "Invalid character `"@
                + seq![invalid] + "` at position "@ + decimal(pos as nat) + " in glob: `"@ + glob@
                + "`"@,
            PortableGlobError::TooManyStars { glob, pos } => "Too many at stars at position "@
                + decimal(pos as nat) + " in glob: `"@ + glob@ + "`"@,
        }
    }

    /// The text of this error: `<what> at position <pos> ... glob: `<pattern>``.
    pub fn to_string(&self) -> (r: String)
        ensures
            !(self is GlobError) ==> r@ == self.message(),
    {
        match self {
            PortableGlobError::GlobError(e) => e.to_string(),
            PortableGlobError::EmptyPattern { .. } => String::from_str("The empty glob is not allowed"),
            PortableGlobError::ParentDirectory { glob, pos } => {
                let mut m = String::from_str("The parent directory operator (`..`) at position ");
                m.append(decimal_text(*pos).as_str());
                m.append(" is not allowed in glob: `");
                m.append(glob.as_str());
                m.append("`");
                m
            },
            PortableGlobError::InvalidCharacter { glob, pos, invalid }
            | PortableGlobError::InvalidCharacterRange { glob, pos, invalid } => {
                let mut m = String::from_str("Invalid character `");
                m.append(char_text(*invalid).as_str());
                m.append("` at position ");
                m.append(decimal_text(*pos).as_str());
                m.append(" in glob: `");
                m.append(glob.as_str());
                m.append("`");
                m
            },
            PortableGlobError::TooManyStars { glob, pos } => {
                let mut m = String::from_str("Too many at stars at position ");
                m.append(decimal_text(*pos).as_str());
                m.append(" in glob: `");
                m.append(glob.as_str());
                m.append("`");
                m
            },
        }
    }
}

/// What `check_portable_glob` owes for pattern `glob`.
pub open spec fn check_outcome(glob: Seq<char>, r: Result<(), PortableGlobError>) -> bool {
    match pattern_fault(glob) {
        None => r is Ok,
        Some(f) => match r {
            Ok(_) => false,
            Err(e) => e.reports(glob, f),
        },
    }
}

/// What `parse_portable_glob` owes for pattern `glob`.
pub open spec fn parse_outcome(glob: Seq<char>, r: Result<globset::Glob, PortableGlobError>) -> bool {
    match pattern_fault(glob) {
        None => match r {
            Ok(g) => globset_accepts(glob) && glob_text(g) == glob && glob_regex_text(g)
                == pattern_regex(glob) && glob_language(g) == pattern_language(glob)
                && starts_byte_mode(glob_regex_text(g)) && (within_one_segment(glob) ==> forall|
                w: Seq<u8>,
            | #[trigger] glob_language(g).contains(w) ==> !w.contains(47u8)),
            Err(e) => !globset_accepts(glob) && e is GlobError,
        },
        Some(f) => match r {
            Ok(_) => false,
            Err(e) => e.reports(glob, f),
        },
    }
}

/// Which characters of `glob` are alphanumeric.
fn classify_chars(glob: &str) -> (flags: Vec<bool>)
    ensures
        flags@ == alnum_flags(glob@),
{
    let len = glob.unicode_len();
    let mut flags: Vec<bool> = Vec::new();
    let mut i: usize = 0;
    while i < len
        invariant
            len == glob@.len(),
            i <= len,
            flags@.len() == i,
            forall|j: int| 0 <= j < i ==> flags@[j] == pattern_alphanumeric(#[trigger] glob@[j]),
        decreases len - i,
    {
        let c = glob.get_char(i);
        flags.push(char_is_alphanumeric(c));
        i = i + 1;
    }
    assert(flags@ =~= alnum_flags(glob@));
    flags
}

/// Checks that `glob` is a valid portable glob pattern.
///
/// Letters and digits (of any script), `_`, `-` and `.` stand for themselves;
/// `?`, `*`, `**` as a whole segment and classes `[...]` of those characters are
/// the wildcards; `/` separates segments. A leading `/`, `..` at the start of a
/// segment, and any other character are refused.
pub fn check_portable_glob(glob: &str) -> (r: Result<(), PortableGlobError>)
    ensures
        check_outcome(glob@, r),
{
    let flags = classify_chars(glob);
    match check_classified(glob, &flags) {
        Ok(()) => Ok(()),
        Err(f) => Err(PortableGlobError::from_fault(glob, f)),
    }
}

/// Validates `glob` and compiles it, with `/` as a literal separator that no
/// wildcard crosses.
pub fn parse_portable_glob(glob: &str) -> (r: Result<globset::Glob, PortableGlobError>)
    ensures
        parse_outcome(glob@, r),
{
    match check_portable_glob(glob) {
        Ok(()) => {},
        Err(e) => return Err(e),
    }
    match build_glob(glob) {
        Ok(g) => Ok(g),
        Err(e) => Err(PortableGlobError::GlobError(e)),
    }
}

/// `p` parses: it is valid, and globset accepts it.
pub open spec fn parses(p: Seq<char>) -> bool {
    pattern_fault(p) is None && globset_accepts(p)
}

/// Parses each pattern in order, stopping at the first that fails, whose
/// error is returned.
pub fn parse_portable_globs(patterns: &Vec<String>) -> (r: Result<
    Vec<globset::Glob>,
    PortableGlobError,
>)
    ensures
        r is Ok <==> forall|i: int| 0 <= i < patterns@.len() ==> parses(#[trigger] patterns@[i]@),
        r matches Ok(globs) ==> globs@.len() == patterns@.len() && forall|i: int|
            0 <= i < patterns@.len() ==> parse_outcome(
                #[trigger] patterns@[i]@,
                Ok::<globset::Glob, PortableGlobError>(globs@[i]),
            ),
        r matches Err(e) ==> exists|k: int|
            0 <= k < patterns@.len() && (forall|i: int| 0 <= i < k ==> parses(#[trigger] patterns@[i]@))
                && !parses(patterns@[k]@) && parse_outcome(
                patterns@[k]@,
                Err::<globset::Glob, PortableGlobError>(e),
            ),
{
    let mut globs: Vec<globset::Glob> = Vec::new();
    let mut i: usize = 0;
    while i < patterns.len()
        invariant
            i <= patterns@.len(),
            globs@.len() == i,
            forall|j: int| 0 <= j < i ==> parses(#[trigger] patterns@[j]@),
            forall|j: int|
                0 <= j < i ==> parse_outcome(
                    #[trigger] patterns@[j]@,
                    Ok::<globset::Glob, PortableGlobError>(globs@[j]),
                ),
        decreases patterns@.len() - i,
    {
        match parse_portable_glob(patterns[i].as_str()) {
            Ok(g) => {
                globs.push(g);
            },
            Err(e) => {
                assert(!parses(patterns@[i as int]@));
                return Err(e);
            },
        }
        i = i + 1;
    }
    Ok(globs)
}

/// Parsing is deterministic: any two results that `parse_portable_glob` may
/// give for one pattern agree on success, and report the same fault.
pub proof fn lemma_parse_deterministic(
    glob: Seq<char>,
    r1: Result<globset::Glob, PortableGlobError>,
    r2: Result<globset::Glob, PortableGlobError>,
)
    requires
        parse_outcome(glob, r1),
        parse_outcome(glob, r2),
    ensures
        r1 is Ok <==> r2 is Ok,
        match (r1, r2) {
            (Ok(g1), Ok(g2)) => glob_text(g1) == glob_text(g2) && glob_regex_text(g1)
                == glob_regex_text(g2) && glob_language(g1) == glob_language(g2),
            (Err(e1), Err(e2)) => e1.fault() == e2.fault() && (e1 is GlobError <==> e2 is GlobError)
                && (e1 is GlobError || e1.reports(glob, e1.fault()->Some_0) && e2.reports(
                glob,
                e2.fault()->Some_0,
            )),
            _ => true,
        },
{
}

/// A character that may stand inside a class.
pub open spec fn class_body(c: char, alnum: bool) -> bool {
    alnum || is_verbatim_punct(c)
}

/// Position `k` of `s` lies inside a class: an opening `[` stands before it,
/// with only class characters between.
pub open spec fn inside_class(s: Seq<char>, alnum: Seq<bool>, k: int) -> bool {
    exists|j: int|
        0 <= j < k && s[j] == '[' && !alnum[j] && forall|m: int|
            j < m < k ==> class_body(s[m], alnum[m])
}

/// The character at `k` is not allowed where it stands: inside a class,
/// anything but a class character or `]`; outside, anything but a letter,
/// a digit, `_ - . ? * / [`.
pub open spec fn misplaced(s: Seq<char>, alnum: Seq<bool>, k: int) -> bool {
    &&& !alnum[k]
    &&& !is_verbatim_punct(s[k])
    &&& if inside_class(s, alnum, k) {
        s[k] != ']'
    } else {
        s[k] != '?' && s[k] != '*' && s[k] != '/' && s[k] != '['
    }
}

proof fn lemma_inside_step(s: Seq<char>, alnum: Seq<bool>, i: int)
    requires
        0 <= i < s.len(),
    ensures
        inside_class(s, alnum, i + 1) <==> ((s[i] == '[' && !alnum[i]) || (inside_class(s, alnum, i)
            && class_body(s[i], alnum[i]))),
{
    if inside_class(s, alnum, i + 1) && !(s[i] == '[' && !alnum[i]) {
        let j = choose|j: int|
            0 <= j < i + 1 && s[j] == '[' && !alnum[j] && forall|m: int|
                j < m < i + 1 ==> class_body(s[m], alnum[m]);
        assert(j < i);
        assert(class_body(s[i], alnum[i]));
        assert(forall|m: int| j < m < i ==> class_body(s[m], alnum[m]));
    }
    if s[i] == '[' && !alnum[i] {
        assert(forall|m: int| i < m < i + 1 ==> class_body(s[m], alnum[m]));
    }
    if inside_class(s, alnum, i) && class_body(s[i], alnum[i]) {
        let j = choose|j: int|
            0 <= j < i && s[j] == '[' && !alnum[j] && forall|m: int|
                j < m < i ==> class_body(s[m], alnum[m]);
        assert(forall|m: int| j < m < i + 1 ==> class_body(s[m], alnum[m]));
    }
}

proof fn lemma_inside_none(s: Seq<char>, alnum: Seq<bool>, i: int, k: int)
    requires
        0 <= i <= k <= s.len(),
        !inside_class(s, alnum, i),
        forall|m: int| i <= m < k ==> !(s[m] == '[' && !alnum[m]),
    ensures
        !inside_class(s, alnum, k),
{
    if inside_class(s, alnum, k) {
        let j = choose|j: int|
            0 <= j < k && s[j] == '[' && !alnum[j] && forall|m: int|
                j < m < k ==> class_body(s[m], alnum[m]);
        assert(j < i);
        assert(forall|m: int| j < m < i ==> class_body(s[m], alnum[m]));
    }
}

proof fn lemma_star_run_stars(s: Seq<char>, i: int)
    requires
        0 <= i,
    ensures
        forall|m: int| i <= m < i + star_run(s, i) ==> s[m] == '*',
        i + star_run(s, i) <= s.len() || star_run(s, i) == 0,
    decreases s.len() - i,
{
    if i < s.len() && s[i] == '*' {
        lemma_star_run_stars(s, i + 1);
    }
}

proof fn lemma_star_run_agree(s: Seq<char>, k: int, j: int)
    requires
        0 <= k < s.len(),
        0 <= j,
        j + star_run(s, j) <= k,
    ensures
        star_run(s, j) == star_run(s.update(k, '_'), j),
    decreases k - j,
{
    if j < s.len() && s[j] == '*' {
        lemma_star_run_agree(s, k, j + 1);
    }
}

proof fn lemma_scan_misplaced(
    s: Seq<char>,
    alnum: Seq<bool>,
    k: int,
    i: int,
    seg_start: bool,
    in_class: bool,
)
    requires
        alnum.len() == s.len(),
        0 <= i <= k < s.len(),
        misplaced(s, alnum, k),
        in_class == inside_class(s, alnum, i),
        scan(s.update(k, '_'), alnum, i, seg_start, in_class) is None,
    ensures
        scan(s, alnum, i, seg_start, in_class) == if inside_class(s, alnum, k) {
            Some(GlobFault::InvalidCharacterRange { pos: k as usize, invalid: s[k] })
        } else {
            Some(GlobFault::InvalidCharacter { pos: k as usize, invalid: s[k] })
        },
    decreases k - i,
{
    let t = s.update(k, '_');
    if i < k {
        assert(t[i] == s[i]);
        lemma_inside_step(s, alnum, i);
        if in_class {
            lemma_scan_misplaced(s, alnum, k, i + 1, false, class_body(s[i], alnum[i]));
        } else if s[i] == '*' {
            lemma_star_run_stars(s, i);
            if i + star_run(s, i) > k {
                lemma_inside_none(s, alnum, i, k);
            }
            lemma_star_run_agree(s, k, i + 1);
            let n = 1 + star_run(s, i + 1);
            if i + 2 < s.len() {
                if i + 2 == k && n == 2 {
                    lemma_inside_none(s, alnum, i, k);
                }
                if n == 2 {
                    assert(t[i + 2] == '/' <==> s[i + 2] == '/');
                }
            }
            lemma_inside_none(s, alnum, i, i + n);
            lemma_scan_misplaced(s, alnum, k, i + n, false, false);
        } else if s[i] == '/' {
            lemma_scan_misplaced(s, alnum, k, i + 1, true, false);
        } else if s[i] == '.' {
            if i + 1 < s.len() {
                assert(t[i + 1] == '.' <==> s[i + 1] == '.');
            }
            lemma_scan_misplaced(s, alnum, k, i + 1, false, false);
        } else if alnum[i] || s[i] == '_' || s[i] == '-' || s[i] == '?' {
            lemma_scan_misplaced(s, alnum, k, i + 1, false, false);
        } else {
            lemma_scan_misplaced(s, alnum, k, i + 1, false, true);
        }
    }
}

/// A pattern whose only offence is one character that is not allowed where it
/// stands is refused at that character: replacing it by `_` would make the
/// pattern valid, and the fault names that character and its position, as a
/// class fault when it stands inside a class.
pub proof fn lemma_single_illegal_character(s: Seq<char>, alnum: Seq<bool>, k: int)
    requires
        alnum.len() == s.len(),
        0 <= k < s.len(),
        misplaced(s, alnum, k),
        fault_of(s.update(k, '_'), alnum) is None,
    ensures
        fault_of(s, alnum) == if inside_class(s, alnum, k) {
            Some(GlobFault::InvalidCharacterRange { pos: k as usize, invalid: s[k] })
        } else {
            Some(GlobFault::InvalidCharacter { pos: k as usize, invalid: s[k] })
        },
{
    lemma_scan_misplaced(s, alnum, k, 0, true, false);
}

} // verus!
