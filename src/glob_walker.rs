//! Matching relative paths against a set of globs, and deciding which
//! directories a walk must enter.
//!
//! A `GlobDirMatcher` holds two artifacts built from the same globs: the glob
//! set, which answers whether a path matches, and an anchored byte DFA over
//! the globs' regexes, which answers whether anything below a directory could
//! match. The DFA may be missing when it outgrew its size budget; every
//! directory is then entered.
use crate::portable_glob::{glob_language, glob_regex_text, PortableGlobError};
use regex_automata::dfa::Automaton;
use vstd::prelude::*;

verus! {

#[verifier::external_type_specification]
#[verifier::external_body]
pub struct ExGlobSet(globset::GlobSet);

#[verifier::external_type_specification]
#[verifier::external_body]
#[verifier::reject_recursive_types(T)]
pub struct ExDenseDfa<T>(regex_automata::dfa::dense::DFA<T>);

/// The path separator in patterns and in the paths matched against them.
pub const SEPARATOR: u8 = 47;

/// The unit of a DFA transition that stands for the end of input; units below
/// it are bytes.
pub const END_OF_INPUT: u16 = 256;

/// The budget, in bytes, for the DFA and for its determinization.
pub const SIZE_LIMIT: usize = 1000000;

/// The byte `\`, which globset reads as a separator on Windows.
pub const BACKSLASH: u8 = 92;

/// The paths, as bytes, that a glob set matches.
pub uninterp spec fn glob_set_language(set: globset::GlobSet) -> Set<Seq<u8>>;

/// Whether globset can combine these globs into one set.
pub uninterp spec fn glob_set_fits(globs: Seq<globset::Glob>) -> bool;

/// The byte strings that a regex matches from their start to their end, when
/// compiled as globset compiles a glob's regex: for bytes, without Unicode,
/// with `.` matching every byte (newline included).
pub uninterp spec fn regex_language(regex: Seq<char>) -> Set<Seq<u8>>;

/// Whether regex-automata builds the DFA of these regexes within the size
/// limit.
pub uninterp spec fn dense_dfa_builds(regexes: Seq<Seq<char>>, size_limit: usize) -> bool;

/// The byte strings a dense DFA matches, searching anchored from their start
/// and matching at their end.
pub uninterp spec fn dfa_language(dfa: regex_automata::dfa::dense::DFA<Vec<u32>>) -> Set<Seq<u8>>;

/// Whether a dense DFA has anchored start states.
pub uninterp spec fn dfa_supports_anchored(dfa: regex_automata::dfa::dense::DFA<Vec<u32>>) -> bool;

/// The paths that some glob of `globs` matches.
pub open spec fn union_language(globs: Seq<globset::Glob>) -> Set<Seq<u8>> {
    Set::new(|w: Seq<u8>| exists|i: int| 0 <= i < globs.len() && #[trigger] glob_language(globs[i]).contains(w))
}

/// The regex of a glob without its leading `(?-u)`.
pub open spec fn regex_body(glob: globset::Glob) -> Seq<char> {
    glob_regex_text(glob).subrange(5, glob_regex_text(glob).len() as int)
}

/// The regex bodies of `globs`, in order.
pub open spec fn regex_bodies(globs: Seq<globset::Glob>) -> Seq<Seq<char>> {
    globs.map_values(|g: globset::Glob| regex_body(g))
}

/// The transition table of a dense DFA: `(state, unit)` to the next state.
pub uninterp spec fn dfa_transitions(dfa: regex_automata::dfa::dense::DFA<Vec<u32>>) -> Map<
    (u32, u16),
    u32,
>;

/// The match states of a dense DFA.
pub uninterp spec fn dfa_match_states(dfa: regex_automata::dfa::dense::DFA<Vec<u32>>) -> Set<u32>;

/// `s` is a state of `dfa`: it has a transition on every unit.
pub open spec fn is_state(dfa: regex_automata::dfa::dense::DFA<Vec<u32>>, s: u32) -> bool {
    forall|u: u16| u <= END_OF_INPUT ==> #[trigger] dfa_transitions(dfa).contains_key((s, u))
}

pub open spec fn step(dfa: regex_automata::dfa::dense::DFA<Vec<u32>>, s: u32, u: u16) -> u32 {
    dfa_transitions(dfa)[(s, u)]
}

/// The shape every dense DFA has: state `0` is the dead state, which is no
/// match and which every transition leads back to, and transitions lead
/// from states to states.
pub open spec fn dfa_well_formed(dfa: regex_automata::dfa::dense::DFA<Vec<u32>>) -> bool {
    &&& is_state(dfa, 0)
    &&& forall|u: u16| u <= END_OF_INPUT ==> #[trigger] step(dfa, 0, u) == 0
    &&& !dfa_match_states(dfa).contains(0)
    &&& forall|s: u32, u: u16|
        is_state(dfa, s) && u <= END_OF_INPUT ==> is_state(dfa, #[trigger] step(dfa, s, u))
}

/// The state `dfa` reaches from `s` after reading `input`.
pub open spec fn run(dfa: regex_automata::dfa::dense::DFA<Vec<u32>>, s: u32, input: Seq<u8>) -> u32
    decreases input.len(),
{
    if input.len() == 0 {
        s
    } else {
        step(dfa, run(dfa, s, input.drop_last()), input.last() as u16)
    }
}

/// Relies on `globset::GlobSet::new`: one set of all the globs given, which
/// matches a path when any of its globs does; no globs give the empty set.
#[verifier::external_body]
fn build_glob_set(globs: &[globset::Glob]) -> (r: Result<globset::GlobSet, globset::Error>)
    ensures
        r is Ok <==> glob_set_fits(globs@),
        globs@.len() == 0 ==> r is Ok,
        r matches Ok(s) ==> glob_set_language(s) == union_language(globs@),
{
    globset::GlobSet::new(globs)
}

/// Relies on `globset::GlobSet::is_match_candidate` on `Candidate::from_bytes`:
/// the answer depends on the set and the path alone.
#[verifier::external_body]
fn glob_set_is_match(set: &globset::GlobSet, path: &[u8]) -> (r: bool)
    ensures
        r == glob_set_language(*set).contains(path@),
{
    set.is_match_candidate(&globset::Candidate::from_bytes(path))
}

/// Relies on `globset::Glob::regex`: globset writes each regex with the
/// `(?-u)` flag group first, and its matcher is that regex run on the path
/// bytes, which globset leaves as they are except that Windows turns `\`
/// into `/`.
#[verifier::external_body]
fn glob_regex(glob: &globset::Glob) -> (r: &str)
    ensures
        r@ == glob_regex_text(*glob),
        r@.len() >= 5,
        r@.subrange(0, 5) == seq!['(', '?', '-', 'u', ')'],
        forall|w: Seq<u8>|
            !w.contains(BACKSLASH) ==> (#[trigger] regex_language(r@.subrange(5, r@.len() as int)).contains(w)
                <==> glob_language(*glob).contains(w)),
{
    glob.regex()
}

/// Relies on `regex_automata::dfa::dense::Builder::build_many`, with byte
/// syntax as globset uses it (no Unicode, no UTF-8, `.` matching newline, no
/// UTF-8 rule for empty matches), anchored starts only, all matches reported,
/// and `size_limit` on the DFA and on its determinization: a DFA that matches
/// exactly what one of the regexes matches, or `None` when it does not build.
#[verifier::external_body]
fn build_dense_dfa(regexes: &Vec<&str>, size_limit: usize) -> (r: Option<
    regex_automata::dfa::dense::DFA<Vec<u32>>,
>)
    ensures
        r is Some <==> dense_dfa_builds(regexes@.map_values(|s: &str| s@), size_limit),
        r matches Some(dfa) ==> dfa_well_formed(dfa) && dfa_supports_anchored(dfa) && forall|
            w: Seq<u8>,
        | #[trigger] dfa_language(dfa).contains(w) <==> exists|i: int|
            0 <= i < regexes@.len() && regex_language(regexes@[i]@).contains(w),
{
    regex_automata::dfa::dense::Builder::new().syntax(
        regex_automata::util::syntax::Config::new().unicode(false).utf8(false).dot_matches_new_line(
            true,
        ),
    ).thompson(regex_automata::nfa::thompson::Config::new().utf8(false)).configure(
        regex_automata::dfa::dense::Config::new().match_kind(regex_automata::MatchKind::All).start_kind(
            regex_automata::dfa::StartKind::Anchored,
        ).dfa_size_limit(Some(size_limit)).determinize_size_limit(Some(size_limit)),
    ).build_many(regexes).ok()
}

/// Relies on `Automaton::start_state` with `Anchored::Yes` and no look-behind:
/// it fails only without anchored start states; reading a string from that
/// state and then the end of input ends in a match state exactly when the DFA
/// matches the string.
#[verifier::external_body]
fn dfa_anchored_start(dfa: &regex_automata::dfa::dense::DFA<Vec<u32>>) -> (r: Option<u32>)
    ensures
        r is Some <==> dfa_supports_anchored(*dfa),
        r matches Some(s) ==> is_state(*dfa, s) && forall|w: Seq<u8>|
            #[trigger] dfa_language(*dfa).contains(w) <==> dfa_match_states(*dfa).contains(
                step(*dfa, run(*dfa, s, w), END_OF_INPUT),
            ),
{
    let config = regex_automata::util::start::Config::new().anchored(
        regex_automata::Anchored::Yes,
    );
    dfa.start_state(&config).ok().map(|s| s.as_u32())
}

/// Relies on `Automaton::next_state`: the transition on byte `b`.
#[verifier::external_body]
fn dfa_next(dfa: &regex_automata::dfa::dense::DFA<Vec<u32>>, s: u32, b: u8) -> (r: u32)
    requires
        is_state(*dfa, s),
    ensures
        r == dfa_transitions(*dfa)[(s, b as u16)],
{
    dfa.next_state(regex_automata::util::primitives::StateID::new_unchecked(s as usize), b).as_u32()
}

/// Relies on `Automaton::next_eoi_state`: the transition on the end of input.
#[verifier::external_body]
fn dfa_next_eoi(dfa: &regex_automata::dfa::dense::DFA<Vec<u32>>, s: u32) -> (r: u32)
    requires
        is_state(*dfa, s),
    ensures
        r == dfa_transitions(*dfa)[(s, END_OF_INPUT)],
{
    dfa.next_eoi_state(regex_automata::util::primitives::StateID::new_unchecked(s as usize)).as_u32()
}

/// Relies on `Automaton::is_match_state`.
#[verifier::external_body]
fn dfa_is_match(dfa: &regex_automata::dfa::dense::DFA<Vec<u32>>, s: u32) -> (r: bool)
    ensures
        r == dfa_match_states(*dfa).contains(s),
{
    dfa.is_match_state(regex_automata::util::primitives::StateID::new_unchecked(s as usize))
}

/// Relies on `Automaton::is_dead_state`: the dead state of a dense DFA is
/// state `0`.
#[verifier::external_body]
fn dfa_is_dead(dfa: &regex_automata::dfa::dense::DFA<Vec<u32>>, s: u32) -> (r: bool)
    ensures
        r == (s == 0),
{
    dfa.is_dead_state(regex_automata::util::primitives::StateID::new_unchecked(s as usize))
}


proof fn lemma_run_concat(
    dfa: regex_automata::dfa::dense::DFA<Vec<u32>>,
    s: u32,
    w1: Seq<u8>,
    w2: Seq<u8>,
)
    ensures
        run(dfa, s, w1 + w2) == run(dfa, run(dfa, s, w1), w2),
    decreases w2.len(),
{
    if w2.len() == 0 {
        assert(w1 + w2 =~= w1);
    } else {
        assert((w1 + w2).drop_last() =~= w1 + w2.drop_last());
        lemma_run_concat(dfa, s, w1, w2.drop_last());
    }
}

proof fn lemma_run_dead(dfa: regex_automata::dfa::dense::DFA<Vec<u32>>, w: Seq<u8>)
    requires
        dfa_well_formed(dfa),
    ensures
        run(dfa, 0, w) == 0,
    decreases w.len(),
{
    if w.len() > 0 {
        lemma_run_dead(dfa, w.drop_last());
        assert(step(dfa, 0, w.last() as u16) == 0);
    }
}

/// The anchored prefix DFA of a glob set, with its start state.
pub struct PrefixDfa {
    dfa: regex_automata::dfa::dense::DFA<Vec<u32>>,
    start: u32,
}

impl PrefixDfa {
    /// The DFA has the shape of a dense DFA, and the start is one of its states.
    #[verifier::type_invariant]
    pub closed spec fn well_formed(self) -> bool {
        dfa_well_formed(self.dfa) && is_state(self.dfa, self.start)
    }

    /// The state reached from the start after reading `path`.
    pub closed spec fn state_after(self, path: Seq<u8>) -> u32 {
        run(self.dfa, self.start, path)
    }

    /// The DFA matches `path` whole.
    pub closed spec fn accepts(self, path: Seq<u8>) -> bool {
        dfa_match_states(self.dfa).contains(step(self.dfa, self.state_after(path), END_OF_INPUT))
    }

    /// After `path`, the DFA either matches, or is still alive on `/`.
    pub closed spec fn admits(self, path: Seq<u8>) -> bool {
        self.accepts(path) || step(self.dfa, self.state_after(path), SEPARATOR as u16) != 0
    }

    /// Nothing that continues `path` with `/` is accepted once the DFA is dead
    /// on that `/`.
    proof fn lemma_dead_after_separator(self, path: Seq<u8>, rest: Seq<u8>)
        requires
            self.well_formed(),
            step(self.dfa, self.state_after(path), SEPARATOR as u16) == 0,
        ensures
            self.state_after(path + seq![SEPARATOR] + rest) == 0,
            !self.accepts(path + seq![SEPARATOR] + rest),
            !self.admits(path + seq![SEPARATOR] + rest),
    {
        let w = path + seq![SEPARATOR];
        assert(w.drop_last() =~= path);
        lemma_run_concat(self.dfa, self.start, w, rest);
        lemma_run_dead(self.dfa, rest);
        assert(step(self.dfa, 0, END_OF_INPUT) == 0);
        assert(step(self.dfa, 0, SEPARATOR as u16) == 0);
    }

    /// Whether a directory at `path` can hold a match, or is one.
    fn admits_path(&self, path: &[u8]) -> (r: bool)
        ensures
            r == self.admits(path@),
    {
        proof {
            use_type_invariant(self);
        }
        let mut state = self.start;
        let mut i: usize = 0;
        while i < path.len()
            invariant
                dfa_well_formed(self.dfa),
                is_state(self.dfa, state),
                i <= path@.len(),
                state == run(self.dfa, self.start, path@.subrange(0, i as int)),
            decreases path@.len() - i,
        {
            let ghost before = path@.subrange(0, i as int);
            state = dfa_next(&self.dfa, state, path[i]);
            proof {
                let after = path@.subrange(0, i + 1);
                assert(after.drop_last() =~= before);
                assert(is_state(self.dfa, step(self.dfa, run(self.dfa, self.start, before), path@[i as int] as u16)));
            }
            i = i + 1;
        }
        assert(path@.subrange(0, path@.len() as int) =~= path@);
        let eoi = dfa_next_eoi(&self.dfa, state);
        let slash = dfa_next(&self.dfa, state, SEPARATOR);
        dfa_is_match(&self.dfa, eoi) || !dfa_is_dead(&self.dfa, slash)
    }
}

/// What a walk does with an entry.
#[derive(Clone, Copy, Debug, PartialEq, Eq)]
pub enum WalkStep {
    /// A directory below which nothing can match: neither yield it nor enter it.
    SkipSubtree,
    /// Not a match: do not yield it, but enter it if it is a directory.
    Pass,
    /// A match: yield it, and enter it if it is a directory.
    Yield,
}

/// A glob set, with the prefix DFA that prunes directories.
pub struct GlobDirMatcher {
    glob_set: globset::GlobSet,
    prefix: Option<PrefixDfa>,
}

/// `a` names a directory above `p`: `p` continues `a` with `/`.
pub open spec fn is_ancestor(a: Seq<u8>, p: Seq<u8>) -> bool {
    a.len() < p.len() && p.subrange(0, a.len() as int) == a && p[a.len() as int] == SEPARATOR
}

impl GlobDirMatcher {
    /// The relative paths that the globs match.
    pub closed spec fn matched_paths(self) -> Set<Seq<u8>> {
        glob_set_language(self.glob_set)
    }

    /// Every matcher built by `new` has this: its prefix DFA, if any, is well
    /// formed and matches exactly the paths that the globs match (paths without
    /// `\`, which globset reads as a separator on Windows).
    pub open spec fn well_formed(self) -> bool {
        self.prefix_dfa() matches Some(p) ==> p.well_formed() && forall|w: Seq<u8>|
            !w.contains(BACKSLASH) ==> (#[trigger] self.matched_paths().contains(w) <==> p.accepts(
                w,
            ))
    }

    #[verifier::type_invariant]
    closed spec fn inv(self) -> bool {
        self.well_formed()
    }

    /// The prefix DFA, when it could be built within its budget.
    pub closed spec fn prefix_dfa(self) -> Option<PrefixDfa> {
        self.prefix
    }

    /// Whether a walk enters the directory at `path`: always for the root, and
    /// always without a prefix DFA; otherwise when the DFA admits the path.
    pub open spec fn admits_directory(self, path: Seq<u8>) -> bool {
        path.len() == 0 || match self.prefix_dfa() {
            None => true,
            Some(p) => p.admits(path),
        }
    }

    /// What a walk does with the entry at `path`.
    pub open spec fn step_for(self, path: Seq<u8>, is_dir: bool) -> WalkStep {
        if is_dir && !self.admits_directory(path) {
            WalkStep::SkipSubtree
        } else if !self.matched_paths().contains(path) {
            WalkStep::Pass
        } else {
            WalkStep::Yield
        }
    }

    /// A walk yields the entry at `path`: no directory above it was skipped,
    /// and the entry itself is a match.
    pub open spec fn walk_yields(self, path: Seq<u8>, is_dir: bool) -> bool {
        &&& self.step_for(path, is_dir) == WalkStep::Yield
        &&& forall|a: Seq<u8>| #[trigger] is_ancestor(a, path) ==> self.admits_directory(a)
    }

    /// Builds the matcher of `globs`. Fails only where globset cannot combine
    /// them; a prefix DFA over its size budget is left out instead.
    pub fn new(globs: &[globset::Glob]) -> (r: Result<GlobDirMatcher, PortableGlobError>)
        ensures
            r is Ok <==> glob_set_fits(globs@),
            globs@.len() == 0 ==> r is Ok,
            r matches Err(e) ==> e is GlobError,
            r matches Ok(m) ==> m.well_formed() && m.matched_paths() == union_language(globs@) && (
            m.prefix_dfa() is Some <==> dense_dfa_builds(regex_bodies(globs@), SIZE_LIMIT)),
    {
        let glob_set = match build_glob_set(globs) {
            Ok(s) => s,
            Err(e) => return Err(PortableGlobError::GlobError(e)),
        };
        let mut regexes: Vec<&str> = Vec::new();
        let mut i: usize = 0;
        while i < globs.len()
            invariant
                i <= globs@.len(),
                regexes@.len() == i,
                forall|j: int| 0 <= j < i ==> #[trigger] regexes@[j]@ == regex_body(globs@[j]),
                forall|j: int, w: Seq<u8>|
                    0 <= j < i && !w.contains(BACKSLASH) ==> (#[trigger] regex_language(
                        regexes@[j]@,
                    ).contains(w) <==> #[trigger] glob_language(globs@[j]).contains(w)),
            decreases globs@.len() - i,
        {
            let regex = glob_regex(&globs[i]);
            let len = regex.unicode_len();
            regexes.push(regex.substring_char(5, len));
            i = i + 1;
        }
        assert(regexes@.map_values(|s: &str| s@) =~= regex_bodies(globs@));
        let prefix = match build_dense_dfa(&regexes, SIZE_LIMIT) {
            None => None,
            Some(dfa) => match dfa_anchored_start(&dfa) {
                None => None,
                Some(start) => {
                    let p = PrefixDfa { dfa, start };
                    proof {
                        assert forall|w: Seq<u8>| !w.contains(BACKSLASH) implies (glob_set_language(
                            glob_set,
                        ).contains(w) <==> p.accepts(w)) by {
                            assert(p.accepts(w) <==> dfa_language(p.dfa).contains(w));
                            if glob_set_language(glob_set).contains(w) {
                                assert(union_language(globs@).contains(w));
                                let k = choose|k: int|
                                    0 <= k < globs@.len() && #[trigger] glob_language(
                                        globs@[k],
                                    ).contains(w);
                                assert(regex_language(regexes@[k]@).contains(w));
                            }
                            if dfa_language(p.dfa).contains(w) {
                                let k = choose|k: int|
                                    0 <= k < regexes@.len() && #[trigger] regex_language(
                                        regexes@[k]@,
                                    ).contains(w);
                                assert(glob_language(globs@[k]).contains(w));
                                assert(union_language(globs@).contains(w));
                            }
                        }
                    }
                    Some(p)
                },
            },
        };
        Ok(GlobDirMatcher { glob_set, prefix })
    }

    /// Whether some glob matches the relative path `path`.
    pub fn match_path(&self, path: &[u8]) -> (r: bool)
        ensures
            r == self.matched_paths().contains(path@),
            self.well_formed(),
    {
        proof {
            use_type_invariant(self);
        }
        glob_set_is_match(&self.glob_set, path)
    }

    /// Whether the directory at relative path `path` is a match or could hold
    /// one: true for the root and whenever there is no prefix DFA.
    pub fn match_directory(&self, path: &[u8]) -> (r: bool)
        ensures
            r == self.admits_directory(path@),
            self.prefix_dfa() is None ==> r,
            path@.len() == 0 ==> r,
            self.well_formed(),
    {
        proof {
            use_type_invariant(self);
        }
        if path.len() == 0 {
            return true;
        }
        match &self.prefix {
            None => true,
            Some(p) => p.admits_path(path),
        }
    }

    /// What a walk does with the entry at relative path `path`.
    pub fn walk_step(&self, path: &[u8], is_dir: bool) -> (r: WalkStep)
        ensures
            r == self.step_for(path@, is_dir),
    {
        if is_dir && !self.match_directory(path) {
            WalkStep::SkipSubtree
        } else if !self.match_path(path) {
            WalkStep::Pass
        } else {
            WalkStep::Yield
        }
    }

    /// What a walk does with the entry at `path` when paths that `exclude`
    /// matches are left out, with their subtrees.
    pub open spec fn step_excluding(self, exclude: GlobDirMatcher, path: Seq<u8>, is_dir: bool) -> WalkStep {
        if exclude.matched_paths().contains(path) {
            if is_dir {
                WalkStep::SkipSubtree
            } else {
                WalkStep::Pass
            }
        } else {
            self.step_for(path, is_dir)
        }
    }

    /// What a walk does with the entry at relative path `path` when paths that
    /// `exclude` matches are left out, with their subtrees.
    pub fn walk_step_excluding(&self, exclude: &GlobDirMatcher, path: &[u8], is_dir: bool) -> (r:
        WalkStep)
        ensures
            r == self.step_excluding(*exclude, path@, is_dir),
    {
        if exclude.match_path(path) {
            if is_dir {
                WalkStep::SkipSubtree
            } else {
                WalkStep::Pass
            }
        } else {
            self.walk_step(path, is_dir)
        }
    }

    /// Pruning is safe: when a directory is not entered, no path below it
    /// matches.
    pub proof fn lemma_pruning_safe(self, dir: Seq<u8>, rest: Seq<u8>)
        requires
            self.well_formed(),
            !self.admits_directory(dir),
            !(dir + seq![SEPARATOR] + rest).contains(BACKSLASH),
        ensures
            !self.matched_paths().contains(dir + seq![SEPARATOR] + rest),
    {
        let p = self.prefix->Some_0;
        p.lemma_dead_after_separator(dir, rest);
    }

    /// The directories a walk enters are closed under taking the parent: a
    /// walk that prunes reaches every directory it would enter.
    pub proof fn lemma_parent_admitted(self, dir: Seq<u8>, name: Seq<u8>)
        requires
            self.well_formed(),
            self.admits_directory(dir + seq![SEPARATOR] + name),
        ensures
            self.admits_directory(dir),
    {
        if dir.len() > 0 && self.prefix is Some {
            let p = self.prefix->Some_0;
            if !p.admits(dir) {
                p.lemma_dead_after_separator(dir, name);
            }
        }
    }

    /// A walk yields only matches.
    pub proof fn lemma_walk_sound(self, path: Seq<u8>, is_dir: bool)
        requires
            self.walk_yields(path, is_dir),
        ensures
            self.matched_paths().contains(path),
    {
    }

    /// A walk yields every match: no directory above a matching path is
    /// skipped, nor the path itself.
    pub proof fn lemma_walk_complete(self, path: Seq<u8>, is_dir: bool)
        requires
            self.well_formed(),
            self.matched_paths().contains(path),
            !path.contains(BACKSLASH),
        ensures
            self.walk_yields(path, is_dir),
    {
        assert forall|a: Seq<u8>| #[trigger] is_ancestor(a, path) implies self.admits_directory(a) by {
            let rest = path.subrange(a.len() + 1int, path.len() as int);
            assert(path =~= a + seq![SEPARATOR] + rest);
            if !self.admits_directory(a) {
                self.lemma_pruning_safe(a, rest);
            }
        }
    }
}

/// The order of the globs does not matter: two lists holding the same globs
/// match the same paths.
pub proof fn lemma_glob_order_irrelevant(globs1: Seq<globset::Glob>, globs2: Seq<globset::Glob>)
    requires
        forall|i: int| 0 <= i < globs1.len() ==> globs2.contains(#[trigger] globs1[i]),
        forall|i: int| 0 <= i < globs2.len() ==> globs1.contains(#[trigger] globs2[i]),
    ensures
        union_language(globs1) == union_language(globs2),
{
    assert forall|w: Seq<u8>| union_language(globs1).contains(w) implies union_language(globs2).contains(w) by {
        let i = choose|i: int| 0 <= i < globs1.len() && #[trigger] glob_language(globs1[i]).contains(w);
        assert(globs2.contains(globs1[i]));
        let j = choose|j: int| 0 <= j < globs2.len() && globs2[j] == globs1[i];
        assert(glob_language(globs2[j]).contains(w));
    }
    assert forall|w: Seq<u8>| union_language(globs2).contains(w) implies union_language(globs1).contains(w) by {
        let i = choose|i: int| 0 <= i < globs2.len() && #[trigger] glob_language(globs2[i]).contains(w);
        assert(globs1.contains(globs2[i]));
        let j = choose|j: int| 0 <= j < globs1.len() && globs1[j] == globs2[i];
        assert(glob_language(globs1[j]).contains(w));
    }
    assert(union_language(globs1) =~= union_language(globs2));
}

/// `path` with each `native` separator byte replaced by `/`.
pub open spec fn slash_path(path: Seq<u8>, native: u8) -> Seq<u8> {
    path.map_values(|b: u8| if b == native { SEPARATOR } else { b })
}

/// The bytes of a relative path as the globs see them: the platform's
/// separator `native` becomes `/`.
pub fn to_slash_path(path: &[u8], native: u8) -> (r: Vec<u8>)
    ensures
        r@ == slash_path(path@, native),
{
    let mut out: Vec<u8> = Vec::new();
    let mut i: usize = 0;
    while i < path.len()
        invariant
            i <= path@.len(),
            out@ == slash_path(path@.subrange(0, i as int), native),
        decreases path@.len() - i,
    {
        let b = path[i];
        if b == native {
            out.push(SEPARATOR);
        } else {
            out.push(b);
        }
        proof {
            assert(path@.subrange(0, i + 1) =~= path@.subrange(0, i as int).push(b));
            assert(out@ =~= slash_path(path@.subrange(0, i + 1), native));
        }
        i = i + 1;
    }
    assert(path@.subrange(0, path@.len() as int) =~= path@);
    out
}

/// Results do not depend on the platform's separator: a relative path written
/// with `\` between its parts on one system and with `/` on another reaches the
/// globs as the same bytes.
pub proof fn lemma_separator_independent(path: Seq<u8>)
    requires
        !path.contains(92u8),
    ensures
        slash_path(slash_path(path, SEPARATOR).map_values(
            |b: u8| if b == SEPARATOR { 92u8 } else { b },
        ), 92u8) == slash_path(path, SEPARATOR),
        slash_path(path, SEPARATOR) == path,
{
    let native = path.map_values(|b: u8| if b == SEPARATOR { 92u8 } else { b });
    assert(slash_path(path, SEPARATOR) =~= path);
    assert forall|i: int| 0 <= i < path.len() implies path[i] != 92u8 by {
        if path[i] == 92u8 {
            assert(path.contains(92u8));
        }
    }
    assert(slash_path(native, 92u8) =~= path);
}

} // verus!
