use vstd::prelude::*;
use crate::config::Config;

verus! {

#[verifier::external_type_specification]
#[verifier::external_body]
pub struct ExRegex(regex::Regex);

#[verifier::external_type_specification]
#[verifier::external_body]
pub struct ExRegexError(regex::Error);

/// Whether the regex crate accepts `pattern` (compiles it with its default limits).
pub uninterp spec fn regex_accepts(pattern: Seq<char>) -> bool;

/// Whether the regex compiled from `pattern` matches anywhere in `text`.
pub uninterp spec fn regex_finds(pattern: Seq<char>, text: Seq<char>) -> bool;

/// Calls `regex::Regex::new`; the contract claims that compilation succeeds
/// exactly for the patterns that the crate accepts, which depends on the
/// pattern alone.
#[verifier::external_body]
fn regex_new(pattern: &str) -> (res: Result<regex::Regex, regex::Error>)
    ensures
        res is Ok <==> regex_accepts(pattern@),
{
    regex::Regex::new(pattern)
}

/// An ignore pattern together with the regex compiled from it.
pub struct IgnorePattern {
    source: String,
    compiled: regex::Regex,
}

impl View for IgnorePattern {
    type V = Seq<char>;

    closed spec fn view(&self) -> Seq<char> {
        self.source@
    }
}

/// Calls `regex::Regex::is_match` on the regex that `IgnorePattern::compile`
/// built from `p`'s source; the contract claims that the answer is whether
/// that pattern matches somewhere in `text`. Only `IgnorePattern::compile`
/// builds an `IgnorePattern`, so the regex is always the one compiled from
/// the source it is stored with.
#[verifier::external_body]
fn regex_is_match(p: &IgnorePattern, text: &str) -> (r: bool)
    ensures
        r == regex_finds(p@, text@),
{
    p.compiled.is_match(text)
}

/// A pattern that does not compile, with the regex crate's error.
pub struct InvalidPattern {
    pub pattern: String,
    pub error: regex::Error,
}

impl IgnorePattern {
    /// Compiles `pattern`.
    pub fn compile(pattern: &str) -> (res: Result<IgnorePattern, InvalidPattern>)
        ensures
            res is Ok <==> regex_accepts(pattern@),
            res matches Ok(p) ==> p@ == pattern@,
            res matches Err(e) ==> e.pattern@ == pattern@,
    {
        match regex_new(pattern) {
            Ok(re) => Ok(IgnorePattern { source: pattern.to_owned(), compiled: re }),
            Err(e) => Err(InvalidPattern { pattern: pattern.to_owned(), error: e }),
        }
    }

    /// Whether the pattern matches somewhere in `text`.
    pub fn is_match(&self, text: &str) -> (r: bool)
        ensures
            r == regex_finds(self@, text@),
    {
        regex_is_match(self, text)
    }
}

/// The outcome of checking a command against the ignore patterns, in the
/// order the patterns are tried: whether some pattern matched, and the
/// patterns met before that (or before the end) that do not compile.
pub open spec fn ignore_scan(patterns: Seq<Seq<char>>, command: Seq<char>) -> (bool, Seq<
    Seq<char>,
>)
    decreases patterns.len(),
{
    if patterns.len() == 0 {
        (false, seq![])
    } else {
        let p = patterns[0];
        let rest = ignore_scan(patterns.drop_first(), command);
        if regex_accepts(p) {
            if regex_finds(p, command) {
                (true, seq![])
            } else {
                rest
            }
        } else {
            (rest.0, seq![p] + rest.1)
        }
    }
}

/// The texts of a list of strings.
pub open spec fn texts(v: Seq<String>) -> Seq<Seq<char>> {
    v.map_values(|s: String| s@)
}

/// The patterns of a list of invalid patterns.
pub open spec fn invalid_texts(v: Seq<InvalidPattern>) -> Seq<Seq<char>> {
    v.map_values(|e: InvalidPattern| e.pattern@)
}

/// What `clh add` decides about a command.
pub struct IgnoreCheck {
    /// Some pattern matched: the command is not recorded.
    pub ignored: bool,
    /// The patterns tried that do not compile (each is reported and skipped).
    pub invalid: Vec<InvalidPattern>,
}

/// What trying one pattern on a command gave.
pub enum PatternOutcome {
    /// The pattern does not compile.
    Invalid(InvalidPattern),
    /// The pattern compiles and does not match.
    NoMatch,
    /// The pattern compiles and matches.
    Match,
}

/// Tries `pattern` on `command`.
pub fn try_pattern(pattern: &str, command: &str) -> (o: PatternOutcome)
    ensures
        match o {
            PatternOutcome::Invalid(e) => !regex_accepts(pattern@) && e.pattern@ == pattern@,
            PatternOutcome::NoMatch => regex_accepts(pattern@) && !regex_finds(pattern@, command@),
            PatternOutcome::Match => regex_accepts(pattern@) && regex_finds(pattern@, command@),
        },
{
    match IgnorePattern::compile(pattern) {
        Ok(p) => if p.is_match(command) {
            PatternOutcome::Match
        } else {
            PatternOutcome::NoMatch
        },
        Err(e) => PatternOutcome::Invalid(e),
    }
}

/// The decision from the outcomes of the patterns tried, in order: whether
/// one matched, and the invalid patterns met before the first match.
pub open spec fn decide_outcomes(os: Seq<PatternOutcome>) -> (bool, Seq<Seq<char>>)
    decreases os.len(),
{
    if os.len() == 0 {
        (false, seq![])
    } else {
        let rest = decide_outcomes(os.drop_first());
        match os[0] {
            PatternOutcome::Match => (true, seq![]),
            PatternOutcome::NoMatch => rest,
            PatternOutcome::Invalid(e) => (rest.0, seq![e.pattern@] + rest.1),
        }
    }
}

proof fn lemma_decide_append(a: Seq<PatternOutcome>, b: Seq<PatternOutcome>)
    ensures
        decide_outcomes(a + b) == if decide_outcomes(a).0 {
            decide_outcomes(a)
        } else {
            (decide_outcomes(b).0, decide_outcomes(a).1 + decide_outcomes(b).1)
        },
    decreases a.len(),
{
    if a.len() == 0 {
        assert(a + b =~= b);
        assert(decide_outcomes(a).1 + decide_outcomes(b).1 =~= decide_outcomes(b).1);
    } else {
        assert((a + b).drop_first() =~= a.drop_first() + b);
        assert((a + b)[0] == a[0]);
        lemma_decide_append(a.drop_first(), b);
        let ra = decide_outcomes(a.drop_first());
        if let PatternOutcome::Invalid(e) = a[0] {
            if !ra.0 {
                assert(seq![e.pattern@] + (ra.1 + decide_outcomes(b).1) =~= (seq![e.pattern@]
                    + ra.1) + decide_outcomes(b).1);
            }
        }
    }
}

/// Decides from the outcomes of the patterns tried, in order: the command is
/// ignored when a pattern matched, and the patterns that do not compile met
/// before that are reported.
pub fn decide_ignore(outcomes: Vec<PatternOutcome>) -> (res: IgnoreCheck)
    ensures
        (res.ignored, invalid_texts(res.invalid@)) == decide_outcomes(outcomes@),
{
    let ghost all = outcomes@;
    let mut invalid: Vec<InvalidPattern> = Vec::new();
    proof {
        assert(all.skip(0) =~= all);
        assert(invalid_texts(invalid@) + decide_outcomes(all).1 =~= decide_outcomes(all).1);
    }
    for o in it: outcomes.into_iter()
        invariant
            it.seq() == all,
            decide_outcomes(all) == (decide_outcomes(all.skip(it.index() as int)).0,
                invalid_texts(invalid@) + decide_outcomes(all.skip(it.index() as int)).1),
    {
        let ghost i = it.index() as int;
        let ghost s = all.skip(i);
        assert(s[0] == o);
        assert(s.drop_first() =~= all.skip(i + 1));
        let ghost before = invalid@;
        match o {
            PatternOutcome::Match => {
                proof {
                    assert(invalid_texts(invalid@) + Seq::<Seq<char>>::empty() =~= invalid_texts(
                        invalid@,
                    ));
                }
                return IgnoreCheck { ignored: true, invalid };
            },
            PatternOutcome::NoMatch => {},
            PatternOutcome::Invalid(e) => {
                invalid.push(e);
                proof {
                    let rest = decide_outcomes(all.skip(i + 1));
                    assert(invalid_texts(invalid@) =~= invalid_texts(before) + seq![
                        invalid@.last().pattern@,
                    ]);
                    assert(invalid_texts(before) + (seq![invalid@.last().pattern@] + rest.1)
                        =~= invalid_texts(invalid@) + rest.1);
                }
            },
        }
    }
    proof {
        assert(all.skip(all.len() as int).len() == 0);
        assert(invalid_texts(invalid@) + Seq::<Seq<char>>::empty() =~= invalid_texts(invalid@));
    }
    IgnoreCheck { ignored: false, invalid }
}

/// Tries the ignore patterns in order until one matches `command`; patterns
/// that do not compile are skipped and returned for reporting.
pub fn check_ignore(patterns: &Vec<String>, command: &str) -> (res: IgnoreCheck)
    ensures
        (res.ignored, invalid_texts(res.invalid@)) == ignore_scan(texts(patterns@), command@),
{
    let ghost all = texts(patterns@);
    let mut outcomes: Vec<PatternOutcome> = Vec::new();
    let mut i: usize = 0;
    assert(all.skip(0) =~= all);
    while i < patterns.len()
        invariant
            i <= patterns@.len(),
            all == texts(patterns@),
            all.len() == patterns@.len(),
            !decide_outcomes(outcomes@).0,
            ignore_scan(all, command@) == (ignore_scan(all.skip(i as int), command@).0,
                decide_outcomes(outcomes@).1 + ignore_scan(all.skip(i as int), command@).1),
        decreases patterns@.len() - i,
    {
        let ghost s = all.skip(i as int);
        assert(s[0] == patterns@[i as int]@);
        assert(s.drop_first() =~= all.skip(i + 1));
        let ghost before = outcomes@;
        let o = try_pattern(patterns[i].as_str(), command);
        let stop = matches!(o, PatternOutcome::Match);
        outcomes.push(o);
        proof {
            lemma_decide_append(before, seq![outcomes@.last()]);
            assert(before + seq![outcomes@.last()] =~= outcomes@);
            reveal_with_fuel(decide_outcomes, 2);
            let rest = ignore_scan(all.skip(i + 1), command@);
            if let PatternOutcome::Invalid(e) = outcomes@.last() {
                assert(decide_outcomes(before).1 + (seq![e.pattern@] + rest.1)
                    =~= (decide_outcomes(before).1 + seq![e.pattern@]) + rest.1);
            }
            if !stop {
                assert(decide_outcomes(seq![outcomes@.last()]).1 + Seq::<Seq<char>>::empty()
                    =~= decide_outcomes(seq![outcomes@.last()]).1);
            }
        }
        if stop {
            proof {
                assert(decide_outcomes(before).1 + Seq::<Seq<char>>::empty() =~= decide_outcomes(
                    before,
                ).1);
            }
            return decide_ignore(outcomes);
        }
        i = i + 1;
    }
    proof {
        assert(all.skip(i as int).len() == 0);
        assert(decide_outcomes(outcomes@).1 + Seq::<Seq<char>>::empty() =~= decide_outcomes(
            outcomes@,
        ).1);
    }
    decide_ignore(outcomes)
}

/// Whether `command` is skipped by `clh add`: some configured ignore pattern
/// that compiles matches it.
pub fn should_ignore(cfg: &Config, command: &str) -> (r: bool)
    ensures
        r == ignore_scan(texts(cfg.add.ignore_patterns@), command@).0,
{
    check_ignore(&cfg.add.ignore_patterns, command).ignored
}

/// A command is ignored exactly when some pattern that compiles matches it.
pub proof fn lemma_ignored_iff_some_match(patterns: Seq<Seq<char>>, command: Seq<char>)
    ensures
        ignore_scan(patterns, command).0 <==> exists|i: int|
            0 <= i < patterns.len() && regex_accepts(#[trigger] patterns[i]) && regex_finds(
                patterns[i],
                command,
            ),
    decreases patterns.len(),
{
    if patterns.len() > 0 {
        let t = patterns.drop_first();
        lemma_ignored_iff_some_match(t, command);
        if exists|i: int|
            0 <= i < t.len() && regex_accepts(#[trigger] t[i]) && regex_finds(t[i], command) {
            let i = choose|i: int|
                0 <= i < t.len() && regex_accepts(#[trigger] t[i]) && regex_finds(t[i], command);
            assert(patterns[i + 1] == t[i]);
        }
        if exists|i: int|
            0 <= i < patterns.len() && regex_accepts(#[trigger] patterns[i]) && regex_finds(
                patterns[i],
                command,
            ) {
            let i = choose|i: int|
                0 <= i < patterns.len() && regex_accepts(#[trigger] patterns[i]) && regex_finds(
                    patterns[i],
                    command,
                );
            if i > 0 {
                assert(t[i - 1] == patterns[i]);
            }
        }
    }
}

} // verus!
