//! Configuration for a tokenization call: separators, scopes,
//! end-of-line markers, aggregation rules and the identifier predicate.
//! A configuration is an immutable value; the scanner only reads it.

use vstd::prelude::*;
use vstd::assert_seqs_equal;
use crate::text::{is_digit, is_alpha, all_digits, digit_check, alpha_check, to_char_vec};

verus! {

/// What happens to a separator character when it ends a fragment.
#[derive(Debug, PartialEq, Eq, Structural, Clone, Copy)]
pub enum IncludeMode {
    /// The fragment ends and the separator character is dropped.
    Discard,
    /// The separator character is kept at the end of the fragment.
    Aggregate,
    /// The fragment ends without the separator, which is then emitted
    /// as a fragment of its own.
    Separate,
}

/// A single separator character together with its inclusion mode.
#[derive(Debug, PartialEq, Eq, Structural, Clone, Copy)]
pub struct Separator {
    pub cmatch: char,
    pub mode: IncludeMode,
}

impl Separator {
    pub fn new(cmatch: char, mode: IncludeMode) -> (r: Separator)
        ensures
            r == (Separator { cmatch, mode }),
    {
        Separator { cmatch, mode }
    }

    pub fn new_sep(cmatch: char) -> (r: Separator)
        ensures
            r == (Separator { cmatch, mode: IncludeMode::Separate }),
    {
        Separator::new(cmatch, IncludeMode::Separate)
    }
}

/// A delimited region (for example a quoted string) scanned verbatim.
/// The identity only distinguishes scope definitions; it is assigned
/// sequentially by the configuration builder and never consulted while
/// scanning.
#[derive(Debug, PartialEq, Eq, Structural, Clone, Copy)]
pub struct Scope {
    pub id: i64,
    pub begin: char,
    pub end: char,
}

impl Scope {
    /// A scope with a placeholder identity; [`TokenizerOptions::new`]
    /// replaces it with the scope's index in the configuration.
    pub fn new(begin: char, end: char) -> (r: Scope)
        ensures
            r == (Scope { id: 0, begin, end }),
    {
        Scope { id: 0, begin, end }
    }
}

/// A line-terminator character.
#[derive(Debug, PartialEq, Eq, Structural, Clone, Copy)]
pub struct EndOfLine {
    pub eof: char,
}

impl EndOfLine {
    pub fn new(eof: char) -> (r: EndOfLine)
        ensures
            r == (EndOfLine { eof }),
    {
        EndOfLine { eof }
    }
}

/// Mathematical value of a [`Matcher`].
pub ghost enum MatcherV {
    Exact(Seq<char>),
    Numeric { accept_f: bool },
    NumericFloat,
    Identifier,
}

/// A predicate over fragment text: the building block of aggregation
/// rules and of the identifier check. Each variant is a fixed, pure
/// test, so a rule is data rather than code.
#[derive(Debug, PartialEq, Clone)]
pub enum Matcher {
    /// The text equals this literal exactly.
    Exact(String),
    /// One or more digits, with an optional leading `-` and, when
    /// `accept_f` is set, an optional trailing `f`.
    Numeric { accept_f: bool },
    /// One or more digits with at most one embedded `.` and an
    /// optional trailing `f`.
    NumericFloat,
    /// The default identifier shape (see [`default_try_id`]).
    Identifier,
}

impl View for Matcher {
    type V = MatcherV;

    open spec fn view(&self) -> MatcherV {
        match self {
            Matcher::Exact(s) => MatcherV::Exact(s@),
            Matcher::Numeric { accept_f } => MatcherV::Numeric { accept_f: *accept_f },
            Matcher::NumericFloat => MatcherV::NumericFloat,
            Matcher::Identifier => MatcherV::Identifier,
        }
    }
}

/// Spec: does matcher `m` accept the text `s`?
pub open spec fn matcher_matches(m: MatcherV, s: Seq<char>) -> bool {
    match m {
        MatcherV::Exact(lit) => s == lit,
        MatcherV::Numeric { accept_f } => is_numeric_text(s, accept_f),
        MatcherV::NumericFloat => is_numeric_float_text(s),
        MatcherV::Identifier => is_id_text(s),
    }
}

impl Matcher {
    pub fn matches(&self, text: &String) -> (r: bool)
        ensures
            r == matcher_matches(self@, text@),
    {
        match self {
            Matcher::Exact(lit) => *text == *lit,
            Matcher::Numeric { accept_f } => is_numeric(text.as_str(), *accept_f),
            Matcher::NumericFloat => is_numeric_accept_float(text.as_str()),
            Matcher::Identifier => default_try_id(text.as_str()),
        }
    }
}

/// An aggregation rule: an ordered list of predicates. A rule of
/// length `n` matches `n` consecutive fragments, each satisfying its
/// corresponding predicate. Only rules of length at least two can fuse
/// anything; shorter rules never match.
#[derive(Debug, PartialEq, Clone)]
pub struct SplitAggregator {
    pub detectors: Vec<Matcher>,
}

impl View for SplitAggregator {
    type V = Seq<MatcherV>;

    open spec fn view(&self) -> Seq<MatcherV> {
        self.detectors@.map_values(|m: Matcher| m@)
    }
}

impl SplitAggregator {
    pub fn new(detectors: Vec<Matcher>) -> (r: SplitAggregator)
        ensures
            r@ == detectors@.map_values(|m: Matcher| m@),
    {
        SplitAggregator { detectors }
    }

    pub fn from_strings(detectors: Vec<String>) -> (r: SplitAggregator)
        ensures
            r@ == detectors@.map_values(|s: String| MatcherV::Exact(s@)),
    {
        let ghost goal = detectors@.map_values(|s: String| MatcherV::Exact(s@));
        let mut fin = Vec::<Matcher>::new();
        let mut i: usize = 0;
        while i < detectors.len()
            invariant
                i <= detectors@.len(),
                fin@.len() == i,
                forall|k: int| 0 <= k < i ==> fin@[k]@ == MatcherV::Exact(detectors@[k]@),
            decreases detectors@.len() - i,
        {
            let d = detectors[i].clone();
            fin.push(Self::string_matcher(d));
            i = i + 1;
        }
        let r = SplitAggregator { detectors: fin };
        proof {
            assert(r@ =~= goal);
        }
        r
    }

    pub fn string_matcher(detector: String) -> (r: Matcher)
        ensures
            r@ == MatcherV::Exact(detector@),
    {
        Matcher::Exact(detector)
    }
}

/// The full configuration for one tokenization call.
pub struct TokenizerOptions {
    pub separators: Vec<Separator>,
    pub scopes: Vec<Scope>,
    pub end_of_lines: Vec<EndOfLine>,
    pub split_aggregators: Vec<SplitAggregator>,
    pub try_id: Matcher,
}

impl TokenizerOptions {
    /// The separator table, in precedence order.
    pub open spec fn seps(&self) -> Seq<Separator> {
        self.separators@
    }

    /// The line-terminator characters.
    pub open spec fn eols(&self) -> Seq<char> {
        self.end_of_lines@.map_values(|e: EndOfLine| e.eof)
    }

    /// The aggregation rules, each as its sequence of predicates.
    pub open spec fn aggs(&self) -> Seq<Seq<MatcherV>> {
        self.split_aggregators@.map_values(|a: SplitAggregator| a@)
    }

    /// Builds a configuration, assigning each scope its index in the
    /// list as its identity.
    pub fn new(
        separators: Vec<Separator>,
        scopes: Vec<Scope>,
        end_of_lines: Vec<EndOfLine>,
        split_aggregators: Vec<SplitAggregator>,
    ) -> (r: TokenizerOptions)
        requires
            scopes@.len() <= 0x7fff_ffff_ffff_ffff,
        ensures
            r.separators@ == separators@,
            r.end_of_lines@ == end_of_lines@,
            r.split_aggregators@ == split_aggregators@,
            r.try_id@ == MatcherV::Identifier,
            r.scopes@.len() == scopes@.len(),
            forall|i: int|
                0 <= i < scopes@.len() ==> r.scopes@[i] == (Scope {
                    id: i as i64,
                    begin: scopes@[i].begin,
                    end: scopes@[i].end,
                }),
    {
        let mut numbered = Vec::<Scope>::new();
        let mut i: usize = 0;
        while i < scopes.len()
            invariant
                i <= scopes@.len(),
                scopes@.len() <= 0x7fff_ffff_ffff_ffff,
                numbered@.len() == i,
                forall|k: int|
                    0 <= k < i ==> numbered@[k] == (Scope {
                        id: k as i64,
                        begin: scopes@[k].begin,
                        end: scopes@[k].end,
                    }),
            decreases scopes@.len() - i,
        {
            let sc = scopes[i];
            numbered.push(Scope { id: i as i64, begin: sc.begin, end: sc.end });
            i = i + 1;
        }
        TokenizerOptions {
            separators,
            scopes: numbered,
            end_of_lines,
            split_aggregators,
            try_id: Matcher::Identifier,
        }
    }
}

/// Spec: the default separator table, in precedence order. Blanks and
/// the comma are discarded; every other separator is emitted as a
/// fragment of its own.
pub open spec fn default_separator_table() -> Seq<Separator> {
    seq![
        Separator { cmatch: ' ', mode: IncludeMode::Discard },
        Separator { cmatch: '\t', mode: IncludeMode::Discard },
        Separator { cmatch: '*', mode: IncludeMode::Separate },
        Separator { cmatch: '/', mode: IncludeMode::Separate },
        Separator { cmatch: '+', mode: IncludeMode::Separate },
        Separator { cmatch: '-', mode: IncludeMode::Separate },
        Separator { cmatch: '(', mode: IncludeMode::Separate },
        Separator { cmatch: ')', mode: IncludeMode::Separate },
        Separator { cmatch: '\n', mode: IncludeMode::Separate },
        Separator { cmatch: ',', mode: IncludeMode::Discard },
        Separator { cmatch: ';', mode: IncludeMode::Separate },
        Separator { cmatch: '=', mode: IncludeMode::Separate },
        Separator { cmatch: '{', mode: IncludeMode::Separate },
        Separator { cmatch: '}', mode: IncludeMode::Separate },
        Separator { cmatch: '[', mode: IncludeMode::Separate },
        Separator { cmatch: ']', mode: IncludeMode::Separate },
        Separator { cmatch: ':', mode: IncludeMode::Separate },
        Separator { cmatch: '<', mode: IncludeMode::Separate },
        Separator { cmatch: '>', mode: IncludeMode::Separate },
        Separator { cmatch: '&', mode: IncludeMode::Separate },
        Separator { cmatch: '|', mode: IncludeMode::Separate },
        Separator { cmatch: '$', mode: IncludeMode::Separate },
        Separator { cmatch: '@', mode: IncludeMode::Separate },
        Separator { cmatch: '.', mode: IncludeMode::Separate },
        Separator { cmatch: '#', mode: IncludeMode::Separate },
        Separator { cmatch: '!', mode: IncludeMode::Separate },
        Separator { cmatch: '?', mode: IncludeMode::Separate },
    ]
}

/// Spec: the default scope table (double and single quotes), with the
/// identities the builder assigns.
pub open spec fn default_scope_table() -> Seq<Scope> {
    seq![
        Scope { id: 0, begin: '"', end: '"' },
        Scope { id: 1, begin: '\'', end: '\'' },
    ]
}

/// Spec: the default line terminators.
pub open spec fn default_eol_table() -> Seq<char> {
    seq!['\n', '\0']
}

/// Spec: the default aggregation rules: the two-character operators,
/// the three-step numeric-float rule and the two-step negative-number
/// rule.
pub open spec fn default_aggregator_table() -> Seq<Seq<MatcherV>> {
    seq![
        seq![MatcherV::Exact(seq!['=']), MatcherV::Exact(seq!['='])],
        seq![MatcherV::Exact(seq!['!']), MatcherV::Exact(seq!['='])],
        seq![MatcherV::Exact(seq!['>']), MatcherV::Exact(seq!['='])],
        seq![MatcherV::Exact(seq!['<']), MatcherV::Exact(seq!['='])],
        seq![MatcherV::Exact(seq!['/']), MatcherV::Exact(seq!['/'])],
        seq![MatcherV::Exact(seq!['/']), MatcherV::Exact(seq!['*'])],
        seq![MatcherV::Exact(seq!['*']), MatcherV::Exact(seq!['/'])],
        seq![MatcherV::Exact(seq!['-']), MatcherV::Exact(seq!['>'])],
        seq![MatcherV::Exact(seq!['=']), MatcherV::Exact(seq!['>'])],
        seq![MatcherV::Exact(seq!['&']), MatcherV::Exact(seq!['&'])],
        seq![MatcherV::Exact(seq!['|']), MatcherV::Exact(seq!['|'])],
        seq![
            MatcherV::Numeric { accept_f: false },
            MatcherV::Exact(seq!['.']),
            MatcherV::Numeric { accept_f: true },
        ],
        seq![MatcherV::Exact(seq!['-']), MatcherV::NumericFloat],
    ]
}

/// One two-string exact rule.
fn pair_rule(a: char, b: char) -> (r: SplitAggregator)
    ensures
        r@ == seq![MatcherV::Exact(seq![a]), MatcherV::Exact(seq![b])],
{
    let mut strs = Vec::<String>::new();
    strs.push(crate::text::char_string(a));
    strs.push(crate::text::char_string(b));
    let r = SplitAggregator::from_strings(strs);
    proof {
        assert(r@ =~~= seq![MatcherV::Exact(seq![a]), MatcherV::Exact(seq![b])]);
    }
    r
}

/// The default aggregation rules, as data.
pub fn default_split_aggregators() -> (r: Vec<SplitAggregator>)
    ensures
        r@.map_values(|a: SplitAggregator| a@) == default_aggregator_table(),
{
    let mut r = Vec::<SplitAggregator>::new();
    r.push(pair_rule('=', '='));
    r.push(pair_rule('!', '='));
    r.push(pair_rule('>', '='));
    r.push(pair_rule('<', '='));
    r.push(pair_rule('/', '/'));
    r.push(pair_rule('/', '*'));
    r.push(pair_rule('*', '/'));
    r.push(pair_rule('-', '>'));
    r.push(pair_rule('=', '>'));
    r.push(pair_rule('&', '&'));
    r.push(pair_rule('|', '|'));
    let mut float_rule = Vec::<Matcher>::new();
    float_rule.push(Matcher::Numeric { accept_f: false });
    float_rule.push(Matcher::Exact(crate::text::char_string('.')));
    float_rule.push(Matcher::Numeric { accept_f: true });
    r.push(SplitAggregator::new(float_rule));
    let mut neg_rule = Vec::<Matcher>::new();
    neg_rule.push(Matcher::Exact(crate::text::char_string('-')));
    neg_rule.push(Matcher::NumericFloat);
    r.push(SplitAggregator::new(neg_rule));
    proof {
        assert_seqs_equal!(r@.map_values(|a: SplitAggregator| a@), default_aggregator_table(),
            i => {
                assert(r@.map_values(|a: SplitAggregator| a@)[i] =~~= default_aggregator_table()[i]);
            }
        );
    }
    r
}

/// The default configuration: the built-in separator, scope,
/// end-of-line and aggregation tables, and the default identifier
/// predicate.
pub fn default() -> (r: TokenizerOptions)
    ensures
        r.seps() == default_separator_table(),
        r.scopes@ == default_scope_table(),
        r.eols() == default_eol_table(),
        r.aggs() == default_aggregator_table(),
        r.try_id@ == MatcherV::Identifier,
{
    let mut separators = Vec::<Separator>::new();
    separators.push(Separator::new(' ', IncludeMode::Discard));
    separators.push(Separator::new('\t', IncludeMode::Discard));
    separators.push(Separator::new_sep('*'));
    separators.push(Separator::new_sep('/'));
    separators.push(Separator::new_sep('+'));
    separators.push(Separator::new_sep('-'));
    separators.push(Separator::new_sep('('));
    separators.push(Separator::new_sep(')'));
    separators.push(Separator::new_sep('\n'));
    separators.push(Separator::new(',', IncludeMode::Discard));
    separators.push(Separator::new_sep(';'));
    separators.push(Separator::new_sep('='));
    separators.push(Separator::new_sep('{'));
    separators.push(Separator::new_sep('}'));
    separators.push(Separator::new_sep('['));
    separators.push(Separator::new_sep(']'));
    separators.push(Separator::new_sep(':'));
    separators.push(Separator::new_sep('<'));
    separators.push(Separator::new_sep('>'));
    separators.push(Separator::new_sep('&'));
    separators.push(Separator::new_sep('|'));
    separators.push(Separator::new_sep('$'));
    separators.push(Separator::new_sep('@'));
    separators.push(Separator::new_sep('.'));
    separators.push(Separator::new_sep('#'));
    separators.push(Separator::new_sep('!'));
    separators.push(Separator::new_sep('?'));
    let mut scopes = Vec::<Scope>::new();
    scopes.push(Scope::new('"', '"'));
    scopes.push(Scope::new('\'', '\''));
    let mut end_of_lines = Vec::<EndOfLine>::new();
    end_of_lines.push(EndOfLine::new('\n'));
    end_of_lines.push(EndOfLine::new('\0'));
    let aggregators = default_split_aggregators();
    let r = TokenizerOptions::new(separators, scopes, end_of_lines, aggregators);
    proof {
        assert(r.seps() =~= default_separator_table());
        assert(r.scopes@ =~= default_scope_table());
        assert(r.eols() =~= default_eol_table());
        assert(r.aggs() =~= default_aggregator_table());
    }
    r
}

/// Spec: the default identifier shape. The first character is neither
/// a digit nor an underscore; every later character is a digit, a
/// letter, an underscore or a dot.
pub open spec fn is_id_text(s: Seq<char>) -> bool {
    &&& s.len() > 0
    &&& !is_digit(s[0])
    &&& s[0] != '_'
    &&& forall|i: int| 1 <= i < s.len() ==> #[trigger] is_id_tail_char(s[i])
}

/// Spec: a character allowed after the first position of an identifier.
pub open spec fn is_id_tail_char(c: char) -> bool {
    is_digit(c) || is_alpha(c) || c == '_' || c == '.'
}

/// The default identifier predicate.
pub fn default_try_id(entry: &str) -> (r: bool)
    ensures
        r == is_id_text(entry@),
{
    let chars = to_char_vec(entry);
    if chars.len() == 0 {
        return false;
    }
    let first = chars[0];
    if digit_check(first) || first == '_' {
        return false;
    }
    let mut i: usize = 1;
    while i < chars.len()
        invariant
            1 <= i <= chars@.len(),
            chars@ == entry@,
            forall|k: int| 1 <= k < i ==> #[trigger] is_id_tail_char(chars@[k]),
        decreases chars@.len() - i,
    {
        let c = chars[i];
        if !(digit_check(c) || alpha_check(c) || c == '_' || c == '.') {
            proof {
                assert(!is_id_tail_char(chars@[i as int]));
            }
            return false;
        }
        i = i + 1;
    }
    true
}

/// Spec: the text after an optional single leading `-`.
pub open spec fn minus_stripped(s: Seq<char>) -> Seq<char> {
    if s.len() > 0 && s[0] == '-' {
        s.drop_first()
    } else {
        s
    }
}

/// Spec: the text after an optional single trailing `f`.
pub open spec fn trailing_f_stripped(s: Seq<char>) -> Seq<char> {
    if s.len() > 0 && s.last() == 'f' {
        s.drop_last()
    } else {
        s
    }
}

/// Spec: one or more ASCII digits, optionally preceded by one `-`
/// and, when `accept_f` is set, optionally followed by one trailing
/// `f`. The empty text does not qualify.
pub open spec fn is_numeric_text(s: Seq<char>, accept_f: bool) -> bool {
    let u = if accept_f {
        trailing_f_stripped(minus_stripped(s))
    } else {
        minus_stripped(s)
    };
    u.len() > 0 && all_digits(u)
}

/// Number of `.` characters in `s`.
pub open spec fn dot_count(s: Seq<char>) -> int
    decreases s.len(),
{
    if s.len() == 0 {
        0
    } else {
        dot_count(s.drop_last()) + if s.last() == '.' {
            1int
        } else {
            0int
        }
    }
}

proof fn lemma_dot_count_prefix(s: Seq<char>, k: int)
    requires
        0 <= k <= s.len(),
    ensures
        dot_count(s.take(k)) <= dot_count(s),
    decreases s.len() - k,
{
    if k < s.len() {
        assert(s.take(k + 1).drop_last() =~= s.take(k));
        assert(dot_count(s.take(k + 1)) >= dot_count(s.take(k)));
        lemma_dot_count_prefix(s, k + 1);
    } else {
        assert(s.take(k) =~= s);
    }
}

/// Spec: one or more ASCII digits with at most one `.` embedded
/// between digits, optionally followed by one trailing `f`. The
/// empty text does not qualify.
pub open spec fn is_numeric_float_text(s: Seq<char>) -> bool {
    let u = trailing_f_stripped(s);
    &&& u.len() > 0
    &&& is_digit(u[0])
    &&& is_digit(u.last())
    &&& forall|i: int| 0 <= i < u.len() ==> (u[i] == '.' || #[trigger] is_digit(u[i]))
    &&& dot_count(u) <= 1
}

/// Is `x` one or more digits, with an optional leading `-` and, when
/// `accept_f` is set, an optional trailing `f`?
pub fn is_numeric(x: &str, accept_f: bool) -> (r: bool)
    ensures
        r == is_numeric_text(x@, accept_f),
{
    let chars = to_char_vec(x);
    let n = chars.len();
    let start: usize = if n > 0 && chars[0] == '-' {
        1
    } else {
        0
    };
    let end: usize = if accept_f && n > start && chars[n - 1] == 'f' {
        n - 1
    } else {
        n
    };
    let ghost u = (if accept_f {
        trailing_f_stripped(minus_stripped(x@))
    } else {
        minus_stripped(x@)
    });
    proof {
        assert(minus_stripped(x@) =~= x@.subrange(start as int, n as int));
        assert(start <= end);
        assert(u =~= x@.subrange(start as int, end as int));
    }
    if end <= start {
        proof {
            assert(u.len() == 0);
        }
        return false;
    }
    let mut i: usize = start;
    while i < end
        invariant
            start <= i <= end <= chars@.len(),
            chars@ == x@,
            u == (if accept_f {
                trailing_f_stripped(minus_stripped(x@))
            } else {
                minus_stripped(x@)
            }),
            u == x@.subrange(start as int, end as int),
            forall|k: int| start <= k < i ==> #[trigger] is_digit(x@[k]),
        decreases end - i,
    {
        if !digit_check(chars[i]) {
            proof {
                assert(u[i - start] == x@[i as int]);
                assert(!is_digit(u[i - start]));
            }
            return false;
        }
        i = i + 1;
    }
    proof {
        assert forall|k: int| 0 <= k < u.len() implies #[trigger] is_digit(u[k]) by {
            assert(u[k] == x@[k + start]);
            assert(is_digit(x@[k + start]));
        }
    }
    true
}

/// Is `x` one or more digits with at most one embedded `.` and an
/// optional trailing `f`?
pub fn is_numeric_accept_float(x: &str) -> (r: bool)
    ensures
        r == is_numeric_float_text(x@),
{
    let chars = to_char_vec(x);
    let n = chars.len();
    let end: usize = if n > 0 && chars[n - 1] == 'f' {
        n - 1
    } else {
        n
    };
    let ghost u = trailing_f_stripped(x@);
    proof {
        assert(u =~= x@.subrange(0, end as int));
    }
    if end == 0 {
        return false;
    }
    if !digit_check(chars[0]) {
        proof {
            assert(u[0] == x@[0]);
        }
        return false;
    }
    if !digit_check(chars[end - 1]) {
        proof {
            assert(u.last() == x@[end - 1]);
        }
        return false;
    }
    let mut has_dot = false;
    let mut i: usize = 0;
    while i < end
        invariant
            i <= end <= chars@.len(),
            chars@ == x@,
            u == trailing_f_stripped(x@),
            u == x@.subrange(0, end as int),
            forall|k: int| 0 <= k < i ==> (x@[k] == '.' || #[trigger] is_digit(x@[k])),
            dot_count(u.take(i as int)) == if has_dot {
                1int
            } else {
                0int
            },
        decreases end - i,
    {
        let c = chars[i];
        proof {
            assert(u.take(i + 1).drop_last() =~= u.take(i as int));
            assert(u.take(i + 1).last() == u[i as int]);
            assert(u[i as int] == x@[i as int]);
        }
        if c == '.' {
            if has_dot {
                proof {
                    assert(dot_count(u.take(i + 1)) == 2);
                    lemma_dot_count_prefix(u, i + 1);
                    assert(dot_count(u) >= 2);
                }
                return false;
            }
            has_dot = true;
        } else if !digit_check(c) {
            proof {
                assert(!(u[i as int] == '.' || is_digit(u[i as int])));
            }
            return false;
        }
        i = i + 1;
    }
    proof {
        assert(u.take(end as int) =~= u);
        assert(u[0] == x@[0]);
        assert(u.last() == x@[end - 1]);
        assert forall|k: int| 0 <= k < u.len() implies (u[k] == '.' || #[trigger] is_digit(
            u[k],
        )) by {
            assert(u[k] == x@[k]);
        }
    }
    true
}

} // verus!
