//! The positional/option parser: consumes a flat token list against a
//! command specification, producing a name-to-value mapping, coercing every
//! value, applying defaults and enforcing required fields.
use vstd::prelude::*;
use vstd::string::StringExecFns;

use crate::config::schema::ArgumentType;
use crate::config::schema::CommandDefinition;
use crate::config::schema::OptionDefinition;
use crate::error::types::DynamicCliError;
use crate::error::types::ParseError;
use crate::error::suggestions::spec_suggestions;
use crate::parser::type_parser::parse_value;
use crate::parser::type_parser::spec_coerces;
use crate::parser::type_parser::spec_type_error;
use crate::text::chars_of;
use crate::text::spec_is_digit;
use crate::text::str_eq;
use crate::text::string_from_chars;

verus! {

// ---------------------------------------------------------------------------
// The result mapping
// ---------------------------------------------------------------------------
/// The mapping from field names to their raw, type-validated, still
/// string-encoded values, as produced by one parse.
#[derive(Debug)]
pub struct ArgMap {
    entries: Vec<(String, String)>,
}

impl View for ArgMap {
    type V = Map<Seq<char>, Seq<char>>;

    closed spec fn view(&self) -> Map<Seq<char>, Seq<char>> {
        spec_assoc_map(self.entries@)
    }
}

/// The map an association list denotes; a later binding wins.
pub open spec fn spec_assoc_map(s: Seq<(String, String)>) -> Map<Seq<char>, Seq<char>>
    decreases s.len(),
{
    if s.len() == 0 {
        Map::empty()
    } else {
        spec_assoc_map(s.drop_last()).insert(s.last().0@, s.last().1@)
    }
}

impl ArgMap {
    /// Distinct keys, so that one scan finds the binding.
    pub closed spec fn wf(&self) -> bool {
        forall|i: int, j: int|
            0 <= i < j < self.entries@.len() ==> (#[trigger] self.entries@[i]).0@ != (
            #[trigger] self.entries@[j]).0@
    }

    /// An empty mapping.
    pub fn new() -> (r: ArgMap)
        ensures
            r@ == Map::<Seq<char>, Seq<char>>::empty(),
            r.wf(),
    {
        ArgMap { entries: Vec::new() }
    }

    /// The position of `k`, if bound.
    fn position(&self, k: &str) -> (r: Option<usize>)
        ensures
            r matches Some(i) ==> 0 <= i < self.entries@.len() && self.entries@[
                i as int
            ].0@ == k@,
            r is None ==> forall|i: int|
                0 <= i < self.entries@.len() ==> (#[trigger] self.entries@[i]).0@ != k@,
    {
        let mut i: usize = 0;
        while i < self.entries.len()
            invariant
                0 <= i <= self.entries@.len(),
                forall|j: int| 0 <= j < i ==> (#[trigger] self.entries@[j]).0@ != k@,
            decreases self.entries@.len() - i,
        {
            if str_eq(self.entries[i].0.as_str(), k) {
                return Some(i);
            }
            i += 1;
        }
        None
    }

    /// The key's binding is the value of the entry that carries it.
    proof fn lemma_lookup(s: Seq<(String, String)>, i: int)
        requires
            0 <= i < s.len(),
            forall|p: int, q: int|
                0 <= p < q < s.len() ==> (#[trigger] s[p]).0@ != (#[trigger] s[q]).0@,
        ensures
            spec_assoc_map(s).contains_key(s[i].0@),
            spec_assoc_map(s)[s[i].0@] == s[i].1@,
        decreases s.len(),
    {
        if i < s.len() - 1 {
            assert(s.drop_last()[i] == s[i]);
            Self::lemma_lookup(s.drop_last(), i);
            assert(s[i].0@ != s.last().0@);
        }
    }

    /// An unbound name is in no entry.
    proof fn lemma_absent(s: Seq<(String, String)>, k: Seq<char>)
        requires
            forall|i: int| 0 <= i < s.len() ==> (#[trigger] s[i]).0@ != k,
        ensures
            !spec_assoc_map(s).contains_key(k),
        decreases s.len(),
    {
        if s.len() > 0 {
            Self::lemma_absent(s.drop_last(), k);
        }
    }

    /// Whether `k` is bound.
    pub fn contains_key(&self, k: &str) -> (r: bool)
        requires
            self.wf(),
        ensures
            r == self@.contains_key(k@),
    {
        match self.position(k) {
            Some(i) => {
                proof {
                    Self::lemma_lookup(self.entries@, i as int);
                }
                true
            },
            None => {
                proof {
                    Self::lemma_absent(self.entries@, k@);
                }
                false
            },
        }
    }

    /// The value bound to `k`, if any.
    pub fn get(&self, k: &str) -> (r: Option<&String>)
        requires
            self.wf(),
        ensures
            r is Some <==> self@.contains_key(k@),
            r matches Some(v) ==> self@.contains_key(k@) && v@ == self@[k@],
    {
        match self.position(k) {
            Some(i) => {
                proof {
                    Self::lemma_lookup(self.entries@, i as int);
                }
                Some(&self.entries[i].1)
            },
            None => {
                proof {
                    Self::lemma_absent(self.entries@, k@);
                }
                None
            },
        }
    }

    /// Binds `k` to `v`, replacing any earlier binding.
    pub fn insert(&mut self, k: String, v: String)
        requires
            old(self).wf(),
        ensures
            final(self).wf(),
            final(self)@ == old(self)@.insert(k@, v@),
    {
        let ghost old_entries = self.entries@;
        match self.position(k.as_str()) {
            Some(i) => {
                proof {
                    Self::lemma_lookup(self.entries@, i as int);
                }
                self.entries.set(i, (k, v));
                proof {
                    Self::lemma_set_is_insert(old_entries, self.entries@, i as int);
                }
            },
            None => {
                self.entries.push((k, v));
                proof {
                    assert(self.entries@.drop_last() =~= old_entries);
                }
            },
        }
    }

    /// Overwriting the entry that holds a key updates exactly that key's
    /// binding.
    proof fn lemma_set_is_insert(s: Seq<(String, String)>, t: Seq<(String, String)>, i: int)
        requires
            0 <= i < s.len(),
            t.len() == s.len(),
            t[i].0@ == s[i].0@,
            forall|j: int| 0 <= j < s.len() && j != i ==> t[j] == s[j],
            forall|p: int, q: int|
                0 <= p < q < s.len() ==> (#[trigger] s[p]).0@ != (#[trigger] s[q]).0@,
        ensures
            spec_assoc_map(t) == spec_assoc_map(s).insert(t[i].0@, t[i].1@),
            forall|p: int, q: int|
                0 <= p < q < t.len() ==> (#[trigger] t[p]).0@ != (#[trigger] t[q]).0@,
        decreases s.len(),
    {
        assert(forall|j: int| 0 <= j < t.len() ==> (#[trigger] t[j]).0@ == s[j].0@);
        if i == s.len() - 1 {
            assert(t.drop_last() =~= s.drop_last());
            assert(spec_assoc_map(t) == spec_assoc_map(s.drop_last()).insert(
                t[i].0@,
                t[i].1@,
            ));
            assert(spec_assoc_map(s).insert(t[i].0@, t[i].1@) =~= spec_assoc_map(
                s.drop_last(),
            ).insert(t[i].0@, t[i].1@));
        } else {
            assert(forall|j: int|
                0 <= j < s.len() - 1 && j != i ==> (#[trigger] t.drop_last()[j])
                    == s.drop_last()[j]);
            assert(t.drop_last()[i] == t[i]);
            assert(s.drop_last()[i] == s[i]);
            Self::lemma_set_is_insert(s.drop_last(), t.drop_last(), i);
            assert(t.last() == s.last());
            assert(s[i].0@ != s.last().0@);
            assert(spec_assoc_map(t) == spec_assoc_map(s.drop_last()).insert(
                t[i].0@,
                t[i].1@,
            ).insert(s.last().0@, s.last().1@));
            assert(spec_assoc_map(s).insert(t[i].0@, t[i].1@) =~= spec_assoc_map(
                s.drop_last(),
            ).insert(t[i].0@, t[i].1@).insert(s.last().0@, s.last().1@));
        }
    }
}

// ---------------------------------------------------------------------------
// Token classification and option lookup
// ---------------------------------------------------------------------------
/// A long-option token: it starts with two dashes.
pub open spec fn spec_is_long(t: Seq<char>) -> bool {
    t.len() >= 2 && t[0] == '-' && t[1] == '-'
}

/// A short-option token: one dash, at least one more character, and the
/// second character is not a digit (so negative numbers stay positional).
pub open spec fn spec_is_short(t: Seq<char>) -> bool {
    !spec_is_long(t) && t.len() > 1 && t[0] == '-' && !spec_is_digit(t[1])
}

/// The index of the first `=`, or -1.
pub open spec fn spec_find_eq(s: Seq<char>) -> int
    decreases s.len(),
{
    if s.len() == 0 {
        -1
    } else if s[0] == '=' {
        0
    } else {
        let r = spec_find_eq(s.drop_first());
        if r == -1 {
            -1
        } else {
            r + 1
        }
    }
}

proof fn lemma_find_eq(s: Seq<char>)
    ensures
        spec_find_eq(s) >= -1,
        spec_find_eq(s) == -1 ==> forall|j: int| 0 <= j < s.len() ==> s[j] != '=',
        spec_find_eq(s) >= 0 ==> 0 <= spec_find_eq(s) < s.len() && s[spec_find_eq(s)] == '='
            && forall|j: int| 0 <= j < spec_find_eq(s) ==> s[j] != '=',
    decreases s.len(),
{
    if s.len() == 0 {
    } else if s[0] == '=' {
    } else {
        lemma_find_eq(s.drop_first());
        let r = spec_find_eq(s.drop_first());
        if r == -1 {
            assert forall|j: int| 0 <= j < s.len() implies s[j] != '=' by {
                if j > 0 {
                    assert(s.drop_first()[j - 1] == s[j]);
                }
            }
        } else {
            assert(s.drop_first()[r] == s[r + 1]);
            assert forall|j: int| 0 <= j < r + 1 implies s[j] != '=' by {
                if j > 0 {
                    assert(s.drop_first()[j - 1] == s[j]);
                }
            }
        }
    }
}

/// The index of the first option whose long form is `n`, or -1.
pub open spec fn spec_find_long(opts: Seq<OptionDefinition>, n: Seq<char>) -> int
    decreases opts.len(),
{
    if opts.len() == 0 {
        -1
    } else if opts[0].long matches Some(l) && l@ == n {
        0
    } else {
        let r = spec_find_long(opts.drop_first(), n);
        if r == -1 {
            -1
        } else {
            r + 1
        }
    }
}

proof fn lemma_find_long(opts: Seq<OptionDefinition>, n: Seq<char>)
    ensures
        spec_find_long(opts, n) >= -1,
        spec_find_long(opts, n) == -1 ==> forall|j: int|
            0 <= j < opts.len() ==> !((#[trigger] opts[j]).long matches Some(l) && l@ == n),
        spec_find_long(opts, n) >= 0 ==> 0 <= spec_find_long(opts, n) < opts.len() && (opts[
            spec_find_long(opts, n)
        ].long matches Some(l) && l@ == n) && forall|j: int|
            0 <= j < spec_find_long(opts, n) ==> !((#[trigger] opts[j]).long matches Some(l)
                && l@ == n),
    decreases opts.len(),
{
    if opts.len() == 0 {
    } else if opts[0].long matches Some(l) && l@ == n {
    } else {
        lemma_find_long(opts.drop_first(), n);
        let r = spec_find_long(opts.drop_first(), n);
        if r == -1 {
            assert forall|j: int|
                0 <= j < opts.len() implies !((#[trigger] opts[j]).long matches Some(l) && l@
                == n) by {
                if j > 0 {
                    assert(opts.drop_first()[j - 1] == opts[j]);
                }
            }
        } else {
            assert(opts.drop_first()[r] == opts[r + 1]);
            assert forall|j: int|
                0 <= j < r + 1 implies !((#[trigger] opts[j]).long matches Some(l) && l@ == n) by {
                if j > 0 {
                    assert(opts.drop_first()[j - 1] == opts[j]);
                }
            }
        }
    }
}

/// The index of the first option whose short form is the single character
/// `c`, or -1.
pub open spec fn spec_find_short(opts: Seq<OptionDefinition>, c: char) -> int
    decreases opts.len(),
{
    if opts.len() == 0 {
        -1
    } else if opts[0].short matches Some(s) && s@ == seq![c] {
        0
    } else {
        let r = spec_find_short(opts.drop_first(), c);
        if r == -1 {
            -1
        } else {
            r + 1
        }
    }
}

proof fn lemma_find_short(opts: Seq<OptionDefinition>, c: char)
    ensures
        spec_find_short(opts, c) >= -1,
        spec_find_short(opts, c) == -1 ==> forall|j: int|
            0 <= j < opts.len() ==> !((#[trigger] opts[j]).short matches Some(s) && s@ == seq![c]),
        spec_find_short(opts, c) >= 0 ==> 0 <= spec_find_short(opts, c) < opts.len() && (opts[
            spec_find_short(opts, c)
        ].short matches Some(s) && s@ == seq![c]) && forall|j: int|
            0 <= j < spec_find_short(opts, c) ==> !((#[trigger] opts[j]).short matches Some(s)
                && s@ == seq![c]),
    decreases opts.len(),
{
    if opts.len() == 0 {
    } else if opts[0].short matches Some(s) && s@ == seq![c] {
    } else {
        lemma_find_short(opts.drop_first(), c);
        let r = spec_find_short(opts.drop_first(), c);
        if r == -1 {
            assert forall|j: int|
                0 <= j < opts.len() implies !((#[trigger] opts[j]).short matches Some(s) && s@
                == seq![c]) by {
                if j > 0 {
                    assert(opts.drop_first()[j - 1] == opts[j]);
                }
            }
        } else {
            assert(opts.drop_first()[r] == opts[r + 1]);
            assert forall|j: int|
                0 <= j < r + 1 implies !((#[trigger] opts[j]).short matches Some(s) && s@
                == seq![c]) by {
                if j > 0 {
                    assert(opts.drop_first()[j - 1] == opts[j]);
                }
            }
        }
    }
}

/// The declared long forms, in declaration order.
pub open spec fn spec_longs(opts: Seq<OptionDefinition>) -> Seq<Seq<char>>
    decreases opts.len(),
{
    if opts.len() == 0 {
        Seq::empty()
    } else {
        spec_longs(opts.drop_last()) + (match opts.last().long {
            Some(l) => seq![l@],
            None => Seq::<Seq<char>>::empty(),
        })
    }
}

/// The declared short forms, in declaration order.
pub open spec fn spec_shorts(opts: Seq<OptionDefinition>) -> Seq<Seq<char>>
    decreases opts.len(),
{
    if opts.len() == 0 {
        Seq::empty()
    } else {
        spec_shorts(opts.drop_last()) + (match opts.last().short {
            Some(s) => seq![s@],
            None => Seq::<Seq<char>>::empty(),
        })
    }
}

// ---------------------------------------------------------------------------
// The reference semantics of one parse
// ---------------------------------------------------------------------------
/// The abstract outcome of a failed parse: which error, with which data.
pub enum SpecParseError {
    /// An option token that matches no declared form; `available` is the
    /// candidate list suggestions are drawn from.
    UnknownOpt { flag: Seq<char>, available: Seq<Seq<char>> },
    /// A non-boolean option at the end of the token list, with no value.
    MissingValue { flag: Seq<char> },
    /// More positionals than declared.
    TooMany { expected: int, got: int },
    /// A value (or a configured default) that does not coerce.
    TypeErr { value: Seq<char>, ty: ArgumentType },
    /// A required positional absent from the result.
    MissingArg { name: Seq<char> },
    /// A required option absent from the result.
    MissingOpt { name: Seq<char> },
}

/// One left-to-right walk over the tokens: classify each, look options up,
/// coerce values, and accumulate the mapping.
pub open spec fn spec_parse_tokens(
    d: CommandDefinition,
    toks: Seq<Seq<char>>,
    i: int,
    p: int,
    m: Map<Seq<char>, Seq<char>>,
) -> Result<Map<Seq<char>, Seq<char>>, SpecParseError>
    decreases toks.len() - i,
{
    if i < 0 || i >= toks.len() {
        Ok(m)
    } else {
        let t = toks[i];
        if spec_is_long(t) {
            let rest = t.skip(2);
            let eq = spec_find_eq(rest);
            if eq >= 0 {
                let name = rest.take(eq);
                let value = rest.skip(eq + 1);
                let oi = spec_find_long(d.options@, name);
                if oi < 0 {
                    Err(
                        SpecParseError::UnknownOpt {
                            flag: seq!['-', '-'] + name,
                            available: spec_longs(d.options@),
                        },
                    )
                } else {
                    let o = d.options@[oi];
                    if spec_coerces(value, o.option_type) {
                        spec_parse_tokens(d, toks, i + 1, p, m.insert(o.name@, value))
                    } else {
                        Err(SpecParseError::TypeErr { value, ty: o.option_type })
                    }
                }
            } else {
                let oi = spec_find_long(d.options@, rest);
                if oi < 0 {
                    Err(
                        SpecParseError::UnknownOpt {
                            flag: seq!['-', '-'] + rest,
                            available: spec_longs(d.options@),
                        },
                    )
                } else {
                    let o = d.options@[oi];
                    if o.option_type is Bool {
                        spec_parse_tokens(d, toks, i + 1, p, m.insert(o.name@, seq!['t', 'r', 'u', 'e']))
                    } else if i + 1 >= toks.len() {
                        Err(SpecParseError::MissingValue { flag: seq!['-', '-'] + rest })
                    } else {
                        let value = toks[i + 1];
                        if spec_coerces(value, o.option_type) {
                            spec_parse_tokens(d, toks, i + 2, p, m.insert(o.name@, value))
                        } else {
                            Err(SpecParseError::TypeErr { value, ty: o.option_type })
                        }
                    }
                }
            }
        } else if spec_is_short(t) {
            let c = t[1];
            let oi = spec_find_short(d.options@, c);
            if oi < 0 {
                Err(
                    SpecParseError::UnknownOpt {
                        flag: seq!['-', c],
                        available: spec_shorts(d.options@),
                    },
                )
            } else {
                let o = d.options@[oi];
                if o.option_type is Bool {
                    spec_parse_tokens(d, toks, i + 1, p, m.insert(o.name@, seq!['t', 'r', 'u', 'e']))
                } else if t.len() > 2 {
                    let value = t.skip(2);
                    if spec_coerces(value, o.option_type) {
                        spec_parse_tokens(d, toks, i + 1, p, m.insert(o.name@, value))
                    } else {
                        Err(SpecParseError::TypeErr { value, ty: o.option_type })
                    }
                } else if i + 1 >= toks.len() {
                    Err(SpecParseError::MissingValue { flag: seq!['-', c] })
                } else {
                    let value = toks[i + 1];
                    if spec_coerces(value, o.option_type) {
                        spec_parse_tokens(d, toks, i + 2, p, m.insert(o.name@, value))
                    } else {
                        Err(SpecParseError::TypeErr { value, ty: o.option_type })
                    }
                }
            }
        } else {
            if p >= d.arguments@.len() {
                Err(SpecParseError::TooMany { expected: d.arguments@.len() as int, got: p + 1 })
            } else {
                let a = d.arguments@[p];
                if spec_coerces(t, a.arg_type) {
                    spec_parse_tokens(d, toks, i + 1, p + 1, m.insert(a.name@, t))
                } else {
                    Err(SpecParseError::TypeErr { value: t, ty: a.arg_type })
                }
            }
        }
    }
}

/// Coerce and insert the configured default of every option the tokens did
/// not set.
pub open spec fn spec_apply_defaults(
    d: CommandDefinition,
    m: Map<Seq<char>, Seq<char>>,
    j: int,
) -> Result<Map<Seq<char>, Seq<char>>, SpecParseError>
    decreases d.options@.len() - j,
{
    if j < 0 || j >= d.options@.len() {
        Ok(m)
    } else {
        let o = d.options@[j];
        if !m.contains_key(o.name@) && o.default is Some {
            let dv = o.default->0@;
            if spec_coerces(dv, o.option_type) {
                spec_apply_defaults(d, m.insert(o.name@, dv), j + 1)
            } else {
                Err(SpecParseError::TypeErr { value: dv, ty: o.option_type })
            }
        } else {
            spec_apply_defaults(d, m, j + 1)
        }
    }
}

/// The first required positional absent from the mapping, or -1.
pub open spec fn spec_first_missing_arg(
    d: CommandDefinition,
    m: Map<Seq<char>, Seq<char>>,
    j: int,
) -> int
    decreases d.arguments@.len() - j,
{
    if j < 0 || j >= d.arguments@.len() {
        -1
    } else if d.arguments@[j].required && !m.contains_key(d.arguments@[j].name@) {
        j
    } else {
        spec_first_missing_arg(d, m, j + 1)
    }
}

/// The first required option absent from the mapping, or -1.
pub open spec fn spec_first_missing_opt(
    d: CommandDefinition,
    m: Map<Seq<char>, Seq<char>>,
    j: int,
) -> int
    decreases d.options@.len() - j,
{
    if j < 0 || j >= d.options@.len() {
        -1
    } else if d.options@[j].required && !m.contains_key(d.options@[j].name@) {
        j
    } else {
        spec_first_missing_opt(d, m, j + 1)
    }
}

/// How a missing option is reported: by its long form, else its short
/// form, else the empty string.
pub open spec fn spec_opt_report_name(o: OptionDefinition) -> Seq<char> {
    match o.long {
        Some(l) => l@,
        None => match o.short {
            Some(s) => s@,
            None => Seq::empty(),
        },
    }
}

/// What one parse of `toks` against `d` produces.
pub open spec fn spec_parse(d: CommandDefinition, toks: Seq<Seq<char>>) -> Result<
    Map<Seq<char>, Seq<char>>,
    SpecParseError,
> {
    match spec_parse_tokens(d, toks, 0, 0, Map::empty()) {
        Err(e) => Err(e),
        Ok(m1) => match spec_apply_defaults(d, m1, 0) {
            Err(e) => Err(e),
            Ok(m2) => {
                let ai = spec_first_missing_arg(d, m2, 0);
                if ai >= 0 {
                    Err(SpecParseError::MissingArg { name: d.arguments@[ai].name@ })
                } else {
                    let oi = spec_first_missing_opt(d, m2, 0);
                    if oi >= 0 {
                        Err(
                            SpecParseError::MissingOpt {
                                name: spec_opt_report_name(d.options@[oi]),
                            },
                        )
                    } else {
                        Ok(m2)
                    }
                }
            },
        },
    }
}

/// How a concrete error value realises an abstract one.
pub open spec fn spec_err_corresponds(
    e: DynamicCliError,
    se: SpecParseError,
    d: CommandDefinition,
) -> bool {
    match se {
        SpecParseError::UnknownOpt { flag, available } => e matches DynamicCliError::Parse(
            ParseError::UnknownOption { flag: f, command, suggestions },
        ) && f@ == flag && command@ == d.name@ && suggestions.deep_view() == spec_suggestions(
            flag,
            available,
            2,
        ),
        SpecParseError::MissingValue { flag } => e matches DynamicCliError::Parse(
            ParseError::InvalidSyntax { details, hint },
        ) && details@ == "option "@ + flag + " requires a value"@ && hint is Some,
        SpecParseError::TooMany { expected, got } => e matches DynamicCliError::Parse(
            ParseError::TooManyArguments { command, expected: ex, got: g },
        ) && command@ == d.name@ && ex == expected && g == got,
        SpecParseError::TypeErr { value, ty } => spec_type_error(e, value, ty),
        SpecParseError::MissingArg { name } => e matches DynamicCliError::Parse(
            ParseError::MissingArgument { argument, command },
        ) && argument@ == name && command@ == d.name@,
        SpecParseError::MissingOpt { name } => e matches DynamicCliError::Parse(
            ParseError::MissingOption { option, command },
        ) && option@ == name && command@ == d.name@,
    }
}

// ---------------------------------------------------------------------------
// The parser
// ---------------------------------------------------------------------------
/// Parses pre-split argument lists against one command definition.
pub struct CliParser<'a> {
    definition: &'a CommandDefinition,
}

impl<'a> CliParser<'a> {
    /// The definition this parser works against.
    pub closed spec fn spec_definition(&self) -> CommandDefinition {
        *self.definition
    }

    /// A parser for the given command definition.
    pub fn new(definition: &'a CommandDefinition) -> (r: CliParser<'a>)
        ensures
            r.spec_definition() == *definition,
    {
        CliParser { definition }
    }

    /// The first option with the given long form, or the unknown-option
    /// error, enriched with suggestions drawn from the declared long forms.
    fn find_option_by_long(&self, name: &Vec<char>) -> (r: Result<usize, DynamicCliError>)
        ensures
            r matches Ok(i) ==> 0 <= i < self.spec_definition().options@.len() && i
                == spec_find_long(self.spec_definition().options@, name@),
            r is Err <==> spec_find_long(self.spec_definition().options@, name@) < 0,
            r matches Err(e) ==> spec_err_corresponds(
                e,
                SpecParseError::UnknownOpt {
                    flag: seq!['-', '-'] + name@,
                    available: spec_longs(self.spec_definition().options@),
                },
                self.spec_definition(),
            ),
    {
        let ghost opts = self.definition.options@;
        proof {
            lemma_find_long(opts, name@);
        }
        let opts_ref = &self.definition.options;
        let mut i: usize = 0;
        while i < opts_ref.len()
            invariant
                0 <= i <= opts.len(),
                opts == self.definition.options@,
                opts_ref == &self.definition.options,
                forall|j: int|
                    0 <= j < i ==> !((#[trigger] opts[j]).long matches Some(l) && l@ == name@),
            decreases opts.len() - i,
        {
            if let Some(l) = &opts_ref[i].long {
                let nm = string_from_chars(name);
                if str_eq(l.as_str(), nm.as_str()) {
                    proof {
                        let f = spec_find_long(opts, name@);
                        if f < 0 {
                            assert(!((#[trigger] opts[i as int]).long matches Some(l2) && l2@
                                == name@));
                        } else if f < i {
                            assert(!((#[trigger] opts[f]).long matches Some(l2) && l2@ == name@));
                        } else if f > i {
                            assert(!((#[trigger] opts[i as int]).long matches Some(l2) && l2@
                                == name@));
                        }
                    }
                    return Ok(i);
                }
            }
            i += 1;
        }
        // unknown long form: collect the declared long forms and suggest
        let mut available: Vec<String> = Vec::new();
        let mut k: usize = 0;
        while k < opts_ref.len()
            invariant
                0 <= k <= opts.len(),
                opts == self.definition.options@,
                opts_ref == &self.definition.options,
                available.deep_view() == spec_longs(opts.take(k as int)),
            decreases opts.len() - k,
        {
            proof {
                assert(opts.take(k + 1).drop_last() =~= opts.take(k as int));
                assert(opts.take(k + 1).last() == opts[k as int]);
            }
            if let Some(l) = &opts_ref[k].long {
                available.push(l.clone());
                assert(available.deep_view() =~= spec_longs(opts.take(k + 1)));
            } else {
                assert(available.deep_view() =~= spec_longs(opts.take(k + 1)));
            }
            k += 1;
        }
        assert(opts.take(opts.len() as int) =~= opts);
        let mut flag_chars: Vec<char> = Vec::new();
        flag_chars.push('-');
        flag_chars.push('-');
        let mut q: usize = 0;
        while q < name.len()
            invariant
                0 <= q <= name@.len(),
                flag_chars@ == seq!['-', '-'] + name@.take(q as int),
            decreases name@.len() - q,
        {
            flag_chars.push(name[q]);
            assert(flag_chars@ =~= seq!['-', '-'] + name@.take(q + 1));
            q += 1;
        }
        assert(name@.take(name@.len() as int) =~= name@);
        let flag = string_from_chars(&flag_chars);
        let err = ParseError::unknown_option_with_suggestions(
            flag.as_str(),
            self.definition.name.as_str(),
            available.as_slice(),
        );
        Err(DynamicCliError::Parse(err))
    }

    /// The first option with the given one-character short form, or the
    /// unknown-option error, with suggestions drawn from the short forms.
    fn find_option_by_short(&self, c: char) -> (r: Result<usize, DynamicCliError>)
        ensures
            r matches Ok(i) ==> 0 <= i < self.spec_definition().options@.len() && i
                == spec_find_short(self.spec_definition().options@, c),
            r is Err <==> spec_find_short(self.spec_definition().options@, c) < 0,
            r matches Err(e) ==> spec_err_corresponds(
                e,
                SpecParseError::UnknownOpt {
                    flag: seq!['-', c],
                    available: spec_shorts(self.spec_definition().options@),
                },
                self.spec_definition(),
            ),
    {
        let ghost opts = self.definition.options@;
        proof {
            lemma_find_short(opts, c);
        }
        let opts_ref = &self.definition.options;
        let mut single: Vec<char> = Vec::new();
        single.push(c);
        let needle = string_from_chars(&single);
        assert(needle@ =~= seq![c]);
        let mut i: usize = 0;
        while i < opts_ref.len()
            invariant
                0 <= i <= opts.len(),
                opts == self.definition.options@,
                opts_ref == &self.definition.options,
                needle@ == seq![c],
                forall|j: int|
                    0 <= j < i ==> !((#[trigger] opts[j]).short matches Some(s) && s@ == seq![c]),
            decreases opts.len() - i,
        {
            if let Some(s) = &opts_ref[i].short {
                if str_eq(s.as_str(), needle.as_str()) {
                    proof {
                        let f = spec_find_short(opts, c);
                        if f < 0 {
                            assert(!((#[trigger] opts[i as int]).short matches Some(s2) && s2@
                                == seq![c]));
                        } else if f < i {
                            assert(!((#[trigger] opts[f]).short matches Some(s2) && s2@
                                == seq![c]));
                        } else if f > i {
                            assert(!((#[trigger] opts[i as int]).short matches Some(s2) && s2@
                                == seq![c]));
                        }
                    }
                    return Ok(i);
                }
            }
            i += 1;
        }
        let mut available: Vec<String> = Vec::new();
        let mut k: usize = 0;
        while k < opts_ref.len()
            invariant
                0 <= k <= opts.len(),
                opts == self.definition.options@,
                opts_ref == &self.definition.options,
                available.deep_view() == spec_shorts(opts.take(k as int)),
            decreases opts.len() - k,
        {
            proof {
                assert(opts.take(k + 1).drop_last() =~= opts.take(k as int));
                assert(opts.take(k + 1).last() == opts[k as int]);
            }
            if let Some(s) = &opts_ref[k].short {
                available.push(s.clone());
                assert(available.deep_view() =~= spec_shorts(opts.take(k + 1)));
            } else {
                assert(available.deep_view() =~= spec_shorts(opts.take(k + 1)));
            }
            k += 1;
        }
        assert(opts.take(opts.len() as int) =~= opts);
        let mut flag_chars: Vec<char> = Vec::new();
        flag_chars.push('-');
        flag_chars.push(c);
        assert(flag_chars@ =~= seq!['-', c]);
        let flag = string_from_chars(&flag_chars);
        let err = ParseError::unknown_option_with_suggestions(
            flag.as_str(),
            self.definition.name.as_str(),
            available.as_slice(),
        );
        Err(DynamicCliError::Parse(err))
    }

    /// The error for a flag that requires a value when none is left; the
    /// message names the flag.
    fn missing_value_error(&self, flag: &Vec<char>) -> (r: DynamicCliError)
        ensures
            spec_err_corresponds(
                r,
                SpecParseError::MissingValue { flag: flag@ },
                self.spec_definition(),
            ),
    {
        let mut details = "option ".to_owned();
        let flag_str = string_from_chars(flag);
        details.append(flag_str.as_str());
        details.append(" requires a value");
        assert(details@ =~= "option "@ + flag@ + " requires a value"@);
        DynamicCliError::Parse(
            ParseError::InvalidSyntax {
                details,
                hint: Some("pass the value right after the flag, or attached to it".to_owned()),
            },
        )
    }

    /// Parses the token list: positionals by position, options by flag,
    /// every value coerced, defaults filled in, required fields enforced.
    /// The result, on success, is exactly what the reference walk
    /// `spec_parse` produces; each failure is the error that walk names.
    #[verifier::rlimit(100)]
    pub fn parse(&self, args: &Vec<String>) -> (r: Result<ArgMap, DynamicCliError>)
        ensures
            ({
                let outcome = spec_parse(self.spec_definition(), args.deep_view());
                &&& (r is Ok <==> outcome is Ok)
                &&& (r matches Ok(m) ==> outcome matches Ok(sm) && m@ == sm && m.wf())
                &&& (r matches Err(e) ==> outcome matches Err(se) && spec_err_corresponds(
                    e,
                    se,
                    self.spec_definition(),
                ))
            }),
    {
        let ghost d = *self.definition;
        let ghost toks = args.deep_view();
        let mut result = ArgMap::new();
        let mut positional_index: usize = 0;
        let mut i: usize = 0;
        proof {
            assert(toks.len() == args@.len());
        }
        while i < args.len()
            invariant
                0 <= i <= args@.len(),
                0 <= positional_index <= i,
                d == *self.definition,
                toks == args.deep_view(),
                toks.len() == args@.len(),
                result.wf(),
                spec_parse_tokens(d, toks, 0, 0, Map::empty()) == spec_parse_tokens(
                    d,
                    toks,
                    i as int,
                    positional_index as int,
                    result@,
                ),
            decreases args@.len() - i,
        {
            let tok = chars_of(args[i].as_str());
            proof {
                assert(toks[i as int] == args@[i as int]@);
                assert(tok@ == toks[i as int]);
            }
            let is_long = tok.len() >= 2 && tok[0] == '-' && tok[1] == '-';
            let is_short = !is_long && tok.len() > 1 && tok[0] == '-' && !crate::text::is_digit(
                tok[1],
            );
            if is_long {
                // --name=value or --name [value]
                let ghost rest = tok@.skip(2);
                proof {
                    lemma_find_eq(rest);
                }
                let mut eq_at: usize = 2;
                let mut has_eq = false;
                while eq_at < tok.len() && !has_eq
                    invariant
                        2 <= eq_at <= tok@.len(),
                        rest == tok@.skip(2),
                        !has_eq ==> forall|j: int| 0 <= j < eq_at - 2 ==> rest[j] != '=',
                        has_eq ==> 2 <= eq_at < tok@.len() && rest[eq_at - 2] == '=' && forall|
                            j: int,
                        | 0 <= j < eq_at - 2 ==> rest[j] != '=',
                    decreases tok@.len() - eq_at + (if has_eq {
                        0int
                    } else {
                        1int
                    }),
                {
                    assert(rest[eq_at - 2] == tok@[eq_at as int]);
                    if tok[eq_at] == '=' {
                        has_eq = true;
                    } else {
                        eq_at += 1;
                    }
                }
                if has_eq {
                    proof {
                        assert(spec_find_eq(rest) == eq_at - 2) by {
                            let f = spec_find_eq(rest);
                            if f == -1 {
                                assert(rest[eq_at - 2] != '=');
                            } else if f < eq_at - 2 {
                                assert(rest[f] != '=');
                            } else if f > eq_at - 2 {
                                assert(rest[eq_at - 2] != '=');
                            }
                        }
                    }
                    // split into name and value
                    let mut name: Vec<char> = Vec::new();
                    let mut q: usize = 2;
                    while q < eq_at
                        invariant
                            2 <= q <= eq_at <= tok@.len(),
                            name@ == tok@.subrange(2, q as int),
                        decreases eq_at - q,
                    {
                        name.push(tok[q]);
                        assert(name@ =~= tok@.subrange(2, q + 1));
                        q += 1;
                    }
                    assert(name@ =~= rest.take(eq_at - 2));
                    let mut value: Vec<char> = Vec::new();
                    let mut q: usize = eq_at + 1;
                    while q < tok.len()
                        invariant
                            eq_at + 1 <= q <= tok@.len(),
                            value@ == tok@.subrange(eq_at + 1, q as int),
                        decreases tok@.len() - q,
                    {
                        value.push(tok[q]);
                        assert(value@ =~= tok@.subrange(eq_at + 1, q + 1));
                        q += 1;
                    }
                    assert(value@ =~= rest.skip(eq_at - 2 + 1));
                    match self.find_option_by_long(&name) {
                        Err(e) => {
                            return Err(e);
                        },
                        Ok(oi) => {
                            let opt_name = self.definition.options[oi].name.clone();
                            let value_str = string_from_chars(&value);
                            match parse_value(value_str.as_str(), self.definition.options[oi].option_type) {
                                Err(e) => {
                                    return Err(e);
                                },
                                Ok(parsed) => {
                                    result.insert(opt_name, parsed);
                                },
                            }
                        },
                    }
                    i += 1;
                } else {
                    proof {
                        assert(spec_find_eq(rest) == -1) by {
                            if spec_find_eq(rest) >= 0 {
                                assert(rest[spec_find_eq(rest)] != '=');
                            }
                        }
                    }
                    let mut name: Vec<char> = Vec::new();
                    let mut q: usize = 2;
                    while q < tok.len()
                        invariant
                            2 <= q <= tok@.len(),
                            name@ == tok@.subrange(2, q as int),
                        decreases tok@.len() - q,
                    {
                        name.push(tok[q]);
                        assert(name@ =~= tok@.subrange(2, q + 1));
                        q += 1;
                    }
                    assert(name@ =~= rest);
                    match self.find_option_by_long(&name) {
                        Err(e) => {
                            return Err(e);
                        },
                        Ok(oi) => {
                            let opt_name = self.definition.options[oi].name.clone();
                            if matches!(self.definition.options[oi].option_type, ArgumentType::Bool) {
                                result.insert(opt_name, "true".to_owned());
                                proof {
                                    crate::text::lemma_true_chars();
                                }
                                i += 1;
                            } else {
                                if i + 1 >= args.len() {
                                    let mut flag_chars: Vec<char> = Vec::new();
                                    flag_chars.push('-');
                                    flag_chars.push('-');
                                    let mut q: usize = 0;
                                    while q < name.len()
                                        invariant
                                            0 <= q <= name@.len(),
                                            flag_chars@ == seq!['-', '-'] + name@.take(q as int),
                                        decreases name@.len() - q,
                                    {
                                        flag_chars.push(name[q]);
                                        assert(flag_chars@ =~= seq!['-', '-'] + name@.take(
                                            q + 1,
                                        ));
                                        q += 1;
                                    }
                                    assert(name@.take(name@.len() as int) =~= name@);
                                    let e = self.missing_value_error(&flag_chars);
                                    proof {
                                        assert(flag_chars@ =~= seq!['-', '-'] + rest);
                                        assert(spec_err_corresponds(
                                            e,
                                            SpecParseError::MissingValue {
                                                flag: seq!['-', '-'] + rest,
                                            },
                                            d,
                                        ));
                                    }
                                    return Err(e);
                                }
                                let value_ref = &args[i + 1];
                                proof {
                                    assert(toks[i + 1] == args@[i + 1]@);
                                }
                                match parse_value(value_ref.as_str(), self.definition.options[oi].option_type) {
                                    Err(e) => {
                                        return Err(e);
                                    },
                                    Ok(parsed) => {
                                        result.insert(opt_name, parsed);
                                    },
                                }
                                i += 2;
                            }
                        },
                    }
                }
            } else if is_short {
                let c = tok[1];
                match self.find_option_by_short(c) {
                    Err(e) => {
                        return Err(e);
                    },
                    Ok(oi) => {
                        let opt_name = self.definition.options[oi].name.clone();
                        if matches!(self.definition.options[oi].option_type, ArgumentType::Bool) {
                            result.insert(opt_name, "true".to_owned());
                            proof {
                                crate::text::lemma_true_chars();
                            }
                            i += 1;
                        } else if tok.len() > 2 {
                            // attached value
                            let mut value: Vec<char> = Vec::new();
                            let mut q: usize = 2;
                            while q < tok.len()
                                invariant
                                    2 <= q <= tok@.len(),
                                    value@ == tok@.subrange(2, q as int),
                                decreases tok@.len() - q,
                            {
                                value.push(tok[q]);
                                assert(value@ =~= tok@.subrange(2, q + 1));
                                q += 1;
                            }
                            assert(value@ =~= tok@.skip(2));
                            let value_str = string_from_chars(&value);
                            match parse_value(value_str.as_str(), self.definition.options[oi].option_type) {
                                Err(e) => {
                                    return Err(e);
                                },
                                Ok(parsed) => {
                                    result.insert(opt_name, parsed);
                                },
                            }
                            i += 1;
                        } else {
                            if i + 1 >= args.len() {
                                let mut flag_chars: Vec<char> = Vec::new();
                                flag_chars.push('-');
                                flag_chars.push(c);
                                assert(flag_chars@ =~= seq!['-', c]);
                                return Err(self.missing_value_error(&flag_chars));
                            }
                            let value_ref = &args[i + 1];
                            proof {
                                assert(toks[i + 1] == args@[i + 1]@);
                            }
                            match parse_value(value_ref.as_str(), self.definition.options[oi].option_type) {
                                Err(e) => {
                                    return Err(e);
                                },
                                Ok(parsed) => {
                                    result.insert(opt_name, parsed);
                                },
                            }
                            i += 2;
                        }
                    },
                }
            } else {
                // positional
                if positional_index >= self.definition.arguments.len() {
                    return Err(
                        DynamicCliError::Parse(
                            ParseError::TooManyArguments {
                                command: self.definition.name.clone(),
                                expected: self.definition.arguments.len(),
                                got: positional_index + 1,
                            },
                        ),
                    );
                }
                let arg_def_name = self.definition.arguments[positional_index].name.clone();
                match parse_value(
                    args[i].as_str(),
                    self.definition.arguments[positional_index].arg_type,
                ) {
                    Err(e) => {
                        return Err(e);
                    },
                    Ok(parsed) => {
                        result.insert(arg_def_name, parsed);
                    },
                }
                positional_index += 1;
                i += 1;
            }
        }
        // defaults, then required fields
        match self.apply_defaults(&mut result) {
            Err(e) => {
                return Err(e);
            },
            Ok(_) => {},
        }
        match self.validate_required_arguments(&result) {
            Err(e) => {
                return Err(e);
            },
            Ok(_) => {},
        }
        match self.validate_required_options(&result) {
            Err(e) => {
                return Err(e);
            },
            Ok(_) => {},
        }
        Ok(result)
    }

    /// Coerces and inserts the default of every option the tokens did not
    /// set.
    fn apply_defaults(&self, result: &mut ArgMap) -> (r: Result<(), DynamicCliError>)
        requires
            old(result).wf(),
        ensures
            final(result).wf(),
            ({
                let outcome = spec_apply_defaults(self.spec_definition(), old(result)@, 0);
                &&& (r is Ok <==> outcome is Ok)
                &&& (r is Ok ==> (outcome matches Ok(sm) && final(result)@ == sm))
                &&& (r matches Err(e) ==> outcome matches Err(se) && spec_err_corresponds(
                    e,
                    se,
                    self.spec_definition(),
                ))
            }),
    {
        let ghost d = *self.definition;
        let ghost m0 = old(result)@;
        let mut j: usize = 0;
        while j < self.definition.options.len()
            invariant
                0 <= j <= d.options@.len(),
                d == *self.definition,
                result.wf(),
                spec_apply_defaults(d, m0, 0) == spec_apply_defaults(d, result@, j as int),
            decreases d.options@.len() - j,
        {
            let opt = &self.definition.options[j];
            if !result.contains_key(opt.name.as_str()) {
                if let Some(default) = &opt.default {
                    match parse_value(default.as_str(), opt.option_type) {
                        Err(e) => {
                            return Err(e);
                        },
                        Ok(parsed) => {
                            result.insert(opt.name.clone(), parsed);
                        },
                    }
                }
            }
            j += 1;
        }
        Ok(())
    }

    /// Fails with the first required positional absent from the result.
    fn validate_required_arguments(&self, result: &ArgMap) -> (r: Result<(), DynamicCliError>)
        requires
            result.wf(),
        ensures
            ({
                let ai = spec_first_missing_arg(self.spec_definition(), result@, 0);
                &&& (r is Ok <==> ai < 0)
                &&& (r matches Err(e) ==> ai >= 0 && spec_err_corresponds(
                    e,
                    SpecParseError::MissingArg {
                        name: self.spec_definition().arguments@[ai].name@,
                    },
                    self.spec_definition(),
                ))
            }),
    {
        let ghost d = *self.definition;
        let mut j: usize = 0;
        while j < self.definition.arguments.len()
            invariant
                0 <= j <= d.arguments@.len(),
                d == *self.definition,
                result.wf(),
                spec_first_missing_arg(d, result@, 0) == spec_first_missing_arg(
                    d,
                    result@,
                    j as int,
                ),
            decreases d.arguments@.len() - j,
        {
            let arg = &self.definition.arguments[j];
            if arg.required && !result.contains_key(arg.name.as_str()) {
                return Err(
                    DynamicCliError::Parse(
                        ParseError::MissingArgument {
                            argument: arg.name.clone(),
                            command: self.definition.name.clone(),
                        },
                    ),
                );
            }
            j += 1;
        }
        Ok(())
    }

    /// Fails with the first required option absent from the result.
    fn validate_required_options(&self, result: &ArgMap) -> (r: Result<(), DynamicCliError>)
        requires
            result.wf(),
        ensures
            ({
                let oi = spec_first_missing_opt(self.spec_definition(), result@, 0);
                &&& (r is Ok <==> oi < 0)
                &&& (r matches Err(e) ==> oi >= 0 && spec_err_corresponds(
                    e,
                    SpecParseError::MissingOpt {
                        name: spec_opt_report_name(self.spec_definition().options@[oi]),
                    },
                    self.spec_definition(),
                ))
            }),
    {
        let ghost d = *self.definition;
        let mut j: usize = 0;
        while j < self.definition.options.len()
            invariant
                0 <= j <= d.options@.len(),
                d == *self.definition,
                result.wf(),
                spec_first_missing_opt(d, result@, 0) == spec_first_missing_opt(
                    d,
                    result@,
                    j as int,
                ),
            decreases d.options@.len() - j,
        {
            let opt = &self.definition.options[j];
            if opt.required && !result.contains_key(opt.name.as_str()) {
                let reported = match &opt.long {
                    Some(l) => l.clone(),
                    None => match &opt.short {
                        Some(s) => s.clone(),
                        None => String::new(),
                    },
                };
                return Err(
                    DynamicCliError::Parse(
                        ParseError::MissingOption {
                            option: reported,
                            command: self.definition.name.clone(),
                        },
                    ),
                );
            }
            j += 1;
        }
        Ok(())
    }
}

// ---------------------------------------------------------------------------
// What a successful parse binds
// ---------------------------------------------------------------------------
/// Whether `k` is a declared field name of the command: a positional's
/// name or an option's name.
pub open spec fn spec_is_field_name(d: CommandDefinition, k: Seq<char>) -> bool {
    ||| exists|j: int| 0 <= j < d.arguments@.len() && (#[trigger] d.arguments@[j]).name@ == k
    ||| exists|j: int| 0 <= j < d.options@.len() && (#[trigger] d.options@[j]).name@ == k
}

proof fn lemma_parse_tokens_domain(
    d: CommandDefinition,
    toks: Seq<Seq<char>>,
    i: int,
    p: int,
    m: Map<Seq<char>, Seq<char>>,
)
    requires
        0 <= i,
        0 <= p,
        spec_parse_tokens(d, toks, i, p, m) is Ok,
    ensures
        forall|k: Seq<char>|
            #[trigger] spec_parse_tokens(d, toks, i, p, m)->Ok_0.contains_key(k)
                ==> m.contains_key(k) || spec_is_field_name(d, k),
    decreases toks.len() - i,
{
    if i < 0 || i >= toks.len() {
    } else {
        let t = toks[i];
        if spec_is_long(t) {
            let rest = t.skip(2);
            let eq = spec_find_eq(rest);
            if eq >= 0 {
                let name = rest.take(eq);
                let oi = spec_find_long(d.options@, name);
                lemma_find_long(d.options@, name);
                if oi >= 0 {
                    let o = d.options@[oi];
                    assert((#[trigger] d.options@[oi]).name@ == o.name@);
                    let value = rest.skip(eq + 1);
                    if spec_coerces(value, o.option_type) {
                        lemma_parse_tokens_domain(d, toks, i + 1, p, m.insert(o.name@, value));
                    }
                }
            } else {
                let oi = spec_find_long(d.options@, rest);
                lemma_find_long(d.options@, rest);
                if oi >= 0 {
                    let o = d.options@[oi];
                    assert((#[trigger] d.options@[oi]).name@ == o.name@);
                    if o.option_type is Bool {
                        lemma_parse_tokens_domain(
                            d,
                            toks,
                            i + 1,
                            p,
                            m.insert(o.name@, seq!['t', 'r', 'u', 'e']),
                        );
                    } else if i + 1 < toks.len() && spec_coerces(toks[i + 1], o.option_type) {
                        lemma_parse_tokens_domain(
                            d,
                            toks,
                            i + 2,
                            p,
                            m.insert(o.name@, toks[i + 1]),
                        );
                    }
                }
            }
        } else if spec_is_short(t) {
            let c = t[1];
            let oi = spec_find_short(d.options@, c);
            lemma_find_short(d.options@, c);
            if oi >= 0 {
                let o = d.options@[oi];
                assert((#[trigger] d.options@[oi]).name@ == o.name@);
                if o.option_type is Bool {
                    lemma_parse_tokens_domain(
                        d,
                        toks,
                        i + 1,
                        p,
                        m.insert(o.name@, seq!['t', 'r', 'u', 'e']),
                    );
                } else if t.len() > 2 {
                    if spec_coerces(t.skip(2), o.option_type) {
                        lemma_parse_tokens_domain(d, toks, i + 1, p, m.insert(o.name@, t.skip(2)));
                    }
                } else if i + 1 < toks.len() && spec_coerces(toks[i + 1], o.option_type) {
                    lemma_parse_tokens_domain(d, toks, i + 2, p, m.insert(o.name@, toks[i + 1]));
                }
            }
        } else {
            if p < d.arguments@.len() {
                let a = d.arguments@[p];
                assert((#[trigger] d.arguments@[p]).name@ == a.name@);
                if spec_coerces(t, a.arg_type) {
                    lemma_parse_tokens_domain(d, toks, i + 1, p + 1, m.insert(a.name@, t));
                }
            }
        }
    }
}

proof fn lemma_defaults_domain(d: CommandDefinition, m: Map<Seq<char>, Seq<char>>, j: int)
    requires
        0 <= j,
        spec_apply_defaults(d, m, j) is Ok,
    ensures
        forall|k: Seq<char>|
            #[trigger] spec_apply_defaults(d, m, j)->Ok_0.contains_key(k) ==> m.contains_key(k)
                || spec_is_field_name(d, k),
        forall|k: Seq<char>|
            m.contains_key(k) ==> #[trigger] spec_apply_defaults(d, m, j)->Ok_0.contains_key(k),
        forall|q: int|
            j <= q < d.options@.len() && (#[trigger] d.options@[q]).default is Some
                ==> spec_apply_defaults(d, m, j)->Ok_0.contains_key(d.options@[q].name@),
    decreases d.options@.len() - j,
{
    if j < 0 || j >= d.options@.len() {
    } else {
        let o = d.options@[j];
        assert((#[trigger] d.options@[j]).name@ == o.name@);
        if !m.contains_key(o.name@) && o.default is Some {
            let dv = o.default->0@;
            if spec_coerces(dv, o.option_type) {
                lemma_defaults_domain(d, m.insert(o.name@, dv), j + 1);
                assert(spec_apply_defaults(d, m, j)->Ok_0.contains_key(o.name@));
            }
        } else {
            lemma_defaults_domain(d, m, j + 1);
            if o.default is Some {
                assert(spec_apply_defaults(d, m, j)->Ok_0.contains_key(o.name@));
            }
        }
    }
}

proof fn lemma_no_missing_arg(d: CommandDefinition, m: Map<Seq<char>, Seq<char>>, j: int)
    requires
        0 <= j,
        spec_first_missing_arg(d, m, j) < 0,
    ensures
        forall|q: int|
            j <= q < d.arguments@.len() && (#[trigger] d.arguments@[q]).required
                ==> m.contains_key(d.arguments@[q].name@),
    decreases d.arguments@.len() - j,
{
    if j < 0 || j >= d.arguments@.len() {
    } else {
        assert((#[trigger] d.arguments@[j]).required ==> m.contains_key(d.arguments@[j].name@));
        lemma_no_missing_arg(d, m, j + 1);
    }
}

proof fn lemma_no_missing_opt(d: CommandDefinition, m: Map<Seq<char>, Seq<char>>, j: int)
    requires
        0 <= j,
        spec_first_missing_opt(d, m, j) < 0,
    ensures
        forall|q: int|
            j <= q < d.options@.len() && (#[trigger] d.options@[q]).required ==> m.contains_key(
                d.options@[q].name@,
            ),
    decreases d.options@.len() - j,
{
    if j < 0 || j >= d.options@.len() {
    } else {
        assert((#[trigger] d.options@[j]).required ==> m.contains_key(d.options@[j].name@));
        lemma_no_missing_opt(d, m, j + 1);
    }
}

proof fn lemma_all_present_no_missing_arg(
    d: CommandDefinition,
    m: Map<Seq<char>, Seq<char>>,
    j: int,
)
    requires
        0 <= j,
        forall|q: int|
            j <= q < d.arguments@.len() && (#[trigger] d.arguments@[q]).required
                ==> m.contains_key(d.arguments@[q].name@),
    ensures
        spec_first_missing_arg(d, m, j) < 0,
    decreases d.arguments@.len() - j,
{
    if j < d.arguments@.len() {
        assert((#[trigger] d.arguments@[j]).required ==> m.contains_key(d.arguments@[j].name@));
        lemma_all_present_no_missing_arg(d, m, j + 1);
    }
}

proof fn lemma_all_present_no_missing_opt(
    d: CommandDefinition,
    m: Map<Seq<char>, Seq<char>>,
    j: int,
)
    requires
        0 <= j,
        forall|q: int|
            j <= q < d.options@.len() && (#[trigger] d.options@[q]).required ==> m.contains_key(
                d.options@[q].name@,
            ),
    ensures
        spec_first_missing_opt(d, m, j) < 0,
    decreases d.options@.len() - j,
{
    if j < d.options@.len() {
        assert((#[trigger] d.options@[j]).required ==> m.contains_key(d.options@[j].name@));
        lemma_all_present_no_missing_opt(d, m, j + 1);
    }
}

/// Law: on a valid token list — one the walk accepts, with defaults that
/// coerce — where every required positional and option ends up present,
/// the parse as a whole succeeds and returns exactly that mapping.
pub proof fn lemma_parse_success(d: CommandDefinition, toks: Seq<Seq<char>>)
    requires
        spec_parse_tokens(d, toks, 0, 0, Map::empty()) is Ok,
        spec_apply_defaults(d, spec_parse_tokens(d, toks, 0, 0, Map::empty())->Ok_0, 0) is Ok,
        forall|j: int|
            0 <= j < d.arguments@.len() && (#[trigger] d.arguments@[j]).required
                ==> spec_apply_defaults(
                d,
                spec_parse_tokens(d, toks, 0, 0, Map::empty())->Ok_0,
                0,
            )->Ok_0.contains_key(d.arguments@[j].name@),
        forall|j: int|
            0 <= j < d.options@.len() && (#[trigger] d.options@[j]).required
                ==> spec_apply_defaults(
                d,
                spec_parse_tokens(d, toks, 0, 0, Map::empty())->Ok_0,
                0,
            )->Ok_0.contains_key(d.options@[j].name@),
    ensures
        spec_parse(d, toks) is Ok,
        spec_parse(d, toks)->Ok_0 == spec_apply_defaults(
            d,
            spec_parse_tokens(d, toks, 0, 0, Map::empty())->Ok_0,
            0,
        )->Ok_0,
{
    let m1 = spec_parse_tokens(d, toks, 0, 0, Map::empty())->Ok_0;
    let m2 = spec_apply_defaults(d, m1, 0)->Ok_0;
    lemma_all_present_no_missing_arg(d, m2, 0);
    lemma_all_present_no_missing_opt(d, m2, 0);
}

/// Law: when a parse succeeds, the resulting mapping binds only declared
/// field names, and binds every required positional, every required
/// option, and every option that has a default.
pub proof fn lemma_parse_success_domain(d: CommandDefinition, toks: Seq<Seq<char>>)
    requires
        spec_parse(d, toks) is Ok,
    ensures
        ({
            let m = spec_parse(d, toks)->Ok_0;
            &&& forall|k: Seq<char>| #[trigger] m.contains_key(k) ==> spec_is_field_name(d, k)
            &&& forall|j: int|
                0 <= j < d.arguments@.len() && (#[trigger] d.arguments@[j]).required
                    ==> m.contains_key(d.arguments@[j].name@)
            &&& forall|j: int|
                0 <= j < d.options@.len() && (#[trigger] d.options@[j]).required
                    ==> m.contains_key(d.options@[j].name@)
            &&& forall|j: int|
                0 <= j < d.options@.len() && (#[trigger] d.options@[j]).default is Some
                    ==> m.contains_key(d.options@[j].name@)
        }),
{
    let m1 = spec_parse_tokens(d, toks, 0, 0, Map::empty())->Ok_0;
    lemma_parse_tokens_domain(d, toks, 0, 0, Map::empty());
    lemma_defaults_domain(d, m1, 0);
    let m = spec_parse(d, toks)->Ok_0;
    lemma_no_missing_arg(d, m, 0);
    lemma_no_missing_opt(d, m, 0);
}

} // verus!
