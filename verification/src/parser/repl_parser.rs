//! The interactive line parser: splits a raw input line into tokens,
//! honouring quoting and escapes, resolves the command name through the
//! registry, and hands the remaining tokens to the positional/option
//! parser.
use vstd::prelude::*;

use crate::config::schema::CommandDefinition;
use crate::error::types::DynamicCliError;
use crate::error::types::ParseError;
use crate::error::suggestions::spec_suggestions;
use crate::parser::cli_parser::ArgMap;
use crate::parser::cli_parser::CliParser;
use crate::parser::cli_parser::spec_err_corresponds;
use crate::parser::cli_parser::spec_parse;
use crate::registry::command_registry::CommandRegistry;
use crate::text::chars_of;
use crate::text::spec_str_views;
use crate::text::string_from_chars;

verus! {

/// The result of parsing one line: the canonical command name and the
/// parsed field mapping.
#[derive(Debug)]
pub struct ParsedCommand {
    /// The canonical command name, after alias resolution.
    pub command_name: String,
    /// Parsed arguments and options.
    pub arguments: ArgMap,
}

// ---------------------------------------------------------------------------
// Tokenization semantics
// ---------------------------------------------------------------------------
/// One scan over the line: outside quotes, blanks separate tokens and a
/// quote character opens a quoted stretch; inside quotes, only the opening
/// character closes it, and a backslash escapes that character or itself.
/// An unclosed quote at the end of the line is a failure.
pub open spec fn spec_tokenize_loop(
    line: Seq<char>,
    i: int,
    in_q: bool,
    qc: char,
    cur: Seq<char>,
    acc: Seq<Seq<char>>,
) -> Option<Seq<Seq<char>>>
    decreases line.len() - i,
{
    if i < 0 || i >= line.len() {
        if in_q {
            None
        } else if cur.len() > 0 {
            Some(acc.push(cur))
        } else {
            Some(acc)
        }
    } else {
        let c = line[i];
        if c == '"' || c == '\'' {
            if in_q && c == qc {
                spec_tokenize_loop(line, i + 1, false, ' ', cur, acc)
            } else if !in_q {
                spec_tokenize_loop(line, i + 1, true, c, cur, acc)
            } else {
                spec_tokenize_loop(line, i + 1, in_q, qc, cur.push(c), acc)
            }
        } else if c == ' ' || c == '\t' {
            if in_q {
                spec_tokenize_loop(line, i + 1, in_q, qc, cur.push(c), acc)
            } else if cur.len() > 0 {
                spec_tokenize_loop(line, i + 1, in_q, qc, Seq::empty(), acc.push(cur))
            } else {
                spec_tokenize_loop(line, i + 1, in_q, qc, cur, acc)
            }
        } else if c == '\\' {
            if i + 1 < line.len() && in_q && (line[i + 1] == qc || line[i + 1] == '\\') {
                spec_tokenize_loop(line, i + 2, in_q, qc, cur.push(line[i + 1]), acc)
            } else {
                spec_tokenize_loop(line, i + 1, in_q, qc, cur.push('\\'), acc)
            }
        } else {
            spec_tokenize_loop(line, i + 1, in_q, qc, cur.push(c), acc)
        }
    }
}

/// What tokenizing a whole line produces, or nothing on unbalanced quotes.
pub open spec fn spec_tokenize(line: Seq<char>) -> Option<Seq<Seq<char>>> {
    spec_tokenize_loop(line, 0, false, ' ', Seq::empty(), Seq::empty())
}

/// Whether an error is a syntax error, whatever its message.
pub open spec fn spec_is_syntax_err(e: DynamicCliError) -> bool {
    e matches DynamicCliError::Parse(ParseError::InvalidSyntax { details, hint })
}

/// All names the registry's commands answer to, in listing order: each
/// command's canonical name followed by its aliases.
pub open spec fn spec_available_names<H>(entries: Seq<(CommandDefinition, H)>) -> Seq<Seq<char>>
    decreases entries.len(),
{
    if entries.len() == 0 {
        Seq::empty()
    } else {
        spec_available_names(entries.drop_last()) + seq![entries.last().0.name@]
            + spec_str_views(entries.last().0.aliases@)
    }
}

// ---------------------------------------------------------------------------
// The parser
// ---------------------------------------------------------------------------
/// Parses interactive command lines against a registry.
pub struct ReplParser<'a, H> {
    registry: &'a CommandRegistry<H>,
}

impl<'a, H> ReplParser<'a, H> {
    /// The registry names are resolved against.
    pub closed spec fn spec_registry(&self) -> CommandRegistry<H> {
        *self.registry
    }

    /// A parser over the given registry.
    pub fn new(registry: &'a CommandRegistry<H>) -> (r: ReplParser<'a, H>)
        ensures
            r.spec_registry() == *registry,
    {
        ReplParser { registry }
    }

    /// Splits a line into tokens: blanks separate, single and double quotes
    /// group, a backslash inside quotes escapes the active quote character
    /// or itself. Fails exactly when a quote is left unclosed.
    pub fn tokenize(&self, line: &str) -> (r: Result<Vec<String>, DynamicCliError>)
        ensures
            r is Ok <==> spec_tokenize(line@) is Some,
            r matches Ok(toks) ==> (spec_tokenize(line@) matches Some(st) && toks.deep_view()
                == st),
            r matches Err(e) ==> e matches DynamicCliError::Parse(
                ParseError::InvalidSyntax { details, hint },
            ),
    {
        let chars = chars_of(line);
        let mut tokens: Vec<String> = Vec::new();
        let mut current: Vec<char> = Vec::new();
        let mut in_quotes = false;
        let mut quote_char = ' ';
        let mut i: usize = 0;
        proof {
            assert(current@ =~= Seq::<char>::empty());
            assert(tokens.deep_view() =~~= Seq::<Seq<char>>::empty());
        }
        while i < chars.len()
            invariant
                0 <= i <= chars@.len(),
                chars@ == line@,
                spec_tokenize(line@) == spec_tokenize_loop(
                    line@,
                    i as int,
                    in_quotes,
                    quote_char,
                    current@,
                    tokens.deep_view(),
                ),
            decreases chars@.len() - i,
        {
            let c = chars[i];
            if c == '"' || c == '\'' {
                if in_quotes && c == quote_char {
                    in_quotes = false;
                    quote_char = ' ';
                    i += 1;
                } else if !in_quotes {
                    in_quotes = true;
                    quote_char = c;
                    i += 1;
                } else {
                    current.push(c);
                    i += 1;
                }
            } else if c == ' ' || c == '\t' {
                if in_quotes {
                    current.push(c);
                    i += 1;
                } else if current.len() > 0 {
                    let ghost old_dv = tokens.deep_view();
                    let ghost old_cur = current@;
                    let tok = string_from_chars(&current);
                    tokens.push(tok);
                    current = Vec::new();
                    proof {
                        assert(tokens.deep_view() =~~= old_dv.push(old_cur));
                    }
                    i += 1;
                } else {
                    i += 1;
                }
            } else if c == '\\' {
                if i + 1 < chars.len() && in_quotes && (chars[i + 1] == quote_char || chars[i + 1]
                    == '\\') {
                    current.push(chars[i + 1]);
                    i += 2;
                } else {
                    current.push('\\');
                    i += 1;
                }
            } else {
                current.push(c);
                i += 1;
            }
        }
        if in_quotes {
            return Err(
                DynamicCliError::Parse(
                    ParseError::InvalidSyntax {
                        details: "unbalanced quote".to_owned(),
                        hint: Some("make sure all quotes are properly closed".to_owned()),
                    },
                ),
            );
        }
        if current.len() > 0 {
            let ghost old_dv = tokens.deep_view();
            let ghost old_cur = current@;
            let tok = string_from_chars(&current);
            tokens.push(tok);
            proof {
                assert(tokens.deep_view() =~~= old_dv.push(old_cur));
            }
        }
        Ok(tokens)
    }

    /// Parses a complete line: tokenize, resolve the first token to a
    /// canonical command (with fuzzy suggestions on failure), and parse the
    /// remaining tokens against that command's definition.
    #[verifier::rlimit(60)]
    pub fn parse_line(&self, line: &str) -> (r: Result<ParsedCommand, DynamicCliError>)
        requires
            self.spec_registry().wf(),
        ensures
            ({
                let reg = self.spec_registry();
                &&& (r matches Ok(pc) ==> (spec_tokenize(line@) matches Some(toks) && toks.len()
                    > 0 && (reg.spec_resolve(toks[0]) matches Some(t) && pc.command_name@ == t && (
                    spec_parse(reg.spec_command_def(t), toks.skip(1)) matches Ok(m)
                        && pc.arguments@ == m && pc.arguments.wf()))))
                &&& (spec_tokenize(line@) is None ==> (r matches Err(e) && spec_is_syntax_err(e)))
                &&& (spec_tokenize(line@) matches Some(toks) ==> ({
                    &&& (toks.len() == 0 ==> (r matches Err(e) && spec_is_syntax_err(e)))
                    &&& (toks.len() > 0 && reg.spec_resolve(toks[0]) is None ==> (r matches Err(e)
                        && (e matches DynamicCliError::Parse(
                        ParseError::UnknownCommand { command, suggestions },
                    ) && command@ == toks[0] && suggestions.deep_view() == spec_suggestions(
                        toks[0],
                        spec_available_names(reg.spec_entries()),
                        3,
                    ))))
                    &&& (toks.len() > 0 ==> (reg.spec_resolve(toks[0]) matches Some(t) ==> (
                    spec_parse(reg.spec_command_def(t), toks.skip(1)) matches Err(se) ==> (
                    r matches Err(e) && spec_err_corresponds(e, se, reg.spec_command_def(t))))))
                    &&& (toks.len() > 0 ==> (reg.spec_resolve(toks[0]) matches Some(t) ==> (
                    spec_parse(reg.spec_command_def(t), toks.skip(1)) is Ok ==> r is Ok)))
                }))
            }),
    {
        let ghost reg = *self.registry;
        let tokens = match self.tokenize(line) {
            Err(e) => {
                return Err(e);
            },
            Ok(t) => t,
        };
        if tokens.len() == 0 {
            return Err(
                DynamicCliError::Parse(
                    ParseError::InvalidSyntax {
                        details: "empty command line".to_owned(),
                        hint: Some("type a command, or help for the available commands".to_owned()),
                    },
                ),
            );
        }
        let ghost toks = spec_tokenize(line@)->0;
        proof {
            assert(tokens.deep_view() == toks);
            assert(toks[0] == tokens@[0]@);
        }
        let input_name = &tokens[0];
        let command_name = match self.registry.resolve_name(input_name.as_str()) {
            Some(n) => n,
            None => {
                // collect every name and alias for the suggestion engine
                let listed = self.registry.list_commands();
                let mut available: Vec<String> = Vec::new();
                let mut k: usize = 0;
                while k < listed.len()
                    invariant
                        0 <= k <= listed@.len(),
                        reg == *self.registry,
                        listed@.len() == reg.spec_entries().len(),
                        forall|p: int|
                            0 <= p < listed@.len() ==> *listed@[p] == (
                            #[trigger] reg.spec_entries()[p]).0,
                        available.deep_view() == spec_available_names(
                            reg.spec_entries().take(k as int),
                        ),
                    decreases listed@.len() - k,
                {
                    let cmd = listed[k];
                    proof {
                        assert(reg.spec_entries().take(k + 1).drop_last() =~= reg.spec_entries()
                            .take(k as int));
                        assert(reg.spec_entries().take(k + 1).last() == reg.spec_entries()[
                            k as int
                        ]);
                    }
                    let ghost old_av0 = available.deep_view();
                    available.push(cmd.name.clone());
                    let ghost base = spec_available_names(reg.spec_entries().take(k as int))
                        + seq![reg.spec_entries()[k as int].0.name@];
                    proof {
                        assert(available.deep_view() =~~= old_av0.push(cmd.name@));
                        assert(available.deep_view() =~~= base);
                    }
                    let mut j: usize = 0;
                    while j < cmd.aliases.len()
                        invariant
                            0 <= j <= cmd.aliases@.len(),
                            cmd == listed@[k as int],
                            0 <= k < listed@.len(),
                            *listed@[k as int] == reg.spec_entries()[k as int].0,
                            base == spec_available_names(reg.spec_entries().take(k as int))
                                + seq![reg.spec_entries()[k as int].0.name@],
                            available.deep_view() == base + spec_str_views(
                                cmd.aliases@,
                            ).take(j as int),
                        decreases cmd.aliases@.len() - j,
                    {
                        let ghost old_av = available.deep_view();
                        available.push(cmd.aliases[j].clone());
                        proof {
                            assert(available.deep_view() =~~= old_av.push(
                                cmd.aliases@[j as int]@,
                            ));
                            assert(spec_str_views(cmd.aliases@).take(j + 1).drop_last()
                                =~= spec_str_views(cmd.aliases@).take(j as int));
                            assert(spec_str_views(cmd.aliases@).take(j + 1).last()
                                == cmd.aliases@[j as int]@);
                            assert(available.deep_view() =~~= base + spec_str_views(
                                cmd.aliases@,
                            ).take(j + 1));
                        }
                        j += 1;
                    }
                    proof {
                        let am = spec_str_views(cmd.aliases@);
                        assert(am.take(am.len() as int) =~= am);
                        assert(available.deep_view() =~~= spec_available_names(
                            reg.spec_entries().take(k + 1),
                        ));
                    }
                    k += 1;
                }
                assert(reg.spec_entries().take(reg.spec_entries().len() as int) =~= reg
                    .spec_entries());
                let err = ParseError::unknown_command_with_suggestions(
                    input_name.as_str(),
                    available.as_slice(),
                );
                return Err(DynamicCliError::Parse(err));
            },
        };
        let ghost t = reg.spec_resolve(toks[0])->Some_0;
        proof {
            assert(command_name@ == t);
            if !reg.spec_has_command(t) {
                let a = choose|a: int|
                    0 <= a < reg.spec_aliases().len() && (#[trigger] reg.spec_aliases()[a]).0
                        == toks[0];
                assert(reg.spec_has_command(reg.spec_aliases()[a].1));
            }
        }
        let definition = match self.registry.get_definition(command_name.as_str()) {
            Some(d) => d,
            None => {
                proof {
                    assert(false);
                }
                return Err(
                    DynamicCliError::Parse(
                        ParseError::InvalidSyntax { details: String::new(), hint: None },
                    ),
                );
            },
        };
        let mut rest: Vec<String> = Vec::new();
        let mut k: usize = 1;
        while k < tokens.len()
            invariant
                1 <= k <= tokens@.len(),
                tokens.deep_view() == toks,
                toks.len() == tokens@.len(),
                rest.deep_view() == toks.subrange(1, k as int),
            decreases tokens@.len() - k,
        {
            rest.push(tokens[k].clone());
            assert(rest.deep_view() =~= toks.subrange(1, k + 1));
            k += 1;
        }
        assert(rest.deep_view() =~= toks.skip(1));
        let cli_parser = CliParser::new(definition);
        proof {
            assert(*definition == reg.spec_command_def(t));
        }
        let arguments = match cli_parser.parse(&rest) {
            Err(e) => {
                return Err(e);
            },
            Ok(m) => m,
        };
        Ok(ParsedCommand { command_name, arguments })
    }
}

} // verus!
