//! The KannakaHDL parser, a deliberately small language:
//!
//! ```text
//! # a memory bank grown from discovered primitives
//! cell MemoryBank(n) {
//!     when n > 1  => split MemoryBank(n / 2), MemoryBank(n / 2) bridge "Harmonic Bridge"
//!     when always => base "Memory Seed" min_persistence 0.4 material "metamaterial"
//! }
//! grow MemoryBank(8)
//! ```
//!
//! Rules fire first-match. `split` recursively subdivides space; `base`
//! is a registry query, never a hand-drawn structure.
//!
//! The grammar is stated as spec functions over the token sequence, one
//! per syntactic form; each takes a position and gives the parsed form
//! with the position after it, or the error. On an error the reported
//! line is that of the token after the one that was looked at (or of the
//! last token), as the parser has already consumed the offending token.

use vstd::prelude::*;
use crate::lexer::{SpecTok, Tok, Punct, describe_opt, describe_tok, punct_text, toks_view, lex_source};
use crate::number::Decimal;
use crate::syntax::{
    SpecParseError, SpecExpr, SpecGuard, SpecCall, SpecQuery, SpecAction, SpecRule, SpecCellDef,
    SpecExpect, SpecProgram,
};

pub use crate::syntax::{
    ParseError, Expr, Guard, Call, Query, Action, Rule, CellDef, Expect, Program, Cmp, Strategy,
};

verus! {

/// The token at `pos`, if there is one.
pub open spec fn tok_at(ts: Seq<(SpecTok, nat)>, pos: int) -> Option<SpecTok> {
    if 0 <= pos < ts.len() {
        Some(ts[pos].0)
    } else {
        None
    }
}

/// The line errors at `pos` report: that token's line, the last token's
/// line past the end, and 0 when there are no tokens.
pub open spec fn line_at(ts: Seq<(SpecTok, nat)>, pos: int) -> nat {
    if ts.len() == 0 {
        0
    } else if 0 <= pos < ts.len() {
        ts[pos].1
    } else {
        ts[ts.len() - 1].1
    }
}

/// An error reported at `pos`.
pub open spec fn err_at(ts: Seq<(SpecTok, nat)>, pos: int, message: Seq<char>) -> SpecParseError {
    SpecParseError { line: line_at(ts, pos), message }
}

/// The error of a step that failed to consume a token. Every successful
/// step consumes one, so no parse ever yields it; it only closes the
/// definitions.
pub open spec fn stalled() -> SpecParseError {
    SpecParseError { line: 0, message: seq![] }
}

/// Whether a step that started at `pos` and stopped at `p` moved forward
/// within the tokens.
pub open spec fn advanced(ts: Seq<(SpecTok, nat)>, pos: int, p: int) -> bool {
    pos < p <= ts.len()
}

/// Consume the punctuation `p`.
pub open spec fn p_punct(ts: Seq<(SpecTok, nat)>, pos: int, p: Punct) -> Result<int, SpecParseError> {
    if tok_at(ts, pos) == Some(SpecTok::Punct(p)) {
        Ok(pos + 1)
    } else {
        Err(err_at(ts, pos + 1, "expected `"@ + punct_text(p) + "`, got "@ + describe_opt(tok_at(ts, pos))))
    }
}

/// Consume an identifier.
pub open spec fn p_ident(ts: Seq<(SpecTok, nat)>, pos: int) -> Result<(Seq<char>, int), SpecParseError> {
    match tok_at(ts, pos) {
        Some(SpecTok::Ident(s)) => Ok((s, pos + 1)),
        other => Err(err_at(ts, pos + 1, "expected identifier, got "@ + describe_opt(other))),
    }
}

/// Consume a string literal.
pub open spec fn p_str(ts: Seq<(SpecTok, nat)>, pos: int) -> Result<(Seq<char>, int), SpecParseError> {
    match tok_at(ts, pos) {
        Some(SpecTok::Str(s)) => Ok((s, pos + 1)),
        other => Err(err_at(ts, pos + 1, "expected string literal, got "@ + describe_opt(other))),
    }
}

/// Consume a number: a decimal, or an integer taken as a decimal.
pub open spec fn p_number(ts: Seq<(SpecTok, nat)>, pos: int) -> Result<(Decimal, int), SpecParseError> {
    match tok_at(ts, pos) {
        Some(SpecTok::Float(v)) => Ok((v, pos + 1)),
        Some(SpecTok::Int(v)) => Ok((Decimal::spec_from_int(v as u64), pos + 1)),
        other => Err(err_at(ts, pos + 1, "expected number, got "@ + describe_opt(other))),
    }
}

/// `expr := term (('+' | '-') term)*`, left-associative.
pub open spec fn p_expr(ts: Seq<(SpecTok, nat)>, pos: int) -> Result<(SpecExpr, int), SpecParseError>
    decreases ts.len() - pos, 5int,
{
    match p_term(ts, pos) {
        Ok((lhs, p)) => if advanced(ts, pos, p) {
            p_expr_rest(ts, p, lhs)
        } else {
            Err(stalled())
        },
        Err(e) => Err(e),
    }
}

/// The `(('+' | '-') term)*` tail of an expression, folded onto `lhs`.
pub open spec fn p_expr_rest(ts: Seq<(SpecTok, nat)>, pos: int, lhs: SpecExpr) -> Result<(SpecExpr, int), SpecParseError>
    decreases ts.len() - pos, 4int,
{
    let t = tok_at(ts, pos);
    if t == Some(SpecTok::Punct(Punct::Plus)) || t == Some(SpecTok::Punct(Punct::Minus)) {
        match p_term(ts, pos + 1) {
            Ok((rhs, p)) => if advanced(ts, pos, p) {
                let e = if t == Some(SpecTok::Punct(Punct::Plus)) {
                    SpecExpr::Add(Box::new(lhs), Box::new(rhs))
                } else {
                    SpecExpr::Sub(Box::new(lhs), Box::new(rhs))
                };
                p_expr_rest(ts, p, e)
            } else {
                Err(stalled())
            },
            Err(e) => Err(e),
        }
    } else {
        Ok((lhs, pos))
    }
}

/// `term := factor (('*' | '/') factor)*`, left-associative.
pub open spec fn p_term(ts: Seq<(SpecTok, nat)>, pos: int) -> Result<(SpecExpr, int), SpecParseError>
    decreases ts.len() - pos, 3int,
{
    match p_factor(ts, pos) {
        Ok((lhs, p)) => if advanced(ts, pos, p) {
            p_term_rest(ts, p, lhs)
        } else {
            Err(stalled())
        },
        Err(e) => Err(e),
    }
}

/// The `(('*' | '/') factor)*` tail of a term, folded onto `lhs`.
pub open spec fn p_term_rest(ts: Seq<(SpecTok, nat)>, pos: int, lhs: SpecExpr) -> Result<(SpecExpr, int), SpecParseError>
    decreases ts.len() - pos, 2int,
{
    let t = tok_at(ts, pos);
    if t == Some(SpecTok::Punct(Punct::Star)) || t == Some(SpecTok::Punct(Punct::Slash)) {
        match p_factor(ts, pos + 1) {
            Ok((rhs, p)) => if advanced(ts, pos, p) {
                let e = if t == Some(SpecTok::Punct(Punct::Star)) {
                    SpecExpr::Mul(Box::new(lhs), Box::new(rhs))
                } else {
                    SpecExpr::Div(Box::new(lhs), Box::new(rhs))
                };
                p_term_rest(ts, p, e)
            } else {
                Err(stalled())
            },
            Err(e) => Err(e),
        }
    } else {
        Ok((lhs, pos))
    }
}

/// `factor := integer | identifier | '(' expr ')'`.
pub open spec fn p_factor(ts: Seq<(SpecTok, nat)>, pos: int) -> Result<(SpecExpr, int), SpecParseError>
    decreases ts.len() - pos, 1int,
{
    match tok_at(ts, pos) {
        Some(SpecTok::Int(v)) => Ok((SpecExpr::Int(v), pos + 1)),
        Some(SpecTok::Ident(n)) => Ok((SpecExpr::Param(n), pos + 1)),
        Some(SpecTok::Punct(Punct::LParen)) => match p_expr(ts, pos + 1) {
            Ok((e, p)) => match p_punct(ts, p, Punct::RParen) {
                Ok(p2) => Ok((e, p2)),
                Err(err) => Err(err),
            },
            Err(err) => Err(err),
        },
        other => Err(err_at(ts, pos + 1, "expected expression, got "@ + describe_opt(other))),
    }
}

/// The comparison a token stands for.
pub open spec fn comparison_of(t: Option<SpecTok>) -> Option<Cmp> {
    match t {
        Some(SpecTok::Punct(Punct::Less)) => Some(Cmp::Lt),
        Some(SpecTok::Punct(Punct::LessEq)) => Some(Cmp::Le),
        Some(SpecTok::Punct(Punct::Greater)) => Some(Cmp::Gt),
        Some(SpecTok::Punct(Punct::GreaterEq)) => Some(Cmp::Ge),
        Some(SpecTok::Punct(Punct::EqEq)) => Some(Cmp::Eq),
        Some(SpecTok::Punct(Punct::NotEq)) => Some(Cmp::Ne),
        _ => None,
    }
}

/// `guard := 'always' | expr comparison expr`.
pub open spec fn p_guard(ts: Seq<(SpecTok, nat)>, pos: int) -> Result<(SpecGuard, int), SpecParseError> {
    if tok_at(ts, pos) == Some(SpecTok::Ident("always"@)) {
        Ok((SpecGuard::Always, pos + 1))
    } else {
        match p_expr(ts, pos) {
            Ok((lhs, p)) => match comparison_of(tok_at(ts, p)) {
                Some(op) => match p_expr(ts, p + 1) {
                    Ok((rhs, p2)) => Ok((SpecGuard::Compare(lhs, op, rhs), p2)),
                    Err(e) => Err(e),
                },
                None => Err(err_at(ts, p + 1, "expected comparison, got "@ + describe_opt(tok_at(ts, p)))),
            },
            Err(e) => Err(e),
        }
    }
}

/// Comma-separated argument expressions, appended to `acc`.
pub open spec fn p_args(ts: Seq<(SpecTok, nat)>, pos: int, acc: Seq<SpecExpr>) -> Result<(Seq<SpecExpr>, int), SpecParseError>
    decreases ts.len() - pos,
{
    match p_expr(ts, pos) {
        Ok((e, p)) => if advanced(ts, pos, p) {
            if tok_at(ts, p) == Some(SpecTok::Punct(Punct::Comma)) {
                p_args(ts, p + 1, acc.push(e))
            } else {
                Ok((acc.push(e), p))
            }
        } else {
            Err(stalled())
        },
        Err(e) => Err(e),
    }
}

/// `call := identifier '(' [expr (',' expr)*] ')'`.
pub open spec fn p_call(ts: Seq<(SpecTok, nat)>, pos: int) -> Result<(SpecCall, int), SpecParseError> {
    match p_ident(ts, pos) {
        Ok((cell, p1)) => match p_punct(ts, p1, Punct::LParen) {
            Ok(p2) => {
                let args = if tok_at(ts, p2) != Some(SpecTok::Punct(Punct::RParen)) {
                    p_args(ts, p2, seq![])
                } else {
                    Ok((seq![], p2))
                };
                match args {
                    Ok((args, p3)) => match p_punct(ts, p3, Punct::RParen) {
                        Ok(p4) => Ok((SpecCall { cell, args }, p4)),
                        Err(e) => Err(e),
                    },
                    Err(e) => Err(e),
                }
            },
            Err(e) => Err(e),
        },
        Err(e) => Err(e),
    }
}

/// The strategy a name stands for.
pub open spec fn strategy_named(name: Seq<char>) -> Option<Strategy> {
    if name == "best"@ {
        Some(Strategy::Best)
    } else if name == "robust"@ {
        Some(Strategy::Robust)
    } else if name == "unique"@ {
        Some(Strategy::Unique)
    } else if name == "diverse"@ {
        Some(Strategy::Diverse)
    } else {
        None
    }
}

/// The keyword that names a strategy.
pub open spec fn strategy_keyword(s: Strategy) -> Seq<char> {
    match s {
        Strategy::Best => "best"@,
        Strategy::Robust => "robust"@,
        Strategy::Unique => "unique"@,
        Strategy::Diverse => "diverse"@,
    }
}

/// Each strategy keyword names its own strategy and nothing else: a
/// name parses to a strategy exactly when it is that strategy's keyword.
pub proof fn lemma_strategy_keywords(name: Seq<char>, s: Strategy)
    ensures
        strategy_named(name) == Some(s) <==> name == strategy_keyword(s),
        strategy_named(strategy_keyword(s)) == Some(s),
{
    reveal_strlit("best");
    reveal_strlit("robust");
    reveal_strlit("unique");
    reveal_strlit("diverse");
    let b = "best"@;
    let r = "robust"@;
    let u = "unique"@;
    let d = "diverse"@;
    assert(b.len() == 4 && r.len() == 6 && u.len() == 6 && d.len() == 7);
    assert(r[0] == 'r' && u[0] == 'u');
    assert(b != r && b != u && b != d && r != u && r != d && u != d);
}

/// A query with default attributes: no floors, no capability or
/// material, strategy `best`.
pub open spec fn default_query(domain: Seq<char>, component_type: Option<Seq<char>>, class: Seq<char>) -> SpecQuery {
    SpecQuery {
        domain,
        component_type,
        class,
        min_persistence: Decimal::spec_from_int(0),
        min_noise_tolerance: Decimal::spec_from_int(0),
        min_evidence: 0,
        capability: None,
        material: None,
        strategy: Strategy::Best,
    }
}

/// The query attributes from `pos` on, applied in order to `q`; a
/// later attribute overrides an earlier one of the same kind.
pub open spec fn p_attrs(ts: Seq<(SpecTok, nat)>, pos: int, q: SpecQuery) -> Result<(SpecQuery, int), SpecParseError>
    decreases ts.len() - pos,
{
    match tok_at(ts, pos) {
        Some(SpecTok::Ident(k)) => {
            if k == "min_persistence"@ {
                match p_number(ts, pos + 1) {
                    Ok((n, p)) => if advanced(ts, pos, p) {
                        p_attrs(ts, p, SpecQuery { min_persistence: n, ..q })
                    } else {
                        Err(stalled())
                    },
                    Err(e) => Err(e),
                }
            } else if k == "min_noise_tolerance"@ {
                match p_number(ts, pos + 1) {
                    Ok((n, p)) => if advanced(ts, pos, p) {
                        p_attrs(ts, p, SpecQuery { min_noise_tolerance: n, ..q })
                    } else {
                        Err(stalled())
                    },
                    Err(e) => Err(e),
                }
            } else if k == "min_evidence"@ {
                match p_number(ts, pos + 1) {
                    Ok((n, p)) => match n.evidence_level() {
                        Some(level) => if advanced(ts, pos, p) {
                            p_attrs(ts, p, SpecQuery { min_evidence: level, ..q })
                        } else {
                            Err(stalled())
                        },
                        None => Err(err_at(ts, p,
                            "min_evidence must be an integer evidence-ladder level 0-8, got "@ + n.display())),
                    },
                    Err(e) => Err(e),
                }
            } else if k == "capability"@ {
                match p_str(ts, pos + 1) {
                    Ok((s, p)) => if advanced(ts, pos, p) {
                        p_attrs(ts, p, SpecQuery { capability: Some(s), ..q })
                    } else {
                        Err(stalled())
                    },
                    Err(e) => Err(e),
                }
            } else if k == "material"@ {
                match p_str(ts, pos + 1) {
                    Ok((s, p)) => if advanced(ts, pos, p) {
                        p_attrs(ts, p, SpecQuery { material: Some(s), ..q })
                    } else {
                        Err(stalled())
                    },
                    Err(e) => Err(e),
                }
            } else if k == "strategy"@ {
                match p_ident(ts, pos + 1) {
                    Ok((name, p)) => match strategy_named(name) {
                        Some(st) => if advanced(ts, pos, p) {
                            p_attrs(ts, p, SpecQuery { strategy: st, ..q })
                        } else {
                            Err(stalled())
                        },
                        None => Err(err_at(ts, p,
                            "unknown strategy `"@ + name + "` (best | robust | unique | diverse)"@)),
                    },
                    Err(e) => Err(e),
                }
            } else {
                Ok((q, pos))
            }
        },
        _ => Ok((q, pos)),
    }
}

/// `query := [identifier '.' identifier] string attribute*`; without the
/// `domain.type` prefix the domain is `crystal` and there is no type.
pub open spec fn p_query(ts: Seq<(SpecTok, nat)>, pos: int) -> Result<(SpecQuery, int), SpecParseError> {
    let head: Result<(Seq<char>, Option<Seq<char>>, int), SpecParseError> = match tok_at(ts, pos) {
        Some(SpecTok::Ident(_)) => match p_ident(ts, pos) {
            Ok((domain, p1)) => match p_punct(ts, p1, Punct::Dot) {
                Ok(p2) => match p_ident(ts, p2) {
                    Ok((ty, p3)) => Ok((domain, Some(ty), p3)),
                    Err(e) => Err(e),
                },
                Err(e) => Err(e),
            },
            Err(e) => Err(e),
        },
        _ => Ok(("crystal"@, None, pos)),
    };
    match head {
        Ok((domain, ty, p1)) => match p_str(ts, p1) {
            Ok((class, p2)) => p_attrs(ts, p2, default_query(domain, ty, class)),
            Err(e) => Err(e),
        },
        Err(e) => Err(e),
    }
}

/// Comma-separated calls, appended to `acc`.
pub open spec fn p_children(ts: Seq<(SpecTok, nat)>, pos: int, acc: Seq<SpecCall>) -> Result<(Seq<SpecCall>, int), SpecParseError>
    decreases ts.len() - pos,
{
    match p_call(ts, pos) {
        Ok((c, p)) => if advanced(ts, pos, p) {
            if tok_at(ts, p) == Some(SpecTok::Punct(Punct::Comma)) {
                p_children(ts, p + 1, acc.push(c))
            } else {
                Ok((acc.push(c), p))
            }
        } else {
            Err(stalled())
        },
        Err(e) => Err(e),
    }
}

/// `action := 'split' call (',' call)* ['bridge' query] | 'base' query`.
pub open spec fn p_action(ts: Seq<(SpecTok, nat)>, pos: int) -> Result<(SpecAction, int), SpecParseError> {
    let t = tok_at(ts, pos);
    if t == Some(SpecTok::Ident("split"@)) {
        match p_children(ts, pos + 1, seq![]) {
            Ok((children, p)) => if tok_at(ts, p) == Some(SpecTok::Ident("bridge"@)) {
                match p_query(ts, p + 1) {
                    Ok((q, p2)) => Ok((SpecAction::Split { children, bridge: Some(q) }, p2)),
                    Err(e) => Err(e),
                }
            } else {
                Ok((SpecAction::Split { children, bridge: None }, p))
            },
            Err(e) => Err(e),
        }
    } else if t == Some(SpecTok::Ident("base"@)) {
        match p_query(ts, pos + 1) {
            Ok((q, p)) => Ok((SpecAction::Base(q), p)),
            Err(e) => Err(e),
        }
    } else {
        Err(err_at(ts, pos + 1, "expected `split` or `base`, got "@ + describe_opt(t)))
    }
}

/// Comma-separated parameter names, appended to `acc`.
pub open spec fn p_params(ts: Seq<(SpecTok, nat)>, pos: int, acc: Seq<Seq<char>>) -> Result<(Seq<Seq<char>>, int), SpecParseError>
    decreases ts.len() - pos,
{
    match p_ident(ts, pos) {
        Ok((name, p)) => if advanced(ts, pos, p) {
            if tok_at(ts, p) == Some(SpecTok::Punct(Punct::Comma)) {
                p_params(ts, p + 1, acc.push(name))
            } else {
                Ok((acc.push(name), p))
            }
        } else {
            Err(stalled())
        },
        Err(e) => Err(e),
    }
}

/// `rule := 'when' guard '=>' action`, repeated up to the closing `}`,
/// appended to `acc`; each rule records the line of its `when`.
pub open spec fn p_rules(ts: Seq<(SpecTok, nat)>, pos: int, acc: Seq<SpecRule>) -> Result<(Seq<SpecRule>, int), SpecParseError>
    decreases ts.len() - pos,
{
    let t = tok_at(ts, pos);
    if t == Some(SpecTok::Punct(Punct::RBrace)) {
        Ok((acc, pos))
    } else if t != Some(SpecTok::Ident("when"@)) {
        Err(err_at(ts, pos + 1, "expected `when`, got "@ + describe_opt(t)))
    } else {
        match p_guard(ts, pos + 1) {
            Ok((guard, p1)) => match p_punct(ts, p1, Punct::Arrow) {
                Ok(p2) => match p_action(ts, p2) {
                    Ok((action, p3)) => if advanced(ts, pos, p3) {
                        p_rules(ts, p3, acc.push(SpecRule { guard, action, line: line_at(ts, pos) }))
                    } else {
                        Err(stalled())
                    },
                    Err(e) => Err(e),
                },
                Err(e) => Err(e),
            },
            Err(e) => Err(e),
        }
    }
}

/// `cell := 'cell' identifier '(' [identifier (',' identifier)*] ')' '{' rule* '}'`,
/// from just after `cell`; a cell needs at least one rule.
pub open spec fn p_cell(ts: Seq<(SpecTok, nat)>, pos: int) -> Result<(SpecCellDef, int), SpecParseError> {
    match p_ident(ts, pos) {
        Ok((name, p1)) => match p_punct(ts, p1, Punct::LParen) {
            Ok(p2) => {
                let params = if tok_at(ts, p2) != Some(SpecTok::Punct(Punct::RParen)) {
                    p_params(ts, p2, seq![])
                } else {
                    Ok((seq![], p2))
                };
                match params {
                    Ok((params, p3)) => match p_punct(ts, p3, Punct::RParen) {
                        Ok(p4) => match p_punct(ts, p4, Punct::LBrace) {
                            Ok(p5) => match p_rules(ts, p5, seq![]) {
                                Ok((rules, p6)) => match p_punct(ts, p6, Punct::RBrace) {
                                    Ok(p7) => if rules.len() == 0 {
                                        Err(err_at(ts, p7, "cell "@ + name + " has no rules"@))
                                    } else {
                                        Ok((SpecCellDef { name, params, rules }, p7))
                                    },
                                    Err(e) => Err(e),
                                },
                                Err(e) => Err(e),
                            },
                            Err(e) => Err(e),
                        },
                        Err(e) => Err(e),
                    },
                    Err(e) => Err(e),
                }
            },
            Err(e) => Err(e),
        },
        Err(e) => Err(e),
    }
}

/// `expectation := 'expect' identifier comparison number`, from the
/// `expect` token; it records that token's line.
pub open spec fn p_expect(ts: Seq<(SpecTok, nat)>, pos: int) -> Result<(SpecExpect, int), SpecParseError> {
    match p_ident(ts, pos + 1) {
        Ok((metric, p1)) => match comparison_of(tok_at(ts, p1)) {
            Some(op) => match p_number(ts, p1 + 1) {
                Ok((value, p2)) => Ok((SpecExpect { metric, cmp: op, value, line: line_at(ts, pos) }, p2)),
                Err(e) => Err(e),
            },
            None => Err(err_at(ts, p1 + 1, "expected comparison, got "@ + describe_opt(tok_at(ts, p1)))),
        },
        Err(e) => Err(e),
    }
}

/// The statements from `pos` on, added to `acc`; at the end of the
/// tokens the program must have grown something.
pub open spec fn p_program(ts: Seq<(SpecTok, nat)>, pos: int, acc: SpecProgram) -> Result<SpecProgram, SpecParseError>
    decreases ts.len() - pos,
{
    match tok_at(ts, pos) {
        None => if acc.grows.len() == 0 {
            Err(SpecParseError { line: 0, message: "no `grow` statement"@ })
        } else {
            Ok(acc)
        },
        Some(t) => if t == SpecTok::Ident("cell"@) {
            match p_cell(ts, pos + 1) {
                Ok((c, p)) => if advanced(ts, pos, p) {
                    p_program(ts, p, SpecProgram { cells: acc.cells.push(c), ..acc })
                } else {
                    Err(stalled())
                },
                Err(e) => Err(e),
            }
        } else if t == SpecTok::Ident("grow"@) {
            match p_call(ts, pos + 1) {
                Ok((c, p)) => if advanced(ts, pos, p) {
                    p_program(ts, p, SpecProgram { grows: acc.grows.push(c), ..acc })
                } else {
                    Err(stalled())
                },
                Err(e) => Err(e),
            }
        } else if t == SpecTok::Ident("expect"@) {
            match p_expect(ts, pos) {
                Ok((x, p)) => if advanced(ts, pos, p) {
                    p_program(ts, p, SpecProgram { expects: acc.expects.push(x), ..acc })
                } else {
                    Err(stalled())
                },
                Err(e) => Err(e),
            }
        } else {
            Err(err_at(ts, pos, "expected `cell`, `grow`, or `expect`, got "@ + describe_tok(t)))
        }
    }
}

/// The program a source text denotes: its tokens, parsed as statements.
pub open spec fn spec_parse(source: Seq<char>) -> Result<SpecProgram, SpecParseError> {
    match lex_source(source) {
        Ok(ts) => p_program(ts, 0, SpecProgram { cells: seq![], grows: seq![], expects: seq![] }),
        Err(e) => Err(e),
    }
}


/* ------------------------------ parsed programs ---------------------------- */

proof fn lemma_program_shape(ts: Seq<(SpecTok, nat)>, pos: int, acc: SpecProgram)
    requires
        forall|c: int| 0 <= c < acc.cells.len() ==> (#[trigger] acc.cells[c]).rules.len() > 0,
    ensures
        p_program(ts, pos, acc) matches Ok(p) ==> p.grows.len() > 0
            && forall|c: int| 0 <= c < p.cells.len() ==> (#[trigger] p.cells[c]).rules.len() > 0,
    decreases ts.len() - pos,
{
    match tok_at(ts, pos) {
        None => {},
        Some(t) => {
            if t == SpecTok::Ident("cell"@) {
                match p_cell(ts, pos + 1) {
                    Ok((c, p)) => if advanced(ts, pos, p) {
                        let next = SpecProgram { cells: acc.cells.push(c), ..acc };
                        assert forall|k: int| 0 <= k < next.cells.len() implies (#[trigger] next.cells[k]).rules.len() > 0 by {
                            if k < acc.cells.len() {
                                assert(next.cells[k] == acc.cells[k]);
                            }
                        }
                        lemma_program_shape(ts, p, next);
                    },
                    Err(e) => {},
                }
            } else if t == SpecTok::Ident("grow"@) {
                match p_call(ts, pos + 1) {
                    Ok((c, p)) => if advanced(ts, pos, p) {
                        lemma_program_shape(ts, p, SpecProgram { grows: acc.grows.push(c), ..acc });
                    },
                    Err(e) => {},
                }
            } else if t == SpecTok::Ident("expect"@) {
                match p_expect(ts, pos) {
                    Ok((x, p)) => if advanced(ts, pos, p) {
                        lemma_program_shape(ts, p, SpecProgram { expects: acc.expects.push(x), ..acc });
                    },
                    Err(e) => {},
                }
            }
        },
    }
}

/// A parsed program can be grown: it has at least one `grow` statement,
/// and every cell it defines has at least one rule. A source with no
/// `grow` statement is refused.
pub proof fn lemma_parsed_programs_grow(source: Seq<char>)
    ensures
        spec_parse(source) matches Ok(p) ==> p.grows.len() > 0
            && forall|c: int| 0 <= c < p.cells.len() ==> (#[trigger] p.cells[c]).rules.len() > 0,
{
    match lex_source(source) {
        Ok(ts) => lemma_program_shape(ts, 0, SpecProgram { cells: seq![], grows: seq![], expects: seq![] }),
        Err(e) => {},
    }
}


/* ------------------------------ executable ------------------------------ */

/// The view of an optional token reference.
pub open spec fn tok_view(t: Option<&Tok>) -> Option<SpecTok> {
    match t {
        Some(t) => Some(t@),
        None => None,
    }
}

/// The view of a parse step's result: the parsed value's view and the
/// position after it, or the error's view.
pub open spec fn step_view<T: View>(r: Result<(T, usize), ParseError>) -> Result<(T::V, int), SpecParseError> {
    match r {
        Ok((v, p)) => Ok((v@, p as int)),
        Err(e) => Err(e@),
    }
}

/// The view of a consuming step's result.
pub open spec fn pos_view(r: Result<usize, ParseError>) -> Result<int, SpecParseError> {
    match r {
        Ok(p) => Ok(p as int),
        Err(e) => Err(e@),
    }
}

/// Whether a successful step ended after `pos`, within the tokens.
pub open spec fn moved<T>(r: Result<(T, usize), ParseError>, pos: usize, len: nat) -> bool {
    r matches Ok((_, p)) ==> pos < p <= len
}

fn peek(toks: &Vec<(Tok, usize)>, pos: usize) -> (r: Option<&Tok>)
    ensures
        tok_view(r) == tok_at(toks_view(toks@), pos as int),
        r is Some <==> pos < toks@.len(),
        toks_view(toks@).len() == toks@.len(),
        toks@.len() <= usize::MAX,
{
    let n = toks.len();
    if pos < toks.len() {
        Some(&toks[pos].0)
    } else {
        None
    }
}

fn line_here(toks: &Vec<(Tok, usize)>, pos: usize) -> (r: usize)
    ensures
        r == line_at(toks_view(toks@), pos as int),
{
    let n = toks.len();
    if n == 0 {
        0
    } else if pos < n {
        toks[pos].1
    } else {
        toks[n - 1].1
    }
}

fn line_next(toks: &Vec<(Tok, usize)>, pos: usize) -> (r: usize)
    ensures
        r == line_at(toks_view(toks@), pos + 1),
{
    let n = toks.len();
    if n == 0 {
        0
    } else if pos < n - 1 {
        toks[pos + 1].1
    } else {
        toks[n - 1].1
    }
}

fn err_here(toks: &Vec<(Tok, usize)>, pos: usize, message: String) -> (r: ParseError)
    ensures
        r@ == err_at(toks_view(toks@), pos as int, message@),
{
    ParseError { line: line_here(toks, pos), message }
}

fn err_next(toks: &Vec<(Tok, usize)>, pos: usize, message: String) -> (r: ParseError)
    ensures
        r@ == err_at(toks_view(toks@), pos + 1, message@),
{
    ParseError { line: line_next(toks, pos), message }
}

fn got(prefix: &str, t: Option<&Tok>) -> (r: String)
    ensures
        r@ == prefix@ + describe_opt(tok_view(t)),
{
    let mut s = String::from_str(prefix);
    let d = crate::lexer::describe_option(t);
    s.append(d.as_str());
    s
}

fn is_punct(t: Option<&Tok>, p: Punct) -> (r: bool)
    ensures
        r == (tok_view(t) == Some(SpecTok::Punct(p))),
{
    match t {
        Some(Tok::Punct(q)) => *q == p,
        _ => false,
    }
}

fn is_word(t: Option<&Tok>, k: &str) -> (r: bool)
    ensures
        r == (tok_view(t) == Some(SpecTok::Ident(k@))),
{
    match t {
        Some(Tok::Ident(s)) => crate::text::text_eq(s.as_str(), k),
        _ => false,
    }
}

fn expect_punct(toks: &Vec<(Tok, usize)>, pos: usize, p: Punct) -> (r: Result<usize, ParseError>)
    requires
        pos <= toks@.len(),
    ensures
        pos_view(r) == p_punct(toks_view(toks@), pos as int, p),
        r matches Ok(q) ==> q == pos + 1 && q <= toks@.len(),
{
    let t = peek(toks, pos);
    if is_punct(t, p) {
        Ok(pos + 1)
    } else {
        let mut m = String::from_str("expected `");
        m.append(crate::lexer::punct_str(p));
        m.append("`, got ");
        let d = crate::lexer::describe_option(t);
        m.append(d.as_str());
        Err(err_next(toks, pos, m))
    }
}

fn expect_ident(toks: &Vec<(Tok, usize)>, pos: usize) -> (r: Result<(String, usize), ParseError>)
    requires
        pos <= toks@.len(),
    ensures
        step_view(r) == p_ident(toks_view(toks@), pos as int),
        moved(r, pos, toks@.len()),
{
    let t = peek(toks, pos);
    match t {
        Some(Tok::Ident(s)) => Ok((s.clone(), pos + 1)),
        _ => Err(err_next(toks, pos, got("expected identifier, got ", t))),
    }
}

fn expect_str(toks: &Vec<(Tok, usize)>, pos: usize) -> (r: Result<(String, usize), ParseError>)
    requires
        pos <= toks@.len(),
    ensures
        step_view(r) == p_str(toks_view(toks@), pos as int),
        moved(r, pos, toks@.len()),
{
    let t = peek(toks, pos);
    match t {
        Some(Tok::Str(s)) => Ok((s.clone(), pos + 1)),
        _ => Err(err_next(toks, pos, got("expected string literal, got ", t))),
    }
}

fn expect_number(toks: &Vec<(Tok, usize)>, pos: usize) -> (r: Result<(Decimal, usize), ParseError>)
    requires
        pos <= toks@.len(),
    ensures
        step_view(r) == p_number(toks_view(toks@), pos as int),
        moved(r, pos, toks@.len()),
{
    let t = peek(toks, pos);
    match t {
        Some(Tok::Float(v)) => Ok((*v, pos + 1)),
        Some(Tok::Int(v)) => Ok((Decimal::from_int(*v as u64), pos + 1)),
        _ => Err(err_next(toks, pos, got("expected number, got ", t))),
    }
}

fn parse_expr(toks: &Vec<(Tok, usize)>, pos: usize) -> (r: Result<(Expr, usize), ParseError>)
    requires
        pos <= toks@.len(),
    ensures
        step_view(r) == p_expr(toks_view(toks@), pos as int),
        moved(r, pos, toks@.len()),
    decreases toks@.len() - pos, 5int,
{
    let ghost ts = toks_view(toks@);
    let (mut lhs, mut p) = match parse_term(toks, pos) {
        Ok(x) => x,
        Err(e) => return Err(e),
    };
    loop
        invariant
            ts == toks_view(toks@),
            pos < p <= toks@.len(),
            p_expr(ts, pos as int) == p_expr_rest(ts, p as int, lhs@),
        decreases toks@.len() - p,
    {
        let t = peek(toks, p);
        let plus = is_punct(t, Punct::Plus);
        if plus || is_punct(t, Punct::Minus) {
            match parse_term(toks, p + 1) {
                Ok((rhs, p2)) => {
                    lhs = if plus { Expr::Add(Box::new(lhs), Box::new(rhs)) } else { Expr::Sub(Box::new(lhs), Box::new(rhs)) };
                    p = p2;
                },
                Err(e) => return Err(e),
            }
        } else {
            return Ok((lhs, p));
        }
    }
}

fn parse_term(toks: &Vec<(Tok, usize)>, pos: usize) -> (r: Result<(Expr, usize), ParseError>)
    requires
        pos <= toks@.len(),
    ensures
        step_view(r) == p_term(toks_view(toks@), pos as int),
        moved(r, pos, toks@.len()),
    decreases toks@.len() - pos, 3int,
{
    let ghost ts = toks_view(toks@);
    let (mut lhs, mut p) = match parse_factor(toks, pos) {
        Ok(x) => x,
        Err(e) => return Err(e),
    };
    loop
        invariant
            ts == toks_view(toks@),
            pos < p <= toks@.len(),
            p_term(ts, pos as int) == p_term_rest(ts, p as int, lhs@),
        decreases toks@.len() - p,
    {
        let t = peek(toks, p);
        let star = is_punct(t, Punct::Star);
        if star || is_punct(t, Punct::Slash) {
            match parse_factor(toks, p + 1) {
                Ok((rhs, p2)) => {
                    lhs = if star { Expr::Mul(Box::new(lhs), Box::new(rhs)) } else { Expr::Div(Box::new(lhs), Box::new(rhs)) };
                    p = p2;
                },
                Err(e) => return Err(e),
            }
        } else {
            return Ok((lhs, p));
        }
    }
}

fn parse_factor(toks: &Vec<(Tok, usize)>, pos: usize) -> (r: Result<(Expr, usize), ParseError>)
    requires
        pos <= toks@.len(),
    ensures
        step_view(r) == p_factor(toks_view(toks@), pos as int),
        moved(r, pos, toks@.len()),
    decreases toks@.len() - pos, 1int,
{
    let t = peek(toks, pos);
    match t {
        Some(Tok::Int(v)) => Ok((Expr::Int(*v), pos + 1)),
        Some(Tok::Ident(n)) => Ok((Expr::Param(n.clone()), pos + 1)),
        Some(Tok::Punct(Punct::LParen)) => {
            let (e, p) = match parse_expr(toks, pos + 1) {
                Ok(x) => x,
                Err(err) => return Err(err),
            };
            match expect_punct(toks, p, Punct::RParen) {
                Ok(p2) => Ok((e, p2)),
                Err(err) => Err(err),
            }
        },
        _ => Err(err_next(toks, pos, got("expected expression, got ", t))),
    }
}

fn comparison(t: Option<&Tok>) -> (r: Option<Cmp>)
    ensures
        r == comparison_of(tok_view(t)),
{
    match t {
        Some(Tok::Punct(Punct::Less)) => Some(Cmp::Lt),
        Some(Tok::Punct(Punct::LessEq)) => Some(Cmp::Le),
        Some(Tok::Punct(Punct::Greater)) => Some(Cmp::Gt),
        Some(Tok::Punct(Punct::GreaterEq)) => Some(Cmp::Ge),
        Some(Tok::Punct(Punct::EqEq)) => Some(Cmp::Eq),
        Some(Tok::Punct(Punct::NotEq)) => Some(Cmp::Ne),
        _ => None,
    }
}

fn parse_guard(toks: &Vec<(Tok, usize)>, pos: usize) -> (r: Result<(Guard, usize), ParseError>)
    requires
        pos <= toks@.len(),
    ensures
        step_view(r) == p_guard(toks_view(toks@), pos as int),
        moved(r, pos, toks@.len()),
{
    if is_word(peek(toks, pos), "always") {
        return Ok((Guard::Always, pos + 1));
    }
    let (lhs, p) = match parse_expr(toks, pos) {
        Ok(x) => x,
        Err(e) => return Err(e),
    };
    let t = peek(toks, p);
    match comparison(t) {
        Some(op) => match parse_expr(toks, p + 1) {
            Ok((rhs, p2)) => Ok((Guard::Compare(lhs, op, rhs), p2)),
            Err(e) => Err(e),
        },
        None => Err(err_next(toks, p, got("expected comparison, got ", t))),
    }
}

fn parse_call(toks: &Vec<(Tok, usize)>, pos: usize) -> (r: Result<(Call, usize), ParseError>)
    requires
        pos <= toks@.len(),
    ensures
        step_view(r) == p_call(toks_view(toks@), pos as int),
        moved(r, pos, toks@.len()),
{
    let ghost ts = toks_view(toks@);
    let (cell, p1) = match expect_ident(toks, pos) {
        Ok(x) => x,
        Err(e) => return Err(e),
    };
    let p2 = match expect_punct(toks, p1, Punct::LParen) {
        Ok(x) => x,
        Err(e) => return Err(e),
    };
    let mut args: Vec<Expr> = Vec::new();
    let mut p = p2;
    assert(crate::syntax::exprs_view(args@) =~= seq![]);
    if !is_punct(peek(toks, p2), Punct::RParen) {
        loop
            invariant_except_break
                p_args(ts, p2 as int, seq![]) == p_args(ts, p as int, crate::syntax::exprs_view(args@)),
            invariant
                ts == toks_view(toks@),
                pos < p2 <= p <= toks@.len(),
                p_ident(ts, pos as int) == Ok::<(Seq<char>, int), SpecParseError>((cell@, p1 as int)),
                p_punct(ts, p1 as int, Punct::LParen) == Ok::<int, SpecParseError>(p2 as int),
                tok_at(ts, p2 as int) != Some(SpecTok::Punct(Punct::RParen)),
            ensures
                p_args(ts, p2 as int, seq![]) == Ok::<(Seq<SpecExpr>, int), SpecParseError>((crate::syntax::exprs_view(args@), p as int)),
            decreases toks@.len() - p,
        {
            let (e, q) = match parse_expr(toks, p) {
                Ok(x) => x,
                Err(err) => {
                    assert(p_args(ts, p as int, crate::syntax::exprs_view(args@)) == Err::<(Seq<SpecExpr>, int), SpecParseError>(err@));
                    assert(p_args(ts, p2 as int, seq![]) == Err::<(Seq<SpecExpr>, int), SpecParseError>(err@));
                    return Err(err);
                },
            };
            let ghost before = args@;
            args.push(e);
            assert(crate::syntax::exprs_view(args@) == crate::syntax::exprs_view(before).push(e@));
            if is_punct(peek(toks, q), Punct::Comma) {
                p = q + 1;
            } else {
                p = q;
                break;
            }
        }
    }
    match expect_punct(toks, p, Punct::RParen) {
        Ok(p4) => Ok((Call { cell, args }, p4)),
        Err(e) => Err(e),
    }
}

fn strategy_of(name: &str) -> (r: Option<Strategy>)
    ensures
        r == strategy_named(name@),
{
    if crate::text::text_eq(name, "best") {
        Some(Strategy::Best)
    } else if crate::text::text_eq(name, "robust") {
        Some(Strategy::Robust)
    } else if crate::text::text_eq(name, "unique") {
        Some(Strategy::Unique)
    } else if crate::text::text_eq(name, "diverse") {
        Some(Strategy::Diverse)
    } else {
        None
    }
}

fn parse_query(toks: &Vec<(Tok, usize)>, pos: usize) -> (r: Result<(Query, usize), ParseError>)
    requires
        pos <= toks@.len(),
    ensures
        step_view(r) == p_query(toks_view(toks@), pos as int),
        moved(r, pos, toks@.len()),
{
    let ghost ts = toks_view(toks@);
    let (domain, component_type, p1) = match peek(toks, pos) {
        Some(Tok::Ident(_)) => {
            let (d, q1) = match expect_ident(toks, pos) {
                Ok(x) => x,
                Err(e) => return Err(e),
            };
            let q2 = match expect_punct(toks, q1, Punct::Dot) {
                Ok(x) => x,
                Err(e) => return Err(e),
            };
            let (ty, q3) = match expect_ident(toks, q2) {
                Ok(x) => x,
                Err(e) => return Err(e),
            };
            (d, Some(ty), q3)
        },
        _ => (String::from_str("crystal"), None, pos),
    };
    let (class, p2) = match expect_str(toks, p1) {
        Ok(x) => x,
        Err(e) => return Err(e),
    };
    let mut q = Query {
        domain,
        component_type,
        class,
        min_persistence: Decimal::zero(),
        min_noise_tolerance: Decimal::zero(),
        min_evidence: 0,
        capability: None,
        material: None,
        strategy: Strategy::Best,
    };
    let mut p = p2;
    assert(p_query(ts, pos as int) == p_attrs(ts, p as int, q@));
    loop
        invariant
            ts == toks_view(toks@),
            pos < p <= toks@.len(),
            p_query(ts, pos as int) == p_attrs(ts, p as int, q@),
        decreases toks@.len() - p,
    {
        let t = peek(toks, p);
        if is_word(t, "min_persistence") {
            match expect_number(toks, p + 1) {
                Ok((n, p3)) => {
                    q.min_persistence = n;
                    p = p3;
                },
                Err(e) => return Err(e),
            }
        } else if is_word(t, "min_noise_tolerance") {
            match expect_number(toks, p + 1) {
                Ok((n, p3)) => {
                    q.min_noise_tolerance = n;
                    p = p3;
                },
                Err(e) => return Err(e),
            }
        } else if is_word(t, "min_evidence") {
            match expect_number(toks, p + 1) {
                Ok((n, p3)) => match n.to_evidence_level() {
                    Some(level) => {
                        q.min_evidence = level;
                        p = p3;
                    },
                    None => {
                        let shown = n.to_text();
                        let m = crate::text::cat(
                            "min_evidence must be an integer evidence-ladder level 0-8, got ",
                            shown.as_str(),
                        );
                        return Err(err_here(toks, p3, m));
                    },
                },
                Err(e) => return Err(e),
            }
        } else if is_word(t, "capability") {
            match expect_str(toks, p + 1) {
                Ok((s, p3)) => {
                    q.capability = Some(s);
                    p = p3;
                },
                Err(e) => return Err(e),
            }
        } else if is_word(t, "material") {
            match expect_str(toks, p + 1) {
                Ok((s, p3)) => {
                    q.material = Some(s);
                    p = p3;
                },
                Err(e) => return Err(e),
            }
        } else if is_word(t, "strategy") {
            match expect_ident(toks, p + 1) {
                Ok((name, p3)) => match strategy_of(name.as_str()) {
                    Some(st) => {
                        q.strategy = st;
                        p = p3;
                    },
                    None => {
                        let mut m = String::from_str("unknown strategy `");
                        m.append(name.as_str());
                        m.append("` (best | robust | unique | diverse)");
                        return Err(err_here(toks, p3, m));
                    },
                },
                Err(e) => return Err(e),
            }
        } else {
            return Ok((q, p));
        }
    }
}

fn parse_action(toks: &Vec<(Tok, usize)>, pos: usize) -> (r: Result<(Action, usize), ParseError>)
    requires
        pos <= toks@.len(),
    ensures
        step_view(r) == p_action(toks_view(toks@), pos as int),
        moved(r, pos, toks@.len()),
{
    let ghost ts = toks_view(toks@);
    let t = peek(toks, pos);
    if is_word(t, "split") {
        let mut children: Vec<Call> = Vec::new();
        let mut p = pos + 1;
        assert(crate::syntax::calls_view(children@) =~= seq![]);
        loop
            invariant_except_break
                p_children(ts, pos + 1, seq![]) == p_children(ts, p as int, crate::syntax::calls_view(children@)),
            invariant
                ts == toks_view(toks@),
                pos < p <= toks@.len(),
                tok_at(ts, pos as int) == Some(SpecTok::Ident("split"@)),
            ensures
                p_children(ts, pos + 1, seq![]) == Ok::<(Seq<SpecCall>, int), SpecParseError>((crate::syntax::calls_view(children@), p as int)),
            decreases toks@.len() - p,
        {
            let (c, q) = match parse_call(toks, p) {
                Ok(x) => x,
                Err(err) => {
                    assert(p_children(ts, p as int, crate::syntax::calls_view(children@)) == Err::<(Seq<SpecCall>, int), SpecParseError>(err@));
                    assert(p_children(ts, pos + 1, seq![]) == Err::<(Seq<SpecCall>, int), SpecParseError>(err@));
                    return Err(err);
                },
            };
            let ghost before = children@;
            children.push(c);
            assert(crate::syntax::calls_view(children@) == crate::syntax::calls_view(before).push(c@));
            if is_punct(peek(toks, q), Punct::Comma) {
                p = q + 1;
            } else {
                p = q;
                break;
            }
        }
        if is_word(peek(toks, p), "bridge") {
            match parse_query(toks, p + 1) {
                Ok((q, p2)) => Ok((Action::Split { children, bridge: Some(q) }, p2)),
                Err(e) => Err(e),
            }
        } else {
            Ok((Action::Split { children, bridge: None }, p))
        }
    } else if is_word(t, "base") {
        match parse_query(toks, pos + 1) {
            Ok((q, p)) => Ok((Action::Base(q), p)),
            Err(e) => Err(e),
        }
    } else {
        Err(err_next(toks, pos, got("expected `split` or `base`, got ", t)))
    }
}

fn parse_params(toks: &Vec<(Tok, usize)>, pos: usize) -> (r: Result<(Vec<String>, usize), ParseError>)
    requires
        pos <= toks@.len(),
    ensures
        match p_params(toks_view(toks@), pos as int, seq![]) {
            Ok((v, q)) => r matches Ok((x, q2)) && crate::syntax::strings_view(x@) == v && q2 == q,
            Err(e) => r matches Err(x) && x@ == e,
        },
        moved(r, pos, toks@.len()),
{
    let ghost ts = toks_view(toks@);
    let mut params: Vec<String> = Vec::new();
    let mut p = pos;
    assert(crate::syntax::strings_view(params@) =~= seq![]);
    loop
        invariant_except_break
            p_params(ts, pos as int, seq![]) == p_params(ts, p as int, crate::syntax::strings_view(params@)),
        invariant
            ts == toks_view(toks@),
            pos <= p <= toks@.len(),
        ensures
            pos < p,
            p_params(ts, pos as int, seq![]) == Ok::<(Seq<Seq<char>>, int), SpecParseError>((crate::syntax::strings_view(params@), p as int)),
        decreases toks@.len() - p,
    {
        let (s, q) = match expect_ident(toks, p) {
            Ok(x) => x,
            Err(err) => return Err(err),
        };
        let ghost before = params@;
        params.push(s);
        assert(crate::syntax::strings_view(params@) == crate::syntax::strings_view(before).push(s@));
        if is_punct(peek(toks, q), Punct::Comma) {
            p = q + 1;
        } else {
            p = q;
            break;
        }
    }
    Ok((params, p))
}

fn parse_rules(toks: &Vec<(Tok, usize)>, pos: usize) -> (r: Result<(Vec<Rule>, usize), ParseError>)
    requires
        pos <= toks@.len(),
    ensures
        match p_rules(toks_view(toks@), pos as int, seq![]) {
            Ok((v, q)) => r matches Ok((x, q2)) && crate::syntax::rules_view(x@) == v && q2 == q,
            Err(e) => r matches Err(x) && x@ == e,
        },
        r matches Ok((_, q)) ==> pos <= q <= toks@.len(),
{
    let ghost ts = toks_view(toks@);
    let mut rules: Vec<Rule> = Vec::new();
    let mut p = pos;
    assert(crate::syntax::rules_view(rules@) =~= seq![]);
    loop
        invariant_except_break
            p_rules(ts, pos as int, seq![]) == p_rules(ts, p as int, crate::syntax::rules_view(rules@)),
        invariant
            ts == toks_view(toks@),
            pos <= p <= toks@.len(),
        ensures
            p_rules(ts, pos as int, seq![]) == Ok::<(Seq<SpecRule>, int), SpecParseError>((crate::syntax::rules_view(rules@), p as int)),
        decreases toks@.len() - p,
    {
        let t = peek(toks, p);
        if is_punct(t, Punct::RBrace) {
            break;
        }
        if !is_word(t, "when") {
            return Err(err_next(toks, p, got("expected `when`, got ", t)));
        }
        let line = line_here(toks, p);
        let (guard, q1) = match parse_guard(toks, p + 1) {
            Ok(x) => x,
            Err(e) => return Err(e),
        };
        let q2 = match expect_punct(toks, q1, Punct::Arrow) {
            Ok(x) => x,
            Err(e) => return Err(e),
        };
        let (action, q3) = match parse_action(toks, q2) {
            Ok(x) => x,
            Err(e) => return Err(e),
        };
        let rule = Rule { guard, action, line };
        let ghost before = rules@;
        let ghost rv = rule@;
        rules.push(rule);
        assert(crate::syntax::rules_view(rules@) == crate::syntax::rules_view(before).push(rv));
        p = q3;
    }
    Ok((rules, p))
}

fn parse_cell(toks: &Vec<(Tok, usize)>, pos: usize) -> (r: Result<(CellDef, usize), ParseError>)
    requires
        pos <= toks@.len(),
    ensures
        step_view(r) == p_cell(toks_view(toks@), pos as int),
        moved(r, pos, toks@.len()),
{
    let ghost ts = toks_view(toks@);
    let (name, p1) = match expect_ident(toks, pos) {
        Ok(x) => x,
        Err(e) => return Err(e),
    };
    let p2 = match expect_punct(toks, p1, Punct::LParen) {
        Ok(x) => x,
        Err(e) => return Err(e),
    };
    let (params, p3) = if !is_punct(peek(toks, p2), Punct::RParen) {
        match parse_params(toks, p2) {
            Ok(x) => x,
            Err(e) => return Err(e),
        }
    } else {
        let v: Vec<String> = Vec::new();
        assert(crate::syntax::strings_view(v@) =~= seq![]);
        (v, p2)
    };
    let p4 = match expect_punct(toks, p3, Punct::RParen) {
        Ok(x) => x,
        Err(e) => return Err(e),
    };
    let p5 = match expect_punct(toks, p4, Punct::LBrace) {
        Ok(x) => x,
        Err(e) => return Err(e),
    };
    let (rules, p) = match parse_rules(toks, p5) {
        Ok(x) => x,
        Err(e) => return Err(e),
    };
    let p7 = match expect_punct(toks, p, Punct::RBrace) {
        Ok(x) => x,
        Err(e) => return Err(e),
    };
    if rules.len() == 0 {
        let mut m = String::from_str("cell ");
        m.append(name.as_str());
        m.append(" has no rules");
        return Err(err_here(toks, p7, m));
    }
    Ok((CellDef { name, params, rules }, p7))
}

fn parse_expect(toks: &Vec<(Tok, usize)>, pos: usize) -> (r: Result<(Expect, usize), ParseError>)
    requires
        pos < toks@.len(),
    ensures
        step_view(r) == p_expect(toks_view(toks@), crate::syntax::int_of(pos)),
        moved(r, pos, toks@.len()),
{
    let n = toks.len();
    let line = line_here(toks, pos);
    let (metric, p1) = match expect_ident(toks, pos + 1) {
        Ok(x) => x,
        Err(e) => return Err(e),
    };
    let t = peek(toks, p1);
    match comparison(t) {
        Some(op) => match expect_number(toks, p1 + 1) {
            Ok((value, p2)) => Ok((Expect { metric, cmp: op, value, line }, p2)),
            Err(e) => Err(e),
        },
        None => Err(err_next(toks, p1, got("expected comparison, got ", t))),
    }
}

/// The view of a parse result.
pub open spec fn program_view(r: Result<Program, ParseError>) -> Result<SpecProgram, SpecParseError> {
    match r {
        Ok(p) => Ok(p@),
        Err(e) => Err(e@),
    }
}

fn parse_tokens(toks: &Vec<(Tok, usize)>) -> (r: Result<Program, ParseError>)
    ensures
        program_view(r) == p_program(toks_view(toks@), 0, SpecProgram { cells: seq![], grows: seq![], expects: seq![] }),
{
    let ghost ts = toks_view(toks@);
    let mut prog = Program { cells: Vec::new(), grows: Vec::new(), expects: Vec::new() };
    let mut p: usize = 0;
    assert(crate::syntax::cells_view(prog.cells@) =~= seq![]);
    assert(crate::syntax::calls_view(prog.grows@) =~= seq![]);
    assert(crate::syntax::expects_view(prog.expects@) =~= seq![]);
    assert(prog@ == SpecProgram { cells: seq![], grows: seq![], expects: seq![] });
    loop
        invariant
            ts == toks_view(toks@),
            p <= toks@.len(),
            p_program(ts, 0, SpecProgram { cells: seq![], grows: seq![], expects: seq![] })
                == p_program(ts, p as int, prog@),
        decreases toks@.len() - p,
    {
        let t = peek(toks, p);
        match t {
            None => {
                if prog.grows.len() == 0 {
                    return Err(ParseError { line: 0, message: String::from_str("no `grow` statement") });
                }
                return Ok(prog);
            },
            Some(tok) => {
                let ghost before = prog@;
                if is_word(t, "cell") {
                    match parse_cell(toks, p + 1) {
                        Ok((c, q)) => {
                            let ghost cv = c@;
                            prog.cells.push(c);
                            assert(prog@.cells == before.cells.push(cv));
                            assert(prog@ == SpecProgram { cells: before.cells.push(cv), ..before });
                            p = q;
                        },
                        Err(e) => return Err(e),
                    }
                } else if is_word(t, "grow") {
                    match parse_call(toks, p + 1) {
                        Ok((c, q)) => {
                            let ghost cv = c@;
                            prog.grows.push(c);
                            assert(prog@.grows == before.grows.push(cv));
                            assert(prog@ == SpecProgram { grows: before.grows.push(cv), ..before });
                            p = q;
                        },
                        Err(e) => return Err(e),
                    }
                } else if is_word(t, "expect") {
                    match parse_expect(toks, p) {
                        Ok((x, q)) => {
                            let ghost xv = x@;
                            prog.expects.push(x);
                            assert(prog@.expects == before.expects.push(xv));
                            assert(prog@ == SpecProgram { expects: before.expects.push(xv), ..before });
                            p = q;
                        },
                        Err(e) => return Err(e),
                    }
                } else {
                    let mut m = String::from_str("expected `cell`, `grow`, or `expect`, got ");
                    let d = crate::lexer::describe(tok);
                    m.append(d.as_str());
                    return Err(err_here(toks, p, m));
                }
            },
        }
    }
}

/// Parses a KannakaHDL program: exactly the program `spec_parse` gives
/// for the source, or exactly its error.
pub fn parse(source: &str) -> (r: Result<Program, ParseError>)
    ensures
        program_view(r) == spec_parse(source@),
{
    match crate::lexer::lex(source) {
        Ok(toks) => parse_tokens(&toks),
        Err(e) => Err(e),
    }
}

} // verus!
