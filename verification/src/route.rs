//! How one file's diff proceeds once its language is known and, for a
//! known language, once the parser has had its try: identical files return
//! at once; a file in no known language, or whose parse failed a limit, is
//! diffed by lines, with the reason said; `--check-only` stops before any
//! line diff.
use crate::text::{decimal, owned, push_decimal, push_str};
use vstd::prelude::*;

verus! {

/// How the parser fared on both sides of a file in a known language.
#[derive(Clone, Debug)]
pub enum ParseOutcome {
    /// Both sides parsed; the structural diff then did or did not exceed
    /// the graph limit.
    Parsed { graph_limit_exceeded: bool },
    /// Too many parse errors: how many, and where the first is, as its
    /// line as shown, its column and whether it is in the initial file.
    TooManyErrors { count: u64, first: Option<(String, u64, bool)> },
    /// The sources are larger than the byte limit: their size as shown.
    TooLarge { size: String },
}

/// Where the diff of one file goes next.
#[derive(Clone, Debug)]
pub enum Route {
    /// The sides are identical: nothing more is done.
    Identical,
    /// `--check-only` on text: only whether bytes changed is reported, with
    /// the reason the text is not parsed, if any.
    CheckOnlyText { reason: Option<String> },
    /// `--check-only` on parsed sides: whether their syntax differs is
    /// reported.
    CheckOnlySyntax,
    /// A line diff, with the reason it stands in for a structural one, if
    /// any, and whether folds and context still come from the parsed trees.
    Lines { reason: Option<String>, keeps_trees: bool },
    /// The structural diff stands.
    Syntax,
}

/// Why a diff that exceeded the graph limit is shown by lines.
pub open spec fn graph_reason(graph_limit: u64) -> Seq<char> {
    "structural diff exceeded diff.graph_limit ("@ + decimal(graph_limit as nat) + "); raise it in diffr config"@
}

/// Where the first parse error is, in words.
pub open spec fn location_spec(first: Option<(Seq<char>, u64, bool)>) -> Seq<char> {
    match first {
        Some((line, column, initial)) => ", first at "@ + line + ":"@ + decimal(column as nat) + if initial {
            " in initial file"@
        } else {
            ""@
        },
        None => ""@,
    }
}

/// Why a file with too many parse errors is shown by lines.
pub open spec fn errors_reason(count: u64, language: Seq<char>, first: Option<(Seq<char>, u64, bool)>) -> Seq<char> {
    decimal(count as nat) + " "@ + language + " parse error"@ + (if count == 1 {
        ""@
    } else {
        "s"@
    }) + ", exceeded DFT_PARSE_ERROR_LIMIT"@ + location_spec(first)
}

/// Why a file larger than the byte limit is shown by lines.
pub open spec fn size_reason(size: Seq<char>, byte_limit: u64) -> Seq<char> {
    size + " exceeded diff.byte_limit ("@ + decimal(byte_limit as nat) + "); raise it in diffr config"@
}

/// Where the first parse error is, as plain values.
pub open spec fn first_view(first: Option<(String, u64, bool)>) -> Option<(Seq<char>, u64, bool)> {
    match first {
        Some((line, column, initial)) => Some((line@, column, initial)),
        None => None,
    }
}

/// An optional reason as its characters.
pub open spec fn reason_view(reason: Option<String>) -> Option<Seq<char>> {
    match reason {
        Some(r) => Some(r@),
        None => None,
    }
}

/// The reason a file in a known language is shown by lines, if it is.
pub open spec fn fallback_reason(outcome: ParseOutcome, language: Seq<char>, graph_limit: u64, byte_limit: u64) -> Option<
    Seq<char>,
> {
    match outcome {
        ParseOutcome::Parsed { graph_limit_exceeded } => if graph_limit_exceeded {
            Some(graph_reason(graph_limit))
        } else {
            None
        },
        ParseOutcome::TooManyErrors { count, first } => Some(errors_reason(count, language, first_view(first))),
        ParseOutcome::TooLarge { size } => Some(size_reason(size@, byte_limit)),
    }
}

/// Whether a route goes where the rules say, given the file's situation:
/// identical sides return at once; a file in no known language is text,
/// checked or diffed by lines; a file that parsed is checked by its syntax
/// or diffed structurally, or by lines when the graph limit was exceeded;
/// a file that failed the error or byte limit is text, checked or diffed by
/// lines with the reason said, folds coming from the trees only after too
/// many errors.
pub open spec fn route_spec(
    r: Route,
    identical: bool,
    language: Option<Seq<char>>,
    check_only: bool,
    outcome: Option<ParseOutcome>,
    graph_limit: u64,
    byte_limit: u64,
) -> bool {
    if identical {
        r is Identical
    } else {
        match language {
            None => if check_only {
                r matches Route::CheckOnlyText { reason } && reason is None
            } else {
                r matches Route::Lines { reason, keeps_trees } && reason is None && !keeps_trees
            },
            Some(name) => {
                let outcome = outcome->0;
                let reason = fallback_reason(outcome, name, graph_limit, byte_limit);
                if check_only {
                    if outcome is Parsed {
                        r is CheckOnlySyntax
                    } else {
                        r matches Route::CheckOnlyText { reason: given } && reason_view(given) == reason
                    }
                } else if reason is None {
                    r is Syntax
                } else {
                    r matches Route::Lines { reason: given, keeps_trees } && reason_view(given) == reason
                        && keeps_trees == !(outcome is TooLarge)
                }
            },
        }
    }
}

/// An optional name as its characters.
pub open spec fn name_view(language: Option<String>) -> Option<Seq<char>> {
    match language {
        Some(l) => Some(l@),
        None => None,
    }
}

/// The reason a file in a known language is shown by lines, if it is.
fn fallback(outcome: &ParseOutcome, language: &String, graph_limit: u64, byte_limit: u64) -> (reason: Option<String>)
    ensures
        reason_view(reason) == fallback_reason(*outcome, language@, graph_limit, byte_limit),
{
    match outcome {
        ParseOutcome::Parsed { graph_limit_exceeded } => {
            if *graph_limit_exceeded {
                let mut text = owned("structural diff exceeded diff.graph_limit (");
                push_decimal(&mut text, graph_limit);
                push_str(&mut text, "); raise it in diffr config");
                assert(text@ =~= graph_reason(graph_limit));
                Some(text)
            } else {
                None
            }
        },
        ParseOutcome::TooManyErrors { count, first } => {
            let mut text = String::new();
            push_decimal(&mut text, *count);
            push_str(&mut text, " ");
            push_str(&mut text, language.as_str());
            push_str(&mut text, " parse error");
            if *count != 1 {
                push_str(&mut text, "s");
            } else {
                proof {
                    reveal_strlit("");
                }
            }
            push_str(&mut text, ", exceeded DFT_PARSE_ERROR_LIMIT");
            let ghost head = text@;
            match first {
                Some((line, column, initial)) => {
                    push_str(&mut text, ", first at ");
                    push_str(&mut text, line.as_str());
                    push_str(&mut text, ":");
                    push_decimal(&mut text, *column);
                    if *initial {
                        push_str(&mut text, " in initial file");
                    } else {
                        proof {
                            reveal_strlit("");
                        }
                    }
                },
                None => {
                    proof {
                        reveal_strlit("");
                    }
                },
            }
            proof {
                assert(text@ =~= errors_reason(*count, language@, first_view(*first)));
            }
            Some(text)
        },
        ParseOutcome::TooLarge { size } => {
            let mut text = owned(size.as_str());
            push_str(&mut text, " exceeded diff.byte_limit (");
            push_decimal(&mut text, byte_limit);
            push_str(&mut text, "); raise it in diffr config");
            assert(text@ =~= size_reason(size@, byte_limit));
            Some(text)
        },
    }
}

/// Where the diff of one file goes next. `language` names the file's
/// language when one is known, and `outcome` is how the parser fared,
/// which it always has when the language is known and the sides differ.
pub fn route(
    identical: bool,
    language: Option<String>,
    check_only: bool,
    outcome: Option<ParseOutcome>,
    graph_limit: u64,
    byte_limit: u64,
) -> (r: Route)
    requires
        !identical && language is Some ==> outcome is Some,
    ensures
        route_spec(r, identical, name_view(language), check_only, outcome, graph_limit, byte_limit),
{
    if identical {
        return Route::Identical;
    }
    match language {
        None => {
            if check_only {
                Route::CheckOnlyText { reason: None }
            } else {
                Route::Lines { reason: None, keeps_trees: false }
            }
        },
        Some(name) => {
            let outcome = match outcome {
                Some(o) => o,
                None => {
                    return Route::Identical;
                },
            };
            let reason = fallback(&outcome, &name, graph_limit, byte_limit);
            let parsed = match outcome {
                ParseOutcome::Parsed { .. } => true,
                _ => false,
            };
            let too_large = match outcome {
                ParseOutcome::TooLarge { .. } => true,
                _ => false,
            };
            if check_only {
                if parsed {
                    Route::CheckOnlySyntax
                } else {
                    Route::CheckOnlyText { reason }
                }
            } else {
                match reason {
                    None => Route::Syntax,
                    Some(text) => Route::Lines { reason: Some(text), keeps_trees: !too_large },
                }
            }
        },
    }
}

} // verus!
