//! The mathematical model of argument tokenizing: a single left-to-right
//! pass that splits a token sequence into positional tokens and named
//! options, together with the laws that hold of every pass.

use vstd::prelude::*;

verus! {

/// The abstract outcome of tokenizing an argument list: the positional
/// tokens in input order, and a mapping from each option name (its dash
/// prefix stripped) to its optional value.
#[verifier::ext_equal]
pub struct ParseModel {
    pub positional: Seq<Seq<char>>,
    pub options: Map<Seq<char>, Option<Seq<char>>>,
}

/// A token introduces an option exactly when it begins with a dash.
pub open spec fn is_option_marker(token: Seq<char>) -> bool {
    token.len() >= 1 && token[0] == '-'
}

/// The option name carried by a marker token: the text after the leading
/// `--`, or after the leading `-` when no second dash follows. The name may
/// be empty (a lone `-` or `--`) and may itself contain further dashes.
pub open spec fn option_name_of(token: Seq<char>) -> Seq<char>
    recommends
        is_option_marker(token),
{
    if token.len() >= 2 && token[1] == '-' {
        token.subrange(2, token.len() as int)
    } else {
        token.subrange(1, token.len() as int)
    }
}

/// A marker at position `i` takes the next token as its value exactly when
/// that token exists and is not itself an option marker.
pub open spec fn marker_takes_value(tokens: Seq<Seq<char>>, i: int) -> bool {
    i + 1 < tokens.len() && !is_option_marker(tokens[i + 1])
}

/// The result of tokenizing nothing: no positional tokens, no options.
pub open spec fn empty_model() -> ParseModel {
    ParseModel { positional: Seq::empty(), options: Map::empty() }
}

/// One left-to-right pass over `tokens` from position `i`, carrying the
/// result built so far. A marker records its name, overwriting any earlier
/// entry under the same name, and consumes the following token as its value
/// when that token exists and is not itself a marker; any other token is
/// appended to the positional sequence.
pub open spec fn parse_from(tokens: Seq<Seq<char>>, i: int, acc: ParseModel) -> ParseModel
    decreases tokens.len() - i,
{
    if i < 0 || i >= tokens.len() {
        acc
    } else if is_option_marker(tokens[i]) {
        let name = option_name_of(tokens[i]);
        if marker_takes_value(tokens, i) {
            parse_from(
                tokens,
                i + 2,
                ParseModel {
                    positional: acc.positional,
                    options: acc.options.insert(name, Some(tokens[i + 1])),
                },
            )
        } else {
            parse_from(
                tokens,
                i + 1,
                ParseModel {
                    positional: acc.positional,
                    options: acc.options.insert(name, None),
                },
            )
        }
    } else {
        parse_from(
            tokens,
            i + 1,
            ParseModel { positional: acc.positional.push(tokens[i]), options: acc.options },
        )
    }
}

/// What a full pass over `tokens` produces.
pub open spec fn parse_model(tokens: Seq<Seq<char>>) -> ParseModel {
    parse_from(tokens, 0, empty_model())
}

/// How many of the tokens from position `i` on the pass consumes as option
/// names or as option values.
pub open spec fn tokens_consumed_by_options(tokens: Seq<Seq<char>>, i: int) -> int
    decreases tokens.len() - i,
{
    if i < 0 || i >= tokens.len() {
        0
    } else if is_option_marker(tokens[i]) {
        if marker_takes_value(tokens, i) {
            2 + tokens_consumed_by_options(tokens, i + 2)
        } else {
            1 + tokens_consumed_by_options(tokens, i + 1)
        }
    } else {
        tokens_consumed_by_options(tokens, i + 1)
    }
}

proof fn lemma_parse_from_accounts(tokens: Seq<Seq<char>>, i: int, acc: ParseModel)
    requires
        0 <= i <= tokens.len(),
    ensures
        parse_from(tokens, i, acc).positional.len() + tokens_consumed_by_options(tokens, i)
            == acc.positional.len() + tokens.len() - i,
    decreases tokens.len() - i,
{
    if i < tokens.len() {
        if is_option_marker(tokens[i]) {
            let name = option_name_of(tokens[i]);
            if marker_takes_value(tokens, i) {
                lemma_parse_from_accounts(
                    tokens,
                    i + 2,
                    ParseModel {
                        positional: acc.positional,
                        options: acc.options.insert(name, Some(tokens[i + 1])),
                    },
                );
            } else {
                lemma_parse_from_accounts(
                    tokens,
                    i + 1,
                    ParseModel {
                        positional: acc.positional,
                        options: acc.options.insert(name, None),
                    },
                );
            }
        } else {
            lemma_parse_from_accounts(
                tokens,
                i + 1,
                ParseModel { positional: acc.positional.push(tokens[i]), options: acc.options },
            );
        }
    }
}

proof fn lemma_parse_from_positional_source(tokens: Seq<Seq<char>>, i: int, acc: ParseModel)
    requires
        0 <= i <= tokens.len(),
    ensures
        forall|t: Seq<char>|
            parse_from(tokens, i, acc).positional.contains(t) ==> acc.positional.contains(t)
                || tokens.contains(t),
    decreases tokens.len() - i,
{
    if i < tokens.len() {
        if is_option_marker(tokens[i]) {
            let name = option_name_of(tokens[i]);
            if marker_takes_value(tokens, i) {
                lemma_parse_from_positional_source(
                    tokens,
                    i + 2,
                    ParseModel {
                        positional: acc.positional,
                        options: acc.options.insert(name, Some(tokens[i + 1])),
                    },
                );
            } else {
                lemma_parse_from_positional_source(
                    tokens,
                    i + 1,
                    ParseModel {
                        positional: acc.positional,
                        options: acc.options.insert(name, None),
                    },
                );
            }
        } else {
            let pushed = acc.positional.push(tokens[i]);
            lemma_parse_from_positional_source(
                tokens,
                i + 1,
                ParseModel { positional: pushed, options: acc.options },
            );
            assert(tokens.contains(tokens[i]));
            assert forall|t: Seq<char>| pushed.contains(t) implies acc.positional.contains(t)
                || tokens.contains(t) by {
                let j = choose|j: int| 0 <= j < pushed.len() && pushed[j] == t;
                if j < acc.positional.len() {
                    assert(acc.positional[j] == t);
                } else {
                    assert(t == tokens[i]);
                }
            }
        }
    }
}

/// Every input token is accounted for exactly once: each one either lands
/// in the positional sequence or is consumed as an option name or an
/// option value, so the counts add up to the input length, and no
/// positional token appears from outside the input.
pub proof fn lemma_every_token_accounted(tokens: Seq<Seq<char>>)
    ensures
        parse_model(tokens).positional.len() + tokens_consumed_by_options(tokens, 0)
            == tokens.len(),
        forall|t: Seq<char>| parse_model(tokens).positional.contains(t) ==> tokens.contains(t),
{
    lemma_parse_from_accounts(tokens, 0, empty_model());
    lemma_parse_from_positional_source(tokens, 0, empty_model());
    assert(forall|t: Seq<char>| !empty_model().positional.contains(t));
}

/// An option marker followed by another option marker, or standing last,
/// never consumes the next token as its value: the pass records the name
/// with no value and moves on to the very next token.
pub proof fn lemma_marker_never_consumes_marker(tokens: Seq<Seq<char>>, i: int, acc: ParseModel)
    requires
        0 <= i < tokens.len(),
        is_option_marker(tokens[i]),
        i + 1 < tokens.len() ==> is_option_marker(tokens[i + 1]),
    ensures
        parse_from(tokens, i, acc) == parse_from(
            tokens,
            i + 1,
            ParseModel {
                positional: acc.positional,
                options: acc.options.insert(option_name_of(tokens[i]), None),
            },
        ),
{
}

/// When the pass reaches a marker that repeats an option name, whatever
/// was recorded for that name before is irrelevant: the later occurrence
/// overwrites it.
pub proof fn lemma_later_occurrence_overwrites(
    tokens: Seq<Seq<char>>,
    i: int,
    acc1: ParseModel,
    acc2: ParseModel,
)
    requires
        0 <= i < tokens.len(),
        is_option_marker(tokens[i]),
        acc1.positional == acc2.positional,
        acc1.options.remove(option_name_of(tokens[i])) == acc2.options.remove(
            option_name_of(tokens[i]),
        ),
    ensures
        parse_from(tokens, i, acc1) == parse_from(tokens, i, acc2),
{
    let name = option_name_of(tokens[i]);
    let value = if marker_takes_value(tokens, i) {
        Some(tokens[i + 1])
    } else {
        None
    };
    assert(acc1.options.insert(name, value) =~= acc2.options.insert(name, value)) by {
        assert forall|k: Seq<char>| acc1.options.insert(name, value).contains_key(k)
            <==> acc2.options.insert(name, value).contains_key(k) by {
            if k != name {
                assert(acc1.options.remove(name).contains_key(k) == acc1.options.contains_key(k));
                assert(acc2.options.remove(name).contains_key(k) == acc2.options.contains_key(k));
            }
        }
        assert forall|k: Seq<char>|
            acc1.options.insert(name, value).contains_key(k) && k != name implies acc1.options.insert(
            name,
            value,
        )[k] == acc2.options.insert(name, value)[k] by {
            assert(acc1.options.remove(name)[k] == acc2.options.remove(name)[k]);
        }
    }
}

/// Parsing is a pure function of the token sequence: two passes over equal
/// inputs yield equal results.
pub proof fn lemma_parse_deterministic(tokens1: Seq<Seq<char>>, tokens2: Seq<Seq<char>>)
    requires
        tokens1 == tokens2,
    ensures
        parse_model(tokens1) == parse_model(tokens2),
{
}

} // verus!

