//! A simple command-line argument tokenizer: it splits an argument list
//! into positional tokens and named options and exposes read-only lookups.

pub mod model;
pub mod table;

use vstd::prelude::*;
use vstd::slice::slice_index_get;
use vstd::string::StrSliceExecFns;

verus! {

/// A token is an option marker exactly when its first character is a dash.
fn starts_with_dash(s: &str) -> (r: bool)
    ensures
        r == crate::model::is_option_marker(s@),
{
    s.unicode_len() >= 1 && s.get_char(0) == '-'
}

/// The option name a marker token carries: the token with its leading
/// `--`, or single leading `-`, stripped.
fn marker_name(s: &str) -> (name: String)
    requires
        crate::model::is_option_marker(s@),
    ensures
        name@ == crate::model::option_name_of(s@),
{
    let n: usize = s.unicode_len();
    if n >= 2 && s.get_char(1) == '-' {
        s.substring_char(2, n).to_owned()
    } else {
        s.substring_char(1, n).to_owned()
    }
}

/// Command-line arguments split into positional tokens and named options.
///
/// Built by [`Args::parse_raw`] from an ordered token list, immutable
/// thereafter; the accessors only read it.
#[derive(Debug, Clone)]
pub struct Args {
    positional: Vec<String>,
    options: Vec<(String, Option<String>)>,
}

impl View for Args {
    type V = crate::model::ParseModel;

    closed spec fn view(&self) -> crate::model::ParseModel {
        crate::model::ParseModel {
            positional: self.positional.deep_view(),
            options: crate::table::entries_map(self.options.deep_view()),
        }
    }
}

impl Args {
    /// Tokenize an ordered argument list in one left-to-right pass.
    ///
    /// Every sequence of strings parses successfully: a token beginning
    /// with a dash records an option (consuming the next token as its
    /// value when that token exists and does not begin with a dash), and
    /// any other token is appended to the positional sequence.
    pub fn parse_raw(raw_args: &[String]) -> (result: Args)
        ensures
            result@ == crate::model::parse_model(raw_args.deep_view()),
    {
        let ghost toks = raw_args.deep_view();
        let l: usize = raw_args.len();
        let mut positional: Vec<String> = Vec::new();
        let mut options: Vec<(String, Option<String>)> = Vec::new();
        let mut i: usize = 0;
        proof {
            assert(positional.deep_view() =~= Seq::<Seq<char>>::empty());
            assert(options.deep_view() =~= Seq::<(Seq<char>, Option<Seq<char>>)>::empty());
            assert(crate::model::ParseModel {
                positional: positional.deep_view(),
                options: crate::table::entries_map(options.deep_view()),
            } =~= crate::model::empty_model());
        }
        while i < l
            invariant
                l == raw_args@.len(),
                toks == raw_args.deep_view(),
                i <= l,
                crate::model::parse_from(
                    toks,
                    i as int,
                    crate::model::ParseModel {
                        positional: positional.deep_view(),
                        options: crate::table::entries_map(options.deep_view()),
                    },
                ) == crate::model::parse_model(toks),
            decreases l - i,
        {
            let ghost before = crate::model::ParseModel {
                positional: positional.deep_view(),
                options: crate::table::entries_map(options.deep_view()),
            };
            let token = slice_index_get(raw_args, i);
            proof {
                assert(toks[i as int] == raw_args@[i as int]@);
            }
            if starts_with_dash(token.as_str()) {
                let ghost name_spec = crate::model::option_name_of(toks[i as int]);
                let name = marker_name(token.as_str());
                let has_value = i + 1 < l && !starts_with_dash(
                    slice_index_get(raw_args, i + 1).as_str(),
                );
                proof {
                    if i + 1 < l {
                        assert(toks[i as int + 1] == raw_args@[i as int + 1]@);
                    }
                    assert(has_value == crate::model::marker_takes_value(toks, i as int));
                }
                if has_value {
                    let ghost entries0 = options.deep_view();
                    let value = slice_index_get(raw_args, i + 1).clone();
                    proof {
                        assert(value@ == toks[i as int + 1]);
                    }
                    options.push((name, Some(value)));
                    proof {
                        assert(options.deep_view() =~= entries0.push(
                            (name_spec, Some(toks[i as int + 1])),
                        ));
                        crate::table::lemma_entries_map_push(
                            entries0,
                            name_spec,
                            Some(toks[i as int + 1]),
                        );
                        let stepped = crate::model::ParseModel {
                            positional: before.positional,
                            options: before.options.insert(name_spec, Some(toks[i as int + 1])),
                        };
                        assert(crate::model::parse_from(toks, i as int, before)
                            == crate::model::parse_from(toks, i as int + 2, stepped));
                    }
                    i = i + 2;
                } else {
                    let ghost entries0 = options.deep_view();
                    options.push((name, None));
                    proof {
                        assert(options.deep_view() =~= entries0.push((name_spec, None)));
                        crate::table::lemma_entries_map_push(entries0, name_spec, None);
                        let stepped = crate::model::ParseModel {
                            positional: before.positional,
                            options: before.options.insert(name_spec, None),
                        };
                        assert(crate::model::parse_from(toks, i as int, before)
                            == crate::model::parse_from(toks, i as int + 1, stepped));
                    }
                    i = i + 1;
                }
            } else {
                let ghost pos0 = positional.deep_view();
                positional.push(token.clone());
                proof {
                    assert(positional.deep_view() =~= pos0.push(toks[i as int]));
                    let stepped = crate::model::ParseModel {
                        positional: before.positional.push(toks[i as int]),
                        options: before.options,
                    };
                    assert(crate::model::parse_from(toks, i as int, before)
                        == crate::model::parse_from(toks, i as int + 1, stepped));
                }
                i = i + 1;
            }
        }
        proof {
            assert(crate::model::parse_from(
                toks,
                l as int,
                crate::model::ParseModel {
                    positional: positional.deep_view(),
                    options: crate::table::entries_map(options.deep_view()),
                },
            ) == crate::model::parse_model(toks));
        }
        Args { positional, options }
    }

    /// The positional token at the given zero-based index (index 0 is the
    /// program name when the tokens came from a real invocation), or
    /// nothing when the index is out of range.
    pub fn nth<'a>(&'a self, index: usize) -> (r: Option<&'a str>)
        ensures
            match r {
                Some(s) => index < self@.positional.len() && s@ == self@.positional[index as int],
                None => index >= self@.positional.len(),
            },
    {
        if index < self.positional.len() {
            Some(self.positional[index].as_str())
        } else {
            None
        }
    }

    /// Whether the given bare option name (no leading dashes) was recorded,
    /// with or without a value.
    pub fn has_option(&self, option_name: &str) -> (present: bool)
        ensures
            present == self@.options.contains_key(option_name@),
    {
        let found = self.last_entry_with_name(option_name);
        proof {
            let entries = self.options.deep_view();
            crate::table::lemma_entries_map_contains(entries, option_name@);
            assert(forall|k: int|
                0 <= k < entries.len() ==> entries[k].0 == self.options@[k].0@);
            match found {
                Some(j) => {
                    assert(entries[j as int].0 == option_name@);
                },
                None => {
                    assert(forall|k: int|
                        0 <= k < entries.len() ==> entries[k].0 != option_name@);
                    assert(!self@.options.contains_key(option_name@));
                },
            }
        }
        found.is_some()
    }

    /// The value recorded for the given bare option name, or nothing when
    /// the name is absent or was recorded without a value.
    pub fn option_value<'a>(&'a self, option_name: &str) -> (value: Option<&'a str>)
        ensures
            match value {
                Some(v) => self@.options.contains_key(option_name@)
                    && self@.options[option_name@] == Some(v@),
                None => !self@.options.contains_key(option_name@)
                    || self@.options[option_name@] is None,
            },
    {
        match self.last_entry_with_name(option_name) {
            Some(j) => {
                proof {
                    crate::table::lemma_entries_map_last_value(
                        self.options.deep_view(),
                        j as int,
                    );
                }
                match &self.options[j].1 {
                    Some(v) => Some(v.as_str()),
                    None => None,
                }
            },
            None => {
                proof {
                    crate::table::lemma_entries_map_contains(
                        self.options.deep_view(),
                        option_name@,
                    );
                }
                None
            },
        }
    }

    /// The index of the last recorded entry carrying the given name, or
    /// nothing when no entry carries it.
    fn last_entry_with_name(&self, option_name: &str) -> (r: Option<usize>)
        ensures
            match r {
                Some(j) => j < self.options@.len() && self.options@[j as int].0@ == option_name@
                    && forall|k: int|
                        j < k < self.options@.len() ==> self.options@[k].0@ != option_name@,
                None => forall|k: int|
                    0 <= k < self.options@.len() ==> self.options@[k].0@ != option_name@,
            },
    {
        let needle: String = option_name.to_owned();
        let mut j: usize = self.options.len();
        while j > 0
            invariant
                j <= self.options@.len(),
                needle@ == option_name@,
                forall|k: int|
                    j <= k < self.options@.len() ==> self.options@[k].0@ != option_name@,
            decreases j,
        {
            j = j - 1;
            if self.options[j].0 == needle {
                return Some(j);
            }
        }
        None
    }
}

} // verus!

