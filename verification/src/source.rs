//! Sources of kernel arguments, and how their arguments are merged into a command line.
//!
//! A source owns a set of parameters on the `options` line of an entry. What it owns is tracked
//! in the entry itself, under a key made of [`OPTIONS_SOURCE_KEY_PREFIX`] and its name.

use vstd::prelude::*;

use crate::cmdline::{
    add_param, is_param, lemma_params_list, param_texts, params, remove_exact, with_param,
    without_param,
};
use crate::error::{Error, ErrorView};
use crate::fields::{last_value, FieldMap};
use crate::text::{chars_of, text_of};

verus! {

broadcast use vstd::string::group_string_axioms;

/// The start of every key that tracks the arguments of a source.
pub const OPTIONS_SOURCE_KEY_PREFIX: &'static str = "x-options-source-";

/// The characters that a source name can have.
pub open spec fn source_name_char(c: char) -> bool {
    ||| 'a' <= c <= 'z'
    ||| 'A' <= c <= 'Z'
    ||| '0' <= c <= '9'
    ||| c == '-'
    ||| c == '_'
}

/// Whether `name` can name a source.
pub open spec fn valid_source_name(name: Seq<char>) -> bool {
    name.len() > 0 && forall|i: int| 0 <= i < name.len() ==> source_name_char(#[trigger] name[i])
}

/// The key under which the arguments of the source `name` are tracked.
pub open spec fn source_key(name: Seq<char>) -> Seq<char> {
    OPTIONS_SOURCE_KEY_PREFIX@ + name
}

/// The name of a source of kernel arguments.
#[derive(Debug)]
pub struct SourceName {
    name: String,
}

impl View for SourceName {
    type V = Seq<char>;

    closed spec fn view(&self) -> Seq<char> {
        self.name@
    }
}

impl SourceName {
    #[verifier::type_invariant]
    spec fn well_formed(self) -> bool {
        valid_source_name(self@)
    }

    /// Checks a source name.
    pub fn parse(source: &str) -> (r: Result<SourceName, Error>)
        ensures
            match r {
                Ok(name) => valid_source_name(source@) && name@ == source@,
                Err(e) => !valid_source_name(source@) && e@ == (if source@.len() == 0 {
                    ErrorView::EmptySourceName
                } else {
                    ErrorView::InvalidSourceName
                }),
            },
    {
        if source.is_empty() {
            return Err(Error::EmptySourceName);
        }
        let chars: Vec<char> = chars_of(source);
        let mut i: usize = 0;
        while i < chars.len()
            invariant
                i <= chars@.len(),
                chars@ == source@,
                source@.len() > 0,
                forall|j: int| 0 <= j < i ==> source_name_char(#[trigger] source@[j]),
            decreases chars@.len() - i,
        {
            let c: char = chars[i];
            if !(('a' <= c && c <= 'z') || ('A' <= c && c <= 'Z') || ('0' <= c && c <= '9') || c
                == '-' || c == '_') {
                assert(!source_name_char(source@[i as int]));
                return Err(Error::InvalidSourceName);
            }
            i = i + 1;
        }
        Ok(SourceName { name: source.to_owned() })
    }

    /// The name as text.
    pub fn as_str(&self) -> (r: &str)
        ensures
            r@ == self@,
            valid_source_name(self@),
    {
        proof {
            use_type_invariant(self);
        }
        self.name.as_str()
    }

    /// The key under which the arguments of the source are tracked.
    pub fn bls_key(&self) -> (r: String)
        ensures
            r@ == source_key(self@),
    {
        OPTIONS_SOURCE_KEY_PREFIX.to_owned().concat(self.name.as_str())
    }
}

/// `text` after the parameters `ps` are removed from it, one after the other.
pub open spec fn without_params(text: Seq<char>, ps: Seq<Seq<char>>) -> Seq<char>
    decreases ps.len(),
{
    if ps.len() == 0 {
        text
    } else {
        without_param(without_params(text, ps.drop_last()), ps.last())
    }
}

/// `text` after the parameters `ps` are added to it, one after the other.
pub open spec fn with_params(text: Seq<char>, ps: Seq<Seq<char>>) -> Seq<char>
    decreases ps.len(),
{
    if ps.len() == 0 {
        text
    } else {
        with_param(with_params(text, ps.drop_last()), ps.last())
    }
}

/// The arguments that a request gives: none if it gives an empty text.
pub open spec fn given(new: Option<Seq<char>>) -> Option<Seq<char>> {
    match new {
        Some(v) => if v.len() > 0 {
            Some(v)
        } else {
            None
        },
        None => None,
    }
}

/// The command line `current` after the parameters that a source owned are removed from it and
/// those that it is given are added.
pub open spec fn merged_options(
    current: Seq<char>,
    owned: Option<Seq<char>>,
    new: Option<Seq<char>>,
) -> Seq<char> {
    let rest = match owned {
        Some(v) => without_params(current, params(v)),
        None => current,
    };
    match given(new) {
        Some(v) => with_params(rest, params(v)),
        None => rest,
    }
}

/// Replaces, on the command line `current`, what `target` owns by what it is given. What every
/// source owns is in `source_options`, by the name of the source.
pub fn compute_merged_options(
    current: &str,
    source_options: &FieldMap,
    target: &SourceName,
    new_options: Option<&str>,
) -> (r: String)
    ensures
        r@ == merged_options(
            current@,
            last_value(source_options@, target@),
            text_of(new_options),
        ),
{
    let mut merged: String = current.to_owned();
    match source_options.get(target.as_str()) {
        Some(owned) => {
            let old: Vec<String> = param_texts(owned);
            let ghost ps = params(owned@);
            proof {
                lemma_params_list(owned@);
            }
            assert(ps.take(0) =~= Seq::empty());
            for i in 0..old.len()
                invariant
                    ps == old@.map_values(|p: String| p@),
                    ps == params(owned@),
                    forall|j: int| 0 <= j < ps.len() ==> is_param(#[trigger] ps[j]),
                    merged@ == without_params(current@, ps.take(i as int)),
            {
                assert(ps[i as int] == old@[i as int]@);
                merged = remove_exact(merged.as_str(), old[i].as_str());
                assert(ps.take(i + 1).drop_last() =~= ps.take(i as int));
            }
            assert(ps.take(ps.len() as int) =~= ps);
        },
        None => {},
    }
    let ghost rest = merged@;
    match new_options {
        Some(new) => {
            if !new.is_empty() {
                let added: Vec<String> = param_texts(new);
                let ghost ps = params(new@);
                proof {
                    lemma_params_list(new@);
                }
                assert(ps.take(0) =~= Seq::empty());
                for i in 0..added.len()
                    invariant
                        ps == added@.map_values(|p: String| p@),
                        forall|j: int| 0 <= j < ps.len() ==> is_param(#[trigger] ps[j]),
                        merged@ == with_params(rest, ps.take(i as int)),
                {
                    assert(ps[i as int] == added@[i as int]@);
                    merged = add_param(merged.as_str(), added[i].as_str());
                    assert(ps.take(i + 1).drop_last() =~= ps.take(i as int));
                }
                assert(ps.take(ps.len() as int) =~= ps);
            }
        },
        None => {},
    }
    merged
}

} // verus!
