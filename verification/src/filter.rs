//! The key filter of the Snapshot Reader.
//!
//! A [`KeyFilter`] pairs a compiled regular expression with the pattern text
//! it was compiled from. What the expression matches is named by the
//! uninterpreted [`regex_match`], a function of the pattern and the text
//! alone; [`build_state`] then turns a raw row list into a snapshot, keeping
//! only the keys the filter accepts.

use vstd::prelude::*;

use crate::state::spec_insert;
use crate::state::Entry;
use crate::state::Pair;
use crate::state::State;

verus! {

#[verifier::external_type_specification]
#[verifier::external_body]
pub struct ExRegex(regex::Regex);

#[verifier::external_type_specification]
#[verifier::external_body]
pub struct ExRegexError(regex::Error);

/// Whether the regular expression compiled from `pattern` matches `text`:
/// a function of the two texts alone.
pub uninterp spec fn regex_match(pattern: Seq<char>, text: Seq<char>) -> bool;

/// Whether the engine accepts `pattern` (valid syntax, within its compiled
/// size limit): a function of the pattern alone.
pub uninterp spec fn regex_compiles(pattern: Seq<char>) -> bool;

/// A rejected filter pattern, with a readable account of the fault.
#[derive(Debug, Clone)]
pub struct FilterError {
    pub message: String,
}

/// A compiled key filter, kept beside the pattern it was compiled from.
pub struct KeyFilter {
    re: regex::Regex,
    pattern: String,
}

impl KeyFilter {
    /// The pattern this filter was compiled from.
    pub closed spec fn pattern(&self) -> Seq<char> {
        self.pattern@
    }

    /// Relies on regex::Regex::new: compiles the pattern, succeeding
    /// exactly when the engine accepts it (`Err` on invalid syntax or a
    /// pattern over the compiled size limit, and on nothing else); the
    /// outcome depends on the pattern alone, and the compiled value is
    /// stored beside the pattern it came from.
    #[verifier::external_body]
    fn compile(pattern: &str) -> (r: Result<KeyFilter, regex::Error>)
        ensures
            r is Ok <==> regex_compiles(pattern@),
            r matches Ok(f) ==> f.pattern() == pattern@,
    {
        match regex::Regex::new(pattern) {
            Ok(re) => Ok(KeyFilter { re, pattern: pattern.to_owned() }),
            Err(e) => Err(e),
        }
    }

    /// Relies on the readable form of regex::Error for the error report.
    #[verifier::external_body]
    fn describe_error(e: &regex::Error) -> (r: String) {
        format!("{}", e)
    }

    /// Builds a filter from a pattern, succeeding exactly when the engine
    /// accepts the pattern; an invalid one is reported as the error.
    pub fn new(pattern: &str) -> (r: Result<KeyFilter, FilterError>)
        ensures
            r is Ok <==> regex_compiles(pattern@),
            r matches Ok(f) ==> f.pattern() == pattern@,
    {
        match Self::compile(pattern) {
            Ok(f) => Ok(f),
            Err(e) => Err(FilterError { message: Self::describe_error(&e) }),
        }
    }

    /// Relies on regex::Regex::is_match: whether the expression compiled
    /// from this filter's pattern matches the text; for a given pattern the
    /// answer depends on the text alone.
    #[verifier::external_body]
    pub(crate) fn matches(&self, text: &str) -> (r: bool)
        ensures
            r == regex_match(self.pattern(), text@),
    {
        self.re.is_match(text)
    }
}

/// The pattern of an optional filter.
pub open spec fn filter_pattern(f: Option<KeyFilter>) -> Option<Seq<char>> {
    match f {
        Some(kf) => Some(kf.pattern()),
        None => None,
    }
}

/// Whether a key passes the optional filter.
pub open spec fn keeps(pat: Option<Seq<char>>, key: Seq<char>) -> bool {
    match pat {
        None => true,
        Some(p) => regex_match(p, key),
    }
}

/// The model of a raw row list.
pub open spec fn rows_view(rows: Seq<Entry>) -> Seq<Pair> {
    rows.map_values(|e: Entry| e@)
}

/// The snapshot a row list denotes once filtered: the kept rows inserted in
/// order, a later row overwriting an earlier one with the same key.
pub open spec fn spec_build(rows: Seq<Pair>, pat: Option<Seq<char>>) -> Seq<Pair>
    decreases rows.len(),
{
    if rows.len() == 0 {
        Seq::empty()
    } else {
        let prefix = spec_build(rows.drop_last(), pat);
        if keeps(pat, rows.last().0) {
            spec_insert(prefix, rows.last().0, rows.last().1)
        } else {
            prefix
        }
    }
}

/// A filter that matches none of the keys keeps nothing: the built snapshot
/// is empty.
pub proof fn lemma_filter_all_out(rows: Seq<Pair>, p: Seq<char>)
    requires
        forall|i: int| 0 <= i < rows.len() ==> !regex_match(p, (#[trigger] rows[i]).0),
    ensures
        spec_build(rows, Some(p)) =~= Seq::<Pair>::empty(),
    decreases rows.len(),
{
    if rows.len() > 0 {
        assert forall|i: int| 0 <= i < rows.drop_last().len() implies !regex_match(
            p,
            (#[trigger] rows.drop_last()[i]).0,
        ) by {
            assert(rows.drop_last()[i] == rows[i]);
        }
        lemma_filter_all_out(rows.drop_last(), p);
        assert(rows.last() == rows[rows.len() - 1]);
        assert(!keeps(Some(p), rows.last().0));
    }
}

/// Reads a raw row list into a snapshot, keeping only keys the filter
/// accepts; the last of two rows with the same key wins.
#[verifier::loop_isolation(false)]
pub fn build_state(rows: &Vec<Entry>, filter: &Option<KeyFilter>) -> (r: State)
    ensures
        r.wf(),
        r@ == spec_build(rows_view(rows@), filter_pattern(*filter)),
{
    let ghost pat = filter_pattern(*filter);
    let mut st = State::new();
    let n = rows.len();
    let mut i: usize = 0;
    proof {
        assert(rows_view(rows@).take(0) =~= Seq::<Pair>::empty());
    }
    while i < n
        invariant
            i <= n,
            st.wf(),
            st@ == spec_build(rows_view(rows@).take(i as int), pat),
        decreases n - i,
    {
        proof {
            let t = rows_view(rows@).take(i + 1);
            assert(t.drop_last() =~= rows_view(rows@).take(i as int));
            assert(t.last() == rows@[i as int]@);
        }
        let e = &rows[i];
        let keep = match filter {
            None => true,
            Some(f) => f.matches(e.key.as_str()),
        };
        if keep {
            st.insert(e.key.clone(), e.value.clone());
        }
        i = i + 1;
    }
    proof {
        assert(rows_view(rows@).take(n as int) =~= rows_view(rows@));
    }
    st
}

} // verus!
