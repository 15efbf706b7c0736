//! The filter pipeline: filters built once from their source texts and
//! applied to each record in the order in which they were given.

use crate::ast::{formulas_of, Exp, Formula};
use crate::eval::{filter, holds};
use crate::grammar::{parse_of, SyntaxFault};
use crate::parser::{parse, SyntaxError};
use crate::record::{Json, Record};
use crate::text::same_text;
use vstd::prelude::*;

verus! {

/// An ordered list of filters. A record passes the pipeline when it passes
/// every filter; the empty pipeline lets every record pass.
#[derive(Debug, PartialEq)]
pub struct Filters(pub Vec<Exp>);

/// Why a pipeline could not be built: the source text that is not a filter
/// expression, by its place among the sources, and what is wrong with it.
#[derive(Debug, PartialEq, Eq)]
pub struct FilterError {
    pub index: usize,
    pub error: SyntaxError,
}

/// Whether each of the first `count` source texts is a filter expression,
/// and `exps` holds what they read as, in order.
pub open spec fn parsed(sources: Seq<String>, count: int, exps: Seq<Formula>) -> bool {
    &&& exps.len() == count
    &&& forall|i: int|
        0 <= i < count ==> parse_of(#[trigger] sources[i]@) == Ok::<Formula, SyntaxFault>(
            exps[i],
        )
}

/// Whether each of the first `count` source texts is a filter expression.
pub open spec fn well_written(sources: Seq<String>, count: int) -> bool {
    forall|i: int| 0 <= i < count ==> parse_of(#[trigger] sources[i]@) is Ok
}

/// Whether `after` is `before` with what the first `count` source texts
/// read as behind it.
pub open spec fn extended(
    before: Seq<Formula>,
    after: Seq<Formula>,
    sources: Seq<String>,
    count: int,
) -> bool {
    &&& before.len() <= after.len()
    &&& after.take(before.len() as int) == before
    &&& parsed(sources, count, after.skip(before.len() as int))
}

/// Whether `record` passes each of the first `count` filters.
pub open spec fn passes(filters: Seq<Formula>, count: int, record: Json) -> bool {
    forall|i: int| 0 <= i < count ==> holds(#[trigger] filters[i], record)
}

/// The output of an external query program rejects a record when it is
/// empty, or the line `null`, or the line `false`.
pub open spec fn output_accepts(output: Seq<char>) -> bool {
    !(output.len() == 0 || output == "null\n"@ || output == "false\n"@)
}

impl View for Filters {
    type V = Seq<Formula>;

    open spec fn view(&self) -> Seq<Formula> {
        formulas_of(self.0@)
    }
}

impl Filters {
    /// Builds the pipeline from the source texts of its filters. Either
    /// every text is a filter expression and the pipeline holds them all, in
    /// order, or the first text that is none is reported and no pipeline is
    /// built.
    pub fn from_opts(sources: &Vec<String>) -> (result: Result<Filters, FilterError>)
        ensures
            match result {
                Ok(filters) => parsed(sources@, sources@.len() as int, filters@),
                Err(failure) => {
                    &&& failure.index < sources@.len()
                    &&& well_written(sources@, failure.index as int)
                    &&& parse_of(sources@[failure.index as int]@) == Err::<Formula, SyntaxFault>(
                        failure.error@,
                    )
                },
            },
    {
        let mut filters: Vec<Exp> = Vec::new();
        assert(formulas_of(filters@) == Seq::<Formula>::empty());
        match Self::add_filters(sources, &mut filters) {
            Ok(()) => {
                assert(formulas_of(filters@).skip(0) == formulas_of(filters@));
                Ok(Filters(filters))
            },
            Err(failure) => Err(failure),
        }
    }

    /// Parses each source text and appends what it reads as to `filters`,
    /// up to the first text that is not a filter expression.
    pub fn add_filters(sources: &Vec<String>, filters: &mut Vec<Exp>) -> (result: Result<
        (),
        FilterError,
    >)
        ensures
            match result {
                Ok(()) => extended(
                    formulas_of(old(filters)@),
                    formulas_of(final(filters)@),
                    sources@,
                    sources@.len() as int,
                ),
                Err(failure) => {
                    &&& failure.index < sources@.len()
                    &&& extended(
                        formulas_of(old(filters)@),
                        formulas_of(final(filters)@),
                        sources@,
                        failure.index as int,
                    )
                    &&& parse_of(sources@[failure.index as int]@) == Err::<Formula, SyntaxFault>(
                        failure.error@,
                    )
                },
            },
    {
        let ghost before = formulas_of(filters@);
        let mut i: usize = 0;
        assert(before.take(before.len() as int) == before);
        while i < sources.len()
            invariant
                i <= sources.len(),
                before == formulas_of(old(filters)@),
                extended(before, formulas_of(filters@), sources@, i as int),
            decreases sources.len() - i,
        {
            match parse(sources[i].as_str()) {
                Ok(exp) => {
                    proof {
                        let now = formulas_of(filters@);
                        let next = formulas_of(filters@.push(exp));
                        assert(next == now.push(exp@));
                        assert(next.take(before.len() as int) == now.take(before.len() as int));
                        assert(next.skip(before.len() as int) == now.skip(
                            before.len() as int,
                        ).push(exp@));
                    }
                    filters.push(exp);
                },
                Err(error) => {
                    return Err(FilterError { index: i, error });
                },
            }
            i += 1;
        }
        Ok(())
    }

    /// The place of the first filter that `line` does not pass, if there is
    /// one. Filters are tried in order, and none after the first that
    /// rejects.
    pub fn rejected_by(&self, line: &Record) -> (rejection: Option<usize>)
        ensures
            match rejection {
                Some(index) => {
                    &&& index < self@.len()
                    &&& passes(self@, index as int, line@)
                    &&& !holds(self@[index as int], line@)
                },
                None => passes(self@, self@.len() as int, line@),
            },
    {
        let mut i: usize = 0;
        while i < self.0.len()
            invariant
                i <= self.0.len(),
                self@.len() == self.0.len(),
                passes(self@, i as int, line@),
            decreases self.0.len() - i,
        {
            if !filter(&self.0[i], line) {
                return Some(i);
            }
            i += 1;
        }
        None
    }

    /// Whether `line` passes every filter of the pipeline.
    pub fn apply(&self, line: &Record) -> (accepted: bool)
        ensures
            accepted == passes(self@, self@.len() as int, line@),
    {
        self.rejected_by(line).is_none()
    }
}

/// A record passes a pipeline exactly when the conjunction of its filters
/// holds of the record.
pub proof fn lemma_pipeline_is_conjunction(filters: Seq<Formula>, record: Json)
    ensures
        passes(filters, filters.len() as int, record) <==> holds(Formula::And(filters), record),
{
    reveal_with_fuel(holds, 2);
}

/// Whether the output that an external query program printed for a record
/// accepts the record.
pub fn jq_accepts(output: &str) -> (accepted: bool)
    ensures
        accepted == output_accepts(output@),
{
    !(output.is_empty() || same_text(output, "null\n") || same_text(output, "false\n"))
}

} // verus!
