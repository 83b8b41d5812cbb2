//! Combining the documentation of an ordered list of source files.
//!
//! Each file's text is run through the extractor; the non-empty results
//! are joined in order, a blank line between any two of them.  The first
//! file whose text could not be obtained, is not well-formed source, or
//! whose inner-annotation region could not be read, stops the combination:
//! an error names that file and nothing is returned for the others.

use vstd::prelude::*;
use vstd::string::StringExecFns;

use crate::extract::extract_inner_docs;
use crate::extract::parse_verdict;
use crate::extract::parses_as_source;
use crate::extract::ExtractError;
use crate::model;

verus! {

/// One source file, as handed in by whatever read it: its label, used only
/// in error reports, and its text — or, when the text could not be
/// obtained, the reason why.
pub struct SourceUnit {
    /// An opaque identifier, typically a path.
    pub label: String,
    /// The file's text, or the reason it could not be read.
    pub content: Result<String, String>,
}

/// Why a list of source files could not be combined.
#[derive(Debug)]
pub enum CombineError {
    /// The text of the file with this label could not be obtained.
    Unreadable { label: String, cause: String },
    /// The file with this label is not a well-formed source file, or its
    /// inner-annotation region could not be read to its end.
    Malformed { label: String, error: ExtractError },
}

/// Whether a unit's text was obtained and extracts cleanly: the text is a
/// well-formed source file and its inner-annotation region reads to its
/// end.
pub open spec fn unit_ok(u: SourceUnit) -> bool {
    &&& u.content is Ok
    &&& parses_as_source(u.content->Ok_0@)
    &&& model::spec_extract(u.content->Ok_0@) is Ok
}

/// Whether every unit of the list extracts cleanly.
pub open spec fn all_units_ok(units: Seq<SourceUnit>) -> bool {
    forall|k: int| 0 <= k < units.len() ==> unit_ok(#[trigger] units[k])
}

/// The documentation a unit contributes, when it extracts cleanly.
pub open spec fn unit_docs(u: SourceUnit) -> Seq<char> {
    model::spec_extract(u.content->Ok_0@)->Ok_0
}

/// Non-empty entries joined in order, one blank line — two line feeds —
/// between each pair; empty entries leave no trace, not even a separator.
pub open spec fn join_docs(docs: Seq<Seq<char>>) -> Seq<char>
    decreases docs.len(),
{
    if docs.len() == 0 {
        Seq::empty()
    } else {
        let front = join_docs(docs.drop_last());
        if docs.last().len() == 0 {
            front
        } else if front.len() == 0 {
            docs.last()
        } else {
            front + seq!['\n', '\n'] + docs.last()
        }
    }
}

/// The combined documentation of the list, assuming every unit extracts
/// cleanly.
pub open spec fn combined_docs(units: Seq<SourceUnit>) -> Seq<char> {
    join_docs(units.map_values(|u: SourceUnit| unit_docs(u)))
}

/// Whether `e` reports exactly the failure of unit `u`.
pub open spec fn error_for(u: SourceUnit, e: CombineError) -> bool {
    match e {
        CombineError::Unreadable { label, cause } => {
            &&& u.content is Err
            &&& label@ == u.label@
            &&& cause@ == u.content->Err_0@
        },
        CombineError::Malformed { label, error } => {
            &&& u.content is Ok
            &&& label@ == u.label@
            &&& match error {
                ExtractError::Unparsable { message } => !parses_as_source(u.content->Ok_0@)
                    && model::spec_extract(u.content->Ok_0@) is Ok && parse_verdict(
                    u.content->Ok_0@,
                ) == Some(message@),
                ExtractError::Region { error } => model::spec_extract(u.content->Ok_0@) == Err::<
                    Seq<char>,
                    crate::model::ParseError,
                >(error),
            }
        },
    }
}

/// The combined documentation of the listed files, in their given order:
/// each file's inner documentation is extracted, the non-empty results are
/// joined with one blank line between each pair, and files contributing
/// nothing are skipped without leaving a separator.  The first unit whose
/// text is missing or malformed stops the work: the error names it, and no
/// output is produced.
pub fn combine_docs(units: &Vec<SourceUnit>) -> (r: Result<String, CombineError>)
    ensures
        match r {
            Ok(out) => all_units_ok(units@) && out@ == combined_docs(units@),
            Err(e) => exists|j: int|
                0 <= j < units@.len() && !unit_ok(#[trigger] units@[j]) && (forall|k: int|
                    0 <= k < j ==> unit_ok(#[trigger] units@[k])) && error_for(units@[j], e),
        },
{
    let mut acc = String::new();
    let mut any: bool = false;
    let mut idx: usize = 0;
    proof {
        assert(units@.subrange(0, 0).map_values(|u: SourceUnit| unit_docs(u)) =~= Seq::<
            Seq<char>,
        >::empty());
    }
    while idx < units.len()
        invariant
            0 <= idx <= units@.len(),
            forall|k: int| 0 <= k < idx ==> unit_ok(#[trigger] units@[k]),
            acc@ == combined_docs(units@.subrange(0, idx as int)),
            any <==> acc@.len() > 0,
        decreases units@.len() - idx,
    {
        let ghost prefix = units@.subrange(0, idx as int);
        let u = &units[idx];
        match &u.content {
            Err(cause) => {
                return Err(
                    CombineError::Unreadable { label: u.label.clone(), cause: cause.clone() },
                );
            },
            Ok(text) => {
                match extract_inner_docs(text.as_str()) {
                    Err(e) => {
                        return Err(CombineError::Malformed { label: u.label.clone(), error: e });
                    },
                    Ok(docs) => {
                        proof {
                            lemma_combined_docs_push(prefix, units@[idx as int]);
                            assert(prefix.push(units@[idx as int]) =~= units@.subrange(
                                0,
                                idx + 1,
                            ));
                        }
                        if docs.as_str().unicode_len() > 0 {
                            let ghost acc0 = acc@;
                            if any {
                                acc.append("\n\n");
                            }
                            acc.append(docs.as_str());
                            proof {
                                reveal_strlit("\n\n");
                                assert("\n\n"@ =~= seq!['\n', '\n']);
                                if acc0.len() > 0 {
                                    assert(acc@ =~= acc0 + seq!['\n', '\n'] + docs@);
                                } else {
                                    assert(acc@ =~= docs@);
                                }
                            }
                            any = true;
                        }
                        idx = idx + 1;
                    },
                }
            },
        }
    }
    assert(units@.subrange(0, units@.len() as int) =~= units@);
    Ok(acc)
}

/// How one more unit extends the combined documentation.
proof fn lemma_combined_docs_push(units: Seq<SourceUnit>, u: SourceUnit)
    ensures
        combined_docs(units.push(u)) == if unit_docs(u).len() == 0 {
            combined_docs(units)
        } else if combined_docs(units).len() == 0 {
            unit_docs(u)
        } else {
            combined_docs(units) + seq!['\n', '\n'] + unit_docs(u)
        },
{
    let f = |x: SourceUnit| unit_docs(x);
    let docs = units.map_values(f);
    let p = units.push(u).map_values(f);
    assert(p =~= docs.push(unit_docs(u)));
    assert(p.drop_last() =~= docs);
    assert(p.last() == unit_docs(u));
}

} // verus!
