//! Laws the extractor and combiner obey, stated once and proved for every
//! input.

use vstd::prelude::*;

use crate::combine::{all_units_ok, combined_docs, join_docs, unit_docs, unit_ok, SourceUnit};
use crate::extract::parses_as_source;
use crate::model;
use crate::model::ParseError;

verus! {

/// A well-formed text in which the scanner finds no documentation
/// annotation extracts to the empty string — never to an error.
pub proof fn lemma_no_annotations_empty(text: Seq<char>)
    requires
        parses_as_source(text),
        model::scan(model::preprocess(text), 0) == Ok::<Seq<Seq<char>>, ParseError>(
            Seq::<Seq<char>>::empty(),
        ),
    ensures
        model::spec_extract(text) == Ok::<Seq<char>, ParseError>(Seq::<char>::empty()),
{
}

/// A `//!` line contributes the text after its marker verbatim: the first
/// fragment found at such a line is the rest of the line exactly, with not
/// even a leading space stripped.
pub proof fn lemma_line_fragment_verbatim(text: Seq<char>, i: int)
    requires
        model::at(text, i, '/') && model::at(text, i + 1, '/') && model::at(text, i + 2, '!'),
        model::scan(text, i) is Ok,
    ensures
        model::scan(text, i)->Ok_0.len() > 0,
        model::scan(text, i)->Ok_0[0] == text.subrange(i + 3, model::line_end(text, i + 3)),
{
    let e = model::line_end(text, i + 3);
    let frag = text.subrange(i + 3, e);
    match model::scan(text, e) {
        Ok(rest) => {
            assert((seq![frag] + rest)[0] == frag);
        },
        Err(_) => (),
    }
}

/// The fragments' lengths, summed.
pub open spec fn frag_len_sum(frags: Seq<Seq<char>>) -> int
    decreases frags.len(),
{
    if frags.len() == 0 {
        0
    } else {
        frag_len_sum(frags.drop_last()) + frags.last().len()
    }
}

/// Joining drops no fragment: blank ones too keep their place, one line
/// feed standing between each adjacent pair — so interior and trailing
/// blank documentation lines survive in the result.
pub proof fn lemma_join_keeps_all_fragments(frags: Seq<Seq<char>>)
    requires
        frags.len() > 0,
    ensures
        model::join_frags(frags).len() == frag_len_sum(frags) + frags.len() - 1,
    decreases frags.len(),
{
    if frags.len() == 1 {
        assert(frags.drop_last() =~= Seq::<Seq<char>>::empty());
        assert(frag_len_sum(frags.drop_last()) == 0);
        assert(model::join_frags(frags) == frags[0]);
        assert(frags.last() == frags[0]);
    } else {
        lemma_join_keeps_all_fragments(frags.drop_last());
    }
}

/// The documentation lengths of all units, summed.
pub open spec fn docs_len_sum(units: Seq<SourceUnit>) -> int
    decreases units.len(),
{
    if units.len() == 0 {
        0
    } else {
        docs_len_sum(units.drop_last()) + unit_docs(units.last()).len()
    }
}

/// Every unit's documentation joined in order with a separator between
/// each adjacent pair, whether or not a unit contributed anything.
pub open spec fn join_all_docs(units: Seq<SourceUnit>) -> Seq<char>
    decreases units.len(),
{
    if units.len() == 0 {
        Seq::empty()
    } else if units.len() == 1 {
        unit_docs(units[0])
    } else {
        join_all_docs(units.drop_last()) + seq!['\n', '\n'] + unit_docs(units.last())
    }
}

/// When every file of a non-empty list contributes documentation, nothing
/// is skipped: the combined output is the contributions in order with
/// exactly one two-line-feed separator between each adjacent pair, and its
/// length is their sum plus two for each of the `len - 1` separators.
pub proof fn lemma_separator_count(units: Seq<SourceUnit>)
    requires
        units.len() > 0,
        forall|k: int| 0 <= k < units.len() ==> unit_docs(#[trigger] units[k]).len() > 0,
    ensures
        combined_docs(units) == join_all_docs(units),
        combined_docs(units).len() == docs_len_sum(units) + 2 * (units.len() - 1),
    decreases units.len(),
{
    let f = |x: SourceUnit| unit_docs(x);
    let docs = units.map_values(f);
    assert(docs.drop_last() =~= units.drop_last().map_values(f));
    assert(docs.last() == unit_docs(units.last()));
    assert(units.last() == units[units.len() - 1]);
    if units.len() == 1 {
        assert(docs.drop_last() =~= Seq::<Seq<char>>::empty());
        assert(join_docs(Seq::<Seq<char>>::empty()) == Seq::<char>::empty());
        assert(docs_len_sum(units.drop_last()) == 0);
    } else {
        let front = units.drop_last();
        assert forall|k: int| 0 <= k < front.len() implies unit_docs(
            #[trigger] front[k],
        ).len() > 0 by {
            assert(front[k] == units[k]);
        }
        lemma_separator_count(front);
        lemma_docs_len_sum_lower(front);
    }
}

proof fn lemma_docs_len_sum_lower(units: Seq<SourceUnit>)
    requires
        forall|k: int| 0 <= k < units.len() ==> unit_docs(#[trigger] units[k]).len() > 0,
    ensures
        docs_len_sum(units) >= units.len(),
    decreases units.len(),
{
    if units.len() > 0 {
        let front = units.drop_last();
        assert forall|k: int| 0 <= k < front.len() implies unit_docs(
            #[trigger] front[k],
        ).len() > 0 by {
            assert(front[k] == units[k]);
        }
        lemma_docs_len_sum_lower(front);
        assert(units.last() == units[units.len() - 1]);
    }
}

/// A file that extracts to the empty string contributes nothing: putting
/// one anywhere in a list changes neither the combined output nor whether
/// the list as a whole extracts cleanly.
#[verifier::rlimit(50)]
pub proof fn lemma_skip_empty_unit(units: Seq<SourceUnit>, u: SourceUnit, k: int)
    requires
        0 <= k <= units.len(),
        unit_ok(u),
        unit_docs(u).len() == 0,
    ensures
        combined_docs(units.insert(k, u)) == combined_docs(units),
        all_units_ok(units.insert(k, u)) == all_units_ok(units),
    decreases units.len(),
{
    let f = |x: SourceUnit| unit_docs(x);
    let ins = units.insert(k, u);
    assert(all_units_ok(ins) == all_units_ok(units)) by {
        if all_units_ok(units) {
            assert forall|j: int| 0 <= j < ins.len() implies unit_ok(#[trigger] ins[j]) by {
                if j < k {
                    assert(ins[j] == units[j]);
                } else if j == k {
                    assert(ins[j] == u);
                } else {
                    assert(ins[j] == units[j - 1]);
                }
            }
        }
        if all_units_ok(ins) {
            assert forall|j: int| 0 <= j < units.len() implies unit_ok(#[trigger] units[j]) by {
                if j < k {
                    assert(units[j] == ins[j]);
                } else {
                    assert(units[j] == ins[j + 1]);
                }
            }
        }
    }
    if k == units.len() {
        assert(ins =~= units.push(u));
        let p = ins.map_values(f);
        let docs = units.map_values(f);
        assert(p.drop_last() =~= docs);
        assert(p.last() == unit_docs(u));
    } else {
        assert(ins.drop_last() =~= units.drop_last().insert(k, u));
        assert(ins.last() == units.last());
        lemma_skip_empty_unit(units.drop_last(), u, k);
        let pi = ins.map_values(f);
        let docs = units.map_values(f);
        assert(pi.drop_last() =~= ins.drop_last().map_values(f));
        assert(pi.last() == f(ins.last()));
        assert(docs.drop_last() =~= units.drop_last().map_values(f));
        assert(docs.last() == f(units.last()));
    }
}

/// A list of one file combines to exactly that file's own documentation:
/// no separator is added.
pub proof fn lemma_single_unit(u: SourceUnit)
    ensures
        combined_docs(seq![u]) == unit_docs(u),
        all_units_ok(seq![u]) <==> unit_ok(u),
{
    let f = |x: SourceUnit| unit_docs(x);
    let docs = seq![u].map_values(f);
    assert(docs.len() == 1);
    assert(docs.drop_last() =~= Seq::<Seq<char>>::empty());
    assert(docs.last() == unit_docs(u));
    assert(join_docs(Seq::<Seq<char>>::empty()) == Seq::<char>::empty());
    if unit_docs(u).len() == 0 {
        assert(combined_docs(seq![u]) =~= unit_docs(u));
    }
    assert(seq![u][0] == u);
}

/// An empty list of files combines to the empty string.
pub proof fn lemma_no_units_no_docs()
    ensures
        combined_docs(Seq::<SourceUnit>::empty()) == Seq::<char>::empty(),
        all_units_ok(Seq::<SourceUnit>::empty()),
{
    assert(Seq::<SourceUnit>::empty().map_values(|x: SourceUnit| unit_docs(x)) =~= Seq::<
        Seq<char>,
    >::empty());
}

} // verus!
