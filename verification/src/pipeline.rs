//! The single linear pipeline: parse the reference file, parse the query
//! file, score every query against the reference's first record, rank
//! ascending by distance, and emit the first `k` identifiers. Any stage
//! failure aborts the run before any output exists. Also interprets the one
//! optional count argument, which defaults to 20 when unparsable.

use vstd::prelude::*;
use vstd::slice::slice_index_get;
use vstd::slice::slice_to_vec;
use crate::Error;
use crate::distance::Kernel;
use crate::records::has_marker_line;
use crate::records::parse;
use crate::records::record_views;
use crate::records::spec_parse;
use crate::score::score_all;
use crate::score::score_views;
use crate::score::spec_scores;
use crate::rank::rank;
use crate::rank::spec_rank;

verus! {

/// The result count used when no argument is given or it is unparsable.
pub const DEFAULT_K: usize = 20;

/// A decimal digit byte.
pub open spec fn is_digit(b: u8) -> bool {
    48 <= b && b <= 57
}

/// Numeric value of a decimal digit string.
pub open spec fn digits_value(s: Seq<u8>) -> int
    decreases s.len(),
{
    if s.len() == 0 {
        0
    } else {
        digits_value(s.drop_last()) * 10 + (s.last() - 48)
    }
}

/// The argument with one optional leading plus sign stripped, as the
/// standard integer syntax allows.
pub open spec fn strip_plus(s: Seq<u8>) -> Seq<u8> {
    if s.len() > 0 && s[0] == 43 {
        s.drop_first()
    } else {
        s
    }
}

/// Whether the argument is a parsable count: at least one digit after the
/// optional sign, digits throughout, and a value that fits the machine word.
pub open spec fn valid_count(s: Seq<u8>) -> bool {
    let d = strip_plus(s);
    &&& d.len() > 0
    &&& forall|i: int| 0 <= i < d.len() ==> is_digit(d[i])
    &&& digits_value(d) <= usize::MAX as int
}

/// The count an argument asks for: its numeric value, or the default when
/// the argument is unparsable.
pub open spec fn spec_parse_k(s: Seq<u8>) -> int {
    if valid_count(s) {
        digits_value(strip_plus(s))
    } else {
        DEFAULT_K as int
    }
}

proof fn lemma_digits_value_nonneg(s: Seq<u8>)
    requires
        forall|i: int| 0 <= i < s.len() ==> is_digit(s[i]),
    ensures
        digits_value(s) >= 0,
    decreases s.len(),
{
    if s.len() > 0 {
        assert forall|i: int| 0 <= i < s.drop_last().len() implies is_digit(
            s.drop_last()[i],
        ) by {
            assert(s.drop_last()[i] == s[i]);
        }
        lemma_digits_value_nonneg(s.drop_last());
    }
}

proof fn lemma_digits_value_grows(s: Seq<u8>, n: int)
    requires
        0 <= n <= s.len(),
        forall|i: int| 0 <= i < s.len() ==> is_digit(s[i]),
    ensures
        digits_value(s) >= digits_value(s.take(n)),
    decreases s.len(),
{
    if n == s.len() {
        assert(s.take(n) =~= s);
    } else {
        let d = s.drop_last();
        assert forall|i: int| 0 <= i < d.len() implies is_digit(d[i]) by {
            assert(d[i] == s[i]);
        }
        lemma_digits_value_nonneg(d);
        lemma_digits_value_grows(d, n);
        assert(d.take(n) =~= s.take(n));
        assert(digits_value(s) == digits_value(d) * 10 + (s.last() - 48));
        assert(digits_value(d) * 10 >= digits_value(d));
    }
}

/// Interprets the one optional positional argument: the result count `k`.
/// An unparsable argument falls back to the default.
pub fn parse_k(arg: &[u8]) -> (k: usize)
    ensures
        k as int == spec_parse_k(arg@),
{
    let start: usize = if arg.len() > 0 && *slice_index_get(arg, 0) == 43 {
        1
    } else {
        0
    };
    let ghost d = strip_plus(arg@);
    proof {
        assert(d =~= arg@.skip(start as int));
    }
    if arg.len() == start {
        return DEFAULT_K;
    }
    let mut acc: usize = 0;
    let mut i: usize = start;
    proof {
        assert(d.take(0) =~= Seq::<u8>::empty());
    }
    while i < arg.len()
        invariant
            start <= i <= arg@.len(),
            start <= 1,
            arg@.len() > start,
            d == arg@.skip(start as int),
            d == strip_plus(arg@),
            acc as int == digits_value(d.take(i - start)),
            forall|j: int| 0 <= j < i - start ==> is_digit(d[j]),
        decreases arg@.len() - i,
    {
        let b = *slice_index_get(arg, i);
        if b < 48 || b > 57 {
            assert(!is_digit(d[i - start]));
            return DEFAULT_K;
        }
        let digit = (b - 48) as usize;
        let wide = acc as u128 * 10 + digit as u128;
        proof {
            assert(d.take(i - start + 1).drop_last() =~= d.take(i - start));
            assert(d.take(i - start + 1).last() == d[i - start]);
        }
        if wide > usize::MAX as u128 {
            // The digits read so far already overflow the machine word, and
            // appending further digits can only grow the value.
            proof {
                if valid_count(arg@) {
                    lemma_digits_value_grows(d, i - start + 1);
                }
            }
            return DEFAULT_K;
        }
        acc = wide as usize;
        i = i + 1;
    }
    proof {
        assert(d.take(d.len() as int) =~= d);
        assert(valid_count(arg@));
    }
    acc
}

/// The ranked identifiers a run owes for given file contents and count: the
/// first `k` query identifiers, ascending by distance to the reference
/// file's first record.
pub open spec fn spec_run(ref_data: Seq<u8>, query_data: Seq<u8>, k: int) -> Seq<Seq<u8>> {
    let refs = spec_parse(ref_data);
    let queries = spec_parse(query_data);
    spec_rank(spec_scores(refs[0].1, queries), k).map(|i: int, p: (Seq<u8>, nat)| p.0)
}

/// The whole pipeline over in-memory file contents: parse the reference file
/// (only its first record is used; extras are ignored), parse the query
/// file, score every query through the selected kernel, rank ascending by
/// distance, and return the first `k` identifiers. Fails exactly when either
/// buffer holds no record, before any scoring work; nothing is emitted on
/// failure.
pub fn run(kernel: Kernel, reference_data: &[u8], query_data: &[u8], k: usize) -> (r: Result<
    Vec<Vec<u8>>,
    Error,
>)
    ensures
        match r {
            Ok(ids) => {
                &&& spec_parse(reference_data@).len() > 0
                &&& spec_parse(query_data@).len() > 0
                &&& ids@.len() == spec_run(reference_data@, query_data@, k as int).len()
                &&& forall|i: int|
                    0 <= i < ids@.len() ==> ids@[i]@ == spec_run(
                        reference_data@,
                        query_data@,
                        k as int,
                    )[i]
            },
            Err(e) => e == Error::FormatError && (spec_parse(reference_data@).len() == 0
                || spec_parse(query_data@).len() == 0) && (!has_marker_line(reference_data@)
                || !has_marker_line(query_data@)),
        },
{
    let refs = match parse(reference_data) {
        Ok(v) => v,
        Err(e) => {
            return Err(e);
        },
    };
    let queries = match parse(query_data) {
        Ok(v) => v,
        Err(e) => {
            return Err(e);
        },
    };
    let reference = &refs[0];
    proof {
        assert(record_views(refs@)[0] == (reference.id@, reference.symbols@));
    }
    let bag = score_all(kernel, reference.symbols.as_slice(), &queries);
    let ranked = rank(bag, k);
    let ghost model = spec_rank(
        spec_scores(spec_parse(reference_data@)[0].1, spec_parse(query_data@)),
        k as int,
    );
    proof {
        assert(score_views(ranked@) == model);
    }
    let mut ids: Vec<Vec<u8>> = Vec::new();
    let mut i: usize = 0;
    while i < ranked.len()
        invariant
            i <= ranked@.len(),
            ids@.len() == i,
            model == score_views(ranked@),
            forall|j: int| 0 <= j < i ==> ids@[j]@ == model[j].0,
        decreases ranked@.len() - i,
    {
        let id = slice_to_vec(ranked[i].id.as_slice());
        ids.push(id);
        proof {
            assert(score_views(ranked@)[i as int].0 == ranked@[i as int].id@);
        }
        i = i + 1;
    }
    proof {
        assert(spec_run(reference_data@, query_data@, k as int) =~= model.map(
            |j: int, p: (Seq<u8>, nat)| p.0,
        ));
    }
    Ok(ids)
}

} // verus!
