//! Sequence store: parses a record-marker-delimited byte buffer into
//! sequence records. A line beginning with the marker byte opens a record,
//! taking the remainder of the line as the identifier and resetting
//! accumulation; following non-marker lines are concatenated verbatim into
//! the record's symbols; blank lines are skipped; the last open record is
//! flushed at end of input. No alphabet validation happens at parse time.

use vstd::prelude::*;
use vstd::slice::slice_index_get;
use vstd::slice::slice_subrange;
use vstd::slice::slice_to_vec;
use crate::Error;

verus! {

/// The record marker byte (`>`).
pub const MARKER: u8 = 62;

/// The line-break byte.
pub const NEWLINE: u8 = 10;

/// One parsed record: the identifier from its marker line and the verbatim
/// concatenation, in file order, of the body lines that followed it. The
/// identifier is non-empty text in well-formed inputs, but nothing is
/// validated here; the symbols may be empty when no body line preceded the
/// next marker or the end of input.
#[derive(Debug)]
pub struct SequenceRecord {
    pub id: Vec<u8>,
    pub symbols: Vec<u8>,
}

/// Index of the first line break in `s`, or `s.len()` when there is none.
pub open spec fn first_newline(s: Seq<u8>) -> nat
    decreases s.len(),
{
    if s.len() == 0 {
        0
    } else if s[0] == NEWLINE {
        0
    } else {
        1 + first_newline(s.drop_first())
    }
}

proof fn lemma_first_newline_is(s: Seq<u8>, p: int)
    requires
        0 <= p <= s.len(),
        forall|j: int| 0 <= j < p ==> s[j] != NEWLINE,
        p < s.len() ==> s[p] == NEWLINE,
    ensures
        first_newline(s) == p,
    decreases s.len(),
{
    if s.len() == 0 {
    } else if s[0] == NEWLINE {
        assert(p == 0);
    } else {
        assert(p > 0) by {
            if p == 0 {
                assert(s[0] == NEWLINE);
            }
        }
        assert forall|j: int| 0 <= j < p - 1 implies s.drop_first()[j] != NEWLINE by {
            assert(s.drop_first()[j] == s[j + 1]);
        }
        if p - 1 < s.drop_first().len() {
            assert(s.drop_first()[p - 1] == s[p]);
        }
        lemma_first_newline_is(s.drop_first(), p - 1);
    }
}

/// The lines of `s`: the pieces between line breaks, as splitting yields
/// them, so a buffer without a break is one line and a trailing break yields
/// a final empty line.
pub open spec fn line_split(s: Seq<u8>) -> Seq<Seq<u8>>
    decreases s.len(),
{
    let p = first_newline(s) as int;
    if p >= s.len() {
        seq![s]
    } else {
        seq![s.subrange(0, p)] + line_split(s.subrange(p + 1, s.len() as int))
    }
}

/// A line that opens a record: non-blank and beginning with the marker.
pub open spec fn is_marker_line(l: Seq<u8>) -> bool {
    l.len() > 0 && l[0] == MARKER
}

/// Whether the buffer holds at least one marker line.
pub open spec fn has_marker_line(data: Seq<u8>) -> bool {
    exists|i: int| 0 <= i < line_split(data).len() && is_marker_line(line_split(data)[i])
}

/// Emits the open record, if any, after the last line.
pub open spec fn flush_record(
    recs: Seq<(Seq<u8>, Seq<u8>)>,
    cur: Option<(Seq<u8>, Seq<u8>)>,
) -> Seq<(Seq<u8>, Seq<u8>)> {
    match cur {
        Some(r) => recs.push(r),
        None => recs,
    }
}

/// One line's effect on the parser state. A marker line emits the open
/// record and opens a new one with empty symbols; a body line extends the
/// open record verbatim and is dropped when no record is open; a blank line
/// changes nothing.
pub open spec fn parse_step(
    recs: Seq<(Seq<u8>, Seq<u8>)>,
    cur: Option<(Seq<u8>, Seq<u8>)>,
    line: Seq<u8>,
) -> (Seq<(Seq<u8>, Seq<u8>)>, Option<(Seq<u8>, Seq<u8>)>) {
    if line.len() == 0 {
        (recs, cur)
    } else if is_marker_line(line) {
        (flush_record(recs, cur), Some((line.drop_first(), Seq::empty())))
    } else {
        match cur {
            Some(r) => (recs, Some((r.0, r.1 + line))),
            None => (recs, None),
        }
    }
}

/// Folds the remaining lines over the parser state and flushes at the end.
pub open spec fn parse_lines(
    recs: Seq<(Seq<u8>, Seq<u8>)>,
    cur: Option<(Seq<u8>, Seq<u8>)>,
    lines: Seq<Seq<u8>>,
) -> Seq<(Seq<u8>, Seq<u8>)>
    decreases lines.len(),
{
    if lines.len() == 0 {
        flush_record(recs, cur)
    } else {
        let next = parse_step(recs, cur, lines[0]);
        parse_lines(next.0, next.1, lines.drop_first())
    }
}

/// The records of a marker-delimited buffer, each as the pair of its raw
/// identifier bytes and its symbol bytes.
pub open spec fn spec_parse(data: Seq<u8>) -> Seq<(Seq<u8>, Seq<u8>)> {
    parse_lines(Seq::empty(), None, line_split(data))
}

proof fn lemma_parse_lines_empty(
    recs: Seq<(Seq<u8>, Seq<u8>)>,
    cur: Option<(Seq<u8>, Seq<u8>)>,
    lines: Seq<Seq<u8>>,
)
    ensures
        parse_lines(recs, cur, lines).len() == 0 <==> (recs.len() == 0 && cur is None && (forall|
            j: int,
        | 0 <= j < lines.len() ==> !is_marker_line(lines[j]))),
    decreases lines.len(),
{
    if lines.len() > 0 {
        let next = parse_step(recs, cur, lines[0]);
        lemma_parse_lines_empty(next.0, next.1, lines.drop_first());
        if is_marker_line(lines[0]) {
            assert(next.1 is Some);
        } else {
            assert(next.0 == recs);
            assert(next.1 is None <==> cur is None);
            if forall|j: int| 0 <= j < lines.len() ==> !is_marker_line(lines[j]) {
                assert forall|j: int|
                    0 <= j < lines.drop_first().len() implies !is_marker_line(
                    lines.drop_first()[j],
                ) by {
                    assert(lines.drop_first()[j] == lines[j + 1]);
                }
            }
            if forall|j: int|
                0 <= j < lines.drop_first().len() ==> !is_marker_line(lines.drop_first()[j]) {
                assert forall|j: int| 0 <= j < lines.len() implies !is_marker_line(lines[j]) by {
                    if j > 0 {
                        assert(lines.drop_first()[j - 1] == lines[j]);
                    }
                }
            }
        }
    }
}

/// No-marker law: the parse yields a record exactly when the buffer holds a
/// marker line, so only a buffer with zero marker lines is rejected.
pub proof fn lemma_parse_empty_iff_no_marker(data: Seq<u8>)
    ensures
        spec_parse(data).len() == 0 <==> !has_marker_line(data),
{
    lemma_parse_lines_empty(Seq::empty(), None, line_split(data));
}

/// The abstract content of a sequence of records.
pub open spec fn record_views(rs: Seq<SequenceRecord>) -> Seq<(Seq<u8>, Seq<u8>)> {
    rs.map(|i: int, r: SequenceRecord| (r.id@, r.symbols@))
}

proof fn lemma_record_views_push(rs: Seq<SequenceRecord>, r: SequenceRecord)
    ensures
        record_views(rs.push(r)) == record_views(rs).push((r.id@, r.symbols@)),
{
    assert(record_views(rs.push(r)) =~= record_views(rs).push((r.id@, r.symbols@)));
}

/// The open record while parsing, as the spec model sees it.
pub open spec fn open_record_view(
    cur_id: Option<Vec<u8>>,
    cur_sym: Vec<u8>,
) -> Option<(Seq<u8>, Seq<u8>)> {
    match cur_id {
        Some(id) => Some((id@, cur_sym@)),
        None => None,
    }
}

/// Appends the bytes of `src` to `dst`.
fn append_bytes(dst: &mut Vec<u8>, src: &[u8])
    ensures
        final(dst)@ == old(dst)@ + src@,
{
    let ghost dst0 = old(dst)@;
    let mut j: usize = 0;
    assert(dst0 + src@.take(0) =~= dst0);
    while j < src.len()
        invariant
            j <= src@.len(),
            dst@ == dst0 + src@.take(j as int),
        decreases src@.len() - j,
    {
        dst.push(*slice_index_get(src, j));
        proof {
            assert(dst0 + src@.take(j + 1) =~= (dst0 + src@.take(j as int)).push(src@[j as int]));
        }
        j = j + 1;
    }
    proof {
        assert(src@.take(src@.len() as int) =~= src@);
    }
}

/// Parses a whole buffer into its records. Succeeds exactly when the buffer
/// holds at least one marker line; a buffer with none yields no record and
/// is not in the expected format.
pub fn parse(data: &[u8]) -> (r: Result<Vec<SequenceRecord>, Error>)
    ensures
        match r {
            Ok(recs) => record_views(recs@) == spec_parse(data@) && recs@.len() > 0
                && has_marker_line(data@),
            Err(e) => e == Error::FormatError && spec_parse(data@).len() == 0 && !has_marker_line(
                data@,
            ),
        },
{
    let mut recs: Vec<SequenceRecord> = Vec::new();
    let mut cur_id: Option<Vec<u8>> = None;
    let mut cur_sym: Vec<u8> = Vec::new();
    let mut pos: usize = 0;

    proof {
        assert(data@.skip(0) =~= data@);
        assert(record_views(recs@) =~= Seq::<(Seq<u8>, Seq<u8>)>::empty());
    }

    while pos < data.len()
        invariant
            pos <= data@.len(),
            parse_lines(
                record_views(recs@),
                open_record_view(cur_id, cur_sym),
                line_split(data@.skip(pos as int)),
            ) == spec_parse(data@),
            cur_id is None ==> cur_sym@.len() == 0,
        decreases data@.len() - pos,
    {
        let ghost rest = data@.skip(pos as int);
        let ghost st_recs = record_views(recs@);
        let ghost st_cur = open_record_view(cur_id, cur_sym);

        // Scan to the end of the current line.
        let mut end: usize = pos;
        while end < data.len() && *slice_index_get(data, end) != NEWLINE
            invariant
                pos <= end <= data@.len(),
                forall|j: int| pos <= j < end ==> data@[j] != NEWLINE,
            decreases data@.len() - end,
        {
            end = end + 1;
        }

        proof {
            assert forall|j: int| 0 <= j < end - pos implies rest[j] != NEWLINE by {
                assert(rest[j] == data@[pos + j]);
            }
            if (end - pos) < rest.len() {
                assert(rest[end - pos] == data@[end as int]);
            }
            lemma_first_newline_is(rest, end - pos);
        }

        let line = slice_subrange(data, pos, end);
        proof {
            assert(line@ =~= rest.subrange(0, end - pos));
        }

        // The first line of the rest is this line; what follows it is the
        // rest of the buffer after the line break, if any.
        let ghost tail_lines = if end < data@.len() {
            line_split(data@.skip(end + 1))
        } else {
            Seq::<Seq<u8>>::empty()
        };
        proof {
            if end < data@.len() {
                assert(rest.subrange(end - pos + 1, rest.len() as int) =~= data@.skip(end + 1));
                assert(line_split(rest) == seq![line@] + line_split(data@.skip(end + 1)));
            } else {
                assert(line_split(rest) == seq![line@]);
            }
            assert(line_split(rest) == seq![line@] + tail_lines);
            assert((seq![line@] + tail_lines)[0] == line@);
            assert((seq![line@] + tail_lines).drop_first() =~= tail_lines);
            assert(parse_lines(st_recs, st_cur, line_split(rest)) == {
                let next = parse_step(st_recs, st_cur, line@);
                parse_lines(next.0, next.1, tail_lines)
            });
        }

        // Apply this line to the parser state.
        if line.len() > 0 {
            let first = *slice_index_get(line, 0);
            if first == MARKER {
                let prev_id = cur_id;
                match prev_id {
                    Some(id) => {
                        let symbols = cur_sym;
                        cur_sym = Vec::new();
                        let ghost pushed = (id@, symbols@);
                        recs.push(SequenceRecord { id, symbols });
                        proof {
                            lemma_record_views_push(
                                recs@.drop_last(),
                                recs@.last(),
                            );
                            assert(recs@.drop_last().push(recs@.last()) =~= recs@);
                        }
                    },
                    None => {},
                }
                let id_slice = slice_subrange(line, 1, line.len());
                cur_id = Some(slice_to_vec(id_slice));
                proof {
                    assert(id_slice@ =~= line@.drop_first());
                    assert(cur_sym@ =~= Seq::<u8>::empty());
                }
            } else {
                if cur_id.is_some() {
                    append_bytes(&mut cur_sym, line);
                }
            }
        }

        proof {
            let next = parse_step(st_recs, st_cur, line@);
            assert(record_views(recs@) == next.0);
            assert(open_record_view(cur_id, cur_sym) == next.1);
        }

        if end < data.len() {
            pos = end + 1;
        } else {
            // The final line had no terminating break: the remaining empty
            // suffix splits into one blank line, which changes nothing.
            pos = end;
            proof {
                let empty = data@.skip(pos as int);
                assert(empty =~= Seq::<u8>::empty());
                assert(line_split(empty) == seq![empty]);
                assert(seq![empty].drop_first() =~= Seq::<Seq<u8>>::empty());
                assert(tail_lines =~= Seq::<Seq<u8>>::empty());
                let next = parse_step(st_recs, st_cur, line@);
                assert(parse_lines(next.0, next.1, line_split(empty)) == parse_lines(
                    next.0,
                    next.1,
                    tail_lines,
                ));
            }
        }
    }

    proof {
        let empty = data@.skip(pos as int);
        assert(pos == data@.len());
        assert(empty =~= Seq::<u8>::empty());
        assert(line_split(empty) == seq![empty]);
        let st0 = record_views(recs@);
        let c0 = open_record_view(cur_id, cur_sym);
        assert(parse_step(st0, c0, empty) == (st0, c0));
        assert(seq![empty].drop_first() =~= Seq::<Seq<u8>>::empty());
        assert(parse_lines(st0, c0, seq![empty]) == parse_lines(
            st0,
            c0,
            Seq::<Seq<u8>>::empty(),
        ));
        assert(parse_lines(st0, c0, Seq::<Seq<u8>>::empty()) == flush_record(st0, c0));
        assert(spec_parse(data@) == flush_record(
            record_views(recs@),
            open_record_view(cur_id, cur_sym),
        ));
    }

    // Flush the last open record even without a terminating marker.
    match cur_id {
        Some(id) => {
            let symbols = cur_sym;
            recs.push(SequenceRecord { id, symbols });
            proof {
                lemma_record_views_push(recs@.drop_last(), recs@.last());
                assert(recs@.drop_last().push(recs@.last()) =~= recs@);
            }
        },
        None => {},
    }

    proof {
        lemma_parse_empty_iff_no_marker(data@);
    }
    if recs.len() == 0 {
        proof {
            assert(record_views(recs@) =~= Seq::<(Seq<u8>, Seq<u8>)>::empty());
        }
        Err(Error::FormatError)
    } else {
        Ok(recs)
    }
}

} // verus!
