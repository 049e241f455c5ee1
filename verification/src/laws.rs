//! The general laws of the parse, proved against `model::parse`.
//!
//! Each public proof function here states one property of the format for
//! every input: the record count, the correspondence of records to header
//! lines in input order, the header split, the irrelevance of blank
//! lines, and the rejection of headers with an empty identifier.

use vstd::prelude::*;

use crate::model::{
    description_of, fresh_record, header_positions, identifier_of, is_header_line, is_space,
    lemma_ident_len_at, lemma_trim_end_is_prefix, lemma_trim_start_is_suffix, parse, parse_from,
    record_at, sequence_block, trim_end_ws, ParseErrorView, ParseState, RecordView,
};

verus! {

/// The shape of every successful fold: one record per remaining header
/// line, in order, each carrying its header's split and the sequence
/// block that follows it; a working record is finished with the sequence
/// block that starts at the current line.
proof fn lemma_parse_from_structure(lines: Seq<Seq<char>>, i: int, st: ParseState)
    requires
        parse_from(lines, i, st) is Ok,
    ensures
        ({
            let recs = parse_from(lines, i, st)->Ok_0;
            let hs = header_positions(lines, i);
            match st {
                ParseState::Idle => {
                    &&& recs.len() == hs.len()
                    &&& forall|j: int|
                        0 <= j < hs.len() ==> recs[j] == record_at(lines, #[trigger] hs[j])
                },
                ParseState::Accum(w) => {
                    &&& recs.len() == hs.len() + 1
                    &&& recs[0].identifier == w.identifier
                    &&& recs[0].description == w.description
                    &&& recs[0].sequence == w.sequence + sequence_block(lines, i)
                    &&& forall|j: int|
                        0 <= j < hs.len() ==> recs[j + 1] == record_at(lines, #[trigger] hs[j])
                },
            }
        }),
    decreases lines.len() - i,
{
    let recs = parse_from(lines, i, st)->Ok_0;
    let hs = header_positions(lines, i);
    if i >= lines.len() {
        match st {
            ParseState::Idle => {},
            ParseState::Accum(w) => {
                assert(recs == seq![w]);
                assert(w.sequence + sequence_block(lines, i) =~= w.sequence);
            },
        }
    } else {
        let line = trim_end_ws(lines[i]);
        if is_header_line(line) {
            let body = line.drop_first();
            assert(identifier_of(body).len() != 0);
            let st2 = ParseState::Accum(fresh_record(body));
            lemma_parse_from_structure(lines, i + 1, st2);
            let rest = parse_from(lines, i + 1, st2)->Ok_0;
            let hs2 = header_positions(lines, i + 1);
            assert(hs == seq![i] + hs2);
            assert(rest[0].sequence == Seq::<char>::empty() + sequence_block(lines, i + 1));
            assert(Seq::<char>::empty() + sequence_block(lines, i + 1) =~= sequence_block(
                lines,
                i + 1,
            ));
            assert(rest[0] =~= record_at(lines, i));
            match st {
                ParseState::Idle => {
                    assert(recs == rest);
                    assert forall|j: int| 0 <= j < hs.len() implies recs[j] == record_at(
                        lines,
                        #[trigger] hs[j],
                    ) by {
                        if j == 0 {
                            assert(hs[0] == i);
                        } else {
                            assert(recs[j] == rest[(j - 1) + 1]);
                            assert(hs[j] == hs2[j - 1]);
                        }
                    }
                },
                ParseState::Accum(w) => {
                    assert(recs == seq![w] + rest);
                    assert(recs[0] == w);
                    assert(sequence_block(lines, i) == Seq::<char>::empty());
                    assert(w.sequence + sequence_block(lines, i) =~= w.sequence);
                    assert forall|j: int| 0 <= j < hs.len() implies recs[j + 1] == record_at(
                        lines,
                        #[trigger] hs[j],
                    ) by {
                        if j == 0 {
                            assert(recs[1] == rest[0]);
                            assert(hs[0] == i);
                        } else {
                            assert(recs[j + 1] == rest[j]);
                            assert(rest[j] == rest[(j - 1) + 1]);
                            assert(hs[j] == hs2[j - 1]);
                        }
                    }
                },
            }
        } else {
            match st {
                ParseState::Idle => {
                    assert(line.len() == 0);
                    lemma_parse_from_structure(lines, i + 1, ParseState::Idle);
                    assert(hs == header_positions(lines, i + 1));
                },
                ParseState::Accum(w) => {
                    let w2 = RecordView {
                        identifier: w.identifier,
                        description: w.description,
                        sequence: w.sequence + line,
                    };
                    lemma_parse_from_structure(lines, i + 1, ParseState::Accum(w2));
                    assert(hs == header_positions(lines, i + 1));
                    assert(sequence_block(lines, i) == line + sequence_block(lines, i + 1));
                    assert((w.sequence + line) + sequence_block(lines, i + 1) =~= w.sequence + (
                    line + sequence_block(lines, i + 1)));
                },
            }
        }
    }
}

/// Law: a successful parse returns exactly one record per header line.
pub proof fn lemma_record_count(lines: Seq<Seq<char>>)
    requires
        parse(lines) is Ok,
    ensures
        parse(lines)->Ok_0.len() == header_positions(lines, 0).len(),
{
    lemma_parse_from_structure(lines, 0, ParseState::Idle);
}

/// Law: records come out in the order their headers appear in the input,
/// and the j-th record is exactly what the j-th header line and the lines
/// after it say: its identifier and description are that header's split,
/// and its sequence is the concatenation (no separators) of the
/// right-trimmed lines between that header and the next header or the end
/// of the input.
pub proof fn lemma_records_match_headers(lines: Seq<Seq<char>>)
    requires
        parse(lines) is Ok,
    ensures
        parse(lines)->Ok_0.len() == header_positions(lines, 0).len(),
        forall|j: int|
            0 <= j < header_positions(lines, 0).len() ==> parse(lines)->Ok_0[j] == record_at(
                lines,
                #[trigger] header_positions(lines, 0)[j],
            ),
{
    lemma_parse_from_structure(lines, 0, ParseState::Idle);
}

/// Law: a header body of the shape `ID WS DESC` — a non-empty identifier
/// free of whitespace, a non-empty whitespace run, then a description
/// that neither starts nor ends with whitespace — splits into identifier
/// `ID` and description `DESC`.
pub proof fn lemma_header_split(id: Seq<char>, gap: Seq<char>, desc: Seq<char>)
    requires
        id.len() > 0,
        forall|j: int| 0 <= j < id.len() ==> !is_space(id[j]),
        gap.len() > 0,
        forall|j: int| 0 <= j < gap.len() ==> is_space(gap[j]),
        desc.len() > 0 ==> !is_space(desc[0]),
        desc.len() > 0 ==> !is_space(desc[desc.len() - 1]),
    ensures
        identifier_of(id + gap + desc) == id,
        description_of(id + gap + desc) == desc,
{
    let body = id + gap + desc;
    assert(forall|j: int| 0 <= j < id.len() ==> body[j] == id[j]);
    assert(body[id.len() as int] == gap[0]);
    lemma_ident_len_at(body, id.len() as int);
    assert(body.take(id.len() as int) =~= id);
    let rest = body.skip(id.len() as int);
    assert(rest =~= gap + desc);
    if desc.len() > 0 {
        assert(rest[rest.len() - 1] == desc[desc.len() - 1]);
        lemma_trim_end_is_prefix(rest, rest.len() as int);
        assert(rest.subrange(0, rest.len() as int) =~= rest);
        assert(forall|j: int| 0 <= j < gap.len() ==> rest[j] == gap[j]);
        assert(rest[gap.len() as int] == desc[0]);
        lemma_trim_start_is_suffix(rest, gap.len() as int);
        assert(rest.skip(gap.len() as int) =~= desc);
    } else {
        assert(rest =~= gap);
        lemma_trim_end_is_prefix(rest, 0);
        assert(rest.subrange(0, 0) =~= Seq::<char>::empty());
    }
}

/// Law: a header body with no whitespace at all is all identifier, and
/// the description is empty.
pub proof fn lemma_header_no_description(id: Seq<char>)
    requires
        forall|j: int| 0 <= j < id.len() ==> !is_space(id[j]),
    ensures
        identifier_of(id) == id,
        description_of(id) == Seq::<char>::empty(),
{
    lemma_ident_len_at(id, id.len() as int);
    assert(id.take(id.len() as int) =~= id);
    assert(id.skip(id.len() as int) =~= Seq::<char>::empty());
}

/// Do two parses succeed together, and agree whenever they succeed?
/// (On failure only the reported line numbers may differ.)
spec fn same_when_ok(
    a: Result<Seq<RecordView>, ParseErrorView>,
    b: Result<Seq<RecordView>, ParseErrorView>,
) -> bool {
    (a is Ok <==> b is Ok) && (a is Ok ==> a == b)
}

/// The fold only looks at the lines from its position on: two inputs with
/// the same suffix fold alike.
proof fn lemma_parse_from_same_suffix(
    l1: Seq<Seq<char>>,
    i1: int,
    l2: Seq<Seq<char>>,
    i2: int,
    st: ParseState,
)
    requires
        0 <= i1 <= l1.len(),
        0 <= i2 <= l2.len(),
        l1.skip(i1) == l2.skip(i2),
    ensures
        same_when_ok(parse_from(l1, i1, st), parse_from(l2, i2, st)),
    decreases l1.len() - i1,
{
    assert(l1.skip(i1).len() == l1.len() - i1);
    assert(l2.skip(i2).len() == l2.len() - i2);
    if i1 >= l1.len() {
        assert(i2 >= l2.len());
    } else {
        assert(i2 < l2.len());
        assert(l1.skip(i1)[0] == l1[i1]);
        assert(l2.skip(i2)[0] == l2[i2]);
        assert(l1[i1] == l2[i2]);
        assert(l1.skip(i1 + 1) =~= l2.skip(i2 + 1)) by {
            assert forall|k: int| 0 <= k < l1.len() - (i1 + 1) implies #[trigger] l1.skip(i1 + 1)[k]
                == l2.skip(i2 + 1)[k] by {
                assert(l1.skip(i1 + 1)[k] == l1.skip(i1)[k + 1]);
                assert(l2.skip(i2 + 1)[k] == l2.skip(i2)[k + 1]);
            }
        }
        let line = trim_end_ws(l1[i1]);
        if is_header_line(line) {
            let body = line.drop_first();
            if identifier_of(body).len() == 0 {
            } else {
                lemma_parse_from_same_suffix(
                    l1,
                    i1 + 1,
                    l2,
                    i2 + 1,
                    ParseState::Accum(fresh_record(body)),
                );
            }
        } else {
            match st {
                ParseState::Idle => {
                    if line.len() == 0 {
                        lemma_parse_from_same_suffix(l1, i1 + 1, l2, i2 + 1, ParseState::Idle);
                    }
                },
                ParseState::Accum(w) => {
                    let w2 = RecordView {
                        identifier: w.identifier,
                        description: w.description,
                        sequence: w.sequence + line,
                    };
                    lemma_parse_from_same_suffix(l1, i1 + 1, l2, i2 + 1, ParseState::Accum(w2));
                },
            }
        }
    }
}

/// Removing a blank line at `i` leaves the fold from any earlier position
/// `j` the same wherever it succeeds.
proof fn lemma_parse_from_drops_blank(lines: Seq<Seq<char>>, i: int, j: int, st: ParseState)
    requires
        0 <= j <= i < lines.len(),
        trim_end_ws(lines[i]).len() == 0,
    ensures
        same_when_ok(parse_from(lines, j, st), parse_from(lines.remove(i), j, st)),
    decreases i - j,
{
    let l2 = lines.remove(i);
    assert(l2.len() == lines.len() - 1);
    if j == i {
        let line = trim_end_ws(lines[i]);
        assert(!is_header_line(line));
        match st {
            ParseState::Idle => {
                assert(parse_from(lines, i, st) == parse_from(lines, i + 1, ParseState::Idle));
            },
            ParseState::Accum(w) => {
                let w2 = RecordView {
                    identifier: w.identifier,
                    description: w.description,
                    sequence: w.sequence + line,
                };
                assert(w2 =~= w);
                assert(parse_from(lines, i, st) == parse_from(lines, i + 1, st));
            },
        }
        assert(lines.skip(i + 1) =~= l2.skip(i)) by {
            assert forall|k: int| 0 <= k < lines.len() - (i + 1) implies #[trigger] lines.skip(
                i + 1,
            )[k] == l2.skip(i)[k] by {
                assert(lines.skip(i + 1)[k] == lines[i + 1 + k]);
                assert(l2.skip(i)[k] == l2[i + k]);
                assert(l2[i + k] == lines[i + k + 1]);
            }
        }
        lemma_parse_from_same_suffix(lines, i + 1, l2, i, st);
    } else {
        assert(l2[j] == lines[j]);
        let line = trim_end_ws(lines[j]);
        if is_header_line(line) {
            let body = line.drop_first();
            if identifier_of(body).len() == 0 {
            } else {
                lemma_parse_from_drops_blank(
                    lines,
                    i,
                    j + 1,
                    ParseState::Accum(fresh_record(body)),
                );
            }
        } else {
            match st {
                ParseState::Idle => {
                    if line.len() == 0 {
                        lemma_parse_from_drops_blank(lines, i, j + 1, ParseState::Idle);
                    }
                },
                ParseState::Accum(w) => {
                    let w2 = RecordView {
                        identifier: w.identifier,
                        description: w.description,
                        sequence: w.sequence + line,
                    };
                    lemma_parse_from_drops_blank(lines, i, j + 1, ParseState::Accum(w2));
                },
            }
        }
    }
}

/// Law: a blank line (one that is empty after right-trimming) contributes
/// nothing: removing it never changes whether the parse succeeds, and a
/// successful parse returns exactly the same records — the blank line
/// neither splits a record nor adds to any sequence. (On a failing input
/// only the reported line number can change.)
pub proof fn lemma_blank_line_contributes_nothing(lines: Seq<Seq<char>>, i: int)
    requires
        0 <= i < lines.len(),
        trim_end_ws(lines[i]).len() == 0,
    ensures
        parse(lines) is Ok <==> parse(lines.remove(i)) is Ok,
        parse(lines) is Ok ==> parse(lines) == parse(lines.remove(i)),
{
    lemma_parse_from_drops_blank(lines, i, 0, ParseState::Idle);
}

/// From any position at or before a header with an empty identifier, the
/// fold fails.
proof fn lemma_parse_from_fails_at(lines: Seq<Seq<char>>, i: int, j: int, st: ParseState)
    requires
        0 <= j <= i < lines.len(),
        is_header_line(trim_end_ws(lines[i])),
        identifier_of(trim_end_ws(lines[i]).drop_first()).len() == 0,
    ensures
        parse_from(lines, j, st) is Err,
    decreases i - j,
{
    if j == i {
    } else {
        let line = trim_end_ws(lines[j]);
        if is_header_line(line) {
            let body = line.drop_first();
            if identifier_of(body).len() == 0 {
            } else {
                lemma_parse_from_fails_at(lines, i, j + 1, ParseState::Accum(fresh_record(body)));
            }
        } else {
            match st {
                ParseState::Idle => {
                    if line.len() == 0 {
                        lemma_parse_from_fails_at(lines, i, j + 1, ParseState::Idle);
                    }
                },
                ParseState::Accum(w) => {
                    let w2 = RecordView {
                        identifier: w.identifier,
                        description: w.description,
                        sequence: w.sequence + line,
                    };
                    lemma_parse_from_fails_at(lines, i, j + 1, ParseState::Accum(w2));
                },
            }
        }
    }
}

/// Every position that `header_positions` lists is in range and carries
/// a header line.
proof fn lemma_header_positions_are_headers(lines: Seq<Seq<char>>, i: int)
    requires
        0 <= i,
    ensures
        forall|j: int|
            0 <= j < header_positions(lines, i).len() ==> i <= #[trigger] header_positions(
                lines,
                i,
            )[j] < lines.len() && is_header_line(trim_end_ws(lines[header_positions(lines, i)[j]])),
    decreases lines.len() - i,
{
    let hs = header_positions(lines, i);
    if i >= lines.len() {
    } else {
        lemma_header_positions_are_headers(lines, i + 1);
        let hs2 = header_positions(lines, i + 1);
        if is_header_line(trim_end_ws(lines[i])) {
            assert forall|j: int| 0 <= j < hs.len() implies i <= #[trigger] hs[j] < lines.len()
                && is_header_line(trim_end_ws(lines[hs[j]])) by {
                if j > 0 {
                    assert(hs[j] == hs2[j - 1]);
                }
            }
        }
    }
}

/// Law: every record of a successful parse has a non-empty identifier.
pub proof fn lemma_records_have_identifiers(lines: Seq<Seq<char>>)
    requires
        parse(lines) is Ok,
    ensures
        forall|j: int|
            0 <= j < parse(lines)->Ok_0.len() ==> #[trigger] parse(
                lines,
            )->Ok_0[j].identifier.len() > 0,
{
    lemma_records_match_headers(lines);
    lemma_header_positions_are_headers(lines, 0);
    lemma_ok_headers_nonempty(lines);
    let recs = parse(lines)->Ok_0;
    let hs = header_positions(lines, 0);
    assert forall|j: int| 0 <= j < recs.len() implies #[trigger] recs[j].identifier.len() > 0 by {
        let h = hs[j];
        assert(recs[j] == record_at(lines, h));
        assert(is_header_line(trim_end_ws(lines[h])));
    }
}

/// Law: an input with a header line whose identifier is empty never
/// parses: the whole parse fails and no records are returned.
pub proof fn lemma_empty_identifier_rejected(lines: Seq<Seq<char>>, i: int)
    requires
        0 <= i < lines.len(),
        is_header_line(trim_end_ws(lines[i])),
        identifier_of(trim_end_ws(lines[i]).drop_first()).len() == 0,
    ensures
        parse(lines) is Err,
{
    lemma_parse_from_fails_at(lines, i, 0, ParseState::Idle);
}

/// A failing fold reports an offending line at or after its position;
/// orphan data is only ever reported while no record is open, with
/// nothing but blank lines seen since.
proof fn lemma_parse_from_err_accurate(lines: Seq<Seq<char>>, i: int, st: ParseState)
    requires
        0 <= i,
        parse_from(lines, i, st) is Err,
    ensures
        ({
            let e = parse_from(lines, i, st)->Err_0;
            match e {
                ParseErrorView::MalformedHeader { line } => {
                    &&& i + 1 <= line <= lines.len()
                    &&& is_header_line(trim_end_ws(lines[line - 1]))
                    &&& identifier_of(trim_end_ws(lines[line - 1]).drop_first()).len() == 0
                },
                ParseErrorView::OrphanSequenceData { line } => {
                    &&& i + 1 <= line <= lines.len()
                    &&& !is_header_line(trim_end_ws(lines[line - 1]))
                    &&& trim_end_ws(lines[line - 1]).len() > 0
                    &&& st is Idle
                    &&& forall|j: int|
                        i <= j < line - 1 ==> #[trigger] trim_end_ws(lines[j]).len() == 0
                },
            }
        }),
    decreases lines.len() - i,
{
    if i >= lines.len() {
    } else {
        let line = trim_end_ws(lines[i]);
        if is_header_line(line) {
            let body = line.drop_first();
            if identifier_of(body).len() == 0 {
            } else {
                lemma_parse_from_err_accurate(
                    lines,
                    i + 1,
                    ParseState::Accum(fresh_record(body)),
                );
            }
        } else {
            match st {
                ParseState::Idle => {
                    if line.len() == 0 {
                        lemma_parse_from_err_accurate(lines, i + 1, ParseState::Idle);
                    }
                },
                ParseState::Accum(w) => {
                    let w2 = RecordView {
                        identifier: w.identifier,
                        description: w.description,
                        sequence: w.sequence + line,
                    };
                    lemma_parse_from_err_accurate(lines, i + 1, ParseState::Accum(w2));
                },
            }
        }
    }
}

/// Law: a failure report is accurate. A `MalformedHeader` error points at
/// a header line whose identifier is empty; an `OrphanSequenceData` error
/// points at a non-blank, non-header line that only blank lines precede,
/// so the data indeed has no record to belong to. Line numbers are
/// 1-based and in range.
pub proof fn lemma_error_names_offending_line(lines: Seq<Seq<char>>)
    requires
        parse(lines) is Err,
    ensures
        ({
            let e = parse(lines)->Err_0;
            match e {
                ParseErrorView::MalformedHeader { line } => {
                    &&& 1 <= line <= lines.len()
                    &&& is_header_line(trim_end_ws(lines[line - 1]))
                    &&& identifier_of(trim_end_ws(lines[line - 1]).drop_first()).len() == 0
                },
                ParseErrorView::OrphanSequenceData { line } => {
                    &&& 1 <= line <= lines.len()
                    &&& !is_header_line(trim_end_ws(lines[line - 1]))
                    &&& trim_end_ws(lines[line - 1]).len() > 0
                    &&& forall|j: int|
                        0 <= j < line - 1 ==> #[trigger] trim_end_ws(lines[j]).len() == 0
                },
            }
        }),
{
    lemma_parse_from_err_accurate(lines, 0, ParseState::Idle);
}

/// Law: conversely, every header line of a successfully parsed input has
/// a non-empty identifier — the invariant that every emitted record's
/// identifier is non-empty follows.
pub proof fn lemma_ok_headers_nonempty(lines: Seq<Seq<char>>)
    requires
        parse(lines) is Ok,
    ensures
        forall|i: int|
            0 <= i < lines.len() && is_header_line(#[trigger] trim_end_ws(lines[i]))
                ==> identifier_of(trim_end_ws(lines[i]).drop_first()).len() > 0,
{
    assert forall|i: int|
        0 <= i < lines.len() && is_header_line(#[trigger] trim_end_ws(lines[i]))
            implies identifier_of(trim_end_ws(lines[i]).drop_first()).len() > 0 by {
        if identifier_of(trim_end_ws(lines[i]).drop_first()).len() == 0 {
            lemma_empty_identifier_rejected(lines, i);
        }
    }
}

} // verus!
