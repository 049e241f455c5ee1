//! The mathematical model of the parse.
//!
//! Everything here is specification: records and errors as ghost values,
//! the header split and whitespace trimming over `Seq<char>`, and the fold
//! `parse_from` that classifies each line as header or sequence
//! continuation and emits one finalized record per header. The executable
//! parser in `parser` is proved to return exactly what `parse` says.

use vstd::prelude::*;

verus! {

/// One record as mathematics: the three fields of one entry.
#[verifier::ext_equal]
pub struct RecordView {
    pub identifier: Seq<char>,
    pub description: Seq<char>,
    pub sequence: Seq<char>,
}

/// A parse failure as mathematics; `line` is the 1-based number of the
/// offending input line.
pub enum ParseErrorView {
    MalformedHeader { line: int },
    OrphanSequenceData { line: int },
}

/// The parser's state between lines: either no header has been seen yet,
/// or exactly one record is being accumulated.
#[verifier::ext_equal]
pub enum ParseState {
    Idle,
    Accum(RecordView),
}

/// Whitespace for this format: the ASCII whitespace characters.
pub open spec fn is_space(c: char) -> bool {
    c == ' ' || c == '\t' || c == '\n' || c == '\r' || c == '\x0c'
}

/// The marker character that introduces a header line.
pub open spec fn marker() -> char {
    '>'
}

/// `s` with every trailing whitespace character removed.
pub open spec fn trim_end_ws(s: Seq<char>) -> Seq<char>
    decreases s.len(),
{
    if s.len() > 0 && is_space(s.last()) {
        trim_end_ws(s.drop_last())
    } else {
        s
    }
}

/// `s` with every leading whitespace character removed.
pub open spec fn trim_start_ws(s: Seq<char>) -> Seq<char>
    decreases s.len(),
{
    if s.len() > 0 && is_space(s.first()) {
        trim_start_ws(s.drop_first())
    } else {
        s
    }
}

/// Length of the identifier on a header body: the longest whitespace-free
/// prefix of `s`.
pub open spec fn ident_len(s: Seq<char>) -> int
    decreases s.len(),
{
    if s.len() == 0 || is_space(s.first()) {
        0
    } else {
        1 + ident_len(s.drop_first())
    }
}

/// The identifier of a header line whose marker has already been stripped:
/// the text up to the first whitespace run.
pub open spec fn identifier_of(body: Seq<char>) -> Seq<char> {
    body.take(ident_len(body))
}

/// The description of a header line whose marker has already been
/// stripped: the text after the first whitespace run, with leading and
/// trailing whitespace removed; empty when the body has no whitespace.
pub open spec fn description_of(body: Seq<char>) -> Seq<char> {
    trim_start_ws(trim_end_ws(body.skip(ident_len(body))))
}

/// Does this (already right-trimmed) line introduce a new record?
pub open spec fn is_header_line(line: Seq<char>) -> bool {
    line.len() > 0 && line[0] == marker()
}

/// The working record that a header body opens: its identifier and
/// description, with an empty sequence accumulator.
pub open spec fn fresh_record(body: Seq<char>) -> RecordView {
    RecordView {
        identifier: identifier_of(body),
        description: description_of(body),
        sequence: Seq::<char>::empty(),
    }
}

/// The fold over the raw input lines, from line `i` on, in state `st`.
///
/// Each line is right-trimmed, then classified. A header line finalizes
/// the working record, if any, and opens a new one; it fails when its
/// identifier is empty. Any other line extends the working record's
/// sequence; before the first header such a line is an error unless it is
/// blank, in which case it is ignored.
pub open spec fn parse_from(lines: Seq<Seq<char>>, i: int, st: ParseState) -> Result<
    Seq<RecordView>,
    ParseErrorView,
>
    decreases lines.len() - i,
{
    if i >= lines.len() {
        match st {
            ParseState::Idle => Ok(Seq::<RecordView>::empty()),
            ParseState::Accum(w) => Ok(seq![w]),
        }
    } else {
        let line = trim_end_ws(lines[i]);
        if is_header_line(line) {
            let body = line.drop_first();
            if identifier_of(body).len() == 0 {
                Err(ParseErrorView::MalformedHeader { line: i + 1 })
            } else {
                match st {
                    ParseState::Idle => parse_from(
                        lines,
                        i + 1,
                        ParseState::Accum(fresh_record(body)),
                    ),
                    ParseState::Accum(w) => match parse_from(
                        lines,
                        i + 1,
                        ParseState::Accum(fresh_record(body)),
                    ) {
                        Ok(rest) => Ok(seq![w] + rest),
                        Err(e) => Err(e),
                    },
                }
            }
        } else {
            match st {
                ParseState::Idle => {
                    if line.len() == 0 {
                        parse_from(lines, i + 1, ParseState::Idle)
                    } else {
                        Err(ParseErrorView::OrphanSequenceData { line: i + 1 })
                    }
                },
                ParseState::Accum(w) => parse_from(
                    lines,
                    i + 1,
                    ParseState::Accum(
                        RecordView {
                            identifier: w.identifier,
                            description: w.description,
                            sequence: w.sequence + line,
                        },
                    ),
                ),
            }
        }
    }
}

/// The parse of a whole input: the fold started at the first line with no
/// working record.
pub open spec fn parse(lines: Seq<Seq<char>>) -> Result<Seq<RecordView>, ParseErrorView> {
    parse_from(lines, 0, ParseState::Idle)
}

/// The positions of the header lines from `i` on, in input order.
pub open spec fn header_positions(lines: Seq<Seq<char>>, i: int) -> Seq<int>
    decreases lines.len() - i,
{
    if i >= lines.len() {
        Seq::<int>::empty()
    } else if is_header_line(trim_end_ws(lines[i])) {
        seq![i] + header_positions(lines, i + 1)
    } else {
        header_positions(lines, i + 1)
    }
}

/// The concatenation of the right-trimmed lines from `i` up to (not
/// including) the next header line or the end of the input.
pub open spec fn sequence_block(lines: Seq<Seq<char>>, i: int) -> Seq<char>
    decreases lines.len() - i,
{
    if i >= lines.len() || is_header_line(trim_end_ws(lines[i])) {
        Seq::<char>::empty()
    } else {
        trim_end_ws(lines[i]) + sequence_block(lines, i + 1)
    }
}

/// The record that the header line at position `h` should produce: its
/// split header, and the sequence block that follows it.
pub open spec fn record_at(lines: Seq<Seq<char>>, h: int) -> RecordView {
    let body = trim_end_ws(lines[h]).drop_first();
    RecordView {
        identifier: identifier_of(body),
        description: description_of(body),
        sequence: sequence_block(lines, h + 1),
    }
}

/// `trim_end_ws(s)` keeps exactly the prefix that ends at the last
/// non-whitespace character.
pub proof fn lemma_trim_end_is_prefix(s: Seq<char>, k: int)
    requires
        0 <= k <= s.len(),
        forall|j: int| k <= j < s.len() ==> is_space(s[j]),
        k > 0 ==> !is_space(s[k - 1]),
    ensures
        trim_end_ws(s) == s.subrange(0, k),
    decreases s.len(),
{
    if k == s.len() {
        if s.len() > 0 {
            assert(!is_space(s.last()));
        }
        assert(trim_end_ws(s) == s);
        assert(s.subrange(0, k) =~= s);
    } else {
        assert(is_space(s.last()));
        let t = s.drop_last();
        assert(forall|j: int| k <= j < t.len() ==> is_space(t[j]));
        lemma_trim_end_is_prefix(t, k);
        assert(t.subrange(0, k) =~= s.subrange(0, k));
    }
}

/// `trim_start_ws(s)` keeps exactly the suffix that starts at the first
/// non-whitespace character.
pub proof fn lemma_trim_start_is_suffix(s: Seq<char>, k: int)
    requires
        0 <= k <= s.len(),
        forall|j: int| 0 <= j < k ==> is_space(s[j]),
        k < s.len() ==> !is_space(s[k]),
    ensures
        trim_start_ws(s) == s.skip(k),
    decreases s.len(),
{
    if k == 0 {
        if s.len() > 0 {
            assert(!is_space(s.first()));
        }
        assert(trim_start_ws(s) == s);
        assert(s.skip(0) =~= s);
    } else {
        assert(is_space(s.first()));
        let t = s.drop_first();
        assert(forall|j: int| 0 <= j < k - 1 ==> is_space(t[j]));
        lemma_trim_start_is_suffix(t, k - 1);
        assert(t.skip(k - 1) =~= s.skip(k));
    }
}

/// `ident_len(s)` is the position of the first whitespace character, or
/// the whole length when there is none.
pub proof fn lemma_ident_len_at(s: Seq<char>, k: int)
    requires
        0 <= k <= s.len(),
        forall|j: int| 0 <= j < k ==> !is_space(s[j]),
        k < s.len() ==> is_space(s[k]),
    ensures
        ident_len(s) == k,
    decreases s.len(),
{
    if k == 0 {
    } else {
        assert(!is_space(s.first()));
        let t = s.drop_first();
        assert(forall|j: int| 0 <= j < k - 1 ==> !is_space(t[j]));
        lemma_ident_len_at(t, k - 1);
    }
}

} // verus!
