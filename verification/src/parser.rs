//! The executable parser, proved to implement `model::parse` exactly.

use vstd::prelude::*;
use vstd::string::StrSliceExecFns;
use vstd::string::StringExecFns;

use crate::model::{
    identifier_of, is_space, description_of, fresh_record, lemma_ident_len_at,
    lemma_trim_end_is_prefix, lemma_trim_start_is_suffix, parse, parse_from, trim_end_ws,
    ParseErrorView, ParseState, RecordView,
};
use crate::record::{ParseError, Record};

verus! {

/// Decides `is_space` on one character.
fn is_space_char(c: char) -> (b: bool)
    ensures
        b == is_space(c),
{
    c == ' ' || c == '\t' || c == '\n' || c == '\r' || c == '\x0c'
}

/// Removes every trailing whitespace character from one raw input line.
fn trim_line(s: &str) -> (r: String)
    ensures
        r@ == trim_end_ws(s@),
{
    let n: usize = s.unicode_len();
    let mut k: usize = n;
    while k > 0 && is_space_char(s.get_char(k - 1))
        invariant
            k <= n,
            n == s@.len(),
            forall|j: int| k <= j < n ==> is_space(s@[j]),
        decreases k,
    {
        k = k - 1;
    }
    proof {
        lemma_trim_end_is_prefix(s@, k as int);
    }
    let t: &str = s.substring_char(0, k);
    t.to_owned()
}

/// Splits a header line's body (the text after the marker) into the
/// identifier and the description.
fn split_header(body: &str) -> (r: (String, String))
    ensures
        r.0@ == identifier_of(body@),
        r.1@ == description_of(body@),
{
    let n: usize = body.unicode_len();
    let mut i: usize = 0;
    while i < n && !is_space_char(body.get_char(i))
        invariant
            i <= n,
            n == body@.len(),
            forall|j: int| 0 <= j < i ==> !is_space(body@[j]),
        decreases n - i,
    {
        i = i + 1;
    }
    proof {
        lemma_ident_len_at(body@, i as int);
    }
    let ident: String = body.substring_char(0, i).to_owned();
    let mut e: usize = n;
    while e > i && is_space_char(body.get_char(e - 1))
        invariant
            i <= e <= n,
            n == body@.len(),
            forall|j: int| e <= j < n ==> is_space(body@[j]),
        decreases e,
    {
        e = e - 1;
    }
    let mut d: usize = i;
    while d < e && is_space_char(body.get_char(d))
        invariant
            i <= d <= e <= n,
            n == body@.len(),
            forall|j: int| i <= j < d ==> is_space(body@[j]),
        decreases e - d,
    {
        d = d + 1;
    }
    proof {
        let rest = body@.skip(i as int);
        assert(forall|j: int| e - i <= j < rest.len() ==> is_space(rest[j]));
        if e > i {
            assert(!is_space(rest[e - i - 1]));
        }
        lemma_trim_end_is_prefix(rest, e - i);
        let mid = rest.subrange(0, e - i);
        assert(forall|j: int| 0 <= j < d - i ==> is_space(mid[j]));
        if d < e {
            assert(!is_space(mid[d - i]));
        }
        lemma_trim_start_is_suffix(mid, d - i);
        assert(mid.skip(d - i) =~= body@.subrange(d as int, e as int));
    }
    let desc: String = body.substring_char(d, e).to_owned();
    (ident, desc)
}

/// The parser's state as mathematics: no working record, or the one being
/// accumulated.
pub open spec fn state_of(working: Option<Record>) -> ParseState {
    match working {
        Option::None => ParseState::Idle,
        Option::Some(rec) => ParseState::Accum(rec@),
    }
}

/// `r` prefixed with the records already finalized.
pub open spec fn with_finalized(
    pre: Seq<RecordView>,
    r: Result<Seq<RecordView>, ParseErrorView>,
) -> Result<Seq<RecordView>, ParseErrorView> {
    match r {
        Ok(rest) => Ok(pre + rest),
        Err(e) => Err(e),
    }
}

/// Parses the input, given as its raw lines (line terminators already
/// removed by the line source; trailing whitespace is removed here), into
/// the ordered collection of records.
///
/// The result is exactly what the model says: `Ok` with the records of
/// `model::parse` on the lines' views, or `Err` with the error that
/// `model::parse` gives — never a partial result.
pub fn parse_records(lines: &Vec<String>) -> (r: Result<Vec<Record>, ParseError>)
    ensures
        match r {
            Ok(recs) => parse(lines.deep_view()) == Ok::<Seq<RecordView>, ParseErrorView>(
                recs.deep_view(),
            ),
            Err(e) => parse(lines.deep_view()) == Err::<Seq<RecordView>, ParseErrorView>(e@),
        },
{
    let ghost linesv: Seq<Seq<char>> = lines.deep_view();
    let mut out: Vec<Record> = Vec::new();
    let mut working: Option<Record> = None;
    let mut i: usize = 0;
    while i < lines.len()
        invariant
            i <= lines.len(),
            linesv == lines.deep_view(),
            parse(linesv) == with_finalized(
                out.deep_view(),
                parse_from(linesv, i as int, state_of(working)),
            ),
        decreases lines.len() - i,
    {
        let ghost st = state_of(working);
        let ghost out0 = out.deep_view();
        let line: String = trim_line(lines[i].as_str());
        proof {
            assert(linesv[i as int] == lines@[i as int]@);
            assert(line@ == trim_end_ws(linesv[i as int]));
        }
        if !line.as_str().is_empty() && line.as_str().get_char(0) == '>' {
            let n: usize = line.as_str().unicode_len();
            let body_str: &str = line.as_str().substring_char(1, n);
            proof {
                assert(body_str@ =~= line@.drop_first());
            }
            let (ident, desc) = split_header(body_str);
            if ident.as_str().is_empty() {
                proof {
                    assert(identifier_of(line@.drop_first()).len() == 0);
                    assert(parse_from(linesv, i as int, st) == Err::<
                        Seq<RecordView>,
                        ParseErrorView,
                    >(ParseErrorView::MalformedHeader { line: i + 1 }));
                }
                return Err(ParseError::MalformedHeader { line: i + 1 });
            }
            match working {
                Some(rec) => {
                    out.push(rec);
                },
                None => {},
            }
            working = Some(
                Record { identifier: ident, description: desc, sequence: String::new() },
            );
            proof {
                let body = line@.drop_first();
                assert(state_of(working) =~~= ParseState::Accum(fresh_record(body)));
                match st {
                    ParseState::Idle => {
                        assert(out.deep_view() =~= out0);
                    },
                    ParseState::Accum(w) => {
                        assert(out.deep_view() =~= out0 + seq![w]);
                        match parse_from(linesv, i + 1, ParseState::Accum(fresh_record(body))) {
                            Ok(rest) => {
                                assert(out0 + (seq![w] + rest) =~= (out0 + seq![w]) + rest);
                            },
                            Err(_) => {},
                        }
                    },
                }
            }
        } else {
            working = match working {
                Some(rec) => {
                    let joined: String = rec.sequence.concat(line.as_str());
                    Some(
                        Record {
                            identifier: rec.identifier,
                            description: rec.description,
                            sequence: joined,
                        },
                    )
                },
                None => {
                    if !line.as_str().is_empty() {
                        proof {
                            assert(parse_from(linesv, i as int, st) == Err::<
                                Seq<RecordView>,
                                ParseErrorView,
                            >(ParseErrorView::OrphanSequenceData { line: i + 1 }));
                        }
                        return Err(ParseError::OrphanSequenceData { line: i + 1 });
                    }
                    None
                },
            };
        }
        i = i + 1;
    }
    match working {
        Some(rec) => {
            let ghost out0 = out.deep_view();
            let ghost w = rec@;
            out.push(rec);
            proof {
                assert(out.deep_view() =~= out0 + seq![w]);
            }
        },
        None => {},
    }
    proof {
        assert(out.deep_view() + Seq::<RecordView>::empty() =~= out.deep_view());
    }
    Ok(out)
}

} // verus!
