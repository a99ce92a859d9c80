//! The diagnostic record and its parser.
//!
//! One input line has the shape `file:line:column:message`. It is split at
//! every colon; the first token is the file path, the second and third must
//! be non-negative integers, and everything after the third colon — colons
//! included — is the message, trimmed of surrounding white space. A batch
//! of lines is parsed in order, skipping comment lines (those starting
//! with `#`), and stops at the first malformed line.

use crate::number::{all_digits, is_digit, num_body, parse_usize_spec, parse_usize_tok, NumError};
use crate::text::{
    join_chars, lemma_join_split, lemma_split_prefix, lemma_split_structure, lines_spec,
    split_chars, split_lines, trim_spec, trim_str,
};
use vstd::prelude::*;
use vstd::string::StrSliceExecFns;
use vstd::string::StringExecFns;

verus! {

/// Why a line failed to parse, attributed to the first offending field in
/// left-to-right order.
#[derive(Clone, Copy, Debug, PartialEq, Eq, Structural)]
pub enum Error {
    /// The line had no tokens at all. Splitting always yields at least one
    /// token, so this is never produced; the variant is kept so the
    /// taxonomy covers every field.
    MissingFilePath,
    /// The path token failed to parse. Any string is a valid path, so this
    /// is never produced; the variant is kept for the same reason.
    InvalidFilePath,
    /// No second token: the line has no colon after the path.
    MissingLine,
    /// The second token is not a valid non-negative integer.
    InvalidLine(NumError),
    /// No third token: the line has only one colon.
    MissingColumn,
    /// The third token is not a valid non-negative integer.
    InvalidColumn(NumError),
    /// No token after the third: the line has exactly two colons.
    MissingMessage,
}

/// A parsed diagnostic line: where the problem is and what it says.
#[derive(Debug, PartialEq, Eq)]
pub struct ErrorLine {
    /// The file the diagnostic points into; not checked to exist.
    pub file_path: String,
    /// 1-based line number.
    pub line: usize,
    /// 1-based column number.
    pub column: usize,
    /// Free-form text; may contain colons; trimmed of surrounding white
    /// space.
    pub message: String,
}

/// The mathematical shape of an `ErrorLine`.
pub ghost struct ErrorLineModel {
    pub file_path: Seq<char>,
    pub line: int,
    pub column: int,
    pub message: Seq<char>,
}

impl View for ErrorLine {
    type V = ErrorLineModel;

    open spec fn view(&self) -> ErrorLineModel {
        ErrorLineModel {
            file_path: self.file_path@,
            line: self.line as int,
            column: self.column as int,
            message: self.message@,
        }
    }
}

impl DeepView for ErrorLine {
    type V = ErrorLineModel;

    open spec fn deep_view(&self) -> ErrorLineModel {
        self.view()
    }
}

/// What parsing one candidate line yields. The line is split at every
/// colon; the fields are validated left to right and the first failure
/// names the field. The message is the remaining tokens rejoined with the
/// delimiter — so a message may itself contain colons — trimmed of
/// surrounding white space.
pub open spec fn parse_line_spec(s: Seq<char>) -> Result<ErrorLineModel, Error> {
    let toks = split_chars(s, ':');
    if toks.len() < 1 {
        Err(Error::MissingFilePath)
    } else if toks.len() < 2 {
        Err(Error::MissingLine)
    } else if parse_usize_spec(toks[1]) is Err {
        Err(Error::InvalidLine(parse_usize_spec(toks[1])->Err_0))
    } else if toks.len() < 3 {
        Err(Error::MissingColumn)
    } else if parse_usize_spec(toks[2]) is Err {
        Err(Error::InvalidColumn(parse_usize_spec(toks[2])->Err_0))
    } else if toks.len() < 4 {
        Err(Error::MissingMessage)
    } else {
        Ok(
            ErrorLineModel {
                file_path: toks[0],
                line: parse_usize_spec(toks[1])->Ok_0,
                column: parse_usize_spec(toks[2])->Ok_0,
                message: trim_spec(join_chars(toks.skip(3), ':')),
            },
        )
    }
}

impl ErrorLine {
    /// Parse one candidate line, exactly as `parse_line_spec` describes it.
    pub fn try_from(input: &str) -> (r: Result<ErrorLine, Error>)
        ensures
            match r {
                Ok(rec) => parse_line_spec(input@) == Ok::<ErrorLineModel, Error>(rec@),
                Err(e) => parse_line_spec(input@) == Err::<ErrorLineModel, Error>(e),
            },
    {
        let n = input.unicode_len();
        let ghost s = input@;
        proof {
            lemma_split_structure(s, ':');
        }
        match crate::text::find_first(input, ':') {
            None => {
                proof {
                    assert(split_chars(s, ':') == seq![s]);
                }
                Err(Error::MissingLine)
            },
            Some(i1) => {
                let path = input.substring_char(0, i1);
                let rest1 = input.substring_char(i1 + 1, n);
                let ghost toks = split_chars(s, ':');
                proof {
                    assert(path@ =~= s.take(i1 as int));
                    assert(rest1@ =~= s.skip(i1 as int + 1));
                    lemma_split_structure(rest1@, ':');
                    assert(toks == seq![s.take(i1 as int)] + split_chars(rest1@, ':'));
                }
                match crate::text::find_first(rest1, ':') {
                    None => {
                        proof {
                            assert(split_chars(rest1@, ':') == seq![rest1@]);
                            assert(toks.len() == 2);
                            assert(toks[1] == rest1@);
                        }
                        match parse_usize_tok(rest1) {
                            Err(k) => Err(Error::InvalidLine(k)),
                            Ok(_) => Err(Error::MissingColumn),
                        }
                    },
                    Some(i2) => {
                        let n1 = rest1.unicode_len();
                        let line_tok = rest1.substring_char(0, i2);
                        let rest2 = rest1.substring_char(i2 + 1, n1);
                        proof {
                            assert(line_tok@ =~= rest1@.take(i2 as int));
                            assert(rest2@ =~= rest1@.skip(i2 as int + 1));
                            lemma_split_structure(rest2@, ':');
                            assert(split_chars(rest1@, ':') == seq![line_tok@] + split_chars(
                                rest2@,
                                ':',
                            ));
                            assert(toks.len() >= 2);
                            assert(toks[1] == line_tok@);
                        }
                        match parse_usize_tok(line_tok) {
                            Err(k) => Err(Error::InvalidLine(k)),
                            Ok(line_no) => match crate::text::find_first(rest2, ':') {
                                None => {
                                    proof {
                                        assert(split_chars(rest2@, ':') == seq![rest2@]);
                                        assert(toks.len() == 3);
                                        assert(toks[2] == rest2@);
                                    }
                                    match parse_usize_tok(rest2) {
                                        Err(k) => Err(Error::InvalidColumn(k)),
                                        Ok(_) => Err(Error::MissingMessage),
                                    }
                                },
                                Some(i3) => {
                                    let n2 = rest2.unicode_len();
                                    let col_tok = rest2.substring_char(0, i3);
                                    let msg_raw = rest2.substring_char(i3 + 1, n2);
                                    proof {
                                        assert(col_tok@ =~= rest2@.take(i3 as int));
                                        assert(msg_raw@ =~= rest2@.skip(i3 as int + 1));
                                        lemma_split_structure(msg_raw@, ':');
                                        assert(split_chars(rest2@, ':') == seq![col_tok@]
                                            + split_chars(msg_raw@, ':'));
                                        assert(toks.len() >= 4);
                                        assert(toks[2] == col_tok@);
                                        assert(toks.skip(3) =~= split_chars(msg_raw@, ':'));
                                        lemma_join_split(msg_raw@, ':');
                                    }
                                    match parse_usize_tok(col_tok) {
                                        Err(k) => Err(Error::InvalidColumn(k)),
                                        Ok(col_no) => {
                                            let message = trim_str(msg_raw);
                                            let rec = ErrorLine {
                                                file_path: String::from_str(path),
                                                line: line_no,
                                                column: col_no,
                                                message,
                                            };
                                            Ok(rec)
                                        },
                                    }
                                },
                            },
                        }
                    },
                }
            },
        }
    }
}

impl Error {
    /// The failure, in words, naming the field it belongs to.
    pub fn describe(&self) -> (r: String)
        ensures
            match *self {
                Error::MissingFilePath => r@ == "missing file_path"@,
                Error::InvalidFilePath => r@ == "invalid file_path"@,
                Error::MissingLine => r@ == "missing line"@,
                Error::InvalidLine(k) => r@ == "invalid line: "@ + crate::number::num_error_text(
                    k,
                ),
                Error::MissingColumn => r@ == "missing column"@,
                Error::InvalidColumn(k) => r@ == "invalid column: "@
                    + crate::number::num_error_text(k),
                Error::MissingMessage => r@ == "missing message"@,
            },
    {
        match self {
            Error::MissingFilePath => String::from_str("missing file_path"),
            Error::InvalidFilePath => String::from_str("invalid file_path"),
            Error::MissingLine => String::from_str("missing line"),
            Error::InvalidLine(k) => {
                let d = k.describe();
                String::from_str("invalid line: ").concat(d.as_str())
            },
            Error::MissingColumn => String::from_str("missing column"),
            Error::InvalidColumn(k) => {
                let d = k.describe();
                String::from_str("invalid column: ").concat(d.as_str())
            },
            Error::MissingMessage => String::from_str("missing message"),
        }
    }
}

/// Whether a line is an administrative comment, skipped before parsing.
pub open spec fn is_comment(l: Seq<char>) -> bool {
    l.len() > 0 && l[0] == '#'
}

/// The lines that are handed to the record parser: the input lines in
/// order, with comment lines removed.
pub open spec fn non_comment(ls: Seq<Seq<char>>) -> Seq<Seq<char>>
    decreases ls.len(),
{
    if ls.len() == 0 {
        Seq::empty()
    } else if is_comment(ls[0]) {
        non_comment(ls.skip(1))
    } else {
        seq![ls[0]] + non_comment(ls.skip(1))
    }
}

/// What parsing a sequence of candidate lines yields: every record in
/// order, or the first failure — nothing in between.
pub open spec fn parse_lines_spec(ls: Seq<Seq<char>>) -> Result<Seq<ErrorLineModel>, Error>
    decreases ls.len(),
{
    if ls.len() == 0 {
        Ok(Seq::empty())
    } else {
        match parse_line_spec(ls[0]) {
            Err(e) => Err(e),
            Ok(rec) => match parse_lines_spec(ls.skip(1)) {
                Err(e) => Err(e),
                Ok(recs) => Ok(seq![rec] + recs),
            },
        }
    }
}

/// What parsing a whole text yields: its lines, comments removed, parsed
/// in order with the first failure aborting the batch.
pub open spec fn parse_spec(text: Seq<char>) -> Result<Seq<ErrorLineModel>, Error> {
    parse_lines_spec(non_comment(lines_spec(text)))
}

/// Whether the line starts with the comment marker.
fn starts_with_hash(l: &String) -> (b: bool)
    ensures
        b == is_comment(l@),
{
    let ls = l.as_str();
    if ls.unicode_len() == 0 {
        false
    } else {
        ls.get_char(0) == '#'
    }
}

/// Parse a whole diagnostic text, exactly as `parse_spec` describes it.
pub fn parse(input: &str) -> (r: Result<Vec<ErrorLine>, Error>)
    ensures
        match r {
            Ok(v) => parse_spec(input@) == Ok::<Seq<ErrorLineModel>, Error>(v.deep_view()),
            Err(e) => parse_spec(input@) == Err::<Seq<ErrorLineModel>, Error>(e),
        },
{
    let lines = split_lines(input);
    let ghost all = lines.deep_view();
    let mut out: Vec<ErrorLine> = Vec::new();
    proof {
        assert(all.skip(0) =~= all);
        assert(out.deep_view() =~= Seq::<ErrorLineModel>::empty());
        if parse_lines_spec(non_comment(all)) is Ok {
            assert(Seq::<ErrorLineModel>::empty() + parse_lines_spec(non_comment(all))->Ok_0
                =~= parse_lines_spec(non_comment(all))->Ok_0);
        }
    }
    let mut k: usize = 0;
    while k < lines.len()
        invariant
            k <= lines.len(),
            lines.deep_view() == all,
            lines_spec(input@) == all,
            all.len() == lines@.len(),
            (match parse_lines_spec(non_comment(all.skip(k as int))) {
                Ok(recs) => parse_spec(input@) == Ok::<Seq<ErrorLineModel>, Error>(
                    out.deep_view() + recs,
                ),
                Err(e) => parse_spec(input@) == Err::<Seq<ErrorLineModel>, Error>(e),
            }),
        decreases lines.len() - k,
    {
        let line: &String = &lines[k];
        let ghost tail = all.skip(k as int);
        proof {
            assert(all[k as int] == lines@[k as int].deep_view());
            assert(tail[0] == all[k as int]);
            assert(tail.skip(1) =~= all.skip(k as int + 1));
        }
        if starts_with_hash(line) {
            proof {
                assert(is_comment(tail[0]));
                assert(non_comment(tail) == non_comment(tail.skip(1)));
            }
        } else {
            let ghost nc = non_comment(tail);
            proof {
                assert(!is_comment(tail[0]));
                assert(nc == seq![tail[0]] + non_comment(tail.skip(1)));
                assert(nc.len() >= 1);
                assert(nc[0] == tail[0]);
                assert(nc.skip(1) =~= non_comment(tail.skip(1)));
                assert(line@ == tail[0]);
            }
            match ErrorLine::try_from(line.as_str()) {
                Err(e) => {
                    proof {
                        assert(parse_line_spec(nc[0]) == Err::<ErrorLineModel, Error>(e));
                        assert(parse_lines_spec(nc) == Err::<Seq<ErrorLineModel>, Error>(e));
                    }
                    return Err(e);
                },
                Ok(rec) => {
                    let ghost out0 = out.deep_view();
                    out.push(rec);
                    proof {
                        assert(out.deep_view() =~= out0.push(rec@));
                        assert(parse_line_spec(nc[0]) == Ok::<ErrorLineModel, Error>(rec@));
                        if parse_lines_spec(non_comment(all.skip(k as int + 1))) is Ok {
                            let recs = parse_lines_spec(
                                non_comment(all.skip(k as int + 1)),
                            )->Ok_0;
                            assert(parse_lines_spec(nc) == Ok::<Seq<ErrorLineModel>, Error>(
                                seq![rec@] + recs,
                            ));
                            assert(out0 + (seq![rec@] + recs) =~= out.deep_view() + recs);
                        }
                    }
                },
            }
        }
        k += 1;
    }
    proof {
        assert(all.skip(k as int) =~= Seq::<Seq<char>>::empty());
        assert(out.deep_view() + Seq::<ErrorLineModel>::empty() =~= out.deep_view());
    }
    Ok(out)
}

/// A token that parses as a non-negative integer holds no colon: only
/// digits and a leading sign can occur in it.
proof fn lemma_numeral_no_colon(t: Seq<char>)
    requires
        parse_usize_spec(t) is Ok,
    ensures
        forall|i: int| 0 <= i < t.len() ==> t[i] != ':',
{
    let body = num_body(t);
    assert(all_digits(body));
    assert forall|i: int| 0 <= i < t.len() implies t[i] != ':' by {
        if t.len() > 0 && t[0] == '+' {
            if i == 0 {
                assert(t[i] == '+');
            } else {
                assert(body[i - 1] == t[i]);
                assert(is_digit(t[i]));
            }
        } else {
            assert(body[i] == t[i]);
            assert(is_digit(t[i]));
        }
    }
}

/// Every well-formed line parses to exactly its fields: for a path free of
/// the delimiter, valid number tokens, and an arbitrary message — colons
/// and all — the line `path:line:column:message` yields the record
/// `(path, line, column, trim(message))`. In particular the message
/// round-trips losslessly through the split, up to surrounding white
/// space.
pub proof fn lemma_well_formed_line(
    path: Seq<char>,
    line_tok: Seq<char>,
    col_tok: Seq<char>,
    msg: Seq<char>,
)
    requires
        forall|i: int| 0 <= i < path.len() ==> path[i] != ':',
        parse_usize_spec(line_tok) is Ok,
        parse_usize_spec(col_tok) is Ok,
    ensures
        parse_line_spec(path + seq![':'] + line_tok + seq![':'] + col_tok + seq![':'] + msg)
            == Ok::<ErrorLineModel, Error>(
            ErrorLineModel {
                file_path: path,
                line: parse_usize_spec(line_tok)->Ok_0,
                column: parse_usize_spec(col_tok)->Ok_0,
                message: trim_spec(msg),
            },
        ),
{
    let s = path + seq![':'] + line_tok + seq![':'] + col_tok + seq![':'] + msg;
    let r1 = line_tok + seq![':'] + col_tok + seq![':'] + msg;
    let r2 = col_tok + seq![':'] + msg;
    assert(s =~= path + seq![':'] + r1);
    lemma_split_prefix(path, ':', r1);
    lemma_numeral_no_colon(line_tok);
    assert(r1 =~= line_tok + seq![':'] + r2);
    lemma_split_prefix(line_tok, ':', r2);
    lemma_numeral_no_colon(col_tok);
    lemma_split_prefix(col_tok, ':', msg);
    lemma_split_structure(msg, ':');
    let toks = split_chars(s, ':');
    assert(toks =~= seq![path, line_tok, col_tok] + split_chars(msg, ':'));
    assert(toks.len() >= 4);
    assert(toks.skip(3) =~= split_chars(msg, ':'));
    lemma_join_split(msg, ':');
}

/// A line that ends with the delimiter has an empty — but present —
/// message: it parses successfully, with the message the empty string.
pub proof fn lemma_empty_message(path: Seq<char>, line_tok: Seq<char>, col_tok: Seq<char>)
    requires
        forall|i: int| 0 <= i < path.len() ==> path[i] != ':',
        parse_usize_spec(line_tok) is Ok,
        parse_usize_spec(col_tok) is Ok,
    ensures
        parse_line_spec(path + seq![':'] + line_tok + seq![':'] + col_tok + seq![':']) == Ok::<
            ErrorLineModel,
            Error,
        >(
            ErrorLineModel {
                file_path: path,
                line: parse_usize_spec(line_tok)->Ok_0,
                column: parse_usize_spec(col_tok)->Ok_0,
                message: Seq::empty(),
            },
        ),
{
    lemma_well_formed_line(path, line_tok, col_tok, Seq::empty());
    assert(path + seq![':'] + line_tok + seq![':'] + col_tok + seq![':'] + Seq::<char>::empty()
        =~= path + seq![':'] + line_tok + seq![':'] + col_tok + seq![':']);
    assert(trim_spec(Seq::<char>::empty()) =~= Seq::<char>::empty());
}

/// The error taxonomy, by the shape of the line: a line with fewer than
/// three delimiters fails with the missing-field error of its first absent
/// token, and a non-numeric line or column token fails with the matching
/// invalid-field error — always the leftmost failure.
pub proof fn lemma_error_taxonomy(s: Seq<char>)
    ensures
        split_chars(s, ':').len() < 4 ==> parse_line_spec(s) is Err,
        split_chars(s, ':').len() == 1 ==> parse_line_spec(s) == Err::<ErrorLineModel, Error>(
            Error::MissingLine,
        ),
        split_chars(s, ':').len() >= 2 && parse_usize_spec(split_chars(s, ':')[1]) is Err
            ==> parse_line_spec(s) == Err::<ErrorLineModel, Error>(
            Error::InvalidLine(parse_usize_spec(split_chars(s, ':')[1])->Err_0),
        ),
        split_chars(s, ':').len() == 2 && parse_usize_spec(split_chars(s, ':')[1]) is Ok
            ==> parse_line_spec(s) == Err::<ErrorLineModel, Error>(Error::MissingColumn),
        split_chars(s, ':').len() >= 3 && parse_usize_spec(split_chars(s, ':')[1]) is Ok
            && parse_usize_spec(split_chars(s, ':')[2]) is Err ==> parse_line_spec(s) == Err::<
            ErrorLineModel,
            Error,
        >(Error::InvalidColumn(parse_usize_spec(split_chars(s, ':')[2])->Err_0)),
        split_chars(s, ':').len() == 3 && parse_usize_spec(split_chars(s, ':')[1]) is Ok
            && parse_usize_spec(split_chars(s, ':')[2]) is Ok ==> parse_line_spec(s) == Err::<
            ErrorLineModel,
            Error,
        >(Error::MissingMessage),
{
    lemma_split_structure(s, ':');
}

/// No comment line ever reaches the record parser: every line the filter
/// hands on is free of the comment marker, and is one of the input lines.
pub proof fn lemma_comments_filtered(ls: Seq<Seq<char>>)
    ensures
        forall|i: int|
            0 <= i < non_comment(ls).len() ==> !is_comment(#[trigger] non_comment(ls)[i]),
        forall|i: int|
            0 <= i < non_comment(ls).len() ==> ls.contains(#[trigger] non_comment(ls)[i]),
    decreases ls.len(),
{
    if ls.len() > 0 {
        lemma_comments_filtered(ls.skip(1));
        let rec = non_comment(ls.skip(1));
        assert forall|i: int|
            0 <= i < non_comment(ls).len() implies !is_comment(non_comment(ls)[i]) && ls.contains(
            non_comment(ls)[i],
        ) by {
            let off: int = if is_comment(ls[0]) {
                0
            } else {
                1
            };
            if off == 1 && i == 0 {
                assert(non_comment(ls)[0] == ls[0]);
                assert(ls.contains(ls[0]));
            } else {
                assert(non_comment(ls)[i] == rec[i - off]);
                let x = rec[i - off];
                assert(!is_comment(x));
                assert(ls.skip(1).contains(x));
                let i0 = choose|i0: int| 0 <= i0 < ls.skip(1).len() && ls.skip(1)[i0] == x;
                assert(ls[i0 + 1] == x);
                assert(ls.contains(x));
            }
        }
    }
}

/// Fail-fast batch parsing: when the line at `k` is the first malformed
/// candidate, the whole batch fails with exactly that line's error.
pub proof fn lemma_batch_fail_fast(ls: Seq<Seq<char>>, k: int)
    requires
        0 <= k < ls.len(),
        parse_line_spec(ls[k]) is Err,
        forall|j: int| 0 <= j < k ==> parse_line_spec(#[trigger] ls[j]) is Ok,
    ensures
        parse_lines_spec(ls) == Err::<Seq<ErrorLineModel>, Error>(parse_line_spec(ls[k])->Err_0),
    decreases k,
{
    if k > 0 {
        assert(parse_line_spec(ls[0]) is Ok);
        assert(ls.skip(1)[k - 1] == ls[k]);
        assert forall|j: int| 0 <= j < k - 1 implies parse_line_spec(#[trigger] ls.skip(1)[j])
            is Ok by {
            assert(ls.skip(1)[j] == ls[j + 1]);
        }
        lemma_batch_fail_fast(ls.skip(1), k - 1);
    }
}

/// All-or-nothing batch parsing, the successful side: when every candidate
/// line is well formed, the batch yields every record, in order, one per
/// line.
pub proof fn lemma_batch_all_ok(ls: Seq<Seq<char>>)
    requires
        forall|j: int| 0 <= j < ls.len() ==> parse_line_spec(#[trigger] ls[j]) is Ok,
    ensures
        parse_lines_spec(ls) is Ok,
        parse_lines_spec(ls)->Ok_0.len() == ls.len(),
        forall|j: int|
            0 <= j < ls.len() ==> parse_lines_spec(ls)->Ok_0[j] == parse_line_spec(
                #[trigger] ls[j],
            )->Ok_0,
    decreases ls.len(),
{
    if ls.len() > 0 {
        assert forall|j: int| 0 <= j < ls.skip(1).len() implies parse_line_spec(
            #[trigger] ls.skip(1)[j],
        ) is Ok by {
            assert(ls.skip(1)[j] == ls[j + 1]);
        }
        lemma_batch_all_ok(ls.skip(1));
        let rest = parse_lines_spec(ls.skip(1))->Ok_0;
        assert forall|j: int| 0 <= j < ls.len() implies parse_lines_spec(ls)->Ok_0[j]
            == parse_line_spec(#[trigger] ls[j])->Ok_0 by {
            if j > 0 {
                assert(ls.skip(1)[j - 1] == ls[j]);
                assert((seq![parse_line_spec(ls[0])->Ok_0] + rest)[j] == rest[j - 1]);
            }
        }
    }
}

} // verus!
