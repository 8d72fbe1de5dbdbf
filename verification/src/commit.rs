//! Commit records: the random commit identifier with its hex text form,
//! one line-range file change, ordered bundles of changes, and the commit
//! itself, each with an exact text encoding and the proofs that encoding
//! and decoding invert one another on well-formed values.

use vstd::prelude::*;
use vstd::string::StrSliceExecFns;
use vstd::string::StringExecFns;

use crate::error::{CommitParseFailedReason, Error};
use crate::text::{
    all_digits, dec_digits, first_match, is_digit, is_match, join_seq, lemma_dec_digits_val,
    lemma_first_match_is, lemma_first_match_none, lemma_parse_of_dec_digits, parse_usize_seq,
    split_seq,
};


verus! {

/// The sixteen hex digits, upper case.
pub open spec fn hex_char(d: int) -> char {
    seq!['0', '1', '2', '3', '4', '5', '6', '7', '8', '9', 'A', 'B', 'C', 'D', 'E', 'F'][d]
}

/// The value of one hex digit, upper or lower case.
pub open spec fn hex_val(c: char) -> Option<u8> {
    if '0' <= c && c <= '9' {
        Some((c as int - '0' as int) as u8)
    } else if 'A' <= c && c <= 'F' {
        Some((c as int - 'A' as int + 10) as u8)
    } else if 'a' <= c && c <= 'f' {
        Some((c as int - 'a' as int + 10) as u8)
    } else {
        None
    }
}

/// One byte as two upper-case hex digits, zero padded.
pub open spec fn byte_hex(b: u8) -> Seq<char> {
    seq![hex_char(b as int / 16), hex_char(b as int % 16)]
}

/// Three id bytes as six upper-case hex digits.
pub open spec fn id_hex(bytes: Seq<u8>) -> Seq<char>
    recommends
        bytes.len() == 3,
{
    byte_hex(bytes[0]) + byte_hex(bytes[1]) + byte_hex(bytes[2])
}

/// Two hex digits read back as one byte.
pub open spec fn parse_hex_byte(hi: char, lo: char) -> Option<u8> {
    match (hex_val(hi), hex_val(lo)) {
        (Some(h), Some(l)) => Some((16 * h + l) as u8),
        _ => None,
    }
}

/// Six hex digits read back as three id bytes; anything else is refused.
pub open spec fn parse_hex_id(s: Seq<char>) -> Option<Seq<u8>> {
    if s.len() != 6 {
        None
    } else {
        match (parse_hex_byte(s[0], s[1]), parse_hex_byte(s[2], s[3]), parse_hex_byte(
            s[4],
            s[5],
        )) {
            (Some(b0), Some(b1), Some(b2)) => Some(seq![b0, b1, b2]),
            _ => None,
        }
    }
}

/// An upper-case hex digit character.
pub open spec fn is_upper_hex(c: char) -> bool {
    ('0' <= c && c <= '9') || ('A' <= c && c <= 'F')
}

proof fn lemma_hex_char_val(d: int)
    requires
        0 <= d < 16,
    ensures
        hex_val(hex_char(d)) == Some(d as u8),
        is_upper_hex(hex_char(d)),
{
    if d == 0 {
        assert(hex_char(0) == '0');
    } else if d == 1 {
        assert(hex_char(1) == '1');
    } else if d == 2 {
        assert(hex_char(2) == '2');
    } else if d == 3 {
        assert(hex_char(3) == '3');
    } else if d == 4 {
        assert(hex_char(4) == '4');
    } else if d == 5 {
        assert(hex_char(5) == '5');
    } else if d == 6 {
        assert(hex_char(6) == '6');
    } else if d == 7 {
        assert(hex_char(7) == '7');
    } else if d == 8 {
        assert(hex_char(8) == '8');
    } else if d == 9 {
        assert(hex_char(9) == '9');
    } else if d == 10 {
        assert(hex_char(10) == 'A');
    } else if d == 11 {
        assert(hex_char(11) == 'B');
    } else if d == 12 {
        assert(hex_char(12) == 'C');
    } else if d == 13 {
        assert(hex_char(13) == 'D');
    } else if d == 14 {
        assert(hex_char(14) == 'E');
    } else {
        assert(hex_char(15) == 'F');
    }
}

/// The hex form of an id is six characters, each an upper-case hex digit.
pub proof fn lemma_id_hex_format(bytes: Seq<u8>)
    requires
        bytes.len() == 3,
    ensures
        id_hex(bytes).len() == 6,
        forall|i: int| 0 <= i < 6 ==> is_upper_hex(#[trigger] id_hex(bytes)[i]),
{
    let s = id_hex(bytes);
    assert forall|i: int| 0 <= i < 6 implies is_upper_hex(#[trigger] s[i]) by {
        let b = bytes[i / 2];
        assert(0 <= b as int / 16 < 16);
        assert(0 <= b as int % 16 < 16);
        lemma_hex_char_val(b as int / 16);
        lemma_hex_char_val(b as int % 16);
        assert(s[0] == hex_char(bytes[0] as int / 16));
        assert(s[1] == hex_char(bytes[0] as int % 16));
        assert(s[2] == hex_char(bytes[1] as int / 16));
        assert(s[3] == hex_char(bytes[1] as int % 16));
        assert(s[4] == hex_char(bytes[2] as int / 16));
        assert(s[5] == hex_char(bytes[2] as int % 16));
    }
}

/// Reading the hex form of any three id bytes gives the bytes back.
pub proof fn lemma_hex_round_trip(bytes: Seq<u8>)
    requires
        bytes.len() == 3,
    ensures
        parse_hex_id(id_hex(bytes)) == Some(bytes),
{
    let s = id_hex(bytes);
    assert(s.len() == 6);
    assert forall|k: int| 0 <= k < 3 implies parse_hex_byte(s[2 * k], s[2 * k + 1]) == Some(
        bytes[k],
    ) by {
        let b = bytes[k];
        assert(0 <= b as int / 16 < 16);
        assert(0 <= b as int % 16 < 16);
        lemma_hex_char_val(b as int / 16);
        lemma_hex_char_val(b as int % 16);
        assert(s[2 * k] == hex_char(b as int / 16));
        assert(s[2 * k + 1] == hex_char(b as int % 16));
        assert(16 * (b as int / 16) + b as int % 16 == b as int);
    }
    assert(parse_hex_byte(s[0], s[1]) == Some(bytes[0]));
    assert(parse_hex_byte(s[2], s[3]) == Some(bytes[1]));
    assert(parse_hex_byte(s[4], s[5]) == Some(bytes[2]));
    assert(parse_hex_id(s) == Some(seq![bytes[0], bytes[1], bytes[2]]));
    assert(seq![bytes[0], bytes[1], bytes[2]] =~= bytes);
}

/// Relies on `rand::random`: draws three uniformly random bytes from the
/// thread-local generator. Nothing is promised of the values drawn.
#[verifier::external_body]
fn random_id_bytes() -> [u8; 3] {
    rand::random()
}

/// A commit's identifier: three random bytes, shown as six hex digits.
///
/// The identifier space is deliberately small; collisions are possible and
/// are not detected.
#[derive(Debug, Clone, Copy, Eq)]
pub struct CommitId([u8; 3]);

impl View for CommitId {
    type V = Seq<u8>;

    closed spec fn view(&self) -> Seq<u8> {
        self.0@
    }
}

impl PartialEq for CommitId {
    fn eq(&self, other: &Self) -> (r: bool) {
        let r = self.0[0] == other.0[0] && self.0[1] == other.0[1] && self.0[2] == other.0[2];
        proof {
            if r {
                assert(self.0@ =~= other.0@);
            } else {
                if self.0@ == other.0@ {
                    assert(self.0@[0] == other.0@[0]);
                    assert(self.0@[1] == other.0@[1]);
                    assert(self.0@[2] == other.0@[2]);
                }
            }
        }
        r
    }
}

impl vstd::std_specs::cmp::PartialEqSpecImpl for CommitId {
    open spec fn obeys_eq_spec() -> bool {
        true
    }

    open spec fn eq_spec(&self, other: &Self) -> bool {
        self@ == other@
    }
}

/// One hex digit as text, upper case.
fn hex_char_str(d: u8) -> (r: &'static str)
    requires
        d < 16,
    ensures
        r@ == seq![hex_char(d as int)],
{
    match d {
        0 => {
            proof {
                reveal_strlit("0");
                assert("0"@ =~= seq![hex_char(0)]);
            }
            "0"
        },
        1 => {
            proof {
                reveal_strlit("1");
                assert("1"@ =~= seq![hex_char(1)]);
            }
            "1"
        },
        2 => {
            proof {
                reveal_strlit("2");
                assert("2"@ =~= seq![hex_char(2)]);
            }
            "2"
        },
        3 => {
            proof {
                reveal_strlit("3");
                assert("3"@ =~= seq![hex_char(3)]);
            }
            "3"
        },
        4 => {
            proof {
                reveal_strlit("4");
                assert("4"@ =~= seq![hex_char(4)]);
            }
            "4"
        },
        5 => {
            proof {
                reveal_strlit("5");
                assert("5"@ =~= seq![hex_char(5)]);
            }
            "5"
        },
        6 => {
            proof {
                reveal_strlit("6");
                assert("6"@ =~= seq![hex_char(6)]);
            }
            "6"
        },
        7 => {
            proof {
                reveal_strlit("7");
                assert("7"@ =~= seq![hex_char(7)]);
            }
            "7"
        },
        8 => {
            proof {
                reveal_strlit("8");
                assert("8"@ =~= seq![hex_char(8)]);
            }
            "8"
        },
        9 => {
            proof {
                reveal_strlit("9");
                assert("9"@ =~= seq![hex_char(9)]);
            }
            "9"
        },
        10 => {
            proof {
                reveal_strlit("A");
                assert("A"@ =~= seq![hex_char(10)]);
            }
            "A"
        },
        11 => {
            proof {
                reveal_strlit("B");
                assert("B"@ =~= seq![hex_char(11)]);
            }
            "B"
        },
        12 => {
            proof {
                reveal_strlit("C");
                assert("C"@ =~= seq![hex_char(12)]);
            }
            "C"
        },
        13 => {
            proof {
                reveal_strlit("D");
                assert("D"@ =~= seq![hex_char(13)]);
            }
            "D"
        },
        14 => {
            proof {
                reveal_strlit("E");
                assert("E"@ =~= seq![hex_char(14)]);
            }
            "E"
        },
        _ => {
            proof {
                reveal_strlit("F");
                assert("F"@ =~= seq![hex_char(15)]);
            }
            "F"
        },
    }
}

/// The value of one hex digit character, upper or lower case.
fn hex_val_of(c: char) -> (r: Option<u8>)
    ensures
        r == hex_val(c),
{
    if '0' <= c && c <= '9' {
        Some(((c as u32) - ('0' as u32)) as u8)
    } else if 'A' <= c && c <= 'F' {
        Some((((c as u32) - ('A' as u32)) + 10) as u8)
    } else if 'a' <= c && c <= 'f' {
        Some((((c as u32) - ('a' as u32)) + 10) as u8)
    } else {
        None
    }
}

impl CommitId {
    /// A fresh identifier with random bytes. No uniqueness check is made
    /// against any existing history.
    fn new() -> (r: Self)
        ensures
            r@.len() == 3,
    {
        Self(random_id_bytes())
    }

    /// The identifier as exactly six upper-case hex digits.
    pub fn to_hex(&self) -> (r: String)
        ensures
            r@ == id_hex(self@),
            r@.len() == 6,
    {
        let mut s = String::new();
        s.append(hex_char_str(self.0[0] / 16));
        s.append(hex_char_str(self.0[0] % 16));
        s.append(hex_char_str(self.0[1] / 16));
        s.append(hex_char_str(self.0[1] % 16));
        s.append(hex_char_str(self.0[2] / 16));
        s.append(hex_char_str(self.0[2] % 16));
        proof {
            assert(s@ =~= id_hex(self@));
        }
        s
    }

    /// Read an identifier back from its hex text form.
    ///
    /// Succeeds exactly on six hex digits; any other length and any
    /// non-hex character is a parse error, never a panic.
    pub fn from_hex(s: &str) -> (r: Result<Self, Error>)
        ensures
            match r {
                Ok(id) => parse_hex_id(s@) == Some(id@),
                Err(e) => parse_hex_id(s@) == None::<Seq<u8>> && e == Error::CommitParseFailed(
                    CommitParseFailedReason::CommitIdParseFailed,
                ),
            },
    {
        if s.unicode_len() != 6 {
            return Err(Error::CommitParseFailed(CommitParseFailedReason::CommitIdParseFailed));
        }
        let v0 = hex_val_of(s.get_char(0));
        let v1 = hex_val_of(s.get_char(1));
        let v2 = hex_val_of(s.get_char(2));
        let v3 = hex_val_of(s.get_char(3));
        let v4 = hex_val_of(s.get_char(4));
        let v5 = hex_val_of(s.get_char(5));
        match (v0, v1, v2, v3, v4, v5) {
            (Some(h0), Some(l0), Some(h1), Some(l1), Some(h2), Some(l2)) => {
                let b0 = 16 * h0 + l0;
                let b1 = 16 * h1 + l1;
                let b2 = 16 * h2 + l2;
                let id = CommitId([b0, b1, b2]);
                proof {
                    assert(id@ =~= seq![b0, b1, b2]);
                }
                Ok(id)
            },
            _ => Err(Error::CommitParseFailed(CommitParseFailedReason::CommitIdParseFailed)),
        }
    }
}

/// What one file change does: inserts text over a range, or deletes it.
///
/// A closed tag: an unrecognised token in a persisted record is a parse
/// error, never a silent default.
#[derive(Debug, Clone, Copy, PartialEq, Eq, Structural)]
pub enum FileChangeOperation {
    Insertion,
    Deletion,
}

/// The `INS` token.
pub open spec fn ins_token() -> Seq<char> {
    seq!['I', 'N', 'S']
}

/// The `DEL` token.
pub open spec fn del_token() -> Seq<char> {
    seq!['D', 'E', 'L']
}

/// The text token of an operation.
pub open spec fn op_token(op: FileChangeOperation) -> Seq<char> {
    match op {
        FileChangeOperation::Insertion => ins_token(),
        FileChangeOperation::Deletion => del_token(),
    }
}

/// The operation a text token names, if any.
pub open spec fn parse_op(s: Seq<char>) -> Option<FileChangeOperation> {
    if s == ins_token() {
        Some(FileChangeOperation::Insertion)
    } else if s == del_token() {
        Some(FileChangeOperation::Deletion)
    } else {
        None
    }
}

impl FileChangeOperation {
    /// The operation's on-disk token.
    pub fn to_string(&self) -> (r: String)
        ensures
            r@ == op_token(*self),
    {
        match self {
            FileChangeOperation::Insertion => {
                proof {
                    reveal_strlit("INS");
                    assert("INS"@ =~= ins_token());
                }
                "INS".to_owned()
            },
            FileChangeOperation::Deletion => {
                proof {
                    reveal_strlit("DEL");
                    assert("DEL"@ =~= del_token());
                }
                "DEL".to_owned()
            },
        }
    }

    /// Read an operation back from its token; anything else is a
    /// malformed-record error.
    pub fn from_str(s: &str) -> (r: Result<Self, Error>)
        ensures
            match r {
                Ok(op) => parse_op(s@) == Some(op),
                Err(e) => parse_op(s@) == None::<FileChangeOperation> && e
                    == Error::CommitParseFailed(CommitParseFailedReason::FileChangeDataMalformed),
            },
    {
        proof {
            reveal_strlit("INS");
            reveal_strlit("DEL");
            assert("INS"@ =~= ins_token());
            assert("DEL"@ =~= del_token());
        }
        if crate::text::str_eq(s, "INS") {
            Ok(FileChangeOperation::Insertion)
        } else if crate::text::str_eq(s, "DEL") {
            Ok(FileChangeOperation::Deletion)
        } else {
            Err(Error::CommitParseFailed(CommitParseFailedReason::FileChangeDataMalformed))
        }
    }
}

/// The reserved token that separates file-change records in a block.
///
/// The encoding has no escaping: a record whose path or inserted text
/// held this token would corrupt the block, so well-formedness excludes
/// it.
pub open spec fn delim() -> Seq<char> {
    seq![
        '\n',
        'E',
        'N',
        'D',
        '_',
        'F',
        'U',
        'R',
        'S',
        'I',
        'O',
        'N',
        '_',
        'C',
        'H',
        'A',
        'N',
        'G',
        'E',
    ]
}

/// The record separator as text.
pub fn delimiter() -> (r: &'static str)
    ensures
        r@ == delim(),
{
    proof {
        reveal_strlit("\nEND_FURSION_CHANGE");
        assert("\nEND_FURSION_CHANGE"@ =~= delim());
    }
    "\nEND_FURSION_CHANGE"
}

/// One edit to one file: a half-open range of its address space that is
/// filled with new text or deleted.
///
/// The inserted text is present exactly when the operation inserts. The
/// record stores a diff; it does not compute one.
#[derive(Debug)]
pub struct FileChange {
    pub file_path: String,
    pub range: core::ops::Range<usize>,
    pub text: Option<String>,
    pub operation: FileChangeOperation,
}

/// The mathematical value of a [`FileChange`].
#[verifier::ext_equal]
pub struct FileChangeView {
    pub file_path: Seq<char>,
    pub start: int,
    pub end: int,
    pub text: Option<Seq<char>>,
    pub operation: FileChangeOperation,
}

impl View for FileChange {
    type V = FileChangeView;

    open spec fn view(&self) -> FileChangeView {
        FileChangeView {
            file_path: self.file_path@,
            start: self.range.start as int,
            end: self.range.end as int,
            text: match self.text {
                Some(t) => Some(t@),
                None => None,
            },
            operation: self.operation,
        }
    }
}

impl Clone for FileChange {
    /// An exact copy of the record.
    fn clone(&self) -> (r: Self)
        ensures
            r@ == self@,
    {
        let r = FileChange {
            file_path: self.file_path.clone(),
            range: self.range.start..self.range.end,
            text: match &self.text {
                Some(t) => Some(t.clone()),
                None => None,
            },
            operation: self.operation,
        };
        proof {
            assert(r@ =~= self@);
        }
        r
    }
}

/// A path fit for the one-line record header: free of the field separator
/// and of line breaks.
pub open spec fn wf_path(p: Seq<char>) -> bool {
    forall|i: int| 0 <= i < p.len() ==> #[trigger] p[i] != '|' && p[i] != '\n'
}

/// Inserted text that cannot be mistaken for a record boundary: the
/// record separator occurs nowhere in the line break plus the text.
pub open spec fn wf_insert_text(t: Seq<char>) -> bool {
    forall|i: int| !is_match(seq!['\n'] + t, delim(), i)
}

/// A file change the text encoding can carry faithfully.
pub open spec fn wf_change(v: FileChangeView) -> bool {
    &&& wf_path(v.file_path)
    &&& 0 <= v.start <= v.end <= usize::MAX
    &&& (v.operation == FileChangeOperation::Insertion <==> v.text is Some)
    &&& match v.text {
        Some(t) => wf_insert_text(t),
        None => true,
    }
}

/// The one-line header of a record: `<path>|<start>..<end>|<OP>`.
pub open spec fn change_header(v: FileChangeView) -> Seq<char> {
    v.file_path + seq!['|'] + dec_digits(v.start) + seq!['.', '.'] + dec_digits(v.end)
        + seq!['|'] + op_token(v.operation)
}

/// A record as text: the header, then for an insertion a line break and
/// the inserted text.
pub open spec fn enc_change(v: FileChangeView) -> Seq<char> {
    match v.text {
        Some(t) => change_header(v) + seq!['\n'] + t,
        None => change_header(v),
    }
}

/// The part of a record piece before the first line break.
pub open spec fn header_of(piece: Seq<char>) -> Seq<char> {
    match first_match(piece, seq!['\n']) {
        None => piece,
        Some(i) => piece.subrange(0, i),
    }
}

/// The part of a record piece after the first line break.
pub open spec fn body_of(piece: Seq<char>) -> Seq<char> {
    match first_match(piece, seq!['\n']) {
        None => Seq::empty(),
        Some(i) => piece.skip(i + 1),
    }
}

/// What decoding one record piece yields.
///
/// An empty piece has no header. A header without exactly three fields,
/// an unknown operation token, a range that is not two decimal numbers,
/// and a backwards range are all malformed. The text after the header
/// line is the inserted text of an insertion and is ignored for a
/// deletion.
pub open spec fn parse_change(piece: Seq<char>) -> Result<
    FileChangeView,
    CommitParseFailedReason,
> {
    if piece.len() == 0 {
        Err(CommitParseFailedReason::FileChangeDataNotFound)
    } else {
        let fields = split_seq(header_of(piece), seq!['|']);
        if fields.len() != 3 {
            Err(CommitParseFailedReason::FileChangeDataMalformed)
        } else {
            match parse_op(fields[2]) {
                None => Err(CommitParseFailedReason::FileChangeDataMalformed),
                Some(op) => {
                    let nums = split_seq(fields[1], seq!['.', '.']);
                    if nums.len() != 2 {
                        Err(CommitParseFailedReason::FileChangeDataMalformed)
                    } else {
                        match (parse_usize_seq(nums[0]), parse_usize_seq(nums[1])) {
                            (Some(a), Some(b)) => if a <= b {
                                Ok(
                                    FileChangeView {
                                        file_path: fields[0],
                                        start: a as int,
                                        end: b as int,
                                        text: if op == FileChangeOperation::Insertion {
                                            Some(body_of(piece))
                                        } else {
                                            None
                                        },
                                        operation: op,
                                    },
                                )
                            } else {
                                Err(CommitParseFailedReason::FileChangeDataMalformed)
                            },
                            _ => Err(CommitParseFailedReason::FileChangeDataMalformed),
                        }
                    }
                },
            }
        }
    }
}

impl FileChange {
    /// The record as text.
    pub fn to_string(&self) -> (r: String)
        ensures
            r@ == enc_change(self@),
    {
        let mut out = self.file_path.clone();
        proof {
            reveal_strlit("|");
            reveal_strlit("..");
            reveal_strlit("\n");
            assert("|"@ =~= seq!['|']);
            assert(".."@ =~= seq!['.', '.']);
            assert("\n"@ =~= seq!['\n']);
        }
        out.append("|");
        let start_str = crate::text::usize_to_string(self.range.start);
        out.append(start_str.as_str());
        out.append("..");
        let end_str = crate::text::usize_to_string(self.range.end);
        out.append(end_str.as_str());
        out.append("|");
        let op_str = self.operation.to_string();
        out.append(op_str.as_str());
        proof {
            assert(out@ =~= change_header(self@));
        }
        match &self.text {
            Some(t) => {
                out.append("\n");
                out.append(t.as_str());
                proof {
                    assert(out@ =~= enc_change(self@));
                }
            },
            None => {
                proof {
                    assert(out@ =~= enc_change(self@));
                }
            },
        }
        out
    }

    /// Read one record back from its text.
    ///
    /// Every malformed input is reported as a typed error; no input can
    /// make this panic.
    pub fn from_str(s: &str) -> (r: Result<FileChange, Error>)
        ensures
            match (r, parse_change(s@)) {
                (Ok(fc), Ok(v)) => fc@ == v,
                (Err(e), Err(reason)) => e == Error::CommitParseFailed(reason),
                _ => false,
            },
    {
        let n = s.unicode_len();
        if n == 0 {
            return Err(Error::CommitParseFailed(CommitParseFailedReason::FileChangeDataNotFound));
        }
        proof {
            reveal_strlit("\n");
            assert("\n"@ =~= seq!['\n']);
        }
        let header: String;
        let body: String;
        match crate::text::find_sub(s, "\n") {
            Some(i) => {
                header = s.substring_char(0, i).to_owned();
                body = s.substring_char(i + 1, n).to_owned();
                proof {
                    lemma_first_match_is(s@, seq!['\n'], i as int);
                    assert(header@ =~= header_of(s@));
                    assert(body@ =~= body_of(s@));
                }
            },
            None => {
                header = s.to_owned();
                body = String::new();
                proof {
                    lemma_first_match_none(s@, seq!['\n']);
                    assert(header@ =~= header_of(s@));
                    assert(body@ =~= body_of(s@));
                }
            },
        }
        proof {
            reveal_strlit("|");
            assert("|"@ =~= seq!['|']);
        }
        let fields = crate::text::split_on(header.as_str(), "|");
        proof {
            assert(crate::text::views_of(fields@) == split_seq(header_of(s@), seq!['|']));
        }
        if fields.len() != 3 {
            return Err(Error::CommitParseFailed(CommitParseFailedReason::FileChangeDataMalformed));
        }
        let op = match FileChangeOperation::from_str(fields[2].as_str()) {
            Ok(op) => op,
            Err(e) => {
                proof {
                    assert(fields@[2]@ == crate::text::views_of(fields@)[2]);
                }
                return Err(e);
            },
        };
        proof {
            reveal_strlit("..");
            assert(".."@ =~= seq!['.', '.']);
        }
        let nums = crate::text::split_on(fields[1].as_str(), "..");
        if nums.len() != 2 {
            return Err(Error::CommitParseFailed(CommitParseFailedReason::FileChangeDataMalformed));
        }
        let a = match crate::text::parse_usize(nums[0].as_str()) {
            Some(a) => a,
            None => {
                return Err(
                    Error::CommitParseFailed(CommitParseFailedReason::FileChangeDataMalformed),
                );
            },
        };
        let b = match crate::text::parse_usize(nums[1].as_str()) {
            Some(b) => b,
            None => {
                return Err(
                    Error::CommitParseFailed(CommitParseFailedReason::FileChangeDataMalformed),
                );
            },
        };
        if a > b {
            return Err(Error::CommitParseFailed(CommitParseFailedReason::FileChangeDataMalformed));
        }
        let text: Option<String> = if op == FileChangeOperation::Insertion {
            Some(body)
        } else {
            None
        };
        let fc = FileChange {
            file_path: fields[0].clone(),
            range: a..b,
            text,
            operation: op,
        };
        proof {
            let v = parse_change(s@)->Ok_0;
            assert(fc@ =~= v);
        }
        Ok(fc)
    }
}


/// No character of an operation token is a field separator or line break.
proof fn lemma_op_token_chars(op: FileChangeOperation)
    ensures
        op_token(op).len() == 3,
        forall|i: int|
            0 <= i < 3 ==> #[trigger] op_token(op)[i] != '|' && op_token(op)[i] != '\n',
{
    let t = op_token(op);
    match op {
        FileChangeOperation::Insertion => {
            assert(t[0] == 'I' && t[1] == 'N' && t[2] == 'S');
        },
        FileChangeOperation::Deletion => {
            assert(t[0] == 'D' && t[1] == 'E' && t[2] == 'L');
        },
    }
}

/// The middle header field, `<start>..<end>`, holds only digits and dots.
proof fn lemma_mid_chars(a: Seq<char>, b: Seq<char>, m: Seq<char>)
    requires
        all_digits(a),
        all_digits(b),
        m == a + seq!['.', '.'] + b,
    ensures
        forall|i: int| 0 <= i < m.len() ==> is_digit(#[trigger] m[i]) || m[i] == '.',
{
    assert forall|i: int| 0 <= i < m.len() implies is_digit(#[trigger] m[i]) || m[i] == '.' by {
        if i < a.len() {
            assert(m[i] == a[i]);
        } else if i < a.len() + 2 {
            assert(m[i] == '.');
        } else {
            assert(m[i] == b[i - a.len() - 2]);
        }
    }
}

/// No character of a well-formed record's header is a line break.
proof fn lemma_header_no_newline(v: FileChangeView)
    requires
        wf_change(v),
    ensures
        forall|i: int| 0 <= i < change_header(v).len() ==> #[trigger] change_header(v)[i] != '\n',
{
    let h = change_header(v);
    let p = v.file_path;
    let mid = dec_digits(v.start) + seq!['.', '.'] + dec_digits(v.end);
    lemma_dec_digits_val(v.start);
    lemma_dec_digits_val(v.end);
    lemma_mid_chars(dec_digits(v.start), dec_digits(v.end), mid);
    lemma_op_token_chars(v.operation);
    assert(h =~= p + seq!['|'] + mid + seq!['|'] + op_token(v.operation));
    assert forall|i: int| 0 <= i < h.len() implies #[trigger] h[i] != '\n' by {
        if i < p.len() {
            assert(h[i] == p[i]);
        } else if i == p.len() {
            assert(h[i] == '|');
        } else if i < p.len() + 1 + mid.len() {
            assert(h[i] == mid[i - p.len() - 1]);
        } else if i == p.len() + 1 + mid.len() {
            assert(h[i] == '|');
        } else {
            assert(h[i] == op_token(v.operation)[i - (p.len() + 2 + mid.len())]);
        }
    }
}

/// Decoding the text of a well-formed record gives the record back.
pub proof fn lemma_change_round_trip(v: FileChangeView)
    requires
        wf_change(v),
    ensures
        parse_change(enc_change(v)) == Ok::<FileChangeView, CommitParseFailedReason>(v),
{
    let e = enc_change(v);
    let h = change_header(v);
    let p = v.file_path;
    let da = dec_digits(v.start);
    let db = dec_digits(v.end);
    let mid = da + seq!['.', '.'] + db;
    let op = op_token(v.operation);
    lemma_dec_digits_val(v.start);
    lemma_dec_digits_val(v.end);
    lemma_mid_chars(da, db, mid);
    lemma_op_token_chars(v.operation);
    lemma_header_no_newline(v);

    // The first line break of the encoding, if any, ends the header.
    match v.text {
        Some(t) => {
            assert(e =~= h + seq!['\n'] + t);
            assert(e[h.len() as int] == '\n');
            assert(is_match(e, seq!['\n'], h.len() as int)) by {
                assert(e.subrange(h.len() as int, h.len() as int + 1) =~= seq!['\n']);
            }
            assert forall|j: int| 0 <= j < h.len() implies !is_match(e, seq!['\n'], j) by {
                if is_match(e, seq!['\n'], j) {
                    assert(e.subrange(j, j + 1)[0] == e[j]);
                    assert(e[j] == h[j]);
                }
            }
            lemma_first_match_is(e, seq!['\n'], h.len() as int);
            assert(header_of(e) =~= h);
            assert(body_of(e) =~= t);
        },
        None => {
            assert(e =~= h);
            assert forall|j: int| !is_match(e, seq!['\n'], j) by {
                if 0 <= j && j + 1 <= e.len() {
                    if is_match(e, seq!['\n'], j) {
                        assert(e.subrange(j, j + 1)[0] == e[j]);
                        assert(h[j] != '\n');
                    }
                }
            }
            lemma_first_match_none(e, seq!['\n']);
            assert(header_of(e) =~= h);
        },
    }

    // The header splits into exactly its three fields.
    let fields = seq![p, mid, op];
    assert(join_seq(fields, seq!['|']) =~= h) by {
        assert(fields.skip(1) =~= seq![mid, op]);
        assert(seq![mid, op].skip(1) =~= seq![op]);
        assert(join_seq(seq![op], seq!['|']) == op);
        assert(join_seq(seq![mid, op], seq!['|']) == mid + seq!['|'] + op);
        assert(join_seq(fields, seq!['|']) == p + seq!['|'] + (mid + seq!['|'] + op));
    }
    assert forall|k: int, i: int|
        0 <= k < fields.len() && 0 <= i < fields[k].len() implies #[trigger] fields[k][i]
        != '|' by {
        if k == 0 {
            assert(p[i] != '|');
        } else if k == 1 {
            assert(is_digit(mid[i]) || mid[i] == '.');
        } else {
            assert(fields[k] == op);
        }
    }
    crate::text::lemma_split_of_join_free_head(fields, seq!['|']);
    assert(split_seq(h, seq!['|']) == fields);

    // The middle field splits into its two numbers, which read back.
    let nums = seq![da, db];
    assert(join_seq(nums, seq!['.', '.']) =~= mid) by {
        assert(nums.skip(1) =~= seq![db]);
        assert(join_seq(seq![db], seq!['.', '.']) == db);
        assert(join_seq(nums, seq!['.', '.']) == da + seq!['.', '.'] + db);
    }
    assert forall|k: int, i: int|
        0 <= k < nums.len() && 0 <= i < nums[k].len() implies #[trigger] nums[k][i] != '.' by {
        if k == 0 {
            assert(is_digit(da[i]));
        } else {
            assert(is_digit(db[i]));
        }
    }
    crate::text::lemma_split_of_join_free_head(nums, seq!['.', '.']);
    assert(split_seq(mid, seq!['.', '.']) == nums);
    lemma_parse_of_dec_digits(v.start as usize);
    lemma_parse_of_dec_digits(v.end as usize);
    assert(parse_usize_seq(da) == Some(v.start as usize));
    assert(parse_usize_seq(db) == Some(v.end as usize));

    // The operation token reads back.
    assert(parse_op(op) == Some(v.operation)) by {
        match v.operation {
            FileChangeOperation::Insertion => {},
            FileChangeOperation::Deletion => {
                assert(del_token()[0] != ins_token()[0]);
                assert(del_token() != ins_token());
            },
        }
    }

    // Assemble.
    assert(e.len() > 0) by {
        assert(op.len() == 3);
    }
    match parse_change(e) {
        Ok(w) => {
            assert(w =~= v);
        },
        Err(_) => {
            assert(false);
        },
    }
}


/// The views of the records in `v`.
pub open spec fn change_views(v: Seq<FileChange>) -> Seq<FileChangeView> {
    v.map_values(|c: FileChange| c@)
}

/// The encodings of the records in `cs`.
pub open spec fn enc_pieces(cs: Seq<FileChangeView>) -> Seq<Seq<char>> {
    cs.map_values(|c: FileChangeView| enc_change(c))
}

proof fn lemma_change_views_push(v: Seq<FileChange>, x: FileChange)
    ensures
        change_views(v.push(x)) == change_views(v).push(x@),
{
    assert(change_views(v.push(x)) =~= change_views(v).push(x@));
}

proof fn lemma_enc_pieces_push(cs: Seq<FileChangeView>, x: FileChangeView)
    ensures
        enc_pieces(cs.push(x)) == enc_pieces(cs).push(enc_change(x)),
{
    assert(enc_pieces(cs.push(x)) =~= enc_pieces(cs).push(enc_change(x)));
}

/// An ordered bundle of file changes; the order is replay order.
#[derive(Debug)]
pub struct FileChanges(Vec<FileChange>);

impl View for FileChanges {
    type V = Seq<FileChangeView>;

    closed spec fn view(&self) -> Seq<FileChangeView> {
        change_views(self.0@)
    }
}

impl Clone for FileChanges {
    /// An exact copy of the bundle.
    fn clone(&self) -> (r: Self)
        ensures
            r@ == self@,
    {
        let mut inner: Vec<FileChange> = Vec::new();
        let mut i: usize = 0;
        while i < self.0.len()
            invariant
                i <= self.0@.len(),
                change_views(inner@) == change_views(self.0@).subrange(0, i as int),
            decreases self.0@.len() - i,
        {
            let ghost old_inner = inner@;
            let next = self.0[i].clone();
            inner.push(next);
            proof {
                lemma_change_views_push(old_inner, next);
                assert(change_views(self.0@)[i as int] == self.0@[i as int]@);
                assert(change_views(inner@) =~= change_views(self.0@).subrange(0, i + 1));
            }
            i += 1;
        }
        let r = FileChanges(inner);
        proof {
            assert(change_views(self.0@).subrange(0, self.0@.len() as int) =~= change_views(
                self.0@,
            ));
        }
        r
    }
}

impl Default for FileChanges {
    /// An empty bundle.
    fn default() -> (r: Self)
        ensures
            r@.len() == 0,
    {
        FileChanges(Vec::new())
    }
}

/// Every record of a block, or the first record's failure.
pub open spec fn parse_pieces(pieces: Seq<Seq<char>>) -> Result<
    Seq<FileChangeView>,
    CommitParseFailedReason,
>
    decreases pieces.len(),
{
    if pieces.len() == 0 {
        Ok(Seq::empty())
    } else {
        match parse_change(pieces[0]) {
            Err(e) => Err(e),
            Ok(v) => match parse_pieces(pieces.skip(1)) {
                Err(e) => Err(e),
                Ok(vs) => Ok(seq![v] + vs),
            },
        }
    }
}

/// What decoding a block of records yields: the block is cut at the
/// record separator and every piece must decode.
pub open spec fn parse_changes(s: Seq<char>) -> Result<
    Seq<FileChangeView>,
    CommitParseFailedReason,
> {
    parse_pieces(split_seq(s, delim()))
}

/// A block of records as text: the records, separated by the reserved
/// token. An empty bundle is the empty string.
pub open spec fn enc_changes(cs: Seq<FileChangeView>) -> Seq<char> {
    join_seq(enc_pieces(cs), delim())
}

impl FileChanges {
    /// A bundle holding exactly the given records, in order.
    pub fn new(value: Vec<FileChange>) -> (r: Self)
        ensures
            r@ == change_views(value@),
    {
        Self(value)
    }

    /// Whether the bundle holds no record.
    pub fn is_empty(&self) -> (r: bool)
        ensures
            r == (self@.len() == 0),
    {
        self.0.is_empty()
    }

    /// The records, in replay order.
    pub fn items(&self) -> (r: &Vec<FileChange>)
        ensures
            change_views(r@) == self@,
    {
        &self.0
    }

    /// The bundle as one separator-joined text block.
    pub fn to_string(&self) -> (r: String)
        ensures
            r@ == enc_changes(self@),
    {
        let mut pieces: Vec<String> = Vec::new();
        let mut i: usize = 0;
        while i < self.0.len()
            invariant
                i <= self.0@.len(),
                self@ == change_views(self.0@),
                crate::text::views_of(pieces@) == enc_pieces(self@).subrange(0, i as int),
            decreases self.0@.len() - i,
        {
            let ghost old_pieces = pieces@;
            let piece = self.0[i].to_string();
            pieces.push(piece);
            proof {
                assert(crate::text::views_of(pieces@) =~= crate::text::views_of(
                    old_pieces,
                ).push(piece@));
                assert(enc_pieces(self@)[i as int] == enc_change(self@[i as int]));
                assert(self@[i as int] == self.0@[i as int]@);
                assert(crate::text::views_of(pieces@) =~= enc_pieces(self@).subrange(0, i + 1));
            }
            i += 1;
        }
        let out = crate::text::join_with(&pieces, delimiter());
        proof {
            assert(enc_pieces(self@).subrange(0, self.0@.len() as int) =~= enc_pieces(self@));
        }
        out
    }

    /// Read a bundle back from a separator-joined text block.
    ///
    /// Any piece that does not decode fails the whole read; the empty
    /// string is one empty piece and fails with a missing header.
    pub fn from_str(s: &str) -> (r: Result<Self, Error>)
        ensures
            match (r, parse_changes(s@)) {
                (Ok(cs), Ok(vs)) => cs@ == vs,
                (Err(e), Err(reason)) => e == Error::CommitParseFailed(reason),
                _ => false,
            },
    {
        let pieces = crate::text::split_on(s, delimiter());
        let ghost pview = crate::text::views_of(pieces@);
        let mut acc: Vec<FileChange> = Vec::new();
        let mut i: usize = 0;
        proof {
            assert(pview.skip(0) =~= pview);
        }
        while i < pieces.len()
            invariant
                i <= pieces@.len(),
                pview == crate::text::views_of(pieces@),
                pview == split_seq(s@, delim()),
                match parse_pieces(pview.skip(i as int)) {
                    Ok(vs) => parse_pieces(pview) == Ok::<_, CommitParseFailedReason>(
                        change_views(acc@) + vs,
                    ),
                    Err(e) => parse_pieces(pview) == Err::<Seq<FileChangeView>, _>(e),
                },
            decreases pieces@.len() - i,
        {
            let ghost rest = pview.skip(i as int);
            proof {
                assert(rest.len() > 0);
                assert(rest[0] == pview[i as int]);
                assert(pieces@[i as int]@ == pview[i as int]);
            }
            match FileChange::from_str(pieces[i].as_str()) {
                Ok(fc) => {
                    let ghost old_acc = acc@;
                    let ghost fcv = fc@;
                    acc.push(fc);
                    proof {
                        lemma_change_views_push(old_acc, acc@[acc@.len() - 1]);
                        assert(change_views(acc@) =~= change_views(old_acc).push(fcv));
                        assert(rest.skip(1) =~= pview.skip(i + 1));
                        match parse_pieces(pview.skip(i + 1)) {
                            Ok(vs) => {
                                assert(parse_pieces(rest) == Ok::<_, CommitParseFailedReason>(
                                    seq![fcv] + vs,
                                ));
                                assert(change_views(old_acc) + (seq![fcv] + vs) =~= change_views(
                                    acc@,
                                ) + vs);
                            },
                            Err(_) => {},
                        }
                    }
                },
                Err(e) => {
                    proof {
                        assert(parse_pieces(rest) == Err::<Seq<FileChangeView>, _>(
                            parse_change(rest[0])->Err_0,
                        ));
                    }
                    return Err(e);
                },
            }
            i += 1;
        }
        proof {
            assert(pview.skip(pieces@.len() as int) =~= Seq::<Seq<char>>::empty());
            assert(change_views(acc@) + Seq::<FileChangeView>::empty() =~= change_views(acc@));
        }
        Ok(FileChanges(acc))
    }
}


/// The record separator's line break appears in it only at the start.
proof fn lemma_delim_head_unique()
    ensures
        delim().len() == 19,
        delim()[0] == '\n',
        forall|d: int| 0 < d < 19 ==> #[trigger] delim()[d] != delim()[0],
{
    assert forall|d: int| 0 < d < 19 implies #[trigger] delim()[d] != delim()[0] by {
        assert(delim()[0] == '\n');
        if d == 1 {
            assert(delim()[1] == 'E');
        } else if d == 2 {
            assert(delim()[2] == 'N');
        } else if d == 3 {
            assert(delim()[3] == 'D');
        } else if d == 4 {
            assert(delim()[4] == '_');
        } else if d == 5 {
            assert(delim()[5] == 'F');
        } else if d == 6 {
            assert(delim()[6] == 'U');
        } else if d == 7 {
            assert(delim()[7] == 'R');
        } else if d == 8 {
            assert(delim()[8] == 'S');
        } else if d == 9 {
            assert(delim()[9] == 'I');
        } else if d == 10 {
            assert(delim()[10] == 'O');
        } else if d == 11 {
            assert(delim()[11] == 'N');
        } else if d == 12 {
            assert(delim()[12] == '_');
        } else if d == 13 {
            assert(delim()[13] == 'C');
        } else if d == 14 {
            assert(delim()[14] == 'H');
        } else if d == 15 {
            assert(delim()[15] == 'A');
        } else if d == 16 {
            assert(delim()[16] == 'N');
        } else if d == 17 {
            assert(delim()[17] == 'G');
        } else {
            assert(delim()[18] == 'E');
        }
    }
}

/// The record separator occurs nowhere in a well-formed record's encoding.
proof fn lemma_enc_change_delim_free(v: FileChangeView)
    requires
        wf_change(v),
    ensures
        forall|i: int| !is_match(enc_change(v), delim(), i),
{
    let e = enc_change(v);
    let h = change_header(v);
    lemma_header_no_newline(v);
    lemma_delim_head_unique();
    match v.text {
        Some(t) => {
            let u = seq!['\n'] + t;
            assert(e =~= h + u);
            assert forall|i: int| !is_match(e, delim(), i) by {
                if is_match(e, delim(), i) {
                    assert(e.subrange(i, i + 19)[0] == e[i]);
                    assert(e[i] == delim()[0]);
                    if i < h.len() {
                        assert(h[i] != '\n');
                    } else {
                        let k = i - h.len();
                        assert(is_match(u, delim(), k)) by {
                            assert(u.subrange(k, k + 19) =~= e.subrange(i, i + 19));
                        }
                    }
                }
            }
        },
        None => {
            assert(e =~= h);
            assert forall|i: int| !is_match(e, delim(), i) by {
                if is_match(e, delim(), i) {
                    assert(e.subrange(i, i + 19)[0] == e[i]);
                    assert(h[i] != '\n');
                }
            }
        },
    }
}

proof fn lemma_parse_pieces_of_enc(cs: Seq<FileChangeView>)
    requires
        forall|k: int| 0 <= k < cs.len() ==> wf_change(#[trigger] cs[k]),
    ensures
        parse_pieces(enc_pieces(cs)) == Ok::<_, CommitParseFailedReason>(cs),
    decreases cs.len(),
{
    if cs.len() == 0 {
        assert(enc_pieces(cs) =~= Seq::<Seq<char>>::empty());
        assert(Seq::<FileChangeView>::empty() =~= cs);
    } else {
        lemma_change_round_trip(cs[0]);
        assert(enc_pieces(cs)[0] == enc_change(cs[0]));
        assert(enc_pieces(cs).skip(1) =~= enc_pieces(cs.skip(1)));
        lemma_parse_pieces_of_enc(cs.skip(1));
        assert(seq![cs[0]] + cs.skip(1) =~= cs);
    }
}

/// Decoding the text block of well-formed records gives the records back.
///
/// The block of no records is the empty string, which decodes as one
/// empty piece and fails; the law therefore speaks of non-empty bundles.
pub proof fn lemma_changes_round_trip(cs: Seq<FileChangeView>)
    requires
        cs.len() > 0,
        forall|k: int| 0 <= k < cs.len() ==> wf_change(#[trigger] cs[k]),
    ensures
        parse_changes(enc_changes(cs)) == Ok::<_, CommitParseFailedReason>(cs),
{
    let pieces = enc_pieces(cs);
    lemma_delim_head_unique();
    assert forall|k: int, i: int|
        0 <= k < pieces.len() implies !(#[trigger] is_match(pieces[k], delim(), i)) by {
        assert(pieces[k] == enc_change(cs[k]));
        lemma_enc_change_delim_free(cs[k]);
    }
    crate::text::lemma_split_of_join(pieces, delim());
    lemma_parse_pieces_of_enc(cs);
}


/// An immutable commit: a message, a fresh random identifier, and the
/// bundled changes. Built only through [`Commit::new`], which mints the
/// identifier; never mutated afterwards.
#[derive(Debug)]
pub struct Commit {
    /// The message associated with the commit.
    pub message: String,
    /// The random identifier, shown as six hex digits.
    pub id: CommitId,
    changes: FileChanges,
}

/// The mathematical value of a [`Commit`].
#[verifier::ext_equal]
pub struct CommitView {
    pub message: Seq<char>,
    pub id: Seq<u8>,
    pub changes: Seq<FileChangeView>,
}

impl View for Commit {
    type V = CommitView;

    closed spec fn view(&self) -> CommitView {
        CommitView { message: self.message@, id: self.id@, changes: self.changes@ }
    }
}

impl Clone for Commit {
    /// An exact copy of the commit, identifier included.
    fn clone(&self) -> (r: Self)
        ensures
            r@ == self@,
    {
        let r = Commit {
            message: self.message.clone(),
            id: self.id.clone(),
            changes: self.changes.clone(),
        };
        proof {
            assert(r@ =~= self@);
        }
        r
    }
}

/// A message fit for the one-line commit header: free of the field
/// separator and of line breaks.
pub open spec fn wf_message(m: Seq<char>) -> bool {
    forall|i: int| 0 <= i < m.len() ==> #[trigger] m[i] != '|' && m[i] != '\n'
}

/// A commit the text encoding can carry faithfully: a well-formed
/// message, a three-byte identifier, and at least one well-formed change.
pub open spec fn wf_commit(c: CommitView) -> bool {
    &&& wf_message(c.message)
    &&& c.id.len() == 3
    &&& c.changes.len() > 0
    &&& forall|k: int| 0 <= k < c.changes.len() ==> wf_change(#[trigger] c.changes[k])
}

/// A commit as text: the header line `<hex id>|<message>`, a line break,
/// then the separator-joined block of changes.
pub open spec fn enc_commit(c: CommitView) -> Seq<char> {
    id_hex(c.id) + seq!['|'] + c.message + seq!['\n'] + enc_changes(c.changes)
}

/// What decoding a commit's text yields.
///
/// The first line splits on `|` into the identifier's hex form and the
/// message; everything after the first line is the block of changes. A
/// failing block is reported first, as the block is read before the
/// header's fields are taken apart.
pub open spec fn parse_commit(s: Seq<char>) -> Result<CommitView, CommitParseFailedReason> {
    match parse_changes(body_of(s)) {
        Err(e) => Err(e),
        Ok(vs) => {
            let fields = split_seq(header_of(s), seq!['|']);
            if fields.len() < 2 {
                Err(CommitParseFailedReason::FileChangeDataMalformed)
            } else {
                match parse_hex_id(fields[0]) {
                    None => Err(CommitParseFailedReason::CommitIdParseFailed),
                    Some(bytes) => Ok(
                        CommitView { message: fields[1], id: bytes, changes: vs },
                    ),
                }
            }
        },
    }
}

impl Commit {
    /// A new commit over the given changes, with a fresh random
    /// identifier. Nothing ties the identifier to any other commit's.
    pub fn new(message: &str, changes: FileChanges) -> (r: Self)
        ensures
            r@.message == message@,
            r@.changes == changes@,
            r@.id.len() == 3,
    {
        Commit { changes, message: message.to_owned(), id: CommitId::new() }
    }

    /// A commit rebuilt from its parts, identifier included: what a
    /// decoded snapshot carries.
    pub fn from_parts(message: String, id: CommitId, changes: FileChanges) -> (r: Self)
        ensures
            r@.message == message@,
            r@.id == id@,
            r@.changes == changes@,
    {
        Commit { message, id, changes }
    }

    /// The commit's changes, in replay order.
    pub fn changes(&self) -> (r: &FileChanges)
        ensures
            r@ == self@.changes,
    {
        &self.changes
    }

    /// The commit as text.
    pub fn to_string(&self) -> (r: String)
        ensures
            r@ == enc_commit(self@),
    {
        proof {
            reveal_strlit("|");
            reveal_strlit("\n");
            assert("|"@ =~= seq!['|']);
            assert("\n"@ =~= seq!['\n']);
        }
        let mut out = self.id.to_hex();
        out.append("|");
        out.append(self.message.as_str());
        out.append("\n");
        let block = self.changes.to_string();
        out.append(block.as_str());
        proof {
            assert(out@ =~= enc_commit(self@));
        }
        out
    }

    /// Read a commit back from its text.
    ///
    /// Every malformed input is reported as a typed error; no input can
    /// make this panic.
    pub fn from_str(s: &str) -> (r: Result<Self, Error>)
        ensures
            match (r, parse_commit(s@)) {
                (Ok(c), Ok(v)) => c@ == v,
                (Err(e), Err(reason)) => e == Error::CommitParseFailed(reason),
                _ => false,
            },
    {
        proof {
            reveal_strlit("\n");
            assert("\n"@ =~= seq!['\n']);
        }
        let n = s.unicode_len();
        let header: String;
        let block: String;
        match crate::text::find_sub(s, "\n") {
            Some(i) => {
                header = s.substring_char(0, i).to_owned();
                block = s.substring_char(i + 1, n).to_owned();
                proof {
                    lemma_first_match_is(s@, seq!['\n'], i as int);
                    assert(header@ =~= header_of(s@));
                    assert(block@ =~= body_of(s@));
                }
            },
            None => {
                header = s.to_owned();
                block = String::new();
                proof {
                    lemma_first_match_none(s@, seq!['\n']);
                    assert(header@ =~= header_of(s@));
                    assert(block@ =~= body_of(s@));
                }
            },
        }
        let changes = match FileChanges::from_str(block.as_str()) {
            Ok(cs) => cs,
            Err(e) => {
                return Err(e);
            },
        };
        proof {
            reveal_strlit("|");
            assert("|"@ =~= seq!['|']);
        }
        let fields = crate::text::split_on(header.as_str(), "|");
        if fields.len() < 2 {
            return Err(Error::CommitParseFailed(CommitParseFailedReason::FileChangeDataMalformed));
        }
        let id = match CommitId::from_hex(fields[0].as_str()) {
            Ok(id) => id,
            Err(_) => {
                proof {
                    assert(fields@[0]@ == crate::text::views_of(fields@)[0]);
                }
                return Err(
                    Error::CommitParseFailed(CommitParseFailedReason::CommitIdParseFailed),
                );
            },
        };
        let c = Commit { message: fields[1].clone(), id, changes };
        proof {
            let v = parse_commit(s@)->Ok_0;
            assert(c@ =~= v);
        }
        Ok(c)
    }
}

/// Decoding the text of a well-formed commit gives the commit back,
/// field by field.
pub proof fn lemma_commit_round_trip(c: CommitView)
    requires
        wf_commit(c),
    ensures
        parse_commit(enc_commit(c)) == Ok::<CommitView, CommitParseFailedReason>(c),
{
    let e = enc_commit(c);
    let h = id_hex(c.id) + seq!['|'] + c.message;
    let block = enc_changes(c.changes);
    assert(e =~= h + seq!['\n'] + block);
    lemma_id_hex_format(c.id);

    // The header holds no line break, so the first one ends it.
    assert forall|j: int| 0 <= j < h.len() implies #[trigger] h[j] != '\n' by {
        if j < 6 {
            assert(h[j] == id_hex(c.id)[j]);
            assert(is_upper_hex(id_hex(c.id)[j]));
        } else if j == 6 {
            assert(h[j] == '|');
        } else {
            assert(h[j] == c.message[j - 7]);
        }
    }
    assert(e[h.len() as int] == '\n');
    assert(is_match(e, seq!['\n'], h.len() as int)) by {
        assert(e.subrange(h.len() as int, h.len() as int + 1) =~= seq!['\n']);
    }
    assert forall|j: int| 0 <= j < h.len() implies !is_match(e, seq!['\n'], j) by {
        if is_match(e, seq!['\n'], j) {
            assert(e.subrange(j, j + 1)[0] == e[j]);
            assert(e[j] == h[j]);
        }
    }
    lemma_first_match_is(e, seq!['\n'], h.len() as int);
    assert(header_of(e) =~= h);
    assert(body_of(e) =~= block);

    // The block reads back.
    lemma_changes_round_trip(c.changes);

    // The header splits into the hex identifier and the message.
    let fields = seq![id_hex(c.id), c.message];
    assert(join_seq(fields, seq!['|']) =~= h) by {
        assert(fields.skip(1) =~= seq![c.message]);
        assert(join_seq(seq![c.message], seq!['|']) == c.message);
    }
    assert forall|k: int, i: int|
        0 <= k < fields.len() && 0 <= i < fields[k].len() implies #[trigger] fields[k][i]
        != '|' by {
        if k == 0 {
            assert(is_upper_hex(id_hex(c.id)[i]));
        } else {
            assert(fields[k] == c.message);
        }
    }
    crate::text::lemma_split_of_join_free_head(fields, seq!['|']);
    assert(split_seq(h, seq!['|']) == fields);

    // The identifier reads back.
    lemma_hex_round_trip(c.id);

    match parse_commit(e) {
        Ok(w) => {
            assert(w =~= c);
        },
        Err(_) => {
            assert(false);
        },
    }
}

} // verus!
