//! Categorized errors, each carrying a byte position relative to stream
//! start (0 means the position is unknown).

use vstd::prelude::*;

verus! {

/// What went wrong, with detail where there is any.
#[derive(Debug, Clone, PartialEq, Eq)]
pub enum ErrorCode {
    /// A caller-supplied message.
    Message(String),
    /// The underlying reader or writer failed; the text describes how.
    Io(String),
    /// The stream structure is violated, such as a composite whose
    /// declared length disagrees with its parsed children.
    Syntax,
    /// The stream holds a value the consumer cannot accept.
    InvalidType,
    /// A prefix byte names no known family, or carries an illegal size
    /// class for its family.
    UnknownFormat,
    /// The stream ended in the middle of a value.
    Eof,
}

/// The mutually exclusive error categories.
#[derive(Debug, Clone, Copy, PartialEq, Eq, Structural)]
pub enum Category {
    Io,
    Syntax,
    InvalidType,
    UnknownFormat,
    Eof,
}

/// The category an error code belongs to.
pub open spec fn spec_classify(code: ErrorCode) -> Category {
    match code {
        ErrorCode::Message(_) => Category::InvalidType,
        ErrorCode::Io(_) => Category::Io,
        ErrorCode::Syntax => Category::Syntax,
        ErrorCode::InvalidType => Category::InvalidType,
        ErrorCode::UnknownFormat => Category::UnknownFormat,
        ErrorCode::Eof => Category::Eof,
    }
}

/// The categories a decoder failure can carry: everything but an
/// underlying I/O failure, which in-memory decoding cannot produce.
pub open spec fn decode_category(c: Category) -> bool {
    c == Category::Eof || c == Category::Syntax || c == Category::InvalidType || c
        == Category::UnknownFormat
}

/// The boxed payload of an error.
#[derive(Debug, Clone, PartialEq, Eq)]
pub struct ErrorImpl {
    code: ErrorCode,
    pos: usize,
}

/// A serialization or deserialization failure.
#[derive(Debug, Clone, PartialEq, Eq)]
pub struct Error {
    err: Box<ErrorImpl>,
}

impl Error {
    /// The error code held inside.
    pub closed spec fn spec_code(&self) -> ErrorCode {
        self.err.code
    }

    /// The byte position held inside.
    pub closed spec fn spec_pos(&self) -> int {
        self.err.pos as int
    }

    /// Byte position relative to stream start; 0 when unknown.
    pub fn pos(&self) -> (p: usize)
        ensures
            p as int == self.spec_pos(),
    {
        self.err.pos
    }

    /// The category this error falls in.
    pub fn classify(&self) -> (c: Category)
        ensures
            c == spec_classify(self.spec_code()),
    {
        match &self.err.code {
            ErrorCode::Message(_) => Category::InvalidType,
            ErrorCode::Io(_) => Category::Io,
            ErrorCode::Syntax => Category::Syntax,
            ErrorCode::InvalidType => Category::InvalidType,
            ErrorCode::UnknownFormat => Category::UnknownFormat,
            ErrorCode::Eof => Category::Eof,
        }
    }

    /// True exactly of I/O failures.
    pub fn is_io(&self) -> (r: bool)
        ensures
            r == (spec_classify(self.spec_code()) == Category::Io),
    {
        self.classify() == Category::Io
    }

    /// True exactly of structure violations.
    pub fn is_syntax(&self) -> (r: bool)
        ensures
            r == (spec_classify(self.spec_code()) == Category::Syntax),
    {
        self.classify() == Category::Syntax
    }

    /// True exactly of unacceptable-value errors.
    pub fn is_type(&self) -> (r: bool)
        ensures
            r == (spec_classify(self.spec_code()) == Category::InvalidType),
    {
        self.classify() == Category::InvalidType
    }

    /// True exactly of end-of-stream errors.
    pub fn is_eof(&self) -> (r: bool)
        ensures
            r == (spec_classify(self.spec_code()) == Category::Eof),
    {
        self.classify() == Category::Eof
    }

    /// True exactly of unrecognized-prefix errors.
    pub fn is_unknown_format(&self) -> (r: bool)
        ensures
            r == (spec_classify(self.spec_code()) == Category::UnknownFormat),
    {
        self.classify() == Category::UnknownFormat
    }

    /// An error from a code and a byte position.
    pub fn new(code: ErrorCode, pos: usize) -> (e: Error)
        ensures
            e.spec_code() == code,
            e.spec_pos() == pos as int,
    {
        Error { err: Box::new(ErrorImpl { code, pos }) }
    }

    /// A structure error at a byte position.
    pub fn syntax(code: ErrorCode, pos: usize) -> (e: Error)
        ensures
            e.spec_code() == code,
            e.spec_pos() == pos as int,
    {
        Error::new(code, pos)
    }

    /// An I/O failure described by `msg`; its position is unknown.
    pub fn io(msg: String) -> (e: Error)
        ensures
            e.spec_code() == ErrorCode::Io(msg),
            e.spec_pos() == 0,
    {
        Error::new(ErrorCode::Io(msg), 0)
    }

    /// Fills in the position when none was recorded; an error that already
    /// carries one keeps it.
    pub fn fix_position(self, pos: usize) -> (e: Error)
        ensures
            e.spec_code() == self.spec_code(),
            e.spec_pos() == if self.spec_pos() == 0 {
                pos as int
            } else {
                self.spec_pos()
            },
    {
        if self.err.pos == 0 {
            Error { err: Box::new(ErrorImpl { code: self.err.code, pos }) }
        } else {
            self
        }
    }
}

/// The eight characters of the position suffix marker.
pub open spec fn pos_marker() -> Seq<char> {
    seq![' ', 'a', 't', ' ', 'p', 'o', 's', ' ']
}

/// The marker starts at `i` in `s`.
pub open spec fn marker_at(s: Seq<char>, i: int) -> bool {
    0 <= i && i + 8 <= s.len() && s.subrange(i, i + 8) == pos_marker()
}

/// The rightmost marker occurrence at or before `from`, if any.
pub open spec fn rfind_marker(s: Seq<char>, from: int) -> Option<int>
    decreases
            (if from >= 0 {
                from + 1
            } else {
                0
            }),
{
    if from < 0 {
        Option::None
    } else if marker_at(s, from) {
        Option::Some(from)
    } else {
        rfind_marker(s, from - 1)
    }
}

/// Whether a character is an ASCII decimal digit.
pub open spec fn is_digit(c: char) -> bool {
    48 <= c as u32 <= 57
}

/// Where the run of digits beginning at `p` ends.
pub open spec fn digits_end(s: Seq<char>, p: int) -> int
    decreases s.len() - p,
{
    if p < 0 || p >= s.len() || !is_digit(s[p]) {
        p
    } else {
        digits_end(s, p + 1)
    }
}

/// The number the decimal digits `s` spell.
pub open spec fn digits_val(s: Seq<char>) -> int
    decreases s.len(),
{
    if s.len() == 0 {
        0
    } else {
        digits_val(s.drop_last()) * 10 + (s.last() as u32 - 48)
    }
}

/// What parsing the trailing `" at pos N"` suffix of `s` yields: the
/// position `N` and the index the message is cut at. Nothing when the
/// marker is absent, no digits follow it, or the number overflows.
pub open spec fn spec_parse_pos(s: Seq<char>) -> Option<(int, int)> {
    match rfind_marker(s, s.len() - 8) {
        Option::None => Option::None,
        Option::Some(i) => {
            let p = i + 8;
            let e = digits_end(s, p);
            if e == p {
                Option::None
            } else {
                let v = digits_val(s.subrange(p, e));
                if v <= usize::MAX {
                    Option::Some((v, i))
                } else {
                    Option::None
                }
            }
        },
    }
}

/// A digit run's value only grows as the run extends.
proof fn lemma_digits_val_grows(s: Seq<char>, p: int, k1: int, k2: int)
    requires
        0 <= p <= k1 <= k2 <= s.len(),
        forall|t: int| p <= t < k2 ==> is_digit(#[trigger] s[t]),
    ensures
        0 <= digits_val(s.subrange(p, k1)) <= digits_val(s.subrange(p, k2)),
    decreases k2 - k1,
{
    if k1 == k2 {
        assert(forall|t: int|
            0 <= t < s.subrange(p, k1).len() ==> is_digit(#[trigger] s.subrange(p, k1)[t]));
        lemma_digits_val_nonneg(s.subrange(p, k1));
    } else {
        lemma_digits_val_grows(s, p, k1, k2 - 1);
        assert(s.subrange(p, k2).drop_last() =~= s.subrange(p, k2 - 1));
        assert(forall|t: int|
            0 <= t < s.subrange(p, k2 - 1).len() ==> is_digit(
                #[trigger] s.subrange(p, k2 - 1)[t],
            ));
        lemma_digits_val_nonneg(s.subrange(p, k2 - 1));
    }
}

/// A digit run's value is never negative.
proof fn lemma_digits_val_nonneg(s: Seq<char>)
    requires
        forall|t: int| 0 <= t < s.len() ==> is_digit(#[trigger] s[t]),
    ensures
        digits_val(s) >= 0,
    decreases s.len(),
{
    if s.len() > 0 {
        assert(forall|t: int|
            0 <= t < s.drop_last().len() ==> is_digit(#[trigger] s.drop_last()[t]));
        lemma_digits_val_nonneg(s.drop_last());
    }
}

/// Whether the marker sits at position `i` of the message.
fn marker_matches(msg: &String, i: usize) -> (r: bool)
    requires
        i + 8 <= msg@.len(),
        i + 8 <= usize::MAX,
    ensures
        r == marker_at(msg@, i as int),
{
    let st = msg.as_str();
    let r = st.get_char(i) == ' ' && st.get_char(i + 1) == 'a' && st.get_char(i + 2) == 't'
        && st.get_char(i + 3) == ' ' && st.get_char(i + 4) == 'p' && st.get_char(i + 5) == 'o'
        && st.get_char(i + 6) == 's' && st.get_char(i + 7) == ' ';
    proof {
        if r {
            assert(msg@.subrange(i as int, i as int + 8) =~= pos_marker());
        } else {
            if msg@.subrange(i as int, i as int + 8) == pos_marker() {
                assert(msg@[i as int] == pos_marker()[0]);
                assert(msg@[i as int + 1] == pos_marker()[1]);
                assert(msg@[i as int + 2] == pos_marker()[2]);
                assert(msg@[i as int + 3] == pos_marker()[3]);
                assert(msg@[i as int + 4] == pos_marker()[4]);
                assert(msg@[i as int + 5] == pos_marker()[5]);
                assert(msg@[i as int + 6] == pos_marker()[6]);
                assert(msg@[i as int + 7] == pos_marker()[7]);
            }
        }
    }
    r
}

/// Extracts a trailing `" at pos N"` suffix: on success `N` is returned
/// and the suffix is cut off the message; otherwise the message stays.
pub fn parse_pos(msg: &mut String) -> (r: Option<usize>)
    ensures
        match spec_parse_pos(old(msg)@) {
            Option::Some(pc) => r matches Some(p) && p as int == pc.0 && final(msg)@ == old(
                msg,
            )@.take(pc.1),
            Option::None => r is None && final(msg)@ == old(msg)@,
        },
{
    let ghost s = msg@;
    let n = msg.as_str().unicode_len();
    if n < 8 {
        return None;
    }
    let mut j: usize = n - 7;
    let mut start: usize = 0;
    let mut has: bool = false;
    while j > 0 && has == false
        invariant
            j <= n - 7,
            n == s.len(),
            s == msg@,
            n >= 8,
            has == false ==> rfind_marker(s, n as int - 8) == rfind_marker(s, j as int - 1),
            has ==> rfind_marker(s, n as int - 8) == Option::Some(start as int) && start + 8
                <= n,
        decreases
                (if has {
                    0int
                } else {
                    j + 1
                }),
    {
        if marker_matches(msg, j - 1) {
            start = j - 1;
            has = true;
        } else {
            j = j - 1;
        }
    }
    if has == false {
        proof {
            assert(rfind_marker(s, -1) is None);
        }
        return None;
    }
    let p = start + 8;
    let mut e: usize = p;
    let mut stop: bool = false;
    while stop == false
        invariant
            p <= e <= n,
            n == s.len(),
            s == msg@,
            digits_end(s, p as int) == digits_end(s, e as int),
            forall|t: int| p <= t < e ==> is_digit(#[trigger] s[t]),
            stop ==> digits_end(s, p as int) == e as int,
        decreases n - e + (if stop {
            0int
        } else {
            1int
        }),
    {
        if e < n {
            let c = msg.as_str().get_char(e);
            if (c as u32) >= 48 && (c as u32) <= 57 {
                e = e + 1;
            } else {
                stop = true;
            }
        } else {
            stop = true;
        }
    }
    if e == p {
        return None;
    }
    let mut k: usize = p;
    let mut val: usize = 0;
    let mut overflow: bool = false;
    proof {
        assert(s.subrange(p as int, p as int) =~= Seq::<char>::empty());
    }
    while k < e
        invariant
            p <= k <= e <= n,
            n == s.len(),
            s == msg@,
            forall|t: int| p <= t < e ==> is_digit(#[trigger] s[t]),
            overflow == false ==> val as int == digits_val(s.subrange(p as int, k as int)),
            overflow ==> digits_val(s.subrange(p as int, k as int)) > usize::MAX,
        decreases e - k,
    {
        let c = msg.as_str().get_char(k);
        let d = (c as u32 - 48) as usize;
        proof {
            assert(s.subrange(p as int, k as int + 1).drop_last() =~= s.subrange(
                p as int,
                k as int,
            ));
        }
        if overflow == false {
            match val.checked_mul(10) {
                Some(m) => {
                    match m.checked_add(d) {
                        Some(t) => {
                            val = t;
                        },
                        None => {
                            overflow = true;
                        },
                    }
                },
                None => {
                    overflow = true;
                },
            }
        } else {
            proof {
                lemma_digits_val_nonneg(s.subrange(p as int, k as int));
                assert(digits_val(s.subrange(p as int, k as int + 1)) > usize::MAX);
            }
        }
        k = k + 1;
    }
    if overflow {
        proof {
            lemma_digits_val_grows(s, p as int, e as int, e as int);
        }
        return None;
    }
    let head = msg.as_str().substring_char(0, start).to_owned();
    *msg = head;
    proof {
        assert(final(msg)@ == s.subrange(0, start as int));
        assert(s.take(start as int) =~= s.subrange(0, start as int));
    }
    Some(val)
}

/// Builds a value error from a message, recovering any trailing
/// `" at pos N"` suffix into the position field.
pub fn make_error(msg: String) -> (e: Error)
    ensures
        match spec_parse_pos(msg@) {
            Option::Some(pc) => e.spec_pos() == pc.0 && (e.spec_code() matches
                ErrorCode::Message(m) && m@ == msg@.take(pc.1)),
            Option::None => e.spec_pos() == 0 && (e.spec_code() matches ErrorCode::Message(m)
                && m@ == msg@),
        },
{
    let mut m = msg;
    let p = match parse_pos(&mut m) {
        Some(p) => p,
        None => 0,
    };
    Error::new(ErrorCode::Message(m), p)
}

} // verus!
