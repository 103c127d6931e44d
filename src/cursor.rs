use vstd::prelude::*;
use vstd::utf8::*;

verus! {

/// The two kinds of decoding failure, as contracts speak of them.
pub enum Fault {
    /// The input ended in the middle of the grammar.
    End,
    /// The input is framed but its content is invalid.
    Invalid,
}

/// An error of the cursor and of the RESP decoder.
#[derive(Debug)]
pub enum Error {
    UnexpectedEOF,
    InvalidInput(String),
}

impl Error {
    pub open spec fn fault(&self) -> Fault {
        match self {
            Error::UnexpectedEOF => Fault::End,
            Error::InvalidInput(_) => Fault::Invalid,
        }
    }

    /// A readable description of the error.
    pub fn message(&self) -> (r: String)
        ensures
            match self {
                Error::UnexpectedEOF => r@ == "Unexpected EOF"@,
                Error::InvalidInput(m) => r@ == "Invalid input: "@ + m@,
            },
    {
        match self {
            Error::UnexpectedEOF => "Unexpected EOF".to_owned(),
            Error::InvalidInput(m) => {
                let mut r = "Invalid input: ".to_owned();
                r.append(m.as_str());
                r
            },
        }
    }
}

/// A carriage return followed by a line feed starts at `i`.
pub open spec fn crlf_at(b: Seq<u8>, i: int) -> bool {
    0 <= i && i + 1 < b.len() && b[i] == 13u8 && b[i + 1] == 10u8
}

/// The first position at or after `from` where a CR LF pair starts.
pub open spec fn find_crlf(b: Seq<u8>, from: int) -> Option<int>
    decreases b.len() - from,
{
    if from < 0 || from + 1 >= b.len() {
        None
    } else if crlf_at(b, from) {
        Some(from)
    } else {
        find_crlf(b, from + 1)
    }
}

/// What `find_crlf` finds is the first CR LF at or after `from`.
pub proof fn lemma_find_crlf(b: Seq<u8>, from: int)
    requires
        0 <= from,
    ensures
        match find_crlf(b, from) {
            Some(i) => from <= i && crlf_at(b, i) && forall|j: int|
                from <= j < i ==> !#[trigger] crlf_at(b, j),
            None => forall|j: int| from <= j ==> !#[trigger] crlf_at(b, j),
        },
    decreases b.len() - from,
{
    if !(from < 0 || from + 1 >= b.len()) && !crlf_at(b, from) {
        lemma_find_crlf(b, from + 1);
    }
}

/// A CR LF at `i` with none between `from` and `i` is what `find_crlf` finds.
pub proof fn lemma_find_crlf_first(b: Seq<u8>, from: int, i: int)
    requires
        0 <= from <= i,
        crlf_at(b, i),
        forall|j: int| from <= j < i ==> !#[trigger] crlf_at(b, j),
    ensures
        find_crlf(b, from) == Some(i),
    decreases i - from,
{
    if from < i {
        lemma_find_crlf_first(b, from + 1, i);
    }
}

/// A line read ends after its terminator, within the input.
pub proof fn lemma_read_line_advances(b: Seq<u8>, pos: int)
    requires
        0 <= pos,
    ensures
        read_line_spec(b, pos) matches Ok((l, p)) ==> pos + 2 <= p <= b.len() && l.len() == p - 2
            - pos,
{
    lemma_find_crlf(b, pos);
}

/// Reading `n` bytes at `pos`: the bytes and the next position.
pub open spec fn read_spec(b: Seq<u8>, pos: int, n: int) -> Result<(Seq<u8>, int), Fault> {
    if 0 <= pos && 0 <= n && pos + n <= b.len() {
        Ok((b.subrange(pos, pos + n), pos + n))
    } else {
        Err(Fault::End)
    }
}

/// Reading a line at `pos`: the bytes before the first CR LF, and the
/// position after it.
pub open spec fn read_line_spec(b: Seq<u8>, pos: int) -> Result<(Seq<u8>, int), Fault> {
    match find_crlf(b, pos) {
        Some(i) => Ok((b.subrange(pos, i), i + 2)),
        None => Err(Fault::End),
    }
}

/// Reading a line as UTF-8 text.
pub open spec fn read_text_spec(b: Seq<u8>, pos: int) -> Result<(Seq<char>, int), Fault> {
    match read_line_spec(b, pos) {
        Ok((line, p)) => if valid_utf8(line) {
            Ok((decode_utf8(line), p))
        } else {
            Err(Fault::Invalid)
        },
        Err(f) => Err(f),
    }
}

/// Reading a line as a signed 64-bit decimal integer.
pub open spec fn read_integer_spec(b: Seq<u8>, pos: int) -> Result<(i64, int), Fault> {
    match read_line_spec(b, pos) {
        Ok((line, p)) => match crate::decimal::parse_i64_spec(line) {
            Some(n) => Ok((n, p)),
            None => Err(Fault::Invalid),
        },
        Err(f) => Err(f),
    }
}

/// Relies on std::str::from_utf8: it accepts exactly the valid UTF-8 byte
/// sequences, and the text it gives has those bytes as its encoding.
#[verifier::external_body]
pub(crate) fn decode_text(bytes: &[u8]) -> (r: Option<String>)
    ensures
        match r {
            Some(s) => valid_utf8(bytes@) && encode_utf8(s@) == bytes@,
            None => !valid_utf8(bytes@),
        },
{
    std::str::from_utf8(bytes).ok().map(|s| s.to_string())
}

/// `s` ends with `w`.
pub open spec fn ends_with(s: Seq<char>, w: Seq<char>) -> bool {
    w.len() <= s.len() && s.subrange(s.len() - w.len(), s.len() as int) == w
}

/// `r` is an invalid-input error whose message ends with `w`.
pub open spec fn fails_with<T>(r: Result<T, Error>, w: Seq<char>) -> bool {
    r matches Err(Error::InvalidInput(m)) && ends_with(m@, w)
}

/// Relies on the Debug formatting of byte slices, for diagnostics only.
#[verifier::external_body]
fn quoted_bytes(bytes: &[u8]) -> (r: String) {
    format!("'{:?}' ", bytes)
}

/// A message that shows the offending bytes and ends with `problem`.
pub(crate) fn diagnostic(bytes: &[u8], problem: &str) -> (r: String)
    ensures
        ends_with(r@, problem@),
{
    let mut r = quoted_bytes(bytes);
    r.append(problem);
    assert(r@.subrange(r@.len() - problem@.len(), r@.len() as int) =~= problem@);
    r
}

/// A forward-only reader over a byte buffer.
pub struct Cursor<'a> {
    input: &'a [u8],
    position: usize,
}

impl<'a> Cursor<'a> {
    /// The bytes being read.
    pub closed spec fn data(&self) -> Seq<u8> {
        self.input@
    }

    /// The read position.
    pub closed spec fn pos(&self) -> int {
        self.position as int
    }

    pub open spec fn wf(&self) -> bool {
        0 <= self.pos() <= self.data().len() <= usize::MAX
    }

    pub fn new(input: &'a [u8]) -> (r: Self)
        ensures
            r.wf(),
            r.data() == input@,
            r.pos() == 0,
    {
        let _ = input.len();
        Cursor { input, position: 0 }
    }

    pub fn input(&self) -> (r: &'a [u8])
        ensures
            r@ == self.data(),
    {
        self.input
    }

    pub fn position(&self) -> (r: usize)
        ensures
            r as int == self.pos(),
    {
        self.position
    }

    /// Reads the next `n` bytes; on failure the position is unchanged.
    pub fn read(&mut self, n: usize) -> (r: Result<&'a [u8], Error>)
        requires
            old(self).wf(),
        ensures
            final(self).wf(),
            final(self).data() == old(self).data(),
            final(self).pos() >= old(self).pos(),
            match read_spec(old(self).data(), old(self).pos(), n as int) {
                Ok((bytes, p)) => r matches Ok(s) && s@ == bytes && final(self).pos() == p,
                Err(f) => r matches Err(e) && e.fault() == f && final(self).pos() == old(
                    self,
                ).pos(),
            },
    {
        if n > self.input.len() - self.position {
            return Err(Error::UnexpectedEOF);
        }
        let slice = vstd::slice::slice_subrange(self.input, self.position, self.position + n);
        self.position = self.position + n;
        Ok(slice)
    }

    /// Reads the next byte.
    pub fn read_byte(&mut self) -> (r: Result<u8, Error>)
        requires
            old(self).wf(),
        ensures
            final(self).wf(),
            final(self).data() == old(self).data(),
            final(self).pos() >= old(self).pos(),
            old(self).pos() < old(self).data().len() ==> r == Ok::<u8, Error>(
                old(self).data()[old(self).pos()],
            ) && final(self).pos() == old(self).pos() + 1,
            old(self).pos() >= old(self).data().len() ==> (r matches Err(Error::UnexpectedEOF)
                && final(self).pos() == old(self).pos()),
    {
        if self.position >= self.input.len() {
            return Err(Error::UnexpectedEOF);
        }
        let byte = self.input[self.position];
        self.position = self.position + 1;
        Ok(byte)
    }

    /// Reads up to the next CR LF, which is consumed but not returned. When
    /// there is none, the position stops at the last byte.
    pub fn read_line(&mut self) -> (r: Result<&'a [u8], Error>)
        requires
            old(self).wf(),
        ensures
            final(self).wf(),
            final(self).data() == old(self).data(),
            final(self).pos() >= old(self).pos(),
            match read_line_spec(old(self).data(), old(self).pos()) {
                Ok((line, p)) => r matches Ok(s) && s@ == line && final(self).pos() == p,
                Err(f) => r matches Err(e) && e.fault() == f && final(self).pos() == if old(
                    self,
                ).pos() + 1 < old(self).data().len() {
                    old(self).data().len() - 1
                } else {
                    old(self).pos()
                },
            },
    {
        let start = self.position;
        let len = self.input.len();
        while len - self.position > 1
            invariant
                self.wf(),
                self.input@.len() == len,
                self.data() == old(self).data(),
                start == old(self).pos(),
                start <= self.position,
                find_crlf(self.input@, start as int) == find_crlf(self.input@, self.position as int),
                start + 1 < len ==> self.position + 1 <= len,
                start + 1 >= len ==> self.position == start,
            decreases len - self.position,
        {
            if self.input[self.position] == 13u8 && self.input[self.position + 1] == 10u8 {
                let line = vstd::slice::slice_subrange(self.input, start, self.position);
                self.position = self.position + 2;
                return Ok(line);
            }
            self.position = self.position + 1;
        }
        Err(Error::UnexpectedEOF)
    }

    /// Reads a line as UTF-8 text.
    pub fn read_string(&mut self) -> (r: Result<String, Error>)
        requires
            old(self).wf(),
        ensures
            final(self).wf(),
            final(self).data() == old(self).data(),
            final(self).pos() >= old(self).pos(),
            match read_text_spec(old(self).data(), old(self).pos()) {
                Ok((text, p)) => r matches Ok(s) && s@ == text && final(self).pos() == p,
                Err(f) => r matches Err(e) && e.fault() == f,
            },
            read_line_spec(old(self).data(), old(self).pos()) matches Ok((line, p)) ==> {
                &&& final(self).pos() == p
                &&& !valid_utf8(line) ==> fails_with(r, "is not a valid UTF-8 sequence"@)
            },
    {
        let line = self.read_line()?;
        match decode_text(line) {
            Some(s) => {
                proof {
                    encode_utf8_decode_utf8(s@);
                }
                Ok(s)
            },
            None => Err(Error::InvalidInput(diagnostic(line, "is not a valid UTF-8 sequence"))),
        }
    }

    /// Reads a line as a signed 64-bit decimal integer.
    pub fn read_integer(&mut self) -> (r: Result<i64, Error>)
        requires
            old(self).wf(),
        ensures
            final(self).wf(),
            final(self).data() == old(self).data(),
            final(self).pos() >= old(self).pos(),
            match read_integer_spec(old(self).data(), old(self).pos()) {
                Ok((n, p)) => r == Ok::<i64, Error>(n) && final(self).pos() == p,
                Err(f) => r matches Err(e) && e.fault() == f,
            },
            read_line_spec(old(self).data(), old(self).pos()) matches Ok((line, p)) ==> {
                &&& final(self).pos() == p
                &&& crate::decimal::parse_i64_spec(line) is None ==> fails_with(
                    r,
                    if valid_utf8(line) {
                        "is not a valid integer"@
                    } else {
                        "is not a valid UTF-8 sequence"@
                    },
                )
            },
    {
        let line = self.read_line()?;
        if decode_text(line).is_none() {
            proof {
                crate::decimal::lemma_integer_text_is_utf8(line@);
            }
            return Err(Error::InvalidInput(diagnostic(line, "is not a valid UTF-8 sequence")));
        }
        match crate::decimal::parse_i64(line) {
            Some(n) => Ok(n),
            None => Err(Error::InvalidInput(diagnostic(line, "is not a valid integer"))),
        }
    }
}

} // verus!
