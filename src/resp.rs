use crate::cursor::{
    Cursor, Error, Fault, decode_text, diagnostic, ends_with, fails_with, read_integer_spec, read_line_spec, read_spec,
    read_text_spec, lemma_read_line_advances,
};
use crate::syntax::{
    big_number_syntax, float_syntax, inf_word, nan_word, is_big_number_text, is_float_text,
};
use crate::decimal::{
    int_text, lemma_int_text_round_trip, lemma_integer_text_is_utf8, nat_text, parse_i64_spec,
    push_int, push_nat,
};
use vstd::prelude::*;
use vstd::utf8::*;

verus! {

broadcast use vstd::std_specs::vec::group_vec_axioms;

/// The mathematical value of a RESP datum.
pub enum Term {
    Array(Seq<Term>),
    BigNumber(Seq<char>),
    BulkError(Seq<char>),
    BulkString(Seq<char>),
    Double(Seq<char>),
    Error(Seq<char>),
    False,
    Integer(i64),
    MapPairs(Seq<(Term, Term)>),
    NaN,
    NegativeInfinity,
    Null,
    NullBulkString,
    PositiveInfinity,
    SetItems(Seq<Term>),
    SimpleString(Seq<char>),
    True,
    VerbatimString(Seq<char>, Seq<char>),
}

/// A RESP datum. A `Double` holds the decimal text of the number, as it
/// stands on the wire.
#[derive(Debug)]
pub enum RespValue {
    Array(Vec<RespValue>),
    BigNumber(String),
    BulkError(String),
    BulkString(String),
    Double(String),
    Error(String),
    False,
    Integer(i64),
    MapPairs(Vec<(RespValue, RespValue)>),
    NaN,
    NegativeInfinity,
    Null,
    NullBulkString,
    PositiveInfinity,
    SetItems(Vec<RespValue>),
    SimpleString(String),
    True,
    VerbatimString(String, String),
}

/// The terms of a sequence of values.
pub open spec fn views(s: Seq<RespValue>) -> Seq<Term>
    decreases s,
{
    if s.len() == 0 {
        Seq::empty()
    } else {
        views(s.drop_last()).push(s.last().view())
    }
}

/// The terms of a sequence of pairs of values.
pub open spec fn pair_views(s: Seq<(RespValue, RespValue)>) -> Seq<(Term, Term)>
    decreases s,
{
    if s.len() == 0 {
        Seq::empty()
    } else {
        pair_views(s.drop_last()).push((s.last().0.view(), s.last().1.view()))
    }
}

impl RespValue {
    pub open spec fn view(&self) -> Term
        decreases self,
    {
        match self {
            RespValue::Array(vs) => Term::Array(views(vs@)),
            RespValue::BigNumber(s) => Term::BigNumber(s@),
            RespValue::BulkError(s) => Term::BulkError(s@),
            RespValue::BulkString(s) => Term::BulkString(s@),
            RespValue::Double(s) => Term::Double(s@),
            RespValue::Error(s) => Term::Error(s@),
            RespValue::False => Term::False,
            RespValue::Integer(n) => Term::Integer(*n),
            RespValue::MapPairs(ps) => Term::MapPairs(pair_views(ps@)),
            RespValue::NaN => Term::NaN,
            RespValue::NegativeInfinity => Term::NegativeInfinity,
            RespValue::Null => Term::Null,
            RespValue::NullBulkString => Term::NullBulkString,
            RespValue::PositiveInfinity => Term::PositiveInfinity,
            RespValue::SetItems(vs) => Term::SetItems(views(vs@)),
            RespValue::SimpleString(s) => Term::SimpleString(s@),
            RespValue::True => Term::True,
            RespValue::VerbatimString(e, s) => Term::VerbatimString(e@, s@),
        }
    }
}

/// The two bytes that end a line.
pub open spec fn crlf() -> Seq<u8> {
    seq![13u8, 10u8]
}

/// A line with its terminator.
pub open spec fn line(b: Seq<u8>) -> Seq<u8> {
    b + crlf()
}

/// The bytes that a term encodes to.
pub open spec fn encode(t: Term) -> Seq<u8>
    decreases t,
{
    match t {
        Term::Array(vs) => seq![42u8] + line(nat_text(vs.len())) + encode_all(vs),
        Term::BigNumber(s) => seq![40u8] + line(encode_utf8(s)),
        Term::BulkError(s) => seq![33u8] + line(nat_text(encode_utf8(s).len())) + line(
            encode_utf8(s),
        ),
        Term::BulkString(s) => seq![36u8] + line(nat_text(encode_utf8(s).len())) + line(
            encode_utf8(s),
        ),
        Term::Double(s) => seq![44u8] + line(encode_utf8(s)),
        Term::Error(s) => seq![45u8] + line(encode_utf8(s)),
        Term::False => seq![35u8, 102u8, 13u8, 10u8],
        Term::Integer(n) => seq![58u8] + line(int_text(n as int)),
        Term::MapPairs(ps) => seq![37u8] + line(nat_text(ps.len())) + encode_pairs(ps),
        Term::NaN => seq![44u8, 110u8, 97u8, 110u8, 13u8, 10u8],
        Term::NegativeInfinity => seq![44u8, 45u8, 105u8, 110u8, 102u8, 13u8, 10u8],
        Term::Null => seq![95u8, 13u8, 10u8],
        Term::NullBulkString => seq![36u8, 45u8, 49u8, 13u8, 10u8],
        Term::PositiveInfinity => seq![44u8, 105u8, 110u8, 102u8, 13u8, 10u8],
        Term::SetItems(vs) => seq![126u8] + line(nat_text(vs.len())) + encode_all(vs),
        Term::SimpleString(s) => seq![43u8] + line(encode_utf8(s)),
        Term::True => seq![35u8, 116u8, 13u8, 10u8],
        Term::VerbatimString(e, s) => seq![61u8] + line(
            nat_text(encode_utf8(e).len() + 1 + encode_utf8(s).len()),
        ) + line(encode_utf8(e) + seq![58u8] + encode_utf8(s)),
    }
}

/// The encodings of a sequence of terms, one after the other.
pub open spec fn encode_all(vs: Seq<Term>) -> Seq<u8>
    decreases vs,
{
    if vs.len() == 0 {
        Seq::empty()
    } else {
        encode_all(vs.drop_last()) + encode(vs.last())
    }
}

/// The encodings of a sequence of pairs, each key before its value.
pub open spec fn encode_pairs(ps: Seq<(Term, Term)>) -> Seq<u8>
    decreases ps,
{
    if ps.len() == 0 {
        Seq::empty()
    } else {
        encode_pairs(ps.drop_last()) + encode(ps.last().0) + encode(ps.last().1)
    }
}

proof fn lemma_views_prefix(s: Seq<RespValue>, i: int)
    requires
        0 <= i < s.len(),
    ensures
        views(s.subrange(0, i + 1)) == views(s.subrange(0, i)).push(s[i].view()),
        views(s.subrange(0, i + 1)).len() == i + 1,
{
    assert(s.subrange(0, i + 1).drop_last() =~= s.subrange(0, i));
    lemma_views_len(s.subrange(0, i + 1));
}

pub proof fn lemma_views_len(s: Seq<RespValue>)
    ensures
        views(s).len() == s.len(),
        forall|i: int| 0 <= i < s.len() ==> #[trigger] views(s)[i] == s[i].view(),
    decreases s.len(),
{
    if s.len() > 0 {
        lemma_views_len(s.drop_last());
    }
}

proof fn lemma_pair_views_prefix(s: Seq<(RespValue, RespValue)>, i: int)
    requires
        0 <= i < s.len(),
    ensures
        pair_views(s.subrange(0, i + 1)) == pair_views(s.subrange(0, i)).push(
            (s[i].0.view(), s[i].1.view()),
        ),
{
    assert(s.subrange(0, i + 1).drop_last() =~= s.subrange(0, i));
}

proof fn lemma_pair_views_len(s: Seq<(RespValue, RespValue)>)
    ensures
        pair_views(s).len() == s.len(),
    decreases s.len(),
{
    if s.len() > 0 {
        lemma_pair_views_len(s.drop_last());
    }
}

fn push_line_end(out: &mut Vec<u8>)
    ensures
        final(out)@ == old(out)@ + crlf(),
{
    out.push(13u8);
    out.push(10u8);
    assert(final(out)@ =~= old(out)@ + crlf());
}

fn push_text(out: &mut Vec<u8>, s: &String)
    ensures
        final(out)@ == old(out)@ + encode_utf8(s@),
{
    let b = s.as_str().as_bytes();
    let ghost before = out@;
    let mut i: usize = 0;
    while i < b.len()
        invariant
            i <= b@.len(),
            b@ == encode_utf8(s@),
            out@ == before + b@.subrange(0, i as int),
        decreases b@.len() - i,
    {
        out.push(b[i]);
        i = i + 1;
        assert(out@ =~= before + b@.subrange(0, i as int));
    }
    assert(b@.subrange(0, i as int) =~= b@);
}

fn text_len(s: &String) -> (r: usize)
    ensures
        r == encode_utf8(s@).len(),
{
    s.as_str().as_bytes().len()
}

/// Appends a count line and then the encodings of the items.
fn write_items(vs: &Vec<RespValue>, out: &mut Vec<u8>)
    ensures
        final(out)@ == old(out)@ + line(nat_text(vs@.len())) + encode_all(views(vs@)),
    decreases vs, 0nat,
{
    push_nat(out, vs.len() as u128);
    push_line_end(out);
    let ghost head = out@;
    let mut i: usize = 0;
    while i < vs.len()
        invariant
            i <= vs@.len(),
            out@ == head + encode_all(views(vs@.subrange(0, i as int))),
        decreases vs@.len() - i,
    {
        proof {
            lemma_views_prefix(vs@, i as int);
            assert(decreases_to!(vs => vs[i as int]));
        }
        vs[i].write_to(out);
        proof {
            let ts = views(vs@.subrange(0, i + 1));
            assert(ts.drop_last() == views(vs@.subrange(0, i as int)));
            assert(out@ =~= head + encode_all(ts));
        }
        i = i + 1;
    }
    proof {
        assert(vs@.subrange(0, i as int) =~= vs@);
    }
    assert(final(out)@ =~= old(out)@ + line(nat_text(vs@.len())) + encode_all(views(vs@)));
}

/// Appends a count line and then the encodings of the pairs.
fn write_pairs(ps: &Vec<(RespValue, RespValue)>, out: &mut Vec<u8>)
    ensures
        final(out)@ == old(out)@ + line(nat_text(ps@.len())) + encode_pairs(pair_views(ps@)),
    decreases ps, 0nat,
{
    push_nat(out, ps.len() as u128);
    push_line_end(out);
    let ghost head = out@;
    let mut i: usize = 0;
    while i < ps.len()
        invariant
            i <= ps@.len(),
            out@ == head + encode_pairs(pair_views(ps@.subrange(0, i as int))),
        decreases ps@.len() - i,
    {
        proof {
            lemma_pair_views_prefix(ps@, i as int);
            assert(decreases_to!(ps => ps[i as int]));
            assert(decreases_to!(ps[i as int] => ps[i as int].0));
            assert(decreases_to!(ps[i as int] => ps[i as int].1));
        }
        ps[i].0.write_to(out);
        ps[i].1.write_to(out);
        proof {
            let ts = pair_views(ps@.subrange(0, i + 1));
            assert(ts.drop_last() == pair_views(ps@.subrange(0, i as int)));
            assert(out@ =~= head + encode_pairs(ts));
        }
        i = i + 1;
    }
    proof {
        assert(ps@.subrange(0, i as int) =~= ps@);
    }
    assert(final(out)@ =~= old(out)@ + line(nat_text(ps@.len())) + encode_pairs(pair_views(ps@)));
}

/// Appends the encoding of a value that holds no other values.
fn write_scalar(v: &RespValue, out: &mut Vec<u8>)
    requires
        !(v is Array || v is SetItems || v is MapPairs),
    ensures
        final(out)@ == old(out)@ + encode(v@),
{
    let ghost before = out@;
    match v {
        RespValue::BigNumber(s) | RespValue::Double(s) | RespValue::Error(s)
        | RespValue::SimpleString(s) => {
            out.push(
                match v {
                    RespValue::BigNumber(_) => 40u8,
                    RespValue::Double(_) => 44u8,
                    RespValue::Error(_) => 45u8,
                    _ => 43u8,
                },
            );
            push_text(out, s);
            push_line_end(out);
        },
        RespValue::BulkError(s) | RespValue::BulkString(s) => {
            out.push(if matches!(v, RespValue::BulkError(_)) { 33u8 } else { 36u8 });
            push_nat(out, text_len(s) as u128);
            push_line_end(out);
            push_text(out, s);
            push_line_end(out);
        },
        RespValue::Integer(n) => {
            out.push(58u8);
            push_int(out, *n);
            push_line_end(out);
        },
        RespValue::VerbatimString(e, s) => {
            out.push(61u8);
            push_nat(out, text_len(e) as u128 + 1 + text_len(s) as u128);
            push_line_end(out);
            push_text(out, e);
            out.push(58u8);
            push_text(out, s);
            push_line_end(out);
        },
        RespValue::False => {
            out.push(35u8);
            out.push(102u8);
            push_line_end(out);
        },
        RespValue::True => {
            out.push(35u8);
            out.push(116u8);
            push_line_end(out);
        },
        RespValue::Null => {
            out.push(95u8);
            push_line_end(out);
        },
        RespValue::NullBulkString => {
            out.push(36u8);
            out.push(45u8);
            out.push(49u8);
            push_line_end(out);
        },
        RespValue::NaN => {
            out.push(44u8);
            out.push(110u8);
            out.push(97u8);
            out.push(110u8);
            push_line_end(out);
        },
        RespValue::PositiveInfinity => {
            out.push(44u8);
            out.push(105u8);
            out.push(110u8);
            out.push(102u8);
            push_line_end(out);
        },
        RespValue::NegativeInfinity => {
            out.push(44u8);
            out.push(45u8);
            out.push(105u8);
            out.push(110u8);
            out.push(102u8);
            push_line_end(out);
        },
        _ => {},
    }
    assert(out@ =~= before + encode(v@));
}

impl RespValue {
    /// Appends the encoding of this value.
    pub fn write_to(&self, out: &mut Vec<u8>)
        ensures
            final(out)@ == old(out)@ + encode(self@),
        decreases self, 1nat,
    {
        let ghost before = out@;
        match self {
            RespValue::Array(vs) => {
                out.push(42u8);
                proof {
                    assert(decreases_to!(self => vs));
                }
                write_items(vs, out);
                proof {
                    lemma_views_len(vs@);
                }
                assert(out@ =~= before + encode(self@));
            },
            RespValue::SetItems(vs) => {
                out.push(126u8);
                proof {
                    assert(decreases_to!(self => vs));
                }
                write_items(vs, out);
                proof {
                    lemma_views_len(vs@);
                }
                assert(out@ =~= before + encode(self@));
            },
            RespValue::MapPairs(ps) => {
                out.push(37u8);
                proof {
                    assert(decreases_to!(self => ps));
                }
                write_pairs(ps, out);
                proof {
                    lemma_pair_views_len(ps@);
                }
                assert(out@ =~= before + encode(self@));
            },
            _ => write_scalar(self, out),
        }
    }

    /// The encoding of this value.
    pub fn as_bytes(&self) -> (r: Vec<u8>)
        ensures
            r@ == encode(self@),
    {
        let mut out: Vec<u8> = Vec::new();
        self.write_to(&mut out);
        assert(out@ =~= encode(self@));
        out
    }
}

/// The measure that decoding decreases: the bytes left after `pos`.
pub open spec fn rem(b: Seq<u8>, pos: int) -> int {
    if pos <= b.len() {
        b.len() - pos
    } else {
        0
    }
}

/// Reading as many bytes as a decoded length says: a negative length is
/// invalid content, not a truncated input.
pub open spec fn read_counted_spec(b: Seq<u8>, pos: int, n: i64) -> Result<(Seq<u8>, int), Fault> {
    if n < 0 {
        Err(Fault::Invalid)
    } else {
        read_spec(b, pos, n as int)
    }
}

/// `$`: a length line, then that many bytes of text and a line end; `-1`
/// stands for the null bulk string.
pub open spec fn bulk_string_spec(b: Seq<u8>, p: int) -> Result<(Term, int), Fault> {
    match read_integer_spec(b, p) {
        Err(f) => Err(f),
        Ok((n, q)) => if n == -1 {
            Ok((Term::NullBulkString, q))
        } else {
            match read_counted_spec(b, q, n) {
                Err(f) => Err(f),
                Ok((data, q2)) => if !valid_utf8(data) {
                    Err(Fault::Invalid)
                } else {
                    match read_spec(b, q2, 2) {
                        Err(f) => Err(f),
                        Ok((t, q3)) => if t == crlf() {
                            Ok((Term::BulkString(decode_utf8(data)), q3))
                        } else {
                            Err(Fault::Invalid)
                        },
                    }
                },
            }
        },
    }
}

/// `!`: a length line, then that many bytes of text.
pub open spec fn bulk_error_spec(b: Seq<u8>, p: int) -> Result<(Term, int), Fault> {
    match read_integer_spec(b, p) {
        Err(f) => Err(f),
        Ok((n, q)) => match read_counted_spec(b, q, n) {
            Err(f) => Err(f),
            Ok((data, q2)) => if valid_utf8(data) {
                Ok((Term::BulkError(decode_utf8(data)), q2))
            } else {
                Err(Fault::Invalid)
            },
        },
    }
}

/// `=`: a length line, then that many bytes: a three-byte tag, `:` and the text.
pub open spec fn verbatim_spec(b: Seq<u8>, p: int) -> Result<(Term, int), Fault> {
    match read_integer_spec(b, p) {
        Err(f) => Err(f),
        Ok((n, q)) => match read_counted_spec(b, q, n) {
            Err(f) => Err(f),
            Ok((data, q2)) => {
                let tag = data.subrange(0, 3);
                let text = data.subrange(4, data.len() as int);
                if data.len() < 4 || data[3] != 58u8 || !valid_utf8(tag) || !valid_utf8(text) {
                    Err(Fault::Invalid)
                } else {
                    Ok((Term::VerbatimString(decode_utf8(tag), decode_utf8(text)), q2))
                }
            },
        },
    }
}

/// `_`: a line end.
pub open spec fn null_spec(b: Seq<u8>, p: int) -> Result<(Term, int), Fault> {
    match read_spec(b, p, 2) {
        Err(f) => Err(f),
        Ok((t, q)) => if t == crlf() {
            Ok((Term::Null, q))
        } else {
            Err(Fault::Invalid)
        },
    }
}

/// `#`: one byte, `t` or `f`.
pub open spec fn boolean_spec(b: Seq<u8>, p: int) -> Result<(Term, int), Fault> {
    if p < 0 || p >= b.len() {
        Err(Fault::End)
    } else if b[p] == 116u8 {
        Ok((Term::True, p + 1))
    } else if b[p] == 102u8 {
        Ok((Term::False, p + 1))
    } else {
        Err(Fault::Invalid)
    }
}

/// `,`: a line, `inf`, `-inf`, `nan` or the text of a float.
pub open spec fn double_spec(b: Seq<u8>, p: int) -> Result<(Term, int), Fault> {
    match read_line_spec(b, p) {
        Err(f) => Err(f),
        Ok((l, q)) => if l == inf_word() {
            Ok((Term::PositiveInfinity, q))
        } else if l == seq![45u8] + inf_word() {
            Ok((Term::NegativeInfinity, q))
        } else if l == nan_word() {
            Ok((Term::NaN, q))
        } else if valid_utf8(l) && float_syntax(l) {
            Ok((Term::Double(decode_utf8(l)), q))
        } else {
            Err(Fault::Invalid)
        },
    }
}

/// `(`: a line holding a sign and digits.
pub open spec fn big_number_spec(b: Seq<u8>, p: int) -> Result<(Term, int), Fault> {
    match read_line_spec(b, p) {
        Err(f) => Err(f),
        Ok((l, q)) => if valid_utf8(l) && big_number_syntax(l) {
            Ok((Term::BigNumber(decode_utf8(l)), q))
        } else {
            Err(Fault::Invalid)
        },
    }
}

/// Decoding one value at `pos`: the value and the position after it.
/// The deepest nesting of arrays, maps and sets that decoding accepts.
pub const MAX_DEPTH: u32 = 512;

/// Decoding one value at `pos`, with `d` more levels of arrays, maps and sets
/// allowed: the value and the position after it.
pub open spec fn parse_at(b: Seq<u8>, pos: int, d: int) -> Result<(Term, int), Fault>
    decreases rem(b, pos), 0int, 0int,
{
    if pos < 0 || pos >= b.len() {
        Err(Fault::End)
    } else {
        let p = pos + 1;
        let tag = b[pos];
        if tag == 43u8 || tag == 45u8 {
            match read_text_spec(b, p) {
                Ok((s, q)) => Ok(
                    (
                        if tag == 43u8 {
                            Term::SimpleString(s)
                        } else {
                            Term::Error(s)
                        },
                        q,
                    ),
                ),
                Err(f) => Err(f),
            }
        } else if tag == 58u8 {
            match read_integer_spec(b, p) {
                Ok((n, q)) => Ok((Term::Integer(n), q)),
                Err(f) => Err(f),
            }
        } else if tag == 42u8 || tag == 126u8 || tag == 37u8 {
            match read_integer_spec(b, p) {
                Err(f) => Err(f),
                Ok((n, q)) => if tag == 42u8 && n == -1 {
                    Ok((Term::Null, q))
                } else if d <= 0 {
                    Err(Fault::Invalid)
                } else {
                    proof {
                        lemma_read_line_advances(b, p);
                    }
                    if tag == 37u8 {
                        match parse_pairs(b, q, n as int, d - 1) {
                            Ok((ps, q2)) => Ok((Term::MapPairs(ps), q2)),
                            Err(f) => Err(f),
                        }
                    } else {
                        match parse_seq(b, q, n as int, d - 1) {
                            Ok((vs, q2)) => Ok(
                                (
                                    if tag == 42u8 {
                                        Term::Array(vs)
                                    } else {
                                        Term::SetItems(vs)
                                    },
                                    q2,
                                ),
                            ),
                            Err(f) => Err(f),
                        }
                    }
                },
            }
        } else if tag == 36u8 {
            bulk_string_spec(b, p)
        } else if tag == 95u8 {
            null_spec(b, p)
        } else if tag == 35u8 {
            boolean_spec(b, p)
        } else if tag == 44u8 {
            double_spec(b, p)
        } else if tag == 40u8 {
            big_number_spec(b, p)
        } else if tag == 33u8 {
            bulk_error_spec(b, p)
        } else if tag == 61u8 {
            verbatim_spec(b, p)
        } else {
            Err(Fault::Invalid)
        }
    }
}

/// Decoding `n` values one after the other from `pos`.
pub open spec fn parse_seq(b: Seq<u8>, pos: int, n: int, d: int) -> Result<(Seq<Term>, int), Fault>
    decreases rem(b, pos), 1int, n,
{
    if n <= 0 {
        Ok((Seq::empty(), pos))
    } else {
        match parse_seq(b, pos, n - 1, d) {
            Err(f) => Err(f),
            Ok((vs, p)) => if p < pos {
                Err(Fault::Invalid)
            } else {
                match parse_at(b, p, d) {
                    Ok((t, q)) => Ok((vs.push(t), q)),
                    Err(f) => Err(f),
                }
            },
        }
    }
}

/// Decoding `n` key-value pairs one after the other from `pos`.
pub open spec fn parse_pairs(b: Seq<u8>, pos: int, n: int, d: int) -> Result<(Seq<(Term, Term)>, int), Fault>
    decreases rem(b, pos), 1int, n,
{
    if n <= 0 {
        Ok((Seq::empty(), pos))
    } else {
        match parse_pairs(b, pos, n - 1, d) {
            Err(f) => Err(f),
            Ok((ps, p)) => if p < pos {
                Err(Fault::Invalid)
            } else {
                match parse_at(b, p, d) {
                    Err(f) => Err(f),
                    Ok((k, q)) => if q < p {
                        Err(Fault::Invalid)
                    } else {
                        match parse_at(b, q, d) {
                            Ok((v, r)) => Ok((ps.push((k, v)), r)),
                            Err(f) => Err(f),
                        }
                    },
                }
            },
        }
    }
}

/// Decoding the value at the start of `b`, nested at most `MAX_DEPTH` deep.
pub open spec fn decode(b: Seq<u8>) -> Result<Term, Fault> {
    match parse_at(b, 0, MAX_DEPTH as int) {
        Ok((t, _)) => Ok(t),
        Err(f) => Err(f),
    }
}

/// `r` is what `expected` describes, the reading having ended at `end`.
pub open spec fn outcome(
    r: Result<RespValue, Error>,
    expected: Result<(Term, int), Fault>,
    end: int,
) -> bool {
    match expected {
        Ok((t, q)) => r matches Ok(v) && v@ == t && end == q,
        Err(f) => r matches Err(e) && e.fault() == f,
    }
}

/// A byte that starts a RESP value.
pub open spec fn is_tag(b: u8) -> bool {
    b == 43u8 || b == 45u8 || b == 58u8 || b == 36u8 || b == 42u8 || b == 126u8 || b == 37u8 || b
        == 95u8 || b == 35u8 || b == 44u8 || b == 40u8 || b == 33u8 || b == 61u8
}

/// The message for a value that starts with a byte that is no tag: the byte's
/// decimal value, then what is wrong with it.
pub open spec fn first_byte_message(b: u8) -> Seq<char> {
    decode_utf8(nat_text(b as nat)) + " is an unexpected first byte"@
}

/// The message of a line after `:` that is not an integer.
pub open spec fn integer_diagnosed<T>(b: Seq<u8>, p: int, r: Result<T, Error>) -> bool {
    match read_line_spec(b, p) {
        Ok((l, _)) => parse_i64_spec(l) is None ==> fails_with(
            r,
            if valid_utf8(l) {
                "is not a valid integer"@
            } else {
                "is not a valid UTF-8 sequence"@
            },
        ),
        Err(_) => true,
    }
}

/// The message of a line after `,` that is no double.
pub open spec fn double_diagnosed<T>(b: Seq<u8>, p: int, r: Result<T, Error>) -> bool {
    match read_line_spec(b, p) {
        Ok((l, _)) => l != inf_word() && l != seq![45u8] + inf_word() && l != nan_word() && !(
        valid_utf8(l) && float_syntax(l)) ==> fails_with(r, "is an invalid double"@),
        Err(_) => true,
    }
}

/// The message of a line of text after `(` that is no big number.
pub open spec fn big_number_diagnosed<T>(b: Seq<u8>, p: int, r: Result<T, Error>) -> bool {
    match read_line_spec(b, p) {
        Ok((l, _)) => valid_utf8(l) && !big_number_syntax(l) ==> fails_with(
            r,
            "is an invalid big number"@,
        ),
        Err(_) => true,
    }
}

/// The message of a payload after `=` without `:` at offset 3.
pub open spec fn verbatim_diagnosed<T>(b: Seq<u8>, p: int, r: Result<T, Error>) -> bool {
    match read_integer_spec(b, p) {
        Ok((n, q)) => match read_counted_spec(b, q, n) {
            Ok((data, _)) => data.len() < 4 || data[3] != 58u8 ==> fails_with(
                r,
                "is an invalid verbatim string"@,
            ),
            Err(_) => true,
        },
        Err(_) => true,
    }
}

/// The diagnostic that decoding at `pos` gives, where the value's tag says.
pub open spec fn diagnosed<T>(b: Seq<u8>, pos: int, r: Result<T, Error>) -> bool {
    0 <= pos < b.len() ==> {
        let tag = b[pos];
        &&& !is_tag(tag) ==> (r matches Err(Error::InvalidInput(m)) && m@ == first_byte_message(
            tag,
        ))
        &&& tag == 58u8 ==> integer_diagnosed(b, pos + 1, r)
        &&& tag == 44u8 ==> double_diagnosed(b, pos + 1, r)
        &&& tag == 40u8 ==> big_number_diagnosed(b, pos + 1, r)
        &&& tag == 61u8 ==> verbatim_diagnosed(b, pos + 1, r)
    }
}

/// The message naming a byte that starts no value.
fn first_byte_error(tag: u8) -> (r: Error)
    ensures
        r matches Error::InvalidInput(m) && m@ == first_byte_message(tag),
{
    let mut digits: Vec<u8> = Vec::new();
    push_nat(&mut digits, tag as u128);
    proof {
        assert(digits@ =~= nat_text(tag as nat));
        lemma_int_text_round_trip(tag as i64);
        lemma_integer_text_is_utf8(nat_text(tag as nat));
    }
    let mut m = match decode_text(digits.as_slice()) {
        Some(s) => s,
        None => String::new(),
    };
    proof {
        encode_utf8_decode_utf8(m@);
    }
    m.append(" is an unexpected first byte");
    Error::InvalidInput(m)
}

/// Reads as many bytes as a decoded length says.
fn read_counted<'a>(cursor: &mut Cursor<'a>, n: i64) -> (r: Result<&'a [u8], Error>)
    requires
        old(cursor).wf(),
    ensures
        final(cursor).wf(),
        final(cursor).data() == old(cursor).data(),
        final(cursor).pos() >= old(cursor).pos(),
        match read_counted_spec(old(cursor).data(), old(cursor).pos(), n) {
            Ok((bytes, p)) => r matches Ok(s) && s@ == bytes && final(cursor).pos() == p,
            Err(f) => r matches Err(e) && e.fault() == f,
        },
{
    if n < 0 {
        let v = vec![45u8];
        return Err(invalid(v.as_slice(), "is a negative length"));
    }
    if n as u64 > usize::MAX as u64 {
        return Err(Error::UnexpectedEOF);
    }
    cursor.read(n as usize)
}

fn invalid(bytes: &[u8], problem: &str) -> (r: Error)
    ensures
        r matches Error::InvalidInput(m) && ends_with(m@, problem@),
{
    Error::InvalidInput(diagnostic(bytes, problem))
}

fn parse_bulk_string(cursor: &mut Cursor) -> (r: Result<RespValue, Error>)
    requires
        old(cursor).wf(),
    ensures
        final(cursor).wf(),
        final(cursor).data() == old(cursor).data(),
        final(cursor).pos() >= old(cursor).pos(),
        outcome(r, bulk_string_spec(old(cursor).data(), old(cursor).pos()), final(cursor).pos()),
{
    let n = cursor.read_integer()?;
    if n == -1 {
        return Ok(RespValue::NullBulkString);
    }
    let data = read_counted(cursor, n)?;
    let text = match decode_text(data) {
        Some(s) => s,
        None => {
            return Err(invalid(data, "is not a valid UTF-8 sequence"));
        },
    };
    let end = cursor.read(2)?;
    if end[0] != 13u8 || end[1] != 10u8 {
        assert(end@ != crlf());
        return Err(invalid(end, "are unexpected bytes after a bulk string"));
    }
    proof {
        assert(end@ =~= crlf());
        encode_utf8_decode_utf8(text@);
    }
    Ok(RespValue::BulkString(text))
}

fn parse_bulk_error(cursor: &mut Cursor) -> (r: Result<RespValue, Error>)
    requires
        old(cursor).wf(),
    ensures
        final(cursor).wf(),
        final(cursor).data() == old(cursor).data(),
        final(cursor).pos() >= old(cursor).pos(),
        outcome(r, bulk_error_spec(old(cursor).data(), old(cursor).pos()), final(cursor).pos()),
{
    let n = cursor.read_integer()?;
    let data = read_counted(cursor, n)?;
    match decode_text(data) {
        Some(s) => {
            proof {
                encode_utf8_decode_utf8(s@);
            }
            Ok(RespValue::BulkError(s))
        },
        None => Err(invalid(data, "is not a valid UTF-8 sequence")),
    }
}

fn parse_verbatim(cursor: &mut Cursor) -> (r: Result<RespValue, Error>)
    requires
        old(cursor).wf(),
    ensures
        final(cursor).wf(),
        final(cursor).data() == old(cursor).data(),
        final(cursor).pos() >= old(cursor).pos(),
        outcome(r, verbatim_spec(old(cursor).data(), old(cursor).pos()), final(cursor).pos()),
        verbatim_diagnosed(old(cursor).data(), old(cursor).pos(), r),
{
    let n = cursor.read_integer()?;
    let data = read_counted(cursor, n)?;
    if data.len() < 4 || data[3] != 58u8 {
        return Err(invalid(data, "is an invalid verbatim string"));
    }
    let tag = match decode_text(vstd::slice::slice_subrange(data, 0, 3)) {
        Some(s) => s,
        None => {
            return Err(invalid(data, "holds an invalid encoding"));
        },
    };
    let text = match decode_text(vstd::slice::slice_subrange(data, 4, data.len())) {
        Some(s) => s,
        None => {
            return Err(invalid(data, "is not a valid UTF-8 sequence"));
        },
    };
    proof {
        encode_utf8_decode_utf8(tag@);
        encode_utf8_decode_utf8(text@);
    }
    Ok(RespValue::VerbatimString(tag, text))
}

fn parse_null(cursor: &mut Cursor) -> (r: Result<RespValue, Error>)
    requires
        old(cursor).wf(),
    ensures
        final(cursor).wf(),
        final(cursor).data() == old(cursor).data(),
        final(cursor).pos() >= old(cursor).pos(),
        outcome(r, null_spec(old(cursor).data(), old(cursor).pos()), final(cursor).pos()),
{
    let end = cursor.read(2)?;
    if end[0] != 13u8 || end[1] != 10u8 {
        assert(end@ != crlf());
        return Err(invalid(end, "are unexpected bytes after null"));
    }
    assert(end@ =~= crlf());
    Ok(RespValue::Null)
}

fn parse_boolean(cursor: &mut Cursor) -> (r: Result<RespValue, Error>)
    requires
        old(cursor).wf(),
    ensures
        final(cursor).wf(),
        final(cursor).data() == old(cursor).data(),
        final(cursor).pos() >= old(cursor).pos(),
        outcome(r, boolean_spec(old(cursor).data(), old(cursor).pos()), final(cursor).pos()),
{
    let b = cursor.read_byte()?;
    if b == 116u8 {
        Ok(RespValue::True)
    } else if b == 102u8 {
        Ok(RespValue::False)
    } else {
        let v = vec![b];
        Err(invalid(v.as_slice(), "is an unexpected byte after #"))
    }
}

fn parse_double(cursor: &mut Cursor) -> (r: Result<RespValue, Error>)
    requires
        old(cursor).wf(),
    ensures
        final(cursor).wf(),
        final(cursor).data() == old(cursor).data(),
        final(cursor).pos() >= old(cursor).pos(),
        outcome(r, double_spec(old(cursor).data(), old(cursor).pos()), final(cursor).pos()),
        double_diagnosed(old(cursor).data(), old(cursor).pos(), r),
{
    let l = cursor.read_line()?;
    if l.len() == 3 && l[0] == 105u8 && l[1] == 110u8 && l[2] == 102u8 {
        assert(l@ =~= inf_word());
        return Ok(RespValue::PositiveInfinity);
    }
    assert(l@ != inf_word());
    if l.len() == 4 && l[0] == 45u8 && l[1] == 105u8 && l[2] == 110u8 && l[3] == 102u8 {
        assert(l@ =~= seq![45u8] + inf_word());
        return Ok(RespValue::NegativeInfinity);
    }
    assert(l@ != seq![45u8] + inf_word());
    if l.len() == 3 && l[0] == 110u8 && l[1] == 97u8 && l[2] == 110u8 {
        assert(l@ =~= nan_word());
        return Ok(RespValue::NaN);
    }
    assert(l@ != nan_word());
    let text = match decode_text(l) {
        Some(s) => s,
        None => {
            return Err(invalid(l, "is an invalid double"));
        },
    };
    if !is_float_text(l) {
        return Err(invalid(l, "is an invalid double"));
    }
    proof {
        encode_utf8_decode_utf8(text@);
    }
    Ok(RespValue::Double(text))
}

fn parse_big_number(cursor: &mut Cursor) -> (r: Result<RespValue, Error>)
    requires
        old(cursor).wf(),
    ensures
        final(cursor).wf(),
        final(cursor).data() == old(cursor).data(),
        final(cursor).pos() >= old(cursor).pos(),
        outcome(r, big_number_spec(old(cursor).data(), old(cursor).pos()), final(cursor).pos()),
        big_number_diagnosed(old(cursor).data(), old(cursor).pos(), r),
{
    let l = cursor.read_line()?;
    let text = match decode_text(l) {
        Some(s) => s,
        None => {
            return Err(invalid(l, "is not a valid UTF-8 sequence"));
        },
    };
    if !is_big_number_text(l) {
        return Err(invalid(l, "is an invalid big number"));
    }
    proof {
        encode_utf8_decode_utf8(text@);
    }
    Ok(RespValue::BigNumber(text))
}

proof fn lemma_parse_seq_err(b: Seq<u8>, pos: int, k: int, m: int, d: int)
    requires
        0 < k <= m,
        parse_seq(b, pos, k, d) is Err,
    ensures
        parse_seq(b, pos, m, d) == parse_seq(b, pos, k, d),
    decreases m - k,
{
    if m > k {
        lemma_parse_seq_err(b, pos, k, m - 1, d);
    }
}

proof fn lemma_parse_pairs_err(b: Seq<u8>, pos: int, k: int, m: int, d: int)
    requires
        0 < k <= m,
        parse_pairs(b, pos, k, d) is Err,
    ensures
        parse_pairs(b, pos, m, d) == parse_pairs(b, pos, k, d),
    decreases m - k,
{
    if m > k {
        lemma_parse_pairs_err(b, pos, k, m - 1, d);
    }
}

/// Decodes `n` values one after the other.
fn parse_items(cursor: &mut Cursor, n: i64, depth: u32) -> (r: Result<Vec<RespValue>, Error>)
    requires
        old(cursor).wf(),
    ensures
        final(cursor).wf(),
        final(cursor).data() == old(cursor).data(),
        final(cursor).pos() >= old(cursor).pos(),
        match parse_seq(old(cursor).data(), old(cursor).pos(), n as int, depth as int) {
            Ok((vs, q)) => r matches Ok(items) && views(items@) == vs && final(cursor).pos() == q,
            Err(f) => r matches Err(e) && e.fault() == f,
        },
    decreases old(cursor).data().len() - old(cursor).pos(), 1int,
{
    let ghost b = cursor.data();
    let ghost start = cursor.pos();
    let mut items: Vec<RespValue> = Vec::new();
    let mut i: i64 = 0;
    while i < n
        invariant
            cursor.wf(),
            cursor.data() == b,
            b == old(cursor).data(),
            start == old(cursor).pos(),
            start <= cursor.pos(),
            0 <= i,
            i <= n || i == 0,
            parse_seq(b, start, i as int, depth as int) == Ok::<(Seq<Term>, int), Fault>(
                (views(items@), cursor.pos()),
            ),
        decreases n - i,
    {
        let ghost before = items@;
        match parse_value(cursor, depth) {
            Ok(v) => {
                items.push(v);
                proof {
                    assert(items@.drop_last() =~= before);
                }
            },
            Err(e) => {
                proof {
                    lemma_parse_seq_err(b, start, i + 1, n as int, depth as int);
                }
                return Err(e);
            },
        }
        i = i + 1;
    }
    Ok(items)
}

/// Decodes `n` key-value pairs one after the other.
fn parse_pair_items(cursor: &mut Cursor, n: i64, depth: u32) -> (r: Result<
    Vec<(RespValue, RespValue)>,
    Error,
>)
    requires
        old(cursor).wf(),
    ensures
        final(cursor).wf(),
        final(cursor).data() == old(cursor).data(),
        final(cursor).pos() >= old(cursor).pos(),
        match parse_pairs(old(cursor).data(), old(cursor).pos(), n as int, depth as int) {
            Ok((ps, q)) => r matches Ok(items) && pair_views(items@) == ps && final(cursor).pos()
                == q,
            Err(f) => r matches Err(e) && e.fault() == f,
        },
    decreases old(cursor).data().len() - old(cursor).pos(), 1int,
{
    let ghost b = cursor.data();
    let ghost start = cursor.pos();
    let mut items: Vec<(RespValue, RespValue)> = Vec::new();
    let mut i: i64 = 0;
    while i < n
        invariant
            cursor.wf(),
            cursor.data() == b,
            b == old(cursor).data(),
            start == old(cursor).pos(),
            start <= cursor.pos(),
            0 <= i,
            i <= n || i == 0,
            parse_pairs(b, start, i as int, depth as int) == Ok::<(Seq<(Term, Term)>, int), Fault>(
                (pair_views(items@), cursor.pos()),
            ),
        decreases n - i,
    {
        let ghost before = items@;
        let key = match parse_value(cursor, depth) {
            Ok(k) => k,
            Err(e) => {
                proof {
                    lemma_parse_pairs_err(b, start, i + 1, n as int, depth as int);
                }
                return Err(e);
            },
        };
        let value = match parse_value(cursor, depth) {
            Ok(v) => v,
            Err(e) => {
                proof {
                    lemma_parse_pairs_err(b, start, i + 1, n as int, depth as int);
                }
                return Err(e);
            },
        };
        items.push((key, value));
        proof {
            assert(items@.drop_last() =~= before);
        }
        i = i + 1;
    }
    Ok(items)
}

/// Decodes one value at the cursor.
fn parse_value(cursor: &mut Cursor, depth: u32) -> (r: Result<RespValue, Error>)
    requires
        old(cursor).wf(),
    ensures
        final(cursor).wf(),
        final(cursor).data() == old(cursor).data(),
        final(cursor).pos() >= old(cursor).pos(),
        outcome(
            r,
            parse_at(old(cursor).data(), old(cursor).pos(), depth as int),
            final(cursor).pos(),
        ),
        r is Ok ==> final(cursor).pos() > old(cursor).pos(),
        diagnosed(old(cursor).data(), old(cursor).pos(), r),
    decreases old(cursor).data().len() - old(cursor).pos(), 0int,
{
    let tag = cursor.read_byte()?;
    if tag == 43u8 || tag == 45u8 {
        let s = cursor.read_string()?;
        Ok(
            if tag == 43u8 {
                RespValue::SimpleString(s)
            } else {
                RespValue::Error(s)
            },
        )
    } else if tag == 58u8 {
        let n = cursor.read_integer()?;
        Ok(RespValue::Integer(n))
    } else if tag == 42u8 || tag == 126u8 || tag == 37u8 {
        let ghost p = cursor.pos();
        let n = cursor.read_integer()?;
        if tag == 42u8 && n == -1 {
            return Ok(RespValue::Null);
        }
        if depth == 0 {
            let v = vec![tag];
            return Err(invalid(v.as_slice(), "is nested deeper than the decoding limit"));
        }
        proof {
            lemma_read_line_advances(cursor.data(), p);
        }
        if tag == 37u8 {
            let ps = parse_pair_items(cursor, n, depth - 1)?;
            Ok(RespValue::MapPairs(ps))
        } else {
            let vs = parse_items(cursor, n, depth - 1)?;
            Ok(
                if tag == 42u8 {
                    RespValue::Array(vs)
                } else {
                    RespValue::SetItems(vs)
                },
            )
        }
    } else if tag == 36u8 {
        parse_bulk_string(cursor)
    } else if tag == 95u8 {
        parse_null(cursor)
    } else if tag == 35u8 {
        parse_boolean(cursor)
    } else if tag == 44u8 {
        parse_double(cursor)
    } else if tag == 40u8 {
        parse_big_number(cursor)
    } else if tag == 33u8 {
        parse_bulk_error(cursor)
    } else if tag == 61u8 {
        parse_verbatim(cursor)
    } else {
        Err(first_byte_error(tag))
    }
}

/// Decodes the value at the start of `input`.
pub fn parse(input: &[u8]) -> (r: Result<RespValue, Error>)
    ensures
        match decode(input@) {
            Ok(t) => r matches Ok(v) && v@ == t,
            Err(f) => r matches Err(e) && e.fault() == f,
        },
        diagnosed(input@, 0, r),
{
    let mut cursor = Cursor::new(input);
    parse_value(&mut cursor, MAX_DEPTH)
}

/// Decodes the value at the start of `input`, with the number of bytes that
/// decoding it took.
pub fn parse_prefix(input: &[u8]) -> (r: Result<(RespValue, usize), Error>)
    ensures
        match parse_at(input@, 0, MAX_DEPTH as int) {
            Ok((t, q)) => r matches Ok((v, n)) && v@ == t && n == q && 0 < n <= input@.len(),
            Err(f) => r matches Err(e) && e.fault() == f,
        },
{
    let mut cursor = Cursor::new(input);
    let v = parse_value(&mut cursor, MAX_DEPTH)?;
    Ok((v, cursor.position()))
}

} // verus!
