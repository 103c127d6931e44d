use crate::cursor::{
    Fault, crlf_at, lemma_find_crlf_first, read_integer_spec, read_line_spec, read_spec,
    read_text_spec,
};
use crate::decimal::{int_text, is_digit, lemma_int_text_round_trip, lemma_nat_text, nat_text};
use crate::resp::{
    MAX_DEPTH, Term, boolean_spec, bulk_error_spec, bulk_string_spec, crlf, decode, double_spec, encode,
    encode_all, encode_pairs, line, null_spec, parse_at, parse_pairs, parse_seq, verbatim_spec,
    big_number_spec,
};
use crate::commands::{interpret, is_word};
use crate::syntax::{big_number_syntax, float_syntax, inf_word, nan_word};
use vstd::prelude::*;
use vstd::utf8::*;

verus! {

broadcast use {encode_utf8_valid_utf8, encode_utf8_decode_utf8};

/// No CR LF pair anywhere in `s`.
pub open spec fn no_crlf(s: Seq<u8>) -> bool {
    forall|i: int| !#[trigger] crlf_at(s, i)
}

/// Decoding stops two bytes short of the encoding: after `#t`, `#f`, a bulk
/// error or a verbatim string, or an aggregate whose last element is one.
pub open spec fn open_ended(t: Term) -> bool
    decreases t,
{
    match t {
        Term::True => true,
        Term::False => true,
        Term::BulkError(_) => true,
        Term::VerbatimString(_, _) => true,
        Term::Array(vs) => vs.len() > 0 && open_ended(vs.last()),
        Term::SetItems(vs) => vs.len() > 0 && open_ended(vs.last()),
        Term::MapPairs(ps) => ps.len() > 0 && open_ended(ps.last().1),
        _ => false,
    }
}

/// Every payload is one its encoding can carry: line-framed text holds no
/// CR LF, a big number and a double hold valid text (a double not the text of
/// the three special values), a verbatim tag is three bytes long, and counts
/// and lengths fit an `i64`.
pub open spec fn well_formed(t: Term) -> bool
    decreases t,
{
    match t {
        Term::Array(vs) => vs.len() <= i64::MAX && items_well_formed(vs),
        Term::SetItems(vs) => vs.len() <= i64::MAX && items_well_formed(vs),
        Term::MapPairs(ps) => ps.len() <= i64::MAX && pairs_well_formed(ps),
        Term::BigNumber(s) => no_crlf(encode_utf8(s)) && big_number_syntax(encode_utf8(s)),
        Term::BulkError(s) => encode_utf8(s).len() <= i64::MAX,
        Term::BulkString(s) => encode_utf8(s).len() <= i64::MAX,
        Term::Double(s) => {
            let b = encode_utf8(s);
            no_crlf(b) && float_syntax(b) && b != inf_word() && b != seq![45u8] + inf_word() && b
                != nan_word()
        },
        Term::Error(s) => no_crlf(encode_utf8(s)),
        Term::SimpleString(s) => no_crlf(encode_utf8(s)),
        Term::VerbatimString(e, s) => encode_utf8(e).len() == 3 && 4 + encode_utf8(s).len()
            <= i64::MAX,
        _ => true,
    }
}

pub open spec fn items_well_formed(vs: Seq<Term>) -> bool
    decreases vs,
{
    if vs.len() == 0 {
        true
    } else {
        items_well_formed(vs.drop_last()) && well_formed(vs.last())
    }
}

pub open spec fn pairs_well_formed(ps: Seq<(Term, Term)>) -> bool
    decreases ps,
{
    if ps.len() == 0 {
        true
    } else {
        pairs_well_formed(ps.drop_last()) && well_formed(ps.last().0) && well_formed(
            ps.last().1,
        )
    }
}

/// No open-ended element is followed by another element, at any depth.
pub open spec fn framed(t: Term) -> bool
    decreases t,
{
    match t {
        Term::Array(vs) => items_framed(vs),
        Term::SetItems(vs) => items_framed(vs),
        Term::MapPairs(ps) => pairs_framed(ps),
        _ => true,
    }
}

pub open spec fn items_framed(vs: Seq<Term>) -> bool
    decreases vs,
{
    if vs.len() == 0 {
        true
    } else {
        items_framed(vs.drop_last()) && framed(vs.last()) && (vs.len() == 1 || !open_ended(
            vs.drop_last().last(),
        ))
    }
}

pub open spec fn pairs_framed(ps: Seq<(Term, Term)>) -> bool
    decreases ps,
{
    if ps.len() == 0 {
        true
    } else {
        pairs_framed(ps.drop_last()) && framed(ps.last().0) && framed(ps.last().1) && !open_ended(
            ps.last().0,
        ) && (ps.len() == 1 || !open_ended(ps.drop_last().last().1))
    }
}

/// Arrays, maps and sets nest at most `d` deep.
pub open spec fn depth_within(t: Term, d: int) -> bool
    decreases t,
{
    match t {
        Term::Array(vs) => d > 0 && items_within(vs, d - 1),
        Term::SetItems(vs) => d > 0 && items_within(vs, d - 1),
        Term::MapPairs(ps) => d > 0 && pairs_within(ps, d - 1),
        _ => true,
    }
}

pub open spec fn items_within(vs: Seq<Term>, d: int) -> bool
    decreases vs,
{
    if vs.len() == 0 {
        true
    } else {
        items_within(vs.drop_last(), d) && depth_within(vs.last(), d)
    }
}

pub open spec fn pairs_within(ps: Seq<(Term, Term)>, d: int) -> bool
    decreases ps,
{
    if ps.len() == 0 {
        true
    } else {
        pairs_within(ps.drop_last(), d) && depth_within(ps.last().0, d) && depth_within(
            ps.last().1,
            d,
        )
    }
}

/// `x` stands in `b` at `pos`.
pub open spec fn at(b: Seq<u8>, pos: int, x: Seq<u8>) -> bool {
    0 <= pos && pos + x.len() <= b.len() && b.subrange(pos, pos + x.len()) == x
}

proof fn lemma_at_split(b: Seq<u8>, pos: int, x: Seq<u8>, y: Seq<u8>)
    requires
        at(b, pos, x + y),
    ensures
        at(b, pos, x),
        at(b, pos + x.len(), y),
{
    let whole = b.subrange(pos, pos + (x + y).len());
    assert(whole == x + y);
    assert(b.subrange(pos, pos + x.len()) =~= whole.subrange(0, x.len() as int));
    assert(whole.subrange(0, x.len() as int) =~= x);
    assert(b.subrange(pos + x.len(), pos + x.len() + y.len()) =~= whole.subrange(
        x.len() as int,
        whole.len() as int,
    ));
    assert(whole.subrange(x.len() as int, whole.len() as int) =~= y);
}

proof fn lemma_at_read(b: Seq<u8>, pos: int, x: Seq<u8>)
    requires
        at(b, pos, x),
    ensures
        read_spec(b, pos, x.len() as int) == Ok::<(Seq<u8>, int), Fault>((x, pos + x.len())),
{
}

proof fn lemma_at_line(b: Seq<u8>, pos: int, c: Seq<u8>)
    requires
        at(b, pos, line(c)),
        no_crlf(c),
    ensures
        read_line_spec(b, pos) == Ok::<(Seq<u8>, int), Fault>((c, pos + c.len() + 2)),
{
    let n = c.len() as int;
    lemma_at_split(b, pos, c, crlf());
    assert(b[pos + n] == 13u8 && b[pos + n + 1] == 10u8) by {
        assert(b.subrange(pos + n, pos + n + 2)[0] == b[pos + n]);
        assert(b.subrange(pos + n, pos + n + 2)[1] == b[pos + n + 1]);
    }
    assert forall|j: int| pos <= j < pos + n implies !#[trigger] crlf_at(b, j) by {
        assert(b[j] == c[j - pos]);
        if j + 1 < pos + n {
            assert(b[j + 1] == c[j - pos + 1]);
            assert(!crlf_at(c, j - pos));
        }
    }
    lemma_find_crlf_first(b, pos, pos + n);
}

proof fn lemma_digits_no_crlf(s: Seq<u8>)
    requires
        forall|i: int| 0 <= i < s.len() ==> is_digit(#[trigger] s[i]) || s[i] == 45u8,
    ensures
        no_crlf(s),
{
    assert forall|i: int| !#[trigger] crlf_at(s, i) by {
        if 0 <= i < s.len() {
            assert(is_digit(s[i]) || s[i] == 45u8);
        }
    }
}

proof fn lemma_at_integer(b: Seq<u8>, pos: int, n: i64)
    requires
        at(b, pos, line(int_text(n as int))),
    ensures
        read_integer_spec(b, pos) == Ok::<(i64, int), Fault>(
            (n, pos + int_text(n as int).len() + 2),
        ),
{
    let t = int_text(n as int);
    if n < 0 {
        lemma_nat_text((-n) as nat);
        assert forall|i: int| 0 <= i < t.len() implies is_digit(#[trigger] t[i]) || t[i] == 45u8 by {
            if i > 0 {
                assert(t[i] == nat_text((-n) as nat)[i - 1]);
            }
        }
    } else {
        lemma_nat_text(n as nat);
        assert forall|i: int| 0 <= i < t.len() implies is_digit(#[trigger] t[i]) || t[i] == 45u8 by {
            assert(is_digit(nat_text(n as nat)[i]));
        }
    }
    lemma_digits_no_crlf(t);
    lemma_at_line(b, pos, t);
    lemma_int_text_round_trip(n);
}

proof fn lemma_at_count(b: Seq<u8>, pos: int, k: nat)
    requires
        at(b, pos, line(nat_text(k))),
        k <= i64::MAX,
    ensures
        read_integer_spec(b, pos) == Ok::<(i64, int), Fault>(
            (k as i64, pos + nat_text(k).len() + 2),
        ),
{
    assert(int_text(k as i64 as int) == nat_text(k));
    lemma_at_integer(b, pos, k as i64);
}

proof fn lemma_at_text(b: Seq<u8>, pos: int, s: Seq<char>)
    requires
        at(b, pos, line(encode_utf8(s))),
        no_crlf(encode_utf8(s)),
    ensures
        read_text_spec(b, pos) == Ok::<(Seq<char>, int), Fault>(
            (s, pos + encode_utf8(s).len() + 2),
        ),
{
    lemma_at_line(b, pos, encode_utf8(s));
}

proof fn lemma_at_tag(b: Seq<u8>, pos: int, tag: u8, rest: Seq<u8>)
    requires
        at(b, pos, seq![tag] + rest),
    ensures
        0 <= pos < b.len(),
        b[pos] == tag,
        at(b, pos + 1, rest),
{
    lemma_at_split(b, pos, seq![tag], rest);
    assert(b.subrange(pos, pos + 1)[0] == b[pos]);
}

proof fn lemma_word_no_crlf(w: Seq<u8>)
    requires
        forall|i: int| 0 <= i < w.len() ==> #[trigger] w[i] != 13u8,
    ensures
        no_crlf(w),
{
    assert forall|i: int| !#[trigger] crlf_at(w, i) by {
        if 0 <= i < w.len() {
            assert(w[i] != 13u8);
        }
    }
}

/// Decoding the encoding of a term that holds no other terms.
proof fn lemma_parse_scalar(t: Term, b: Seq<u8>, pos: int, d: int)
    requires
        !(t is Array || t is SetItems || t is MapPairs),
        well_formed(t),
        at(b, pos, encode(t)),
    ensures
        parse_at(b, pos, d) == Ok::<(Term, int), Fault>(
            (
                t,
                pos + encode(t).len() - if open_ended(t) {
                    2int
                } else {
                    0int
                },
            ),
        ),
{
    let p = pos + 1;
    match t {
        Term::SimpleString(s) => {
            lemma_at_tag(b, pos, 43u8, line(encode_utf8(s)));
            lemma_at_text(b, p, s);
        },
        Term::Error(s) => {
            lemma_at_tag(b, pos, 45u8, line(encode_utf8(s)));
            lemma_at_text(b, p, s);
        },
        Term::Integer(n) => {
            lemma_at_tag(b, pos, 58u8, line(int_text(n as int)));
            lemma_at_integer(b, p, n);
        },
        Term::BulkString(s) => {
            let d = encode_utf8(s);
            let nt = nat_text(d.len());
            lemma_at_split(b, pos, seq![36u8] + line(nt), line(d));
            lemma_at_tag(b, pos, 36u8, line(nt));
            lemma_at_count(b, p, d.len());
            let q = p + nt.len() + 2;
            lemma_at_split(b, q, d, crlf());
            lemma_at_read(b, q, d);
            lemma_at_read(b, q + d.len(), crlf());
            assert(bulk_string_spec(b, p) == Ok::<(Term, int), Fault>(
                (t, q + d.len() + 2),
            ));
        },
        Term::BulkError(s) => {
            let d = encode_utf8(s);
            let nt = nat_text(d.len());
            lemma_at_split(b, pos, seq![33u8] + line(nt), line(d));
            lemma_at_tag(b, pos, 33u8, line(nt));
            lemma_at_count(b, p, d.len());
            let q = p + nt.len() + 2;
            lemma_at_split(b, q, d, crlf());
            lemma_at_read(b, q, d);
            assert(bulk_error_spec(b, p) == Ok::<(Term, int), Fault>((t, q + d.len())));
        },
        Term::VerbatimString(e, s) => {
            let x = encode_utf8(e) + seq![58u8] + encode_utf8(s);
            let nt = nat_text(encode_utf8(e).len() + 1 + encode_utf8(s).len());
            lemma_at_split(b, pos, seq![61u8] + line(nt), line(x));
            lemma_at_tag(b, pos, 61u8, line(nt));
            lemma_at_count(b, p, x.len());
            let q = p + nt.len() + 2;
            lemma_at_split(b, q, x, crlf());
            lemma_at_read(b, q, x);
            assert(x[3] == 58u8);
            assert(x.subrange(0, 3) =~= encode_utf8(e));
            assert(x.subrange(4, x.len() as int) =~= encode_utf8(s));
            assert(verbatim_spec(b, p) == Ok::<(Term, int), Fault>((t, q + x.len())));
        },
        Term::Null => {
            assert(encode(t) =~= seq![95u8] + crlf());
            lemma_at_tag(b, pos, 95u8, crlf());
            lemma_at_read(b, p, crlf());
            assert(null_spec(b, p) == Ok::<(Term, int), Fault>((t, p + 2)));
        },
        Term::NullBulkString => {
            assert(int_text(-1) =~= seq![45u8, 49u8]);
            assert(encode(t) =~= seq![36u8] + line(int_text(-1)));
            lemma_at_tag(b, pos, 36u8, line(int_text(-1)));
            lemma_at_integer(b, p, -1i64);
        },
        Term::True => {
            assert(encode(t) =~= seq![35u8] + seq![116u8, 13u8, 10u8]);
            lemma_at_tag(b, pos, 35u8, seq![116u8, 13u8, 10u8]);
            assert(seq![116u8, 13u8, 10u8] =~= seq![116u8] + seq![13u8, 10u8]);
            lemma_at_tag(b, p, 116u8, seq![13u8, 10u8]);
            assert(boolean_spec(b, p) == Ok::<(Term, int), Fault>((t, p + 1)));
        },
        Term::False => {
            assert(encode(t) =~= seq![35u8] + seq![102u8, 13u8, 10u8]);
            lemma_at_tag(b, pos, 35u8, seq![102u8, 13u8, 10u8]);
            assert(seq![102u8, 13u8, 10u8] =~= seq![102u8] + seq![13u8, 10u8]);
            lemma_at_tag(b, p, 102u8, seq![13u8, 10u8]);
            assert(boolean_spec(b, p) == Ok::<(Term, int), Fault>((t, p + 1)));
        },
        Term::Double(s) => {
            let d = encode_utf8(s);
            lemma_at_tag(b, pos, 44u8, line(d));
            lemma_at_line(b, p, d);
            assert(double_spec(b, p) == Ok::<(Term, int), Fault>((t, p + d.len() + 2)));
        },
        Term::NaN => {
            assert(encode(t) =~= seq![44u8] + line(nan_word()));
            lemma_at_tag(b, pos, 44u8, line(nan_word()));
            lemma_word_no_crlf(nan_word());
            lemma_at_line(b, p, nan_word());
            assert(nan_word() != inf_word());
            assert(double_spec(b, p) == Ok::<(Term, int), Fault>((t, p + 5)));
        },
        Term::PositiveInfinity => {
            assert(encode(t) =~= seq![44u8] + line(inf_word()));
            lemma_at_tag(b, pos, 44u8, line(inf_word()));
            lemma_word_no_crlf(inf_word());
            lemma_at_line(b, p, inf_word());
            assert(double_spec(b, p) == Ok::<(Term, int), Fault>((t, p + 5)));
        },
        Term::NegativeInfinity => {
            let w = seq![45u8] + inf_word();
            assert(encode(t) =~= seq![44u8] + line(w));
            lemma_at_tag(b, pos, 44u8, line(w));
            lemma_word_no_crlf(w);
            lemma_at_line(b, p, w);
            assert(w.len() != inf_word().len());
            assert(double_spec(b, p) == Ok::<(Term, int), Fault>((t, p + 6)));
        },
        Term::BigNumber(s) => {
            let d = encode_utf8(s);
            lemma_at_tag(b, pos, 40u8, line(d));
            lemma_at_line(b, p, d);
            assert(big_number_spec(b, p) == Ok::<(Term, int), Fault>((t, p + d.len() + 2)));
        },
        _ => {},
    }
}

/// How many bytes short of an encoding its decoding stops.
pub open spec fn shortfall(t: Term) -> int {
    if open_ended(t) {
        2
    } else {
        0
    }
}

/// Decoding the encoding of a well-formed, framed term, wherever it stands,
/// gives the term back and stops at its end (two bytes short where the term
/// is open-ended).
pub proof fn lemma_parse_encoding(t: Term, b: Seq<u8>, pos: int, d: int)
    requires
        depth_within(t, d),
        well_formed(t),
        framed(t),
        at(b, pos, encode(t)),
    ensures
        parse_at(b, pos, d) == Ok::<(Term, int), Fault>((t, pos + encode(t).len() - shortfall(t))),
    decreases t,
{
    let p = pos + 1;
    match t {
        Term::Array(vs) => {
            let nt = nat_text(vs.len());
            lemma_at_split(b, pos, seq![42u8] + line(nt), encode_all(vs));
            lemma_at_tag(b, pos, 42u8, line(nt));
            lemma_at_count(b, p, vs.len());
            let q = p + nt.len() + 2;
            lemma_parse_items(vs, b, q, d - 1);
        },
        Term::SetItems(vs) => {
            let nt = nat_text(vs.len());
            lemma_at_split(b, pos, seq![126u8] + line(nt), encode_all(vs));
            lemma_at_tag(b, pos, 126u8, line(nt));
            lemma_at_count(b, p, vs.len());
            let q = p + nt.len() + 2;
            lemma_parse_items(vs, b, q, d - 1);
        },
        Term::MapPairs(ps) => {
            let nt = nat_text(ps.len());
            lemma_at_split(b, pos, seq![37u8] + line(nt), encode_pairs(ps));
            lemma_at_tag(b, pos, 37u8, line(nt));
            lemma_at_count(b, p, ps.len());
            let q = p + nt.len() + 2;
            lemma_parse_pair_items(ps, b, q, d - 1);
        },
        _ => lemma_parse_scalar(t, b, pos, d),
    }
}

proof fn lemma_parse_items(vs: Seq<Term>, b: Seq<u8>, pos: int, d: int)
    requires
        items_within(vs, d),
        items_well_formed(vs),
        items_framed(vs),
        at(b, pos, encode_all(vs)),
    ensures
        parse_seq(b, pos, vs.len() as int, d) == Ok::<(Seq<Term>, int), Fault>(
            (
                vs,
                pos + encode_all(vs).len() - if vs.len() > 0 {
                    shortfall(vs.last())
                } else {
                    0
                },
            ),
        ),
    decreases vs,
{
    if vs.len() == 0 {
        assert(vs =~= Seq::<Term>::empty());
    } else {
        let init = vs.drop_last();
        lemma_at_split(b, pos, encode_all(init), encode(vs.last()));
        lemma_parse_items(init, b, pos, d);
        let p = pos + encode_all(init).len();
        lemma_parse_encoding(vs.last(), b, p, d);
        assert(init.push(vs.last()) =~= vs);
    }
}

proof fn lemma_parse_pair_items(ps: Seq<(Term, Term)>, b: Seq<u8>, pos: int, d: int)
    requires
        pairs_within(ps, d),
        pairs_well_formed(ps),
        pairs_framed(ps),
        at(b, pos, encode_pairs(ps)),
    ensures
        parse_pairs(b, pos, ps.len() as int, d) == Ok::<(Seq<(Term, Term)>, int), Fault>(
            (
                ps,
                pos + encode_pairs(ps).len() - if ps.len() > 0 {
                    shortfall(ps.last().1)
                } else {
                    0
                },
            ),
        ),
    decreases ps,
{
    if ps.len() == 0 {
        assert(ps =~= Seq::<(Term, Term)>::empty());
    } else {
        let init = ps.drop_last();
        let (k, v) = ps.last();
        lemma_at_split(b, pos, encode_pairs(init) + encode(k), encode(v));
        lemma_at_split(b, pos, encode_pairs(init), encode(k));
        lemma_parse_pair_items(init, b, pos, d);
        let p = pos + encode_pairs(init).len();
        lemma_parse_encoding(k, b, p, d);
        lemma_parse_encoding(v, b, p + encode(k).len(), d);
        assert(init.push((k, v)) =~= ps);
    }
}

/// Round trip from values: a well-formed, framed term, nested no deeper than
/// decoding accepts, decodes back from its encoding.
pub proof fn lemma_decode_encode(t: Term)
    requires
        well_formed(t),
        framed(t),
        depth_within(t, MAX_DEPTH as int),
    ensures
        decode(encode(t)) == Ok::<Term, Fault>(t),
{
    assert(encode(t).subrange(0, encode(t).len() as int) =~= encode(t));
    lemma_parse_encoding(t, encode(t), 0, MAX_DEPTH as int);
}

/// Round trip from bytes: bytes that encode a well-formed, framed term, nested
/// no deeper than decoding accepts, decode to a term whose encoding is those
/// same bytes.
pub proof fn lemma_encode_decode(b: Seq<u8>)
    requires
        exists|t: Term|
            well_formed(t) && framed(t) && depth_within(t, MAX_DEPTH as int) && #[trigger] encode(t)
                == b,
    ensures
        decode(b) matches Ok(u) && encode(u) == b,
{
    let t = choose|t: Term|
        well_formed(t) && framed(t) && depth_within(t, MAX_DEPTH as int) && #[trigger] encode(t)
            == b;
    lemma_decode_encode(t);
}

proof fn lemma_parse_seq_len(b: Seq<u8>, pos: int, n: int, d: int)
    requires
        0 <= n,
        parse_seq(b, pos, n, d) is Ok,
    ensures
        parse_seq(b, pos, n, d)->Ok_0.0.len() == n,
    decreases n,
{
    if n > 0 {
        lemma_parse_seq_len(b, pos, n - 1, d);
    }
}

proof fn lemma_parse_seq_prefix(b: Seq<u8>, pos: int, n: int, d: int, k: int)
    requires
        0 <= k <= n,
        parse_seq(b, pos, n, d) is Ok,
    ensures
        parse_seq(b, pos, k, d) is Ok,
        parse_seq(b, pos, k, d)->Ok_0.0 == parse_seq(b, pos, n, d)->Ok_0.0.subrange(0, k),
    decreases n - k,
{
    lemma_parse_seq_len(b, pos, n, d);
    if k < n {
        lemma_parse_seq_prefix(b, pos, n - 1, d, k);
        lemma_parse_seq_len(b, pos, n - 1, d);
        let vs = parse_seq(b, pos, n, d)->Ok_0.0;
        let ws = parse_seq(b, pos, n - 1, d)->Ok_0.0;
        assert(vs.subrange(0, k) =~= ws.subrange(0, k));
    } else {
        assert(parse_seq(b, pos, n, d)->Ok_0.0.subrange(0, k) =~= parse_seq(b, pos, n, d)->Ok_0.0);
    }
}

proof fn lemma_encode_all_split(a: Seq<Term>, k: int)
    requires
        0 <= k <= a.len(),
    ensures
        encode_all(a) == encode_all(a.subrange(0, k)) + encode_all(a.subrange(k, a.len() as int)),
    decreases a.len(),
{
    if k == a.len() {
        assert(a.subrange(0, k) =~= a);
        assert(encode_all(a.subrange(k, a.len() as int)) =~= Seq::<u8>::empty());
        assert(encode_all(a) + Seq::<u8>::empty() =~= encode_all(a));
    } else {
        lemma_encode_all_split(a.drop_last(), k);
        assert(a.drop_last().subrange(0, k) =~= a.subrange(0, k));
        let tail = a.subrange(k, a.len() as int);
        assert(tail.drop_last() =~= a.drop_last().subrange(k, a.len() - 1));
        assert(tail.last() == a.last());
        assert(encode_all(a) =~= encode_all(a.subrange(0, k)) + encode_all(tail));
    }
}

/// What decoding gives where a term's encoding starts with `$` is a bulk
/// string only if the term is one.
proof fn lemma_bulk_only_from_bulk(t: Term, b: Seq<u8>, pos: int, d: int)
    requires
        at(b, pos, encode(t)),
        !(t is BulkString),
    ensures
        !(parse_at(b, pos, d) matches Ok((Term::BulkString(_), _))),
{
    assert(b[pos] == encode(t)[0]) by {
        assert(b.subrange(pos, pos + encode(t).len())[0] == b[pos]);
    }
    if t is NullBulkString {
        lemma_parse_scalar(t, b, pos, d);
    }
}

/// Where the items of a request array start in its encoding.
pub open spec fn items_start(a: Seq<Term>) -> int {
    3 + nat_text(a.len()).len() as int
}

proof fn lemma_array_decodes(a: Seq<Term>)
    requires
        0 < a.len() <= i64::MAX,
    ensures
        ({
            let b = encode(Term::Array(a));
            let r = parse_seq(b, items_start(a), a.len() as int, MAX_DEPTH - 1int);
            &&& at(b, items_start(a), encode_all(a))
            &&& decode(b) is Ok ==> r is Ok && decode(b)->Ok_0 == Term::Array(r->Ok_0.0)
        }),
{
    let b = encode(Term::Array(a));
    let nt = nat_text(a.len());
    assert(b.subrange(0, b.len() as int) =~= b);
    lemma_at_split(b, 0, seq![42u8] + line(nt), encode_all(a));
    lemma_at_tag(b, 0, 42u8, line(nt));
    lemma_at_count(b, 1, a.len());
}

proof fn lemma_array_items(a: Seq<Term>, b: Seq<u8>, q: int, d: int)
    requires
        0 < a.len() <= i64::MAX,
        a[0] is BulkString,
        encode_utf8(a[0]->BulkString_0).len() <= i64::MAX,
        at(b, q, encode_all(a)),
        parse_seq(b, q, a.len() as int, d) is Ok,
    ensures
        ({
            let items = parse_seq(b, q, a.len() as int, d)->Ok_0.0;
            &&& items.len() == a.len()
            &&& items[0] == a[0]
            &&& a.len() >= 2 && items[1] is BulkString ==> a[1] is BulkString
        }),
{
    let items = parse_seq(b, q, a.len() as int, d)->Ok_0.0;
    lemma_parse_seq_len(b, q, a.len() as int, d);
    lemma_encode_all_split(a, 1);
    assert(a.subrange(0, 1).drop_last() =~= Seq::<Term>::empty());
    assert(encode_all(Seq::<Term>::empty()) == Seq::<u8>::empty());
    assert(encode_all(a.subrange(0, 1)) =~= encode(a[0]));
    lemma_at_split(b, q, encode(a[0]), encode_all(a.subrange(1, a.len() as int)));
    lemma_parse_scalar(a[0], b, q, d);
    lemma_parse_seq_prefix(b, q, a.len() as int, d, 1);
    assert(parse_seq(b, q, 0, d) == Ok::<(Seq<Term>, int), Fault>((Seq::empty(), q)));
    assert(parse_seq(b, q, 1, d)->Ok_0.0 == Seq::<Term>::empty().push(a[0]));
    assert(items[0] == a[0]) by {
        assert(parse_seq(b, q, 1, d)->Ok_0.0 =~= items.subrange(0, 1));
        assert(items.subrange(0, 1)[0] == items[0]);
    }
    if a.len() >= 2 {
        let p1: int = q + encode(a[0]).len();
        let rest = a.subrange(1, a.len() as int);
        lemma_encode_all_split(rest, 1);
        assert(rest.subrange(0, 1).drop_last() =~= Seq::<Term>::empty());
        assert(encode_all(Seq::<Term>::empty()) == Seq::<u8>::empty());
        assert(encode_all(rest.subrange(0, 1)) =~= encode(a[1]));
        lemma_at_split(b, p1, encode(a[1]), encode_all(rest.subrange(1, rest.len() as int)));
        lemma_parse_seq_prefix(b, q, a.len() as int, d, 2);
        assert(items[1] == parse_at(b, p1, d)->Ok_0.0) by {
            assert(parse_seq(b, q, 2, d)->Ok_0.0 =~= items.subrange(0, 2));
            assert(items.subrange(0, 2)[1] == items[1]);
        }
        if !(a[1] is BulkString) {
            lemma_bulk_only_from_bulk(a[1], b, p1, d);
        }
    }
}

/// Arity on the wire: a request array whose first element is the bulk string
/// `ECHO` with other than one argument, `SET` with fewer than two, or `GET`
/// or `ECHO` with an argument that is no bulk string, is no command, whatever
/// its other elements hold; `from_bytes` rejects it as invalid input.
pub proof fn lemma_arity_on_the_wire(a: Seq<Term>)
    requires
        0 < a.len() <= i64::MAX,
        a[0] is BulkString,
        encode_utf8(a[0]->BulkString_0).len() <= i64::MAX,
    ensures
        ({
            let v = a[0]->BulkString_0;
            let r = decode(encode(Term::Array(a)));
            (is_word(v, "ECHO"@) && a.len() != 2) || (is_word(v, "SET"@) && a.len() < 3) || ((
            is_word(v, "GET"@) || is_word(v, "ECHO"@)) && a.len() >= 2 && !(a[1] is BulkString))
                ==> !(r is Ok && interpret(r->Ok_0) is Some)
        }),
{
    let b = encode(Term::Array(a));
    lemma_array_decodes(a);
    if decode(b) is Ok {
        let d = MAX_DEPTH - 1int;
        lemma_array_items(a, b, items_start(a), d);
        crate::commands::lemma_arity(parse_seq(b, items_start(a), a.len() as int, d)->Ok_0.0);
    }
}

} // verus!
