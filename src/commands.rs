use crate::cursor::{Error, Fault, diagnostic, fails_with};
use crate::decimal::{parse_u64, parse_u64_spec};
use crate::resp::{RespValue, Term, decode, parse};
use vstd::prelude::*;
use vstd::string::StrSliceExecFns;
use vstd::utf8::encode_utf8;

verus! {

/// A request, as the interpreter builds it.
#[derive(Debug, PartialEq, Eq)]
pub enum Command {
    ConfigGet(String),
    Echo(String),
    Get(String),
    Ping,
    SetValue(String, String, Option<u64>),
}

/// The mathematical value of a command.
pub enum CommandTerm {
    ConfigGet(Seq<char>),
    Echo(Seq<char>),
    Get(Seq<char>),
    Ping,
    SetValue(Seq<char>, Seq<char>, Option<u64>),
}

impl Command {
    pub open spec fn view(&self) -> CommandTerm {
        match self {
            Command::ConfigGet(k) => CommandTerm::ConfigGet(k@),
            Command::Echo(m) => CommandTerm::Echo(m@),
            Command::Get(k) => CommandTerm::Get(k@),
            Command::Ping => CommandTerm::Ping,
            Command::SetValue(k, v, e) => CommandTerm::SetValue(k@, v@, *e),
        }
    }
}

/// `c` is `u`, or `u` is an upper-case ASCII letter and `c` its lower case.
pub open spec fn same_letter(c: char, u: char) -> bool {
    c == u || ('A' <= u <= 'Z' && c as u32 == u as u32 + 32)
}

/// `s` upper-cased in ASCII is the upper-case word `w`.
pub open spec fn is_word(s: Seq<char>, w: Seq<char>) -> bool {
    s.len() == w.len() && forall|i: int| 0 <= i < s.len() ==> same_letter(#[trigger] s[i], w[i])
}

/// The expiry that the `(name, value)` option pairs from index 3 on give,
/// after the first `k` of them: a `PX` pair sets it to its value in
/// milliseconds, the last one winning; a `PX` value that is not a `u64`
/// makes the request invalid; other pairs, and a lone last item, are ignored.
pub open spec fn px_scan(items: Seq<Term>, k: nat) -> Option<Option<u64>>
    decreases k,
{
    if k == 0 {
        Some(None)
    } else {
        match px_scan(items, (k - 1) as nat) {
            None => None,
            Some(prev) => {
                let i = 3 + 2 * (k - 1);
                match (items[i], items[i + 1]) {
                    (Term::BulkString(o), Term::BulkString(v)) => if is_word(o, "PX"@) {
                        match parse_u64_spec(encode_utf8(v)) {
                            Some(ms) => Some(Some(ms)),
                            None => None,
                        }
                    } else {
                        Some(prev)
                    },
                    _ => Some(prev),
                }
            },
        }
    }
}

proof fn lemma_px_scan_invalid(items: Seq<Term>, k: nat, m: nat)
    requires
        k <= m,
        px_scan(items, k) is None,
    ensures
        px_scan(items, m) is None,
    decreases m - k,
{
    if m > k {
        lemma_px_scan_invalid(items, k, (m - 1) as nat);
    }
}

/// The command that a decoded request stands for, if any.
pub open spec fn interpret(t: Term) -> Option<CommandTerm> {
    match t {
        Term::Array(items) => if items.len() == 0 {
            None
        } else {
            match items[0] {
                Term::BulkString(verb) => if is_word(verb, "CONFIG"@) {
                    if items.len() == 3 && items[1] is BulkString && is_word(
                        items[1]->BulkString_0,
                        "GET"@,
                    ) && items[2] is BulkString {
                        Some(CommandTerm::ConfigGet(items[2]->BulkString_0))
                    } else {
                        None
                    }
                } else if is_word(verb, "ECHO"@) {
                    if items.len() == 2 && items[1] is BulkString {
                        Some(CommandTerm::Echo(items[1]->BulkString_0))
                    } else {
                        None
                    }
                } else if is_word(verb, "GET"@) {
                    if items.len() == 2 && items[1] is BulkString {
                        Some(CommandTerm::Get(items[1]->BulkString_0))
                    } else {
                        None
                    }
                } else if is_word(verb, "PING"@) {
                    if items.len() == 1 {
                        Some(CommandTerm::Ping)
                    } else {
                        None
                    }
                } else if is_word(verb, "SET"@) {
                    if items.len() >= 3 && items[1] is BulkString && items[2] is BulkString {
                        match px_scan(items, ((items.len() - 3) / 2) as nat) {
                            Some(e) => Some(
                                CommandTerm::SetValue(
                                    items[1]->BulkString_0,
                                    items[2]->BulkString_0,
                                    e,
                                ),
                            ),
                            None => None,
                        }
                    } else {
                        None
                    }
                } else {
                    None
                },
                _ => None,
            }
        },
        _ => None,
    }
}

/// Whether `s` upper-cased in ASCII is the upper-case word `w`.
fn matches_word(s: &String, w: &str) -> (r: bool)
    ensures
        r == is_word(s@, w@),
{
    let n = s.as_str().unicode_len();
    if n != w.unicode_len() {
        return false;
    }
    let mut i: usize = 0;
    while i < n
        invariant
            i <= n,
            n == s@.len(),
            n == w@.len(),
            forall|j: int| 0 <= j < i ==> same_letter(#[trigger] s@[j], w@[j]),
        decreases n - i,
    {
        let c = s.as_str().get_char(i);
        let u = w.get_char(i);
        let ok = c == u || ('A' <= u && u <= 'Z' && c as u32 == u as u32 + 32);
        if !ok {
            return false;
        }
        i = i + 1;
    }
    true
}

fn bulk_text(v: &RespValue) -> (r: Option<&String>)
    ensures
        match v@ {
            Term::BulkString(s) => r matches Some(t) && t@ == s,
            _ => r is None,
        },
{
    match v {
        RespValue::BulkString(s) => Some(s),
        _ => None,
    }
}

impl Command {
    /// Decodes `bytes` and maps the request onto a command. Every failure,
    /// of decoding or of the request's shape, is invalid input.
    pub fn from_bytes(bytes: &[u8]) -> (r: Result<Self, Error>)
        ensures
            match decode(bytes@) {
                Ok(t) => match interpret(t) {
                    Some(c) => r matches Ok(cmd) && cmd@ == c,
                    None => fails_with(r, "is not a valid command"@),
                },
                Err(_) => fails_with(r, "is not a valid command"@),
            },
    {
        let value = match parse(bytes) {
            Ok(v) => v,
            Err(_) => {
                return Err(Error::InvalidInput(diagnostic(bytes, "is not a valid command")));
            },
        };
        match Command::from_value(&value) {
            Ok(c) => Ok(c),
            Err(_) => Err(Error::InvalidInput(diagnostic(bytes, "is not a valid command"))),
        }
    }

    /// Maps a decoded request onto a command.
    #[verifier::loop_isolation(false)]
    pub fn from_value(value: &RespValue) -> (r: Result<Self, Error>)
        ensures
            match interpret(value@) {
                Some(c) => r matches Ok(cmd) && cmd@ == c,
                None => r matches Err(e) && e.fault() == Fault::Invalid,
            },
    {
        let arr = match value {
            RespValue::Array(arr) => arr,
            _ => {
                return Err(Error::InvalidInput("request is not an array".to_owned()));
            },
        };
        let ghost items = crate::resp::views(arr@);
        proof {
            crate::resp::lemma_views_len(arr@);
        }
        if arr.len() == 0 {
            return Err(Error::InvalidInput("request is empty".to_owned()));
        }
        let verb = match bulk_text(&arr[0]) {
            Some(v) => v,
            None => {
                return Err(Error::InvalidInput("request has no command name".to_owned()));
            },
        };
        let unknown = Error::InvalidInput("unknown command or wrong arguments".to_owned());
        if matches_word(verb, "CONFIG") {
            if arr.len() != 3 {
                return Err(unknown);
            }
            let sub = match bulk_text(&arr[1]) {
                Some(s) => s,
                None => {
                    return Err(unknown);
                },
            };
            if !matches_word(sub, "GET") {
                return Err(unknown);
            }
            match bulk_text(&arr[2]) {
                Some(k) => Ok(Command::ConfigGet(k.clone())),
                None => Err(unknown),
            }
        } else if matches_word(verb, "ECHO") {
            if arr.len() != 2 {
                return Err(unknown);
            }
            match bulk_text(&arr[1]) {
                Some(m) => Ok(Command::Echo(m.clone())),
                None => Err(unknown),
            }
        } else if matches_word(verb, "GET") {
            if arr.len() != 2 {
                return Err(unknown);
            }
            match bulk_text(&arr[1]) {
                Some(k) => Ok(Command::Get(k.clone())),
                None => Err(unknown),
            }
        } else if matches_word(verb, "PING") {
            if arr.len() != 1 {
                return Err(unknown);
            }
            Ok(Command::Ping)
        } else if matches_word(verb, "SET") {
            if arr.len() < 3 {
                return Err(unknown);
            }
            let key = match bulk_text(&arr[1]) {
                Some(k) => k,
                None => {
                    return Err(unknown);
                },
            };
            let value = match bulk_text(&arr[2]) {
                Some(v) => v,
                None => {
                    return Err(unknown);
                },
            };
            let pairs = (arr.len() - 3) / 2;
            let mut expiry: Option<u64> = None;
            let mut k: usize = 0;
            while k < pairs
                invariant
                    k <= pairs,
                    pairs == (arr@.len() - 3) / 2,
                    arr@.len() >= 3,
                    arr@.len() <= usize::MAX,
                    items == crate::resp::views(arr@),
                    items.len() == arr@.len(),
                    forall|j: int| 0 <= j < arr@.len() ==> #[trigger] items[j] == arr@[j]@,
                    px_scan(items, k as nat) == Some(expiry),
                decreases pairs - k,
            {
                let i = 3 + 2 * k;
                if let (Some(o), Some(v)) = (bulk_text(&arr[i]), bulk_text(&arr[i + 1])) {
                    if matches_word(o, "PX") {
                        match parse_u64(v.as_str().as_bytes()) {
                            Some(ms) => {
                                expiry = Some(ms);
                            },
                            None => {
                                proof {
                                    assert(px_scan(items, (k + 1) as nat) is None);
                                    lemma_px_scan_invalid(items, (k + 1) as nat, pairs as nat);
                                }
                                return Err(unknown);
                            },
                        }
                    }
                }
                k = k + 1;
            }
            Ok(Command::SetValue(key.clone(), value.clone(), expiry))
        } else {
            Err(unknown)
        }
    }
}

/// Arity: `ECHO` takes exactly one argument, `SET` at least two, and the
/// argument of `GET` and `ECHO` must be a bulk string; anything else is no
/// command.
pub proof fn lemma_arity(items: Seq<Term>)
    requires
        items.len() > 0,
        items[0] is BulkString,
    ensures
        is_word(items[0]->BulkString_0, "ECHO"@) && items.len() != 2 ==> interpret(
            Term::Array(items),
        ) is None,
        is_word(items[0]->BulkString_0, "SET"@) && items.len() < 3 ==> interpret(
            Term::Array(items),
        ) is None,
        (is_word(items[0]->BulkString_0, "GET"@) || is_word(items[0]->BulkString_0, "ECHO"@))
            && items.len() >= 2 && !(items[1] is BulkString) ==> interpret(
            Term::Array(items),
        ) is None,
{
    let v = items[0]->BulkString_0;
    reveal_strlit("CONFIG");
    reveal_strlit("ECHO");
    reveal_strlit("GET");
    reveal_strlit("PING");
    reveal_strlit("SET");
    if is_word(v, "ECHO"@) {
        assert(!is_word(v, "CONFIG"@));
    }
    if is_word(v, "GET"@) {
        assert(!is_word(v, "CONFIG"@));
        assert(!is_word(v, "ECHO"@));
    }
    if is_word(v, "SET"@) {
        assert(!is_word(v, "CONFIG"@));
        assert(!is_word(v, "ECHO"@));
        assert(!same_letter(v[0], 'G'));
        assert(!is_word(v, "GET"@));
        assert(!is_word(v, "PING"@));
    }
}

} // verus!
