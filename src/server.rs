use crate::commands::{Command, CommandTerm, interpret};
use crate::config::{Config, ConfigModel, lookup, lookup_spec};
use crate::kv::{Store, StoreModel, get, set_spec};
use crate::cursor::{Error, Fault};
use crate::resp::{MAX_DEPTH, RespValue, Term, decode, encode, parse_at, parse_prefix};
use vstd::prelude::*;

verus! {

/// The reply to a command against the store and the settings; `None` where
/// no reply is sent (`CONFIG GET` of an unknown or unset parameter).
pub open spec fn reply_spec(c: CommandTerm, m: StoreModel, cfg: ConfigModel) -> Option<Term> {
    match c {
        CommandTerm::Ping => Some(Term::SimpleString("PONG"@)),
        CommandTerm::Echo(t) => Some(Term::BulkString(t)),
        CommandTerm::Get(k) => Some(
            if m.values.contains_key(k) {
                Term::BulkString(m.values[k])
            } else {
                Term::NullBulkString
            },
        ),
        CommandTerm::SetValue(_, _, _) => Some(Term::SimpleString("OK"@)),
        CommandTerm::ConfigGet(name) => match lookup_spec(cfg, name) {
            Some(v) => Some(Term::Array(seq![Term::SimpleString(name), Term::BulkString(v)])),
            None => None,
        },
    }
}

/// The store after a command: only `SET` changes it.
pub open spec fn store_after(c: CommandTerm, m: StoreModel, now: u64) -> StoreModel {
    match c {
        CommandTerm::SetValue(k, v, e) => set_spec(m, k, v, e, now),
        _ => m,
    }
}

/// The reply to a request that is not a valid command.
pub open spec fn invalid_reply() -> Term {
    Term::Error("unknown command"@)
}

/// The bytes sent back for the request `b`, and the store after it.
pub open spec fn respond_spec(b: Seq<u8>, m: StoreModel, cfg: ConfigModel, now: u64) -> (
    Option<Seq<u8>>,
    StoreModel,
) {
    match decode(b) {
        Ok(t) => match interpret(t) {
            Some(c) => (
                match reply_spec(c, m, cfg) {
                    Some(r) => Some(encode(r)),
                    None => None,
                },
                store_after(c, m, now),
            ),
            None => (Some(encode(invalid_reply())), m),
        },
        Err(_) => (Some(encode(invalid_reply())), m),
    }
}

/// Carries out a command at time `now` (in milliseconds) and builds its reply.
pub fn execute(cmd: Command, store: &mut Store, config: &Config, now: u64) -> (r: Option<RespValue>)
    requires
        old(store).wf(),
    ensures
        final(store).wf(),
        final(store)@ == store_after(cmd@, old(store)@, now),
        match reply_spec(cmd@, old(store)@, config@) {
            Some(t) => r matches Some(v) && v@ == t,
            None => r is None,
        },
{
    match cmd {
        Command::Ping => Some(RespValue::SimpleString("PONG".to_owned())),
        Command::Echo(t) => Some(RespValue::BulkString(t)),
        Command::Get(k) => match get(store, k.as_str()) {
            Some(v) => Some(RespValue::BulkString(v)),
            None => Some(RespValue::NullBulkString),
        },
        Command::SetValue(k, v, e) => {
            crate::kv::set(store, k.as_str(), v, e, now);
            Some(RespValue::SimpleString("OK".to_owned()))
        },
        Command::ConfigGet(name) => match lookup(config, name.as_str()) {
            Some(v) => {
                let items = vec![RespValue::SimpleString(name), RespValue::BulkString(v)];
                proof {
                    crate::resp::lemma_views_len(items@);
                    assert(crate::resp::views(items@) =~= seq![
                        items@[0]@,
                        items@[1]@,
                    ]);
                }
                Some(RespValue::Array(items))
            },
            None => None,
        },
    }
}

/// Answers one request: decodes and interprets `bytes`, carries out the
/// command at time `now` and encodes the reply. A request that is not a
/// valid command gets an error reply and leaves the store alone.
pub fn handle_request(bytes: &[u8], store: &mut Store, config: &Config, now: u64) -> (r: Option<
    Vec<u8>,
>)
    requires
        old(store).wf(),
    ensures
        final(store).wf(),
        final(store)@ == respond_spec(bytes@, old(store)@, config@, now).1,
        match respond_spec(bytes@, old(store)@, config@, now).0 {
            Some(b) => r matches Some(v) && v@ == b,
            None => r is None,
        },
{
    match Command::from_bytes(bytes) {
        Ok(cmd) => match execute(cmd, store, config, now) {
            Some(reply) => Some(reply.as_bytes()),
            None => None,
        },
        Err(_) => Some(RespValue::Error("unknown command".to_owned()).as_bytes()),
    }
}

/// The replies to the complete requests at the front of `buf`, the bytes
/// left for later, and the store after the requests. Decoding stops at a
/// request that has not fully arrived; bytes that cannot be decoded get an
/// error reply and are dropped.
pub open spec fn respond_all(buf: Seq<u8>, m: StoreModel, cfg: ConfigModel, now: u64) -> (
    Seq<u8>,
    Seq<u8>,
    StoreModel,
)
    decreases buf.len(),
{
    if buf.len() == 0 {
        (Seq::empty(), Seq::empty(), m)
    } else {
        match parse_at(buf, 0, MAX_DEPTH as int) {
            Err(Fault::End) => (Seq::empty(), buf, m),
            Err(Fault::Invalid) => (encode(invalid_reply()), Seq::empty(), m),
            Ok((t, q)) => if q <= 0 || q > buf.len() {
                (Seq::empty(), buf, m)
            } else {
                let (reply, m1) = match interpret(t) {
                    Some(c) => (
                        match reply_spec(c, m, cfg) {
                            Some(r) => encode(r),
                            None => Seq::empty(),
                        },
                        store_after(c, m, now),
                    ),
                    None => (encode(invalid_reply()), m),
                };
                let rest = respond_all(buf.subrange(q, buf.len() as int), m1, cfg, now);
                (reply + rest.0, rest.1, rest.2)
            },
        }
    }
}

/// The bytes of one connection that are not yet a complete request.
pub struct Connection {
    pending: Vec<u8>,
}

impl Connection {
    pub closed spec fn pending(&self) -> Seq<u8> {
        self.pending@
    }

    pub fn new() -> (r: Self)
        ensures
            r.pending() == Seq::<u8>::empty(),
    {
        Connection { pending: Vec::new() }
    }

    /// Takes newly arrived bytes and answers every request that is now
    /// complete, in order; a request split across reads waits for the rest.
    pub fn receive(
        &mut self,
        bytes: &[u8],
        store: &mut Store,
        config: &Config,
        now: u64,
    ) -> (r: Vec<u8>)
        requires
            old(store).wf(),
        ensures
            final(store).wf(),
            ({
                let all = respond_all(old(self).pending() + bytes@, old(store)@, config@, now);
                r@ == all.0 && final(self).pending() == all.1 && final(store)@ == all.2
            }),
    {
        let mut i: usize = 0;
        while i < bytes.len()
            invariant
                i <= bytes@.len(),
                self.pending@ == old(self).pending@ + bytes@.subrange(0, i as int),
            decreases bytes@.len() - i,
        {
            self.pending.push(bytes[i]);
            i = i + 1;
            assert(self.pending@ =~= old(self).pending@ + bytes@.subrange(0, i as int));
        }
        assert(bytes@.subrange(0, i as int) =~= bytes@);
        let ghost total = respond_all(self.pending@, store@, config@, now);
        let mut out: Vec<u8> = Vec::new();
        while self.pending.len() > 0
            invariant
                store.wf(),
                ({
                    let rest = respond_all(self.pending@, store@, config@, now);
                    total == (out@ + rest.0, rest.1, rest.2)
                }),
            ensures
                store.wf(),
                total == (out@, self.pending@, store@),
            decreases self.pending@.len(),
        {
            let ghost buf = self.pending@;
            match parse_prefix(self.pending.as_slice()) {
                Err(Error::UnexpectedEOF) => {
                    assert(out@ + Seq::<u8>::empty() =~= out@);
                    break;
                },
                Err(Error::InvalidInput(_)) => {
                    RespValue::Error("unknown command".to_owned()).write_to(&mut out);
                    self.pending.clear();
                    assert(out@ + Seq::<u8>::empty() =~= out@);
                    break;
                },
                Ok((value, used)) => {
                    let ghost before = out@;
                    match Command::from_value(&value) {
                        Ok(cmd) => {
                            if let Some(reply) = execute(cmd, store, config, now) {
                                reply.write_to(&mut out);
                            }
                        },
                        Err(_) => {
                            RespValue::Error("unknown command".to_owned()).write_to(&mut out);
                        },
                    }
                    let rest = self.pending.split_off(used);
                    self.pending = rest;
                    assert(self.pending@ =~= buf.subrange(used as int, buf.len() as int));
                    proof {
                        let tail = respond_all(self.pending@, store@, config@, now);
                        assert(out@ + tail.0 =~= before + ((out@.subrange(
                            before.len() as int,
                            out@.len() as int,
                        )) + tail.0));
                    }
                },
            }
        }
        out
    }
}

/// A ping always gets the same reply, and an echo always gets back exactly
/// its text, whatever the store and the settings hold.
pub proof fn lemma_ping_echo_replies(m: StoreModel, cfg: ConfigModel, x: Seq<char>)
    ensures
        reply_spec(CommandTerm::Ping, m, cfg) == Some(Term::SimpleString("PONG"@)),
        reply_spec(CommandTerm::Echo(x), m, cfg) == Some(Term::BulkString(x)),
        store_after(CommandTerm::Ping, m, 0) == m,
{
}

} // verus!
