//! Commands: reading a decoded request as a command, and carrying it out
//! on a table.
use vstd::prelude::*;
use crate::codec::{models, Value, ValueModel};
use crate::store::{get_epoch_ms, is_live, live_text, HashStore, RedisValue, StoredModel, Table};
use crate::text::{parse_u64, unsigned_decimal};

verus! {

/// Why a request is not a command that can be carried out.
#[derive(Debug, Clone, Copy, PartialEq, Eq, Structural)]
pub enum CommandError {
    /// The request is not an array that starts with a bulk string.
    MalformedCommand,
    /// The command word is not one of `ping`, `echo`, `set`, `get`.
    UnknownCommand,
    /// `echo` or `get` came without an argument.
    MissingArgument,
}

/// A command read from a request.
#[derive(Debug)]
pub enum Command {
    Ping,
    Echo(Value),
    SetKey { key: String, value: String, expiry_ms: Option<u64> },
    GetKey { key: String },
    /// A `set` or `get` whose arguments have no usable shape; it replies nil.
    Unusable,
}

/// The mathematical form of a [`Command`].
pub enum CommandModel {
    Ping,
    Echo(ValueModel),
    SetKey { key: Seq<char>, value: Seq<char>, expiry_ms: Option<int> },
    GetKey { key: Seq<char> },
    Unusable,
}

impl View for Command {
    type V = CommandModel;

    open spec fn view(&self) -> CommandModel {
        match self {
            Command::Ping => CommandModel::Ping,
            Command::Echo(v) => CommandModel::Echo(v@),
            Command::SetKey { key, value, expiry_ms } => CommandModel::SetKey {
                key: key@,
                value: value@,
                expiry_ms: match expiry_ms {
                    Some(n) => Some(*n as int),
                    None => None,
                },
            },
            Command::GetKey { key } => CommandModel::GetKey { key: key@ },
            Command::Unusable => CommandModel::Unusable,
        }
    }
}

/// The expiry that a `px` argument asks for, if it is a decimal within `u64`.
pub open spec fn expiry_arg(t: Seq<char>) -> Option<int> {
    match unsigned_decimal(t) {
        Some(n) => if n <= u64::MAX {
            Some(n)
        } else {
            None
        },
        None => None,
    }
}

/// The command that a command word and its arguments make. Words are
/// matched exactly, lower case.
pub open spec fn interpret(name: Seq<char>, args: Seq<ValueModel>) -> Result<
    CommandModel,
    CommandError,
> {
    if name == "ping"@ {
        Ok(CommandModel::Ping)
    } else if name == "echo"@ {
        if args.len() == 0 {
            Err(CommandError::MissingArgument)
        } else {
            Ok(CommandModel::Echo(args[0]))
        }
    } else if name == "set"@ {
        if args.len() >= 2 && args[0] is Bulk && args[1] is Bulk {
            let key = args[0]->Bulk_0;
            let value = args[1]->Bulk_0;
            if args.len() == 4 && args[2] == ValueModel::Bulk("px"@) && args[3] is Bulk
                && expiry_arg(args[3]->Bulk_0) is Some {
                Ok(CommandModel::SetKey { key, value, expiry_ms: expiry_arg(args[3]->Bulk_0) })
            } else {
                Ok(CommandModel::SetKey { key, value, expiry_ms: None })
            }
        } else {
            Ok(CommandModel::Unusable)
        }
    } else if name == "get"@ {
        if args.len() == 0 {
            Err(CommandError::MissingArgument)
        } else if args[0] is Bulk {
            Ok(CommandModel::GetKey { key: args[0]->Bulk_0 })
        } else {
            Ok(CommandModel::Unusable)
        }
    } else {
        Err(CommandError::UnknownCommand)
    }
}

/// The command word and arguments of a request: an array whose first item
/// is a bulk string.
pub open spec fn request_parts(v: ValueModel) -> Option<(Seq<char>, Seq<ValueModel>)> {
    match v {
        ValueModel::Array(items) => if items.len() > 0 && items[0] is Bulk {
            Some((items[0]->Bulk_0, items.drop_first()))
        } else {
            None
        },
        _ => None,
    }
}

/// The command that a decoded request makes.
pub open spec fn request_command(v: ValueModel) -> Result<CommandModel, CommandError> {
    match request_parts(v) {
        Some((name, args)) => interpret(name, args),
        None => Err(CommandError::MalformedCommand),
    }
}

/// The instant at which a value set at `now` with a lifetime of `ms`
/// milliseconds expires.
pub open spec fn expiry_instant(now: int, ms: int) -> int {
    if now + ms <= u128::MAX {
        now + ms
    } else {
        u128::MAX as int
    }
}

/// The table after a command at time `now`.
pub open spec fn after(m: Map<Seq<char>, StoredModel>, c: CommandModel, now: int) -> Map<
    Seq<char>,
    StoredModel,
> {
    match c {
        CommandModel::SetKey { key, value, expiry_ms } => m.insert(
            key,
            StoredModel {
                text: value,
                expiry: match expiry_ms {
                    Some(ms) => Some(expiry_instant(now, ms)),
                    None => None,
                },
            },
        ),
        _ => m,
    }
}

/// The reply to a command at time `now`.
pub open spec fn reply(m: Map<Seq<char>, StoredModel>, c: CommandModel, now: int) -> ValueModel {
    match c {
        CommandModel::Ping => ValueModel::Simple("PONG"@),
        CommandModel::Echo(v) => v,
        CommandModel::SetKey { .. } => ValueModel::Simple("OK"@),
        CommandModel::GetKey { key } => match live_text(m, key, now) {
            Some(t) => ValueModel::Simple(t),
            None => ValueModel::Nil,
        },
        CommandModel::Unusable => ValueModel::Nil,
    }
}

/// Whether `s` is exactly the word `w`.
fn is_word(s: &String, w: &str) -> (r: bool)
    ensures
        r == (s@ == w@),
{
    *s == w.to_owned()
}

/// The text of a bulk string.
pub fn unpack_bulk_str(value: Value) -> (r: Result<String, CommandError>)
    ensures
        match value@ {
            ValueModel::Bulk(t) => r matches Ok(s) && s@ == t,
            _ => r == Err::<String, CommandError>(CommandError::MalformedCommand),
        },
{
    match value {
        Value::BulkString(s) => Ok(s),
        _ => Err(CommandError::MalformedCommand),
    }
}

/// The command word and the arguments of a request.
pub fn extract_command(value: Value) -> (r: Result<(String, Vec<Value>), CommandError>)
    ensures
        match request_parts(value@) {
            Some((name, args)) => r matches Ok((s, items)) && s@ == name && items@.len()
                == args.len() && forall|i: int| 0 <= i < args.len() ==> #[trigger] items@[i]@
                == args[i],
            None => r == Err::<(String, Vec<Value>), CommandError>(CommandError::MalformedCommand),
        },
{
    match value {
        Value::Array(mut items) => {
            if items.len() == 0 {
                return Err(CommandError::MalformedCommand);
            }
            let ghost all = items@;
            let first = items.remove(0);
            proof {
                assert(items@ =~= all.drop_first());
            }
            let name = unpack_bulk_str(first)?;
            Ok((name, items))
        },
        _ => Err(CommandError::MalformedCommand),
    }
}

/// A `get` of a key that a plain `set` stored replies with the stored text,
/// at any later time; a `get` of a key never stored replies nil.
pub proof fn lemma_set_then_get(
    m: Map<Seq<char>, StoredModel>,
    key: Seq<char>,
    value: Seq<char>,
    now: int,
    later: int,
)
    ensures
        reply(
            after(m, CommandModel::SetKey { key, value, expiry_ms: None }, now),
            CommandModel::GetKey { key },
            later,
        ) == ValueModel::Simple(value),
        !m.contains_key(key) ==> reply(m, CommandModel::GetKey { key }, later) == ValueModel::Nil,
{
}

/// A value set with a lifetime of `ms` milliseconds at `now` is read back
/// before `now + ms`, and is gone from that instant on.
pub proof fn lemma_expiry(
    m: Map<Seq<char>, StoredModel>,
    key: Seq<char>,
    value: Seq<char>,
    ms: int,
    now: int,
    later: int,
)
    requires
        0 <= ms,
        0 <= now,
        now + ms <= u128::MAX,
    ensures
        later < now + ms ==> reply(
            after(m, CommandModel::SetKey { key, value, expiry_ms: Some(ms) }, now),
            CommandModel::GetKey { key },
            later,
        ) == ValueModel::Simple(value),
        later >= now + ms ==> reply(
            after(m, CommandModel::SetKey { key, value, expiry_ms: Some(ms) }, now),
            CommandModel::GetKey { key },
            later,
        ) == ValueModel::Nil,
{
}

/// The table after plain `set`s of each key and value in `pairs`, in order.
pub open spec fn set_all(
    m: Map<Seq<char>, StoredModel>,
    pairs: Seq<(Seq<char>, Seq<char>)>,
    now: int,
) -> Map<Seq<char>, StoredModel>
    decreases pairs.len(),
{
    if pairs.len() == 0 {
        m
    } else {
        set_all(
            after(m, CommandModel::SetKey { key: pairs[0].0, value: pairs[0].1, expiry_ms: None }, now),
            pairs.drop_first(),
            now,
        )
    }
}

/// Plain `set`s of distinct keys, carried out one at a time in any order,
/// are all seen by a later `get` of each key: none is lost.
pub proof fn lemma_distinct_sets_all_visible(
    m: Map<Seq<char>, StoredModel>,
    pairs: Seq<(Seq<char>, Seq<char>)>,
    now: int,
    later: int,
    i: int,
)
    requires
        forall|a: int, b: int| 0 <= a < b < pairs.len() ==> pairs[a].0 != pairs[b].0,
        0 <= i < pairs.len(),
    ensures
        reply(set_all(m, pairs, now), CommandModel::GetKey { key: pairs[i].0 }, later)
            == ValueModel::Simple(pairs[i].1),
    decreases pairs.len(),
{
    let first = after(m, CommandModel::SetKey { key: pairs[0].0, value: pairs[0].1, expiry_ms: None }, now);
    let rest = pairs.drop_first();
    if i == 0 {
        lemma_set_all_keeps(first, rest, now, pairs[0].0);
    } else {
        lemma_distinct_sets_all_visible(first, rest, now, later, i - 1);
    }
}

/// `set`s of other keys leave a key's entry as it was.
proof fn lemma_set_all_keeps(
    m: Map<Seq<char>, StoredModel>,
    pairs: Seq<(Seq<char>, Seq<char>)>,
    now: int,
    key: Seq<char>,
)
    requires
        forall|a: int| 0 <= a < pairs.len() ==> pairs[a].0 != key,
    ensures
        set_all(m, pairs, now).contains_key(key) == m.contains_key(key),
        m.contains_key(key) ==> set_all(m, pairs, now)[key] == m[key],
    decreases pairs.len(),
{
    if pairs.len() > 0 {
        let first = after(m, CommandModel::SetKey { key: pairs[0].0, value: pairs[0].1, expiry_ms: None }, now);
        lemma_set_all_keeps(first, pairs.drop_first(), now, key);
    }
}

/// A `get` leaves the table as it was, and repeated `get`s of a key whose
/// entry has not expired by the last of them all give the same reply.
pub proof fn lemma_get_repeatable(
    m: Map<Seq<char>, StoredModel>,
    key: Seq<char>,
    first: int,
    second: int,
)
    requires
        first <= second,
        m.contains_key(key) ==> is_live(m[key], second),
    ensures
        after(m, CommandModel::GetKey { key }, first) == m,
        reply(m, CommandModel::GetKey { key }, first) == reply(
            after(m, CommandModel::GetKey { key }, first),
            CommandModel::GetKey { key },
            second,
        ),
{
}

/// The command that a command word and its arguments make.
pub fn parse_command(name: String, args: Vec<Value>) -> (r: Result<Command, CommandError>)
    ensures
        match interpret(name@, models(args@)) {
            Ok(c) => r matches Ok(cmd) && cmd@ == c,
            Err(e) => r == Err::<Command, CommandError>(e),
        },
{
    let mut args = args;
    if is_word(&name, "ping") {
        return Ok(Command::Ping);
    }
    if is_word(&name, "echo") {
        if args.len() == 0 {
            return Err(CommandError::MissingArgument);
        }
        let first = args.remove(0);
        return Ok(Command::Echo(first));
    }
    if is_word(&name, "set") {
        if args.len() < 2 {
            return Ok(Command::Unusable);
        }
        let key = match &args[0] {
            Value::BulkString(k) => k.clone(),
            _ => return Ok(Command::Unusable),
        };
        let value = match &args[1] {
            Value::BulkString(v) => v.clone(),
            _ => return Ok(Command::Unusable),
        };
        if args.len() == 4 {
            if let Value::BulkString(opt) = &args[2] {
                if let Value::BulkString(ms) = &args[3] {
                    if is_word(opt, "px") {
                        if let Some(n) = parse_u64(ms.as_str()) {
                            return Ok(Command::SetKey { key, value, expiry_ms: Some(n) });
                        }
                    }
                }
            }
        }
        return Ok(Command::SetKey { key, value, expiry_ms: None });
    }
    if is_word(&name, "get") {
        if args.len() == 0 {
            return Err(CommandError::MissingArgument);
        }
        return match &args[0] {
            Value::BulkString(k) => Ok(Command::GetKey { key: k.clone() }),
            _ => Ok(Command::Unusable),
        };
    }
    Err(CommandError::UnknownCommand)
}

/// Carries out a command on a table at time `now` and gives the reply.
pub fn respond(table: &mut Table, cmd: Command, now: u128) -> (r: Value)
    requires
        old(table).wf(),
    ensures
        final(table).wf(),
        final(table)@ == after(old(table)@, cmd@, now as int),
        r@ == reply(old(table)@, cmd@, now as int),
{
    match cmd {
        Command::Ping => Value::SimpleString("PONG".to_owned()),
        Command::Echo(v) => v,
        Command::SetKey { key, value, expiry_ms } => {
            let stored = match expiry_ms {
                None => RedisValue::SimpleValue(value),
                Some(ms) => {
                    let expiry_unix_ms = if now > u128::MAX - ms as u128 {
                        u128::MAX
                    } else {
                        now + ms as u128
                    };
                    RedisValue::ValueWithExpiry { value, expiry_unix_ms }
                },
            };
            let _ = table.set(key, stored);
            Value::SimpleString("OK".to_owned())
        },
        Command::GetKey { key } => match table.get(&key, now) {
            Some(t) => Value::SimpleString(t),
            None => Value::Nil,
        },
        Command::Unusable => Value::Nil,
    }
}

/// Reads a decoded request as a command and carries it out on a table at
/// time `now`; a request that is no command leaves the table as it was.
pub fn handle_request(table: &mut Table, request: Value, now: u128) -> (r: Result<
    Value,
    CommandError,
>)
    requires
        old(table).wf(),
    ensures
        final(table).wf(),
        match request_command(request@) {
            Ok(c) => r matches Ok(v) && v@ == reply(old(table)@, c, now as int) && final(table)@
                == after(old(table)@, c, now as int),
            Err(e) => r == Err::<Value, CommandError>(e) && final(table)@ == old(table)@,
        },
{
    let (name, args) = extract_command(request)?;
    proof {
        assert(models(args@) =~= request_parts(request@)->Some_0.1);
    }
    let cmd = parse_command(name, args)?;
    Ok(respond(table, cmd, now))
}

impl HashStore {
    /// Reads a decoded request as a command and carries it out on the shared
    /// table at the current time. What a read finds depends on the other
    /// connections, though it is always a simple string or nil; the errors,
    /// and the replies that do not read the table, depend on the request
    /// alone.
    pub fn handle(&self, request: Value) -> (r: Result<Value, CommandError>)
        ensures
            match request_command(request@) {
                Ok(c) => r is Ok && (!(c is GetKey) ==> r->Ok_0@ == reply(
                    Map::empty(),
                    c,
                    0,
                )) && (c is GetKey ==> (r->Ok_0@ is Simple || r->Ok_0@ is Nil)),
                Err(e) => r == Err::<Value, CommandError>(e),
            },
    {
        let (name, args) = extract_command(request)?;
        proof {
            assert(models(args@) =~= request_parts(request@)->Some_0.1);
        }
        let cmd = parse_command(name, args)?;
        let now = get_epoch_ms();
        let (mut table, handle) = self.data.acquire_write();
        let r = respond(&mut table, cmd, now);
        handle.release_write(table);
        Ok(r)
    }
}

} // verus!
