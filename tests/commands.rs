use kvserve::codec::{decode, Value};
use kvserve::command::{
    extract_command, handle_request, parse_command, respond, unpack_bulk_str, Command,
    CommandError,
};
use kvserve::store::{get_epoch_ms, HashStore, RedisKV, RedisValue, Table};

fn bulk(s: &str) -> Value {
    Value::BulkString(s.to_string())
}

fn request(words: &[&str]) -> Value {
    Value::Array(words.iter().map(|w| bulk(w)).collect())
}

fn reply_bytes(table: &mut Table, input: &[u8], now: u128) -> String {
    let (v, used) = decode(input).unwrap();
    assert_eq!(used, input.len());
    handle_request(table, v, now).unwrap().serialize().unwrap()
}

fn run(table: &mut Table, words: &[&str], now: u128) -> String {
    handle_request(table, request(words), now).unwrap().serialize().unwrap()
}

#[test]
fn ping_replies_pong() {
    let mut table = Table::new();
    assert_eq!(reply_bytes(&mut table, b"*1\r\n$4\r\nping\r\n", 0), "+PONG\r\n");
}

#[test]
fn ping_ignores_arguments() {
    let mut table = Table::new();
    assert_eq!(run(&mut table, &["ping", "x"], 0), "+PONG\r\n");
}

#[test]
fn echo_replies_with_its_argument() {
    let mut table = Table::new();
    assert_eq!(
        reply_bytes(&mut table, b"*2\r\n$4\r\necho\r\n$2\r\nhi\r\n", 0),
        "$2\r\nhi\r\n"
    );
}

#[test]
fn set_then_get_without_expiry() {
    let mut table = Table::new();
    assert_eq!(run(&mut table, &["set", "foo", "bar"], 5), "+OK\r\n");
    assert_eq!(run(&mut table, &["get", "foo"], 6), "+bar\r\n");
    assert_eq!(run(&mut table, &["get", "foo"], u128::MAX), "+bar\r\n");
}

#[test]
fn get_missing_is_nil() {
    let mut table = Table::new();
    assert_eq!(run(&mut table, &["get", "missing"], 0), "$-1\r\n");
}

#[test]
fn set_with_zero_expiry_is_gone_after_any_time() {
    let mut table = Table::new();
    assert_eq!(run(&mut table, &["set", "foo", "bar", "px", "0"], 1000), "+OK\r\n");
    assert_eq!(run(&mut table, &["get", "foo"], 1000), "$-1\r\n");
    assert_eq!(run(&mut table, &["get", "foo"], 1001), "$-1\r\n");
}

#[test]
fn set_with_long_expiry_is_read_back() {
    let mut table = Table::new();
    assert_eq!(run(&mut table, &["set", "foo", "bar", "px", "100000"], 1000), "+OK\r\n");
    assert_eq!(run(&mut table, &["get", "foo"], 1000), "+bar\r\n");
    assert_eq!(run(&mut table, &["get", "foo"], 100999), "+bar\r\n");
    assert_eq!(run(&mut table, &["get", "foo"], 101000), "$-1\r\n");
}

#[test]
fn expiry_saturates_at_the_largest_instant() {
    let mut table = Table::new();
    let now = u128::MAX - 5;
    assert_eq!(run(&mut table, &["set", "k", "v", "px", "100"], now), "+OK\r\n");
    assert_eq!(run(&mut table, &["get", "k"], u128::MAX - 1), "+v\r\n");
    assert_eq!(run(&mut table, &["get", "k"], u128::MAX), "$-1\r\n");
}

#[test]
fn set_with_other_option_stores_plain_value() {
    let mut table = Table::new();
    assert_eq!(run(&mut table, &["set", "k", "v", "ex", "0"], 10), "+OK\r\n");
    assert_eq!(run(&mut table, &["get", "k"], 1_000_000), "+v\r\n");
}

#[test]
fn set_with_bad_expiry_stores_plain_value() {
    let mut table = Table::new();
    assert_eq!(run(&mut table, &["set", "k", "v", "px", "soon"], 10), "+OK\r\n");
    assert_eq!(run(&mut table, &["get", "k"], 1_000_000), "+v\r\n");
    assert_eq!(run(&mut table, &["set", "j", "w", "px", "-1"], 10), "+OK\r\n");
    assert_eq!(run(&mut table, &["get", "j"], 1_000_000), "+w\r\n");
}

#[test]
fn set_with_too_few_arguments_is_nil() {
    let mut table = Table::new();
    assert_eq!(run(&mut table, &["set", "k"], 0), "$-1\r\n");
    assert_eq!(run(&mut table, &["get", "k"], 0), "$-1\r\n");
}

#[test]
fn get_of_non_bulk_key_is_nil() {
    let mut table = Table::new();
    let req = Value::Array(vec![bulk("get"), Value::Nil]);
    let r = handle_request(&mut table, req, 0).unwrap();
    assert!(matches!(r, Value::Nil));
}

#[test]
fn overwrite_replaces_value() {
    let mut table = Table::new();
    run(&mut table, &["set", "k", "a", "px", "0"], 0);
    run(&mut table, &["set", "k", "b"], 0);
    assert_eq!(run(&mut table, &["get", "k"], 50), "+b\r\n");
}

#[test]
fn repeated_get_gives_same_value() {
    let mut table = Table::new();
    run(&mut table, &["set", "k", "v", "px", "1000"], 0);
    for t in [0u128, 10, 500, 999] {
        assert_eq!(run(&mut table, &["get", "k"], t), "+v\r\n");
    }
}

#[test]
fn table_set_returns_previous_text() {
    let mut table = Table::new();
    assert_eq!(table.set("k".to_string(), RedisValue::SimpleValue("a".to_string())), None);
    let prev = table.set(
        "k".to_string(),
        RedisValue::ValueWithExpiry { value: "b".to_string(), expiry_unix_ms: 0 },
    );
    assert_eq!(prev.as_deref(), Some("a"));
    let prev = table.set("k".to_string(), RedisValue::SimpleValue("c".to_string()));
    assert_eq!(prev.as_deref(), Some("b"));
    assert_eq!(table.get(&"k".to_string(), 99).as_deref(), Some("c"));
}

#[test]
fn expired_entry_stays_until_overwritten() {
    let mut table = Table::new();
    table.set(
        "k".to_string(),
        RedisValue::ValueWithExpiry { value: "old".to_string(), expiry_unix_ms: 5 },
    );
    assert_eq!(table.get(&"k".to_string(), 4).as_deref(), Some("old"));
    assert_eq!(table.get(&"k".to_string(), 5), None);
    assert_eq!(table.get(&"k".to_string(), 6), None);
    let prev = table.set("k".to_string(), RedisValue::SimpleValue("new".to_string()));
    assert_eq!(prev.as_deref(), Some("old"));
}

#[test]
fn unknown_command_is_an_error() {
    let mut table = Table::new();
    let r = handle_request(&mut table, request(&["flush"]), 0);
    assert_eq!(r.unwrap_err(), CommandError::UnknownCommand);
    let r = handle_request(&mut table, request(&["PING"]), 0);
    assert_eq!(r.unwrap_err(), CommandError::UnknownCommand);
}

#[test]
fn missing_arguments_are_an_error() {
    let mut table = Table::new();
    let r = handle_request(&mut table, request(&["echo"]), 0);
    assert_eq!(r.unwrap_err(), CommandError::MissingArgument);
    let r = handle_request(&mut table, request(&["get"]), 0);
    assert_eq!(r.unwrap_err(), CommandError::MissingArgument);
}

#[test]
fn malformed_requests_are_an_error() {
    let mut table = Table::new();
    let r = handle_request(&mut table, bulk("ping"), 0);
    assert_eq!(r.unwrap_err(), CommandError::MalformedCommand);
    let r = handle_request(&mut table, Value::Array(vec![]), 0);
    assert_eq!(r.unwrap_err(), CommandError::MalformedCommand);
    let r = handle_request(&mut table, Value::Array(vec![Value::SimpleString("ping".to_string())]), 0);
    assert_eq!(r.unwrap_err(), CommandError::MalformedCommand);
}

#[test]
fn extract_command_splits_name_and_arguments() {
    let (name, args) = extract_command(request(&["set", "a", "b"])).unwrap();
    assert_eq!(name, "set");
    assert_eq!(args.len(), 2);
    assert!(matches!(&args[0], Value::BulkString(s) if s == "a"));
    assert!(matches!(&args[1], Value::BulkString(s) if s == "b"));
}

#[test]
fn unpack_bulk_str_takes_only_bulk_strings() {
    assert_eq!(unpack_bulk_str(bulk("x")).unwrap(), "x");
    assert_eq!(unpack_bulk_str(Value::Nil).unwrap_err(), CommandError::MalformedCommand);
}

#[test]
fn parse_command_reads_expiry() {
    let args = vec![bulk("k"), bulk("v"), bulk("px"), bulk("+250")];
    match parse_command("set".to_string(), args).unwrap() {
        Command::SetKey { key, value, expiry_ms } => {
            assert_eq!(key, "k");
            assert_eq!(value, "v");
            assert_eq!(expiry_ms, Some(250));
        }
        other => panic!("expected a set, got {:?}", other),
    }
}

#[test]
fn respond_to_echo_of_array() {
    let mut table = Table::new();
    let r = respond(&mut table, Command::Echo(request(&["a"])), 0);
    assert!(matches!(r, Value::Array(ref items) if items.len() == 1));
}

#[test]
fn shared_store_set_then_get() {
    let store = HashStore::new();
    let r = store.handle(request(&["set", "foo", "bar"])).unwrap();
    assert_eq!(r.serialize().unwrap(), "+OK\r\n");
    let r = store.handle(request(&["get", "foo"])).unwrap();
    assert_eq!(r.serialize().unwrap(), "+bar\r\n");
    let r = store.handle(request(&["get", "missing"])).unwrap();
    assert_eq!(r.serialize().unwrap(), "$-1\r\n");
}

#[test]
fn shared_store_long_expiry_is_read_back() {
    let store = HashStore::new();
    store.handle(request(&["set", "foo", "bar", "px", "100000"])).unwrap();
    let r = store.handle(request(&["get", "foo"])).unwrap();
    assert_eq!(r.serialize().unwrap(), "+bar\r\n");
}

#[test]
fn shared_store_past_expiry_is_gone() {
    let store = HashStore::new();
    store.set(
        "foo".to_string(),
        RedisValue::ValueWithExpiry { value: "bar".to_string(), expiry_unix_ms: 1 },
    );
    assert_eq!(store.get("foo".to_string()), None);
}

#[test]
fn shared_store_clones_see_each_others_writes() {
    let store = HashStore::new();
    let handles: Vec<HashStore> = (0..8).map(|_| store.clone()).collect();
    for (i, h) in handles.iter().enumerate().rev() {
        let prev = h.set(format!("key_{}", i), RedisValue::SimpleValue(format!("value_{}", i)));
        assert_eq!(prev, None);
    }
    for i in 0..8 {
        assert_eq!(store.get(format!("key_{}", i)), Some(format!("value_{}", i)));
    }
}

#[test]
fn shared_store_errors_follow_the_request() {
    let store = HashStore::new();
    assert_eq!(store.handle(request(&["nope"])).unwrap_err(), CommandError::UnknownCommand);
}

#[test]
fn clock_reads_after_the_epoch() {
    assert!(get_epoch_ms() > 1_500_000_000_000);
}

#[test]
fn get_reply_on_shared_store_is_scalar() {
    let store = HashStore::new();
    store.handle(request(&["set", "k", "v"])).unwrap();
    let r = store.handle(request(&["get", "k"])).unwrap();
    assert!(matches!(r, Value::SimpleString(ref s) if s == "v"));
}

#[test]
fn cloned_values_keep_their_contents() {
    let v = request(&["set", "k", "v"]);
    let c = v.clone();
    let mut table = Table::new();
    assert_eq!(handle_request(&mut table, c, 0).unwrap().serialize().unwrap(), "+OK\r\n");
    assert!(matches!(v, Value::Array(ref items) if items.len() == 3));
    let stored = RedisValue::SimpleValue("x".to_string());
    assert!(matches!(stored.clone(), RedisValue::SimpleValue(ref s) if s == "x"));
}

#[test]
fn shared_store_zero_expiry_is_gone() {
    let store = HashStore::new();
    let r = store.handle(request(&["set", "foo", "bar", "px", "0"])).unwrap();
    assert_eq!(r.serialize().unwrap(), "+OK\r\n");
    let r = store.handle(request(&["get", "foo"])).unwrap();
    assert_eq!(r.serialize().unwrap(), "$-1\r\n");
}

#[test]
fn shared_store_future_expiry_is_read_back() {
    let store = HashStore::new();
    let t0 = get_epoch_ms();
    store.set(
        "foo".to_string(),
        RedisValue::ValueWithExpiry { value: "bar".to_string(), expiry_unix_ms: t0 + 100000 },
    );
    assert_eq!(store.get("foo".to_string()), Some("bar".to_string()));
}
