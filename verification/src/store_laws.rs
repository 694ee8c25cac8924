//! What holds of the commands across calls: a `GET` gives back what a `SET`
//! stored, only `SET` changes the store, `DBSIZE` counts the keys, and no
//! command fails.
use crate::text::{ascii_chars, utf8_lossy_text};
use vstd::utf8::encode_utf8;
use crate::command::{
    wrong_type_reply, CommandError, apply_spec, get_reply, name_dbsize, name_echo, name_get, name_ping, name_set, spec_from_frame,
    SpecCommand,
};
use crate::parse::SpecParseError;
use crate::text::ascii_lowercase;
use vstd::string::StringSliceAdditionalSpecFns;
use crate::db::SpecValue;
use crate::frame::{display, SpecFrame};
use vstd::prelude::*;

verus! {

/// `GET k` after `SET k v` replies with `v`.
pub proof fn law_get_after_set(db: Map<Seq<u8>, SpecValue>, k: Seq<u8>, v: Seq<u8>)
    ensures
        apply_spec(SpecCommand::Get(k), apply_spec(SpecCommand::SetCommand(k, v), db).0).1 == Ok::<
            SpecFrame,
            crate::command::CommandError,
        >(SpecFrame::Bulk(v)),
{
}

/// `GET k` of a key that was never set replies with null and changes nothing.
pub proof fn law_get_missing(db: Map<Seq<u8>, SpecValue>, k: Seq<u8>)
    requires
        !db.contains_key(k),
    ensures
        apply_spec(SpecCommand::Get(k), db) == (db, Ok::<SpecFrame, crate::command::CommandError>(SpecFrame::Null)),
{
}

/// `SET k v` leaves what every other key holds as it was.
pub proof fn law_set_keeps_other_keys(db: Map<Seq<u8>, SpecValue>, k: Seq<u8>, v: Seq<u8>, other: Seq<u8>)
    requires
        other != k,
    ensures
        get_reply(apply_spec(SpecCommand::SetCommand(k, v), db).0, other) == get_reply(db, other),
{
}

/// Every command but `SET` leaves the store as it was.
pub proof fn law_only_set_changes_the_store(cmd: SpecCommand, db: Map<Seq<u8>, SpecValue>)
    requires
        !(cmd is SetCommand),
    ensures
        apply_spec(cmd, db).0 == db,
{
}

/// No command fails: every command has a reply frame.
pub proof fn law_commands_reply(cmd: SpecCommand, db: Map<Seq<u8>, SpecValue>)
    ensures
        apply_spec(cmd, db).1 is Ok,
{
}

/// `SET` of a new key adds one to what `DBSIZE` replies; `SET` of a key that
/// is there keeps it.
pub proof fn law_dbsize_after_set(db: Map<Seq<u8>, SpecValue>, k: Seq<u8>, v: Seq<u8>)
    requires
        db.dom().finite(),
    ensures
        apply_spec(SpecCommand::DbSize, apply_spec(SpecCommand::SetCommand(k, v), db).0).1
            == Ok::<SpecFrame, crate::command::CommandError>(
            SpecFrame::Integer(
                (if db.contains_key(k) {
                    db.len()
                } else {
                    db.len() + 1
                }) as i64,
            ),
        ),
{
    let db2 = db.insert(k, SpecValue::Str(v));
    if db.contains_key(k) {
        assert(db2.dom() =~= db.dom());
    } else {
        assert(db2.dom() =~= db.dom().insert(k));
    }
}

/// `DBSIZE` of the empty store replies with 0.
pub proof fn law_dbsize_empty()
    ensures
        apply_spec(SpecCommand::DbSize, Map::<Seq<u8>, SpecValue>::empty()).1 == Ok::<
            SpecFrame,
            crate::command::CommandError,
        >(SpecFrame::Integer(0)),
{
    assert(Map::<Seq<u8>, SpecValue>::empty().dom() =~= Set::<Seq<u8>>::empty());
}


/// The bytes of the command names.
proof fn lemma_command_names()
    ensures
        name_get() == seq![103u8, 101, 116],
        name_set() == seq![115u8, 101, 116],
        name_echo() == seq![101u8, 99, 104, 111],
        name_ping() == seq![112u8, 105, 110, 103],
        name_dbsize() == seq![100u8, 98, 115, 105, 122, 101],
{
    reveal_strlit("get");
    reveal_strlit("set");
    reveal_strlit("echo");
    reveal_strlit("ping");
    reveal_strlit("dbsize");
    vstd::string::is_ascii_spec_bytes("get");
    vstd::string::is_ascii_spec_bytes("set");
    vstd::string::is_ascii_spec_bytes("echo");
    vstd::string::is_ascii_spec_bytes("ping");
    vstd::string::is_ascii_spec_bytes("dbsize");
    assert(name_get() =~= seq![103u8, 101, 116]);
    assert(name_set() =~= seq![115u8, 101, 116]);
    assert(name_echo() =~= seq![101u8, 99, 104, 111]);
    assert(name_ping() =~= seq![112u8, 105, 110, 103]);
    assert(name_dbsize() =~= seq![100u8, 98, 115, 105, 122, 101]);
}

/// A command frame: an array of bulk strings.
pub open spec fn command_frame(parts: Seq<Seq<u8>>) -> SpecFrame {
    SpecFrame::Array(Seq::new(parts.len(), |i: int| SpecFrame::Bulk(parts[i])))
}

/// An array of a name that reads `get` in lower case and a key is `GET key`.
pub proof fn law_read_get(name: Seq<u8>, key: Seq<u8>)
    requires
        ascii_lowercase(name) == name_get(),
    ensures
        spec_from_frame(command_frame(seq![name, key])) == Ok::<SpecCommand, SpecParseError>(SpecCommand::Get(key)),
{
    let parts = command_frame(seq![name, key])->Array_0;
    assert(parts.drop_first().drop_first() =~= Seq::<SpecFrame>::empty());
}

/// An array of a name that reads `set` in lower case, a key and a value is `SET key value`.
pub proof fn law_read_set(name: Seq<u8>, key: Seq<u8>, value: Seq<u8>)
    requires
        ascii_lowercase(name) == name_set(),
    ensures
        spec_from_frame(command_frame(seq![name, key, value])) == Ok::<SpecCommand, SpecParseError>(
            SpecCommand::SetCommand(key, value),
        ),
{
    let parts = command_frame(seq![name, key, value])->Array_0;
    lemma_command_names();
    assert(parts.drop_first().drop_first().drop_first() =~= Seq::<SpecFrame>::empty());
}


/// An array of a name that reads `echo` in lower case and a message is `ECHO message`.
pub proof fn law_read_echo(name: Seq<u8>, message: Seq<u8>)
    requires
        ascii_lowercase(name) == name_echo(),
    ensures
        spec_from_frame(command_frame(seq![name, message])) == Ok::<SpecCommand, SpecParseError>(
            SpecCommand::Echo(message),
        ),
{
    let parts = command_frame(seq![name, message])->Array_0;
    lemma_command_names();
    assert(parts.drop_first().drop_first() =~= Seq::<SpecFrame>::empty());
}

/// A lone name that reads `ping` in lower case is `PING`; with a message it
/// is `PING message`.
pub proof fn law_read_ping(name: Seq<u8>, message: Seq<u8>)
    requires
        ascii_lowercase(name) == name_ping(),
    ensures
        spec_from_frame(command_frame(seq![name])) == Ok::<SpecCommand, SpecParseError>(
            SpecCommand::Ping(None),
        ),
        spec_from_frame(command_frame(seq![name, message])) == Ok::<SpecCommand, SpecParseError>(
            SpecCommand::Ping(Some(message)),
        ),
{
    lemma_command_names();
    let p1 = command_frame(seq![name])->Array_0;
    assert(p1.drop_first() =~= Seq::<SpecFrame>::empty());
    let p2 = command_frame(seq![name, message])->Array_0;
    assert(p2.drop_first().drop_first() =~= Seq::<SpecFrame>::empty());
}

/// A lone name that reads `dbsize` in lower case is `DBSIZE`.
pub proof fn law_read_dbsize(name: Seq<u8>)
    requires
        ascii_lowercase(name) == name_dbsize(),
    ensures
        spec_from_frame(command_frame(seq![name])) == Ok::<SpecCommand, SpecParseError>(
            SpecCommand::DbSize,
        ),
{
    lemma_command_names();
    let p1 = command_frame(seq![name])->Array_0;
    assert(p1.drop_first() =~= Seq::<SpecFrame>::empty());
}

/// A name that reads as no known command, whatever follows, is an unknown
/// command that keeps the name as it was written.
pub proof fn law_read_unknown(name: Seq<u8>, args: Seq<Seq<u8>>)
    requires
        ascii_lowercase(name) != name_get(),
        ascii_lowercase(name) != name_set(),
        ascii_lowercase(name) != name_echo(),
        ascii_lowercase(name) != name_ping(),
        ascii_lowercase(name) != name_dbsize(),
    ensures
        spec_from_frame(command_frame(seq![name] + args)) == Ok::<SpecCommand, SpecParseError>(
            SpecCommand::Unknown(name),
        ),
{
    let parts = command_frame(seq![name] + args)->Array_0;
    assert(parts[0] == SpecFrame::Bulk(name));
}

/// Command names are read in either case: `set`, `SET`, `get`, `GET`,
/// `echo`, `ECHO`, `ping`, `PING`, `dbsize` and `DBSIZE` name their commands.
pub proof fn law_read_names_in_either_case(key: Seq<u8>, value: Seq<u8>)
    ensures
        spec_from_frame(command_frame(seq![seq![115u8, 101, 116], key, value])) == Ok::<
            SpecCommand,
            SpecParseError,
        >(SpecCommand::SetCommand(key, value)),
        spec_from_frame(command_frame(seq![seq![83u8, 69, 84], key, value])) == Ok::<
            SpecCommand,
            SpecParseError,
        >(SpecCommand::SetCommand(key, value)),
        spec_from_frame(command_frame(seq![seq![103u8, 101, 116], key])) == Ok::<
            SpecCommand,
            SpecParseError,
        >(SpecCommand::Get(key)),
        spec_from_frame(command_frame(seq![seq![71u8, 69, 84], key])) == Ok::<
            SpecCommand,
            SpecParseError,
        >(SpecCommand::Get(key)),
        spec_from_frame(command_frame(seq![seq![101u8, 99, 104, 111], key])) == Ok::<
            SpecCommand,
            SpecParseError,
        >(SpecCommand::Echo(key)),
        spec_from_frame(command_frame(seq![seq![69u8, 67, 72, 79], key])) == Ok::<
            SpecCommand,
            SpecParseError,
        >(SpecCommand::Echo(key)),
        spec_from_frame(command_frame(seq![seq![112u8, 105, 110, 103]])) == Ok::<
            SpecCommand,
            SpecParseError,
        >(SpecCommand::Ping(None)),
        spec_from_frame(command_frame(seq![seq![80u8, 73, 78, 71], key])) == Ok::<
            SpecCommand,
            SpecParseError,
        >(SpecCommand::Ping(Some(key))),
        spec_from_frame(command_frame(seq![seq![100u8, 98, 115, 105, 122, 101]])) == Ok::<
            SpecCommand,
            SpecParseError,
        >(SpecCommand::DbSize),
        spec_from_frame(command_frame(seq![seq![68u8, 66, 83, 73, 90, 69]])) == Ok::<
            SpecCommand,
            SpecParseError,
        >(SpecCommand::DbSize),
{
    lemma_command_names();
    assert(ascii_lowercase(seq![115u8, 101, 116]) =~= name_set());
    assert(ascii_lowercase(seq![83u8, 69, 84]) =~= name_set());
    assert(ascii_lowercase(seq![103u8, 101, 116]) =~= name_get());
    assert(ascii_lowercase(seq![71u8, 69, 84]) =~= name_get());
    assert(ascii_lowercase(seq![101u8, 99, 104, 111]) =~= name_echo());
    assert(ascii_lowercase(seq![69u8, 67, 72, 79]) =~= name_echo());
    assert(ascii_lowercase(seq![112u8, 105, 110, 103]) =~= name_ping());
    assert(ascii_lowercase(seq![80u8, 73, 78, 71]) =~= name_ping());
    assert(ascii_lowercase(seq![100u8, 98, 115, 105, 122, 101]) =~= name_dbsize());
    assert(ascii_lowercase(seq![68u8, 66, 83, 73, 90, 69]) =~= name_dbsize());
    law_read_set(seq![115u8, 101, 116], key, value);
    law_read_set(seq![83u8, 69, 84], key, value);
    law_read_get(seq![103u8, 101, 116], key);
    law_read_get(seq![71u8, 69, 84], key);
    law_read_echo(seq![101u8, 99, 104, 111], key);
    law_read_echo(seq![69u8, 67, 72, 79], key);
    law_read_ping(seq![112u8, 105, 110, 103], key);
    law_read_ping(seq![80u8, 73, 78, 71], key);
    law_read_dbsize(seq![100u8, 98, 115, 105, 122, 101]);
    law_read_dbsize(seq![68u8, 66, 83, 73, 90, 69]);
}

/// `ECHO m` replies with exactly `m`, whatever its length, and leaves the
/// store as it was.
pub proof fn law_echo_replies_with_message(m: Seq<u8>, db: Map<Seq<u8>, SpecValue>)
    ensures
        apply_spec(SpecCommand::Echo(m), db) == (db, Ok::<SpecFrame, CommandError>(SpecFrame::Bulk(m))),
{
}

/// `PING` replies with the simple string `PONG`; `PING m` replies with
/// exactly `m`. Neither changes the store.
pub proof fn law_ping_replies(m: Seq<u8>, db: Map<Seq<u8>, SpecValue>)
    ensures
        apply_spec(SpecCommand::Ping(None), db) == (
            db,
            Ok::<SpecFrame, CommandError>(SpecFrame::Simple(seq![80u8, 79, 78, 71])),
        ),
        apply_spec(SpecCommand::Ping(Some(m)), db) == (db, Ok::<SpecFrame, CommandError>(SpecFrame::Bulk(m))),
{
    reveal_strlit("PONG");
    vstd::string::is_ascii_spec_bytes("PONG");
    assert(crate::command::pong() =~= seq![80u8, 79, 78, 71]);
}

/// `SET k v` stores `v` under `k`, keeps every other key, and replies with
/// the simple string `OK`.
pub proof fn law_set_stores_and_replies_ok(k: Seq<u8>, v: Seq<u8>, db: Map<Seq<u8>, SpecValue>)
    ensures
        apply_spec(SpecCommand::SetCommand(k, v), db).0.contains_key(k),
        apply_spec(SpecCommand::SetCommand(k, v), db).0[k] == SpecValue::Str(v),
        forall|other: Seq<u8>|
            other != k ==> (#[trigger] apply_spec(SpecCommand::SetCommand(k, v), db).0.contains_key(other)
                == db.contains_key(other) && (db.contains_key(other) ==> apply_spec(
                SpecCommand::SetCommand(k, v),
                db,
            ).0[other] == db[other])),
        apply_spec(SpecCommand::SetCommand(k, v), db).1 == Ok::<SpecFrame, CommandError>(
            SpecFrame::Simple(seq![79u8, 75]),
        ),
{
    reveal_strlit("OK");
    vstd::string::is_ascii_spec_bytes("OK");
    assert(crate::command::ok_reply() =~= seq![79u8, 75]);
}

/// `GET k` replies with the string stored under `k`, null where nothing is,
/// and an error where something other than a string is; it changes nothing.
pub proof fn law_get_replies(k: Seq<u8>, db: Map<Seq<u8>, SpecValue>)
    ensures
        apply_spec(SpecCommand::Get(k), db).0 == db,
        !db.contains_key(k) ==> apply_spec(SpecCommand::Get(k), db).1 == Ok::<SpecFrame, CommandError>(
            SpecFrame::Null,
        ),
        db.contains_key(k) && db[k] is Str ==> apply_spec(SpecCommand::Get(k), db).1 == Ok::<
            SpecFrame,
            CommandError,
        >(SpecFrame::Bulk(db[k]->Str_0)),
        db.contains_key(k) && !(db[k] is Str) ==> apply_spec(SpecCommand::Get(k), db).1 == Ok::<
            SpecFrame,
            CommandError,
        >(SpecFrame::Error(wrong_type_reply())),
        ascii_chars(wrong_type_reply()) == "WRONGTYPE Operation against a key holding the wrong kind of value"@,
{
    reveal_strlit("WRONGTYPE Operation against a key holding the wrong kind of value");
    vstd::string::is_ascii_spec_bytes("WRONGTYPE Operation against a key holding the wrong kind of value");
    assert(ascii_chars(wrong_type_reply()) =~= "WRONGTYPE Operation against a key holding the wrong kind of value"@);
}

/// The bytes of ASCII text, one per character.
pub open spec fn ascii_bytes(c: Seq<char>) -> Seq<u8> {
    Seq::new(c.len(), |i: int| c[i] as u8)
}

/// Encoding text as UTF-8 goes piece by piece.
proof fn lemma_encode_utf8_add(a: Seq<char>, b: Seq<char>)
    ensures
        encode_utf8(a + b) == encode_utf8(a) + encode_utf8(b),
    decreases a.len(),
{
    if a.len() == 0 {
        assert(a + b =~= b);
        assert(encode_utf8(a) =~= Seq::<u8>::empty());
        assert(encode_utf8(a) + encode_utf8(b) =~= encode_utf8(b));
    } else {
        assert((a + b).drop_first() =~= a.drop_first() + b);
        lemma_encode_utf8_add(a.drop_first(), b);
        assert(encode_utf8(a + b) =~= encode_utf8(a) + encode_utf8(b));
    }
}

/// A command the server does not know replies with the error
/// `ERR unknown command '`, the name as text, and `'`, and changes nothing.
pub proof fn law_unknown_replies(name: Seq<u8>, db: Map<Seq<u8>, SpecValue>)
    ensures
        apply_spec(SpecCommand::Unknown(name), db) == (
            db,
            Ok::<SpecFrame, CommandError>(
                SpecFrame::Error(
                    ascii_bytes("ERR unknown command '"@) + encode_utf8(utf8_lossy_text(name))
                        + seq![39u8],
                ),
            ),
        ),
{
    let pre = "ERR unknown command '"@;
    let q = "'"@;
    lemma_encode_utf8_add(pre, utf8_lossy_text(name));
    lemma_encode_utf8_add(pre + utf8_lossy_text(name), q);
    reveal_strlit("ERR unknown command '");
    reveal_strlit("'");
    vstd::utf8::is_ascii_chars_encode_utf8(pre);
    vstd::utf8::is_ascii_chars_encode_utf8(q);
    assert(encode_utf8(pre) =~= ascii_bytes(pre));
    assert(encode_utf8(q) =~= seq![39u8]);
}


/// `DBSIZE` replies with the number of keys and changes nothing.
pub proof fn law_dbsize_counts_keys(db: Map<Seq<u8>, SpecValue>)
    ensures
        apply_spec(SpecCommand::DbSize, db) == (
            db,
            Ok::<SpecFrame, CommandError>(SpecFrame::Integer(db.dom().len() as i64)),
        ),
{
}

/// The error for parts left over after a command.
pub open spec fn leftover_error() -> SpecParseError {
    SpecParseError::Other("protocol error; expected end of frame, but there was more"@)
}

/// A known command with an argument missing ends the stream early; one with
/// an argument more than it takes is an error; a frame that is not an array
/// is no command.
pub proof fn law_read_errors(name: Seq<u8>, a: Seq<u8>, b: Seq<u8>, c: Seq<u8>, f: SpecFrame)
    ensures
        ascii_lowercase(name) == name_get() ==> spec_from_frame(command_frame(seq![name])) == Err::<
            SpecCommand,
            SpecParseError,
        >(SpecParseError::EndOfStream),
        ascii_lowercase(name) == name_get() ==> spec_from_frame(command_frame(seq![name, a, b])) == Err::<
            SpecCommand,
            SpecParseError,
        >(leftover_error()),
        ascii_lowercase(name) == name_set() ==> spec_from_frame(command_frame(seq![name, a])) == Err::<
            SpecCommand,
            SpecParseError,
        >(SpecParseError::EndOfStream),
        ascii_lowercase(name) == name_set() ==> spec_from_frame(command_frame(seq![name, a, b, c])) == Err::<
            SpecCommand,
            SpecParseError,
        >(leftover_error()),
        ascii_lowercase(name) == name_echo() ==> spec_from_frame(command_frame(seq![name])) == Err::<
            SpecCommand,
            SpecParseError,
        >(SpecParseError::EndOfStream),
        ascii_lowercase(name) == name_echo() ==> spec_from_frame(command_frame(seq![name, a, b])) == Err::<
            SpecCommand,
            SpecParseError,
        >(leftover_error()),
        ascii_lowercase(name) == name_ping() ==> spec_from_frame(command_frame(seq![name, a, b])) == Err::<
            SpecCommand,
            SpecParseError,
        >(leftover_error()),
        ascii_lowercase(name) == name_dbsize() ==> spec_from_frame(command_frame(seq![name, a])) == Err::<
            SpecCommand,
            SpecParseError,
        >(leftover_error()),
        !(f is Array) ==> spec_from_frame(f) == Err::<SpecCommand, SpecParseError>(
            SpecParseError::Other("protocol error; expected array, got "@ + display(f)),
        ),
{
    lemma_command_names();
    let p1 = command_frame(seq![name])->Array_0;
    let p2 = command_frame(seq![name, a])->Array_0;
    let p3 = command_frame(seq![name, a, b])->Array_0;
    let p4 = command_frame(seq![name, a, b, c])->Array_0;
    assert(p1.drop_first() =~= Seq::<SpecFrame>::empty());
    assert(p2.drop_first().drop_first() =~= Seq::<SpecFrame>::empty());
    assert(p2.drop_first()[0] == SpecFrame::Bulk(a));
    assert(p3.drop_first()[0] == SpecFrame::Bulk(a));
    assert(p3.drop_first().drop_first()[0] == SpecFrame::Bulk(b));
    assert(p3.drop_first().drop_first().drop_first() =~= Seq::<SpecFrame>::empty());
    assert(p4.drop_first()[0] == SpecFrame::Bulk(a));
    assert(p4.drop_first().drop_first()[0] == SpecFrame::Bulk(b));
    assert(p4.drop_first().drop_first().drop_first()[0] == SpecFrame::Bulk(c));
}

} // verus!
