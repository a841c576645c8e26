//! Commands and their record format.
//!
//! A record is a JSON object with one member, named after the command, whose
//! value is an object of the command's fields:
//! `{"Set":{"key":K,"value":V}}` or `{"Remove":{"key":K}}`, where `K` and `V`
//! are JSON strings.

use vstd::prelude::*;
use crate::error::KvError;

verus! {

/// A logged mutation of the store.
#[derive(Debug)]
pub enum Commend {
    /// Gives a key its value. Its record is tagged `Set`.
    Put { key: String, value: String },
    Remove { key: String },
}

/// The mathematical value of a command.
pub enum CommandView {
    Put { key: Seq<char>, value: Seq<char> },
    Remove { key: Seq<char> },
}

impl View for Commend {
    type V = CommandView;

    open spec fn view(&self) -> CommandView {
        match *self {
            Commend::Put { key, value } => CommandView::Put { key: key@, value: value@ },
            Commend::Remove { key } => CommandView::Remove { key: key@ },
        }
    }
}

/// A decoded JSON object of objects of strings, members in the order of
/// their names.
pub type Entries = Vec<(String, Vec<(String, String)>)>;

/// The mathematical value of decoded entries.
pub type EntriesView = Seq<(Seq<char>, Seq<(Seq<char>, Seq<char>)>)>;

/// The texts of a list of fields.
pub open spec fn fields_view(fields: Vec<(String, String)>) -> Seq<(Seq<char>, Seq<char>)> {
    Seq::new(fields@.len(), |i: int| (fields@[i].0@, fields@[i].1@))
}

/// The texts of decoded entries.
pub open spec fn entries_view(entries: Entries) -> EntriesView {
    Seq::new(entries@.len(), |i: int| (entries@[i].0@, fields_view(entries@[i].1)))
}

/// The JSON text of a string, as `serde_json::to_vec` writes it; `None`
/// where it reports an error.
pub uninterp spec fn json_text(s: Seq<char>) -> Option<Seq<u8>>;

/// What `serde_json::from_slice` reads from a whole byte string as an object
/// of objects of strings; `None` where it reports an error.
pub uninterp spec fn json_record(bytes: Seq<u8>) -> Option<EntriesView>;

/// What a `serde_json::StreamDeserializer` over a byte string yields first:
/// `None` at the end of the input, `Some(None)` for an error, else the object
/// read and the number of bytes read so far.
pub uninterp spec fn json_next(bytes: Seq<u8>) -> Option<Option<(EntriesView, int)>>;

/// Calls `serde_json::to_vec` on a string. The contract only gives the
/// outcome its name, `json_text`.
#[verifier::external_body]
fn json_string(s: &str) -> (r: std::result::Result<Vec<u8>, serde_json::Error>)
    ensures
        match r {
            Ok(bytes) => json_text(s@) == Some(bytes@),
            Err(_) => json_text(s@) is None,
        },
{
    serde_json::to_vec(s)
}

/// Calls `serde_json::from_slice` for a map of maps of strings and lists the
/// members. The contract only gives the outcome its name, `json_record`.
#[verifier::external_body]
fn read_record(bytes: &[u8]) -> (r: std::result::Result<Entries, serde_json::Error>)
    ensures
        match r {
            Ok(entries) => json_record(bytes@) == Some(entries_view(entries)),
            Err(_) => json_record(bytes@) is None,
        },
{
    let object: std::collections::BTreeMap<String, std::collections::BTreeMap<String, String>> =
        serde_json::from_slice(bytes)?;
    Ok(object.into_iter().map(|(tag, fields)| (tag, fields.into_iter().collect())).collect())
}

/// Takes the first item of `serde_json::Deserializer::from_slice(bytes)
/// .into_iter()` for a map of maps of strings, with the stream's
/// `byte_offset()` after it. The contract only gives the outcome its name,
/// `json_next`.
#[verifier::external_body]
fn read_next(bytes: &[u8]) -> (r: Option<std::result::Result<(Entries, usize), serde_json::Error>>)
    ensures
        match r {
            None => json_next(bytes@) is None,
            Some(Err(_)) => json_next(bytes@) == Some(None::<(EntriesView, int)>),
            Some(Ok((entries, read))) => json_next(bytes@) == Some(
                Some((entries_view(entries), read as int)),
            ),
        },
{
    let mut stream = serde_json::Deserializer::from_slice(bytes).into_iter::<
        std::collections::BTreeMap<String, std::collections::BTreeMap<String, String>>,
    >();
    match stream.next() {
        None => None,
        Some(Err(e)) => Some(Err(e)),
        Some(Ok(object)) => Some(Ok((
            object.into_iter().map(|(tag, fields)| (tag, fields.into_iter().collect())).collect(),
            stream.byte_offset(),
        ))),
    }
}

/// Makes the `serde_json::Error` for data that is well-formed JSON but no
/// command, with `serde::de::Error::custom`. Nothing is claimed of it.
#[verifier::external_body]
fn no_command() -> (e: serde_json::Error) {
    serde::de::Error::custom("the record is no command")
}

/// `{"Set":{"key":`
pub open spec fn set_head() -> Seq<u8> {
    seq![123u8, 34u8, 83u8, 101u8, 116u8, 34u8, 58u8, 123u8, 34u8, 107u8, 101u8, 121u8, 34u8, 58u8]
}

/// `,"value":`
pub open spec fn value_head() -> Seq<u8> {
    seq![44u8, 34u8, 118u8, 97u8, 108u8, 117u8, 101u8, 34u8, 58u8]
}

/// `{"Remove":{"key":`
pub open spec fn remove_head() -> Seq<u8> {
    seq![
        123u8, 34u8, 82u8, 101u8, 109u8, 111u8, 118u8, 101u8, 34u8, 58u8, 123u8, 34u8, 107u8,
        101u8, 121u8, 34u8, 58u8,
    ]
}

/// `}}`
pub open spec fn record_tail() -> Seq<u8> {
    seq![125u8, 125u8]
}

/// The record of a command; `None` where one of its strings has no JSON text.
pub open spec fn encoding(c: CommandView) -> Option<Seq<u8>> {
    match c {
        CommandView::Put { key, value } => match (json_text(key), json_text(value)) {
            (Some(k), Some(v)) => Some(set_head() + k + value_head() + v + record_tail()),
            _ => None,
        },
        CommandView::Remove { key } => match json_text(key) {
            Some(k) => Some(remove_head() + k + record_tail()),
            None => None,
        },
    }
}

/// The command that a decoded object stands for, if it is one: an object
/// with the one member `Set`, of the fields `key` and `value`, or with the
/// one member `Remove`, of the field `key`.
pub open spec fn command_of(e: EntriesView) -> Option<CommandView> {
    if e.len() != 1 {
        None
    } else if e[0].0 == "Set"@ && e[0].1.len() == 2 && e[0].1[0].0 == "key"@ && e[0].1[1].0
        == "value"@ {
        Some(CommandView::Put { key: e[0].1[0].1, value: e[0].1[1].1 })
    } else if e[0].0 == "Remove"@ && e[0].1.len() == 1 && e[0].1[0].0 == "key"@ {
        Some(CommandView::Remove { key: e[0].1[0].1 })
    } else {
        None
    }
}

/// Appends `src` to `out`.
pub fn append_bytes(out: &mut Vec<u8>, src: &[u8])
    ensures
        final(out)@ == old(out)@ + src@,
{
    let mut i: usize = 0;
    while i < src.len()
        invariant
            i <= src@.len(),
            out@ == old(out)@ + src@.subrange(0, i as int),
        decreases src@.len() - i,
    {
        out.push(src[i]);
        i += 1;
    }
    assert(src@.subrange(0, i as int) == src@);
}

/// Whether a string holds exactly this text.
fn same_text(a: &String, b: &str) -> (same: bool)
    ensures
        same == (a@ == b@),
{
    let owned = b.to_owned();
    *a == owned
}

impl Commend {
    /// The command that gives `key` the value `value`.
    pub fn set(key: String, value: String) -> (c: Commend)
        ensures
            c == (Commend::Put { key, value }),
    {
        Commend::Put { key, value }
    }

    /// The command that removes `key`.
    pub fn remove(key: String) -> (c: Commend)
        ensures
            c == (Commend::Remove { key }),
    {
        Commend::Remove { key }
    }

    /// The record of this command. Fails only where `serde_json` cannot
    /// write one of its strings.
    pub fn encode(&self) -> (r: std::result::Result<Vec<u8>, KvError>)
        ensures
            match r {
                Ok(bytes) => encoding(self@) == Some(bytes@),
                Err(e) => encoding(self@) is None && e is SerdeErr,
            },
    {
        match self {
            Commend::Put { key, value } => {
                let k = match json_string(key.as_str()) {
                    Ok(k) => k,
                    Err(e) => {
                        return Err(KvError::SerdeErr(e));
                    },
                };
                let v = match json_string(value.as_str()) {
                    Ok(v) => v,
                    Err(e) => {
                        return Err(KvError::SerdeErr(e));
                    },
                };
                let head: Vec<u8> = vec![
                    123u8, 34u8, 83u8, 101u8, 116u8, 34u8, 58u8, 123u8, 34u8, 107u8, 101u8, 121u8,
                    34u8, 58u8,
                ];
                let mid: Vec<u8> = vec![44u8, 34u8, 118u8, 97u8, 108u8, 117u8, 101u8, 34u8, 58u8];
                let tail: Vec<u8> = vec![125u8, 125u8];
                assert(head@ == set_head());
                assert(mid@ == value_head());
                assert(tail@ == record_tail());
                let mut out: Vec<u8> = Vec::new();
                append_bytes(&mut out, head.as_slice());
                append_bytes(&mut out, k.as_slice());
                append_bytes(&mut out, mid.as_slice());
                append_bytes(&mut out, v.as_slice());
                append_bytes(&mut out, tail.as_slice());
                assert(out@ == set_head() + k@ + value_head() + v@ + record_tail());
                Ok(out)
            },
            Commend::Remove { key } => {
                let k = match json_string(key.as_str()) {
                    Ok(k) => k,
                    Err(e) => {
                        return Err(KvError::SerdeErr(e));
                    },
                };
                let head: Vec<u8> = vec![
                    123u8, 34u8, 82u8, 101u8, 109u8, 111u8, 118u8, 101u8, 34u8, 58u8, 123u8, 34u8,
                    107u8, 101u8, 121u8, 34u8, 58u8,
                ];
                let tail: Vec<u8> = vec![125u8, 125u8];
                assert(head@ == remove_head());
                assert(tail@ == record_tail());
                let mut out: Vec<u8> = Vec::new();
                append_bytes(&mut out, head.as_slice());
                append_bytes(&mut out, k.as_slice());
                append_bytes(&mut out, tail.as_slice());
                assert(out@ == remove_head() + k@ + record_tail());
                Ok(out)
            },
        }
    }

    /// The command that a decoded object stands for, if it is one.
    pub fn from_entries(entries: &Entries) -> (r: Option<Commend>)
        ensures
            match r {
                Some(c) => command_of(entries_view(*entries)) == Some(c@),
                None => command_of(entries_view(*entries)) is None,
            },
    {
        if entries.len() != 1 {
            return None;
        }
        let tag = &entries[0].0;
        let fields = &entries[0].1;
        assert(entries_view(*entries)[0].1 == fields_view(*fields));
        if same_text(tag, "Set") && fields.len() == 2 && same_text(&fields[0].0, "key")
            && same_text(&fields[1].0, "value") {
            Some(Commend::Put { key: fields[0].1.clone(), value: fields[1].1.clone() })
        } else if same_text(tag, "Remove") && fields.len() == 1 && same_text(&fields[0].0, "key") {
            Some(Commend::Remove { key: fields[0].1.clone() })
        } else {
            None
        }
    }

    /// Decodes bytes that hold exactly one record.
    pub fn decode(bytes: &[u8]) -> (r: std::result::Result<Commend, KvError>)
        ensures
            decoded_as(r, json_record(bytes@)),
    {
        Commend::from_decoded(read_record(bytes))
    }

    /// Turns what the JSON reader gave for a record into a command: the
    /// reader's error is passed on, and an object that is no command is
    /// malformed data too, a `SerdeErr`.
    pub fn from_decoded(read: std::result::Result<Entries, serde_json::Error>) -> (r:
        std::result::Result<Commend, KvError>)
        ensures
            decoded_as(
                r,
                match read {
                    Ok(entries) => Some(entries_view(entries)),
                    Err(_) => None,
                },
            ),
            read is Err ==> r == Err::<Commend, KvError>(KvError::SerdeErr(read->Err_0)),
    {
        match read {
            Err(e) => Err(KvError::SerdeErr(e)),
            Ok(entries) => match Commend::from_entries(&entries) {
                Some(c) => Ok(c),
                None => Err(KvError::SerdeErr(no_command())),
            },
        }
    }
}

/// How the outcome of decoding follows from what the JSON reader gave.
pub open spec fn decoded_as(r: std::result::Result<Commend, KvError>, read: Option<EntriesView>) -> bool {
    match read {
        None => r is Err && r->Err_0 is SerdeErr,
        Some(e) => match command_of(e) {
            None => r is Err && r->Err_0 is SerdeErr,
            Some(c) => r is Ok && r->Ok_0@ == c,
        },
    }
}

/// What the next record of a log is: nothing more, a failure, or a command
/// with the number of bytes it takes.
pub enum NextRecord {
    End,
    Malformed,
    Record { command: CommandView, read: int },
}

/// The next record of `bytes`, read from its start.
pub open spec fn next_record(bytes: Seq<u8>) -> NextRecord {
    match json_next(bytes) {
        None => NextRecord::End,
        Some(None) => NextRecord::Malformed,
        Some(Some((e, read))) => match command_of(e) {
            Some(command) if 0 < read <= bytes.len() => NextRecord::Record { command, read },
            _ => NextRecord::Malformed,
        },
    }
}

/// How the outcome of reading the next record follows from what the JSON
/// stream gave: an object that is no command, or a count of bytes that is
/// zero or beyond the input, is a malformed record and gives a `SerdeErr`,
/// as the reader's own error does.
pub open spec fn next_as(
    r: Option<std::result::Result<(Commend, usize), KvError>>,
    next: NextRecord,
) -> bool {
    match next {
        NextRecord::End => r is None,
        NextRecord::Malformed => r is Some && r->Some_0 is Err && r->Some_0->Err_0 is SerdeErr,
        NextRecord::Record { command, read } => r is Some && r->Some_0 is Ok && r->Some_0->Ok_0.0@
            == command && r->Some_0->Ok_0.1 == read,
    }
}

impl Commend {
    /// Reads the first record of `bytes`.
    pub fn decode_next(bytes: &[u8]) -> (r: Option<std::result::Result<(Commend, usize), KvError>>)
        ensures
            next_as(r, next_record(bytes@)),
    {
        match read_next(bytes) {
            None => None,
            Some(Err(e)) => Some(Err(KvError::SerdeErr(e))),
            Some(Ok((entries, read))) => {
                if read == 0 || read > bytes.len() {
                    return Some(Err(KvError::SerdeErr(no_command())));
                }
                match Commend::from_entries(&entries) {
                    Some(c) => Some(Ok((c, read))),
                    None => Some(Err(KvError::SerdeErr(no_command()))),
                }
            },
        }
    }
}

} // verus!
