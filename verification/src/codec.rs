//! The record format: one line `id;username;password` for each entry, the
//! two fields escaped, the lines joined by newlines and in ascending order of
//! id.

use vstd::prelude::*;
use crate::collection::{
    is_id_char, lemma_ascending_unique, mapping, valid_id, CredentialCollection, CredentialsEntry,
    EntryView, RecordView,
};
use crate::escape::{
    escape_chars, escape_spec, lemma_escape_free_of, lemma_escape_round_trip, sentinel,
    survives_escaping, unescape_chars, unescape_spec,
};
use crate::text::{
    append_chars, chars_of, free_of, join_with, lemma_split_append_field, lemma_split_free,
    lemma_split_join, split_chars, split_on, string_of, views_of,
};

verus! {

/// The character that ends a line.
pub const NEWLINE: char = '\n';

/// A line of the text does not split into exactly three fields.
#[derive(Debug, Clone, Copy, PartialEq, Eq, Structural)]
pub struct MalformedRecord;

/// The line that holds `record`.
pub open spec fn line_of(record: RecordView) -> Seq<char> {
    record.id.push(';') + escape_spec(record.entry.username).push(';') + escape_spec(
        record.entry.password,
    )
}

/// The lines that hold `records`, in order.
pub open spec fn lines_of(records: Seq<RecordView>) -> Seq<Seq<char>> {
    Seq::new(records.len(), |i: int| line_of(records[i]))
}

/// The text that holds `records`: their lines with a newline between
/// neighbours and none at the end.
pub open spec fn encode_spec(records: Seq<RecordView>) -> Seq<char> {
    join_with(lines_of(records), '\n')
}

/// The record that `line` holds, if the line has exactly three fields.
pub open spec fn parse_line(line: Seq<char>) -> Option<RecordView> {
    let fields = split_on(line, ';');
    if fields.len() == 3 {
        Some(
            RecordView {
                id: fields[0],
                entry: EntryView {
                    username: unescape_spec(fields[1]),
                    password: unescape_spec(fields[2]),
                },
            },
        )
    } else {
        None
    }
}

/// The mapping that `lines` hold: empty lines are passed over, every other
/// line must hold a record, and a later record replaces an earlier one with
/// the same id.
pub open spec fn decode_lines(lines: Seq<Seq<char>>) -> Result<
    Map<Seq<char>, EntryView>,
    MalformedRecord,
>
    decreases lines.len(),
{
    if lines.len() == 0 {
        Ok(Map::empty())
    } else {
        match decode_lines(lines.drop_last()) {
            Err(e) => Err(e),
            Ok(m) => if lines.last().len() == 0 {
                Ok(m)
            } else {
                match parse_line(lines.last()) {
                    Some(record) => Ok(m.insert(record.id, record.entry)),
                    None => Err(MalformedRecord),
                }
            },
        }
    }
}

/// The mapping that `text` holds.
pub open spec fn decode_spec(text: Seq<char>) -> Result<Map<Seq<char>, EntryView>, MalformedRecord> {
    decode_lines(split_on(text, '\n'))
}

/// Whether a record can be written and read back unchanged: its id is valid,
/// its fields hold no newline, and its fields survive escaping.
pub open spec fn storable(record: RecordView) -> bool {
    &&& valid_id(record.id)
    &&& free_of(record.entry.username, '\n')
    &&& free_of(record.entry.password, '\n')
    &&& survives_escaping(record.entry.username)
    &&& survives_escaping(record.entry.password)
}

/// Once a line is malformed, no further line mends the text.
pub proof fn lemma_decode_error_stays(lines: Seq<Seq<char>>, k: int)
    requires
        0 <= k <= lines.len(),
        decode_lines(lines.take(k)) is Err,
    ensures
        decode_lines(lines) == Err::<Map<Seq<char>, EntryView>, _>(MalformedRecord),
    decreases lines.len(),
{
    if k == lines.len() {
        assert(lines.take(k) == lines);
    } else {
        assert(lines.drop_last().take(k) == lines.take(k));
        lemma_decode_error_stays(lines.drop_last(), k);
    }
}

/// A valid id holds neither the delimiter nor a newline.
pub proof fn lemma_valid_id_plain(id: Seq<char>)
    requires
        valid_id(id),
    ensures
        free_of(id, ';'),
        free_of(id, '\n'),
{
    assert forall|i: int| 0 <= i < id.len() implies id[i] != ';' && id[i] != '\n' by {
        assert(is_id_char(id[i]));
    }
}

/// The line of a storable record is not empty, holds no newline, and reads
/// back as the record.
pub proof fn lemma_parse_line_of(record: RecordView)
    requires
        storable(record),
    ensures
        line_of(record).len() > 0,
        free_of(line_of(record), '\n'),
        parse_line(line_of(record)) == Some(record),
{
    let id = record.id;
    let user = escape_spec(record.entry.username);
    let pass = escape_spec(record.entry.password);
    lemma_valid_id_plain(id);
    lemma_escape_free_of(record.entry.username, ';');
    lemma_escape_free_of(record.entry.password, ';');
    assert(!sentinel().contains('\n')) by {
        if sentinel().contains('\n') {
            let i = choose|i: int| 0 <= i < sentinel().len() && sentinel()[i] == '\n';
            assert(sentinel()[i] != '\n');
        }
    }
    lemma_escape_free_of(record.entry.username, '\n');
    lemma_escape_free_of(record.entry.password, '\n');
    lemma_escape_round_trip(record.entry.username);
    lemma_escape_round_trip(record.entry.password);
    let line = line_of(record);
    let head = id.push(';') + user;
    assert(line == head.push(';') + pass);
    lemma_split_free(id, ';');
    lemma_split_append_field(id, user, ';');
    lemma_split_append_field(head, pass, ';');
    let fields = split_on(line, ';');
    assert(fields == seq![id].push(user).push(pass));
    assert(fields.len() == 3);
    assert(fields[0] == id && fields[1] == user && fields[2] == pass);
    assert(line.len() > 0);
    assert forall|i: int| 0 <= i < line.len() implies line[i] != '\n' by {
        if i < id.len() {
            assert(line[i] == id[i]);
        } else if i == id.len() {
            assert(line[i] == ';');
        } else if i < head.len() {
            assert(line[i] == user[i - id.len() - 1]);
        } else if i == head.len() {
            assert(line[i] == ';');
        } else {
            assert(line[i] == pass[i - head.len() - 1]);
        }
    }
}

/// The lines of storable records read back as the mapping of the records.
pub proof fn lemma_decode_lines_of(records: Seq<RecordView>)
    requires
        forall|i: int| 0 <= i < records.len() ==> storable(#[trigger] records[i]),
    ensures
        decode_lines(lines_of(records)) == Ok::<_, MalformedRecord>(mapping(records)),
    decreases records.len(),
{
    if records.len() > 0 {
        let init = records.drop_last();
        assert forall|i: int| 0 <= i < init.len() implies storable(#[trigger] init[i]) by {
            assert(init[i] == records[i]);
        }
        lemma_decode_lines_of(init);
        assert(lines_of(records).drop_last() == lines_of(init));
        assert(lines_of(records).last() == line_of(records.last()));
        assert(storable(records[records.len() - 1]));
        lemma_parse_line_of(records.last());
    } else {
        assert(lines_of(records).len() == 0);
    }
}

/// Decoding the encoded form of storable records gives their mapping.
pub proof fn lemma_decode_encode(records: Seq<RecordView>)
    requires
        forall|i: int| 0 <= i < records.len() ==> storable(#[trigger] records[i]),
    ensures
        decode_spec(encode_spec(records)) == Ok::<_, MalformedRecord>(mapping(records)),
{
    let lines = lines_of(records);
    if records.len() == 0 {
        assert(encode_spec(records) == Seq::<char>::empty());
        let only = split_on(Seq::<char>::empty(), '\n');
        assert(only.drop_last() == Seq::<Seq<char>>::empty());
        assert(decode_lines(only.drop_last()) == Ok::<_, MalformedRecord>(
            Map::<Seq<char>, EntryView>::empty(),
        ));
    } else {
        assert forall|i: int| 0 <= i < lines.len() implies free_of(#[trigger] lines[i], '\n') by {
            assert(storable(records[i]));
            lemma_parse_line_of(records[i]);
        }
        lemma_split_join(lines, '\n');
        lemma_decode_lines_of(records);
    }
}

/// Round trip: a collection of storable records that is encoded and decoded
/// again is the collection it was.
pub proof fn lemma_round_trip(stored: CredentialCollection, decoded: CredentialCollection)
    requires
        stored.wf(),
        decoded.wf(),
        forall|i: int| 0 <= i < stored@.len() ==> storable(#[trigger] stored@[i]),
        decode_spec(encode_spec(stored@)) == Ok::<_, MalformedRecord>(decoded.map()),
    ensures
        decoded@ == stored@,
{
    lemma_decode_encode(stored@);
    lemma_ascending_unique(decoded@, stored@);
}

/// Writes the collection as text: one line `id;username;password` for each
/// entry in ascending order of id, with every `;` inside a username or a
/// password written as the sentinel, and a newline between lines.
pub fn convert_map_to_string(map: CredentialCollection) -> (text: String)
    ensures
        text@ == encode_spec(map@),
{
    let mut out: Vec<char> = Vec::new();
    let n = map.len();
    let mut i: usize = 0;
    assert(lines_of(map@).take(0) == Seq::<Seq<char>>::empty());
    while i < n
        invariant
            i <= n == map@.len(),
            out@ == join_with(lines_of(map@).take(i as int), '\n'),
        decreases n - i,
    {
        let ghost done = lines_of(map@).take(i as int);
        let ghost next = lines_of(map@).take(i as int + 1);
        let ghost record = map@[i as int];
        proof {
            assert(next.drop_last() == done);
            assert(next.last() == line_of(record));
        }
        if i > 0 {
            out.push(NEWLINE);
        }
        let ghost start = out@;
        let id = chars_of(map.id_at(i).as_str());
        append_chars(&mut out, id.as_slice());
        out.push(';');
        let entry = map.entry_at(i);
        let username = chars_of(entry.username.as_str());
        escape_chars(username.as_slice(), &mut out);
        out.push(';');
        let password = chars_of(entry.password.as_str());
        escape_chars(password.as_slice(), &mut out);
        proof {
            assert(out@ == start + line_of(record));
            if i == 0 {
                assert(start + line_of(record) == line_of(record));
                assert(next[0] == line_of(record));
            }
        }
        i += 1;
    }
    assert(lines_of(map@).take(n as int) == lines_of(map@));
    let text = string_of(out.as_slice(), 0, out.len());
    assert(out@.subrange(0, out@.len() as int) == out@);
    text
}

/// Reads a collection from text. Every line that is not empty must split on
/// `;` into an id, an escaped username and an escaped password; where two
/// lines have one id the later one stays.
pub fn create_credential_map_from_string(text: String) -> (r: Result<
    CredentialCollection,
    MalformedRecord,
>)
    ensures
        match decode_spec(text@) {
            Ok(m) => r matches Ok(c) && c.wf() && c.map() == m,
            Err(e) => r matches Err(f) && f == e,
        },
{
    let chars = chars_of(text.as_str());
    let lines = split_chars(chars.as_slice(), NEWLINE);
    let ghost all = split_on(text@, '\n');
    let mut collection = CredentialCollection::new();
    let mut i: usize = 0;
    assert(all.take(0) == Seq::<Seq<char>>::empty());
    while i < lines.len()
        invariant
            i <= lines@.len(),
            views_of(lines@) == all,
            all == split_on(text@, '\n'),
            collection.wf(),
            decode_lines(all.take(i as int)) == Ok::<_, MalformedRecord>(collection.map()),
        decreases lines@.len() - i,
    {
        let line = &lines[i];
        proof {
            let next = all.take(i as int + 1);
            assert(next.drop_last() == all.take(i as int));
            assert(next.last() == line@);
        }
        if line.len() > 0 {
            let fields = split_chars(line.as_slice(), ';');
            if fields.len() != 3 {
                proof {
                    assert(views_of(fields@).len() == fields@.len());
                    assert(parse_line(line@) is None);
                    assert(all.take(i as int + 1).last().len() > 0);
                    assert(decode_lines(all.take(i as int + 1)) is Err);
                    lemma_decode_error_stays(all, i as int + 1);
                }
                return Err(MalformedRecord);
            }
            proof {
                assert(views_of(fields@).len() == 3);
                assert(views_of(fields@)[0] == fields@[0]@);
                assert(views_of(fields@)[1] == fields@[1]@);
                assert(views_of(fields@)[2] == fields@[2]@);
            }
            let id = string_of(fields[0].as_slice(), 0, fields[0].len());
            assert(id@ == fields@[0]@) by {
                assert(fields@[0]@.subrange(0, fields@[0]@.len() as int) == fields@[0]@);
            }
            let plain_username = unescape_chars(fields[1].as_slice());
            let username = string_of(plain_username.as_slice(), 0, plain_username.len());
            assert(username@ == plain_username@) by {
                assert(plain_username@.subrange(0, plain_username@.len() as int)
                    == plain_username@);
            }
            let plain_password = unescape_chars(fields[2].as_slice());
            let password = string_of(plain_password.as_slice(), 0, plain_password.len());
            assert(password@ == plain_password@) by {
                assert(plain_password@.subrange(0, plain_password@.len() as int)
                    == plain_password@);
            }
            collection.insert(id, CredentialsEntry { username, password });
        }
        i += 1;
    }
    assert(all.take(lines@.len() as int) == all);
    Ok(collection)
}

} // verus!
