//! The in-memory credential collection: an ordered mapping from id to entry,
//! kept as a vector of records in strictly ascending order of id.

use vstd::prelude::*;
use crate::text::{
    compare, lemma_lex_asymmetric, lemma_lex_irreflexive, lemma_lex_transitive, lex_lt, Position,
};

verus! {

/// The username and password stored under one id.
#[derive(Debug, Clone, PartialEq, Eq)]
pub struct CredentialsEntry {
    pub username: String,
    pub password: String,
}

/// What an entry holds, as character sequences.
pub struct EntryView {
    pub username: Seq<char>,
    pub password: Seq<char>,
}

/// An id together with what is stored under it.
pub struct RecordView {
    pub id: Seq<char>,
    pub entry: EntryView,
}

impl View for CredentialsEntry {
    type V = EntryView;

    open spec fn view(&self) -> EntryView {
        EntryView { username: self.username@, password: self.password@ }
    }
}

impl CredentialsEntry {
    /// A copy of the entry that shares nothing with this one.
    pub fn duplicate(&self) -> (copy: CredentialsEntry)
        ensures
            copy@ == self@,
    {
        CredentialsEntry { username: self.username.clone(), password: self.password.clone() }
    }
}

#[derive(Debug, Clone)]
struct Record {
    id: String,
    entry: CredentialsEntry,
}

/// The credentials of one vault, each under its id, in ascending order of id.
#[derive(Debug, Clone)]
pub struct CredentialCollection {
    records: Vec<Record>,
}

/// Whether `c` may stand in an id: an ASCII letter or digit, `-` or `_`.
pub open spec fn is_id_char(c: char) -> bool {
    let code = c as u32;
    ||| 0x30 <= code <= 0x39
    ||| 0x41 <= code <= 0x5a
    ||| 0x61 <= code <= 0x7a
    ||| c == '-'
    ||| c == '_'
}

/// Whether `id` may be given to a new entry: it is not empty and holds only
/// id characters.
pub open spec fn valid_id(id: Seq<char>) -> bool {
    id.len() > 0 && forall|i: int| 0 <= i < id.len() ==> is_id_char(#[trigger] id[i])
}

/// Whether `id` may be given to a new entry.
pub fn is_valid_id(id: &str) -> (valid: bool)
    ensures
        valid == valid_id(id@),
{
    let chars = crate::text::chars_of(id);
    if chars.len() == 0 {
        return false;
    }
    let mut i: usize = 0;
    while i < chars.len()
        invariant
            i <= chars@.len(),
            chars@ == id@,
            forall|j: int| 0 <= j < i ==> is_id_char(#[trigger] chars@[j]),
        decreases chars@.len() - i,
    {
        let c = chars[i];
        let code = c as u32;
        let fits = (0x30 <= code && code <= 0x39) || (0x41 <= code && code <= 0x5a) || (0x61
            <= code && code <= 0x7a) || c == '-' || c == '_';
        if !fits {
            assert(!is_id_char(id@[i as int]));
            return false;
        }
        i += 1;
    }
    true
}

/// Whether the ids of `records` strictly ascend, so that none occurs twice.
pub open spec fn ascending(records: Seq<RecordView>) -> bool {
    forall|i: int, j: int|
        0 <= i < j < records.len() ==> lex_lt(#[trigger] records[i].id, #[trigger] records[j].id)
}

/// Whether some record of `records` has the id `id`.
pub open spec fn has_id(records: Seq<RecordView>, id: Seq<char>) -> bool {
    exists|i: int| 0 <= i < records.len() && #[trigger] records[i].id == id
}

/// The mapping that results from storing each record under its id, in order.
pub open spec fn mapping(records: Seq<RecordView>) -> Map<Seq<char>, EntryView>
    decreases records.len(),
{
    if records.len() == 0 {
        Map::empty()
    } else {
        mapping(records.drop_last()).insert(records.last().id, records.last().entry)
    }
}

/// The ids of `records`, in order.
pub open spec fn ids_of(records: Seq<RecordView>) -> Seq<Seq<char>> {
    Seq::new(records.len(), |i: int| records[i].id)
}

/// The views of a sequence of strings.
pub open spec fn strings_view(strings: Seq<String>) -> Seq<Seq<char>> {
    Seq::new(strings.len(), |i: int| strings[i]@)
}

/// The mapping has an id exactly when some record has it.
pub proof fn lemma_mapping_domain(records: Seq<RecordView>, id: Seq<char>)
    ensures
        mapping(records).contains_key(id) == has_id(records, id),
    decreases records.len(),
{
    if records.len() > 0 {
        let init = records.drop_last();
        lemma_mapping_domain(init, id);
        if has_id(init, id) {
            let i = choose|i: int| 0 <= i < init.len() && #[trigger] init[i].id == id;
            assert(records[i].id == id);
        }
        if has_id(records, id) {
            let i = choose|i: int| 0 <= i < records.len() && #[trigger] records[i].id == id;
            if i < init.len() {
                assert(init[i].id == id);
            }
        }
        if records.last().id == id {
            assert(records[records.len() - 1].id == id);
        }
    }
}

/// Where ids ascend, the mapping holds under each record's id that record's
/// entry.
pub proof fn lemma_mapping_value(records: Seq<RecordView>, i: int)
    requires
        ascending(records),
        0 <= i < records.len(),
    ensures
        mapping(records).contains_key(records[i].id),
        mapping(records)[records[i].id] == records[i].entry,
    decreases records.len(),
{
    let init = records.drop_last();
    if i < records.len() - 1 {
        assert(ascending(init)) by {
            assert forall|a: int, b: int| 0 <= a < b < init.len() implies lex_lt(
                #[trigger] init[a].id,
                #[trigger] init[b].id,
            ) by {
                assert(lex_lt(records[a].id, records[b].id));
            }
        }
        lemma_mapping_value(init, i);
        assert(init[i] == records[i]);
        assert(lex_lt(records[i].id, records[records.len() - 1].id));
        lemma_lex_irreflexive(records[i].id);
    }
}

/// Where ids ascend, a map that has exactly the records' ids and holds under
/// each the record's entry is the mapping of the records.
pub proof fn lemma_mapping_is(records: Seq<RecordView>, m: Map<Seq<char>, EntryView>)
    requires
        ascending(records),
        forall|id: Seq<char>| m.contains_key(id) == has_id(records, id),
        forall|i: int| 0 <= i < records.len() ==> m[#[trigger] records[i].id] == records[i].entry,
    ensures
        mapping(records) == m,
{
    assert forall|id: Seq<char>| mapping(records).contains_key(id) == m.contains_key(id) by {
        lemma_mapping_domain(records, id);
    }
    assert forall|id: Seq<char>| mapping(records).contains_key(id) implies mapping(records)[id]
        == m[id] by {
        lemma_mapping_domain(records, id);
        let i = choose|i: int| 0 <= i < records.len() && #[trigger] records[i].id == id;
        lemma_mapping_value(records, i);
    }
    assert(mapping(records) =~= m);
}

/// Two ascending sequences of records with the same mapping are the same
/// sequence: the order of a collection is fixed by what it holds.
pub proof fn lemma_ascending_unique(a: Seq<RecordView>, b: Seq<RecordView>)
    requires
        ascending(a),
        ascending(b),
        mapping(a) == mapping(b),
    ensures
        a == b,
    decreases a.len(),
{
    if a.len() == 0 {
        if b.len() > 0 {
            lemma_mapping_value(b, 0);
            lemma_mapping_domain(a, b[0].id);
        }
        assert(a =~= b);
    } else if b.len() == 0 {
        lemma_mapping_value(a, 0);
        lemma_mapping_domain(b, a[0].id);
    } else {
        let la = a.len() - 1;
        let lb = b.len() - 1;
        // The last ids agree: each occurs in the other sequence, at or before its end.
        lemma_mapping_value(a, la);
        lemma_mapping_value(b, lb);
        lemma_mapping_domain(b, a[la].id);
        lemma_mapping_domain(a, b[lb].id);
        let ib = choose|i: int| 0 <= i < b.len() && #[trigger] b[i].id == a[la].id;
        let ia = choose|i: int| 0 <= i < a.len() && #[trigger] a[i].id == b[lb].id;
        if ib < lb {
            assert(lex_lt(b[ib].id, b[lb].id));
            if ia < la {
                assert(lex_lt(a[ia].id, a[la].id));
                lemma_lex_asymmetric(a[la].id, b[lb].id);
            }
        }
        assert(a[la].id == b[lb].id);
        assert(a[la] == b[lb]);
        let ra = a.drop_last();
        let rb = b.drop_last();
        lemma_drop_last(a);
        lemma_drop_last(b);
        assert(mapping(ra) =~= mapping(rb));
        lemma_ascending_unique(ra, rb);
        assert(a == ra.push(a[la]));
        assert(b == rb.push(b[lb]));
    }
}

/// Leaving out the last of ascending records leaves ascending records, whose
/// mapping is the old one without the last id.
pub proof fn lemma_drop_last(records: Seq<RecordView>)
    requires
        ascending(records),
        records.len() > 0,
    ensures
        ascending(records.drop_last()),
        mapping(records.drop_last()) == mapping(records).remove(records.last().id),
{
    let init = records.drop_last();
    let last = records.last();
    assert forall|a: int, b: int| 0 <= a < b < init.len() implies lex_lt(
        #[trigger] init[a].id,
        #[trigger] init[b].id,
    ) by {
        assert(lex_lt(records[a].id, records[b].id));
    }
    lemma_mapping_domain(init, last.id);
    if has_id(init, last.id) {
        let i = choose|i: int| 0 <= i < init.len() && #[trigger] init[i].id == last.id;
        assert(lex_lt(records[i].id, records[records.len() - 1].id));
        lemma_lex_irreflexive(last.id);
    }
    assert(mapping(init) =~= mapping(records).remove(last.id));
}

impl View for CredentialCollection {
    type V = Seq<RecordView>;

    closed spec fn view(&self) -> Seq<RecordView> {
        Seq::new(
            self.records@.len(),
            |i: int| RecordView { id: self.records@[i].id@, entry: self.records@[i].entry@ },
        )
    }
}

impl CredentialCollection {
    /// The invariant of a collection: its ids strictly ascend.
    pub open spec fn wf(&self) -> bool {
        ascending(self@)
    }

    /// The collection as a mapping from id to entry.
    pub open spec fn map(&self) -> Map<Seq<char>, EntryView> {
        mapping(self@)
    }

    /// The empty collection.
    pub fn new() -> (c: CredentialCollection)
        ensures
            c.wf(),
            c@ == Seq::<RecordView>::empty(),
            c.map() == Map::<Seq<char>, EntryView>::empty(),
    {
        let c = CredentialCollection { records: Vec::new() };
        assert(c@ =~= Seq::<RecordView>::empty());
        c
    }

    /// The number of entries.
    pub fn len(&self) -> (n: usize)
        ensures
            n == self@.len(),
    {
        self.records.len()
    }

    /// Whether the collection holds nothing.
    pub fn is_empty(&self) -> (empty: bool)
        ensures
            empty == (self@.len() == 0),
    {
        self.records.len() == 0
    }

    /// The id of the record at position `i` in ascending order.
    pub fn id_at(&self, i: usize) -> (id: &String)
        requires
            i < self@.len(),
        ensures
            id@ == self@[i as int].id,
    {
        &self.records[i].id
    }

    /// The entry of the record at position `i` in ascending order.
    pub fn entry_at(&self, i: usize) -> (entry: &CredentialsEntry)
        requires
            i < self@.len(),
        ensures
            entry@ == self@[i as int].entry,
    {
        &self.records[i].entry
    }

    /// Finds where `id` stands, or would stand, among the ascending ids.
    fn locate(&self, id: &str) -> (r: (usize, bool))
        requires
            self.wf(),
        ensures
            r.0 <= self@.len(),
            r.1 ==> r.0 < self@.len() && self@[r.0 as int].id == id@,
            r.1 == has_id(self@, id@),
            forall|j: int| 0 <= j < r.0 ==> lex_lt(#[trigger] self@[j].id, id@),
            forall|j: int|
                r.0 + (if r.1 { 1int } else { 0int }) <= j < self@.len() ==> lex_lt(
                    id@,
                    #[trigger] self@[j].id,
                ),
    {
        let mut lo: usize = 0;
        let mut hi: usize = self.records.len();
        while lo < hi
            invariant
                self.wf(),
                lo <= hi <= self@.len(),
                self@.len() == self.records@.len(),
                forall|j: int| 0 <= j < lo ==> lex_lt(#[trigger] self@[j].id, id@),
                forall|j: int| hi <= j < self@.len() ==> lex_lt(id@, #[trigger] self@[j].id),
            decreases hi - lo,
        {
            let mid = lo + (hi - lo) / 2;
            let here = &self.records[mid];
            assert(here.id@ == self@[mid as int].id);
            match compare(here.id.as_str(), id) {
                Position::Same => {
                    proof {
                        assert forall|j: int| 0 <= j < mid implies lex_lt(
                            #[trigger] self@[j].id,
                            id@,
                        ) by {
                            assert(lex_lt(self@[j].id, self@[mid as int].id));
                        }
                        assert forall|j: int| mid + 1 <= j < self@.len() implies lex_lt(
                            id@,
                            #[trigger] self@[j].id,
                        ) by {
                            assert(lex_lt(self@[mid as int].id, self@[j].id));
                        }
                    }
                    return (mid, true);
                },
                Position::Before => {
                    proof {
                        assert forall|j: int| 0 <= j < mid + 1 implies lex_lt(
                            #[trigger] self@[j].id,
                            id@,
                        ) by {
                            if j < mid {
                                assert(lex_lt(self@[j].id, self@[mid as int].id));
                                lemma_lex_transitive(self@[j].id, self@[mid as int].id, id@);
                            }
                        }
                    }
                    lo = mid + 1;
                },
                Position::After => {
                    proof {
                        assert forall|j: int| mid <= j < self@.len() implies lex_lt(
                            id@,
                            #[trigger] self@[j].id,
                        ) by {
                            if mid < j {
                                assert(lex_lt(self@[mid as int].id, self@[j].id));
                                lemma_lex_transitive(id@, self@[mid as int].id, self@[j].id);
                            }
                        }
                    }
                    hi = mid;
                },
            }
        }
        proof {
            if has_id(self@, id@) {
                let j = choose|j: int| 0 <= j < self@.len() && #[trigger] self@[j].id == id@;
                lemma_lex_irreflexive(id@);
                if j < lo {
                    assert(lex_lt(self@[j].id, id@));
                } else {
                    assert(lex_lt(id@, self@[j].id));
                }
            }
        }
        (lo, false)
    }

    /// Whether an entry is stored under `id`.
    pub fn contains_key(&self, id: &str) -> (found: bool)
        requires
            self.wf(),
        ensures
            found == self.map().contains_key(id@),
    {
        proof {
            lemma_mapping_domain(self@, id@);
        }
        self.locate(id).1
    }

    /// The entry stored under `id`, if there is one.
    pub fn get(&self, id: &str) -> (found: Option<&CredentialsEntry>)
        requires
            self.wf(),
        ensures
            found is Some == self.map().contains_key(id@),
            found matches Some(entry) ==> entry@ == self.map()[id@],
    {
        proof {
            lemma_mapping_domain(self@, id@);
        }
        let (at, present) = self.locate(id);
        if present {
            proof {
                lemma_mapping_value(self@, at as int);
            }
            Some(&self.records[at].entry)
        } else {
            None
        }
    }

    /// Stores `entry` under `id`, in place of what was stored there before.
    pub fn insert(&mut self, id: String, entry: CredentialsEntry)
        requires
            old(self).wf(),
        ensures
            final(self).wf(),
            final(self).map() == old(self).map().insert(id@, entry@),
    {
        let (at, present) = self.locate(id.as_str());
        let ghost before = self@;
        let ghost added = RecordView { id: id@, entry: entry@ };
        if present {
            self.records.remove(at);
        }
        let ghost without = self@;
        proof {
            if present {
                assert(without =~= before.remove(at as int));
            } else {
                assert(without =~= before);
            }
            assert forall|j: int| 0 <= j < at implies lex_lt(#[trigger] without[j].id, id@) by {
                assert(without[j] == before[j]);
            }
            assert forall|j: int| at <= j < without.len() implies lex_lt(
                id@,
                #[trigger] without[j].id,
            ) by {
                if present {
                    assert(without[j] == before[j + 1]);
                } else {
                    assert(without[j] == before[j]);
                }
            }
        }
        self.records.insert(at, Record { id, entry });
        proof {
            let after = self@;
            assert(after =~= without.insert(at as int, added));
            lemma_lex_irreflexive(id@);
            assert forall|a: int, b: int| 0 <= a < b < after.len() implies lex_lt(
                #[trigger] after[a].id,
                #[trigger] after[b].id,
            ) by {
                let oa = if a < at { a } else { a - 1 };
                let ob = if b < at { b } else { b - 1 };
                let shift = if present { 1int } else { 0int };
                let ba = if a < at { a } else { a - 1 + shift };
                let bb = if b < at { b } else { b - 1 + shift };
                if a != at && b != at {
                    assert(after[a] == before[ba]);
                    assert(after[b] == before[bb]);
                    assert(lex_lt(before[ba].id, before[bb].id));
                } else if a == at {
                    assert(after[b] == without[ob]);
                } else {
                    assert(after[a] == without[oa]);
                }
            }
            let goal = mapping(before).insert(id@, entry@);
            assert forall|k: Seq<char>| goal.contains_key(k) == has_id(after, k) by {
                lemma_mapping_domain(before, k);
                if has_id(after, k) {
                    let j = choose|j: int| 0 <= j < after.len() && #[trigger] after[j].id == k;
                    if j != at {
                        let shift = if present { 1int } else { 0int };
                        let bj = if j < at { j } else { j - 1 + shift };
                        assert(before[bj].id == k);
                    }
                }
                if k == id@ {
                    assert(after[at as int].id == k);
                } else if has_id(before, k) {
                    let j = choose|j: int| 0 <= j < before.len() && #[trigger] before[j].id == k;
                    let aj = if j < at { j } else if present { j } else { j + 1 };
                    assert(after[aj].id == k);
                }
            }
            assert forall|j: int| 0 <= j < after.len() implies goal[#[trigger] after[j].id]
                == after[j].entry by {
                if j != at {
                    let shift = if present { 1int } else { 0int };
                    let bj = if j < at { j } else { j - 1 + shift };
                    assert(after[j] == before[bj]);
                    lemma_mapping_value(before, bj);
                    if j < at {
                        assert(lex_lt(after[j].id, after[at as int].id));
                    } else {
                        assert(lex_lt(after[at as int].id, after[j].id));
                    }
                }
            }
            lemma_mapping_is(after, goal);
        }
    }

    /// Removes what is stored under `id` and hands it back, if there is
    /// anything.
    pub fn remove(&mut self, id: &str) -> (removed: Option<CredentialsEntry>)
        requires
            old(self).wf(),
        ensures
            final(self).wf(),
            final(self).map() == old(self).map().remove(id@),
            removed is Some == old(self).map().contains_key(id@),
            removed matches Some(entry) ==> entry@ == old(self).map()[id@],
    {
        let (at, present) = self.locate(id);
        let ghost before = self@;
        proof {
            lemma_mapping_domain(before, id@);
        }
        if !present {
            assert(mapping(before) =~= mapping(before).remove(id@));
            return None;
        }
        let record = self.records.remove(at);
        proof {
            let after = self@;
            assert(after =~= before.remove(at as int));
            lemma_mapping_value(before, at as int);
            lemma_lex_irreflexive(id@);
            assert forall|a: int, b: int| 0 <= a < b < after.len() implies lex_lt(
                #[trigger] after[a].id,
                #[trigger] after[b].id,
            ) by {
                let ba = if a < at { a } else { a + 1 };
                let bb = if b < at { b } else { b + 1 };
                assert(lex_lt(before[ba].id, before[bb].id));
            }
            let goal = mapping(before).remove(id@);
            assert forall|k: Seq<char>| goal.contains_key(k) == has_id(after, k) by {
                lemma_mapping_domain(before, k);
                if has_id(after, k) {
                    let j = choose|j: int| 0 <= j < after.len() && #[trigger] after[j].id == k;
                    let bj = if j < at { j } else { j + 1 };
                    assert(before[bj].id == k);
                    if bj < at {
                        assert(lex_lt(before[bj].id, id@));
                    } else {
                        assert(lex_lt(id@, before[bj].id));
                    }
                }
                if k != id@ && has_id(before, k) {
                    let j = choose|j: int| 0 <= j < before.len() && #[trigger] before[j].id == k;
                    let aj = if j < at { j } else { j - 1 };
                    assert(after[aj].id == k);
                }
            }
            assert forall|j: int| 0 <= j < after.len() implies goal[#[trigger] after[j].id]
                == after[j].entry by {
                let bj = if j < at { j } else { j + 1 };
                assert(after[j] == before[bj]);
                lemma_mapping_value(before, bj);
                if bj < at {
                    assert(lex_lt(before[bj].id, id@));
                } else {
                    assert(lex_lt(id@, before[bj].id));
                }
            }
            lemma_mapping_is(after, goal);
        }
        Some(record.entry)
    }

    /// The ids in ascending order.
    pub fn ids(&self) -> (ids: Vec<String>)
        ensures
            strings_view(ids@) == ids_of(self@),
    {
        let mut ids: Vec<String> = Vec::new();
        let mut i: usize = 0;
        while i < self.records.len()
            invariant
                i <= self.records@.len(),
                ids@.len() == i,
                forall|j: int| 0 <= j < i ==> (#[trigger] ids@[j])@ == self.records@[j].id@,
            decreases self.records@.len() - i,
        {
            ids.push(self.records[i].id.clone());
            i += 1;
        }
        assert(strings_view(ids@) =~= ids_of(self@));
        ids
    }
}

} // verus!
