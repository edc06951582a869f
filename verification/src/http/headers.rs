//! An ordered, case-insensitive multimap of header fields.

use crate::text::{
    ascii_lower, ascii_lowered, chars_to_string, eq_ignore_ascii_case, find_char, index_of_char,
    lemma_index_of_char_skip, lemma_trim_idempotent, split_on, str_to_chars, strings_view,
    strs_view, to_lowercase, trim, trim_bounds, trimmed, unicode_lowercase,
};
use linked_hash_map::LinkedHashMap;
use vstd::prelude::*;
use vstd::string::StringExecFns;

verus! {

/// `linked_hash_map::LinkedHashMap`: a hash map that yields its pairs in the
/// order of their insertion. What it holds is told by `map_entries`.
#[verifier::external_type_specification]
#[verifier::external_body]
#[verifier::reject_recursive_types(K)]
#[verifier::reject_recursive_types(V)]
#[verifier::reject_recursive_types(S)]
pub struct ExLinkedHashMap<K, V, S>(LinkedHashMap<K, V, S>);

/// What a header map stores under one normalized key.
#[derive(Debug)]
pub struct HeaderEntry {
    pub original_key: String,
    pub values: Vec<String>,
}

impl HeaderEntry {
    pub fn new(key: &str) -> (e: Self)
        ensures
            e.original_key@ == key@,
            e.values@.len() == 0,
    {
        Self { original_key: key.to_owned(), values: Vec::new() }
    }
}

/// The key under which a header name is stored and looked up.
pub open spec fn normalize_key(key: Seq<char>) -> Seq<char> {
    unicode_lowercase(ascii_lower(key))
}

pub fn sanitize_key(key: &str) -> (r: String)
    ensures
        r@ == normalize_key(key@),
{
    let lowered = ascii_lowered(key);
    to_lowercase(lowered.as_str())
}

/// The pairs of key and entry that a linked hash map holds, in the order in
/// which its iterator yields them: oldest insertion first.
pub uninterp spec fn map_entries(m: LinkedHashMap<String, HeaderEntry>) -> Seq<
    (String, HeaderEntry),
>;

/// Whether some pair of `entries` has the key `key`.
pub open spec fn entries_have(entries: Seq<(String, HeaderEntry)>, key: Seq<char>) -> bool {
    exists|i: int| 0 <= i < entries.len() && (#[trigger] entries[i]).0@ == key
}

/// `LinkedHashMap::new`: a map that holds nothing.
#[verifier::external_body]
fn map_new() -> (m: LinkedHashMap<String, HeaderEntry>)
    ensures
        map_entries(m).len() == 0,
{
    LinkedHashMap::new()
}

/// `LinkedHashMap::len`: the number of pairs in the map.
#[verifier::external_body]
fn map_len(m: &LinkedHashMap<String, HeaderEntry>) -> (n: usize)
    ensures
        n == map_entries(*m).len(),
{
    m.len()
}

/// `LinkedHashMap::entry` followed by `Entry::or_insert`: a reference to the
/// entry stored under `key`. Where the key is present the map is left as it
/// is; where it is absent the pair of `key` and `default` is first added
/// behind all others. What is written through the reference is what the map
/// holds at that place afterwards.
#[verifier::external_body]
fn map_entry_or_insert(
    m: &mut LinkedHashMap<String, HeaderEntry>,
    key: String,
    default: HeaderEntry,
) -> (slot: &mut HeaderEntry)
    ensures
        entries_have(map_entries(*old(m)), key@) ==> exists|i: int|
            0 <= i < map_entries(*old(m)).len() && (#[trigger] map_entries(*old(m))[i]).0@ == key@
                && *slot == map_entries(*old(m))[i].1 && map_entries(*final(m)) == map_entries(
                *old(m),
            ).update(i, (map_entries(*old(m))[i].0, *final(slot))),
        !entries_have(map_entries(*old(m)), key@) ==> *slot == default && map_entries(*final(m))
            == map_entries(*old(m)).push((key, *final(slot))),
{
    m.entry(key).or_insert(default)
}

/// `LinkedHashMap::get`: the entry stored under `key`, if there is one.
#[verifier::external_body]
fn map_get<'a>(m: &'a LinkedHashMap<String, HeaderEntry>, key: &String) -> (r: Option<
    &'a HeaderEntry,
>)
    ensures
        match r {
            Some(e) => exists|i: int|
                0 <= i < map_entries(*m).len() && (#[trigger] map_entries(*m)[i]).0@ == key@
                    && map_entries(*m)[i].1 == *e,
            None => !entries_have(map_entries(*m), key@),
        },
{
    m.get(key)
}

/// `LinkedHashMap::remove`: takes the pair stored under `key` out of the map
/// and returns its entry; the other pairs keep their order.
#[verifier::external_body]
fn map_remove(m: &mut LinkedHashMap<String, HeaderEntry>, key: &String) -> (r: Option<
    HeaderEntry,
>)
    ensures
        match r {
            Some(e) => exists|i: int|
                0 <= i < map_entries(*old(m)).len() && (#[trigger] map_entries(*old(m))[i]).0@
                    == key@ && map_entries(*old(m))[i].1 == e && map_entries(*final(m))
                    == map_entries(*old(m)).remove(i),
            None => !entries_have(map_entries(*old(m)), key@) && map_entries(*final(m))
                == map_entries(*old(m)),
        },
{
    m.remove(key)
}

/// `LinkedHashMap::iter`, collected into a vector: the pairs that the map
/// holds, in the order in which the iterator yields them.
#[verifier::external_body]
fn map_items<'a>(m: &'a LinkedHashMap<String, HeaderEntry>) -> (items: Vec<
    (&'a String, &'a HeaderEntry),
>)
    ensures
        items@.len() == map_entries(*m).len(),
        forall|i: int|
            0 <= i < items@.len() ==> *(#[trigger] items@[i]).0 == map_entries(*m)[i].0
                && *items@[i].1 == map_entries(*m)[i].1,
{
    m.iter().collect()
}

/// `LinkedHashMap::clear`: removes every pair.
#[verifier::external_body]
fn map_clear(m: &mut LinkedHashMap<String, HeaderEntry>)
    ensures
        map_entries(*final(m)).len() == 0,
{
    m.clear()
}

/// Header fields as plain values: for each key its name and its values.
pub type Fields = Seq<(Seq<char>, Seq<Seq<char>>)>;

/// The header fields as a caller sees them: for each key the name as it was
/// first written and the values in the order in which they were put, and the
/// keys in the order in which each was first put.
pub open spec fn entry_fields(entries: Seq<(String, HeaderEntry)>) -> Fields {
    Seq::new(
        entries.len(),
        |i: int| (entries[i].1.original_key@, strings_view(entries[i].1.values@)),
    )
}

/// Whether `fields` has a field whose name has the normalized form `normalized`.
pub open spec fn has_normalized(
    fields: Fields,
    normalized: Seq<char>,
) -> bool {
    exists|i: int| 0 <= i < fields.len() && normalize_key((#[trigger] fields[i]).0) == normalized
}

/// The place of the field whose name has the normalized form `normalized`.
pub open spec fn normalized_index(
    fields: Fields,
    normalized: Seq<char>,
) -> int {
    choose|i: int| 0 <= i < fields.len() && normalize_key((#[trigger] fields[i]).0) == normalized
}

/// Whether `fields` has a field whose name is `key` up to case.
pub open spec fn has_key(fields: Fields, key: Seq<char>) -> bool {
    has_normalized(fields, normalize_key(key))
}

/// The place of the field whose name is `key` up to case.
pub open spec fn key_index(fields: Fields, key: Seq<char>) -> int {
    normalized_index(fields, normalize_key(key))
}

/// What holds of the fields of every header map: no two names are equal up
/// to case, every field has a value, and no value begins or ends with white
/// space.
pub open spec fn fields_wf(fields: Fields) -> bool {
    &&& forall|i: int, j: int|
        0 <= i < j < fields.len() ==> normalize_key((#[trigger] fields[i]).0) != normalize_key(
            (#[trigger] fields[j]).0,
        )
    &&& forall|i: int| 0 <= i < fields.len() ==> (#[trigger] fields[i]).1.len() > 0
    &&& forall|i: int, k: int|
        0 <= i < fields.len() && 0 <= k < fields[i].1.len() ==> trim(
            #[trigger] fields[i].1[k],
        ) == fields[i].1[k]
}

/// The fields after `value`, trimmed, was put under `key`.
pub open spec fn put_field(
    fields: Fields,
    key: Seq<char>,
    value: Seq<char>,
) -> Fields {
    if has_key(fields, key) {
        let i = key_index(fields, key);
        fields.update(i, (fields[i].0, fields[i].1.push(trim(value))))
    } else {
        fields.push((key, seq![trim(value)]))
    }
}

/// The fields after the field named `key` up to case, if any, was removed.
pub open spec fn remove_field(fields: Fields, key: Seq<char>) -> Fields {
    if has_key(fields, key) {
        fields.remove(key_index(fields, key))
    } else {
        fields
    }
}

/// The values of the field named `key` up to case.
pub open spec fn field_values(fields: Fields, key: Seq<char>) -> Option<
    Seq<Seq<char>>,
> {
    if has_key(fields, key) {
        Some(fields[key_index(fields, key)].1)
    } else {
        None
    }
}

/// The fields after each of `values` was put under `key`, in order.
pub open spec fn put_all_fields(
    fields: Fields,
    key: Seq<char>,
    values: Seq<Seq<char>>,
) -> Fields
    decreases values.len(),
{
    if values.len() == 0 {
        fields
    } else {
        put_field(put_all_fields(fields, key, values.drop_last()), key, values.last())
    }
}

/// One header line on the wire.
pub open spec fn header_line(name: Seq<char>, value: Seq<char>) -> Seq<char> {
    name + seq![':', ' '] + value + seq!['\r', '\n']
}

/// The lines of one field: a line for each value, in order.
pub open spec fn field_lines(name: Seq<char>, values: Seq<Seq<char>>) -> Seq<char>
    decreases values.len(),
{
    if values.len() == 0 {
        Seq::empty()
    } else {
        field_lines(name, values.drop_last()) + header_line(name, values.last())
    }
}

/// The header block on the wire: the lines of each field, in order.
pub open spec fn serialize_fields(fields: Fields) -> Seq<char>
    decreases fields.len(),
{
    if fields.len() == 0 {
        Seq::empty()
    } else {
        serialize_fields(fields.drop_last()) + field_lines(fields.last().0, fields.last().1)
    }
}

/// The pieces of each of `values` between commas, each trimmed, in order.
pub open spec fn comma_parts(values: Seq<Seq<char>>) -> Seq<Seq<char>>
    decreases values.len(),
{
    if values.len() == 0 {
        Seq::empty()
    } else {
        comma_parts(values.drop_last()) + split_on(values.last(), ',').map_values(
            |p: Seq<char>| trim(p),
        )
    }
}

/// Whether two sequences of fields agree in all but the case of the names.
pub open spec fn same_values(
    a: Fields,
    b: Fields,
) -> bool {
    &&& a.len() == b.len()
    &&& forall|i: int|
        0 <= i < a.len() ==> normalize_key((#[trigger] a[i]).0) == normalize_key(b[i].0) && a[i].1
            == b[i].1
}

/// In well-formed fields a key has one place only.
pub proof fn lemma_key_index(fields: Fields, key: Seq<char>, i: int)
    requires
        fields_wf(fields),
        0 <= i < fields.len(),
        normalize_key(fields[i].0) == normalize_key(key),
    ensures
        has_key(fields, key),
        key_index(fields, key) == i,
{
    let j = key_index(fields, key);
    assert(0 <= j < fields.len() && normalize_key(fields[j].0) == normalize_key(key));
    if j < i {
        assert(normalize_key(fields[j].0) != normalize_key(fields[i].0));
    }
    if i < j {
        assert(normalize_key(fields[i].0) != normalize_key(fields[j].0));
    }
}

/// Putting a value keeps the fields well formed.
pub proof fn lemma_put_field_wf(
    fields: Fields,
    key: Seq<char>,
    value: Seq<char>,
)
    requires
        fields_wf(fields),
    ensures
        fields_wf(put_field(fields, key, value)),
{
    lemma_trim_idempotent(value);
    let after = put_field(fields, key, value);
    if has_key(fields, key) {
        let i = key_index(fields, key);
        assert forall|a: int, b: int| 0 <= a < b < after.len() implies normalize_key(
            (#[trigger] after[a]).0,
        ) != normalize_key((#[trigger] after[b]).0) by {
            assert(after[a].0 == fields[a].0);
            assert(after[b].0 == fields[b].0);
        }
        assert forall|a: int, k: int|
            0 <= a < after.len() && 0 <= k < after[a].1.len() implies trim(
            #[trigger] after[a].1[k],
        ) == after[a].1[k] by {
            if a == i {
                if k < fields[i].1.len() {
                    assert(after[a].1[k] == fields[i].1[k]);
                }
            } else {
                assert(after[a].1[k] == fields[a].1[k]);
            }
        }
        assert forall|a: int| 0 <= a < after.len() implies (#[trigger] after[a]).1.len() > 0 by {
            if a != i {
                assert(after[a] == fields[a]);
            }
        }
    } else {
        assert forall|a: int, b: int| 0 <= a < b < after.len() implies normalize_key(
            (#[trigger] after[a]).0,
        ) != normalize_key((#[trigger] after[b]).0) by {
            assert(after[a] == fields[a]);
            if b < fields.len() {
                assert(after[b] == fields[b]);
            }
        }
        assert forall|a: int, k: int|
            0 <= a < after.len() && 0 <= k < after[a].1.len() implies trim(
            #[trigger] after[a].1[k],
        ) == after[a].1[k] by {
            if a < fields.len() {
                assert(after[a].1[k] == fields[a].1[k]);
            }
        }
        assert forall|a: int| 0 <= a < after.len() implies (#[trigger] after[a]).1.len() > 0 by {
            if a < fields.len() {
                assert(after[a] == fields[a]);
            }
        }
    }
}

/// Keys that differ only in the case of ASCII letters are one key: they are
/// normalized alike, so whatever the fields hold, both find the same values
/// and both name the same field to remove.
pub proof fn lemma_lookup_ignores_ascii_case(
    fields: Fields,
    k1: Seq<char>,
    k2: Seq<char>,
)
    requires
        eq_ignore_ascii_case(k1, k2),
    ensures
        normalize_key(k1) == normalize_key(k2),
        has_key(fields, k1) == has_key(fields, k2),
        field_values(fields, k1) == field_values(fields, k2),
        remove_field(fields, k1) == remove_field(fields, k2),
{
}

/// Putting a value under either of two keys that differ only in the case of
/// ASCII letters leaves the same values under the same keys, in the same
/// order; the fields can then differ only in the case of a name.
pub proof fn lemma_put_ignores_ascii_case(
    a: Fields,
    b: Fields,
    k1: Seq<char>,
    k2: Seq<char>,
    value: Seq<char>,
)
    requires
        fields_wf(a),
        fields_wf(b),
        same_values(a, b),
        eq_ignore_ascii_case(k1, k2),
    ensures
        same_values(put_field(a, k1, value), put_field(b, k2, value)),
{
    if has_key(a, k1) {
        let i = key_index(a, k1);
        assert(normalize_key(b[i].0) == normalize_key(k2));
        lemma_key_index(b, k2, i);
    } else {
        if has_key(b, k2) {
            let i = key_index(b, k2);
            assert(normalize_key(a[i].0) == normalize_key(k1));
        }
    }
}

/// Fields that agree in all but the case of the names give every lookup the
/// same answer.
pub proof fn lemma_same_values_lookup(
    a: Fields,
    b: Fields,
    key: Seq<char>,
)
    requires
        fields_wf(a),
        fields_wf(b),
        same_values(a, b),
    ensures
        field_values(a, key) == field_values(b, key),
{
    if has_key(a, key) {
        let i = key_index(a, key);
        assert(normalize_key(b[i].0) == normalize_key(key));
        lemma_key_index(b, key, i);
    } else {
        if has_key(b, key) {
            let i = key_index(b, key);
            assert(normalize_key(a[i].0) == normalize_key(key));
        }
    }
}

/// Insertion order: where neither of two different keys is present and
/// values are put under the first, the second and the first again, the wire
/// form gains the two lines of the first key, in the order of the calls,
/// and behind them the line of the second.
pub proof fn lemma_insertion_order(
    fields: Fields,
    a: Seq<char>,
    b: Seq<char>,
    v1: Seq<char>,
    v2: Seq<char>,
    v3: Seq<char>,
)
    requires
        fields_wf(fields),
        !has_key(fields, a),
        !has_key(fields, b),
        normalize_key(a) != normalize_key(b),
    ensures
        serialize_fields(put_field(put_field(put_field(fields, a, v1), b, v2), a, v3))
            == serialize_fields(fields) + header_line(a, trim(v1)) + header_line(a, trim(v3))
            + header_line(b, trim(v2)),
{
    let n = fields.len() as int;
    let f1 = put_field(fields, a, v1);
    lemma_put_field_wf(fields, a, v1);
    assert(f1 == fields.push((a, seq![trim(v1)])));
    assert(!has_key(f1, b)) by {
        if has_key(f1, b) {
            let i = key_index(f1, b);
            if i < n {
                assert(f1[i] == fields[i]);
                assert(normalize_key(fields[i].0) == normalize_key(b));
            }
        }
    }
    let f2 = put_field(f1, b, v2);
    lemma_put_field_wf(f1, b, v2);
    assert(f2 == f1.push((b, seq![trim(v2)])));
    assert(f2[n] == (a, seq![trim(v1)]));
    lemma_key_index(f2, a, n);
    let f3 = put_field(f2, a, v3);
    let both = seq![trim(v1)].push(trim(v3));
    assert(f3 == f2.update(n, (a, both)));
    assert(f3.drop_last() =~= fields.push((a, both)));
    assert(f3.last() == (b, seq![trim(v2)]));
    assert(fields.push((a, both)).drop_last() =~= fields);
    assert(both.drop_last() =~= seq![trim(v1)]);
    assert(seq![trim(v1)].drop_last() =~= Seq::<Seq<char>>::empty());
    assert(seq![trim(v2)].drop_last() =~= Seq::<Seq<char>>::empty());
    assert(field_lines(a, seq![trim(v1)].drop_last()) =~= Seq::<char>::empty());
    assert(field_lines(b, seq![trim(v2)].drop_last()) =~= Seq::<char>::empty());
    assert(field_lines(a, seq![trim(v1)]) =~= header_line(a, trim(v1)));
    assert(field_lines(a, both) =~= header_line(a, trim(v1)) + header_line(a, trim(v3)));
    assert(field_lines(b, seq![trim(v2)]) =~= header_line(b, trim(v2)));
    assert(serialize_fields(fields.push((a, both))) == serialize_fields(fields) + field_lines(
        a,
        both,
    ));
    assert(serialize_fields(f3) =~= serialize_fields(fields) + header_line(a, trim(v1))
        + header_line(a, trim(v3)) + header_line(b, trim(v2)));
}

/// An ordered collection of header fields with case-insensitive keys.
#[derive(Debug)]
pub struct Headers {
    raw_headers: LinkedHashMap<String, HeaderEntry>,
}

impl View for Headers {
    type V = Fields;

    closed spec fn view(&self) -> Fields {
        entry_fields(map_entries(self.raw_headers))
    }
}

spec fn entries_wf(entries: Seq<(String, HeaderEntry)>) -> bool {
    &&& forall|i: int, j: int|
        0 <= i < j < entries.len() ==> (#[trigger] entries[i]).0@ != (#[trigger] entries[j]).0@
    &&& forall|i: int|
        0 <= i < entries.len() ==> (#[trigger] entries[i]).0@ == normalize_key(
            entries[i].1.original_key@,
        )
    &&& forall|i: int| 0 <= i < entries.len() ==> (#[trigger] entries[i]).1.values@.len() > 0
    &&& forall|i: int, k: int|
        0 <= i < entries.len() && 0 <= k < entries[i].1.values@.len() ==> trim(
            #[trigger] entries[i].1.values@[k]@,
        ) == entries[i].1.values@[k]@
}

proof fn lemma_entries_fields(entries: Seq<(String, HeaderEntry)>, key: Seq<char>)
    requires
        entries_wf(entries),
    ensures
        fields_wf(entry_fields(entries)),
        has_key(entry_fields(entries), key) == entries_have(entries, normalize_key(key)),
        forall|i: int|
            0 <= i < entries.len() && (#[trigger] entries[i]).0@ == normalize_key(key)
                ==> key_index(entry_fields(entries), key) == i,
{
    let fields = entry_fields(entries);
    assert forall|i: int| 0 <= i < fields.len() implies normalize_key((#[trigger] fields[i]).0)
        == entries[i].0@ by {}
    assert forall|i: int, k: int|
        0 <= i < fields.len() && 0 <= k < fields[i].1.len() implies trim(
        #[trigger] fields[i].1[k],
    ) == fields[i].1[k] by {
        assert(fields[i].1[k] == entries[i].1.values@[k]@);
    }
    if entries_have(entries, normalize_key(key)) {
        let i = choose|i: int|
            0 <= i < entries.len() && (#[trigger] entries[i]).0@ == normalize_key(key);
        assert(normalize_key(fields[i].0) == normalize_key(key));
    }
    if has_key(fields, key) {
        let i = key_index(fields, key);
        assert(entries[i].0@ == normalize_key(key));
    }
}

/// Appends to `parts` the pieces of `value` between commas, each trimmed.
fn push_comma_parts(parts: &mut Vec<String>, value: &str)
    ensures
        strings_view(final(parts)@) == strings_view(old(parts)@) + split_on(
            value@,
            ',',
        ).map_values(|p: Seq<char>| trim(p)),
{
    let chars = str_to_chars(value);
    let v = chars.as_slice();
    let ghost head = strings_view(parts@);
    let ghost done: Seq<Seq<char>> = Seq::empty();
    let mut start: usize = 0;
    proof {
        assert(v@.skip(0) =~= v@);
        assert(done + split_on(v@, ',') =~= split_on(v@, ','));
        assert(head + done.map_values(|p: Seq<char>| trim(p)) =~= head);
    }
    loop
        invariant_except_break
            start <= v@.len(),
            split_on(v@, ',') == done + split_on(v@.skip(start as int), ','),
        invariant
            v@ == value@,
            head == strings_view(old(parts)@),
            strings_view(parts@) == head + done.map_values(|p: Seq<char>| trim(p)),
        ensures
            split_on(v@, ',') == done,
        decreases v@.len() - start,
    {
        let end = find_char(v, ',', start);
        let (i, j) = trim_bounds(v, start, end);
        let piece = chars_to_string(v, i, j);
        let ghost before = strings_view(parts@);
        let ghost rest = v@.skip(start as int);
        let ghost whole = done + split_on(rest, ',');
        proof {
            lemma_index_of_char_skip(v@, ',', start as int, start as int);
            assert(index_of_char(rest, ',', 0) == end - start);
            assert(rest.take(end - start) =~= v@.subrange(start as int, end as int));
            assert(done.push(rest.take(end - start)).map_values(|p: Seq<char>| trim(p))
                =~= done.map_values(|p: Seq<char>| trim(p)).push(piece@));
            if end < v@.len() {
                assert(rest.skip(end - start + 1) =~= v@.skip(end + 1));
                assert(split_on(rest, ',') == seq![rest.take(end - start)] + split_on(
                    v@.skip(end + 1),
                    ',',
                ));
                assert(whole =~= done.push(rest.take(end - start)) + split_on(
                    v@.skip(end + 1),
                    ',',
                ));
            } else {
                assert(rest.take(end - start) =~= rest);
                assert(split_on(rest, ',') == seq![rest]);
                assert(whole =~= done.push(rest));
            }
            done = done.push(rest.take(end - start));
        }
        parts.push(piece);
        proof {
            assert(strings_view(parts@) =~= before.push(piece@));
            assert(strings_view(parts@) =~= head + done.map_values(|p: Seq<char>| trim(p)));
        }
        if end >= v.len() {
            break;
        }
        start = end + 1;
    }
}

impl Headers {
    /// The invariant of a header map. Every constructor establishes it and
    /// every method keeps it.
    pub closed spec fn wf(&self) -> bool {
        entries_wf(map_entries(self.raw_headers))
    }

    /// The fields of a well-formed header map are well formed.
    pub proof fn lemma_fields_wf(&self)
        requires
            self.wf(),
        ensures
            fields_wf(self@),
    {
        lemma_entries_fields(map_entries(self.raw_headers), Seq::empty());
    }

    pub fn new() -> (h: Self)
        ensures
            h.wf(),
            h@.len() == 0,
    {
        Self { raw_headers: map_new() }
    }

    /// The number of keys.
    pub fn len(&self) -> (n: usize)
        ensures
            n == self@.len(),
    {
        map_len(&self.raw_headers)
    }

    pub fn is_empty(&self) -> (b: bool)
        ensures
            b == (self@.len() == 0),
    {
        self.len() == 0
    }

    /// Appends `value`, trimmed, to the values of `key`. A key that is not
    /// yet present is added behind all others, under the name `key`.
    pub fn put(&mut self, key: &str, value: &str)
        requires
            old(self).wf(),
        ensures
            final(self).wf(),
            final(self)@ == put_field(old(self)@, key@, value@),
    {
        proof {
            lemma_entries_fields(map_entries(self.raw_headers), key@);
        }
        let ghost before = map_entries(self.raw_headers);
        let sanitized_key = sanitize_key(key);
        let trimmed_value = trimmed(value);
        let slot = map_entry_or_insert(&mut self.raw_headers, sanitized_key, HeaderEntry::new(key));
        let ghost found = *slot;
        slot.values.push(trimmed_value);
        proof {
            let after = map_entries(self.raw_headers);
            lemma_trim_idempotent(value@);
            if entries_have(before, normalize_key(key@)) {
                let i = choose|i: int|
                    0 <= i < before.len() && (#[trigger] before[i]).0@ == normalize_key(key@)
                        && found == before[i].1 && after == before.update(
                        i,
                        (before[i].0, *slot),
                    );
                assert(entry_fields(after) =~= put_field(entry_fields(before), key@, value@)) by {
                    assert(strings_view(slot.values@) =~= strings_view(found.values@).push(
                        trim(value@),
                    ));
                }
                assert(entries_wf(after));
                lemma_entries_fields(after, key@);
            } else {
                assert(entry_fields(after) =~= put_field(entry_fields(before), key@, value@)) by {
                    assert(strings_view(slot.values@) =~= seq![trim(value@)]);
                }
                assert(entries_wf(after));
                lemma_entries_fields(after, key@);
            }
        }
    }

    /// Replaces the values of `key` by `values` and returns the former
    /// values. The key moves behind all others and takes the name `key`.
    pub fn set_all(&mut self, key: &str, values: &[&str]) -> (r: Option<Vec<String>>)
        requires
            old(self).wf(),
        ensures
            final(self).wf(),
            final(self)@ == put_all_fields(
                remove_field(old(self)@, key@),
                key@,
                strs_view(values@),
            ),
            match r {
                Some(vs) => field_values(old(self)@, key@) == Some(strings_view(vs@)),
                None => field_values(old(self)@, key@) is None,
            },
    {
        let old_value = self.remove(key);
        let ghost start = self@;
        let mut i: usize = 0;
        while i < values.len()
            invariant
                i <= values@.len(),
                self.wf(),
                self@ == put_all_fields(start, key@, strs_view(values@).take(i as int)),
            decreases values@.len() - i,
        {
            self.put(key, values[i]);
            i += 1;
            proof {
                let all = strs_view(values@);
                assert(all.take(i as int).drop_last() =~= all.take(i - 1));
            }
        }
        proof {
            assert(strs_view(values@).take(i as int) =~= strs_view(values@));
        }
        old_value
    }

    /// The values of `key`, in the order in which they were put.
    pub fn get(&self, key: &str) -> (r: Option<&[String]>)
        requires
            self.wf(),
        ensures
            match r {
                Some(vs) => field_values(self@, key@) == Some(strings_view(vs@)) && vs@.len() > 0,
                None => field_values(self@, key@) is None,
            },
    {
        proof {
            lemma_entries_fields(map_entries(self.raw_headers), key@);
        }
        let key = sanitize_key(key);
        match map_get(&self.raw_headers, &key) {
            Some(entry) => Some(entry.values.as_slice()),
            None => None,
        }
    }

    /// The first value that was put under `key`.
    pub fn get_first(&self, key: &str) -> (r: Option<&str>)
        requires
            self.wf(),
        ensures
            match r {
                Some(v) => field_values(self@, key@) is Some && v@ == field_values(
                    self@,
                    key@,
                )->0[0],
                None => field_values(self@, key@) is None,
            },
    {
        match self.get(key) {
            Some(values) => Some(values[0].as_str()),
            None => None,
        }
    }

    /// The values of `key`, each split at its commas, every piece trimmed.
    pub fn get_splitting_commas(&self, key: &str) -> (r: Option<Vec<String>>)
        requires
            self.wf(),
        ensures
            match r {
                Some(parts) => field_values(self@, key@) is Some && strings_view(parts@)
                    == comma_parts(field_values(self@, key@)->0),
                None => field_values(self@, key@) is None,
            },
    {
        match self.get(key) {
            Some(values) => {
                let mut parts: Vec<String> = Vec::new();
                let mut i: usize = 0;
                while i < values.len()
                    invariant
                        i <= values@.len(),
                        strings_view(parts@) == comma_parts(
                            strings_view(values@).take(i as int),
                        ),
                    decreases values@.len() - i,
                {
                    let ghost before = strings_view(parts@);
                    push_comma_parts(&mut parts, values[i].as_str());
                    i += 1;
                    proof {
                        let all = strings_view(values@);
                        assert(all.take(i as int).drop_last() =~= all.take(i - 1));
                        assert(all.take(i as int).last() == values@[i - 1]@);
                    }
                }
                proof {
                    assert(strings_view(values@).take(i as int) =~= strings_view(values@));
                }
                Some(parts)
            },
            None => None,
        }
    }

    /// Removes `key` and returns the values that it had.
    pub fn remove(&mut self, key: &str) -> (r: Option<Vec<String>>)
        requires
            old(self).wf(),
        ensures
            final(self).wf(),
            final(self)@ == remove_field(old(self)@, key@),
            match r {
                Some(vs) => field_values(old(self)@, key@) == Some(strings_view(vs@)),
                None => field_values(old(self)@, key@) is None,
            },
    {
        proof {
            lemma_entries_fields(map_entries(self.raw_headers), key@);
        }
        let ghost before = map_entries(self.raw_headers);
        let key = sanitize_key(key);
        let removed = map_remove(&mut self.raw_headers, &key);
        proof {
            let after = map_entries(self.raw_headers);
            if removed is Some {
                let i = choose|i: int|
                    0 <= i < before.len() && (#[trigger] before[i]).0@ == key@ && before[i].1
                        == removed->0 && after == before.remove(i);
                assert(entry_fields(after) =~= entry_fields(before).remove(i));
                assert(entries_wf(after));
            }
        }
        match removed {
            Some(entry) => Some(entry.values),
            None => None,
        }
    }

    /// Removes every field.
    pub fn clear(&mut self)
        ensures
            final(self).wf(),
            final(self)@.len() == 0,
    {
        map_clear(&mut self.raw_headers)
    }

    /// The header block as it is written on the wire: one line for each
    /// value, keys in the order of their first insertion.
    pub fn response_string(&self) -> (buffer: String)
        ensures
            buffer@ == serialize_fields(self@),
    {
        let items = map_items(&self.raw_headers);
        let mut buffer = String::new();
        let ghost fields = self@;
        let mut i: usize = 0;
        while i < items.len()
            invariant
                i <= items@.len(),
                items@.len() == fields.len(),
                forall|k: int|
                    0 <= k < items@.len() ==> (#[trigger] items@[k]).1.original_key@
                        == fields[k].0 && strings_view(items@[k].1.values@) == fields[k].1,
                buffer@ == serialize_fields(fields.take(i as int)),
            decreases items@.len() - i,
        {
            let entry = items[i].1;
            let ghost head = buffer@;
            let mut k: usize = 0;
            while k < entry.values.len()
                invariant
                    k <= entry.values@.len(),
                    buffer@ == head + field_lines(
                        entry.original_key@,
                        strings_view(entry.values@).take(k as int),
                    ),
                decreases entry.values@.len() - k,
            {
                proof {
                    reveal_strlit(": ");
                    reveal_strlit("\r\n");
                }
                buffer.append(entry.original_key.as_str());
                buffer.append(": ");
                buffer.append(entry.values[k].as_str());
                buffer.append("\r\n");
                k += 1;
                proof {
                    let all = strings_view(entry.values@);
                    assert(all.take(k as int).drop_last() =~= all.take(k - 1));
                    assert(": "@ =~= seq![':', ' ']);
                    assert("\r\n"@ =~= seq!['\r', '\n']);
                    assert(buffer@ =~= head + field_lines(
                        entry.original_key@,
                        all.take(k as int),
                    ));
                }
            }
            i += 1;
            proof {
                assert(strings_view(entry.values@).take(k as int) =~= strings_view(
                    entry.values@,
                ));
                assert(fields.take(i as int).drop_last() =~= fields.take(i - 1));
            }
        }
        proof {
            assert(fields.take(i as int) =~= fields);
        }
        buffer
    }
}

/// An iterator over the fields of a header map: each name as it was first
/// written, with its values.
pub struct Iter<'a> {
    items: Vec<(&'a String, &'a HeaderEntry)>,
    position: usize,
}

impl<'a> View for Iter<'a> {
    type V = Fields;

    /// The fields that the iterator has yet to yield.
    closed spec fn view(&self) -> Fields {
        Seq::new(
            (self.items@.len() - self.position) as nat,
            |i: int|
                (
                    self.items@[self.position + i].1.original_key@,
                    strings_view(self.items@[self.position + i].1.values@),
                ),
        )
    }
}

impl<'a> Iter<'a> {
    /// The invariant of the iterator: its position lies within its items.
    pub closed spec fn wf(&self) -> bool {
        self.position <= self.items@.len()
    }

    /// The number of fields that are yet to come.
    pub fn len(&self) -> (n: usize)
        requires
            self.wf(),
        ensures
            n == self@.len(),
    {
        self.items.len() - self.position
    }

    pub fn next(&mut self) -> (r: Option<(&'a String, &'a Vec<String>)>)
        requires
            old(self).wf(),
        ensures
            final(self).wf(),
            match r {
                Some((name, values)) => old(self)@.len() > 0 && old(self)@[0] == (
                    name@,
                    strings_view(values@),
                ) && final(self)@ == old(self)@.drop_first(),
                None => old(self)@.len() == 0 && final(self)@ == old(self)@,
            },
    {
        if self.position < self.items.len() {
            let entry = self.items[self.position].1;
            self.position += 1;
            proof {
                assert(self@ =~= old(self)@.drop_first());
            }
            Some((&entry.original_key, &entry.values))
        } else {
            None
        }
    }
}

impl Headers {
    /// An iterator over the fields, in the order of their first insertion.
    pub fn into_iter(&self) -> (it: Iter<'_>)
        ensures
            it.wf(),
            it@ == self@,
    {
        let it = Iter { items: map_items(&self.raw_headers), position: 0 };
        proof {
            assert(it@ =~= self@);
        }
        it
    }
}

impl Default for Headers {
    fn default() -> (h: Self)
        ensures
            h.wf(),
            h@.len() == 0,
    {
        Self::new()
    }
}

} // verus!
