//! The round trip of a header block: what a header map writes, the parser
//! reads back, line by line and from the bytes on the wire.

use super::headers::{
    field_lines, fields_wf, has_key, header_line, key_index, lemma_key_index, normalize_key,
    put_all_fields, put_field, serialize_fields, Fields,
};
use super::body::body_of;
use super::request::{
    header_step, index_of_byte, line_len, line_step, parse_from, ParserView,
};
use super::version_of;
use super::ParseError;
use crate::text::{
    is_whitespace, lemma_index_of_char_is, lemma_trim_is, lemma_trimmed_ends, split_once, trim,
};
use vstd::prelude::*;
use vstd::utf8::{char_is_scalar, char_u32_cast, encode_scalar, encode_utf8, is_scalar};

verus! {

/// The lines of one field on the wire: a line for each value, in order.
pub open spec fn field_line_seq(name: Seq<char>, values: Seq<Seq<char>>) -> Seq<Seq<char>> {
    Seq::new(values.len(), |k: int| header_line(name, values[k]))
}

/// The lines of a header block on the wire: the lines of each field, in order.
pub open spec fn header_lines(fields: Fields) -> Seq<Seq<char>>
    decreases fields.len(),
{
    if fields.len() == 0 {
        Seq::empty()
    } else {
        header_lines(fields.drop_last()) + field_line_seq(fields.last().0, fields.last().1)
    }
}

/// The state of a parser after each of `lines` was handed over in UTF-8.
pub open spec fn after_lines(p: ParserView, lines: Seq<Seq<char>>) -> Result<
    ParserView,
    ParseError,
>
    decreases lines.len(),
{
    if lines.len() == 0 {
        Ok(p)
    } else {
        match after_lines(p, lines.drop_last()) {
            Ok(q) => line_step(q, encode_utf8(lines.last())),
            Err(e) => Err(e),
        }
    }
}

/// A name that comes back from the wire as it went: it holds neither a
/// colon nor a line feed and does not begin with white space.
pub open spec fn wire_safe_name(name: Seq<char>) -> bool {
    &&& forall|k: int| 0 <= k < name.len() ==> #[trigger] name[k] != ':' && name[k] != '\n'
    &&& name.len() > 0 ==> !is_whitespace(name[0])
}

/// Fields that come back from the wire as they went: every name is safe
/// and no value holds a line feed.
pub open spec fn wire_safe(fields: Fields) -> bool {
    forall|i: int|
        0 <= i < fields.len() ==> wire_safe_name((#[trigger] fields[i]).0) && forall|
            k: int,
            m: int,
        |
            0 <= k < fields[i].1.len() && 0 <= m < fields[i].1[k].len()
                ==> #[trigger] fields[i].1[k][m] != '\n'
}

/// The line of a safe name and a trimmed value is read as a put of that
/// value under that name.
pub proof fn lemma_header_line_step(
    fields: Fields,
    name: Seq<char>,
    value: Seq<char>,
)
    requires
        wire_safe_name(name),
        trim(value) == value,
    ensures
        trim(header_line(name, value)).len() > 0,
        header_step(fields, trim(header_line(name, value))) == put_field(fields, name, value),
{
    let line = header_line(name, value);
    let n = name.len() as int;
    let m = value.len() as int;
    assert(line.len() == n + m + 4);
    assert forall|k: int| 0 <= k < n implies line[k] == name[k] by {}
    assert(line[n] == ':');
    assert(line[n + 1] == ' ');
    assert forall|k: int| 0 <= k < m implies line[n + 2 + k] == value[k] by {}
    assert(line[n + m + 2] == '\r');
    assert(line[n + m + 3] == '\n');
    let end = if m > 0 {
        n + m + 2
    } else {
        n + 1
    };
    if m > 0 {
        lemma_trimmed_ends(value);
        assert(line[end - 1] == value[m - 1]);
    }
    assert forall|k: int| end <= k < line.len() implies is_whitespace(#[trigger] line[k]) by {
        if m > 0 {
            assert(k == n + m + 2 || k == n + m + 3);
        } else {
            assert(k == n + 1 || k == n + 2 || k == n + 3);
        }
    }
    if n > 0 {
        assert(line[0] == name[0]);
    }
    lemma_trim_is(line, 0, end);
    let t = line.subrange(0, end);
    assert(trim(line) == t);
    assert forall|k: int| 0 <= k < n implies #[trigger] t[k] != ':' by {
        assert(t[k] == name[k]);
    }
    assert(t[n] == ':');
    lemma_index_of_char_is(t, ':', 0, n);
    assert(t.take(n) =~= name);
    let rest = t.skip(n + 1);
    assert(split_once(t, ':') == Some((name, rest))) by {
        assert(t.take(n) == name);
    }
    if m > 0 {
        assert(rest.len() == m + 1);
        assert(rest[0] == ' ');
        assert forall|k: int| 0 <= k < m implies rest[k + 1] == value[k] by {}
        assert(rest[1] == value[0]);
        assert(rest[m] == value[m - 1]);
        lemma_trim_is(rest, 1, m + 1);
        assert(rest.subrange(1, m + 1) =~= value);
    } else {
        assert(rest.len() == 0);
        lemma_trim_is(rest, 0, 0);
        assert(rest.subrange(0, 0) =~= value);
    }
    assert(trim(rest) == trim(value));
}

/// Handing over lines in two parts is handing them over in one.
pub proof fn lemma_after_lines_concat(p: ParserView, a: Seq<Seq<char>>, b: Seq<Seq<char>>)
    ensures
        after_lines(p, a + b) == match after_lines(p, a) {
            Ok(q) => after_lines(q, b),
            Err(e) => Err(e),
        },
    decreases b.len(),
{
    if b.len() == 0 {
        assert(a + b =~= a);
    } else {
        lemma_after_lines_concat(p, a, b.drop_last());
        assert((a + b).drop_last() =~= a + b.drop_last());
        assert((a + b).last() == b.last());
    }
}

/// A parser in its header stage reads the lines of one field as the puts
/// of its values, in order.
pub proof fn lemma_after_field_lines(p: ParserView, name: Seq<char>, values: Seq<Seq<char>>)
    requires
        p.stage is HeaderLine,
        wire_safe_name(name),
        forall|k: int| 0 <= k < values.len() ==> trim(#[trigger] values[k]) == values[k],
    ensures
        after_lines(p, field_line_seq(name, values)) is Ok,
        after_lines(p, field_line_seq(name, values))->Ok_0.stage is HeaderLine,
        after_lines(p, field_line_seq(name, values))->Ok_0.fields == put_all_fields(
            p.fields,
            name,
            values,
        ),
        after_lines(p, field_line_seq(name, values))->Ok_0.props == p.props,
        after_lines(p, field_line_seq(name, values))->Ok_0.body == p.body,
    decreases values.len(),
{
    broadcast use vstd::utf8::encode_utf8_valid_utf8, vstd::utf8::encode_utf8_decode_utf8;

    if values.len() > 0 {
        let lines = field_line_seq(name, values);
        let front = values.drop_last();
        assert(lines.drop_last() =~= field_line_seq(name, front));
        assert forall|k: int| 0 <= k < front.len() implies trim(#[trigger] front[k])
            == front[k] by {
            assert(front[k] == values[k]);
        }
        lemma_after_field_lines(p, name, front);
        let q = after_lines(p, field_line_seq(name, front))->Ok_0;
        assert(lines.last() == header_line(name, values.last()));
        lemma_header_line_step(q.fields, name, values.last());
    }
}

/// Putting trimmed values under a key that is absent adds one field behind
/// all others: the key with those values.
pub proof fn lemma_put_all_absent(
    fields: Fields,
    name: Seq<char>,
    values: Seq<Seq<char>>,
)
    requires
        fields_wf(fields),
        !has_key(fields, name),
        values.len() > 0,
        forall|k: int| 0 <= k < values.len() ==> trim(#[trigger] values[k]) == values[k],
    ensures
        put_all_fields(fields, name, values) == fields.push((name, values)),
        fields_wf(fields.push((name, values))),
    decreases values.len(),
{
    let front = values.drop_last();
    let last = values.last();
    assert(trim(last) == last);
    let grown = fields.push((name, values));
    assert forall|a: int, b: int| 0 <= a < b < grown.len() implies normalize_key(
        (#[trigger] grown[a]).0,
    ) != normalize_key((#[trigger] grown[b]).0) by {
        assert(grown[a] == fields[a]);
        if b < fields.len() {
            assert(grown[b] == fields[b]);
        }
    }
    assert forall|a: int| 0 <= a < grown.len() implies (#[trigger] grown[a]).1.len() > 0 by {
        if a < fields.len() {
            assert(grown[a] == fields[a]);
        }
    }
    assert forall|a: int, k: int|
        0 <= a < grown.len() && 0 <= k < grown[a].1.len() implies trim(
        #[trigger] grown[a].1[k],
    ) == grown[a].1[k] by {
        if a < fields.len() {
            assert(grown[a].1[k] == fields[a].1[k]);
        }
    }
    if front.len() == 0 {
        assert(put_all_fields(fields, name, front) == fields);
        assert(seq![trim(last)] =~= values);
    } else {
        assert forall|k: int| 0 <= k < front.len() implies trim(#[trigger] front[k])
            == front[k] by {
            assert(front[k] == values[k]);
        }
        lemma_put_all_absent(fields, name, front);
        let before = fields.push((name, front));
        lemma_key_index(before, name, fields.len() as int);
        assert(front.push(trim(last)) =~= values);
        assert(before.update(fields.len() as int, (name, values)) =~= grown);
    }
}

/// Round trip: a parser in its header stage that holds no field yet, and
/// is handed the lines of a header block one by one, holds the fields of
/// that block afterwards, and still waits for header lines.
pub proof fn lemma_round_trip(p: ParserView, fields: Fields)
    requires
        p.stage is HeaderLine,
        p.fields.len() == 0,
        fields_wf(fields),
        wire_safe(fields),
    ensures
        after_lines(p, header_lines(fields)) is Ok,
        after_lines(p, header_lines(fields))->Ok_0.stage is HeaderLine,
        after_lines(p, header_lines(fields))->Ok_0.fields == fields,
        after_lines(p, header_lines(fields))->Ok_0.props == p.props,
        after_lines(p, header_lines(fields))->Ok_0.body == p.body,
    decreases fields.len(),
{
    if fields.len() == 0 {
        assert(p.fields =~= fields);
    } else {
        let front = fields.drop_last();
        let (name, values) = fields.last();
        assert(fields_wf(front)) by {
            assert forall|a: int| 0 <= a < front.len() implies front[a] == fields[a] by {}
            assert forall|a: int, b: int| 0 <= a < b < front.len() implies normalize_key(
                (#[trigger] front[a]).0,
            ) != normalize_key((#[trigger] front[b]).0) by {
                assert(front[a] == fields[a] && front[b] == fields[b]);
            }
            assert forall|a: int| 0 <= a < front.len() implies (#[trigger] front[a]).1.len()
                > 0 by {
                assert(front[a] == fields[a]);
            }
            assert forall|a: int, k: int|
                0 <= a < front.len() && 0 <= k < front[a].1.len() implies trim(
                #[trigger] front[a].1[k],
            ) == front[a].1[k] by {
                assert(front[a].1[k] == fields[a].1[k]);
            }
        }
        assert(wire_safe(front)) by {
            assert forall|i: int| 0 <= i < front.len() implies wire_safe_name(
                (#[trigger] front[i]).0,
            ) && forall|k: int, m: int|
                0 <= k < front[i].1.len() && 0 <= m < front[i].1[k].len()
                    ==> #[trigger] front[i].1[k][m] != '\n' by {
                assert(front[i] == fields[i]);
            }
        }
        lemma_round_trip(p, front);
        let q = after_lines(p, header_lines(front))->Ok_0;
        let n = fields.len() - 1;
        assert(fields[n] == (name, values));
        assert(wire_safe_name(name));
        assert forall|k: int| 0 <= k < values.len() implies trim(#[trigger] values[k])
            == values[k] by {
            assert(values[k] == fields[n].1[k]);
        }
        assert(!has_key(front, name)) by {
            if has_key(front, name) {
                let i = key_index(front, name);
                assert(front[i] == fields[i]);
                assert(normalize_key(fields[i].0) != normalize_key(fields[n].0));
            }
        }
        lemma_after_lines_concat(p, header_lines(front), field_line_seq(name, values));
        lemma_after_field_lines(q, name, values);
        lemma_put_all_absent(front, name, values);
        assert(front.push((name, values)) =~= fields);
    }
}

/// The bytes of a character hold a line feed only where the character is one.
pub proof fn lemma_scalar_line_feed(s: u32)
    requires
        is_scalar(s),
    ensures
        s == 10 ==> encode_scalar(s) == seq![10u8],
        s != 10 ==> forall|k: int| 0 <= k < encode_scalar(s).len() ==> encode_scalar(s)[k] != 10,
{
    assert(s <= 0x7f ==> ((s & 0x7F) as u8 == 10 <==> s == 10)) by (bit_vector);
    assert((0xC0 | ((s >> 6) & 0x1F) as u8) != 10) by (bit_vector);
    assert((0xE0 | ((s >> 12) & 0x0F) as u8) != 10) by (bit_vector);
    assert((0xF0 | ((s >> 18) & 0x7) as u8) != 10) by (bit_vector);
    assert((0x80 | (s & 0x3F) as u8) != 10) by (bit_vector);
    assert((0x80 | ((s >> 6) & 0x3F) as u8) != 10) by (bit_vector);
    assert((0x80 | ((s >> 12) & 0x3F) as u8) != 10) by (bit_vector);
}

/// The bytes of a text are the bytes of its parts, one after the other.
pub proof fn lemma_encode_concat(a: Seq<char>, b: Seq<char>)
    ensures
        encode_utf8(a + b) == encode_utf8(a) + encode_utf8(b),
    decreases a.len(),
{
    if a.len() == 0 {
        assert(a + b =~= b);
        assert(encode_utf8(a) + encode_utf8(b) =~= encode_utf8(b));
    } else {
        lemma_encode_concat(a.drop_first(), b);
        assert((a + b).drop_first() =~= a.drop_first() + b);
        assert((a + b)[0] == a[0]);
        assert(encode_utf8(a + b) =~= encode_utf8(a) + encode_utf8(b));
    }
}

/// The bytes of a text without a line feed hold none.
pub proof fn lemma_encode_without_line_feed(s: Seq<char>)
    requires
        forall|k: int| 0 <= k < s.len() ==> #[trigger] s[k] != '\n',
    ensures
        forall|k: int| 0 <= k < encode_utf8(s).len() ==> #[trigger] encode_utf8(s)[k] != 10,
    decreases s.len(),
{
    if s.len() > 0 {
        let rest = s.drop_first();
        assert forall|k: int| 0 <= k < rest.len() implies #[trigger] rest[k] != '\n' by {
            assert(rest[k] == s[k + 1]);
        }
        lemma_encode_without_line_feed(rest);
        let first = s[0] as u32;
        char_is_scalar(s[0]);
        assert(first != 10) by {
            if first == 10 {
                char_u32_cast(s[0], first);
                char_u32_cast('\n', 10);
            }
        }
        lemma_scalar_line_feed(first);
        let head = encode_scalar(first);
        assert(encode_utf8(s) == head + encode_utf8(rest));
        assert forall|k: int| 0 <= k < encode_utf8(s).len() implies #[trigger] encode_utf8(s)[k]
            != 10 by {
            if k < head.len() {
                assert(encode_utf8(s)[k] == head[k]);
            } else {
                assert(encode_utf8(s)[k] == encode_utf8(rest)[k - head.len()]);
            }
        }
    }
}

/// The scan for a byte stops at the first place that holds it.
pub proof fn lemma_index_of_byte_is(s: Seq<u8>, b: u8, from: int, i: int)
    requires
        0 <= from <= i < s.len(),
        forall|k: int| from <= k < i ==> #[trigger] s[k] != b,
        s[i] == b,
    ensures
        index_of_byte(s, b, from) == i,
    decreases i - from,
{
    if from < i {
        assert(s[from] != b);
        lemma_index_of_byte_is(s, b, from + 1, i);
    }
}

/// Whether a text is one line: it ends with a line feed and holds no other.
pub open spec fn one_line(line: Seq<char>) -> bool {
    &&& line.len() > 0
    &&& line.last() == '\n'
    &&& forall|k: int| 0 <= k < line.len() - 1 ==> #[trigger] line[k] != '\n'
}

/// The bytes of one line, with whatever follows, begin with that line as
/// the parser cuts it.
pub proof fn lemma_line_bytes(line: Seq<char>, more: Seq<u8>)
    requires
        one_line(line),
    ensures
        line_len(encode_utf8(line) + more) == encode_utf8(line).len(),
        (encode_utf8(line) + more).take(encode_utf8(line).len() as int) == encode_utf8(line),
        (encode_utf8(line) + more).skip(encode_utf8(line).len() as int) == more,
{
    let front = line.drop_last();
    assert(line =~= front + seq!['\n']);
    lemma_encode_concat(front, seq!['\n']);
    assert(encode_utf8(seq!['\n']) =~= seq![10u8]) by {
        lemma_scalar_line_feed(10);
        assert(seq!['\n'].drop_first() =~= Seq::<char>::empty());
        assert(encode_utf8(seq!['\n'].drop_first()) =~= Seq::<u8>::empty());
        assert('\n' as u32 == 10);
    }
    assert forall|k: int| 0 <= k < front.len() implies #[trigger] front[k] != '\n' by {
        assert(front[k] == line[k]);
    }
    lemma_encode_without_line_feed(front);
    let bytes = encode_utf8(line);
    let input = bytes + more;
    let n = bytes.len() as int;
    assert(bytes =~= encode_utf8(front) + seq![10u8]);
    assert forall|k: int| 0 <= k < n - 1 implies #[trigger] input[k] != 10 by {
        assert(input[k] == encode_utf8(front)[k]);
    }
    assert(input[n - 1] == 10);
    lemma_index_of_byte_is(input, 10, 0, n - 1);
    assert(input.take(n) =~= bytes);
    assert(input.skip(n) =~= more);
}

/// A header line of a safe name and a value without line feed is one line.
pub proof fn lemma_header_line_is_one_line(name: Seq<char>, value: Seq<char>)
    requires
        wire_safe_name(name),
        forall|m: int| 0 <= m < value.len() ==> #[trigger] value[m] != '\n',
    ensures
        one_line(header_line(name, value)),
{
    let line = header_line(name, value);
    let n = name.len() as int;
    let v = value.len() as int;
    assert(line.len() == n + v + 4);
    assert(line[n + v + 3] == '\n');
    assert forall|k: int| 0 <= k < line.len() - 1 implies #[trigger] line[k] != '\n' by {
        if k < n {
            assert(line[k] == name[k]);
        } else if k == n {
            assert(line[k] == ':');
        } else if k == n + 1 {
            assert(line[k] == ' ');
        } else if k < n + 2 + v {
            assert(line[k] == value[k - n - 2]);
        } else {
            assert(line[k] == '\r');
        }
    }
}

/// A parser in its header stage that reads the lines of one field from
/// bytes goes on with what follows them as if the lines had been handed to
/// it one by one.
pub proof fn lemma_parse_field(
    p: ParserView,
    name: Seq<char>,
    values: Seq<Seq<char>>,
    more: Seq<u8>,
)
    requires
        p.stage is HeaderLine,
        wire_safe_name(name),
        forall|k: int| 0 <= k < values.len() ==> trim(#[trigger] values[k]) == values[k],
        forall|k: int, m: int|
            0 <= k < values.len() && 0 <= m < values[k].len() ==> #[trigger] values[k][m] != '\n',
    ensures
        after_lines(p, field_line_seq(name, values)) is Ok,
        parse_from(p, encode_utf8(field_lines(name, values)) + more) == parse_from(
            after_lines(p, field_line_seq(name, values))->Ok_0,
            more,
        ),
    decreases values.len(),
{
    broadcast use vstd::utf8::encode_utf8_valid_utf8, vstd::utf8::encode_utf8_decode_utf8;

    lemma_after_field_lines(p, name, values);
    if values.len() == 0 {
        assert(encode_utf8(field_lines(name, values)) + more =~= more);
    } else {
        let front = values.drop_last();
        let last = values.last();
        assert forall|k: int| 0 <= k < front.len() implies trim(#[trigger] front[k])
            == front[k] by {
            assert(front[k] == values[k]);
        }
        assert forall|k: int, m: int|
            0 <= k < front.len() && 0 <= m < front[k].len() implies #[trigger] front[k][m]
            != '\n' by {
            assert(front[k] == values[k]);
        }
        let line = header_line(name, last);
        let tail = encode_utf8(line) + more;
        lemma_parse_field(p, name, front, tail);
        lemma_after_field_lines(p, name, front);
        let q = after_lines(p, field_line_seq(name, front))->Ok_0;
        lemma_encode_concat(field_lines(name, front), line);
        assert(encode_utf8(field_lines(name, values)) + more =~= encode_utf8(
            field_lines(name, front),
        ) + tail);
        assert forall|m: int| 0 <= m < last.len() implies #[trigger] last[m] != '\n' by {
            assert(last == values[values.len() - 1]);
        }
        lemma_header_line_is_one_line(name, last);
        lemma_line_bytes(line, more);
        lemma_header_line_step(q.fields, name, last);
        assert(field_line_seq(name, values).drop_last() =~= field_line_seq(name, front));
        assert(field_line_seq(name, values).last() == line);
        assert(after_lines(p, field_line_seq(name, values)) == line_step(q, encode_utf8(line)));
    }
}

/// Round trip on the wire: a parser in its header stage that holds no field
/// yet and reads the serialized form of a header block from bytes holds
/// the fields of that block when it has read them, and goes on with the
/// bytes that follow.
pub proof fn lemma_round_trip_on_the_wire(p: ParserView, fields: Fields, more: Seq<u8>)
    requires
        p.stage is HeaderLine,
        p.fields.len() == 0,
        fields_wf(fields),
        wire_safe(fields),
    ensures
        after_lines(p, header_lines(fields)) is Ok,
        after_lines(p, header_lines(fields))->Ok_0.fields == fields,
        after_lines(p, header_lines(fields))->Ok_0.stage is HeaderLine,
        parse_from(p, encode_utf8(serialize_fields(fields)) + more) == parse_from(
            after_lines(p, header_lines(fields))->Ok_0,
            more,
        ),
    decreases fields.len(),
{
    lemma_round_trip(p, fields);
    if fields.len() == 0 {
        assert(encode_utf8(serialize_fields(fields)) + more =~= more);
    } else {
        let front = fields.drop_last();
        let (name, values) = fields.last();
        let n = fields.len() - 1;
        assert(fields[n] == (name, values));
        assert(fields_wf(front) && wire_safe(front)) by {
            assert forall|a: int| 0 <= a < front.len() implies front[a] == fields[a] by {}
            assert forall|a: int, k: int|
                0 <= a < front.len() && 0 <= k < front[a].1.len() implies trim(
                #[trigger] front[a].1[k],
            ) == front[a].1[k] by {
                assert(front[a].1[k] == fields[a].1[k]);
            }
            assert forall|a: int, b: int| 0 <= a < b < front.len() implies normalize_key(
                (#[trigger] front[a]).0,
            ) != normalize_key((#[trigger] front[b]).0) by {
                assert(front[a] == fields[a] && front[b] == fields[b]);
            }
            assert forall|a: int| 0 <= a < front.len() implies (#[trigger] front[a]).1.len()
                > 0 by {
                assert(front[a] == fields[a]);
            }
            assert forall|i: int| 0 <= i < front.len() implies wire_safe_name(
                (#[trigger] front[i]).0,
            ) && forall|k: int, m: int|
                0 <= k < front[i].1.len() && 0 <= m < front[i].1[k].len()
                    ==> #[trigger] front[i].1[k][m] != '\n' by {
                assert(front[i] == fields[i]);
            }
        }
        let tail = encode_utf8(field_lines(name, values)) + more;
        lemma_round_trip_on_the_wire(p, front, tail);
        let q = after_lines(p, header_lines(front))->Ok_0;
        lemma_encode_concat(serialize_fields(front), field_lines(name, values));
        assert(encode_utf8(serialize_fields(fields)) + more =~= encode_utf8(
            serialize_fields(front),
        ) + tail);
        assert forall|k: int| 0 <= k < values.len() implies trim(#[trigger] values[k])
            == values[k] by {
            assert(values[k] == fields[n].1[k]);
        }
        assert forall|k: int, m: int|
            0 <= k < values.len() && 0 <= m < values[k].len() implies #[trigger] values[k][m]
            != '\n' by {
            assert(values[k][m] == fields[n].1[k][m]);
        }
        lemma_parse_field(q, name, values, more);
        lemma_after_lines_concat(p, header_lines(front), field_line_seq(name, values));
    }
}

/// A request that carries a serialized header block: a parser that has
/// read a request line with a known version, and then reads the serialized
/// form of a header block, the blank line and what follows from bytes,
/// yields a request with the fields of that block, and with the body that
/// those fields announce among the bytes that follow.
pub proof fn lemma_request_round_trip(p: ParserView, fields: Fields, rest: Seq<u8>)
    requires
        p.stage is HeaderLine,
        p.fields.len() == 0,
        p.body is None,
        p.props.len() == 3,
        version_of(p.props[2]) is Some,
        fields_wf(fields),
        wire_safe(fields),
    ensures
        parse_from(p, encode_utf8(serialize_fields(fields) + seq!['\r', '\n']) + rest) is Ok,
        parse_from(
            p,
            encode_utf8(serialize_fields(fields) + seq!['\r', '\n']) + rest,
        )->Ok_0.fields == fields,
        parse_from(
            p,
            encode_utf8(serialize_fields(fields) + seq!['\r', '\n']) + rest,
        )->Ok_0.body == body_of(fields, rest),
{
    broadcast use vstd::utf8::encode_utf8_valid_utf8, vstd::utf8::encode_utf8_decode_utf8;

    let blank = seq!['\r', '\n'];
    let more = encode_utf8(blank) + rest;
    lemma_encode_concat(serialize_fields(fields), blank);
    assert(encode_utf8(serialize_fields(fields) + blank) + rest =~= encode_utf8(
        serialize_fields(fields),
    ) + more);
    lemma_round_trip_on_the_wire(p, fields, more);
    lemma_round_trip(p, fields);
    let q = after_lines(p, header_lines(fields))->Ok_0;
    assert(one_line(blank));
    lemma_line_bytes(blank, rest);
    lemma_trim_is(blank, 2, 2);
    assert(trim(blank).len() == 0);
    let after = line_step(q, encode_utf8(blank));
    assert(after is Ok);
    assert(parse_from(q, more) == parse_from(after->Ok_0, rest));
}

} // verus!
