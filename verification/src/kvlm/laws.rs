//! What holds of the codec of key-value lists: reading an encoding gives back what was
//! encoded.

use vstd::prelude::*;
use crate::bytes::{first_index_from, lemma_first_index_from, lemma_first_index_is, NEWLINE, SPACE};
use crate::kvlm::{
    append_value, fold_value, headers_bytes, line_bytes, message_bytes, no_empty_values,
    parse_from, parse_spec, serialize_spec, unfold_value, value_end, values_bytes, KvlmView,
};
use crate::ordered::{distinct_keys, index_of_key, lemma_index_of_key};
use crate::text::{lemma_text_of_utf8, text_of, utf8};

verus! {

/// Whether a key can stand in a header line: it is not empty and holds neither a space
/// nor a line feed.
pub open spec fn valid_key(key: Seq<char>) -> bool {
    key.len() > 0 && forall|j: int|
        0 <= j < key.len() ==> (#[trigger] key[j]) != ' ' && key[j] != '\n'
}

/// Whether every key of `headers` can stand in a header line.
pub open spec fn valid_keys(headers: Seq<(Seq<char>, Seq<Seq<char>>)>) -> bool {
    forall|i: int| 0 <= i < headers.len() ==> valid_key((#[trigger] headers[i]).0)
}

/// Whether the bytes of a key are not empty and hold neither a space nor a line feed.
pub open spec fn byte_key(key: Seq<char>) -> bool {
    utf8(key).len() > 0 && forall|i: int|
        0 <= i < utf8(key).len() ==> (#[trigger] utf8(key)[i]) != SPACE && utf8(key)[i] != NEWLINE
}

/// Whether the bytes of every key of `headers` can stand in a header line.
pub open spec fn byte_keys(headers: Seq<(Seq<char>, Seq<Seq<char>>)>) -> bool {
    forall|i: int| 0 <= i < headers.len() ==> byte_key((#[trigger] headers[i]).0)
}

/// The bytes of a key that can stand in a header line are not empty and hold neither a
/// space nor a line feed.
pub proof fn lemma_valid_key(key: Seq<char>)
    requires
        valid_key(key),
    ensures
        byte_key(key),
{
    crate::text::lemma_utf8_without_char(key, ' ', SPACE);
    crate::text::lemma_utf8_without_char(key, '\n', NEWLINE);
}

/// The header lines of one key as pairs of key and value.
pub open spec fn entry_lines(key: Seq<char>, values: Seq<Seq<char>>) -> Seq<
    (Seq<char>, Seq<char>),
> {
    Seq::new(values.len(), |j: int| (key, values[j]))
}

/// All header lines as pairs of key and value, in their order.
pub open spec fn lines_of(headers: Seq<(Seq<char>, Seq<Seq<char>>)>) -> Seq<
    (Seq<char>, Seq<char>),
>
    decreases headers.len(),
{
    if headers.len() == 0 {
        Seq::empty()
    } else {
        lines_of(headers.drop_last()) + entry_lines(headers.last().0, headers.last().1)
    }
}

/// The bytes of a list of header lines.
pub open spec fn lines_bytes(lines: Seq<(Seq<char>, Seq<char>)>) -> Seq<u8>
    decreases lines.len(),
{
    if lines.len() == 0 {
        Seq::empty()
    } else {
        line_bytes(lines[0].0, lines[0].1) + lines_bytes(lines.drop_first())
    }
}

/// The headers that come of adding the values of `lines` to `headers`, one after the other.
pub open spec fn add_lines(
    headers: Seq<(Seq<char>, Seq<Seq<char>>)>,
    lines: Seq<(Seq<char>, Seq<char>)>,
) -> Seq<(Seq<char>, Seq<Seq<char>>)>
    decreases lines.len(),
{
    if lines.len() == 0 {
        headers
    } else {
        add_lines(append_value(headers, lines[0].0, lines[0].1), lines.drop_first())
    }
}

proof fn lemma_lines_bytes_concat(a: Seq<(Seq<char>, Seq<char>)>, b: Seq<(Seq<char>, Seq<char>)>)
    ensures
        lines_bytes(a + b) == lines_bytes(a) + lines_bytes(b),
    decreases a.len(),
{
    if a.len() == 0 {
        assert(a + b =~= b);
        assert(lines_bytes(a) + lines_bytes(b) =~= lines_bytes(b));
    } else {
        lemma_lines_bytes_concat(a.drop_first(), b);
        assert((a + b).drop_first() =~= a.drop_first() + b);
        assert((a + b)[0] == a[0]);
        assert(lines_bytes(a + b) =~= lines_bytes(a) + lines_bytes(b));
    }
}

proof fn lemma_add_lines_concat(
    headers: Seq<(Seq<char>, Seq<Seq<char>>)>,
    a: Seq<(Seq<char>, Seq<char>)>,
    b: Seq<(Seq<char>, Seq<char>)>,
)
    ensures
        add_lines(headers, a + b) == add_lines(add_lines(headers, a), b),
    decreases a.len(),
{
    if a.len() == 0 {
        assert(a + b =~= b);
    } else {
        assert((a + b).drop_first() =~= a.drop_first() + b);
        assert((a + b)[0] == a[0]);
        lemma_add_lines_concat(append_value(headers, a[0].0, a[0].1), a.drop_first(), b);
    }
}

proof fn lemma_values_bytes_are_lines(key: Seq<char>, values: Seq<Seq<char>>)
    ensures
        values_bytes(key, values) == lines_bytes(entry_lines(key, values)),
    decreases values.len(),
{
    if values.len() > 0 {
        let front = values.drop_last();
        lemma_values_bytes_are_lines(key, front);
        let one = seq![(key, values.last())];
        assert(entry_lines(key, values) =~= entry_lines(key, front) + one);
        lemma_lines_bytes_concat(entry_lines(key, front), one);
        assert(one.drop_first() =~= Seq::empty());
        assert(lines_bytes(one.drop_first()) =~= Seq::<u8>::empty());
        assert(lines_bytes(one) =~= line_bytes(key, values.last()));
    } else {
        assert(entry_lines(key, values) =~= Seq::empty());
    }
}

proof fn lemma_headers_bytes_are_lines(headers: Seq<(Seq<char>, Seq<Seq<char>>)>)
    ensures
        headers_bytes(headers) == lines_bytes(lines_of(headers)),
    decreases headers.len(),
{
    if headers.len() > 0 {
        lemma_headers_bytes_are_lines(headers.drop_last());
        lemma_values_bytes_are_lines(headers.last().0, headers.last().1);
        lemma_lines_bytes_concat(
            lines_of(headers.drop_last()),
            entry_lines(headers.last().0, headers.last().1),
        );
    }
}

/// The lines of one key, added to headers that lack the key, make one new last header.
proof fn lemma_add_entry_lines(
    headers: Seq<(Seq<char>, Seq<Seq<char>>)>,
    key: Seq<char>,
    values: Seq<Seq<char>>,
)
    requires
        values.len() > 0,
        index_of_key(headers, key) == headers.len(),
    ensures
        add_lines(headers, entry_lines(key, values)) == headers.push((key, values)),
    decreases values.len(),
{
    let one = seq![(key, values.last())];
    let front = values.drop_last();
    assert(entry_lines(key, values) =~= entry_lines(key, front) + one);
    lemma_add_lines_concat(headers, entry_lines(key, front), one);
    assert(one.drop_first() =~= Seq::empty());
    let mid = add_lines(headers, entry_lines(key, front));
    assert(add_lines(append_value(mid, key, values.last()), one.drop_first()) == append_value(
        mid,
        key,
        values.last(),
    ));
    assert(add_lines(mid, one) == append_value(mid, key, values.last()));
    if front.len() == 0 {
        assert(entry_lines(key, front) =~= Seq::empty());
        assert(mid == headers);
        assert(seq![values.last()] =~= values);
    } else {
        lemma_add_entry_lines(headers, key, front);
        assert(mid == headers.push((key, front)));
        lemma_index_of_key(mid, key);
        let i = index_of_key(mid, key);
        assert(mid[headers.len() as int].0 == key);
        assert(i == headers.len()) by {
            lemma_index_of_key(headers, key);
            if i < headers.len() {
                assert(mid[i] == headers[i]);
            }
        }
        assert(front.push(values.last()) =~= values);
        assert(append_value(mid, key, values.last()) =~= headers.push((key, values)));
    }
}

/// The lines of headers with distinct keys, added to nothing, make those headers.
proof fn lemma_add_all_lines(headers: Seq<(Seq<char>, Seq<Seq<char>>)>)
    requires
        distinct_keys(headers),
        no_empty_values(headers),
    ensures
        add_lines(Seq::empty(), lines_of(headers)) == headers,
    decreases headers.len(),
{
    if headers.len() > 0 {
        let front = headers.drop_last();
        let last = headers.last();
        assert(distinct_keys(front) && no_empty_values(front)) by {
            assert forall|i: int, j: int| 0 <= i < j < front.len() implies (#[trigger] front[i]).0
                != (#[trigger] front[j]).0 by {
                assert(front[i] == headers[i] && front[j] == headers[j]);
            }
            assert forall|i: int| 0 <= i < front.len() implies (#[trigger] front[i]).1.len()
                > 0 by {
                assert(front[i] == headers[i]);
            }
        }
        lemma_add_all_lines(front);
        lemma_add_lines_concat(Seq::empty(), lines_of(front), entry_lines(last.0, last.1));
        lemma_index_of_key(front, last.0);
        assert(index_of_key(front, last.0) == front.len()) by {
            let i = index_of_key(front, last.0);
            if i < front.len() {
                assert(front[i] == headers[i]);
                assert(headers[i].0 != headers[headers.len() - 1].0);
            }
        }
        assert(last.1.len() > 0);
        lemma_add_entry_lines(front, last.0, last.1);
        assert(front.push(last) =~= headers);
    }
}

/// Every line of headers with valid keys has a valid key.
proof fn lemma_lines_valid(headers: Seq<(Seq<char>, Seq<Seq<char>>)>)
    requires
        byte_keys(headers),
    ensures
        forall|i: int|
            0 <= i < lines_of(headers).len() ==> byte_key((#[trigger] lines_of(headers)[i]).0),
    decreases headers.len(),
{
    if headers.len() > 0 {
        let front = headers.drop_last();
        assert(byte_keys(front)) by {
            assert forall|i: int| 0 <= i < front.len() implies byte_key((#[trigger] front[i]).0) by {
                assert(front[i] == headers[i]);
            }
        }
        lemma_lines_valid(front);
        assert(byte_key(headers.last().0));
        let a = lines_of(front);
        let b = entry_lines(headers.last().0, headers.last().1);
        assert forall|i: int| 0 <= i < lines_of(headers).len() implies byte_key(
            (#[trigger] lines_of(headers)[i]).0,
        ) by {
            if i < a.len() {
                assert(lines_of(headers)[i] == a[i]);
            } else {
                assert(lines_of(headers)[i] == b[i - a.len()]);
            }
        }
    }
}

/// A space follows every line feed of a folded value, inside the folded value.
proof fn lemma_fold_pairs(v: Seq<u8>)
    ensures
        forall|t: int|
            0 <= t < fold_value(v).len() && #[trigger] fold_value(v)[t] == NEWLINE ==> t + 1
                < fold_value(v).len() && fold_value(v)[t + 1] == SPACE,
    decreases v.len(),
{
    if v.len() > 0 {
        lemma_fold_pairs(v.drop_last());
        let front = fold_value(v.drop_last());
        let all = fold_value(v);
        assert forall|t: int| 0 <= t < all.len() && #[trigger] all[t] == NEWLINE implies t + 1
            < all.len() && all[t + 1] == SPACE by {
            if t < front.len() {
                assert(all[t] == front[t]);
                assert(all[t + 1] == front[t + 1]);
            }
        }
    }
}

/// Unfolding a folded value, whatever follows it, gives the value and what follows unfolded.
proof fn lemma_unfold_fold(v: Seq<u8>, tail: Seq<u8>)
    ensures
        unfold_value(fold_value(v) + tail) == v + unfold_value(tail),
    decreases v.len(),
{
    if v.len() == 0 {
        assert(fold_value(v) + tail =~= tail);
        assert(v + unfold_value(tail) =~= unfold_value(tail));
    } else {
        let front = v.drop_last();
        let last = v.last();
        let piece = if last == NEWLINE {
            seq![NEWLINE, SPACE]
        } else {
            seq![last]
        };
        assert(fold_value(v) + tail =~= fold_value(front) + (piece + tail));
        lemma_unfold_fold(front, piece + tail);
        let joined = piece + tail;
        if last == NEWLINE {
            assert(joined[0] == NEWLINE && joined[1] == SPACE);
            assert(joined.subrange(2, joined.len() as int) =~= tail);
        } else {
            assert(joined[0] == last);
            assert(joined.drop_first() =~= tail);
        }
        assert(unfold_value(joined) =~= seq![last] + unfold_value(tail));
        assert(front + (seq![last] + unfold_value(tail)) =~= v + unfold_value(tail));
    }
}

/// The value ends at `end` where no line feed before it lacks its space and `end` holds a
/// line feed that no space follows.
proof fn lemma_value_end_is(raw: Seq<u8>, from: int, end: int)
    requires
        0 <= from <= end < raw.len(),
        forall|t: int|
            from <= t < end && #[trigger] raw[t] == NEWLINE ==> t + 1 < raw.len() && raw[t + 1]
                == SPACE,
        raw[end] == NEWLINE,
        !(end + 1 < raw.len() && raw[end + 1] == SPACE),
    ensures
        value_end(raw, from) == Some(end),
    decreases end - from,
{
    if from < end {
        lemma_value_end_is(raw, from + 1, end);
    }
}

/// The bytes of lines with valid keys, and a message behind them, do not begin with a space.
proof fn lemma_rest_starts(lines: Seq<(Seq<char>, Seq<char>)>, message: Option<Seq<char>>)
    requires
        forall|i: int| 0 <= i < lines.len() ==> byte_key((#[trigger] lines[i]).0),
    ensures
        (lines_bytes(lines) + message_bytes(message)).len() == 0 || (lines_bytes(lines)
            + message_bytes(message))[0] != SPACE,
{
    if lines.len() > 0 {
        assert(byte_key(lines[0].0));
        let key = utf8(lines[0].0);
        assert(key[0] != SPACE);
        assert(line_bytes(lines[0].0, lines[0].1)[0] == key[0]);
    } else {
        assert(lines_bytes(lines) + message_bytes(message) =~= message_bytes(message));
    }
}

/// Reading bytes that are header lines with valid keys, then a message, adds the values of
/// those lines to the headers read before, and finds the message.
proof fn lemma_parse_lines(
    raw: Seq<u8>,
    before: Seq<u8>,
    lines: Seq<(Seq<char>, Seq<char>)>,
    message: Option<Seq<char>>,
    headers: Seq<(Seq<char>, Seq<Seq<char>>)>,
)
    requires
        raw == before + lines_bytes(lines) + message_bytes(message),
        forall|i: int| 0 <= i < lines.len() ==> byte_key((#[trigger] lines[i]).0),
    ensures
        parse_from(raw, before.len() as int, headers) == Some(
            KvlmView { headers: add_lines(headers, lines), message },
        ),
    decreases lines.len(),
{
    let pos = before.len() as int;
    if lines.len() == 0 {
        match message {
            Some(m) => {
                assert(raw[pos] == NEWLINE);
                assert(raw.subrange(pos + 1, raw.len() as int) =~= utf8(m));
                lemma_text_of_utf8(m);
            },
            None => {
                assert(raw.len() == pos);
            },
        }
    } else {
        let key = lines[0].0;
        let value = lines[0].1;
        let kb = utf8(key);
        let fv = fold_value(utf8(value));
        let rest = lines_bytes(lines.drop_first()) + message_bytes(message);
        assert(byte_key(key));
        let line = line_bytes(key, value);
        assert(raw =~= before + line + rest);
        let space = pos + kb.len();
        let end = space + 1 + fv.len();
        assert(line.len() == kb.len() + 1 + fv.len() + 1);
        assert forall|t: int| pos <= t < space implies raw[t] == kb[t - pos] by {}
        assert(raw[space] == SPACE);
        assert forall|t: int| space + 1 <= t < end implies raw[t] == fv[t - space - 1] by {}
        assert(raw[end] == NEWLINE);
        assert(raw[pos] != NEWLINE) by {
            assert(raw[pos] == kb[0]);
        }
        assert(first_index_from(raw, SPACE, pos) == space) by {
            assert forall|t: int| pos <= t < space implies raw[t] != SPACE by {
                assert(raw[t] == kb[t - pos]);
            }
            lemma_first_index_is(raw, SPACE, pos, space);
        }
        let line_end = first_index_from(raw, NEWLINE, pos);
        assert(space < line_end) by {
            lemma_first_index_from(raw, NEWLINE, pos);
            if line_end <= space {
                if line_end < space {
                    assert(raw[line_end] == kb[line_end - pos]);
                }
            }
        }
        assert(value_end(raw, space + 1) == Some(end)) by {
            lemma_fold_pairs(utf8(value));
            assert forall|t: int| space + 1 <= t < end && #[trigger] raw[t] == NEWLINE implies t + 1
                < raw.len() && raw[t + 1] == SPACE by {
                assert(fv[t - space - 1] == NEWLINE);
                assert(raw[t + 1] == fv[t - space]);
            }
            lemma_rest_starts(lines.drop_first(), message);
            if end + 1 < raw.len() {
                assert(raw[end + 1] == rest[0]);
            }
            lemma_value_end_is(raw, space + 1, end);
        }
        assert(raw.subrange(pos, space) =~= kb);
        assert(raw.subrange(space + 1, end) =~= fv);
        lemma_text_of_utf8(key);
        lemma_unfold_fold(utf8(value), Seq::empty());
        assert(fv + Seq::<u8>::empty() =~= fv);
        assert(utf8(value) + unfold_value(Seq::<u8>::empty()) =~= utf8(value));
        lemma_text_of_utf8(value);
        assert(raw =~= (before + line) + lines_bytes(lines.drop_first()) + message_bytes(message));
        assert forall|i: int| 0 <= i < lines.drop_first().len() implies byte_key(
            (#[trigger] lines.drop_first()[i]).0,
        ) by {
            assert(lines.drop_first()[i] == lines[i + 1]);
        }
        lemma_parse_lines(
            raw,
            before + line,
            lines.drop_first(),
            message,
            append_value(headers, key, value),
        );
        assert((before + line).len() == end + 1);
    }
}

/// Reading the encoding of a key-value list gives the list back, with its headers in their
/// order, the values of each key in theirs, and its message. This holds of every list
/// whose keys are distinct, have a value each, and can stand in a header line.
pub proof fn lemma_parse_serialize(v: KvlmView)
    requires
        distinct_keys(v.headers),
        no_empty_values(v.headers),
        valid_keys(v.headers),
    ensures
        parse_spec(serialize_spec(v)) == Some(v),
{
    assert(byte_keys(v.headers)) by {
        assert forall|i: int| 0 <= i < v.headers.len() implies byte_key(
            (#[trigger] v.headers[i]).0,
        ) by {
            lemma_valid_key(v.headers[i].0);
        }
    }
    lemma_headers_bytes_are_lines(v.headers);
    lemma_lines_valid(v.headers);
    lemma_add_all_lines(v.headers);
    let raw = serialize_spec(v);
    assert(raw =~= Seq::<u8>::empty() + lines_bytes(lines_of(v.headers)) + message_bytes(
        v.message,
    ));
    lemma_parse_lines(raw, Seq::empty(), lines_of(v.headers), v.message, Seq::empty());
}

/// The header lines that stand in `raw` from `pos` on, as pairs of key and value in their
/// order, and the message behind them. `None` where `raw` cannot be read.
pub open spec fn scan(raw: Seq<u8>, pos: int) -> Option<
    (Seq<(Seq<char>, Seq<char>)>, Option<Seq<char>>),
>
    decreases raw.len() - pos,
{
    if pos < 0 || pos >= raw.len() {
        Some((Seq::empty(), None))
    } else if raw[pos] == NEWLINE {
        match text_of(raw.subrange(pos + 1, raw.len() as int)) {
            Some(message) => Some((Seq::empty(), Some(message))),
            None => None,
        }
    } else {
        let space = first_index_from(raw, SPACE, pos);
        let line_end = first_index_from(raw, NEWLINE, pos);
        if space >= line_end {
            None
        } else {
            match value_end(raw, space + 1) {
                None => None,
                Some(end) => {
                    proof {
                        lemma_first_index_from(raw, SPACE, pos);
                        crate::kvlm::lemma_value_end(raw, space + 1);
                    }
                    match (
                        text_of(raw.subrange(pos, space)),
                        text_of(unfold_value(raw.subrange(space + 1, end))),
                    ) {
                        (Some(key), Some(value)) => match scan(raw, end + 1) {
                            Some((lines, message)) => Some((seq![(key, value)] + lines, message)),
                            None => None,
                        },
                        _ => None,
                    }
                },
            }
        }
    }
}

/// Whether the lines of each key stand together: between two lines of one key stands no
/// line of another.
pub open spec fn contiguous(lines: Seq<(Seq<char>, Seq<char>)>) -> bool {
    forall|a: int, b: int, c: int|
        #![trigger lines[a], lines[b], lines[c]]
        0 <= a < b < c < lines.len() && lines[a].0 == lines[c].0 ==> lines[b].0 == lines[a].0
}

/// Reading adds the values of the lines that stand in the bytes to the headers read before.
proof fn lemma_parse_is_scan(raw: Seq<u8>, pos: int, headers: Seq<(Seq<char>, Seq<Seq<char>>)>)
    ensures
        parse_from(raw, pos, headers) == match scan(raw, pos) {
            Some((lines, message)) => Some(
                KvlmView { headers: add_lines(headers, lines), message },
            ),
            None => None,
        },
    decreases raw.len() - pos,
{
    if pos < 0 || pos >= raw.len() {
    } else if raw[pos] == NEWLINE {
    } else {
        let space = first_index_from(raw, SPACE, pos);
        let line_end = first_index_from(raw, NEWLINE, pos);
        if space < line_end {
            match value_end(raw, space + 1) {
                None => {},
                Some(end) => {
                    lemma_first_index_from(raw, SPACE, pos);
                    crate::kvlm::lemma_value_end(raw, space + 1);
                    match (
                        text_of(raw.subrange(pos, space)),
                        text_of(unfold_value(raw.subrange(space + 1, end))),
                    ) {
                        (Some(key), Some(value)) => {
                            lemma_parse_is_scan(raw, end + 1, append_value(headers, key, value));
                            match scan(raw, end + 1) {
                                Some((lines, message)) => {
                                    let all = seq![(key, value)] + lines;
                                    assert(all[0] == (key, value));
                                    assert(all.drop_first() =~= lines);
                                },
                                None => {},
                            }
                        },
                        _ => {},
                    }
                },
            }
        }
    }
}

/// Folding distributes over the parts of a value.
proof fn lemma_fold_concat(a: Seq<u8>, b: Seq<u8>)
    ensures
        fold_value(a + b) == fold_value(a) + fold_value(b),
    decreases b.len(),
{
    if b.len() == 0 {
        assert(a + b =~= a);
        assert(fold_value(a) + fold_value(b) =~= fold_value(a));
    } else {
        lemma_fold_concat(a, b.drop_last());
        assert((a + b).drop_last() =~= a + b.drop_last());
        assert((a + b).last() == b.last());
        assert(fold_value(a + b) =~= fold_value(a) + fold_value(b));
    }
}

/// Folding an unfolded value gives the value back, where a space follows each of its line
/// feeds.
proof fn lemma_fold_unfold(r: Seq<u8>)
    requires
        forall|t: int|
            0 <= t < r.len() && #[trigger] r[t] == NEWLINE ==> t + 1 < r.len() && r[t + 1] == SPACE,
    ensures
        fold_value(unfold_value(r)) == r,
    decreases r.len(),
{
    if r.len() > 0 {
        if r[0] == NEWLINE {
            assert(r.len() > 1 && r[1] == SPACE);
            let rest = r.subrange(2, r.len() as int);
            assert forall|t: int| 0 <= t < rest.len() && #[trigger] rest[t] == NEWLINE implies t + 1
                < rest.len() && rest[t + 1] == SPACE by {
                assert(r[t + 2] == NEWLINE);
                assert(rest[t + 1] == r[t + 3]);
            }
            lemma_fold_unfold(rest);
            let one = seq![NEWLINE];
            lemma_fold_concat(one, unfold_value(rest));
            assert(one.drop_last() =~= Seq::<u8>::empty());
            assert(fold_value(one.drop_last()) =~= Seq::<u8>::empty());
            assert(one.last() == NEWLINE);
            assert(fold_value(one) =~= seq![NEWLINE, SPACE]);
            assert(seq![NEWLINE, SPACE] + rest =~= r);
        } else {
            let rest = r.drop_first();
            assert forall|t: int| 0 <= t < rest.len() && #[trigger] rest[t] == NEWLINE implies t + 1
                < rest.len() && rest[t + 1] == SPACE by {
                assert(r[t + 1] == NEWLINE);
                assert(rest[t + 1] == r[t + 2]);
            }
            lemma_fold_unfold(rest);
            let one = seq![r[0]];
            lemma_fold_concat(one, unfold_value(rest));
            assert(one.drop_last() =~= Seq::<u8>::empty());
            assert(fold_value(one.drop_last()) =~= Seq::<u8>::empty());
            assert(one.last() == r[0]);
            assert(fold_value(one) =~= one);
            assert(one + rest =~= r);
        }
    }
}

/// A space follows every line feed that stands before the end of a value.
proof fn lemma_value_pairs(raw: Seq<u8>, from: int, end: int)
    requires
        0 <= from,
        value_end(raw, from) == Some(end),
    ensures
        forall|t: int|
            from <= t < end && #[trigger] raw[t] == NEWLINE ==> t + 1 < end && raw[t + 1] == SPACE,
    decreases raw.len() - from,
{
    crate::kvlm::lemma_value_end(raw, from);
    if from < end {
        lemma_value_pairs(raw, from + 1, end);
    }
}

/// The bytes that were read are the bytes of the lines and of the message that were found.
proof fn lemma_scan_bytes(raw: Seq<u8>, pos: int)
    requires
        0 <= pos <= raw.len(),
    ensures
        scan(raw, pos) matches Some((lines, message)) ==> raw.subrange(pos, raw.len() as int)
            == lines_bytes(lines) + message_bytes(message),
    decreases raw.len() - pos,
{
    let rest = raw.subrange(pos, raw.len() as int);
    if pos >= raw.len() {
        assert(rest =~= Seq::<u8>::empty());
        assert(lines_bytes(Seq::empty()) + message_bytes(None) =~= Seq::<u8>::empty());
    } else if raw[pos] == NEWLINE {
        let tail = raw.subrange(pos + 1, raw.len() as int);
        match text_of(tail) {
            Some(message) => {
                crate::text::lemma_utf8_text_of(tail);
                assert(rest =~= seq![NEWLINE] + tail);
                assert(lines_bytes(Seq::empty()) + message_bytes(Some(message)) =~= seq![NEWLINE]
                    + tail);
            },
            None => {},
        }
    } else {
        let space = first_index_from(raw, SPACE, pos);
        let line_end = first_index_from(raw, NEWLINE, pos);
        if space < line_end {
            match value_end(raw, space + 1) {
                None => {},
                Some(end) => {
                    lemma_first_index_from(raw, SPACE, pos);
                    crate::kvlm::lemma_value_end(raw, space + 1);
                    let kb = raw.subrange(pos, space);
                    let vb = raw.subrange(space + 1, end);
                    match (text_of(kb), text_of(unfold_value(vb))) {
                        (Some(key), Some(value)) => {
                            lemma_scan_bytes(raw, end + 1);
                            match scan(raw, end + 1) {
                                Some((lines, message)) => {
                                    crate::text::lemma_utf8_text_of(kb);
                                    crate::text::lemma_utf8_text_of(unfold_value(vb));
                                    lemma_value_pairs(raw, space + 1, end);
                                    assert forall|t: int|
                                        0 <= t < vb.len() && #[trigger] vb[t] == NEWLINE implies t
                                        + 1 < vb.len() && vb[t + 1] == SPACE by {
                                        assert(raw[t + space + 1] == NEWLINE);
                                    }
                                    lemma_fold_unfold(vb);
                                    let line = line_bytes(key, value);
                                    assert(line =~= raw.subrange(pos, end + 1));
                                    let all = seq![(key, value)] + lines;
                                    assert(all[0] == (key, value));
                                    assert(all.drop_first() =~= lines);
                                    let behind = raw.subrange(end + 1, raw.len() as int);
                                    assert(rest =~= line + behind);
                                    assert(lines_bytes(all) + message_bytes(message) =~= line + (
                                    lines_bytes(lines) + message_bytes(message)));
                                },
                                None => {},
                            }
                        },
                        _ => {},
                    }
                },
            }
        }
    }
}

/// Adding lines keeps the keys distinct and every key with a value.
proof fn lemma_add_lines_wf(
    headers: Seq<(Seq<char>, Seq<Seq<char>>)>,
    lines: Seq<(Seq<char>, Seq<char>)>,
)
    requires
        distinct_keys(headers),
        no_empty_values(headers),
    ensures
        distinct_keys(add_lines(headers, lines)),
        no_empty_values(add_lines(headers, lines)),
    decreases lines.len(),
{
    if lines.len() > 0 {
        crate::kvlm::lemma_append_value(headers, lines[0].0, lines[0].1);
        lemma_add_lines_wf(append_value(headers, lines[0].0, lines[0].1), lines.drop_first());
    }
}

/// The lines of headers end with the last value of the last header, and every header
/// before the last has a line before the last line.
proof fn lemma_lines_of_shape(headers: Seq<(Seq<char>, Seq<Seq<char>>)>, i: int)
    requires
        no_empty_values(headers),
        0 <= i < headers.len(),
    ensures
        lines_of(headers).len() > 0,
        lines_of(headers).last().0 == headers.last().0,
        i < headers.len() - 1 ==> exists|p: int|
            0 <= p < lines_of(headers).len() - 1 && (#[trigger] lines_of(headers)[p]).0
                == headers[i].0,
    decreases headers.len(),
{
    let front = headers.drop_last();
    let last = headers.last();
    let tail = entry_lines(last.0, last.1);
    assert(headers[headers.len() - 1].1.len() > 0);
    assert(tail.len() > 0);
    assert(lines_of(headers).last() == tail.last());
    if i < headers.len() - 1 {
        assert(no_empty_values(front)) by {
            assert forall|k: int| 0 <= k < front.len() implies (#[trigger] front[k]).1.len()
                > 0 by {
                assert(front[k] == headers[k]);
            }
        }
        lemma_lines_of_shape(front, i);
        let a = lines_of(front);
        if i == front.len() - 1 {
            let p = a.len() - 1;
            assert(lines_of(headers)[p] == a[p]);
            assert(a[p].0 == front[i].0);
            assert(front[i] == headers[i]);
        } else {
            let p = choose|p: int| 0 <= p < a.len() - 1 && (#[trigger] a[p]).0 == front[i].0;
            assert(lines_of(headers)[p] == a[p]);
            assert(front[i] == headers[i]);
        }
    }
}

/// The lines of the headers that come of lines, added to nothing, are those lines, where
/// the lines of each key stand together.
proof fn lemma_lines_of_add_lines(lines: Seq<(Seq<char>, Seq<char>)>)
    requires
        contiguous(lines),
    ensures
        lines_of(add_lines(Seq::empty(), lines)) == lines,
    decreases lines.len(),
{
    let none = Seq::<(Seq<char>, Seq<Seq<char>>)>::empty();
    if lines.len() == 0 {
        assert(lines =~= Seq::empty());
    } else {
        let front = lines.drop_last();
        let key = lines.last().0;
        let value = lines.last().1;
        let one = seq![(key, value)];
        assert(contiguous(front)) by {
            assert forall|a: int, b: int, c: int|
                #![trigger front[a], front[b], front[c]]
                0 <= a < b < c < front.len() && front[a].0 == front[c].0 implies front[b].0
                == front[a].0 by {
                assert(front[a] == lines[a] && front[b] == lines[b] && front[c] == lines[c]);
            }
        }
        lemma_lines_of_add_lines(front);
        let grouped = add_lines(none, front);
        lemma_add_lines_wf(none, front);
        assert(lines =~= front + one);
        lemma_add_lines_concat(none, front, one);
        assert(one.drop_first() =~= Seq::empty());
        assert(add_lines(append_value(grouped, key, value), one.drop_first()) == append_value(
            grouped,
            key,
            value,
        ));
        assert(add_lines(grouped, one) == append_value(grouped, key, value));
        let after = append_value(grouped, key, value);
        lemma_index_of_key(grouped, key);
        let i = index_of_key(grouped, key);
        if i < grouped.len() {
            lemma_lines_of_shape(grouped, i);
            if i < grouped.len() - 1 {
                let p = choose|p: int|
                    0 <= p < lines_of(grouped).len() - 1 && (#[trigger] lines_of(grouped)[p]).0
                        == grouped[i].0;
                let q = front.len() - 1;
                assert(lines[p] == front[p] && lines[q] == front[q]);
                assert(front.last().0 == grouped.last().0);
                assert(grouped[i].0 != grouped[grouped.len() - 1].0);
                assert(lines[p].0 == lines[lines.len() - 1].0);
                assert(lines[q].0 == lines[p].0);
            }
            assert(i == grouped.len() - 1);
            let values = grouped[i].1;
            assert(after =~= grouped.drop_last().push((key, values.push(value))));
            assert(after.drop_last() =~= grouped.drop_last());
            assert(entry_lines(key, values.push(value)) =~= entry_lines(key, values) + one);
            assert(grouped.last() == (key, values));
            assert(lines_of(after) =~= lines_of(grouped) + one);
        } else {
            assert(after =~= grouped.push((key, seq![value])));
            assert(after.drop_last() =~= grouped);
            assert(entry_lines(key, seq![value]) =~= one);
        }
    }
}

/// The encoding of what was read is what was read, byte for byte. This holds of every
/// encoding that can be read and in which the lines of each key stand together.
pub proof fn lemma_serialize_parse(raw: Seq<u8>)
    requires
        scan(raw, 0) matches Some((lines, _)) && contiguous(lines),
    ensures
        parse_spec(raw) matches Some(v) && serialize_spec(v) == raw,
{
    let none = Seq::<(Seq<char>, Seq<Seq<char>>)>::empty();
    lemma_parse_is_scan(raw, 0, none);
    lemma_scan_bytes(raw, 0);
    let (lines, message) = scan(raw, 0)->0;
    lemma_lines_of_add_lines(lines);
    let v = parse_spec(raw)->0;
    lemma_headers_bytes_are_lines(v.headers);
    assert(raw.subrange(0, raw.len() as int) =~= raw);
}

} // verus!
