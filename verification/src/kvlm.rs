//! The key-value list with message: the text format of commits and tags.
//!
//! A header line is a key, a space, a value and a line feed. A line feed inside a value is
//! followed by a space in the encoding. An empty line ends the headers, and all that follows
//! it is the message.

pub mod laws;

use vstd::prelude::*;

use crate::bytes::{append, find_byte, first_index_from, lemma_first_index_from, subvec, NEWLINE, SPACE};
use crate::object::error::ObjectError;
use crate::ordered::{
    distinct_keys, header_entries, headers_get, headers_get_index, headers_insert, headers_len,
    headers_new, index_of_key, lemma_index_of_key, lemma_with_key_distinct, with_key,
};
use crate::text::{string_from_utf8, text_of, utf8};

verus! {

/// What a key-value list holds: its headers in order, each key with its values in order,
/// and its message.
pub struct KvlmView {
    pub headers: Seq<(Seq<char>, Seq<Seq<char>>)>,
    pub message: Option<Seq<char>>,
}

/// A key-value list with message. The headers keep the order in which their keys first
/// came.
pub struct Kvlm {
    headers: indexmap::IndexMap<String, Vec<String>, std::hash::RandomState>,
    message: Option<String>,
}

/// A value as it stands in a header line: a space follows each of its line feeds.
pub open spec fn fold_value(v: Seq<u8>) -> Seq<u8>
    decreases v.len(),
{
    if v.len() == 0 {
        Seq::empty()
    } else if v.last() == NEWLINE {
        fold_value(v.drop_last()).push(NEWLINE).push(SPACE)
    } else {
        fold_value(v.drop_last()).push(v.last())
    }
}

/// The value that stands in a header line as `v`: the space after each line feed is
/// taken out, from the left.
pub open spec fn unfold_value(v: Seq<u8>) -> Seq<u8>
    decreases v.len(),
{
    if v.len() == 0 {
        Seq::empty()
    } else if v[0] == NEWLINE && v.len() > 1 && v[1] == SPACE {
        seq![NEWLINE] + unfold_value(v.subrange(2, v.len() as int))
    } else {
        seq![v[0]] + unfold_value(v.drop_first())
    }
}

/// One header line.
pub open spec fn line_bytes(key: Seq<char>, value: Seq<char>) -> Seq<u8> {
    utf8(key).push(SPACE) + fold_value(utf8(value)).push(NEWLINE)
}

/// The header lines of one key, one for each of its values.
pub open spec fn values_bytes(key: Seq<char>, values: Seq<Seq<char>>) -> Seq<u8>
    decreases values.len(),
{
    if values.len() == 0 {
        Seq::empty()
    } else {
        values_bytes(key, values.drop_last()) + line_bytes(key, values.last())
    }
}

/// The header lines of all keys.
pub open spec fn headers_bytes(headers: Seq<(Seq<char>, Seq<Seq<char>>)>) -> Seq<u8>
    decreases headers.len(),
{
    if headers.len() == 0 {
        Seq::empty()
    } else {
        headers_bytes(headers.drop_last()) + values_bytes(headers.last().0, headers.last().1)
    }
}

/// The empty line and the message, where there is a message.
pub open spec fn message_bytes(message: Option<Seq<char>>) -> Seq<u8> {
    match message {
        Some(m) => seq![NEWLINE] + utf8(m),
        None => Seq::empty(),
    }
}

/// The encoding of a key-value list: its header lines, then its message.
pub open spec fn serialize_spec(v: KvlmView) -> Seq<u8> {
    headers_bytes(v.headers) + message_bytes(v.message)
}

/// The index of the line feed that ends the value which holds index `from`: the first
/// line feed at or after `from` that no space follows. `None` where there is none.
pub open spec fn value_end(raw: Seq<u8>, from: int) -> Option<int>
    decreases raw.len() - from,
{
    if from < 0 || from >= raw.len() {
        None
    } else if raw[from] == NEWLINE && !(from + 1 < raw.len() && raw[from + 1] == SPACE) {
        Some(from)
    } else {
        value_end(raw, from + 1)
    }
}

/// `headers` with one more value for `key`: behind the values that the key has, or as a new
/// last header.
pub open spec fn append_value(
    headers: Seq<(Seq<char>, Seq<Seq<char>>)>,
    key: Seq<char>,
    value: Seq<char>,
) -> Seq<(Seq<char>, Seq<Seq<char>>)> {
    let i = index_of_key(headers, key);
    if i < headers.len() {
        with_key(headers, key, headers[i].1.push(value))
    } else {
        with_key(headers, key, seq![value])
    }
}

/// What the bytes of `raw` from `pos` on add to the headers read so far. `None` where a
/// header line has no space or no end, or where a key, a value or the message is not UTF-8.
pub open spec fn parse_from(
    raw: Seq<u8>,
    pos: int,
    headers: Seq<(Seq<char>, Seq<Seq<char>>)>,
) -> Option<KvlmView>
    decreases raw.len() - pos,
{
    if pos < 0 || pos >= raw.len() {
        Some(KvlmView { headers, message: None })
    } else if raw[pos] == NEWLINE {
        match text_of(raw.subrange(pos + 1, raw.len() as int)) {
            Some(message) => Some(KvlmView { headers, message: Some(message) }),
            None => None,
        }
    } else {
        let space = first_index_from(raw, SPACE, pos);
        let line_end = first_index_from(raw, NEWLINE, pos);
        if space >= line_end {
            None
        } else {
            match value_end(raw, space + 1) {
                None => None,
                Some(end) => {
                    proof {
                        lemma_first_index_from(raw, SPACE, pos);
                        lemma_value_end(raw, space + 1);
                    }
                    match (
                        text_of(raw.subrange(pos, space)),
                        text_of(unfold_value(raw.subrange(space + 1, end))),
                    ) {
                        (Some(key), Some(value)) => parse_from(
                            raw,
                            end + 1,
                            append_value(headers, key, value),
                        ),
                        _ => None,
                    }
                },
            }
        }
    }
}

/// What the bytes `raw` hold as a key-value list.
pub open spec fn parse_spec(raw: Seq<u8>) -> Option<KvlmView> {
    parse_from(raw, 0, Seq::empty())
}

/// Whether every key of `headers` has a value.
pub open spec fn no_empty_values(headers: Seq<(Seq<char>, Seq<Seq<char>>)>) -> bool {
    forall|i: int| 0 <= i < headers.len() ==> (#[trigger] headers[i]).1.len() > 0
}

/// The end of a value lies at or after the index from which it was sought, and holds a
/// line feed that no space follows.
pub proof fn lemma_value_end(raw: Seq<u8>, from: int)
    requires
        0 <= from,
    ensures
        match value_end(raw, from) {
            Some(end) => from <= end < raw.len() && raw[end] == NEWLINE && !(end + 1 < raw.len()
                && raw[end + 1] == SPACE),
            None => true,
        },
    decreases raw.len() - from,
{
    if from < raw.len() && !(raw[from] == NEWLINE && !(from + 1 < raw.len() && raw[from + 1]
        == SPACE)) {
        lemma_value_end(raw, from + 1);
    }
}

/// One more value keeps the keys distinct and every key with a value.
pub proof fn lemma_append_value(
    headers: Seq<(Seq<char>, Seq<Seq<char>>)>,
    key: Seq<char>,
    value: Seq<char>,
)
    requires
        distinct_keys(headers),
        no_empty_values(headers),
    ensures
        distinct_keys(append_value(headers, key, value)),
        no_empty_values(append_value(headers, key, value)),
{
    lemma_index_of_key(headers, key);
    let i = index_of_key(headers, key);
    let values = if i < headers.len() {
        headers[i].1.push(value)
    } else {
        seq![value]
    };
    lemma_with_key_distinct(headers, key, values);
    let out = append_value(headers, key, value);
    assert forall|k: int| 0 <= k < out.len() implies (#[trigger] out[k]).1.len() > 0 by {
        if k < headers.len() && k != i {
            assert(out[k] == headers[k]);
        }
    }
}

/// Copies a list of strings.
fn clone_strings(values: &Vec<String>) -> (r: Vec<String>)
    ensures
        r.deep_view() == values.deep_view(),
{
    let mut out: Vec<String> = Vec::new();
    let mut i: usize = 0;
    while i < values.len()
        invariant
            i <= values@.len(),
            out@.len() == i,
            forall|k: int| 0 <= k < i ==> out@[k]@ == values@[k]@,
        decreases values@.len() - i,
    {
        out.push(values[i].clone());
        i = i + 1;
    }
    assert(out.deep_view() =~= values.deep_view());
    out
}

/// Appends `v` to `out` with a space after each of its line feeds.
fn append_folded(out: &mut Vec<u8>, v: &[u8])
    ensures
        final(out)@ == old(out)@ + fold_value(v@),
{
    let mut i: usize = 0;
    assert(v@.subrange(0, 0) =~= Seq::<u8>::empty());
    while i < v.len()
        invariant
            i <= v@.len(),
            out@ == old(out)@ + fold_value(v@.subrange(0, i as int)),
        decreases v@.len() - i,
    {
        let b = v[i];
        let ghost before = v@.subrange(0, i as int);
        let ghost after = v@.subrange(0, i + 1);
        proof {
            assert(after.drop_last() =~= before);
            assert(after.last() == b);
        }
        out.push(b);
        if b == NEWLINE {
            out.push(SPACE);
        }
        i = i + 1;
        assert(out@ =~= old(out)@ + fold_value(after));
    }
    assert(v@.subrange(0, v@.len() as int) =~= v@);
}

/// Copies `v` without the space that follows each of its line feeds.
fn unfold(v: &[u8]) -> (r: Vec<u8>)
    ensures
        r@ == unfold_value(v@),
{
    let mut out: Vec<u8> = Vec::new();
    let mut i: usize = 0;
    assert(v@.subrange(0, v@.len() as int) =~= v@);
    while i < v.len()
        invariant
            i <= v@.len(),
            unfold_value(v@) == out@ + unfold_value(v@.subrange(i as int, v@.len() as int)),
        decreases v@.len() - i,
    {
        let ghost rest = v@.subrange(i as int, v@.len() as int);
        let ghost prev = out@;
        let b = v[i];
        assert(rest[0] == b);
        if b == NEWLINE && i + 1 < v.len() && v[i + 1] == SPACE {
            assert(rest[1] == v@[i + 1]);
            out.push(b);
            i = i + 2;
            assert(rest.subrange(2, rest.len() as int) =~= v@.subrange(i as int, v@.len() as int));
            assert(out@ + unfold_value(v@.subrange(i as int, v@.len() as int)) =~= prev + (
            seq![NEWLINE] + unfold_value(rest.subrange(2, rest.len() as int))));
        } else {
            if b == NEWLINE && i + 1 < v.len() {
                assert(rest[1] == v@[i + 1]);
            }
            out.push(b);
            i = i + 1;
            assert(rest.drop_first() =~= v@.subrange(i as int, v@.len() as int));
            assert(out@ + unfold_value(v@.subrange(i as int, v@.len() as int)) =~= prev + (seq![b]
                + unfold_value(rest.drop_first())));
        }
    }
    assert(out@ + Seq::<u8>::empty() =~= out@);
    out
}

/// Finds the line feed that ends the value which holds index `from`.
fn find_value_end(raw: &[u8], from: usize) -> (r: Option<usize>)
    requires
        from <= raw@.len(),
    ensures
        match r {
            Some(end) => value_end(raw@, from as int) == Some(end as int) && from <= end
                < raw@.len(),
            None => value_end(raw@, from as int) is None,
        },
{
    let mut i: usize = from;
    while i < raw.len()
        invariant
            from <= i <= raw@.len(),
            value_end(raw@, from as int) == value_end(raw@, i as int),
        decreases raw@.len() - i,
    {
        if raw[i] == NEWLINE && !(i + 1 < raw.len() && raw[i + 1] == SPACE) {
            return Some(i);
        }
        i = i + 1;
    }
    None
}

impl View for Kvlm {
    type V = KvlmView;

    closed spec fn view(&self) -> KvlmView {
        KvlmView {
            headers: header_entries(self.headers),
            message: match self.message {
                Some(m) => Some(m@),
                None => None,
            },
        }
    }
}

impl Kvlm {
    /// Whether no key stands twice and every key has a value.
    pub open spec fn wf(&self) -> bool {
        distinct_keys(self@.headers) && no_empty_values(self@.headers)
    }

    /// Reads a key-value list from its encoding.
    pub fn new(raw_data: &[u8]) -> (r: Result<Kvlm, ObjectError>)
        ensures
            match r {
                Ok(kvlm) => kvlm.wf() && parse_spec(raw_data@) == Some(kvlm@),
                Err(e) => parse_spec(raw_data@) is None && e == ObjectError::Malformed,
            },
    {
        Self::parse(raw_data)
    }

    /// A key-value list without headers and without a message.
    pub fn init() -> (r: Kvlm)
        ensures
            r.wf(),
            r@.headers.len() == 0,
            r@.message is None,
    {
        Kvlm { headers: headers_new(), message: None }
    }

    /// Encodes the key-value list: a line for each value of each key, then an empty line
    /// and the message where there is one.
    pub fn serialize(&self) -> (out: Vec<u8>)
        ensures
            out@ == serialize_spec(self@),
    {
        let mut out: Vec<u8> = Vec::new();
        let n = headers_len(&self.headers);
        let ghost entries = header_entries(self.headers);
        let mut i: usize = 0;
        assert(entries.subrange(0, 0) =~= Seq::empty());
        while i < n
            invariant
                i <= n,
                n == entries.len(),
                entries == header_entries(self.headers),
                out@ == headers_bytes(entries.subrange(0, i as int)),
            decreases n - i,
        {
            let ghost done = entries.subrange(0, i as int);
            let ghost next = entries.subrange(0, i + 1);
            proof {
                assert(next.drop_last() =~= done);
                assert(next.last() == entries[i as int]);
            }
            match headers_get_index(&self.headers, i) {
                Some((key, values)) => {
                    let ghost all = values.deep_view();
                    let mut j: usize = 0;
                    assert(all.subrange(0, 0) =~= Seq::empty());
                    while j < values.len()
                        invariant
                            j <= values@.len(),
                            all == values.deep_view(),
                            all.len() == values@.len(),
                            out@ == headers_bytes(done) + values_bytes(
                                key@,
                                all.subrange(0, j as int),
                            ),
                        decreases values@.len() - j,
                    {
                        let ghost before = all.subrange(0, j as int);
                        let ghost after = all.subrange(0, j + 1);
                        let ghost start = out@;
                        proof {
                            assert(after.drop_last() =~= before);
                            assert(after.last() == values@[j as int]@);
                        }
                        append(&mut out, key.as_str().as_bytes());
                        out.push(SPACE);
                        append_folded(&mut out, values[j].as_str().as_bytes());
                        out.push(NEWLINE);
                        j = j + 1;
                        assert(out@ =~= start + line_bytes(key@, values@[j - 1]@));
                        assert(out@ =~= headers_bytes(done) + values_bytes(key@, after));
                    }
                    assert(all.subrange(0, all.len() as int) =~= all);
                },
                None => {},
            }
            i = i + 1;
        }
        assert(entries.subrange(0, entries.len() as int) =~= entries);
        match &self.message {
            Some(m) => {
                out.push(NEWLINE);
                append(&mut out, m.as_str().as_bytes());
                assert(out@ =~= headers_bytes(entries) + (seq![NEWLINE] + utf8(m@)));
            },
            None => {
                assert(out@ =~= headers_bytes(entries) + Seq::empty());
            },
        }
        out
    }

    /// Whether the key-value list has a message.
    pub fn has_message(&self) -> (r: bool)
        ensures
            r == self@.message is Some,
    {
        self.message.is_some()
    }

    /// The message.
    pub fn get_message(&self) -> (r: &str)
        requires
            self@.message is Some,
        ensures
            Some(r@) == self@.message,
    {
        match &self.message {
            Some(m) => m.as_str(),
            None => "",
        }
    }

    /// The values of `key`, where the list has the key.
    pub fn get_key(&self, key: &str) -> (r: Option<&Vec<String>>)
        ensures
            match r {
                Some(values) => {
                    let i = index_of_key(self@.headers, key@);
                    i < self@.headers.len() && self@.headers[i].1 == values.deep_view()
                },
                None => index_of_key(self@.headers, key@) == self@.headers.len(),
            },
    {
        headers_get(&self.headers, key)
    }

    /// Puts the single value `value` under `key`, in the place of the values that the key
    /// had, or as a new last header.
    pub fn insert(&mut self, key: &str, value: &str)
        requires
            old(self).wf(),
        ensures
            final(self).wf(),
            final(self)@.headers == with_key(old(self)@.headers, key@, seq![value@]),
            final(self)@.message == old(self)@.message,
    {
        let mut values: Vec<String> = Vec::new();
        values.push(value.to_owned());
        assert(values.deep_view() =~= seq![value@]);
        proof {
            lemma_with_key_distinct(header_entries(self.headers), key@, seq![value@]);
            lemma_index_of_key(header_entries(self.headers), key@);
        }
        let ghost before = header_entries(self.headers);
        headers_insert(&mut self.headers, key.to_owned(), values);
        proof {
            let out = header_entries(self.headers);
            let i = index_of_key(before, key@);
            assert forall|k: int| 0 <= k < out.len() implies (#[trigger] out[k]).1.len() > 0 by {
                if k < before.len() && k != i {
                    assert(out[k] == before[k]);
                }
            }
        }
    }

    /// Reads the header lines one after the other, then the message.
    fn parse(raw: &[u8]) -> (r: Result<Kvlm, ObjectError>)
        ensures
            match r {
                Ok(kvlm) => kvlm.wf() && parse_spec(raw@) == Some(kvlm@),
                Err(e) => parse_spec(raw@) is None && e == ObjectError::Malformed,
            },
    {
        let mut headers = headers_new();
        let mut pos: usize = 0;
        assert(header_entries(headers) =~= Seq::empty());
        while pos < raw.len()
            invariant
                pos <= raw@.len(),
                parse_spec(raw@) == parse_from(raw@, pos as int, header_entries(headers)),
                distinct_keys(header_entries(headers)),
                no_empty_values(header_entries(headers)),
            decreases raw@.len() - pos,
        {
            if raw[pos] == NEWLINE {
                let rest = subvec(raw, pos + 1, raw.len());
                return match string_from_utf8(rest) {
                    Some(message) => Ok(Kvlm { headers, message: Some(message) }),
                    None => Err(ObjectError::Malformed),
                };
            }
            let space = match find_byte(raw, SPACE, pos) {
                Some(i) => i,
                None => {
                    proof {
                        lemma_first_index_from(raw@, NEWLINE, pos as int);
                    }
                    return Err(ObjectError::Malformed);
                },
            };
            match find_byte(raw, NEWLINE, pos) {
                Some(line_end) => {
                    if line_end < space {
                        return Err(ObjectError::Malformed);
                    }
                },
                None => {},
            }
            let end = match find_value_end(raw, space + 1) {
                Some(i) => i,
                None => {
                    return Err(ObjectError::Malformed);
                },
            };
            proof {
                lemma_first_index_from(raw@, NEWLINE, pos as int);
                lemma_value_end(raw@, space + 1);
            }
            let key = match string_from_utf8(subvec(raw, pos, space)) {
                Some(s) => s,
                None => {
                    return Err(ObjectError::Malformed);
                },
            };
            let folded = subvec(raw, space + 1, end);
            let value = match string_from_utf8(unfold(folded.as_slice())) {
                Some(s) => s,
                None => {
                    return Err(ObjectError::Malformed);
                },
            };
            let ghost before = header_entries(headers);
            proof {
                lemma_append_value(before, key@, value@);
                lemma_index_of_key(before, key@);
            }
            let mut values = match headers_get(&headers, key.as_str()) {
                Some(found) => clone_strings(found),
                None => Vec::new(),
            };
            let ghost had = values.deep_view();
            values.push(value);
            proof {
                assert(values.deep_view() =~= had.push(value@));
                if index_of_key(before, key@) >= before.len() {
                    assert(had =~= Seq::empty());
                    assert(had.push(value@) =~= seq![value@]);
                }
            }
            headers_insert(&mut headers, key, values);
            pos = end + 1;
        }
        Ok(Kvlm { headers, message: None })
    }
}

} // verus!
