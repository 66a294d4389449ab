use crate::bytes::{
    append_bytes, copy_range, find_byte, index_of, lemma_first_index_from, lemma_first_index_skip,
    names_view,
};
use crate::error::GitError;
use crate::ordered::{
    has_key, keys_distinct, ordermap_entries, ordermap_get_index, ordermap_index_of, ordermap_clone,
    ordermap_insert, ordermap_len, ordermap_new,
};
use ordermap::OrderMap;
use std::hash::RandomState;
use vstd::prelude::*;

verus! {

/// The byte that ends a line.
pub const NEWLINE: u8 = 10;

/// The byte that parts a key from its value, and that opens a continuation line.
pub const SPACE: u8 = 32;

/// The headers of a commit or a tag, each key with the list of its values in
/// the order in which they were met, and the free-form message that follows
/// them. The message has a slot of its own, so no header can take its place.
#[derive(Debug)]
pub struct Kvlm {
    headers: OrderMap<Vec<u8>, Vec<Vec<u8>>, RandomState>,
    message: Option<Vec<u8>>,
}

/// What a `Kvlm` holds, as plain values.
pub struct KvlmView {
    /// Each key once, in the order of its first line, with its values.
    pub headers: Seq<(Seq<u8>, Seq<Seq<u8>>)>,
    /// What follows the blank line; `None` where there is no blank line.
    pub message: Option<Seq<u8>>,
}

/// Whether every key has at least one value.
pub open spec fn values_present(headers: Seq<(Seq<u8>, Seq<Seq<u8>>)>) -> bool {
    forall|i: int| 0 <= i < headers.len() ==> (#[trigger] headers[i]).1.len() > 0
}

/// `headers` with one more value under `key`: behind the values that the key
/// has, or, for a new key, as a new last pair.
pub open spec fn add_value(
    headers: Seq<(Seq<u8>, Seq<Seq<u8>>)>,
    key: Seq<u8>,
    value: Seq<u8>,
) -> Seq<(Seq<u8>, Seq<Seq<u8>>)> {
    if has_key(headers, key) {
        Seq::new(
            headers.len(),
            |i: int|
                if headers[i].0 == key {
                    (key, headers[i].1.push(value))
                } else {
                    headers[i]
                },
        )
    } else {
        headers.push((key, seq![value]))
    }
}

/// Adding a value keeps the keys distinct and every list of values filled.
pub proof fn lemma_add_value_shape(
    headers: Seq<(Seq<u8>, Seq<Seq<u8>>)>,
    key: Seq<u8>,
    value: Seq<u8>,
)
    requires
        keys_distinct(headers),
        values_present(headers),
    ensures
        keys_distinct(add_value(headers, key, value)),
        values_present(add_value(headers, key, value)),
        has_key(add_value(headers, key, value), key),
{
    let next = add_value(headers, key, value);
    if has_key(headers, key) {
        let at = choose|i: int| 0 <= i < headers.len() && (#[trigger] headers[i]).0 == key;
        assert(next[at].0 == key);
        assert forall|i: int, j: int| 0 <= i < j < next.len() implies (#[trigger] next[i]).0 != (
        #[trigger] next[j]).0 by {
            assert(next[i].0 == headers[i].0);
            assert(next[j].0 == headers[j].0);
        }
        assert forall|i: int| 0 <= i < next.len() implies (#[trigger] next[i]).1.len() > 0 by {
            assert(headers[i].1.len() > 0);
        }
    } else {
        assert(next[headers.len() as int].0 == key);
        assert forall|i: int, j: int| 0 <= i < j < next.len() implies (#[trigger] next[i]).0 != (
        #[trigger] next[j]).0 by {
            if j < headers.len() {
                assert(headers[i].0 != headers[j].0);
            } else {
                assert(headers[i].0 != key);
            }
        }
        assert forall|i: int| 0 <= i < next.len() implies (#[trigger] next[i]).1.len() > 0 by {
            if i < headers.len() {
                assert(headers[i].1.len() > 0);
            }
        }
    }
}

/// The values under `key`: those of the first pair with that key, or `None`
/// where no pair has it.
pub open spec fn values_under(headers: Seq<(Seq<u8>, Seq<Seq<u8>>)>, key: Seq<u8>) -> Option<
    Seq<Seq<u8>>,
>
    decreases headers.len(),
{
    if headers.len() == 0 {
        None
    } else if headers[0].0 == key {
        Some(headers[0].1)
    } else {
        values_under(headers.skip(1), key)
    }
}

/// The values under a key are those of the first pair with that key.
pub proof fn lemma_values_under(headers: Seq<(Seq<u8>, Seq<Seq<u8>>)>, key: Seq<u8>, at: int)
    requires
        0 <= at < headers.len(),
        headers[at].0 == key,
        forall|i: int| 0 <= i < at ==> (#[trigger] headers[i]).0 != key,
    ensures
        values_under(headers, key) == Some(headers[at].1),
    decreases at,
{
    if at > 0 {
        let rest = headers.skip(1);
        assert(headers[0].0 != key);
        assert(rest[at - 1] == headers[at]);
        assert forall|i: int| 0 <= i < at - 1 implies (#[trigger] rest[i]).0 != key by {
            assert(rest[i] == headers[i + 1]);
        }
        lemma_values_under(rest, key, at - 1);
    }
}

/// Headers without the key have no values under it.
pub proof fn lemma_values_under_absent(headers: Seq<(Seq<u8>, Seq<Seq<u8>>)>, key: Seq<u8>)
    requires
        !has_key(headers, key),
    ensures
        values_under(headers, key) is None,
    decreases headers.len(),
{
    if headers.len() > 0 {
        let rest = headers.skip(1);
        assert(headers[0].0 != key);
        assert(!has_key(rest, key)) by {
            if has_key(rest, key) {
                let i = choose|i: int| 0 <= i < rest.len() && (#[trigger] rest[i]).0 == key;
                assert(headers[i + 1].0 == key);
            }
        }
        lemma_values_under_absent(rest, key);
    }
}

impl View for Kvlm {
    type V = KvlmView;

    closed spec fn view(&self) -> KvlmView {
        KvlmView {
            headers: ordermap_entries(self.headers),
            message: match self.message {
                Some(m) => Some(m@),
                None => None,
            },
        }
    }
}

impl Clone for Kvlm {
    fn clone(&self) -> (copy: Self)
        ensures
            copy@ == self@,
    {
        Kvlm {
            headers: ordermap_clone(&self.headers),
            message: match &self.message {
                Some(m) => Some(m.clone()),
                None => None,
            },
        }
    }
}

impl Kvlm {
    /// What holds of every value that this module hands out: no key occurs
    /// twice, and every key has a value.
    pub open spec fn wf(&self) -> bool {
        keys_distinct(self@.headers) && values_present(self@.headers)
    }

    /// No header and no message.
    pub fn new() -> (kvlm: Kvlm)
        ensures
            kvlm.wf(),
            kvlm@.headers == Seq::<(Seq<u8>, Seq<Seq<u8>>)>::empty(),
            kvlm@.message is None,
    {
        Kvlm { headers: ordermap_new(), message: None }
    }

    /// Adds a value under `key`.
    pub fn push(&mut self, key: Vec<u8>, value: Vec<u8>)
        requires
            old(self).wf(),
        ensures
            final(self).wf(),
            final(self)@.headers == add_value(old(self)@.headers, key@, value@),
            final(self)@.message == old(self)@.message,
    {
        let ghost before = self@.headers;
        let ghost mut found: int = -1;
        let mut values: Vec<Vec<u8>> = Vec::new();
        match ordermap_index_of(&self.headers, key.as_slice()) {
            Some(i) => {
                match ordermap_get_index(&self.headers, i) {
                    Some((_, present)) => {
                        let mut k: usize = 0;
                        while k < present.len()
                            invariant
                                k <= present@.len(),
                                values@.len() == k,
                                forall|j: int| 0 <= j < k ==> values@[j]@ == present@[j]@,
                            decreases present@.len() - k,
                        {
                            values.push(present[k].clone());
                            k = k + 1;
                        }
                        assert(names_view(values@) =~= names_view(present@));
                    },
                    None => {},
                }
                proof {
                    found = i as int;
                }
                assert(before[found].0 == key@);
            },
            None => {
                assert(names_view(values@) =~= Seq::<Seq<u8>>::empty());
            },
        }
        let ghost earlier = names_view(values@);
        values.push(value);
        assert(names_view(values@) =~= earlier.push(value@));
        ordermap_insert(&mut self.headers, key, values);
        proof {
            let after = self@.headers;
            let wanted = add_value(before, key@, value@);
            if found >= 0 {
                assert(has_key(before, key@));
                assert forall|i: int| 0 <= i < before.len() implies after[i] == wanted[i] by {
                    if before[i].0 == key@ {
                        assert(i == found) by {
                            if i < found {
                                assert(before[i].0 != before[found].0);
                            } else if found < i {
                                assert(before[found].0 != before[i].0);
                            }
                        }
                    }
                }
                assert(after =~= wanted);
            } else {
                assert(earlier.push(value@) =~= seq![value@]);
                assert(after =~= wanted);
            }
            lemma_add_value_shape(before, key@, value@);
        }
    }

    /// Sets or clears the message.
    pub fn set_message(&mut self, message: Option<Vec<u8>>)
        ensures
            final(self)@.headers == old(self)@.headers,
            final(self)@.message == match message {
                Some(m) => Some(m@),
                None => None::<Seq<u8>>,
            },
    {
        self.message = message;
    }

    /// The message, where there is one.
    pub fn message(&self) -> (message: Option<&Vec<u8>>)
        ensures
            match message {
                Some(m) => self@.message == Some(m@),
                None => self@.message is None,
            },
    {
        match &self.message {
            Some(m) => Some(m),
            None => None,
        }
    }

    /// The number of keys.
    pub fn len(&self) -> (n: usize)
        ensures
            n == self@.headers.len(),
    {
        ordermap_len(&self.headers)
    }

    /// The key at `index` with its values, in the order of the first lines.
    pub fn entry(&self, index: usize) -> (pair: Option<(&Vec<u8>, &Vec<Vec<u8>>)>)
        ensures
            match pair {
                Some((key, values)) => index < self@.headers.len() && self@.headers[index as int]
                    == (key@, names_view(values@)),
                None => index >= self@.headers.len(),
            },
    {
        ordermap_get_index(&self.headers, index)
    }

    /// The values under `key`, in the order of their lines.
    pub fn get(&self, key: &[u8]) -> (values: Option<&Vec<Vec<u8>>>)
        ensures
            match values {
                Some(v) => exists|i: int|
                    0 <= i < self@.headers.len() && #[trigger] self@.headers[i] == (
                        key@,
                        names_view(v@),
                    ),
                None => !has_key(self@.headers, key@),
            },
            self.wf() ==> values_under(self@.headers, key@) == match values {
                Some(v) => Some(names_view(v@)),
                None => None::<Seq<Seq<u8>>>,
            },
    {
        match ordermap_index_of(&self.headers, key) {
            Some(i) => match ordermap_get_index(&self.headers, i) {
                Some((_, values)) => {
                    assert(self@.headers[i as int] == (key@, names_view(values@)));
                    proof {
                        if self.wf() {
                            assert forall|k: int| 0 <= k < i implies (
                            #[trigger] self@.headers[k]).0 != key@ by {
                                assert(self@.headers[k].0 != self@.headers[i as int].0);
                            }
                            lemma_values_under(self@.headers, key@, i as int);
                        }
                    }
                    Some(values)
                },
                None => None,
            },
            None => {
                proof {
                    lemma_values_under_absent(self@.headers, key@);
                }
                None
            },
        }
    }

    /// The first value under `key`.
    pub fn first(&self, key: &[u8]) -> (value: Option<&Vec<u8>>)
        requires
            self.wf(),
        ensures
            match value {
                Some(v) => values_under(self@.headers, key@) matches Some(values) && values.len()
                    > 0 && values[0] == v@,
                None => values_under(self@.headers, key@) matches Some(values) ==> values.len()
                    == 0,
            },
    {
        match self.get(key) {
            Some(values) => {
                if values.len() > 0 {
                    assert(names_view(values@)[0] == values@[0]@);
                    Some(&values[0])
                } else {
                    None
                }
            },
            None => None,
        }
    }
}

/// A value as it is written: a space behind each of its newlines.
pub open spec fn folded(value: Seq<u8>) -> Seq<u8>
    decreases value.len(),
{
    if value.len() == 0 {
        Seq::empty()
    } else if value[0] == NEWLINE {
        seq![NEWLINE, SPACE] + folded(value.skip(1))
    } else {
        seq![value[0]] + folded(value.skip(1))
    }
}

/// A written value as it is read: without the space behind each newline.
pub open spec fn unfolded(text: Seq<u8>) -> Seq<u8>
    decreases text.len(),
{
    if text.len() == 0 {
        Seq::empty()
    } else if text[0] == NEWLINE && text.len() > 1 && text[1] == SPACE {
        seq![NEWLINE] + unfolded(text.skip(2))
    } else {
        seq![text[0]] + unfolded(text.skip(1))
    }
}

/// The length of the written value at the head of `s`: it runs up to the first
/// newline that no space follows, or to the end where there is none.
pub open spec fn value_len(s: Seq<u8>) -> int
    decreases s.len(),
{
    if s.len() == 0 {
        0
    } else if s[0] == NEWLINE && !(s.len() > 1 && s[1] == SPACE) {
        0
    } else {
        1 + value_len(s.skip(1))
    }
}

/// Whether `s` begins with a header: a key that is not empty, a space before
/// any newline, and a value that a newline ends.
pub open spec fn header_fits(s: Seq<u8>) -> bool {
    let space = index_of(s, SPACE);
    &&& 0 < space < index_of(s, NEWLINE)
    &&& value_len(s.skip(space + 1)) < s.skip(space + 1).len()
}

/// The key of the header at the head of `s`.
pub open spec fn header_key(s: Seq<u8>) -> Seq<u8> {
    s.take(index_of(s, SPACE))
}

/// The value of the header at the head of `s`.
pub open spec fn header_value(s: Seq<u8>) -> Seq<u8> {
    let rest = s.skip(index_of(s, SPACE) + 1);
    unfolded(rest.take(value_len(rest)))
}

/// The length of the header at the head of `s`, with the newline that ends it.
pub open spec fn header_len(s: Seq<u8>) -> int {
    let space = index_of(s, SPACE);
    space + 1 + value_len(s.skip(space + 1)) + 1
}

/// A written value is no longer than what holds it; where it ends before the
/// end, it ends at a newline that no space follows; and every newline inside
/// it is followed by a space.
pub proof fn lemma_value_len(s: Seq<u8>)
    ensures
        0 <= value_len(s) <= s.len(),
        value_len(s) < s.len() ==> s[value_len(s)] == NEWLINE && !(value_len(s) + 1 < s.len()
            && s[value_len(s) + 1] == SPACE),
        forall|j: int|
            0 <= j < value_len(s) && #[trigger] s[j] == NEWLINE ==> j + 1 < value_len(s) && s[j
                + 1] == SPACE,
    decreases s.len(),
{
    if s.len() == 0 {
    } else if s[0] == NEWLINE && !(s.len() > 1 && s[1] == SPACE) {
    } else {
        let rest = s.skip(1);
        lemma_value_len(rest);
        if value_len(rest) < rest.len() {
            assert(rest[value_len(rest)] == s[value_len(s)]);
            if value_len(s) + 1 < s.len() {
                assert(rest[value_len(rest) + 1] == s[value_len(s) + 1]);
            }
        }
        assert forall|j: int| 0 <= j < value_len(s) && #[trigger] s[j] == NEWLINE implies j + 1
            < value_len(s) && s[j + 1] == SPACE by {
            if j == 0 {
                assert(s.len() > 1 && s[1] == SPACE);
                assert(rest[0] == s[1]);
                if value_len(rest) == 0 {
                    assert(rest[0] == NEWLINE);
                }
            } else {
                assert(rest[j - 1] == s[j]);
                assert(rest[j] == s[j + 1]);
            }
        }
    }
}

/// A header that fits has a length inside `s`.
pub proof fn lemma_header_len(s: Seq<u8>)
    requires
        header_fits(s),
    ensures
        0 < index_of(s, SPACE) < s.len(),
        0 < header_len(s) <= s.len(),
{
    lemma_first_index_from(s, SPACE, 0);
    lemma_first_index_from(s, NEWLINE, 0);
    lemma_value_len(s.skip(index_of(s, SPACE) + 1));
}

/// The headers of a document, line by line, and its message. A document is a
/// run of headers; it ends with the input, or with a blank line, behind which
/// everything is the message. `None` where a line is neither blank nor a header.
pub open spec fn parsed(s: Seq<u8>) -> Option<(Seq<(Seq<u8>, Seq<u8>)>, Option<Seq<u8>>)>
    decreases s.len(),
{
    if s.len() == 0 {
        Some((Seq::empty(), None))
    } else if s[0] == NEWLINE {
        Some((Seq::empty(), Some(s.skip(1))))
    } else if !header_fits(s) {
        None
    } else {
        proof {
            lemma_header_len(s);
        }
        match parsed(s.skip(header_len(s))) {
            None => None,
            Some((rest, message)) => Some(
                (seq![(header_key(s), header_value(s))] + rest, message),
            ),
        }
    }
}

/// The lines of a document gathered by key: each key once, where its first line
/// stood, with the values of all its lines in their order.
pub open spec fn grouped(lines: Seq<(Seq<u8>, Seq<u8>)>) -> Seq<(Seq<u8>, Seq<Seq<u8>>)>
    decreases lines.len(),
{
    if lines.len() == 0 {
        Seq::empty()
    } else {
        add_value(grouped(lines.drop_last()), lines.last().0, lines.last().1)
    }
}

/// The lines of one key: for each value the key, a space, the folded value, a
/// newline.
pub open spec fn key_lines(key: Seq<u8>, values: Seq<Seq<u8>>) -> Seq<u8>
    decreases values.len(),
{
    if values.len() == 0 {
        Seq::empty()
    } else {
        key_lines(key, values.drop_last()) + header_line(key, values.last())
    }
}

/// One header line.
pub open spec fn header_line(key: Seq<u8>, value: Seq<u8>) -> Seq<u8> {
    key + seq![SPACE] + folded(value) + seq![NEWLINE]
}

/// The lines of all keys, in the order of the keys.
pub open spec fn headers_bytes(headers: Seq<(Seq<u8>, Seq<Seq<u8>>)>) -> Seq<u8>
    decreases headers.len(),
{
    if headers.len() == 0 {
        Seq::empty()
    } else {
        headers_bytes(headers.drop_last()) + key_lines(headers.last().0, headers.last().1)
    }
}

/// A document as it is written: the header lines, then, where there is a
/// message, a blank line and the message as it is.
pub open spec fn serialized(kvlm: KvlmView) -> Seq<u8> {
    headers_bytes(kvlm.headers) + match kvlm.message {
        Some(m) => seq![NEWLINE] + m,
        None => Seq::empty(),
    }
}

/// Where the written value that starts at `from` ends.
fn find_value_end(raw: &[u8], from: usize) -> (end: usize)
    requires
        from <= raw@.len(),
    ensures
        end == from + value_len(raw@.skip(from as int)),
        from <= end <= raw@.len(),
{
    let mut i: usize = from;
    proof {
        lemma_value_len(raw@.skip(from as int));
    }
    loop
        invariant
            from <= i <= raw@.len(),
            from + value_len(raw@.skip(from as int)) == i + value_len(raw@.skip(i as int)),
        decreases raw@.len() - i,
    {
        let ghost s = raw@.skip(i as int);
        if i >= raw.len() {
            return i;
        }
        assert(s[0] == raw@[i as int]);
        if i + 1 < raw.len() {
            assert(s[1] == raw@[i + 1]);
        }
        if raw[i] == NEWLINE && !(i + 1 < raw.len() && raw[i + 1] == SPACE) {
            return i;
        }
        assert(s.skip(1) =~= raw@.skip(i + 1));
        i = i + 1;
    }
}

/// Reads the written value in `raw` from `from` up to `to`.
fn unfold_range(raw: &[u8], from: usize, to: usize) -> (value: Vec<u8>)
    requires
        from <= to <= raw@.len(),
    ensures
        value@ == unfolded(raw@.subrange(from as int, to as int)),
{
    let mut value: Vec<u8> = Vec::new();
    let mut i: usize = from;
    let ghost whole = raw@.subrange(from as int, to as int);
    assert(value@ + unfolded(raw@.subrange(i as int, to as int)) =~= unfolded(whole));
    while i < to
        invariant
            from <= i <= to <= raw@.len(),
            whole == raw@.subrange(from as int, to as int),
            value@ + unfolded(raw@.subrange(i as int, to as int)) == unfolded(whole),
        decreases to - i,
    {
        let ghost s = raw@.subrange(i as int, to as int);
        let ghost before = value@;
        assert(s[0] == raw@[i as int]);
        if raw[i] == NEWLINE && i + 1 < to && raw[i + 1] == SPACE {
            assert(s[1] == raw@[i + 1]);
            value.push(NEWLINE);
            assert(s.skip(2) =~= raw@.subrange(i + 2, to as int));
            i = i + 2;
            assert(value@ + unfolded(s.skip(2)) =~= before + (seq![NEWLINE] + unfolded(
                s.skip(2),
            )));
        } else {
            if i + 1 < to {
                assert(s[1] == raw@[i + 1]);
            }
            value.push(raw[i]);
            assert(s.skip(1) =~= raw@.subrange(i + 1, to as int));
            i = i + 1;
            assert(value@ + unfolded(s.skip(1)) =~= before + (seq![s[0]] + unfolded(s.skip(1))));
        }
    }
    assert(value@ + Seq::<u8>::empty() =~= value@);
    value
}

/// What was read so far, then the rest.
pub open spec fn joined(
    lines: Seq<(Seq<u8>, Seq<u8>)>,
    rest: Option<(Seq<(Seq<u8>, Seq<u8>)>, Option<Seq<u8>>)>,
) -> Option<(Seq<(Seq<u8>, Seq<u8>)>, Option<Seq<u8>>)> {
    match rest {
        None => None,
        Some((more, message)) => Some((lines + more, message)),
    }
}

/// Reads the headers and the message of a commit or a tag. Fails with
/// `CorruptObject` where a line is neither blank nor a header.
pub fn kvlm_parse(raw: &[u8]) -> (out: Result<Kvlm, GitError>)
    ensures
        match out {
            Ok(kvlm) => {
                &&& kvlm.wf()
                &&& parsed(raw@) matches Some((lines, message))
                &&& kvlm@.headers == grouped(lines)
                &&& kvlm@.message == message
            },
            Err(e) => parsed(raw@) is None && e == GitError::CorruptObject,
        },
{
    let mut kvlm = Kvlm::new();
    let mut at: usize = 0;
    let ghost mut lines: Seq<(Seq<u8>, Seq<u8>)> = Seq::empty();
    proof {
        assert(raw@.skip(0) =~= raw@);
        match parsed(raw@) {
            None => {},
            Some((more, message)) => {
                assert(lines + more =~= more);
            },
        }
    }
    loop
        invariant
            at <= raw@.len(),
            kvlm.wf(),
            kvlm@.headers == grouped(lines),
            kvlm@.message is None,
            parsed(raw@) == joined(lines, parsed(raw@.skip(at as int))),
        decreases raw@.len() - at,
    {
        let ghost s = raw@.skip(at as int);
        if at >= raw.len() {
            assert(lines + Seq::<(Seq<u8>, Seq<u8>)>::empty() =~= lines);
            return Ok(kvlm);
        }
        assert(s[0] == raw@[at as int]);
        if raw[at] == NEWLINE {
            let message = copy_range(raw, at + 1, raw.len());
            assert(message@ =~= s.skip(1));
            kvlm.set_message(Some(message));
            assert(lines + Seq::<(Seq<u8>, Seq<u8>)>::empty() =~= lines);
            return Ok(kvlm);
        }
        let space = find_byte(raw, SPACE, at);
        let newline = find_byte(raw, NEWLINE, at);
        proof {
            lemma_first_index_skip(raw@, SPACE, at as int);
            lemma_first_index_skip(raw@, NEWLINE, at as int);
        }
        if !(at < space && space < newline) {
            return Err(GitError::CorruptObject);
        }
        assert(s.skip(space - at + 1) =~= raw@.skip(space + 1));
        let end = find_value_end(raw, space + 1);
        if end >= raw.len() {
            return Err(GitError::CorruptObject);
        }
        let key = copy_range(raw, at, space);
        let value = unfold_range(raw, space + 1, end);
        proof {
            assert(key@ =~= header_key(s));
            assert(raw@.subrange(space + 1, end as int) =~= s.skip(space - at + 1).take(
                end - space - 1,
            ));
            assert(value@ == header_value(s));
            assert(header_len(s) == end + 1 - at);
            assert(s.skip(header_len(s)) =~= raw@.skip(end + 1));
            let line = (key@, value@);
            assert((lines.push(line)).drop_last() =~= lines);
            match parsed(raw@.skip(end + 1)) {
                None => {},
                Some((more, message)) => {
                    assert(lines + (seq![line] + more) =~= lines.push(line) + more);
                },
            }
            lines = lines.push(line);
        }
        kvlm.push(key, value);
        at = end + 1;
    }
}

/// Appends a value as it is written.
fn append_folded(out: &mut Vec<u8>, value: &[u8])
    ensures
        final(out)@ == old(out)@ + folded(value@),
{
    let mut i: usize = 0;
    assert(value@.skip(0) =~= value@);
    while i < value.len()
        invariant
            i <= value@.len(),
            out@ + folded(value@.skip(i as int)) == old(out)@ + folded(value@),
        decreases value@.len() - i,
    {
        let ghost s = value@.skip(i as int);
        let ghost before = out@;
        assert(s[0] == value@[i as int]);
        assert(s.skip(1) =~= value@.skip(i + 1));
        if value[i] == NEWLINE {
            out.push(NEWLINE);
            out.push(SPACE);
            assert(out@ + folded(s.skip(1)) =~= before + (seq![NEWLINE, SPACE] + folded(
                s.skip(1),
            )));
        } else {
            out.push(value[i]);
            assert(out@ + folded(s.skip(1)) =~= before + (seq![s[0]] + folded(s.skip(1))));
        }
        i = i + 1;
    }
    assert(out@ + Seq::<u8>::empty() =~= out@);
}

/// Appends the lines of one key.
fn append_key_lines(out: &mut Vec<u8>, key: &[u8], values: &Vec<Vec<u8>>)
    ensures
        final(out)@ == old(out)@ + key_lines(key@, names_view(values@)),
{
    let ghost all = names_view(values@);
    let mut i: usize = 0;
    assert(all.take(0) =~= Seq::<Seq<u8>>::empty());
    assert(out@ =~= old(out)@ + key_lines(key@, all.take(0)));
    while i < values.len()
        invariant
            i <= values@.len(),
            all == names_view(values@),
            out@ == old(out)@ + key_lines(key@, all.take(i as int)),
        decreases values@.len() - i,
    {
        let ghost before = out@;
        let ghost shorter = all.take(i as int);
        let ghost longer = all.take(i + 1);
        let ghost value = values@[i as int]@;
        assert(longer.drop_last() =~= shorter);
        assert(longer.last() == value);
        append_bytes(out, key);
        out.push(SPACE);
        append_folded(out, values[i].as_slice());
        out.push(NEWLINE);
        assert(out@ =~= before + header_line(key@, value));
        assert(out@ =~= old(out)@ + (key_lines(key@, shorter) + header_line(key@, value)));
        i = i + 1;
    }
    assert(all.take(values@.len() as int) =~= all);
}

/// Writes the headers and the message of a commit or a tag: each key's lines
/// in the order of the keys, then a blank line and the message where there is
/// one.
pub fn kvlm_serialize(kvlm: &Kvlm) -> (out: Vec<u8>)
    ensures
        out@ == serialized(kvlm@),
{
    let mut out: Vec<u8> = Vec::new();
    let count = kvlm.len();
    let ghost headers = kvlm@.headers;
    let mut i: usize = 0;
    assert(headers.take(0) =~= Seq::<(Seq<u8>, Seq<Seq<u8>>)>::empty());
    while i < count
        invariant
            i <= count,
            count == headers.len(),
            headers == kvlm@.headers,
            out@ == headers_bytes(headers.take(i as int)),
        decreases count - i,
    {
        let ghost before = out@;
        match kvlm.entry(i) {
            Some((key, values)) => {
                append_key_lines(&mut out, key.as_slice(), values);
                proof {
                    let shorter = headers.take(i as int);
                    let longer = headers.take(i + 1);
                    assert(longer.drop_last() =~= shorter);
                    assert(longer.last() == headers[i as int]);
                }
            },
            None => {},
        }
        i = i + 1;
    }
    assert(headers.take(count as int) =~= headers);
    match kvlm.message() {
        Some(m) => {
            let ghost before = out@;
            out.push(NEWLINE);
            append_bytes(&mut out, m.as_slice());
            assert(out@ =~= before + (seq![NEWLINE] + m@));
        },
        None => {
            assert(out@ + Seq::<u8>::empty() =~= out@);
        },
    }
    out
}

} // verus!
