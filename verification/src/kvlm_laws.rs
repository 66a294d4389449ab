use crate::bytes::{has_byte, index_of, lemma_first_index_from, lemma_first_index_is};
use crate::kvlm::{
    add_value, folded, grouped, header_fits, header_key, header_len, header_line, header_value,
    headers_bytes, joined, key_lines, parsed, serialized, unfolded, value_len, values_present,
    KvlmView, NEWLINE, SPACE,
};
use crate::ordered::{has_key, keys_distinct};
use vstd::prelude::*;

verus! {

/// Whether `key` can stand at the head of a header line: it is not empty and
/// holds neither a space nor a newline.
pub open spec fn valid_key(key: Seq<u8>) -> bool {
    key.len() > 0 && !has_byte(key, SPACE) && !has_byte(key, NEWLINE)
}

/// Whether a document can be written and read back: no key occurs twice, every
/// key has a value, and every key can stand at the head of a line.
pub open spec fn well_formed(kvlm: KvlmView) -> bool {
    &&& keys_distinct(kvlm.headers)
    &&& values_present(kvlm.headers)
    &&& forall|i: int| 0 <= i < kvlm.headers.len() ==> valid_key((#[trigger] kvlm.headers[i]).0)
}

/// The lines of one key, as pairs.
pub open spec fn lines_of(key: Seq<u8>, values: Seq<Seq<u8>>) -> Seq<(Seq<u8>, Seq<u8>)> {
    Seq::new(values.len(), |j: int| (key, values[j]))
}

/// The lines of all keys, as pairs, in the order in which they are written.
pub open spec fn flat(headers: Seq<(Seq<u8>, Seq<Seq<u8>>)>) -> Seq<(Seq<u8>, Seq<u8>)>
    decreases headers.len(),
{
    if headers.len() == 0 {
        Seq::empty()
    } else {
        flat(headers.drop_last()) + lines_of(headers.last().0, headers.last().1)
    }
}

/// The bytes of a run of lines.
pub open spec fn lines_bytes(lines: Seq<(Seq<u8>, Seq<u8>)>) -> Seq<u8>
    decreases lines.len(),
{
    if lines.len() == 0 {
        Seq::empty()
    } else {
        lines_bytes(lines.drop_last()) + header_line(lines.last().0, lines.last().1)
    }
}

/// A value that was folded unfolds to itself: newlines inside a value survive
/// the writing and the reading.
pub proof fn lemma_unfold_fold(value: Seq<u8>)
    ensures
        unfolded(folded(value)) == value,
    decreases value.len(),
{
    if value.len() == 0 {
        assert(unfolded(folded(value)) =~= value);
    } else {
        let rest = value.skip(1);
        lemma_unfold_fold(rest);
        let text = folded(value);
        if value[0] == NEWLINE {
            assert(text.skip(2) =~= folded(rest));
        } else {
            assert(text.skip(1) =~= folded(rest));
        }
        assert(unfolded(text) =~= seq![value[0]] + rest);
        assert(seq![value[0]] + rest =~= value);
    }
}

/// A folded value runs exactly up to the newline that ends its line, where what
/// follows the line does not begin with a space.
proof fn lemma_value_len_folded(value: Seq<u8>, rest: Seq<u8>)
    requires
        rest.len() == 0 || rest[0] != SPACE,
    ensures
        value_len(folded(value) + seq![NEWLINE] + rest) == folded(value).len(),
    decreases value.len(),
{
    let s = folded(value) + seq![NEWLINE] + rest;
    if value.len() == 0 {
        assert(s[0] == NEWLINE);
        if s.len() > 1 {
            assert(s[1] == rest[0]);
        }
    } else {
        let tail = value.skip(1);
        lemma_value_len_folded(tail, rest);
        let next = folded(tail) + seq![NEWLINE] + rest;
        if value[0] == NEWLINE {
            assert(s[0] == NEWLINE && s[1] == SPACE);
            let mid = s.skip(1);
            assert(mid[0] == SPACE);
            assert(mid.skip(1) =~= next);
            assert(value_len(mid) == 1 + value_len(next));
        } else {
            assert(s[0] == value[0]);
            assert(s.skip(1) =~= next);
        }
    }
}

/// A header line is read back as its key and its value, and what follows it is
/// left.
proof fn lemma_parse_line(key: Seq<u8>, value: Seq<u8>, rest: Seq<u8>)
    requires
        valid_key(key),
        rest.len() == 0 || rest[0] != SPACE,
    ensures
        ({
            let s = header_line(key, value) + rest;
            &&& s.len() > 0
            &&& s[0] != NEWLINE
            &&& header_fits(s)
            &&& header_key(s) == key
            &&& header_value(s) == value
            &&& s.skip(header_len(s)) == rest
        }),
{
    let s = header_line(key, value) + rest;
    let text = folded(value);
    assert(s[0] == key[0]);
    assert forall|k: int| 0 <= k < key.len() implies s[k] != SPACE && s[k] != NEWLINE by {
        assert(s[k] == key[k]);
    }
    assert(s[key.len() as int] == SPACE);
    lemma_first_index_is(s, SPACE, 0, key.len() as int);
    lemma_first_index_from(s, NEWLINE, 0);
    let after = s.skip(key.len() as int + 1);
    assert(after =~= text + seq![NEWLINE] + rest);
    lemma_value_len_folded(value, rest);
    assert(after.take(text.len() as int) =~= text);
    lemma_unfold_fold(value);
    assert(s.take(key.len() as int) =~= key);
    assert(s.skip(header_len(s)) =~= rest);
}

/// The bytes of one line.
proof fn lemma_single_line(line: (Seq<u8>, Seq<u8>))
    ensures
        lines_bytes(seq![line]) == header_line(line.0, line.1),
{
    let none = seq![line].drop_last();
    assert(none.len() == 0);
    assert(lines_bytes(none) =~= Seq::<u8>::empty());
    assert(lines_bytes(seq![line]) =~= header_line(line.0, line.1));
}

/// The bytes of two runs of lines, one after the other.
proof fn lemma_lines_bytes_concat(a: Seq<(Seq<u8>, Seq<u8>)>, b: Seq<(Seq<u8>, Seq<u8>)>)
    ensures
        lines_bytes(a + b) == lines_bytes(a) + lines_bytes(b),
    decreases b.len(),
{
    if b.len() == 0 {
        assert(a + b =~= a);
        assert(lines_bytes(a) + lines_bytes(b) =~= lines_bytes(a));
    } else {
        lemma_lines_bytes_concat(a, b.drop_last());
        assert((a + b).drop_last() =~= a + b.drop_last());
        assert((a + b).last() == b.last());
        assert(lines_bytes(a + b) =~= lines_bytes(a) + lines_bytes(b));
    }
}

/// The lines of one key are the lines of its pairs.
proof fn lemma_key_lines(key: Seq<u8>, values: Seq<Seq<u8>>)
    ensures
        key_lines(key, values) == lines_bytes(lines_of(key, values)),
    decreases values.len(),
{
    if values.len() > 0 {
        lemma_key_lines(key, values.drop_last());
        assert(lines_of(key, values).drop_last() =~= lines_of(key, values.drop_last()));
    }
}

/// The header lines are the lines of the pairs.
proof fn lemma_headers_bytes(headers: Seq<(Seq<u8>, Seq<Seq<u8>>)>)
    ensures
        headers_bytes(headers) == lines_bytes(flat(headers)),
    decreases headers.len(),
{
    if headers.len() > 0 {
        lemma_headers_bytes(headers.drop_last());
        lemma_key_lines(headers.last().0, headers.last().1);
        lemma_lines_bytes_concat(
            flat(headers.drop_last()),
            lines_of(headers.last().0, headers.last().1),
        );
    }
}

/// Whether every line has a key that can stand at the head of a line.
pub open spec fn keys_valid(lines: Seq<(Seq<u8>, Seq<u8>)>) -> bool {
    forall|i: int| 0 <= i < lines.len() ==> valid_key((#[trigger] lines[i]).0)
}

/// Lines that were written are read back, and the reading goes on behind them.
proof fn lemma_parse_lines(lines: Seq<(Seq<u8>, Seq<u8>)>, tail: Seq<u8>)
    requires
        keys_valid(lines),
        tail.len() == 0 || tail[0] == NEWLINE,
    ensures
        parsed(lines_bytes(lines) + tail) == joined(lines, parsed(tail)),
    decreases lines.len(),
{
    if lines.len() == 0 {
        assert(lines_bytes(lines) + tail =~= tail);
        match parsed(tail) {
            None => {},
            Some((more, message)) => {
                assert(lines + more =~= more);
            },
        }
    } else {
        let head = lines[0];
        let others = lines.skip(1);
        assert(seq![head] + others =~= lines);
        lemma_lines_bytes_concat(seq![head], others);
        lemma_single_line(head);
        let rest = lines_bytes(others) + tail;
        let s = lines_bytes(lines) + tail;
        assert(s =~= header_line(head.0, head.1) + rest);
        assert(valid_key(head.0));
        assert(rest.len() == 0 || rest[0] != SPACE) by {
            if others.len() > 0 {
                let second = others[0];
                assert(second == lines[1]);
                assert(valid_key(second.0));
                assert(seq![second] + others.skip(1) =~= others);
                lemma_lines_bytes_concat(seq![second], others.skip(1));
                lemma_single_line(second);
                assert(rest[0] == second.0[0]);
            } else {
                assert(rest =~= tail);
            }
        }
        lemma_parse_line(head.0, head.1, rest);
        assert forall|i: int| 0 <= i < others.len() implies valid_key(
            (#[trigger] others[i]).0,
        ) by {
            assert(others[i] == lines[i + 1]);
        }
        lemma_parse_lines(others, tail);
        match parsed(tail) {
            None => {},
            Some((more, message)) => {
                assert(seq![head] + (others + more) =~= lines + more);
            },
        }
    }
}

/// Gathering the lines of one more key by key gives one more pair.
proof fn lemma_grouped_one_key(
    before: Seq<(Seq<u8>, Seq<u8>)>,
    headers: Seq<(Seq<u8>, Seq<Seq<u8>>)>,
    key: Seq<u8>,
    values: Seq<Seq<u8>>,
)
    requires
        grouped(before) == headers,
        keys_distinct(headers),
        !has_key(headers, key),
        values.len() > 0,
    ensures
        grouped(before + lines_of(key, values)) == headers.push((key, values)),
    decreases values.len(),
{
    let lines = before + lines_of(key, values);
    let shorter = values.drop_last();
    assert(lines.drop_last() =~= before + lines_of(key, shorter));
    assert(lines.last() == (key, values.last()));
    if shorter.len() == 0 {
        assert(before + lines_of(key, shorter) =~= before);
        assert(seq![values.last()] =~= values);
    } else {
        lemma_grouped_one_key(before, headers, key, shorter);
        let earlier = headers.push((key, shorter));
        assert(earlier[headers.len() as int].0 == key);
        assert(has_key(earlier, key));
        assert forall|i: int| 0 <= i < headers.len() implies (#[trigger] earlier[i]).0 != key by {
            assert(headers[i].0 != key);
        }
        assert(shorter.push(values.last()) =~= values);
        assert(add_value(earlier, key, values.last()) =~= headers.push((key, values)));
    }
}

/// Gathering the written lines by key gives the headers back.
proof fn lemma_grouped_flat(headers: Seq<(Seq<u8>, Seq<Seq<u8>>)>)
    requires
        keys_distinct(headers),
        values_present(headers),
    ensures
        grouped(flat(headers)) == headers,
    decreases headers.len(),
{
    if headers.len() == 0 {
        assert(grouped(flat(headers)) =~= headers);
    } else {
        let shorter = headers.drop_last();
        let last = headers.last();
        assert forall|i: int, j: int| 0 <= i < j < shorter.len() implies (#[trigger] shorter[i]).0
            != (#[trigger] shorter[j]).0 by {
            assert(headers[i].0 != headers[j].0);
        }
        assert forall|i: int| 0 <= i < shorter.len() implies (#[trigger] shorter[i]).1.len()
            > 0 by {
            assert(headers[i].1.len() > 0);
        }
        lemma_grouped_flat(shorter);
        assert(!has_key(shorter, last.0)) by {
            if has_key(shorter, last.0) {
                let i = choose|i: int| 0 <= i < shorter.len() && (#[trigger] shorter[i]).0
                    == last.0;
                assert(headers[i].0 != headers[headers.len() - 1].0);
            }
        }
        assert(last.1.len() > 0);
        lemma_grouped_one_key(flat(shorter), shorter, last.0, last.1);
        assert(shorter.push((last.0, last.1)) =~= headers);
    }
}

/// Every written line has a key of the headers.
proof fn lemma_flat_keys_valid(headers: Seq<(Seq<u8>, Seq<Seq<u8>>)>)
    requires
        forall|i: int| 0 <= i < headers.len() ==> valid_key((#[trigger] headers[i]).0),
    ensures
        keys_valid(flat(headers)),
    decreases headers.len(),
{
    if headers.len() > 0 {
        let shorter = headers.drop_last();
        assert forall|i: int| 0 <= i < shorter.len() implies valid_key(
            (#[trigger] shorter[i]).0,
        ) by {
            assert(shorter[i] == headers[i]);
        }
        lemma_flat_keys_valid(shorter);
        let lines = flat(headers);
        let last = headers.last();
        assert(valid_key(headers[headers.len() - 1].0));
        assert forall|i: int| 0 <= i < lines.len() implies valid_key((#[trigger] lines[i]).0) by {
            if i < flat(shorter).len() {
                assert(lines[i] == flat(shorter)[i]);
            } else {
                assert(lines[i] == lines_of(last.0, last.1)[i - flat(shorter).len()]);
            }
        }
    }
}

/// Reading what was written gives the document back: the same keys in the same
/// order, each with the same values, and the same message.
pub proof fn lemma_kvlm_round_trip(kvlm: KvlmView)
    requires
        well_formed(kvlm),
    ensures
        parsed(serialized(kvlm)) matches Some((lines, message)) && grouped(lines) == kvlm.headers
            && message == kvlm.message,
{
    let lines = flat(kvlm.headers);
    let tail = match kvlm.message {
        Some(m) => seq![NEWLINE] + m,
        None => Seq::empty(),
    };
    lemma_headers_bytes(kvlm.headers);
    lemma_flat_keys_valid(kvlm.headers);
    lemma_parse_lines(lines, tail);
    lemma_grouped_flat(kvlm.headers);
    match kvlm.message {
        Some(m) => {
            assert(tail[0] == NEWLINE);
            assert(tail.skip(1) =~= m);
        },
        None => {},
    }
    match parsed(tail) {
        None => {},
        Some((more, message)) => {
            assert(lines + more =~= lines);
        },
    }
}

/// A written value that was read is written the same again: folding puts
/// back the spaces that unfolding took out.
pub proof fn lemma_fold_unfold(text: Seq<u8>)
    requires
        forall|j: int|
            0 <= j < text.len() && #[trigger] text[j] == NEWLINE ==> j + 1 < text.len() && text[j
                + 1] == SPACE,
    ensures
        folded(unfolded(text)) == text,
    decreases text.len(),
{
    if text.len() == 0 {
        assert(folded(unfolded(text)) =~= text);
    } else if text[0] == NEWLINE {
        assert(text.len() > 1 && text[1] == SPACE);
        let rest = text.skip(2);
        assert forall|j: int| 0 <= j < rest.len() && #[trigger] rest[j] == NEWLINE implies j + 1
            < rest.len() && rest[j + 1] == SPACE by {
            assert(text[j + 2] == NEWLINE);
            assert(rest[j + 1] == text[j + 2 + 1]);
        }
        lemma_fold_unfold(rest);
        let value = unfolded(text);
        assert(value =~= seq![NEWLINE] + unfolded(rest));
        assert(value.skip(1) =~= unfolded(rest));
        assert(folded(value) =~= seq![NEWLINE, SPACE] + rest);
        assert(seq![NEWLINE, SPACE] + rest =~= text);
    } else {
        let rest = text.skip(1);
        assert forall|j: int| 0 <= j < rest.len() && #[trigger] rest[j] == NEWLINE implies j + 1
            < rest.len() && rest[j + 1] == SPACE by {
            assert(text[j + 1] == NEWLINE);
            assert(rest[j + 1] == text[j + 1 + 1]);
        }
        lemma_fold_unfold(rest);
        let value = unfolded(text);
        assert(value =~= seq![text[0]] + unfolded(rest));
        assert(value.skip(1) =~= unfolded(rest));
        assert(folded(value) =~= seq![text[0]] + rest);
        assert(seq![text[0]] + rest =~= text);
    }
}

/// The header at the head of a document is written as it stands there.
proof fn lemma_header_bytes(s: Seq<u8>)
    requires
        header_fits(s),
    ensures
        0 < header_len(s) <= s.len(),
        header_line(header_key(s), header_value(s)) == s.take(header_len(s)),
{
    crate::kvlm::lemma_header_len(s);
    let space = index_of(s, SPACE);
    let after = s.skip(space + 1);
    let len = value_len(after);
    let region = after.take(len);
    crate::kvlm::lemma_value_len(after);
    assert forall|j: int| 0 <= j < region.len() && #[trigger] region[j] == NEWLINE implies j + 1
        < region.len() && region[j + 1] == SPACE by {
        assert(after[j] == NEWLINE);
        assert(region[j + 1] == after[j + 1]);
    }
    lemma_fold_unfold(region);
    lemma_first_index_from(s, SPACE, 0);
    assert(s[space] == SPACE);
    assert(after[len] == NEWLINE);
    assert(s.take(header_len(s)) =~= s.take(space) + seq![SPACE] + region + seq![NEWLINE]);
}

/// The end of a document as it is written: a blank line and the message, or
/// nothing.
pub open spec fn message_bytes(message: Option<Seq<u8>>) -> Seq<u8> {
    match message {
        Some(m) => seq![NEWLINE] + m,
        None => Seq::empty(),
    }
}

/// A document that can be read is its lines as they are written, and its
/// message behind a blank line.
pub proof fn lemma_parsed_bytes(s: Seq<u8>)
    requires
        parsed(s) is Some,
    ensures
        parsed(s) matches Some((lines, message)) && s == lines_bytes(lines) + message_bytes(
            message,
        ),
    decreases s.len(),
{
    if s.len() == 0 {
        assert(s =~= lines_bytes(Seq::empty()) + Seq::<u8>::empty());
    } else if s[0] == NEWLINE {
        assert(s =~= lines_bytes(Seq::empty()) + (seq![NEWLINE] + s.skip(1)));
    } else {
        lemma_header_bytes(s);
        let rest = s.skip(header_len(s));
        lemma_parsed_bytes(rest);
        let line = (header_key(s), header_value(s));
        let (more, message) = parsed(rest)->0;
        let tail = message_bytes(message);
        lemma_single_line(line);
        lemma_lines_bytes_concat(seq![line], more);
        assert(s =~= s.take(header_len(s)) + rest);
        assert(s =~= lines_bytes(seq![line] + more) + tail);
    }
}

/// A document whose lines of one key stand together is written as it was read,
/// byte for byte. Where lines of one key stand apart, as in `a 1`, `b 2`,
/// `a 3`, they are written together behind the first.
pub proof fn lemma_kvlm_rewrite(raw: Seq<u8>)
    requires
        parsed(raw) matches Some((lines, _)) && flat(grouped(lines)) == lines,
    ensures
        parsed(raw) matches Some((lines, message)) && serialized(
            KvlmView { headers: grouped(lines), message },
        ) == raw,
{
    let (lines, message) = parsed(raw)->0;
    lemma_parsed_bytes(raw);
    lemma_headers_bytes(grouped(lines));
}

} // verus!
