use vstd::prelude::*;

verus! {

/// The position of the first `needle` in `s` at or after `from`, or the length
/// of `s` where there is none.
pub open spec fn first_index_from(s: Seq<u8>, needle: u8, from: int) -> int
    decreases s.len() - from,
{
    if from < 0 || from >= s.len() {
        s.len() as int
    } else if s[from] == needle {
        from
    } else {
        first_index_from(s, needle, from + 1)
    }
}

/// The first `needle` at or after `from` lies between `from` and the end, holds
/// the needle where it lies before the end, and nothing before it does.
pub proof fn lemma_first_index_from(s: Seq<u8>, needle: u8, from: int)
    requires
        0 <= from <= s.len(),
    ensures
        from <= first_index_from(s, needle, from) <= s.len(),
        first_index_from(s, needle, from) < s.len() ==> s[first_index_from(s, needle, from)]
            == needle,
        forall|k: int| from <= k < first_index_from(s, needle, from) ==> s[k] != needle,
    decreases s.len() - from,
{
    if from < s.len() && s[from] != needle {
        lemma_first_index_from(s, needle, from + 1);
    }
}

/// Finds the first `needle` in `raw` at or after `from`.
pub fn find_byte(raw: &[u8], needle: u8, from: usize) -> (pos: usize)
    requires
        from <= raw@.len(),
    ensures
        pos == first_index_from(raw@, needle, from as int),
        from <= pos <= raw@.len(),
{
    let mut i: usize = from;
    proof {
        lemma_first_index_from(raw@, needle, from as int);
    }
    while i < raw.len() && raw[i] != needle
        invariant
            from <= i <= raw@.len(),
            first_index_from(raw@, needle, i as int) == first_index_from(raw@, needle, from as int),
        decreases raw@.len() - i,
    {
        i = i + 1;
    }
    i
}

/// Whether two byte strings hold the same bytes.
pub fn bytes_eq(a: &[u8], b: &[u8]) -> (same: bool)
    ensures
        same == (a@ == b@),
{
    if a.len() != b.len() {
        return false;
    }
    let mut i: usize = 0;
    while i < a.len()
        invariant
            a@.len() == b@.len(),
            i <= a@.len(),
            forall|k: int| 0 <= k < i ==> a@[k] == b@[k],
        decreases a@.len() - i,
    {
        if a[i] != b[i] {
            return false;
        }
        i = i + 1;
    }
    assert(a@ =~= b@);
    true
}

/// Whether `s` begins with `prefix`.
pub open spec fn has_prefix(s: Seq<u8>, prefix: Seq<u8>) -> bool {
    prefix.len() <= s.len() && s.subrange(0, prefix.len() as int) == prefix
}

/// Whether `s` begins with `prefix`.
pub fn starts_with(s: &[u8], prefix: &[u8]) -> (yes: bool)
    ensures
        yes == has_prefix(s@, prefix@),
{
    if prefix.len() > s.len() {
        return false;
    }
    bytes_eq(&s[0..prefix.len()], prefix)
}

/// A copy of the bytes of `raw` from `from` up to, not including, `to`.
pub fn copy_range(raw: &[u8], from: usize, to: usize) -> (out: Vec<u8>)
    requires
        from <= to <= raw@.len(),
    ensures
        out@ == raw@.subrange(from as int, to as int),
{
    let mut out: Vec<u8> = Vec::new();
    let mut i: usize = from;
    while i < to
        invariant
            from <= i <= to <= raw@.len(),
            out@ == raw@.subrange(from as int, i as int),
        decreases to - i,
    {
        out.push(raw[i]);
        i = i + 1;
        assert(out@ =~= raw@.subrange(from as int, i as int));
    }
    out
}

/// Appends the bytes of `src` to `dst`.
pub fn append_bytes(dst: &mut Vec<u8>, src: &[u8])
    ensures
        final(dst)@ == old(dst)@ + src@,
{
    let mut i: usize = 0;
    while i < src.len()
        invariant
            i <= src@.len(),
            dst@ == old(dst)@ + src@.subrange(0, i as int),
        decreases src@.len() - i,
    {
        dst.push(src[i]);
        i = i + 1;
        assert(dst@ =~= old(dst)@ + src@.subrange(0, i as int));
    }
    assert(src@.subrange(0, src@.len() as int) =~= src@);
}

/// Whether `s` holds `needle` anywhere.
pub open spec fn has_byte(s: Seq<u8>, needle: u8) -> bool {
    exists|i: int| 0 <= i < s.len() && s[i] == needle
}

/// Whether `s` holds `needle` anywhere.
pub fn contains_byte(s: &[u8], needle: u8) -> (yes: bool)
    ensures
        yes == has_byte(s@, needle),
{
    let pos = find_byte(s, needle, 0);
    proof {
        lemma_first_index_from(s@, needle, 0);
    }
    pos < s.len()
}

/// Strict lexicographic order on byte strings: the order in which names sort.
pub open spec fn lex_less(a: Seq<u8>, b: Seq<u8>) -> bool
    decreases a.len(),
{
    if b.len() == 0 {
        false
    } else if a.len() == 0 {
        true
    } else if a[0] != b[0] {
        a[0] < b[0]
    } else {
        lex_less(a.drop_first(), b.drop_first())
    }
}

/// `lex_less` seen from a common prefix of length `k`.
pub proof fn lemma_lex_less_skip(a: Seq<u8>, b: Seq<u8>, k: int)
    requires
        0 <= k <= a.len(),
        k <= b.len(),
        a.subrange(0, k) == b.subrange(0, k),
    ensures
        lex_less(a, b) == lex_less(a.skip(k), b.skip(k)),
    decreases k,
{
    if k == 0 {
        assert(a.skip(0) =~= a);
        assert(b.skip(0) =~= b);
    } else {
        assert(a[0] == a.subrange(0, k)[0]);
        assert(b[0] == b.subrange(0, k)[0]);
        assert(a.drop_first().subrange(0, k - 1) =~= a.subrange(0, k).drop_first());
        assert(b.drop_first().subrange(0, k - 1) =~= b.subrange(0, k).drop_first());
        lemma_lex_less_skip(a.drop_first(), b.drop_first(), k - 1);
        assert(a.drop_first().skip(k - 1) =~= a.skip(k));
        assert(b.drop_first().skip(k - 1) =~= b.skip(k));
    }
}

/// No byte string comes before itself.
pub proof fn lemma_lex_less_irreflexive(a: Seq<u8>)
    ensures
        !lex_less(a, a),
    decreases a.len(),
{
    if a.len() > 0 {
        lemma_lex_less_irreflexive(a.drop_first());
    }
}

/// What comes before a string comes before whatever that string comes before.
pub proof fn lemma_lex_less_transitive(a: Seq<u8>, b: Seq<u8>, c: Seq<u8>)
    requires
        lex_less(a, b),
        lex_less(b, c),
    ensures
        lex_less(a, c),
    decreases a.len(),
{
    if a.len() > 0 && a[0] == b[0] && b[0] == c[0] {
        lemma_lex_less_transitive(a.drop_first(), b.drop_first(), c.drop_first());
    }
}

/// Of two different byte strings one comes before the other.
pub proof fn lemma_lex_less_total(a: Seq<u8>, b: Seq<u8>)
    ensures
        lex_less(a, b) || lex_less(b, a) || a == b,
    decreases a.len(),
{
    if a.len() > 0 && b.len() > 0 && a[0] == b[0] {
        lemma_lex_less_total(a.drop_first(), b.drop_first());
        if a.drop_first() == b.drop_first() {
            assert(a =~= seq![a[0]] + a.drop_first());
            assert(b =~= seq![b[0]] + b.drop_first());
        }
    } else if a.len() == 0 && b.len() == 0 {
        assert(a =~= b);
    }
}

/// Whether `a` comes strictly before `b` in byte order.
pub fn bytes_less(a: &[u8], b: &[u8]) -> (less: bool)
    ensures
        less == lex_less(a@, b@),
{
    let mut i: usize = 0;
    while i < a.len() && i < b.len()
        invariant
            i <= a@.len(),
            i <= b@.len(),
            a@.subrange(0, i as int) == b@.subrange(0, i as int),
        decreases a@.len() - i,
    {
        if a[i] != b[i] {
            proof {
                lemma_lex_less_skip(a@, b@, i as int);
            }
            return a[i] < b[i];
        }
        i = i + 1;
        assert(a@.subrange(0, i as int) =~= b@.subrange(0, i as int));
    }
    proof {
        lemma_lex_less_skip(a@, b@, i as int);
    }
    i < b.len()
}

/// The big-endian 32-bit number in the four bytes of `s` from `at`.
pub open spec fn be_u32(s: Seq<u8>, at: int) -> int {
    s[at] as int * 16777216 + s[at + 1] as int * 65536 + s[at + 2] as int * 256 + s[at + 3] as int
}

/// The big-endian 16-bit number in the two bytes of `s` from `at`.
pub open spec fn be_u16(s: Seq<u8>, at: int) -> int {
    s[at] as int * 256 + s[at + 1] as int
}

/// The four bytes of `v`, the most significant first.
pub open spec fn be_bytes_u32(v: int) -> Seq<u8> {
    seq![
        (v / 16777216 % 256) as u8,
        (v / 65536 % 256) as u8,
        (v / 256 % 256) as u8,
        (v % 256) as u8,
    ]
}

/// The two bytes of `v`, the most significant first.
pub open spec fn be_bytes_u16(v: int) -> Seq<u8> {
    seq![(v / 256 % 256) as u8, (v % 256) as u8]
}

/// Reads a big-endian 32-bit number.
pub fn read_be_u32(raw: &[u8], at: usize) -> (v: u32)
    requires
        at + 4 <= raw@.len(),
    ensures
        v == be_u32(raw@, at as int),
{
    let b0 = raw[at] as u32;
    let b1 = raw[at + 1] as u32;
    let b2 = raw[at + 2] as u32;
    let b3 = raw[at + 3] as u32;
    b0 * 16777216 + b1 * 65536 + b2 * 256 + b3
}

/// Reads a big-endian 16-bit number.
pub fn read_be_u16(raw: &[u8], at: usize) -> (v: u16)
    requires
        at + 2 <= raw@.len(),
    ensures
        v == be_u16(raw@, at as int),
{
    let b0 = raw[at] as u16;
    let b1 = raw[at + 1] as u16;
    b0 * 256 + b1
}

/// Appends a 32-bit number, the most significant byte first.
pub fn push_be_u32(out: &mut Vec<u8>, v: u32)
    ensures
        final(out)@ == old(out)@ + be_bytes_u32(v as int),
{
    out.push((v / 16777216 % 256) as u8);
    out.push((v / 65536 % 256) as u8);
    out.push((v / 256 % 256) as u8);
    out.push((v % 256) as u8);
    assert(out@ =~= old(out)@ + be_bytes_u32(v as int));
}

/// Appends a 16-bit number, the most significant byte first.
pub fn push_be_u16(out: &mut Vec<u8>, v: u16)
    ensures
        final(out)@ == old(out)@ + be_bytes_u16(v as int),
{
    out.push((v / 256 % 256) as u8);
    out.push((v % 256) as u8);
    assert(out@ =~= old(out)@ + be_bytes_u16(v as int));
}

/// `n` zero bytes.
pub open spec fn zeros(n: int) -> Seq<u8> {
    Seq::new(n as nat, |i: int| 0u8)
}

/// Appends `n` zero bytes.
pub fn push_zeros(out: &mut Vec<u8>, n: usize)
    ensures
        final(out)@ == old(out)@ + zeros(n as int),
{
    let mut i: usize = 0;
    while i < n
        invariant
            i <= n,
            out@ == old(out)@ + zeros(i as int),
        decreases n - i,
    {
        out.push(0u8);
        i = i + 1;
        assert(out@ =~= old(out)@ + zeros(i as int));
    }
}

/// The position of the first `needle` in `s`, or the length of `s` where there
/// is none.
pub open spec fn index_of(s: Seq<u8>, needle: u8) -> int {
    first_index_from(s, needle, 0)
}

/// Searching from `from` is searching the rest.
pub proof fn lemma_first_index_skip(s: Seq<u8>, needle: u8, from: int)
    requires
        0 <= from <= s.len(),
    ensures
        first_index_from(s, needle, from) == from + index_of(s.skip(from), needle),
    decreases s.len() - from,
{
    let rest = s.skip(from);
    lemma_first_index_from(rest, needle, 0);
    lemma_first_index_from(s, needle, from);
    let p = index_of(rest, needle);
    assert forall|k: int| from <= k < from + p implies s[k] != needle by {
        assert(rest[k - from] == s[k]);
    }
    if p < rest.len() {
        assert(rest[p] == s[from + p]);
    }
    lemma_first_index_is(s, needle, from, from + p);
}

/// The first `needle` at or after `from` is at `at` where `at` holds it, or is
/// the end, and nothing before `at` does.
pub proof fn lemma_first_index_is(s: Seq<u8>, needle: u8, from: int, at: int)
    requires
        0 <= from <= at <= s.len(),
        at < s.len() ==> s[at] == needle,
        forall|k: int| from <= k < at ==> s[k] != needle,
    ensures
        first_index_from(s, needle, from) == at,
    decreases at - from,
{
    if from < at {
        lemma_first_index_is(s, needle, from + 1, at);
    }
}

/// Whether `c` is one of the digits `0` to `9`.
pub open spec fn is_digit(c: u8) -> bool {
    48 <= c <= 57
}

/// Whether `s` is digits only.
pub open spec fn all_digits(s: Seq<u8>) -> bool {
    forall|i: int| 0 <= i < s.len() ==> is_digit(#[trigger] s[i])
}

/// The number that the decimal digits of `s` stand for.
pub open spec fn decimal_value(s: Seq<u8>) -> nat
    decreases s.len(),
{
    if s.len() == 0 {
        0
    } else {
        (decimal_value(s.drop_last()) * 10 + (s.last() - 48)) as nat
    }
}

/// The decimal digits of `n`, without leading zeros.
pub open spec fn decimal(n: nat) -> Seq<u8>
    decreases n,
{
    if n < 10 {
        seq![(48 + n) as u8]
    } else {
        decimal(n / 10).push((48 + n % 10) as u8)
    }
}

/// The digits of a number are digits, and stand for the number.
pub proof fn lemma_decimal(n: nat)
    ensures
        decimal(n).len() > 0,
        all_digits(decimal(n)),
        decimal_value(decimal(n)) == n,
    decreases n,
{
    if n < 10 {
        let s = decimal(n);
        assert(s.drop_last().len() == 0);
        assert(decimal_value(s.drop_last()) == 0);
    } else {
        lemma_decimal(n / 10);
        let s = decimal(n);
        assert(s.drop_last() =~= decimal(n / 10));
        assert forall|i: int| 0 <= i < s.len() implies is_digit(#[trigger] s[i]) by {
            if i < s.len() - 1 {
                assert(s[i] == decimal(n / 10)[i]);
            }
        }
    }
}

/// A number is no smaller than what fewer of its digits stand for.
pub proof fn lemma_decimal_value_grows(s: Seq<u8>, k: int)
    requires
        all_digits(s),
        0 <= k <= s.len(),
    ensures
        decimal_value(s.take(k)) <= decimal_value(s),
    decreases s.len() - k,
{
    if k < s.len() {
        lemma_decimal_value_grows(s, k + 1);
        let longer = s.take(k + 1);
        assert(longer.drop_last() =~= s.take(k));
        assert(is_digit(s[k]));
        assert(longer.last() == s[k]);
    } else {
        assert(s.take(k) =~= s);
    }
}

/// The decimal digits of `n`.
pub fn write_decimal(n: usize) -> (digits: Vec<u8>)
    ensures
        digits@ == decimal(n as nat),
    decreases n,
{
    if n < 10 {
        let mut digits: Vec<u8> = Vec::new();
        digits.push((48 + n) as u8);
        assert(digits@ =~= decimal(n as nat));
        digits
    } else {
        let mut digits = write_decimal(n / 10);
        digits.push((48 + n % 10) as u8);
        digits
    }
}

/// Whether `s` is the decimal digits of `n`, leading zeros allowed.
pub fn decimal_equals(s: &[u8], n: usize) -> (same: bool)
    ensures
        same == (s@.len() > 0 && all_digits(s@) && decimal_value(s@) == n),
{
    if s.len() == 0 {
        return false;
    }
    let limit = n as u128;
    let mut value: u128 = 0;
    let mut i: usize = 0;
    assert(s@.take(0).len() == 0);
    while i < s.len()
        invariant
            i <= s@.len(),
            limit == n,
            value <= limit,
            all_digits(s@.take(i as int)),
            value == decimal_value(s@.take(i as int)),
        decreases s@.len() - i,
    {
        let c = s[i];
        let ghost shorter = s@.take(i as int);
        let ghost longer = s@.take(i + 1);
        assert(longer.drop_last() =~= shorter);
        assert(longer.last() == c);
        if c < 48 || c > 57 {
            assert(!is_digit(s@[i as int]));
            return false;
        }
        assert forall|k: int| 0 <= k < longer.len() implies is_digit(#[trigger] longer[k]) by {
            if k < i {
                assert(longer[k] == shorter[k]);
            }
        }
        let next = value * 10 + (c - 48) as u128;
        if next > limit {
            proof {
                if all_digits(s@) {
                    lemma_decimal_value_grows(s@, i + 1);
                }
            }
            return false;
        }
        value = next;
        i = i + 1;
    }
    assert(s@.take(s@.len() as int) =~= s@);
    value == limit
}

/// The position of the last `needle` in `s`, or -1 where there is none.
pub open spec fn last_index_of(s: Seq<u8>, needle: u8) -> int
    decreases s.len(),
{
    if s.len() == 0 {
        -1
    } else if s.last() == needle {
        s.len() - 1
    } else {
        last_index_of(s.drop_last(), needle)
    }
}

/// The position of the last `needle` in the first `len` bytes of `s`.
pub fn find_last_byte(s: &[u8], needle: u8, len: usize) -> (at: Option<usize>)
    requires
        len <= s@.len(),
    ensures
        match at {
            Some(i) => i < len && i == last_index_of(s@.take(len as int), needle),
            None => last_index_of(s@.take(len as int), needle) == -1,
        },
{
    let mut i: usize = len;
    while i > 0
        invariant
            i <= len <= s@.len(),
            last_index_of(s@.take(i as int), needle) == last_index_of(s@.take(len as int), needle),
        decreases i,
    {
        assert(s@.take(i as int).drop_last() =~= s@.take(i - 1));
        if s[i - 1] == needle {
            return Some(i - 1);
        }
        i = i - 1;
    }
    None
}

/// The number that the digits of `s` stand for, where `s` is digits only, not
/// empty, and the number is at most `limit`.
pub fn parse_decimal(s: &[u8], limit: u64) -> (out: Option<u64>)
    ensures
        match out {
            Some(v) => s@.len() > 0 && all_digits(s@) && decimal_value(s@) == v && v <= limit,
            None => !(s@.len() > 0 && all_digits(s@) && decimal_value(s@) <= limit),
        },
{
    if s.len() == 0 {
        return None;
    }
    let mut value: u64 = 0;
    let mut i: usize = 0;
    assert(s@.take(0).len() == 0);
    while i < s.len()
        invariant
            i <= s@.len(),
            value <= limit,
            all_digits(s@.take(i as int)),
            value == decimal_value(s@.take(i as int)),
        decreases s@.len() - i,
    {
        let c = s[i];
        let ghost shorter = s@.take(i as int);
        let ghost longer = s@.take(i + 1);
        assert(longer.drop_last() =~= shorter);
        assert(longer.last() == c);
        if c < 48 || c > 57 {
            assert(!is_digit(s@[i as int]));
            return None;
        }
        assert forall|k: int| 0 <= k < longer.len() implies is_digit(#[trigger] longer[k]) by {
            if k < i {
                assert(longer[k] == shorter[k]);
            }
        }
        let next = value as u128 * 10 + (c - 48) as u128;
        if next > limit as u128 {
            proof {
                if all_digits(s@) {
                    lemma_decimal_value_grows(s@, i + 1);
                }
            }
            return None;
        }
        value = next as u64;
        i = i + 1;
    }
    assert(s@.take(s@.len() as int) =~= s@);
    Some(value)
}

/// The byte strings of a list, as plain values.
pub open spec fn names_view(list: Seq<Vec<u8>>) -> Seq<Seq<u8>> {
    Seq::new(list.len(), |i: int| list[i]@)
}

/// Whether `c` is white space: a space, or one of the five control characters
/// from tab to carriage return.
pub open spec fn is_space(c: u8) -> bool {
    c == 32 || (9 <= c <= 13)
}

/// `s` without the white space at its end.
pub open spec fn trimmed_end(s: Seq<u8>) -> Seq<u8>
    decreases s.len(),
{
    if s.len() > 0 && is_space(s.last()) {
        trimmed_end(s.drop_last())
    } else {
        s
    }
}

/// `s` without the white space at its beginning.
pub open spec fn trimmed_start(s: Seq<u8>) -> Seq<u8>
    decreases s.len(),
{
    if s.len() > 0 && is_space(s[0]) {
        trimmed_start(s.skip(1))
    } else {
        s
    }
}

/// Whether `c` is white space.
pub fn byte_is_space(c: u8) -> (yes: bool)
    ensures
        yes == is_space(c),
{
    c == 32 || (9 <= c && c <= 13)
}

/// How much of `s` is left without the white space at its end.
pub fn trim_end_len(s: &[u8]) -> (len: usize)
    ensures
        len <= s@.len(),
        s@.take(len as int) == trimmed_end(s@),
{
    let mut len: usize = s.len();
    assert(s@.take(len as int) =~= s@);
    while len > 0 && byte_is_space(s[len - 1])
        invariant
            len <= s@.len(),
            trimmed_end(s@.take(len as int)) == trimmed_end(s@),
        decreases len,
    {
        assert(s@.take(len as int).drop_last() =~= s@.take(len - 1));
        len = len - 1;
    }
    len
}

/// How much white space `s` begins with.
pub fn trim_start_len(s: &[u8]) -> (skip: usize)
    ensures
        skip <= s@.len(),
        s@.skip(skip as int) == trimmed_start(s@),
{
    let mut skip: usize = 0;
    assert(s@.skip(0) =~= s@);
    while skip < s.len() && byte_is_space(s[skip])
        invariant
            skip <= s@.len(),
            trimmed_start(s@.skip(skip as int)) == trimmed_start(s@),
        decreases s@.len() - skip,
    {
        assert(s@.skip(skip as int).skip(1) =~= s@.skip(skip + 1));
        skip = skip + 1;
    }
    skip
}

/// Whether `names` holds `wanted`.
pub fn contains_name(names: &Vec<Vec<u8>>, wanted: &[u8]) -> (yes: bool)
    ensures
        yes == names_view(names@).contains(wanted@),
{
    let ghost all = names_view(names@);
    let mut i: usize = 0;
    while i < names.len()
        invariant
            i <= names@.len(),
            all == names_view(names@),
            forall|k: int| 0 <= k < i ==> all[k] != wanted@,
        decreases names@.len() - i,
    {
        if bytes_eq(names[i].as_slice(), wanted) {
            assert(all[i as int] == wanted@);
            return true;
        }
        i = i + 1;
    }
    false
}

} // verus!
