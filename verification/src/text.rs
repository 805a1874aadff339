//! Building and taking apart text.
use vstd::prelude::*;
use vstd::utf8::*;

verus! {

/// Appends one character, with `String::push`, whose documentation says just that.
#[verifier::external_body]
pub(crate) fn push(text: &mut String, c: char)
    ensures
        final(text)@ == old(text)@.push(c),
{
    text.push(c)
}

/// Appends text, with `String::push_str`.
#[verifier::external_body]
pub(crate) fn push_str(text: &mut String, more: &str)
    ensures
        final(text)@ == old(text)@ + more@,
{
    text.push_str(more)
}

/// White space, as Unicode has it.
pub open spec fn is_space(c: char) -> bool {
    let n = c as u32;
    ||| 0x9 <= n <= 0xd
    ||| n == 0x20
    ||| n == 0x85
    ||| n == 0xa0
    ||| n == 0x1680
    ||| 0x2000 <= n <= 0x200a
    ||| n == 0x2028
    ||| n == 0x2029
    ||| n == 0x202f
    ||| n == 0x205f
    ||| n == 0x3000
}

pub(crate) fn space(c: char) -> (r: bool)
    ensures
        r == is_space(c),
{
    let n: u32 = c as u32;
    (0x9 <= n && n <= 0xd) || n == 0x20 || n == 0x85 || n == 0xa0 || n == 0x1680 || (0x2000 <= n && n
        <= 0x200a) || n == 0x2028 || n == 0x2029 || n == 0x202f || n == 0x205f || n == 0x3000
}

/// What `String::from_utf8_lossy` reads in bytes.
pub uninterp spec fn lossy_text(bytes: Seq<u8>) -> Seq<char>;

/// Reads bytes as text with `String::from_utf8_lossy`, which depends on the
/// bytes alone and reads a valid encoding as what it encodes.
#[verifier::external_body]
pub(crate) fn lossy(bytes: &[u8]) -> (text: String)
    ensures
        text@ == lossy_text(bytes@),
        valid_utf8(bytes@) ==> text@ == decode_utf8(bytes@),
{
    String::from_utf8_lossy(bytes).into_owned()
}

/// The character with a number, by `char::from_u32`: there is one for every
/// Unicode scalar value and for nothing else.
#[verifier::external_body]
pub(crate) fn char_of(n: u32) -> (c: Option<char>)
    ensures
        match c {
            Some(c) => is_scalar(n) && c as u32 == n,
            None => !is_scalar(n),
        },
{
    char::from_u32(n)
}

/// Bytes of one's own.
pub fn bytes_of(bytes: &[u8]) -> (out: Vec<u8>)
    ensures
        out@ == bytes@,
{
    let mut out: Vec<u8> = Vec::new();
    out.extend_from_slice(bytes);
    assert(out@ =~= bytes@);
    out
}

/// Whether two runs of bytes are the same.
pub fn same_bytes(a: &[u8], b: &[u8]) -> (r: bool)
    ensures
        r == (a@ == b@),
{
    if a.len() != b.len() {
        return false;
    }
    let mut i: usize = 0;
    while i < a.len()
        invariant
            i <= a.len() == b.len(),
            forall|k: int| 0 <= k < i ==> a@[k] == b@[k],
        decreases a.len() - i,
    {
        if a[i] != b[i] {
            return false;
        }
        i += 1;
    }
    assert(a@ =~= b@);
    true
}

/// The characters of a text.
pub fn chars(text: &str) -> (out: Vec<char>)
    ensures
        out@ == text@,
{
    let mut out: Vec<char> = Vec::new();
    for c in it: text.chars()
        invariant
            it.seq() == text@,
            out@ == text@.take(it.index() as int),
    {
        out.push(c);
        assert(out@ =~= text@.take(it.index() as int + 1));
    }
    assert(out@ =~= text@);
    out
}

/// The text made of these characters.
pub fn from_chars(chars: &[char]) -> (out: String)
    ensures
        out@ == chars@,
{
    let mut out = String::new();
    let mut i: usize = 0;
    while i < chars.len()
        invariant
            i <= chars.len(),
            out@ == chars@.take(i as int),
        decreases chars.len() - i,
    {
        push(&mut out, chars[i]);
        assert(out@ =~= chars@.take(i + 1));
        i += 1;
    }
    assert(out@ =~= chars@);
    out
}

/// Whether two texts are the same.
pub fn same(a: &str, b: &str) -> (r: bool)
    ensures
        r == (a@ == b@),
{
    let x = chars(a);
    let y = chars(b);
    if x.len() != y.len() {
        return false;
    }
    let mut i: usize = 0;
    while i < x.len()
        invariant
            i <= x.len() == y.len(),
            x@ == a@,
            y@ == b@,
            forall|k: int| 0 <= k < i ==> x@[k] == y@[k],
        decreases x.len() - i,
    {
        if x[i] != y[i] {
            return false;
        }
        i += 1;
    }
    assert(a@ =~= b@);
    true
}

/// Whether a text begins with another.
pub fn starts_with(text: &str, front: &str) -> (r: bool)
    ensures
        r == front@.is_prefix_of(text@),
{
    let x = chars(text);
    let y = chars(front);
    if y.len() > x.len() {
        return false;
    }
    let mut i: usize = 0;
    while i < y.len()
        invariant
            i <= y.len() <= x.len(),
            x@ == text@,
            y@ == front@,
            forall|k: int| 0 <= k < i ==> x@[k] == y@[k],
        decreases y.len() - i,
    {
        if x[i] != y[i] {
            return false;
        }
        i += 1;
    }
    assert(front@ =~= text@.take(front@.len() as int));
    true
}

/// One text behind another.
pub fn joined(a: &str, b: &str) -> (out: String)
    ensures
        out@ == a@ + b@,
{
    let mut out = a.to_owned();
    push_str(&mut out, b);
    out
}

/// A row of texts as sequences of characters.
pub open spec fn texts(row: Seq<String>) -> Seq<Seq<char>> {
    row.map_values(|text: String| text@)
}

/// Rows of texts as sequences of characters.
pub open spec fn table(rows: Seq<Vec<String>>) -> Seq<Seq<Seq<char>>> {
    rows.map_values(|row: Vec<String>| texts(row@))
}

/// The decimal digits of a number, with no sign, leading zeros or grouping.
pub open spec fn decimal_text(n: nat) -> Seq<char>
    decreases n,
{
    if n < 10 {
        seq![(48 + n) as u8 as char]
    } else {
        decimal_text(n / 10).push((48 + n % 10) as u8 as char)
    }
}

pub fn decimal_u64(n: u64) -> (out: String)
    ensures
        out@ == decimal_text(n as nat),
    decreases n,
{
    let digit: u8 = (n % 10) as u8;
    let mut out = if n < 10 {
        String::new()
    } else {
        decimal_u64(n / 10)
    };
    push(&mut out, (48 + digit) as char);
    assert(out@ =~= decimal_text(n as nat));
    out
}

pub fn decimal(n: usize) -> (out: String)
    ensures
        out@ == decimal_text(n as nat),
{
    decimal_u64(n as u64)
}

/// A number with its sign, where it is under zero.
pub open spec fn signed_text(n: int) -> Seq<char> {
    if n < 0 {
        seq!['-'] + decimal_text((-n) as nat)
    } else {
        decimal_text(n as nat)
    }
}

pub fn signed(n: i64) -> (out: String)
    ensures
        out@ == signed_text(n as int),
{
    if n < 0 {
        let mut out = String::new();
        push(&mut out, '-');
        let size: u64 = if n == i64::MIN { 9223372036854775808 } else { (-n) as u64 };
        push_str(&mut out, decimal_u64(size).as_str());
        assert(out@ =~= signed_text(n as int));
        out
    } else {
        decimal_u64(n as u64)
    }
}

/// Texts with a separator between them.
pub open spec fn join_text(parts: Seq<Seq<char>>, separator: Seq<char>) -> Seq<char>
    decreases parts.len(),
{
    if parts.len() == 0 {
        Seq::empty()
    } else if parts.len() == 1 {
        parts[0]
    } else {
        join_text(parts.drop_last(), separator) + separator + parts.last()
    }
}

pub fn join(parts: &Vec<String>, separator: &str) -> (out: String)
    ensures
        out@ == join_text(texts(parts@), separator@),
{
    let ghost all = texts(parts@);
    let mut out = String::new();
    let mut i: usize = 0;
    assert(all.take(0) =~= Seq::empty());
    assert(out@ =~= join_text(all.take(0), separator@));
    while i < parts.len()
        invariant
            i <= parts.len(),
            all == texts(parts@),
            out@ == join_text(all.take(i as int), separator@),
        decreases parts.len() - i,
    {
        let ghost now = all.take(i + 1);
        assert(now.drop_last() =~= all.take(i as int));
        assert(now.last() == parts@[i as int]@);
        if i > 0 {
            push_str(&mut out, separator);
        }
        push_str(&mut out, parts[i].as_str());
        assert(out@ =~= join_text(now, separator@));
        i += 1;
    }
    assert(all.take(i as int) =~= all);
    out
}

/// Whether a text ends with another.
pub fn ends_with(text: &str, tail: &str) -> (r: bool)
    ensures
        r == tail@.is_suffix_of(text@),
{
    let x = chars(text);
    let y = chars(tail);
    if y.len() > x.len() {
        return false;
    }
    let start: usize = x.len() - y.len();
    let mut i: usize = 0;
    while i < y.len()
        invariant
            i <= y.len() <= x.len(),
            start == x.len() - y.len(),
            x@ == text@,
            y@ == tail@,
            forall|k: int| 0 <= k < i ==> x@[start + k] == y@[k],
        decreases y.len() - i,
    {
        if x[start + i] != y[i] {
            proof {
                if tail@.is_suffix_of(text@) {
                    assert(tail@ =~= text@.subrange(start as int, text@.len() as int));
                    assert(tail@[i as int] == text@[start + i]);
                }
            }
            return false;
        }
        i += 1;
    }
    assert(tail@ =~= text@.subrange(start as int, text@.len() as int));
    true
}

pub(crate) proof fn lemma_scalar_bytes(c: char, b: u8)
    requires
        b < 0x80,
    ensures
        encode_scalar(c as u32).contains(b) <==> c == b as char,
        encode_scalar(c as u32).len() >= 1,
{
    char_is_scalar(c);
    let v = c as u32;
    let e = encode_scalar(v);
    if has_width_1_encoding(v) {
        assert((v & 0x7F) as u8 == v) by (bit_vector)
            requires
                v <= 0x7F,
        ;
        assert(e[0] == v);
        if e.contains(b) {
            assert(v == b);
        }
        if c == b as char {
            assert(v == b);
            assert(e[0] == b);
        }
    } else {
        assert(0xC0u8 | ((v >> 6) & 0x1F) as u8 >= 0x80u8) by (bit_vector);
        assert(0xE0u8 | ((v >> 12) & 0x0F) as u8 >= 0x80u8) by (bit_vector);
        assert(0xF0u8 | ((v >> 18) & 0x7) as u8 >= 0x80u8) by (bit_vector);
        assert(0x80u8 | (v & 0x3F) as u8 >= 0x80u8) by (bit_vector);
        assert(0x80u8 | ((v >> 6) & 0x3F) as u8 >= 0x80u8) by (bit_vector);
        assert(0x80u8 | ((v >> 12) & 0x3F) as u8 >= 0x80u8) by (bit_vector);
        assert(forall|i: int| 0 <= i < e.len() ==> #[trigger] e[i] >= 0x80);
    }
}

/// The encoding of a text is that of its parts, one behind the other.
pub(crate) proof fn lemma_encode_concat(a: Seq<char>, b: Seq<char>)
    ensures
        encode_utf8(a + b) == encode_utf8(a) + encode_utf8(b),
    decreases a.len(),
{
    if a.len() == 0 {
        assert(a + b =~= b);
    } else {
        lemma_encode_concat(a.drop_first(), b);
        assert((a + b).drop_first() =~= a.drop_first() + b);
    }
}

pub(crate) proof fn lemma_encode_one(c: char)
    ensures
        encode_utf8(seq![c]) == encode_scalar(c as u32),
{
    assert(seq![c].drop_first() =~= Seq::empty());
    reveal_with_fuel(encode_utf8, 2);
}

/// An ASCII byte stands in the encoding of a text just when its character
/// stands in the text.
pub proof fn ascii_byte_in_text(text: Seq<char>, b: u8)
    requires
        b < 0x80,
    ensures
        encode_utf8(text).contains(b) <==> text.contains(b as char),
    decreases text.len(),
{
    if text.len() > 0 {
        let head = encode_scalar(text[0] as u32);
        let rest = text.drop_first();
        lemma_scalar_bytes(text[0], b);
        ascii_byte_in_text(rest, b);
        let all = encode_utf8(text);
        assert(all == head + encode_utf8(rest));
        if all.contains(b) {
            let i = choose|i: int| 0 <= i < all.len() && all[i] == b;
            if i < head.len() {
                assert(head[i] == b);
                assert(text[0] == b as char);
            } else {
                assert(encode_utf8(rest)[i - head.len()] == b);
                let j = choose|j: int| 0 <= j < rest.len() && rest[j] == b as char;
                assert(text[j + 1] == b as char);
            }
        }
        if text.contains(b as char) {
            let j = choose|j: int| 0 <= j < text.len() && text[j] == b as char;
            if j == 0 {
                let i = choose|i: int| 0 <= i < head.len() && head[i] == b;
                assert(all[i] == b);
            } else {
                assert(rest[j - 1] == b as char);
                let i = choose|i: int| 0 <= i < encode_utf8(rest).len() && encode_utf8(rest)[i] == b;
                assert(all[head.len() + i] == b);
            }
        }
    }
}

/// The pieces of a text between separators: one more than there are separators.
pub open spec fn split_text(text: Seq<char>, separator: char) -> Seq<Seq<char>>
    decreases text.len(),
{
    if text.len() == 0 {
        seq![Seq::empty()]
    } else {
        let before = split_text(text.drop_last(), separator);
        if text.last() == separator {
            before.push(Seq::empty())
        } else {
            before.drop_last().push(before.last().push(text.last()))
        }
    }
}

pub fn split(text: &str, separator: char) -> (out: Vec<String>)
    ensures
        texts(out@) == split_text(text@, separator),
{
    let chars = chars(text);
    let mut out: Vec<String> = Vec::new();
    let mut piece = String::new();
    let mut i: usize = 0;
    assert(text@.take(0) =~= Seq::empty());
    assert(piece@ =~= Seq::empty());
    assert(texts(out@).push(piece@) =~= split_text(text@.take(0), separator));
    while i < chars.len()
        invariant
            i <= chars.len(),
            chars@ == text@,
            split_text(text@.take(i as int), separator) == texts(out@).push(piece@),
        decreases chars.len() - i,
    {
        let ghost before = texts(out@);
        assert(text@.take(i + 1).drop_last() =~= text@.take(i as int));
        assert(before.push(piece@).drop_last() =~= before);
        if chars[i] == separator {
            out.push(piece);
            assert(texts(out@) =~= before.push(piece@));
            piece = String::new();
            assert(piece@ =~= Seq::empty());
        } else {
            push(&mut piece, chars[i]);
        }
        assert(split_text(text@.take(i + 1), separator) =~= texts(out@).push(piece@));
        i += 1;
    }
    assert(text@.take(i as int) =~= text@);
    let ghost before = texts(out@);
    out.push(piece);
    assert(texts(out@) =~= before.push(piece@));
    out
}

/// A text without the white space at its front.
pub open spec fn trimmed_front(text: Seq<char>) -> Seq<char>
    decreases text.len(),
{
    if text.len() > 0 && is_space(text[0]) {
        trimmed_front(text.skip(1))
    } else {
        text
    }
}

/// A text without the white space at its back.
pub open spec fn trimmed_back(text: Seq<char>) -> Seq<char>
    decreases text.len(),
{
    if text.len() > 0 && is_space(text.last()) {
        trimmed_back(text.drop_last())
    } else {
        text
    }
}

/// A text without the white space around it.
pub fn trim(text: &str) -> (out: String)
    ensures
        out@ == trimmed_back(trimmed_front(text@)),
{
    let chars = chars(text);
    let mut from: usize = 0;
    assert(text@.skip(0) =~= text@);
    while from < chars.len() && space(chars[from])
        invariant
            from <= chars.len(),
            chars@ == text@,
            trimmed_front(text@.skip(from as int)) == trimmed_front(text@),
        decreases chars.len() - from,
    {
        assert(text@.skip(from as int).skip(1) =~= text@.skip(from + 1));
        from += 1;
    }
    let ghost kept = text@.skip(from as int);
    let mut to: usize = chars.len();
    assert(text@.subrange(from as int, to as int) =~= kept);
    while to > from && space(chars[to - 1])
        invariant
            from <= to <= chars.len(),
            chars@ == text@,
            trimmed_back(text@.subrange(from as int, to as int)) == trimmed_back(kept),
        decreases to,
    {
        assert(text@.subrange(from as int, to as int).drop_last() =~= text@.subrange(from as int, to - 1));
        to -= 1;
    }
    let out = from_chars(vstd::slice::slice_subrange(chars.as_slice(), from, to));
    assert(out@ =~= text@.subrange(from as int, to as int));
    out
}

/// A text with one more character at `at`.
pub fn inserted(text: &str, at: usize, c: char) -> (out: String)
    requires
        at <= text@.len(),
    ensures
        out@ == text@.insert(at as int, c),
{
    let mut chars = chars(text);
    chars.insert(at, c);
    from_chars(chars.as_slice())
}

/// A text without the character at `at`.
pub fn removed(text: &str, at: usize) -> (out: String)
    requires
        at < text@.len(),
    ensures
        out@ == text@.remove(at as int),
{
    let mut chars = chars(text);
    chars.remove(at);
    from_chars(chars.as_slice())
}

/// How many characters a text has.
pub fn length(text: &str) -> (n: usize)
    ensures
        n == text@.len(),
{
    chars(text).len()
}

/// A text without its last character, or nothing where it has none.
pub fn shortened(text: &str) -> (out: Option<String>)
    ensures
        match out {
            Some(out) => text@.len() > 0 && out@ == text@.drop_last(),
            None => text@.len() == 0,
        },
{
    let chars = chars(text);
    let n = chars.len();
    if n == 0 {
        return None;
    }
    let out = from_chars(vstd::slice::slice_subrange(chars.as_slice(), 0, n - 1));
    assert(out@ =~= text@.drop_last());
    Some(out)
}

/// A text stands somewhere in another.
pub open spec fn occurs(part: Seq<char>, text: Seq<char>) -> bool {
    exists|i: int|
        0 <= i <= text.len() - part.len() && #[trigger] text.subrange(i, i + part.len()) == part
}

/// Whether a text stands somewhere in another.
pub fn contains(text: &str, part: &str) -> (r: bool)
    ensures
        r == occurs(part@, text@),
{
    let x = chars(text);
    let y = chars(part);
    if y.len() > x.len() {
        return false;
    }
    let last: usize = x.len() - y.len();
    let mut i: usize = 0;
    loop
        invariant
            x@ == text@,
            y@ == part@,
            last + y.len() == x.len(),
            i <= last,
            forall|k: int| 0 <= k < i ==> #[trigger] text@.subrange(k, k + part@.len()) != part@,
        decreases last - i,
    {
        let here = from_chars(vstd::slice::slice_subrange(x.as_slice(), i, i + y.len()));
        assert(here@ =~= text@.subrange(i as int, i + part@.len()));
        if same(here.as_str(), part) {
            return true;
        }
        if i == last {
            return false;
        }
        i += 1;
    }
}

} // verus!
