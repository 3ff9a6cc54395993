//! The text being searched: its characters, and the byte offset of each character in its UTF-8 encoding.
use vstd::prelude::*;
use vstd::utf8::{encode_scalar, encode_utf8};

verus! {

/// The number of bytes that the UTF-8 encoding of **c** takes.
pub open spec fn utf8_width(c: char) -> nat {
    if (c as u32) < 0x80 {
        1
    } else if (c as u32) < 0x800 {
        2
    } else if (c as u32) < 0x10000 {
        3
    } else {
        4
    }
}

/// The number of bytes of the UTF-8 encoding of the first **i** characters of **s**.
pub open spec fn byte_pos(s: Seq<char>, i: int) -> nat
    decreases i,
{
    if i <= 0 || s.len() == 0 {
        0
    } else if i > s.len() {
        byte_pos(s, s.len() as int)
    } else {
        byte_pos(s, i - 1) + utf8_width(s[i - 1])
    }
}

/// Byte offsets grow with the character position.
pub proof fn lemma_byte_pos_mono(s: Seq<char>, i: int, j: int)
    requires
        0 <= i <= j <= s.len(),
    ensures
        byte_pos(s, i) <= byte_pos(s, j),
        i < j ==> byte_pos(s, i) < byte_pos(s, j),
    decreases j - i,
{
    if i < j {
        lemma_byte_pos_mono(s, i, j - 1);
    }
}

/// The bytes of a suffix are the bytes of the whole less those before the suffix.
pub proof fn lemma_byte_pos_skip(s: Seq<char>, i: int)
    requires
        0 <= i <= s.len(),
    ensures
        byte_pos(s, s.len() as int) == byte_pos(s, i) + byte_pos(s.skip(i), s.len() - i),
{
    lemma_byte_pos_skip_upto(s, i, s.len() as int);
}

pub proof fn lemma_byte_pos_skip_upto(s: Seq<char>, i: int, j: int)
    requires
        0 <= i <= j <= s.len(),
    ensures
        byte_pos(s, j) == byte_pos(s, i) + byte_pos(s.skip(i), j - i),
    decreases j - i,
{
    if j > i {
        lemma_byte_pos_skip_upto(s, i, j - 1);
        assert(s.skip(i)[j - i - 1] == s[j - 1]);
    }
}

/// The bytes of the first **k** characters depend on those characters alone.
pub proof fn lemma_byte_pos_prefix(s: Seq<char>, t: Seq<char>, k: int)
    requires
        0 <= k <= s.len(),
        k <= t.len(),
        s.take(k) == t.take(k),
    ensures
        byte_pos(s, k) == byte_pos(t, k),
    decreases k,
{
    if k > 0 {
        assert(s.take(k - 1) =~= s.take(k).take(k - 1));
        assert(t.take(k - 1) =~= t.take(k).take(k - 1));
        assert(s[k - 1] == s.take(k)[k - 1]);
        assert(t[k - 1] == t.take(k)[k - 1]);
        lemma_byte_pos_prefix(s, t, k - 1);
    }
}

/// Returns the number of bytes in the UTF-8 encoding of **c**.
pub fn char_width(c: char) -> (w: usize)
    ensures
        w == utf8_width(c),
        1 <= w <= 4,
{
    let v = c as u32;
    if v < 0x80 {
        1
    } else if v < 0x800 {
        2
    } else if v < 0x10000 {
        3
    } else {
        4
    }
}

/// The decimal digits of **n**, most significant first, without leading zeros ("0" for zero).
pub open spec fn spec_decimal(n: nat) -> Seq<char>
    decreases n,
{
    if n < 10 {
        seq![digit_char(n)]
    } else {
        spec_decimal(n / 10).push(digit_char(n % 10))
    }
}

/// The character of the decimal digit **d**.
pub open spec fn digit_char(d: nat) -> char {
    if d == 0 { '0' } else if d == 1 { '1' } else if d == 2 { '2' } else if d == 3 { '3' }
    else if d == 4 { '4' } else if d == 5 { '5' } else if d == 6 { '6' } else if d == 7 { '7' }
    else if d == 8 { '8' } else { '9' }
}

fn digit_to_char(d: usize) -> (c: char)
    requires
        d < 10,
    ensures
        c == digit_char(d as nat),
{
    if d == 0 { '0' } else if d == 1 { '1' } else if d == 2 { '2' } else if d == 3 { '3' }
    else if d == 4 { '4' } else if d == 5 { '5' } else if d == 6 { '6' } else if d == 7 { '7' }
    else if d == 8 { '8' } else { '9' }
}

/// Writes **n** in decimal.
pub fn decimal_chars(n: usize) -> (v: Vec<char>)
    ensures
        v@ == spec_decimal(n as nat),
    decreases n,
{
    if n < 10 {
        let mut v: Vec<char> = Vec::new();
        v.push(digit_to_char(n));
        proof {
            assert(v@ =~= seq![digit_char(n as nat)]);
        }
        v
    } else {
        let mut v = decimal_chars(n / 10);
        v.push(digit_to_char(n % 10));
        v
    }
}

/// Copies the characters of **s** into a vector.
pub fn str_to_chars(s: &str) -> (v: Vec<char>)
    ensures
        v@ == s@,
{
    let mut v: Vec<char> = Vec::new();
    for c in it: s.chars()
        invariant
            v@ == it.seq().take(it.index() as int),
    {
        v.push(c);
    }
    v
}

/// Builds a **String** holding the characters of **chars**, collecting them with std's
/// **Iterator::collect** into a **String**. The contract claims that the string holds exactly
/// these characters, in order.
#[verifier::external_body]
pub(crate) fn chars_to_string(chars: &[char]) -> (s: String)
    ensures
        s@ == chars@,
{
    chars.iter().collect()
}

/// The text to search. Positions in it are counted in characters; the byte offset of each
/// character position is kept as well, so that matches can be reported in both units.
pub struct Text {
    chars: Vec<char>,
    /// offsets[i] is the byte offset of character i; offsets has one more entry than chars
    offsets: Vec<usize>,
}

impl View for Text {
    type V = Seq<char>;

    closed spec fn view(&self) -> Seq<char> {
        self.chars@
    }
}

impl Text {
    #[verifier::type_invariant]
    spec fn inv(self) -> bool {
        &&& self.offsets.len() == self.chars.len() + 1
        &&& forall|i: int| 0 <= i <= self.chars.len() ==> #[trigger] self.offsets@[i] == byte_pos(self.chars@, i)
    }

    /// Builds the text from a string. The byte offsets of a string always fit in **usize**; the
    /// result is **None** only if they would not.
    pub fn new(s: &str) -> (r: Option<Text>)
        ensures
            r is Some <==> byte_pos(s@, s@.len() as int) <= usize::MAX,
            r matches Some(t) ==> t@ == s@,
    {
        let chars = str_to_chars(s);
        let mut offsets: Vec<usize> = Vec::new();
        offsets.push(0);
        let mut i: usize = 0;
        let mut total: usize = 0;
        while i < chars.len()
            invariant
                i <= chars.len(),
                chars@ == s@,
                offsets.len() == i + 1,
                total == byte_pos(chars@, i as int),
                forall|k: int| 0 <= k <= i ==> #[trigger] offsets@[k] == byte_pos(chars@, k),
            decreases chars.len() - i,
        {
            let w = char_width(chars[i]);
            if total > usize::MAX - w {
                proof {
                    lemma_byte_pos_mono(chars@, i + 1, chars@.len() as int);
                }
                return None;
            }
            total = total + w;
            i = i + 1;
            offsets.push(total);
        }
        Some(Text { chars, offsets })
    }

    /// The number of characters in the text.
    pub fn len(&self) -> (n: usize)
        ensures
            n == self@.len(),
    {
        self.chars.len()
    }

    /// The character at position **i**.
    pub fn get(&self, i: usize) -> (c: char)
        requires
            i < self@.len(),
        ensures
            c == self@[i as int],
    {
        self.chars[i]
    }

    /// The byte offset of character position **i**.
    pub fn byte_offset(&self, i: usize) -> (b: usize)
        requires
            i <= self@.len(),
        ensures
            b == byte_pos(self@, i as int),
    {
        proof { use_type_invariant(self); }
        self.offsets[i]
    }

    /// The text between character positions **from** and **to** as a **String**.
    pub fn substring(&self, from: usize, to: usize) -> (s: String)
        requires
            from <= to <= self@.len(),
        ensures
            s@ == self@.subrange(from as int, to as int),
    {
        let mut v: Vec<char> = Vec::new();
        let mut i: usize = from;
        while i < to
            invariant
                from <= i <= to <= self.chars.len(),
                v@ == self.chars@.subrange(from as int, i as int),
            decreases to - i,
        {
            v.push(self.chars[i]);
            proof {
                assert(self.chars@.subrange(from as int, i + 1) =~= self.chars@.subrange(from as int, i as int).push(self.chars@[i as int]));
            }
            i = i + 1;
        }
        chars_to_string(v.as_slice())
    }
}

/// The UTF-8 encoding of characters put together is their encodings put together.
proof fn lemma_encode_add(a: Seq<char>, b: Seq<char>)
    ensures
        encode_utf8(a + b).len() == encode_utf8(a).len() + encode_utf8(b).len(),
    decreases a.len(),
{
    if a.len() > 0 {
        lemma_encode_add(a.drop_first(), b);
        assert((a + b).drop_first() =~= a.drop_first() + b);
        assert((a + b)[0] == a[0]);
    }
}

/// The width of a character is the length of its UTF-8 encoding.
proof fn lemma_width_encoding(c: char)
    ensures
        utf8_width(c) == encode_utf8(seq![c]).len(),
{
    broadcast use vstd::utf8::char_is_scalar;
    assert(seq![c].drop_first() =~= Seq::<char>::empty());
    assert(encode_utf8(seq![c]) == encode_scalar(c as u32) + encode_utf8(Seq::<char>::empty()));
}

/// Byte offsets are those of the UTF-8 encoding of the text, as a Rust string holds it: the byte
/// offset of character **i** is the number of bytes that the UTF-8 encoding of the characters
/// before it takes (one byte for an ASCII character, four for one beyond U+FFFF).
pub proof fn law_byte_pos_is_utf8(s: Seq<char>, i: int)
    requires
        0 <= i <= s.len(),
    ensures
        byte_pos(s, i) == encode_utf8(s.take(i)).len(),
    decreases i,
{
    if i == 0 {
        assert(s.take(0) =~= Seq::<char>::empty());
    } else {
        law_byte_pos_is_utf8(s, i - 1);
        assert(s.take(i) =~= s.take(i - 1) + seq![s[i - 1]]);
        lemma_encode_add(s.take(i - 1), seq![s[i - 1]]);
        lemma_width_encoding(s[i - 1]);
    }
}

} // verus!
