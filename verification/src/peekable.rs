//! A character stream with look-ahead, push-back and a trailer that is read after the source
//! string is exhausted. The parsers read the regular expression through it.
use vstd::prelude::*;

use crate::text::str_to_chars;

verus! {

/// A stream of characters. Reading takes characters first from the look-ahead buffer (characters
/// that were peeked at or put back), then from the source string, and finally from the trailer
/// (characters appended with **push()**).
pub struct Peekable {
    /// characters taken off the source but not consumed, and characters put back
    peeked: Vec<char>,
    /// the source characters
    chars: Vec<char>,
    /// index of the next unread source character
    pos: usize,
    /// characters appended to the end of the stream
    trailer: Vec<char>,
}

/// A character counts as whitespace for the parsers if it is a space, a newline or a tab.
pub open spec fn is_white(ch: char) -> bool {
    ch == ' ' || ch == '\n' || ch == '\t'
}

/// The number of leading whitespace characters of **s**.
pub open spec fn white_run(s: Seq<char>) -> nat
    decreases s.len(),
{
    if s.len() > 0 && is_white(s[0]) {
        1 + white_run(s.drop_first())
    } else {
        0
    }
}

/// A run of leading whitespace is no longer than the sequence.
pub proof fn lemma_white_run_le(s: Seq<char>)
    ensures
        white_run(s) <= s.len(),
    decreases s.len(),
{
    if s.len() > 0 && is_white(s[0]) {
        lemma_white_run_le(s.drop_first());
    }
}

/// The first **n** characters of **s**, each wrapped in **Some**, padded with **None** up to **n**.
pub open spec fn lookahead(s: Seq<char>, n: nat) -> Seq<Option<char>> {
    Seq::new(n, |i: int| if i < s.len() { Some(s[i]) } else { None })
}

/// The first character of **s**, if there is one.
pub open spec fn first_of(s: Seq<char>) -> Option<char> {
    if s.len() > 0 {
        Some(s[0])
    } else {
        None
    }
}

/// The stream after one character is read from **s**.
pub open spec fn after_next(s: Seq<char>) -> Seq<char> {
    if s.len() > 0 {
        s.drop_first()
    } else {
        s
    }
}

/// The stream after **n** characters are read from **s** (or all of them if there are fewer).
pub open spec fn after_consume(s: Seq<char>, n: nat) -> Seq<char> {
    if n <= s.len() {
        s.skip(n as int)
    } else {
        Seq::empty()
    }
}

impl View for Peekable {
    type V = Seq<char>;

    /// The characters that remain to be read, in the order they will be read.
    closed spec fn view(&self) -> Seq<char> {
        self.peeked@ + self.rest()
    }
}

/// The part of **s** from index **i** on (empty if **i** is past its end).
pub open spec fn tail_from(s: Seq<char>, i: int) -> Seq<char> {
    if i <= s.len() {
        s.skip(i)
    } else {
        Seq::empty()
    }
}

impl Peekable {
    /// The source characters not yet read, followed by the trailer characters not yet read.
    closed spec fn rest(&self) -> Seq<char> {
        tail_from(self.chars@, self.pos as int) + self.trailer@
    }

    /// create a new **Peekable** to source a string
    pub fn new(string: &str) -> (p: Peekable)
        ensures
            p@ == string@,
    {
        let chars = str_to_chars(string);
        let p = Peekable { peeked: Vec::new(), chars, pos: 0, trailer: Vec::new() };
        assert(p@ =~= string@);
        p
    }

    /// create a new **Peekable** to source a sequence of characters
    pub fn from_chars(chars: Vec<char>) -> (p: Peekable)
        ensures
            p@ == chars@,
    {
        let p = Peekable { peeked: Vec::new(), chars, pos: 0, trailer: Vec::new() };
        assert(p@ =~= chars@);
        p
    }

    /// **next_i()** fetches the next char from the source, or from the trailer if the source is exhausted.
    /// It ignores the look-ahead buffer.
    fn next_i(&mut self) -> (r: Option<char>)
        ensures
            final(self).peeked@ == old(self).peeked@,
            r == first_of(old(self).rest()),
            final(self).rest()
                == after_next(old(self).rest()),
    {
        let ghost rest = self.rest();
        if self.pos < self.chars.len() {
            let ch = self.chars[self.pos];
            self.pos = self.pos + 1;
            proof {
                assert(self.rest() =~= rest.drop_first());
            }
            Some(ch)
        } else if self.trailer.len() > 0 {
            let ch = self.trailer.remove(0);
            proof {
                assert(self.rest() =~= rest.drop_first());
            }
            Some(ch)
        } else {
            proof {
                assert(rest.len() == 0);
            }
            None
        }
    }

    /// gets the next char from the **Peekable** stream - first checks **peeked**, then **chars**, finally **trailer**
    pub fn next(&mut self) -> (r: Option<char>)
        ensures
            r == first_of(old(self)@),
            final(self)@ == after_next(old(self)@),
    {
        if self.peeked.len() > 0 {
            let ch = self.peeked.remove(0);
            proof {
                assert(self@ =~= old(self)@.drop_first());
            }
            Some(ch)
        } else {
            let r = self.next_i();
            proof {
                assert(self.peeked@ =~= Seq::<char>::empty());
                assert(old(self)@ =~= old(self).rest());
                assert(self@ =~= self.rest());
            }
            r
        }
    }

    /// peek_next() gets the next unread source character, adds it to the look-ahead buffer, and returns it
    fn peek_next(&mut self) -> (r: Option<char>)
        ensures
            final(self)@ == old(self)@,
            r == first_of(old(self).rest()),
            r is Some ==> final(self).peeked@ == old(self).peeked@.push(r->0),
            r is None ==> final(self).peeked@ == old(self).peeked@,
    {
        let ghost rest = self.rest();
        let ch = self.next_i();
        if let Some(c) = ch {
            self.peeked.push(c);
            proof {
                assert(self@ =~= old(self)@);
            }
        } else {
            proof {
                assert(self@ =~= old(self)@);
            }
        }
        ch
    }

    /// peek() looks at the next character in the pipeline. If called multiple times it returns the same value
    pub fn peek(&mut self) -> (r: Option<char>)
        ensures
            r == first_of(old(self)@),
            final(self)@ == old(self)@,
    {
        if self.peeked.len() == 0 {
            let ch = self.peek_next();
            if ch.is_none() {
                proof {
                    assert(old(self)@ =~= old(self).rest());
                }
                return None;
            }
            proof {
                assert(old(self)@ =~= old(self).rest());
            }
        }
        Some(self.peeked[0])
    }

    /// peek at the next n chars
    pub fn peek_n(&mut self, n: usize) -> (r: Vec<Option<char>>)
        ensures
            final(self)@ == old(self)@,
            r@ == lookahead(old(self)@, n as nat),
    {
        let ghost s = self@;
        let mut ret: Vec<Option<char>> = Vec::new();
        let mut i: usize = 0;
        while i < self.peeked.len()
            invariant
                self@ == s,
                i <= self.peeked.len(),
                ret.len() == i,
                i <= n,
                forall|k: int| 0 <= k < i ==> ret@[k] == lookahead(s, n as nat)[k],
                s == self.peeked@ + self.rest(),
            decreases self.peeked.len() - i,
        {
            if ret.len() == n {
                proof {
                    assert(ret@ =~= lookahead(s, n as nat));
                }
                return ret;
            }
            ret.push(Some(self.peeked[i]));
            i = i + 1;
        }
        while ret.len() < n
            invariant
                self@ == s,
                ret.len() <= n,
                forall|k: int| 0 <= k < ret.len() ==> ret@[k] == lookahead(s, n as nat)[k],
                ret.len() < n ==> (self.peeked.len() == ret.len() || (self.peeked.len() < ret.len() && self.rest().len() == 0)),
                s == self.peeked@ + self.rest(),
            decreases n - ret.len(),
        {
            let ghost k = ret.len();
            let ch = self.peek_next();
            proof {
                if ch is Some {
                    assert(s[k as int] == ch->0);
                } else {
                    assert(s.len() <= k);
                }
            }
            ret.push(ch);
        }
        proof {
            assert(ret@ =~= lookahead(s, n as nat));
        }
        ret
    }

    /// convenient because 2 chars is all the lookahead I usually need
    pub fn peek_2(&mut self) -> (r: (Option<char>, Option<char>))
        ensures
            final(self)@ == old(self)@,
            r.0 == lookahead(old(self)@, 2)[0],
            r.1 == lookahead(old(self)@, 2)[1],
    {
        let x = self.peek_n(2);
        (x[0], x[1])
    }

    /// This simply adds the char back in the queue. It is assumed the caller returns the chars in the reverse order they are popped off
    pub fn put_back(&mut self, ch: char)
        ensures
            final(self)@ == seq![ch] + old(self)@,
    {
        self.peeked.insert(0, ch);
        proof {
            assert(self@ =~= seq![ch] + old(self)@);
        }
    }

    /// Returns a string to the queue, shortcut for doing it char-by-char
    pub fn put_back_str(&mut self, string: &str)
        ensures
            final(self)@ == string@ + old(self)@,
    {
        let chars = str_to_chars(string);
        let mut i: usize = chars.len();
        while i > 0
            invariant
                i <= chars.len(),
                chars@ == string@,
                self@ == chars@.skip(i as int) + old(self)@,
            decreases i,
        {
            i = i - 1;
            self.put_back(chars[i]);
            proof {
                assert(chars@.skip(i as int) =~= seq![chars@[i as int]] + chars@.skip(i + 1));
            }
        }
        proof {
            assert(chars@.skip(0) =~= chars@);
        }
    }

    /// pushes a char onto the back of the **Peekable** stream
    pub fn push(&mut self, ch: char)
        ensures
            final(self)@ == old(self)@.push(ch),
    {
        self.trailer.push(ch);
        proof {
            assert(self@ =~= old(self)@.push(ch));
        }
    }

    /// pushes a string onto the back of the **Peekable** stream
    pub fn push_str(&mut self, string: &str)
        ensures
            final(self)@ == old(self)@ + string@,
    {
        let chars = str_to_chars(string);
        let mut i: usize = 0;
        while i < chars.len()
            invariant
                i <= chars.len(),
                chars@ == string@,
                self@ == old(self)@ + chars@.take(i as int),
            decreases chars.len() - i,
        {
            self.push(chars[i]);
            proof {
                assert(chars@.take(i + 1) =~= chars@.take(i as int).push(chars@[i as int]));
            }
            i = i + 1;
        }
        proof {
            assert(chars@.take(chars.len() as int) =~= chars@);
        }
    }

    /// (as the name says) skips over whitespace at the front of the stream
    pub fn skip_whitespace(&mut self) -> (r: &mut Self)
        ensures
            r@ == old(self)@.skip(white_run(old(self)@) as int),
            r@.len() == old(self)@.len() - white_run(old(self)@),
            *final(self) == *final(r),
    {
        let ghost s = self@;
        proof {
            lemma_white_run_le(s);
        }
        let ghost mut k: nat = 0;
        assert(s.skip(0) =~= s);
        loop
            invariant
                k <= white_run(s),
                k <= s.len(),
                self@ == s.skip(k as int),
                white_run(s) == k + white_run(s.skip(k as int)),
            ensures
                self@ == s.skip(white_run(s) as int),
            decreases self@.len(),
        {
            let ghost before = self@;
            match self.next() {
                Some(ch) => {
                    if ch != ' ' && ch != '\n' && ch != '\t' {
                        self.put_back(ch);
                        proof {
                            assert(self@ =~= before);
                            assert(white_run(before) == 0);
                        }
                        break;
                    }
                    proof {
                        assert(white_run(before) == 1 + white_run(before.drop_first()));
                        assert(before.drop_first() =~= s.skip(k + 1 as int));
                        k = k + 1;
                    }
                },
                None => {
                    proof {
                        assert(white_run(before) == 0);
                    }
                    break;
                },
            }
        }
        self
    }

    /// disposes of the front **num** characters from the stream
    pub fn consume(&mut self, num: usize) -> (r: &mut Self)
        ensures
            r@ == after_consume(old(self)@, num as nat),
            *final(self) == *final(r),
    {
        let mut i: usize = 0;
        while i < num
            invariant
                i <= num,
                self@ == after_consume(old(self)@, i as nat),
            decreases num - i,
        {
            let _ = self.next();
            proof {
                if i + 1 <= old(self)@.len() {
                    assert(old(self)@.skip(i as int).drop_first() =~= old(self)@.skip(i + 1));
                }
            }
            i = i + 1;
        }
        self
    }

    /// get the first **len** chars from the stream, without consuming them
    pub fn preview(&mut self, len: usize) -> (r: Vec<char>)
        ensures
            final(self)@ == old(self)@,
            r@ == old(self)@.take(if len <= old(self)@.len() { len as int } else { old(self)@.len() as int }),
    {
        let ghost s = self@;
        let v = self.peek_n(len);
        let mut r: Vec<char> = Vec::new();
        let mut i: usize = 0;
        let ghost m: int = if len <= s.len() { len as int } else { s.len() as int };
        while i < v.len()
            invariant
                i <= v.len(),
                v@ == lookahead(s, len as nat),
                m == (if len <= s.len() { len as int } else { s.len() as int }),
                r@ == s.take(if i <= m { i as int } else { m }),
            decreases v.len() - i,
        {
            proof {
                assert(v@[i as int] == lookahead(s, len as nat)[i as int]);
            }
            if let Some(c) = v[i] {
                proof {
                    assert(s.take(i + 1) =~= s.take(i as int).push(c));
                }
                r.push(c);
            } else {
                proof {
                    assert(i >= m);
                }
            }
            i = i + 1;
        }
        r
    }
}

/// A character put back is the next one read, and reading it gives back the stream as it was
/// before (**put_back** followed by **next**).
pub proof fn law_put_back_then_next(s: Seq<char>, c: char)
    ensures
        first_of(seq![c] + s) == Some(c),
        after_next(seq![c] + s) =~= s,
{
}

/// A string put back is read again, character by character, before the rest of the stream
/// (**put_back_str** followed by **consume**).
pub proof fn law_put_back_str_then_consume(s: Seq<char>, t: Seq<char>)
    ensures
        after_consume(t + s, t.len()) =~= s,
        forall|i: int| 0 <= i < t.len() ==> #[trigger] first_of(after_consume(t + s, i as nat)) == Some(t[i]),
{
    assert forall|i: int| 0 <= i < t.len() implies #[trigger] first_of(after_consume(t + s, i as nat)) == Some(t[i]) by {
        assert((t + s).skip(i)[0] == t[i]);
    }
}

/// Looking ahead at **n** characters shows, in order, the characters that reading would give:
/// the i-th one is what **next** returns after i characters are consumed (**peek_n**,
/// **consume**, **next**).
pub proof fn law_peek_n_reads_ahead(s: Seq<char>, n: nat)
    ensures
        forall|i: int| 0 <= i < n ==> #[trigger] lookahead(s, n)[i] == first_of(after_consume(s, i as nat)),
{
    assert forall|i: int| 0 <= i < n implies #[trigger] lookahead(s, n)[i] == first_of(after_consume(s, i as nat)) by {
        if i < s.len() {
            assert(s.skip(i)[0] == s[i]);
        }
    }
}

/// A character pushed onto the back of the stream is read after all the others (**push**
/// followed by **consume**).
pub proof fn law_push_reads_last(s: Seq<char>, c: char)
    ensures
        after_consume(s.push(c), s.len()) =~= seq![c],
        first_of(after_consume(s.push(c), s.len())) == Some(c),
{
    assert(s.push(c).skip(s.len() as int) =~= seq![c]);
}

/// The stream **rest** left after reading from **s** is empty or ends as **s** does.
pub open spec fn keeps_last(rest: Seq<char>, s: Seq<char>) -> bool {
    rest.len() == 0 || (s.len() > 0 && rest.last() == s.last())
}

/// Skipping characters at the front keeps the last one.
pub proof fn lemma_keeps_skip(s: Seq<char>, k: int)
    requires
        0 <= k <= s.len(),
    ensures
        keeps_last(s.skip(k), s),
{
    if s.skip(k).len() > 0 {
        assert(s.skip(k).last() == s[s.len() - 1]);
    }
}

/// Reading one character keeps the last one.
pub proof fn lemma_keeps_first(s: Seq<char>)
    requires
        s.len() > 0,
    ensures
        keeps_last(s.drop_first(), s),
{
    if s.drop_first().len() > 0 {
        assert(s.drop_first().last() == s[s.len() - 1]);
    }
}

/// Reading after reading keeps the last character.
pub proof fn lemma_keeps_trans(r2: Seq<char>, r1: Seq<char>, s: Seq<char>)
    requires
        keeps_last(r2, r1),
        keeps_last(r1, s),
    ensures
        keeps_last(r2, s),
{
}

} // verus!
