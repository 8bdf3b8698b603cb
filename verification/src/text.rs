//! Text helpers: comparing, joining and cutting strings, and decimal numbers.

use vstd::prelude::*;

verus! {

/// `String::push` appends one character.
pub assume_specification[ String::push ](s: &mut String, c: char)
    ensures
        final(s)@ == old(s)@.push(c),
;

/// The characters of a string, in order.
pub fn chars_of(s: &str) -> (r: Vec<char>)
    ensures
        r@ == s@,
{
    let mut r: Vec<char> = Vec::new();
    for c in it: s.chars()
        invariant
            r@ == it.seq().take(it.index() as int),
            it.seq() == s@,
    {
        r.push(c);
        assert(it.seq().take(it.index() + 1) =~= it.seq().take(it.index() as int).push(it.seq()[it.index() as int]));
    }
    assert(s@.take(s@.len() as int) =~= s@);
    r
}

/// The string made of the given characters.
pub fn string_of(chars: &Vec<char>) -> (r: String)
    ensures
        r@ == chars@,
{
    let mut r = String::new();
    for i in 0..chars.len()
        invariant
            r@ == chars@.take(i as int),
    {
        r.push(chars[i]);
        assert(chars@.take(i + 1) =~= chars@.take(i as int).push(chars@[i as int]));
    }
    assert(chars@.take(chars@.len() as int) =~= chars@);
    r
}

/// Do the two strings hold the same characters?
pub fn same_text(a: &str, b: &str) -> (r: bool)
    ensures
        r == (a@ == b@),
{
    a.to_owned() == b.to_owned()
}

/// One string after another.
pub fn joined(a: &str, b: &str) -> (r: String)
    ensures
        r@ == a@ + b@,
{
    let mut r = a.to_owned();
    r.append(b);
    r
}

/// The text behind the last `c`; all of it, where `c` does not occur.
pub open spec fn after_last(s: Seq<char>, c: char) -> Seq<char>
    decreases s.len(),
{
    if s.len() == 0 {
        s
    } else if s.last() == c {
        Seq::empty()
    } else {
        after_last(s.drop_last(), c).push(s.last())
    }
}

/// What stands behind the last `c` is a tail of the text without a `c`, and is
/// cut off at a `c` or is the whole text.
pub proof fn lemma_after_last(s: Seq<char>, c: char)
    ensures
        after_last(s, c).len() <= s.len(),
        after_last(s, c) == s.skip(s.len() - after_last(s, c).len()),
        !after_last(s, c).contains(c),
        after_last(s, c).len() < s.len() ==> s[s.len() - after_last(s, c).len() - 1] == c,
    decreases s.len(),
{
    if s.len() > 0 && s.last() != c {
        let t = s.drop_last();
        lemma_after_last(t, c);
        let a = after_last(t, c);
        let r = after_last(s, c);
        assert(r =~= s.skip(s.len() - r.len()));
        if r.contains(c) {
            let i = choose|i: int| 0 <= i < r.len() && r[i] == c;
            assert(a[i] == c);
        }
    } else {
        assert(after_last(s, c) =~= s.skip(s.len() - after_last(s, c).len()));
    }
}

/// The characters behind the last `c`.
fn behind_last(chars: &Vec<char>, end: usize, c: char) -> (r: Vec<char>)
    requires
        end <= chars@.len(),
    ensures
        r@ == after_last(chars@.take(end as int), c),
{
    let mut start: usize = end;
    let ghost text = chars@.take(end as int);
    proof {
        assert(text.take(end as int) =~= text);
        assert(after_last(text, c) =~= after_last(text, c) + text.skip(end as int));
    }
    while start > 0 && chars[start - 1] != c
        invariant
            start <= end <= chars@.len(),
            text == chars@.take(end as int),
            after_last(text, c) == after_last(text.take(start as int), c) + text.skip(start as int),
        decreases start,
    {
        proof {
            let t = text.take(start as int);
            assert(t.drop_last() =~= text.take(start - 1));
            assert(after_last(t, c) + text.skip(start as int) =~= after_last(text.take(start - 1), c)
                + text.skip(start - 1));
        }
        start = start - 1;
    }
    proof {
        assert(after_last(text.take(start as int), c) =~= Seq::empty());
        assert(after_last(text, c) =~= text.skip(start as int));
    }
    let mut r: Vec<char> = Vec::new();
    let mut i: usize = start;
    while i < end
        invariant
            start <= i <= end <= chars@.len(),
            r@ == chars@.subrange(start as int, i as int),
        decreases end - i,
    {
        r.push(chars[i]);
        assert(chars@.subrange(start as int, i + 1) =~= chars@.subrange(start as int, i as int).push(
            chars@[i as int],
        ));
        i = i + 1;
    }
    assert(r@ =~= text.skip(start as int));
    r
}

/// The last line of a text, without its line end; a text without characters
/// has none. A carriage return belongs to the line end only before a line feed.
pub open spec fn last_line_of(s: Seq<char>) -> Option<Seq<char>> {
    if s.len() == 0 {
        None
    } else if s.last() == '\n' {
        let line = after_last(s.drop_last(), '\n');
        if line.len() > 0 && line.last() == '\r' {
            Some(line.drop_last())
        } else {
            Some(line)
        }
    } else {
        Some(after_last(s, '\n'))
    }
}

/// The last line of a text.
pub fn last_line(s: &str) -> (r: Option<String>)
    ensures
        match r {
            Some(line) => last_line_of(s@) == Some(line@),
            None => last_line_of(s@) is None,
        },
{
    let chars = chars_of(s);
    let n: usize = chars.len();
    if n == 0 {
        None
    } else if chars[n - 1] == '\n' {
        let mut line = behind_last(&chars, n - 1, '\n');
        assert(s@.take(n - 1) =~= s@.drop_last());
        let m: usize = line.len();
        if m > 0 && line[m - 1] == '\r' {
            let _ = line.pop();
        }
        Some(string_of(&line))
    } else {
        let line = behind_last(&chars, n, '\n');
        assert(s@.take(n as int) =~= s@);
        Some(string_of(&line))
    }
}

/// What stands behind the last dot of a file name; the whole name, where it has
/// no dot.
pub fn file_ext(name: &str) -> (r: String)
    ensures
        r@ == after_last(name@, '.'),
{
    let chars = chars_of(name);
    assert(name@.take(name@.len() as int) =~= name@);
    let tail = behind_last(&chars, chars.len(), '.');
    string_of(&tail)
}

/// The digit of a number below ten.
pub open spec fn digit(n: int) -> char {
    if n == 0 {
        '0'
    } else if n == 1 {
        '1'
    } else if n == 2 {
        '2'
    } else if n == 3 {
        '3'
    } else if n == 4 {
        '4'
    } else if n == 5 {
        '5'
    } else if n == 6 {
        '6'
    } else if n == 7 {
        '7'
    } else if n == 8 {
        '8'
    } else {
        '9'
    }
}

/// A number in decimal digits, without leading zeros.
pub open spec fn decimal(n: nat) -> Seq<char>
    decreases n,
{
    if n < 10 {
        seq![digit(n as int)]
    } else {
        decimal(n / 10).push(digit((n % 10) as int))
    }
}

fn digit_of(n: u64) -> (r: char)
    requires
        n < 10,
    ensures
        r == digit(n as int),
{
    match n {
        0 => '0',
        1 => '1',
        2 => '2',
        3 => '3',
        4 => '4',
        5 => '5',
        6 => '6',
        7 => '7',
        8 => '8',
        _ => '9',
    }
}

/// Writes a number in decimal digits.
pub fn number(n: u64) -> (r: String)
    ensures
        r@ == decimal(n as nat),
    decreases n,
{
    if n < 10 {
        let mut r = String::new();
        r.push(digit_of(n));
        assert(r@ =~= seq![digit(n as int)]);
        r
    } else {
        let mut r = number(n / 10);
        r.push(digit_of(n % 10));
        r
    }
}

/// The text with zeros before it, as many as it takes to fill `width`.
pub open spec fn zero_padded(s: Seq<char>, width: nat) -> Seq<char> {
    if s.len() >= width {
        s
    } else {
        Seq::new((width - s.len()) as nat, |i: int| '0') + s
    }
}

/// Writes a number in at least `width` decimal digits.
pub fn padded_number(n: u64, width: usize) -> (r: String)
    ensures
        r@ == zero_padded(decimal(n as nat), width as nat),
{
    let digits = number(n);
    let len: usize = digits.as_str().unicode_len();
    let mut r = String::new();
    let mut i: usize = len;
    while i < width
        invariant
            len <= i,
            i <= width || i == len,
            r@ == Seq::new((i - len) as nat, |j: int| '0'),
        decreases width - i,
    {
        r.push('0');
        i = i + 1;
        assert(r@ =~= Seq::new((i - len) as nat, |j: int| '0'));
    }
    r.append(digits.as_str());
    assert(r@ =~= zero_padded(decimal(n as nat), width as nat));
    r
}

/// The number that a decimal digit stands for.
pub open spec fn digit_value(c: char) -> int {
    if c == '1' {
        1
    } else if c == '2' {
        2
    } else if c == '3' {
        3
    } else if c == '4' {
        4
    } else if c == '5' {
        5
    } else if c == '6' {
        6
    } else if c == '7' {
        7
    } else if c == '8' {
        8
    } else if c == '9' {
        9
    } else {
        0
    }
}

/// The number that decimal digits stand for.
pub open spec fn read_decimal(s: Seq<char>) -> int
    decreases s.len(),
{
    if s.len() == 0 {
        0
    } else {
        10 * read_decimal(s.drop_last()) + digit_value(s.last())
    }
}

/// A number that is written in decimal digits is read back, and zeros before
/// it do not matter.
pub proof fn lemma_decimal_reads_back(n: nat, width: nat)
    ensures
        read_decimal(decimal(n)) == n,
        read_decimal(zero_padded(decimal(n), width)) == n,
{
    lemma_read_decimal(n);
    let s = decimal(n);
    if s.len() < width {
        lemma_read_zeros((width - s.len()) as nat, s);
    }
}

proof fn lemma_read_decimal(n: nat)
    ensures
        read_decimal(decimal(n)) == n,
    decreases n,
{
    reveal_with_fuel(read_decimal, 2);
    if n >= 10 {
        lemma_read_decimal(n / 10);
        assert(decimal(n).drop_last() =~= decimal(n / 10));
        assert(decimal(n).last() == digit((n % 10) as int));
    } else {
        assert(decimal(n).drop_last() =~= Seq::empty());
        assert(decimal(n).last() == digit(n as int));
    }
}

proof fn lemma_read_zeros(k: nat, s: Seq<char>)
    ensures
        read_decimal(Seq::new(k, |i: int| '0') + s) == read_decimal(s),
    decreases k + s.len(),
{
    let zeros = Seq::new(k, |i: int| '0');
    let t = zeros + s;
    if s.len() > 0 {
        lemma_read_zeros(k, s.drop_last());
        assert(t.drop_last() =~= zeros + s.drop_last());
        assert(t.last() == s.last());
    } else if k > 0 {
        lemma_read_zeros((k - 1) as nat, s);
        assert(t.drop_last() =~= Seq::new((k - 1) as nat, |i: int| '0') + s);
        assert(t.last() == '0');
    } else {
        assert(t =~= s);
    }
}

/// The digits are the characters from `0` on.
pub proof fn lemma_digits(n: int)
    requires
        0 <= n < 10,
    ensures
        digit(n) as u32 == 48 + n,
        digit_value(digit(n)) == n,
{
}

/// A number is written in digits only, in as few as it takes: the first is no zero, but for
/// the number zero itself, which is one digit.
pub proof fn lemma_decimal_is_short(n: nat)
    ensures
        decimal(n).len() >= 1,
        n > 0 ==> decimal(n)[0] != '0',
        n == 0 ==> decimal(n) == seq!['0'],
        forall|i: int| 0 <= i < decimal(n).len() ==> 48 <= #[trigger] decimal(n)[i] as u32 <= 57,
    decreases n,
{
    lemma_digits((n % 10) as int);
    if n >= 10 {
        lemma_decimal_is_short(n / 10);
        let rest = decimal(n / 10);
        assert(decimal(n)[0] == rest[0]);
        assert forall|i: int| 0 <= i < decimal(n).len() implies 48 <= #[trigger] decimal(n)[i] as u32
            <= 57 by {
            if i < rest.len() {
                assert(decimal(n)[i] == rest[i]);
            }
        }
    }
}

/// A text is padded with zeros in front to the width that was asked for, and a text that is
/// wide enough stays as it is.
pub proof fn lemma_padding(s: Seq<char>, width: nat)
    ensures
        zero_padded(s, width).len() == if s.len() < width {
            width
        } else {
            s.len()
        },
        zero_padded(s, width).skip(zero_padded(s, width).len() - s.len()) == s,
        forall|i: int|
            0 <= i < zero_padded(s, width).len() - s.len() ==> #[trigger] zero_padded(s, width)[i] == '0',
{
    assert(zero_padded(s, width).skip(zero_padded(s, width).len() - s.len()) =~= s);
}

/// The last line of a text: it reaches back to the start or to a line break, and on to the
/// end, but for a line break there, with or without a carriage return before it. Only an
/// empty text has no last line.
pub proof fn lemma_last_line(s: Seq<char>) -> (span: (int, int))
    ensures
        last_line_of(s) is None <==> s.len() == 0,
        s.len() > 0 ==> {
            &&& 0 <= span.0 <= span.1 <= s.len()
            &&& last_line_of(s) == Some(s.subrange(span.0, span.1))
            &&& forall|i: int| span.0 <= i < span.1 ==> #[trigger] s[i] != '\n'
            &&& span.0 == 0 || s[span.0 - 1] == '\n'
            &&& s.last() != '\n' ==> span.1 == s.len()
            &&& s.last() == '\n' ==> {
                ||| span.1 == s.len() - 1 && (span.1 == span.0 || s[span.1 - 1] != '\r')
                ||| span.1 == s.len() - 2 && s[span.1] == '\r'
            }
        },
{
    if s.len() == 0 {
        (0, 0)
    } else {
        let body = if s.last() == '\n' {
            s.drop_last()
        } else {
            s
        };
        let line = after_last(body, '\n');
        lemma_after_last(body, '\n');
        let start = body.len() - line.len();
        assert forall|i: int| start <= i < body.len() implies #[trigger] s[i] != '\n' by {
            assert(line[i - start] == s[i]);
            assert(line.contains(line[i - start]));
        }
        let end = if s.last() == '\n' && line.len() > 0 && line.last() == '\r' {
            body.len() - 1
        } else {
            body.len() as int
        };
        assert(last_line_of(s)->0 =~= s.subrange(start, end));
        (start, end)
    }
}

} // verus!
