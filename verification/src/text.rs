//! The strings that the executor computes: decimal numbers, joined and split
//! values, and the line that `time` prints.

use vstd::prelude::*;

verus! {

/// Appends one character to a string.
///
/// Trusted: the body is `String::push`, which vstd does not specify. The
/// contract says that the string afterwards is the string before with `c` at
/// its end.
#[verifier::external_body]
pub(crate) fn push_char(s: &mut String, c: char)
    ensures
        final(s)@ == old(s)@.push(c),
{
    s.push(c)
}

/// The character of a decimal digit.
pub open spec fn digit(d: nat) -> char
    recommends
        d < 10,
{
    if d == 0 {
        '0'
    } else if d == 1 {
        '1'
    } else if d == 2 {
        '2'
    } else if d == 3 {
        '3'
    } else if d == 4 {
        '4'
    } else if d == 5 {
        '5'
    } else if d == 6 {
        '6'
    } else if d == 7 {
        '7'
    } else if d == 8 {
        '8'
    } else {
        '9'
    }
}

/// The decimal digits of a natural number, without leading zeros.
pub open spec fn digits(n: nat) -> Seq<char>
    decreases n,
{
    if n < 10 {
        seq![digit(n)]
    } else {
        digits(n / 10).push(digit(n % 10))
    }
}

/// An integer in decimal, with a leading `-` where it is negative.
pub open spec fn decimal(n: int) -> Seq<char> {
    if n < 0 {
        seq!['-'] + digits((-n) as nat)
    } else {
        digits(n as nat)
    }
}

/// `count` zeros.
pub open spec fn zeros(count: nat) -> Seq<char> {
    Seq::new(count, |i: int| '0')
}

/// The decimal digits of `n`, filled with zeros on the left up to `width`
/// characters; longer numbers are not cut.
pub open spec fn padded(n: nat, width: nat) -> Seq<char> {
    if digits(n).len() >= width {
        digits(n)
    } else {
        zeros((width - digits(n).len()) as nat) + digits(n)
    }
}

fn digit_char(d: u64) -> (c: char)
    requires
        d < 10,
    ensures
        c == digit(d as nat),
{
    if d == 0 {
        '0'
    } else if d == 1 {
        '1'
    } else if d == 2 {
        '2'
    } else if d == 3 {
        '3'
    } else if d == 4 {
        '4'
    } else if d == 5 {
        '5'
    } else if d == 6 {
        '6'
    } else if d == 7 {
        '7'
    } else if d == 8 {
        '8'
    } else {
        '9'
    }
}

/// Appends the decimal digits of `n` to `out`.
pub fn write_digits(out: &mut String, n: u64)
    ensures
        final(out)@ == old(out)@ + digits(n as nat),
    decreases n,
{
    if n < 10 {
        push_char(out, digit_char(n));
        assert(out@ =~= old(out)@ + digits(n as nat));
    } else {
        write_digits(out, n / 10);
        push_char(out, digit_char(n % 10));
        assert(out@ =~= old(out)@ + digits(n as nat));
    }
}

/// How many decimal digits `n` has.
pub fn count_digits(n: u64) -> (count: usize)
    ensures
        count == digits(n as nat).len(),
        1 <= count <= 20,
{
    let mut count: usize = 1;
    let mut rest: u64 = n;
    proof {
        lemma_digits_len(n as nat);
    }
    while rest >= 10
        invariant
            1 <= count,
            count + digits(rest as nat).len() == digits(n as nat).len() + 1,
            digits(n as nat).len() <= 20,
        decreases rest,
    {
        rest = rest / 10;
        count = count + 1;
    }
    count
}

/// A number below 2^64 has at most twenty digits.
proof fn lemma_digits_len(n: nat)
    requires
        n <= u64::MAX,
    ensures
        1 <= digits(n).len() <= 20,
{
    reveal_with_fuel(digits, 21);
}

/// Appends the decimal digits of `n` to `out`, filled with zeros on the left
/// up to `width` characters.
pub fn write_padded(out: &mut String, n: u64, width: usize)
    ensures
        final(out)@ == old(out)@ + padded(n as nat, width as nat),
{
    let have = count_digits(n);
    let mut written: usize = have;
    while written < width
        invariant
            have <= written,
            have < width ==> written <= width,
            have >= width ==> written == have,
            out@ == old(out)@ + zeros((written - have) as nat),
        decreases width - written,
    {
        push_char(out, '0');
        written = written + 1;
        assert(out@ =~= old(out)@ + zeros((written - have) as nat));
    }
    let ghost fill = zeros((written - have) as nat);
    write_digits(out, n);
    assert(out@ =~= old(out)@ + (fill + digits(n as nat)));
    assert(fill + digits(n as nat) =~= padded(n as nat, width as nat)) by {
        if have >= width {
            assert(written == have);
            assert(fill.len() == 0);
        } else {
            assert(written == width);
            assert(fill == zeros((width as nat - digits(n as nat).len()) as nat));
        }
    }
}

/// The decimal form of a signed integer.
pub fn decimal_string(n: i64) -> (s: String)
    ensures
        s@ == decimal(n as int),
{
    let mut out = String::new();
    if n < 0 {
        push_char(&mut out, '-');
        let magnitude: u64 = if n == i64::MIN {
            0x8000_0000_0000_0000u64
        } else {
            (-n) as u64
        };
        write_digits(&mut out, magnitude);
        assert(out@ =~= decimal(n as int));
    } else {
        write_digits(&mut out, n as u64);
        assert(out@ =~= decimal(n as int));
    }
    out
}

/// The contents of a list of strings.
pub open spec fn texts(list: Seq<String>) -> Seq<Seq<char>> {
    list.map_values(|s: String| s@)
}

/// The members of `list`, with `separator` between each two neighbours.
pub open spec fn joined(list: Seq<Seq<char>>, separator: Seq<char>) -> Seq<char>
    decreases list.len(),
{
    if list.len() == 0 {
        Seq::empty()
    } else if list.len() == 1 {
        list[0]
    } else {
        joined(list.drop_last(), separator) + separator + list.last()
    }
}

/// Joins `list` with `separator` between each two neighbours.
pub fn join(list: &Vec<String>, separator: &str) -> (s: String)
    ensures
        s@ == joined(texts(list@), separator@),
{
    let mut out = String::new();
    let mut i: usize = 0;
    while i < list.len()
        invariant
            i <= list.len(),
            out@ == joined(texts(list@).take(i as int), separator@),
        decreases list.len() - i,
    {
        let ghost before = texts(list@).take(i as int);
        let ghost after = texts(list@).take(i + 1);
        assert(after.drop_last() =~= before);
        assert(after.last() == list@[i as int]@);
        if i > 0 {
            out.append(separator);
        }
        out.append(list[i].as_str());
        i = i + 1;
    }
    assert(texts(list@).take(list.len() as int) =~= texts(list@));
    out
}

/// Whether some member of `left` is also a member of `right`.
pub open spec fn overlapping(left: Seq<Seq<char>>, right: Seq<Seq<char>>) -> bool {
    exists|i: int, j: int|
        0 <= i < left.len() && 0 <= j < right.len() && #[trigger] left[i] == #[trigger] right[j]
}

/// Whether `list` holds `wanted`.
pub fn holds(list: &Vec<String>, wanted: &String) -> (found: bool)
    ensures
        found == texts(list@).contains(wanted@),
{
    let mut j: usize = 0;
    while j < list.len()
        invariant
            j <= list.len(),
            forall|k: int| 0 <= k < j ==> texts(list@)[k] != wanted@,
        decreases list.len() - j,
    {
        if list[j] == *wanted {
            assert(texts(list@)[j as int] == wanted@);
            return true;
        }
        j = j + 1;
    }
    false
}

/// Whether some member of `left` is also a member of `right`.
pub fn overlap(left: &Vec<String>, right: &Vec<String>) -> (found: bool)
    ensures
        found == overlapping(texts(left@), texts(right@)),
{
    let mut i: usize = 0;
    while i < left.len()
        invariant
            i <= left.len(),
            forall|a: int, b: int|
                0 <= a < i && 0 <= b < right.len() ==> #[trigger] texts(left@)[a]
                    != #[trigger] texts(right@)[b],
        decreases left.len() - i,
    {
        if holds(right, &left[i]) {
            let ghost j = choose|j: int|
                0 <= j < texts(right@).len() && texts(right@)[j] == left@[i as int]@;
            assert(texts(left@)[i as int] == texts(right@)[j]);
            return true;
        }
        assert forall|b: int| 0 <= b < right.len() implies texts(left@)[i as int] != texts(
            right@,
        )[b] by {
            if texts(left@)[i as int] == texts(right@)[b] {
                assert(texts(right@).contains(left@[i as int]@));
            }
        }
        i = i + 1;
    }
    false
}

/// How many characters stand before the first line feed of `s`, or the
/// length of `s` where it holds none.
pub open spec fn line_end(s: Seq<char>) -> nat
    decreases s.len(),
{
    if s.len() == 0 || s[0] == '\n' {
        0
    } else {
        1 + line_end(s.drop_first())
    }
}

/// `line` without the carriage return at its end, if it has one.
pub open spec fn without_return(line: Seq<char>) -> Seq<char> {
    if line.len() > 0 && line.last() == '\r' {
        line.drop_last()
    } else {
        line
    }
}

/// The lines of `s`. A line ends at a line feed, or at a carriage return
/// that a line feed follows; neither belongs to the line. What follows the
/// last line feed is a line of its own unless it is empty.
pub open spec fn lines_of(s: Seq<char>) -> Seq<Seq<char>>
    decreases s.len(),
{
    if s.len() == 0 {
        Seq::empty()
    } else if line_end(s) >= s.len() {
        seq![s]
    } else {
        seq![without_return(s.take(line_end(s) as int))] + lines_of(s.skip(line_end(s) as int + 1))
    }
}

/// `line_end` never runs past the end.
pub proof fn lemma_line_end_bound(s: Seq<char>)
    ensures
        line_end(s) <= s.len(),
        line_end(s) < s.len() ==> s[line_end(s) as int] == '\n',
        forall|i: int| 0 <= i < line_end(s) ==> s[i] != '\n',
    decreases s.len(),
{
    if s.len() == 0 || s[0] == '\n' {
    } else {
        lemma_line_end_bound(s.drop_first());
        assert forall|i: int| 0 <= i < line_end(s) implies s[i] != '\n' by {
            if i > 0 {
                assert(s[i] == s.drop_first()[i - 1]);
            }
        }
    }
}

/// Where a sequence without a line feed is followed by a line feed, the
/// first line ends right behind it.
proof fn lemma_line_end_found(head: Seq<char>, tail: Seq<char>)
    requires
        forall|i: int| 0 <= i < head.len() ==> head[i] != '\n',
    ensures
        line_end(head + seq!['\n'] + tail) == head.len(),
    decreases head.len(),
{
    let whole = head + seq!['\n'] + tail;
    if head.len() == 0 {
        assert(whole[0] == '\n');
    } else {
        assert(whole[0] == head[0]);
        assert(whole.drop_first() =~= head.drop_first() + seq!['\n'] + tail);
        lemma_line_end_found(head.drop_first(), tail);
    }
}

/// A sequence without a line feed is one line.
proof fn lemma_line_end_none(s: Seq<char>)
    requires
        forall|i: int| 0 <= i < s.len() ==> s[i] != '\n',
    ensures
        line_end(s) == s.len(),
    decreases s.len(),
{
    if s.len() > 0 {
        lemma_line_end_none(s.drop_first());
    }
}

/// Splits `s` into its lines.
pub fn lines(s: &str) -> (list: Vec<String>)
    ensures
        texts(list@) == lines_of(s@),
{
    let mut list: Vec<String> = Vec::new();
    let mut line = String::new();
    // A carriage return that was read and not yet written: it belongs to the
    // line only if no line feed follows it.
    let mut held: bool = false;
    proof {
        assert(line@ + Seq::<char>::empty() + s@.skip(0) =~= s@);
        assert(texts(list@) + lines_of(s@) =~= lines_of(s@));
    }
    for c in it: s.chars()
        invariant
            it.seq() == s@,
            forall|i: int| 0 <= i < line@.len() ==> line@[i] != '\n',
            !held && line@.len() > 0 ==> line@.last() != '\r',
            lines_of(s@) == texts(list@) + lines_of(
                line@ + (if held {
                    seq!['\r']
                } else {
                    Seq::empty()
                }) + s@.skip(it.index() as int),
            ),
    {
        let ghost rest = s@.skip(it.index() as int);
        let ghost next = s@.skip(it.index() + 1);
        let ghost pending = if held {
            seq!['\r']
        } else {
            Seq::<char>::empty()
        };
        let ghost open = line@ + pending;
        assert(rest =~= seq![c] + next);
        if c == '\n' {
            proof {
                let whole = open + rest;
                assert(whole =~= open + seq!['\n'] + next);
                lemma_line_end_found(open, next);
                assert(whole.take(open.len() as int) =~= open);
                assert(whole.skip(open.len() as int + 1) =~= next);
                assert(without_return(open) =~= line@);
                assert(texts(list@.push(line)) =~= texts(list@) + seq![line@]);
                assert(lines_of(whole) == seq![line@] + lines_of(next));
                assert(Seq::<char>::empty() + Seq::<char>::empty() + next =~= next);
            }
            list.push(line);
            line = String::new();
            held = false;
        } else {
            if held {
                push_char(&mut line, '\r');
            }
            if c == '\r' {
                held = true;
                assert(line@ + seq!['\r'] + next =~= open + rest);
            } else {
                held = false;
                push_char(&mut line, c);
                assert(line@ + Seq::<char>::empty() + next =~= open + rest);
            }
        }
    }
    let ghost open = line@ + (if held {
        seq!['\r']
    } else {
        Seq::<char>::empty()
    });
    proof {
        assert(s@.skip(s@.len() as int) =~= Seq::<char>::empty());
        assert(open + s@.skip(s@.len() as int) =~= open);
    }
    if held {
        push_char(&mut line, '\r');
    }
    assert(line@ =~= open);
    if line.as_str().unicode_len() > 0 {
        proof {
            lemma_line_end_none(line@);
            assert(texts(list@.push(line)) =~= texts(list@) + seq![line@]);
        }
        list.push(line);
    } else {
        proof {
            assert(texts(list@) + Seq::<Seq<char>>::empty() =~= texts(list@));
        }
    }
    list
}

} // verus!
