//! Text as sequences of characters.

use crate::timeline::views;
use vstd::prelude::*;

verus! {

/// `String::push` appends one character.
pub assume_specification[ String::push ](s: &mut String, c: char)
    ensures
        final(s)@ == old(s)@.push(c),
;

/// The text in lower case, as the standard library turns each character.
pub uninterp spec fn lowercase(s: Seq<char>) -> Seq<char>;

/// `str::to_lowercase` gives the text in lower case.
pub assume_specification[ str::to_lowercase ](s: &str) -> (r: String)
    ensures
        r@ == lowercase(s@),
;

/// The characters of a string.
pub fn chars_of(s: &str) -> (r: Vec<char>)
    ensures
        r@ == s@,
{
    let mut r: Vec<char> = Vec::new();
    for c in it: s.chars()
        invariant
            r@ == it.seq().take(it.index() as int),
            it.seq() == s@,
    {
        r.push(c);
        assert(r@ =~= it.seq().take(it.index() + 1));
    }
    assert(r@ =~= s@);
    r
}

/// The string of some characters.
pub fn string_of(cs: &Vec<char>) -> (r: String)
    ensures
        r@ == cs@,
{
    let mut r: String = String::new();
    let mut i: usize = 0;
    assert(r@ =~= cs@.take(0));
    while i < cs.len()
        invariant
            i <= cs.len(),
            r@ == cs@.take(i as int),
        decreases cs.len() - i,
    {
        r.push(cs[i]);
        i = i + 1;
        assert(r@ =~= cs@.take(i as int));
    }
    assert(r@ =~= cs@);
    r
}

/// Whether two texts are the same.
pub fn same_text(a: &str, b: &str) -> (r: bool)
    ensures
        r == (a@ == b@),
{
    let x: Vec<char> = chars_of(a);
    let y: Vec<char> = chars_of(b);
    if x.len() != y.len() {
        return false;
    }
    let mut i: usize = 0;
    while i < x.len()
        invariant
            i <= x.len(),
            x.len() == y.len(),
            x@ == a@,
            y@ == b@,
            forall|k: int| 0 <= k < i ==> x@[k] == y@[k],
        decreases x.len() - i,
    {
        if x[i] != y[i] {
            return false;
        }
        i = i + 1;
    }
    assert(x@ =~= y@);
    true
}

/// A piece of some characters.
pub fn piece(cs: &Vec<char>, from: usize, to: usize) -> (r: Vec<char>)
    requires
        from <= to <= cs.len(),
    ensures
        r@ == cs@.subrange(from as int, to as int),
{
    let mut r: Vec<char> = Vec::new();
    let mut i: usize = from;
    while i < to
        invariant
            from <= i <= to <= cs.len(),
            r@ == cs@.subrange(from as int, i as int),
        decreases to - i,
    {
        r.push(cs[i]);
        i = i + 1;
        assert(r@ =~= cs@.subrange(from as int, i as int));
    }
    r
}

/// Appends all the characters of `more`.
pub fn extend(cs: &mut Vec<char>, more: &Vec<char>)
    ensures
        final(cs)@ == old(cs)@ + more@,
{
    let mut i: usize = 0;
    while i < more.len()
        invariant
            i <= more.len(),
            cs@ == old(cs)@ + more@.take(i as int),
        decreases more.len() - i,
    {
        cs.push(more[i]);
        i = i + 1;
        assert(cs@ =~= old(cs)@ + more@.take(i as int));
    }
    assert(cs@ =~= old(cs)@ + more@);
}

pub open spec fn digit_char(d: int) -> char {
    if d == 0 {
        '0'
    } else if d == 1 {
        '1'
    } else if d == 2 {
        '2'
    } else if d == 3 {
        '3'
    } else if d == 4 {
        '4'
    } else if d == 5 {
        '5'
    } else if d == 6 {
        '6'
    } else if d == 7 {
        '7'
    } else if d == 8 {
        '8'
    } else {
        '9'
    }
}

/// The value of a decimal digit.
pub open spec fn digit_value(c: char) -> Option<int> {
    match c {
        '0' => Some(0),
        '1' => Some(1),
        '2' => Some(2),
        '3' => Some(3),
        '4' => Some(4),
        '5' => Some(5),
        '6' => Some(6),
        '7' => Some(7),
        '8' => Some(8),
        '9' => Some(9),
        _ => None,
    }
}

pub fn digit_of(c: char) -> (r: Option<u8>)
    ensures
        match digit_value(c) {
            Some(v) => r.is_some() && r.unwrap() == v,
            None => r.is_none(),
        },
{
    match c {
        '0' => Some(0),
        '1' => Some(1),
        '2' => Some(2),
        '3' => Some(3),
        '4' => Some(4),
        '5' => Some(5),
        '6' => Some(6),
        '7' => Some(7),
        '8' => Some(8),
        '9' => Some(9),
        _ => None,
    }
}

fn char_of_digit(d: u128) -> (c: char)
    requires
        d < 10,
    ensures
        c == digit_char(d as int),
{
    match d {
        0 => '0',
        1 => '1',
        2 => '2',
        3 => '3',
        4 => '4',
        5 => '5',
        6 => '6',
        7 => '7',
        8 => '8',
        _ => '9',
    }
}

/// A natural number in decimal.
pub open spec fn decimal(n: nat) -> Seq<char>
    decreases n,
{
    if n < 10 {
        seq![digit_char(n as int)]
    } else {
        decimal(n / 10).push(digit_char((n % 10) as int))
    }
}

/// A natural number in decimal, with a zero in front where it has one digit.
pub open spec fn two_digits(n: nat) -> Seq<char> {
    if n < 10 {
        seq!['0'] + decimal(n)
    } else {
        decimal(n)
    }
}

pub fn decimal_chars(n: u128) -> (r: Vec<char>)
    ensures
        r@ == decimal(n as nat),
    decreases n,
{
    if n < 10 {
        let r: Vec<char> = vec![char_of_digit(n)];
        assert(r@ =~= seq![digit_char(n as int)]);
        r
    } else {
        let mut r: Vec<char> = decimal_chars(n / 10);
        r.push(char_of_digit(n % 10));
        r
    }
}

pub fn decimal_string(n: u128) -> (r: String)
    ensures
        r@ == decimal(n as nat),
{
    string_of(&decimal_chars(n))
}

pub fn two_digit_string(n: u128) -> (r: String)
    ensures
        r@ == two_digits(n as nat),
{
    if n < 10 {
        let mut cs: Vec<char> = vec!['0'];
        extend(&mut cs, &decimal_chars(n));
        proof {
            assert(cs@ =~= seq!['0'] + decimal(n as nat));
        }
        string_of(&cs)
    } else {
        decimal_string(n)
    }
}

/// The characters that count as white space.
pub open spec fn is_space(c: char) -> bool {
    ||| '\u{9}' <= c && c <= '\u{d}'
    ||| c == ' '
    ||| c == '\u{85}'
    ||| c == '\u{a0}'
    ||| c == '\u{1680}'
    ||| '\u{2000}' <= c && c <= '\u{200a}'
    ||| c == '\u{2028}'
    ||| c == '\u{2029}'
    ||| c == '\u{202f}'
    ||| c == '\u{205f}'
    ||| c == '\u{3000}'
}

pub fn space(c: char) -> (r: bool)
    ensures
        r == is_space(c),
{
    ('\u{9}' <= c && c <= '\u{d}') || c == ' ' || c == '\u{85}' || c == '\u{a0}' || c == '\u{1680}'
        || ('\u{2000}' <= c && c <= '\u{200a}') || c == '\u{2028}' || c == '\u{2029}' || c
        == '\u{202f}' || c == '\u{205f}' || c == '\u{3000}'
}

/// Without leading white space.
pub open spec fn trimmed_start(s: Seq<char>) -> Seq<char>
    decreases s.len(),
{
    if s.len() > 0 && is_space(s[0]) {
        trimmed_start(s.drop_first())
    } else {
        s
    }
}

/// Without trailing white space.
pub open spec fn trimmed_end(s: Seq<char>) -> Seq<char>
    decreases s.len(),
{
    if s.len() > 0 && is_space(s.last()) {
        trimmed_end(s.drop_last())
    } else {
        s
    }
}

pub open spec fn trimmed(s: Seq<char>) -> Seq<char> {
    trimmed_end(trimmed_start(s))
}

pub fn trim_start(cs: &Vec<char>) -> (r: Vec<char>)
    ensures
        r@ == trimmed_start(cs@),
{
    let mut i: usize = 0;
    assert(cs@.skip(0) =~= cs@);
    while i < cs.len() && space(cs[i])
        invariant
            i <= cs.len(),
            trimmed_start(cs@) == trimmed_start(cs@.skip(i as int)),
        decreases cs.len() - i,
    {
        assert(cs@.skip(i as int).drop_first() =~= cs@.skip(i + 1));
        i = i + 1;
    }
    assert(cs@.skip(i as int) =~= cs@.subrange(i as int, cs.len() as int));
    piece(cs, i, cs.len())
}

pub fn trim_end(cs: &Vec<char>) -> (r: Vec<char>)
    ensures
        r@ == trimmed_end(cs@),
{
    let mut i: usize = cs.len();
    assert(cs@.take(i as int) =~= cs@);
    while i > 0 && space(cs[i - 1])
        invariant
            i <= cs.len(),
            trimmed_end(cs@) == trimmed_end(cs@.take(i as int)),
        decreases i,
    {
        assert(cs@.take(i as int).drop_last() =~= cs@.take(i - 1));
        i = i - 1;
    }
    assert(cs@.take(i as int) =~= cs@.subrange(0, i as int));
    piece(cs, 0, i)
}

pub fn trim(cs: &Vec<char>) -> (r: Vec<char>)
    ensures
        r@ == trimmed(cs@),
{
    trim_end(&trim_start(cs))
}

/// `pat` stands in `s` at place `i`.
pub open spec fn occurs_at(s: Seq<char>, pat: Seq<char>, i: int) -> bool {
    0 <= i && i + pat.len() <= s.len() && s.subrange(i, i + pat.len()) == pat
}

/// The first place from `from` on at which `pat` stands in `s`.
pub open spec fn first_at(s: Seq<char>, pat: Seq<char>, from: int) -> Option<int>
    decreases s.len() + 1 - from,
{
    if from < 0 || from > s.len() {
        None
    } else if occurs_at(s, pat, from) {
        Some(from)
    } else {
        first_at(s, pat, from + 1)
    }
}

pub open spec fn contains(s: Seq<char>, pat: Seq<char>) -> bool {
    exists|i: int| occurs_at(s, pat, i)
}

pub open spec fn starts_with(s: Seq<char>, pat: Seq<char>) -> bool {
    occurs_at(s, pat, 0)
}

pub open spec fn ends_with(s: Seq<char>, pat: Seq<char>) -> bool {
    occurs_at(s, pat, s.len() - pat.len())
}

pub proof fn lemma_first_at(s: Seq<char>, pat: Seq<char>, from: int)
    requires
        0 <= from,
    ensures
        match first_at(s, pat, from) {
            Some(i) => {
                &&& from <= i
                &&& occurs_at(s, pat, i)
                &&& forall|j: int| from <= j < i ==> !occurs_at(s, pat, j)
            },
            None => forall|j: int| from <= j ==> !occurs_at(s, pat, j),
        },
    decreases s.len() + 1 - from,
{
    if from <= s.len() && !occurs_at(s, pat, from) {
        lemma_first_at(s, pat, from + 1);
    }
}

fn stands_at(cs: &Vec<char>, pat: &Vec<char>, i: usize) -> (r: bool)
    requires
        i <= cs.len(),
    ensures
        r == occurs_at(cs@, pat@, i as int),
{
    if cs.len() - i < pat.len() {
        return false;
    }
    let mut j: usize = 0;
    while j < pat.len()
        invariant
            j <= pat.len(),
            i + pat.len() <= cs.len(),
            forall|k: int| 0 <= k < j ==> cs@[i + k] == pat@[k],
        decreases pat.len() - j,
    {
        if cs[i + j] != pat[j] {
            assert(cs@.subrange(i as int, i + pat.len())[j as int] != pat@[j as int]);
            return false;
        }
        j = j + 1;
    }
    assert(cs@.subrange(i as int, i + pat.len()) =~= pat@);
    true
}

pub fn find(cs: &Vec<char>, pat: &Vec<char>, from: usize) -> (r: Option<usize>)
    requires
        from <= cs.len(),
    ensures
        match first_at(cs@, pat@, from as int) {
            Some(i) => r.is_some() && r.unwrap() == i && i + pat.len() <= cs.len(),
            None => r.is_none(),
        },
{
    let mut i: usize = from;
    loop
        invariant
            from <= i <= cs.len(),
            first_at(cs@, pat@, from as int) == first_at(cs@, pat@, i as int),
        decreases cs.len() - i,
    {
        if stands_at(cs, pat, i) {
            return Some(i);
        }
        if i == cs.len() {
            assert(first_at(cs@, pat@, i + 1).is_none());
            return None;
        }
        i = i + 1;
    }
}

pub fn has(cs: &Vec<char>, pat: &Vec<char>) -> (r: bool)
    ensures
        r == contains(cs@, pat@),
{
    proof {
        lemma_first_at(cs@, pat@, 0);
    }
    find(cs, pat, 0).is_some()
}

pub fn begins_with(cs: &Vec<char>, pat: &Vec<char>) -> (r: bool)
    ensures
        r == starts_with(cs@, pat@),
{
    stands_at(cs, pat, 0)
}

pub fn finishes_with(cs: &Vec<char>, pat: &Vec<char>) -> (r: bool)
    ensures
        r == ends_with(cs@, pat@),
{
    if cs.len() < pat.len() {
        false
    } else {
        stands_at(cs, pat, cs.len() - pat.len())
    }
}

pub proof fn lemma_first_at_shift(s: Seq<char>, pat: Seq<char>, by: int, from: int)
    requires
        0 <= by <= s.len(),
        0 <= from,
    ensures
        first_at(s, pat, by + from) == (match first_at(s.skip(by), pat, from) {
            Some(i) => Some(by + i),
            None => None,
        }),
    decreases s.len() + 1 - by - from,
{
    let t = s.skip(by);
    if from <= t.len() {
        if from + pat.len() <= t.len() {
            assert(t.subrange(from, from + pat.len()) =~= s.subrange(by + from, by + from + pat.len()));
        }
        assert(occurs_at(t, pat, from) == occurs_at(s, pat, by + from));
        if !occurs_at(t, pat, from) {
            lemma_first_at_shift(s, pat, by, from + 1);
        }
    }
}

/// The pieces of `s` between the places where `pat` stands.
pub open spec fn pieces(s: Seq<char>, pat: Seq<char>) -> Seq<Seq<char>>
    decreases s.len(),
{
    match first_at(s, pat, 0) {
        Some(i) => if pat.len() > 0 && 0 <= i && i + pat.len() <= s.len() {
            seq![s.take(i)] + pieces(s.skip(i + pat.len()), pat)
        } else {
            seq![s]
        },
        None => seq![s],
    }
}

pub fn split(cs: &Vec<char>, pat: &Vec<char>) -> (r: Vec<Vec<char>>)
    requires
        pat.len() > 0,
    ensures
        views(r@) == pieces(cs@, pat@),
{
    let mut r: Vec<Vec<char>> = Vec::new();
    let mut from: usize = 0;
    assert(cs@.skip(0) =~= cs@);
    assert(views(r@) + pieces(cs@, pat@) =~= pieces(cs@, pat@));
    loop
        invariant
            from <= cs.len(),
            pat.len() > 0,
            views(r@) + pieces(cs@.skip(from as int), pat@) == pieces(cs@, pat@),
        decreases cs.len() - from,
    {
        let ghost rest = cs@.skip(from as int);
        let ghost before = views(r@);
        proof {
            lemma_first_at_shift(cs@, pat@, from as int, 0);
            lemma_first_at(rest, pat@, 0);
        }
        match find(cs, pat, from) {
            Some(i) => {
                let part: Vec<char> = piece(cs, from, i);
                proof {
                    let k = i - from;
                    assert(rest.take(k) =~= part@);
                    assert(rest.skip(k + pat@.len()) =~= cs@.skip(i + pat@.len()));
                }
                r.push(part);
                from = i + pat.len();
                proof {
                    assert(views(r@) =~= before.push(part@));
                    assert(views(r@) + pieces(cs@.skip(from as int), pat@) =~= before + (seq![
                        part@,
                    ] + pieces(cs@.skip(from as int), pat@)));
                }
            },
            None => {
                let part: Vec<char> = piece(cs, from, cs.len());
                proof {
                    assert(part@ =~= rest);
                }
                r.push(part);
                proof {
                    assert(views(r@) =~= before + seq![rest]);
                }
                return r;
            },
        }
    }
}

/// The same text without a carriage return at its end.
pub open spec fn without_return(s: Seq<char>) -> Seq<char> {
    if s.len() > 0 && s.last() == '\r' {
        s.drop_last()
    } else {
        s
    }
}

/// The lines of a text: each ends at a newline, with a carriage return before it
/// or not; a last line needs no newline.
pub open spec fn lines(s: Seq<char>) -> Seq<Seq<char>>
    decreases s.len(),
{
    if s.len() == 0 {
        Seq::empty()
    } else {
        match first_at(s, seq!['\n'], 0) {
            Some(i) => if 0 <= i < s.len() {
                seq![without_return(s.take(i))] + lines(s.skip(i + 1))
            } else {
                seq![s]
            },
            None => seq![s],
        }
    }
}

pub fn split_lines(cs: &Vec<char>) -> (r: Vec<Vec<char>>)
    ensures
        views(r@) == lines(cs@),
{
    let newline: Vec<char> = vec!['\n'];
    assert(newline@ =~= seq!['\n']);
    let mut r: Vec<Vec<char>> = Vec::new();
    let mut from: usize = 0;
    assert(cs@.skip(0) =~= cs@);
    assert(views(r@) + lines(cs@) =~= lines(cs@));
    while from < cs.len()
        invariant
            from <= cs.len(),
            newline@ == seq!['\n'],
            views(r@) + lines(cs@.skip(from as int)) == lines(cs@),
        decreases cs.len() - from,
    {
        let ghost rest = cs@.skip(from as int);
        let ghost before = views(r@);
        proof {
            lemma_first_at_shift(cs@, newline@, from as int, 0);
            lemma_first_at(rest, newline@, 0);
        }
        match find(cs, &newline, from) {
            Some(i) => {
                let end: usize = if i > from && cs[i - 1] == '\r' {
                    i - 1
                } else {
                    i
                };
                let part: Vec<char> = piece(cs, from, end);
                proof {
                    let k = i - from;
                    let line = rest.take(k);
                    if k > 0 {
                        assert(line.last() == cs@[i - 1]);
                    }
                    assert(without_return(line) =~= part@);
                    assert(rest.skip(k + 1) =~= cs@.skip(i + 1));
                }
                r.push(part);
                from = i + 1;
                proof {
                    assert(views(r@) =~= before.push(part@));
                    assert(views(r@) + lines(cs@.skip(from as int)) =~= before + (seq![part@]
                        + lines(cs@.skip(from as int))));
                }
            },
            None => {
                let part: Vec<char> = piece(cs, from, cs.len());
                proof {
                    assert(part@ =~= rest);
                }
                r.push(part);
                proof {
                    assert(views(r@) =~= before + seq![rest]);
                }
                return r;
            },
        }
    }
    assert(cs@.skip(from as int) =~= Seq::empty());
    assert(views(r@) =~= lines(cs@));
    r
}

/// The lines with a newline between each two.
pub open spec fn joined(ls: Seq<Seq<char>>) -> Seq<char>
    decreases ls.len(),
{
    if ls.len() == 0 {
        Seq::empty()
    } else if ls.len() == 1 {
        ls[0]
    } else {
        joined(ls.drop_last()).push('\n') + ls.last()
    }
}

pub fn join_lines(ls: &Vec<Vec<char>>) -> (r: Vec<char>)
    ensures
        r@ == joined(views(ls@)),
{
    let ghost vs = views(ls@);
    let mut r: Vec<char> = Vec::new();
    let mut i: usize = 0;
    while i < ls.len()
        invariant
            i <= ls.len(),
            vs == views(ls@),
            r@ == joined(vs.take(i as int)),
        decreases ls.len() - i,
    {
        proof {
            assert(vs.take(i + 1).drop_last() =~= vs.take(i as int));
            assert(vs.take(i + 1).last() == ls@[i as int]@);
        }
        if i > 0 {
            r.push('\n');
        } else {
            assert(r@ + ls@[0]@ =~= ls@[0]@);
        }
        extend(&mut r, &ls[i]);
        i = i + 1;
    }
    assert(vs.take(ls.len() as int) =~= vs);
    r
}

/// The value of a run of decimal digits.
pub open spec fn digits_value(s: Seq<char>) -> Option<int>
    decreases s.len(),
{
    if s.len() == 0 {
        Some(0)
    } else {
        match (digits_value(s.drop_last()), digit_value(s.last())) {
            (Some(high), Some(low)) => Some(10 * high + low),
            _ => None,
        }
    }
}

/// The integer that a text stands for: decimal digits, with a sign in front or
/// not, within the range of `i64`.
pub open spec fn integer_value(s: Seq<char>) -> Option<int> {
    let negative = s.len() > 0 && s[0] == '-';
    let digits = if s.len() > 0 && (s[0] == '-' || s[0] == '+') {
        s.drop_first()
    } else {
        s
    };
    match digits_value(digits) {
        Some(n) => {
            let v = if negative {
                -n
            } else {
                n
            };
            if digits.len() > 0 && i64::MIN <= v <= i64::MAX {
                Some(v)
            } else {
                None
            }
        },
        None => None,
    }
}

proof fn lemma_digits_prefix(s: Seq<char>, i: int)
    requires
        0 <= i <= s.len(),
    ensures
        digits_value(s).is_some() ==> digits_value(s.take(i)).is_some(),
        match (digits_value(s), digits_value(s.take(i))) {
            (Some(all), Some(part)) => 0 <= part <= all,
            _ => true,
        },
    decreases s.len(),
{
    lemma_digits_nonnegative(s);
    if i == s.len() {
        assert(s.take(i) =~= s);
    } else {
        lemma_digits_prefix(s.drop_last(), i);
        assert(s.drop_last().take(i) =~= s.take(i));
        lemma_digits_nonnegative(s.drop_last());
    }
}

proof fn lemma_digits_nonnegative(s: Seq<char>)
    ensures
        match digits_value(s) {
            Some(v) => v >= 0,
            None => true,
        },
    decreases s.len(),
{
    if s.len() > 0 {
        lemma_digits_nonnegative(s.drop_last());
    }
}

/// Reads an integer.
pub fn parse_integer(cs: &Vec<char>) -> (r: Option<i64>)
    ensures
        match integer_value(cs@) {
            Some(v) => r.is_some() && r.unwrap() == v,
            None => r.is_none(),
        },
{
    let signed: bool = cs.len() > 0 && (cs[0] == '-' || cs[0] == '+');
    let negative: bool = cs.len() > 0 && cs[0] == '-';
    let start: usize = if signed {
        1
    } else {
        0
    };
    let ghost digits = if signed {
        cs@.drop_first()
    } else {
        cs@
    };
    proof {
        assert(digits =~= cs@.skip(start as int));
    }
    if start == cs.len() {
        return None;
    }
    let mut n: u64 = 0;
    let mut i: usize = start;
    proof {
        assert(digits.take(0) =~= Seq::empty());
    }
    while i < cs.len()
        invariant
            start <= i <= cs.len(),
            digits == cs@.skip(start as int),
            digits.len() == cs.len() - start,
            digits_value(digits.take(i - start)) == Some(n as int),
            n <= 0x8000_0000_0000_0000,
            signed == (cs.len() > 0 && (cs@[0] == '-' || cs@[0] == '+')),
            signed ==> digits == cs@.drop_first(),
            !signed ==> digits == cs@,
        decreases cs.len() - i,
    {
        let ghost k = i - start;
        proof {
            lemma_digits_prefix(digits, k + 1);
            assert(digits.take(k + 1).drop_last() =~= digits.take(k));
            assert(digits.take(k + 1).last() == cs@[i as int]);
        }
        match digit_of(cs[i]) {
            Some(d) => {
                if n > 0xccc_cccc_cccc_cccc {
                    return None;
                }
                n = n * 10 + d as u64;
                if n > 0x8000_0000_0000_0000 {
                    return None;
                }
            },
            None => {
                return None;
            },
        }
        i = i + 1;
    }
    proof {
        assert(digits.take(digits.len() as int) =~= digits);
    }
    if negative {
        if n == 0x8000_0000_0000_0000 {
            Some(i64::MIN)
        } else {
            Some(-(n as i64))
        }
    } else if n > 0x7fff_ffff_ffff_ffff {
        None
    } else {
        Some(n as i64)
    }
}

} // verus!
