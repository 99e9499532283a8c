//! Text clip content: SRT and VTT subtitle import, and plain text output.

use crate::exact::{
    law_integer_products_are_exact, law_integer_sums_are_exact, law_integers_are_exact,
    law_integers_come_back,
};
use crate::float::{double, negated, of_integer, product, sum, to_integer, Float64, Number, Toward};
use crate::strings::{
    begins_with, chars_of, contains, digit_of, digit_value, digits_value, first_at, has,
    integer_value, is_space, join_lines, joined, lemma_first_at, lines, occurs_at, parse_integer,
    piece, pieces, split, split_lines, starts_with, string_of, trim, trim_start, trimmed,
    trimmed_end, trimmed_start,
};
use crate::timeline::{views, Timecode};
use vstd::arithmetic::power2::lemma2_to64_rest;
use vstd::prelude::*;

verus! {

#[derive(Debug, Clone, PartialEq)]
pub struct Subtitle {
    pub start_us: i64,
    pub end_us: i64,
    pub text: String,
}

/// A subtitle with its text as a sequence of characters.
pub struct SubtitleView {
    pub start_us: i64,
    pub end_us: i64,
    pub text: Seq<char>,
}

impl View for Subtitle {
    type V = SubtitleView;

    open spec fn view(&self) -> SubtitleView {
        SubtitleView { start_us: self.start_us, end_us: self.end_us, text: self.text@ }
    }
}

/// The same text with a dot for each comma.
pub open spec fn dotted(s: Seq<char>) -> Seq<char> {
    Seq::new(
        s.len(),
        |i: int|
            if s[i] == ',' {
                '.'
            } else {
                s[i]
            },
    )
}

/// The last place of a dot among the first `n` characters.
pub open spec fn last_dot(s: Seq<char>, n: int) -> Option<int>
    decreases n,
{
    if n <= 0 {
        None
    } else if s[n - 1] == '.' {
        Some(n - 1)
    } else {
        last_dot(s, n - 1)
    }
}

/// Ten to the power `n`.
pub open spec fn power_of_ten(n: int) -> int
    decreases n,
{
    if n <= 0 {
        1
    } else {
        10 * power_of_ten(n - 1)
    }
}

/// Two characters are the same letter, whatever their case.
pub open spec fn is_letter(c: char, lower: char, upper: char) -> bool {
    c == lower || c == upper
}

/// The number that up to three characters without a dot stand for: digits with a
/// sign or not, a digit with a one-digit power of ten, an infinity or a NaN.
pub open spec fn fraction_number(f: Seq<char>) -> Option<Number> {
    let signed = f.len() > 0 && (f[0] == '-' || f[0] == '+');
    let digits = if signed {
        f.drop_first()
    } else {
        f
    };
    if digits.len() == 0 || f.len() > 3 {
        None
    } else {
        match digits_value(digits) {
            Some(n) => if signed && f[0] == '-' {
                Some(negated(of_integer(double(), n)))
            } else {
                Some(of_integer(double(), n))
            },
            None => if f.len() == 3 && digit_value(f[0]).is_some() && is_letter(f[1], 'e', 'E')
                && digit_value(f[2]).is_some() {
                Some(
                    of_integer(
                        double(),
                        digit_value(f[0]).unwrap() * power_of_ten(digit_value(f[2]).unwrap()),
                    ),
                )
            } else if f.len() == 3 && is_letter(f[0], 'i', 'I') && is_letter(f[1], 'n', 'N')
                && is_letter(f[2], 'f', 'F') {
                Some(Number::Infinite { negative: false })
            } else if f.len() == 3 && is_letter(f[0], 'n', 'N') && is_letter(f[1], 'a', 'A')
                && is_letter(f[2], 'n', 'N') {
                Some(Number::Nan)
            } else {
                None
            },
        }
    }
}

/// The integers among some texts, white space around them left out.
pub open spec fn numbers(ps: Seq<Seq<char>>) -> Seq<i64>
    decreases ps.len(),
{
    if ps.len() == 0 {
        Seq::empty()
    } else {
        let before = numbers(ps.drop_last());
        match integer_value(trimmed(ps.last())) {
            Some(v) => before.push(v as i64),
            None => before,
        }
    }
}

/// Seconds, or minutes and seconds, or hours, minutes and seconds.
pub open spec fn total_seconds(parts: Seq<i64>) -> i64 {
    let n = parts.len();
    let s = parts[n - 1];
    let ms = if n >= 2 {
        s.wrapping_add(parts[n - 2].wrapping_mul(60))
    } else {
        s
    };
    if n >= 3 {
        ms.wrapping_add(parts[n - 3].wrapping_mul(3600))
    } else {
        ms
    }
}

/// The microseconds of some seconds and thousandths.
pub open spec fn microseconds(secs: i64, millis: Number) -> int {
    to_integer(
        double(),
        Toward::Zero,
        sum(
            double(),
            product(double(), of_integer(double(), secs as int), of_integer(double(), 1_000_000)),
            product(double(), millis, of_integer(double(), 1000)),
        ),
        i64::MIN as int,
        i64::MAX as int,
    )
}

/// The part of a timestamp before the last dot, and up to three characters after
/// it; three zeros where it has no dot.
pub open spec fn timestamp_parts(t: Seq<char>) -> (Seq<char>, Seq<char>) {
    match last_dot(t, t.len() as int) {
        Some(i) => {
            let f = t.skip(i + 1);
            (t.take(i), if f.len() > 3 { f.take(3) } else { f })
        },
        None => (t, seq!['0', '0', '0']),
    }
}

/// The time that a timestamp stands for: `mm:ss,mmm`, `hh:mm:ss,mmm`, `ss.mmm` or
/// `hh:mm:ss.mmm`.
pub open spec fn timestamp(s: Seq<char>) -> Option<int> {
    let (hms, frac) = timestamp_parts(dotted(s));
    let parts = numbers(pieces(hms, seq![':']));
    match fraction_number(frac) {
        Some(millis) => if parts.len() == 0 {
            None
        } else {
            Some(microseconds(total_seconds(parts), millis))
        },
        None => None,
    }
}

/// The two times around the first arrow of a line.
pub open spec fn time_range(s: Seq<char>) -> Option<(int, int)> {
    let parts = pieces(s, seq!['-', '-', '>']);
    if parts.len() < 2 {
        None
    } else {
        match (timestamp(trimmed(parts[0])), timestamp(trimmed(parts[1]))) {
            (Some(start), Some(end)) => Some((start, end)),
            _ => None,
        }
    }
}

pub open spec fn has_arrow(line: Seq<char>) -> bool {
    contains(line, seq!['-', '-', '>'])
}

/// The cue with a line of times and some lines of text; none without times or text.
pub open spec fn cue_of(times: Seq<char>, text: Seq<Seq<char>>) -> Option<SubtitleView> {
    match time_range(times) {
        Some((start, end)) => {
            let t = trimmed(joined(text));
            if t.len() == 0 {
                None
            } else {
                Some(SubtitleView { start_us: start as i64, end_us: end as i64, text: t })
            }
        },
        None => None,
    }
}

/// The cue of an SRT block: an index line, a line of times, and text. The index may be
/// missing: a first line that holds times is the line of times.
pub open spec fn srt_cue(block: Seq<char>) -> Option<SubtitleView> {
    let ls = lines(trimmed(block));
    if ls.len() > 0 && time_range(ls[0]).is_some() {
        cue_of(ls[0], ls.skip(1))
    } else if ls.len() < 2 {
        None
    } else {
        cue_of(ls[1], ls.skip(2))
    }
}

/// The place of the first line with an arrow, from the `i`th on; the number of lines
/// where there is none.
pub open spec fn arrow_line(ls: Seq<Seq<char>>, i: int) -> int
    decreases ls.len() - i,
{
    if i < 0 || i >= ls.len() {
        ls.len() as int
    } else if has_arrow(ls[i]) {
        i
    } else {
        arrow_line(ls, i + 1)
    }
}

/// The lines without an arrow.
pub open spec fn plain_lines(ls: Seq<Seq<char>>) -> Seq<Seq<char>>
    decreases ls.len(),
{
    if ls.len() == 0 {
        Seq::empty()
    } else {
        let before = plain_lines(ls.drop_last());
        if has_arrow(ls.last()) {
            before
        } else {
            before.push(ls.last())
        }
    }
}

/// The cue of a VTT block: a line of times, and the lines without an arrow as text. Where
/// the times stand in the second line, the first is the index of an SRT cue and no text.
/// Headers and notes hold no cue.
pub open spec fn vtt_cue(block: Seq<char>) -> Option<SubtitleView> {
    let b = trimmed(block);
    let ls = lines(b);
    let at = arrow_line(ls, 0);
    if b.len() == 0 || starts_with(b, "WEBVTT"@) || contains(b, "NOTE"@) || at >= ls.len() {
        None
    } else {
        cue_of(
            ls[at],
            plain_lines(
                ls.skip(
                    if at == 1 {
                        1
                    } else {
                        0
                    },
                ),
            ),
        )
    }
}

pub open spec fn srt_cues(blocks: Seq<Seq<char>>) -> Seq<SubtitleView>
    decreases blocks.len(),
{
    if blocks.len() == 0 {
        Seq::empty()
    } else {
        let before = srt_cues(blocks.drop_last());
        match srt_cue(blocks.last()) {
            Some(cue) => before.push(cue),
            None => before,
        }
    }
}

pub open spec fn vtt_cues(blocks: Seq<Seq<char>>) -> Seq<SubtitleView>
    decreases blocks.len(),
{
    if blocks.len() == 0 {
        Seq::empty()
    } else {
        let before = vtt_cues(blocks.drop_last());
        match vtt_cue(blocks.last()) {
            Some(cue) => before.push(cue),
            None => before,
        }
    }
}

/// The blocks of a subtitle file, separated by empty lines.
pub open spec fn blocks(input: Seq<char>) -> Seq<Seq<char>> {
    pieces(input, seq!['\n', '\n'])
}

/// The subtitles of a file of either format, told apart by its first word.
pub open spec fn subtitles(input: Seq<char>) -> Seq<SubtitleView> {
    if starts_with(trimmed_start(input), "WEBVTT"@) {
        vtt_cues(blocks(input))
    } else {
        srt_cues(blocks(input))
    }
}

fn power_ten(n: u8) -> (r: i64)
    requires
        n <= 9,
    ensures
        r == power_of_ten(n as int),
        1 <= r <= 1_000_000_000,
{
    let mut r: i64 = 1;
    let mut i: u8 = 0;
    proof {
        lemma_power_of_ten_bound(0);
    }
    while i < n
        invariant
            i <= n <= 9,
            r == power_of_ten(i as int),
            1 <= r <= 1_000_000_000,
        decreases n - i,
    {
        proof {
            lemma_power_of_ten_bound(i + 1);
        }
        r = r * 10;
        i = i + 1;
    }
    r
}

proof fn lemma_power_of_ten_bound(n: int)
    requires
        0 <= n <= 9,
    ensures
        1 <= power_of_ten(n) <= 1_000_000_000,
        power_of_ten(9) == 1_000_000_000,
{
    assert(power_of_ten(1) == 10 * power_of_ten(0));
    assert(power_of_ten(2) == 10 * power_of_ten(1));
    assert(power_of_ten(3) == 10 * power_of_ten(2));
    assert(power_of_ten(4) == 10 * power_of_ten(3));
    assert(power_of_ten(5) == 10 * power_of_ten(4));
    assert(power_of_ten(6) == 10 * power_of_ten(5));
    assert(power_of_ten(7) == 10 * power_of_ten(6));
    assert(power_of_ten(8) == 10 * power_of_ten(7));
    assert(power_of_ten(9) == 10 * power_of_ten(8));
}

fn digits_number(cs: &Vec<char>, from: usize) -> (r: Option<u64>)
    requires
        from <= cs.len(),
        cs.len() - from <= 3,
    ensures
        match digits_value(cs@.skip(from as int)) {
            Some(v) => r.is_some() && r.unwrap() == v && v <= 999,
            None => r.is_none(),
        },
{
    let ghost ds = cs@.skip(from as int);
    let mut n: u64 = 0;
    let mut i: usize = from;
    assert(ds.take(0) =~= Seq::empty());
    while i < cs.len()
        invariant
            from <= i <= cs.len(),
            cs.len() - from <= 3,
            ds == cs@.skip(from as int),
            digits_value(ds.take(i - from)) == Some(n as int),
            i == from ==> n == 0,
            i == from + 1 ==> n <= 9,
            i == from + 2 ==> n <= 99,
            n <= 999,
        decreases cs.len() - i,
    {
        proof {
            lemma_digits_need_digits(ds, i - from);
            assert(ds.take(i - from + 1).drop_last() =~= ds.take(i - from));
            assert(ds.take(i - from + 1).last() == cs@[i as int]);
        }
        match digit_of(cs[i]) {
            Some(d) => {
                n = n * 10 + d as u64;
            },
            None => {
                return None;
            },
        }
        i = i + 1;
    }
    assert(ds.take(cs.len() - from) =~= ds);
    Some(n)
}

proof fn lemma_digits_need_digits(s: Seq<char>, i: int)
    requires
        0 <= i < s.len(),
    ensures
        digit_value(s[i]).is_none() ==> digits_value(s).is_none(),
    decreases s.len(),
{
    if i < s.len() - 1 {
        lemma_digits_need_digits(s.drop_last(), i);
    }
}

fn letter(c: char, lower: char, upper: char) -> (r: bool)
    ensures
        r == is_letter(c, lower, upper),
{
    c == lower || c == upper
}

/// Reads up to three characters as a number.
fn parse_fraction(f: &Vec<char>) -> (r: Option<Float64>)
    ensures
        match fraction_number(f@) {
            Some(n) => r.is_some() && r.unwrap()@ == n,
            None => r.is_none(),
        },
{
    let signed: bool = f.len() > 0 && (f[0] == '-' || f[0] == '+');
    let from: usize = if signed {
        1
    } else {
        0
    };
    proof {
        if signed {
            assert(f@.skip(1) =~= f@.drop_first());
        } else {
            assert(f@.skip(0) =~= f@);
        }
    }
    if f.len() > 3 || f.len() == from {
        return None;
    }
    if let Some(n) = digits_number(f, from) {
        let v: Float64 = Float64::from_u64(n);
        return if signed && f[0] == '-' {
            Some(v.negate())
        } else {
            Some(v)
        };
    }
    if f.len() == 3 {
        if let (Some(d), Some(e)) = (digit_of(f[0]), digit_of(f[2])) {
            if letter(f[1], 'e', 'E') {
                let p: i64 = power_ten(e);
                assert(d as int * p as int <= 9 * 1_000_000_000) by (nonlinear_arith)
                    requires
                        0 <= d <= 9,
                        1 <= p <= 1_000_000_000,
                ;
                assert(0 <= d as int * p as int) by (nonlinear_arith)
                    requires
                        0 <= d,
                        1 <= p,
                ;
                return Some(Float64::from_i64(d as i64 * p));
            }
        }
        if letter(f[0], 'i', 'I') && letter(f[1], 'n', 'N') && letter(f[2], 'f', 'F') {
            return Some(Float64::infinity());
        }
        if letter(f[0], 'n', 'N') && letter(f[1], 'a', 'A') && letter(f[2], 'n', 'N') {
            return Some(Float64::nan());
        }
    }
    None
}

fn dot_commas(cs: &Vec<char>) -> (r: Vec<char>)
    ensures
        r@ == dotted(cs@),
{
    let mut r: Vec<char> = Vec::new();
    let mut i: usize = 0;
    while i < cs.len()
        invariant
            i <= cs.len(),
            r@ == dotted(cs@).take(i as int),
        decreases cs.len() - i,
    {
        r.push(
            if cs[i] == ',' {
                '.'
            } else {
                cs[i]
            },
        );
        i = i + 1;
        assert(r@ =~= dotted(cs@).take(i as int));
    }
    assert(r@ =~= dotted(cs@));
    r
}

fn find_last_dot(cs: &Vec<char>) -> (r: Option<usize>)
    ensures
        match last_dot(cs@, cs.len() as int) {
            Some(i) => r.is_some() && r.unwrap() == i && i < cs.len(),
            None => r.is_none(),
        },
{
    let mut n: usize = cs.len();
    while n > 0
        invariant
            n <= cs.len(),
            last_dot(cs@, cs.len() as int) == last_dot(cs@, n as int),
        decreases n,
    {
        if cs[n - 1] == '.' {
            return Some(n - 1);
        }
        n = n - 1;
    }
    None
}

fn parse_numbers(ps: &Vec<Vec<char>>) -> (r: Vec<i64>)
    ensures
        r@ == numbers(views(ps@)),
{
    let ghost vs = views(ps@);
    let mut r: Vec<i64> = Vec::new();
    let mut i: usize = 0;
    while i < ps.len()
        invariant
            i <= ps.len(),
            vs == views(ps@),
            r@ == numbers(vs.take(i as int)),
        decreases ps.len() - i,
    {
        proof {
            assert(vs.take(i + 1).drop_last() =~= vs.take(i as int));
            assert(vs.take(i + 1).last() == ps@[i as int]@);
        }
        if let Some(v) = parse_integer(&trim(&ps[i])) {
            r.push(v);
        }
        i = i + 1;
    }
    assert(vs.take(ps.len() as int) =~= vs);
    r
}

fn read_timestamp(s: &Vec<char>) -> (r: Option<i64>)
    ensures
        match timestamp(s@) {
            Some(t) => r.is_some() && r.unwrap() == t,
            None => r.is_none(),
        },
{
    let t: Vec<char> = dot_commas(s);
    let (hms, frac): (Vec<char>, Vec<char>) = match find_last_dot(&t) {
        Some(i) => {
            let end: usize = if t.len() - i > 4 {
                i + 4
            } else {
                t.len()
            };
            let h: Vec<char> = piece(&t, 0, i);
            let f: Vec<char> = piece(&t, i + 1, end);
            proof {
                assert(h@ =~= t@.take(i as int));
                let all = t@.skip(i + 1);
                assert(f@ =~= (if all.len() > 3 {
                    all.take(3)
                } else {
                    all
                }));
            }
            (h, f)
        },
        None => {
            let zeros: Vec<char> = vec!['0', '0', '0'];
            proof {
                assert(zeros@ =~= seq!['0', '0', '0']);
            }
            (t, zeros)
        },
    };
    let millis: Float64 = match parse_fraction(&frac) {
        Some(m) => m,
        None => {
            return None;
        },
    };
    let colon: Vec<char> = vec![':'];
    assert(colon@ =~= seq![':']);
    let parts: Vec<i64> = parse_numbers(&split(&hms, &colon));
    let n: usize = parts.len();
    if n == 0 {
        return None;
    }
    let mut secs: i64 = parts[n - 1];
    if n >= 2 {
        secs = secs.wrapping_add(parts[n - 2].wrapping_mul(60));
    }
    if n >= 3 {
        secs = secs.wrapping_add(parts[n - 3].wrapping_mul(3600));
    }
    let us: Float64 = Float64::from_i64(secs).times(Float64::from_i64(1_000_000)).plus(
        millis.times(Float64::from_i64(1000)),
    );
    Some(us.to_i64(Toward::Zero))
}

/// Parses one timestamp. Hours, minutes and seconds that do not fit into 64 bits
/// wrap around.
pub fn parse_timestamp(s: &str) -> (r: Option<i64>)
    ensures
        match timestamp(s@) {
            Some(t) => r.is_some() && r.unwrap() == t,
            None => r.is_none(),
        },
{
    read_timestamp(&chars_of(s))
}

fn read_time_range(s: &Vec<char>) -> (r: Option<(i64, i64)>)
    ensures
        match time_range(s@) {
            Some((start, end)) => r.is_some() && r.unwrap().0 == start && r.unwrap().1 == end,
            None => r.is_none(),
        },
{
    let arrow: Vec<char> = vec!['-', '-', '>'];
    assert(arrow@ =~= seq!['-', '-', '>']);
    let parts: Vec<Vec<char>> = split(s, &arrow);
    let ghost ps = pieces(s@, seq!['-', '-', '>']);
    assert(ps.len() == parts.len());
    if parts.len() < 2 {
        return None;
    }
    assert(ps[0] == parts@[0]@);
    assert(ps[1] == parts@[1]@);
    match (read_timestamp(&trim(&parts[0])), read_timestamp(&trim(&parts[1]))) {
        (Some(start), Some(end)) => Some((start, end)),
        _ => None,
    }
}

/// Parses the two times of a cue.
pub fn parse_time_range(s: &str) -> (r: Option<(i64, i64)>)
    ensures
        match time_range(s@) {
            Some((start, end)) => r.is_some() && r.unwrap().0 == start && r.unwrap().1 == end,
            None => r.is_none(),
        },
{
    read_time_range(&chars_of(s))
}

fn lines_from(ls: &Vec<Vec<char>>, from: usize) -> (r: Vec<Vec<char>>)
    requires
        from <= ls.len(),
    ensures
        views(r@) == views(ls@).skip(from as int),
{
    let mut r: Vec<Vec<char>> = Vec::new();
    let mut i: usize = from;
    while i < ls.len()
        invariant
            from <= i <= ls.len(),
            r.len() == i - from,
            forall|k: int| 0 <= k < r.len() ==> (#[trigger] r@[k])@ == ls@[from + k]@,
        decreases ls.len() - i,
    {
        let line: Vec<char> = piece(&ls[i], 0, ls[i].len());
        proof {
            assert(line@ =~= ls@[i as int]@);
        }
        r.push(line);
        i = i + 1;
    }
    assert(views(r@) =~= views(ls@).skip(from as int));
    r
}

fn make_cue(times: &Vec<char>, text: &Vec<Vec<char>>) -> (r: Option<Subtitle>)
    ensures
        match cue_of(times@, views(text@)) {
            Some(cue) => r.is_some() && r.unwrap()@ == cue,
            None => r.is_none(),
        },
{
    match read_time_range(times) {
        Some((start, end)) => {
            let t: Vec<char> = trim(&join_lines(text));
            if t.len() == 0 {
                None
            } else {
                Some(Subtitle { start_us: start, end_us: end, text: string_of(&t) })
            }
        },
        None => None,
    }
}

fn read_srt_cue(block: &Vec<char>) -> (r: Option<Subtitle>)
    ensures
        match srt_cue(block@) {
            Some(cue) => r.is_some() && r.unwrap()@ == cue,
            None => r.is_none(),
        },
{
    let ls: Vec<Vec<char>> = split_lines(&trim(block));
    let ghost vs = lines(trimmed(block@));
    assert(vs.len() == ls.len());
    if ls.len() == 0 {
        return None;
    }
    assert(vs[0] == ls@[0]@);
    if read_time_range(&ls[0]).is_some() {
        return make_cue(&ls[0], &lines_from(&ls, 1));
    }
    if ls.len() < 2 {
        return None;
    }
    assert(vs[1] == ls@[1]@);
    make_cue(&ls[1], &lines_from(&ls, 2))
}

/// Parses SRT subtitle data: blocks of an index, which may be missing, a line of times,
/// and text.
pub fn parse_srt(input: &str) -> (subs: Vec<Subtitle>)
    ensures
        views(subs@) == srt_cues(blocks(input@)),
{
    let blank: Vec<char> = vec!['\n', '\n'];
    assert(blank@ =~= seq!['\n', '\n']);
    let parts: Vec<Vec<char>> = split(&chars_of(input), &blank);
    let ghost vs = blocks(input@);
    let mut subs: Vec<Subtitle> = Vec::new();
    let mut i: usize = 0;
    assert(views(subs@) =~= srt_cues(vs.take(0)));
    while i < parts.len()
        invariant
            i <= parts.len(),
            vs == views(parts@),
            views(subs@) == srt_cues(vs.take(i as int)),
        decreases parts.len() - i,
    {
        proof {
            assert(vs.take(i + 1).drop_last() =~= vs.take(i as int));
            assert(vs.take(i + 1).last() == parts@[i as int]@);
        }
        let ghost before = views(subs@);
        if let Some(cue) = read_srt_cue(&parts[i]) {
            let ghost seen = cue@;
            subs.push(cue);
            assert(views(subs@) =~= before.push(seen));
        }
        i = i + 1;
    }
    assert(vs.take(parts.len() as int) =~= vs);
    subs
}

fn read_vtt_cue(block: &Vec<char>) -> (r: Option<Subtitle>)
    ensures
        match vtt_cue(block@) {
            Some(cue) => r.is_some() && r.unwrap()@ == cue,
            None => r.is_none(),
        },
{
    let b: Vec<char> = trim(block);
    if b.len() == 0 || begins_with(&b, &chars_of("WEBVTT")) || has(&b, &chars_of("NOTE")) {
        return None;
    }
    let arrow: Vec<char> = vec!['-', '-', '>'];
    assert(arrow@ =~= seq!['-', '-', '>']);
    let ls: Vec<Vec<char>> = split_lines(&b);
    let ghost vs = lines(b@);
    let mut at: usize = 0;
    while at < ls.len() && !(has(&ls[at], &arrow))
        invariant
            at <= ls.len(),
            vs == views(ls@),
            arrow@ == seq!['-', '-', '>'],
            arrow_line(vs, 0) == arrow_line(vs, at as int),
        decreases ls.len() - at,
    {
        assert(vs[at as int] == ls@[at as int]@);
        at = at + 1;
    }
    if at == ls.len() {
        return None;
    }
    assert(vs[at as int] == ls@[at as int]@);
    let after: Vec<Vec<char>> = lines_from(
        &ls,
        if at == 1 {
            1
        } else {
            0
        },
    );
    let ghost rest = views(after@);
    let mut text: Vec<Vec<char>> = Vec::new();
    let mut i: usize = 0;
    assert(views(text@) =~= plain_lines(rest.take(0)));
    while i < after.len()
        invariant
            i <= after.len(),
            rest == views(after@),
            arrow@ == seq!['-', '-', '>'],
            views(text@) == plain_lines(rest.take(i as int)),
        decreases after.len() - i,
    {
        let line: Vec<char> = piece(&after[i], 0, after[i].len());
        proof {
            assert(line@ =~= after@[i as int]@);
            assert(rest.take(i + 1).drop_last() =~= rest.take(i as int));
            assert(rest.take(i + 1).last() == line@);
        }
        let ghost before = views(text@);
        if !(has(&line, &arrow)) {
            let ghost seen = line@;
            text.push(line);
            assert(views(text@) =~= before.push(seen));
        }
        i = i + 1;
    }
    assert(rest.take(after.len() as int) =~= rest);
    make_cue(&ls[at], &text)
}

/// Parses VTT subtitle data; SRT data too, as far as the formats overlap.
pub fn parse_vtt(input: &str) -> (subs: Vec<Subtitle>)
    ensures
        views(subs@) == vtt_cues(blocks(input@)),
{
    let blank: Vec<char> = vec!['\n', '\n'];
    assert(blank@ =~= seq!['\n', '\n']);
    let parts: Vec<Vec<char>> = split(&chars_of(input), &blank);
    let ghost vs = blocks(input@);
    let mut subs: Vec<Subtitle> = Vec::new();
    let mut i: usize = 0;
    assert(views(subs@) =~= vtt_cues(vs.take(0)));
    while i < parts.len()
        invariant
            i <= parts.len(),
            vs == views(parts@),
            views(subs@) == vtt_cues(vs.take(i as int)),
        decreases parts.len() - i,
    {
        proof {
            assert(vs.take(i + 1).drop_last() =~= vs.take(i as int));
            assert(vs.take(i + 1).last() == parts@[i as int]@);
        }
        let ghost before = views(subs@);
        if let Some(cue) = read_vtt_cue(&parts[i]) {
            let ghost seen = cue@;
            subs.push(cue);
            assert(views(subs@) =~= before.push(seen));
        }
        i = i + 1;
    }
    assert(vs.take(parts.len() as int) =~= vs);
    subs
}

/// Parses either format by sniffing for the VTT header.
pub fn parse_subtitles(input: &str) -> (subs: Vec<Subtitle>)
    ensures
        views(subs@) == subtitles(input@),
{
    if begins_with(&trim_start(&chars_of(input)), &chars_of("WEBVTT")) {
        parse_vtt(input)
    } else {
        parse_srt(input)
    }
}

/// Turns a text clip into a single subtitle covering the whole clip.
pub fn text_to_subtitle(text: &str, start_us: Timecode, duration_us: i64) -> (s: Subtitle)
    requires
        start_us + (if duration_us > 0 { duration_us as int } else { 0 }) <= i64::MAX,
    ensures
        s@ == (SubtitleView {
            start_us,
            end_us: (start_us + (if duration_us > 0 { duration_us as int } else { 0 })) as i64,
            text: text@,
        }),
{
    let d: i64 = if duration_us > 0 {
        duration_us
    } else {
        0
    };
    Subtitle { start_us, end_us: start_us + d, text: text.to_string() }
}

/// A run of decimal digits.
pub open spec fn is_number(s: Seq<char>) -> bool {
    s.len() > 0 && digits_value(s).is_some()
}

/// Parts of a clock with a colon between each two.
pub open spec fn clock_text(parts: Seq<Seq<char>>) -> Seq<char>
    decreases parts.len(),
{
    if parts.len() == 0 {
        Seq::empty()
    } else if parts.len() == 1 {
        parts[0]
    } else {
        parts[0] + (seq![':'] + clock_text(parts.drop_first()))
    }
}

/// The seconds of a clock: of its last part, sixty of the one before, and sixty times
/// sixty of the one before that.
pub open spec fn clock_seconds(parts: Seq<Seq<char>>) -> int {
    let n = parts.len();
    digits_value(parts[n - 1]).unwrap() + (if n >= 2 {
        60 * digits_value(parts[n - 2]).unwrap()
    } else {
        0
    }) + (if n >= 3 {
        3600 * digits_value(parts[n - 3]).unwrap()
    } else {
        0
    })
}

proof fn lemma_digits(s: Seq<char>, i: int)
    requires
        digits_value(s).is_some(),
        0 <= i < s.len(),
    ensures
        digit_value(s[i]).is_some(),
        s[i] != ':' && s[i] != '.' && s[i] != ',' && s[i] != '-' && s[i] != '+',
        !is_space(s[i]),
    decreases s.len(),
{
    if i < s.len() - 1 {
        lemma_digits(s.drop_last(), i);
    }
}

proof fn lemma_digits_at_least_zero(s: Seq<char>)
    ensures
        digits_value(s).is_some() ==> digits_value(s).unwrap() >= 0,
    decreases s.len(),
{
    if s.len() > 0 {
        lemma_digits_at_least_zero(s.drop_last());
    }
}

proof fn lemma_first_colon(a: Seq<char>, b: Seq<char>, i: int)
    requires
        forall|k: int| 0 <= k < a.len() ==> (#[trigger] a[k]) != ':',
        0 <= i <= a.len(),
    ensures
        first_at(a + (seq![':'] + b), seq![':'], i) == Some(a.len() as int),
    decreases a.len() - i,
{
    let s = a + (seq![':'] + b);
    if i == a.len() {
        assert(s.subrange(i, i + 1) =~= seq![':']);
    } else {
        assert(s.subrange(i, i + 1)[0] == a[i]);
        lemma_first_colon(a, b, i + 1);
    }
}

proof fn lemma_no_colon(a: Seq<char>, i: int)
    requires
        forall|k: int| 0 <= k < a.len() ==> (#[trigger] a[k]) != ':',
        0 <= i,
    ensures
        first_at(a, seq![':'], i).is_none(),
    decreases a.len() + 1 - i,
{
    if i <= a.len() {
        if i < a.len() {
            assert(a.subrange(i, i + 1)[0] == a[i]);
        }
        lemma_no_colon(a, i + 1);
    }
}

proof fn lemma_clock_pieces(parts: Seq<Seq<char>>)
    requires
        parts.len() > 0,
        forall|k: int| 0 <= k < parts.len() ==> is_number(#[trigger] parts[k]),
    ensures
        pieces(clock_text(parts), seq![':']) == parts,
    decreases parts.len(),
{
    let a = parts[0];
    assert forall|k: int| 0 <= k < a.len() implies (#[trigger] a[k]) != ':' by {
        lemma_digits(a, k);
    }
    if parts.len() == 1 {
        lemma_no_colon(a, 0);
        assert(pieces(a, seq![':']) =~= parts);
    } else {
        let rest = parts.drop_first();
        assert forall|k: int| 0 <= k < rest.len() implies is_number(#[trigger] rest[k]) by {
            assert(rest[k] == parts[k + 1]);
        }
        lemma_clock_pieces(rest);
        let b = clock_text(rest);
        let s = a + (seq![':'] + b);
        lemma_first_colon(a, b, 0);
        assert(s.take(a.len() as int) =~= a);
        assert(s.skip(a.len() as int + 1) =~= b);
        assert(pieces(s, seq![':']) =~= seq![a] + rest);
        assert(seq![a] + rest =~= parts);
    }
}

proof fn lemma_number_value(s: Seq<char>)
    requires
        is_number(s),
        digits_value(s).unwrap() <= i64::MAX,
    ensures
        trimmed(s) == s,
        integer_value(s) == digits_value(s),
{
    lemma_digits(s, 0);
    lemma_digits(s, s.len() - 1);
    lemma_digits_at_least_zero(s);
}

proof fn lemma_numbers(parts: Seq<Seq<char>>)
    requires
        forall|k: int|
            0 <= k < parts.len() ==> is_number(#[trigger] parts[k]) && digits_value(
                parts[k],
            ).unwrap() <= i64::MAX,
    ensures
        numbers(parts) == Seq::new(
            parts.len(),
            |k: int| digits_value(parts[k]).unwrap() as i64,
        ),
    decreases parts.len(),
{
    let want = Seq::new(parts.len(), |k: int| digits_value(parts[k]).unwrap() as i64);
    if parts.len() > 0 {
        let init = parts.drop_last();
        assert forall|k: int| 0 <= k < init.len() implies is_number(#[trigger] init[k])
            && digits_value(init[k]).unwrap() <= i64::MAX by {
            assert(init[k] == parts[k]);
        }
        lemma_numbers(init);
        let last = parts[parts.len() - 1];
        assert(is_number(last));
        lemma_number_value(last);
        assert(numbers(parts) =~= want);
    } else {
        assert(numbers(parts) =~= want);
    }
}

proof fn lemma_last_dot(s: Seq<char>, at: int, n: int)
    requires
        0 <= at < n <= s.len(),
        s[at] == '.',
        forall|k: int| at < k < n ==> (#[trigger] s[k]) != '.',
    ensures
        last_dot(s, n) == Some(at),
    decreases n,
{
    if n - 1 > at {
        lemma_last_dot(s, at, n - 1);
    }
}

proof fn lemma_clock_chars(parts: Seq<Seq<char>>, i: int)
    requires
        forall|k: int| 0 <= k < parts.len() ==> is_number(#[trigger] parts[k]),
        0 <= i < clock_text(parts).len(),
    ensures
        clock_text(parts)[i] != ',',
        clock_text(parts)[i] != '.',
    decreases parts.len(),
{
    let a = parts[0];
    if i < a.len() {
        assert(is_number(parts[0]));
        lemma_digits(a, i);
    } else if i > a.len() {
        let rest = parts.drop_first();
        assert forall|k: int| 0 <= k < rest.len() implies is_number(#[trigger] rest[k]) by {
            assert(rest[k] == parts[k + 1]);
        }
        lemma_clock_chars(rest, i - a.len() - 1);
    }
}

proof fn lemma_microseconds(secs: int, millis: int)
    requires
        0 <= secs <= 9_000_000_000,
        0 <= millis <= 999,
    ensures
        microseconds(secs as i64, of_integer(double(), millis)) == secs * 1_000_000 + millis * 1000,
{
    let d = double();
    lemma2_to64_rest();
    law_integers_are_exact(d, secs);
    law_integers_are_exact(d, 1_000_000);
    law_integers_are_exact(d, millis);
    law_integers_are_exact(d, 1000);
    law_integer_products_are_exact(d, secs, 1_000_000);
    law_integer_products_are_exact(d, millis, 1000);
    law_integer_sums_are_exact(d, secs * 1_000_000, millis * 1000);
    law_integers_come_back(
        d,
        Toward::Zero,
        secs * 1_000_000 + millis * 1000,
        i64::MIN as int,
        i64::MAX as int,
    );
}

proof fn lemma_small_product(x: i64, by: i64)
    requires
        0 <= x <= 9_000_000_000,
        1 <= by <= 3600,
    ensures
        x.wrapping_mul(by) == x * by,
{
    assert(0 <= x * by <= 9_000_000_000 * 3600) by (nonlinear_arith)
        requires
            0 <= x <= 9_000_000_000,
            1 <= by <= 3600,
    ;
}

/// A timestamp of up to three parts with a colon between each two, and three digits
/// after a comma or a dot, stands for its hours, minutes, seconds and thousandths, up
/// to nine thousand million seconds.
pub proof fn law_timestamps(parts: Seq<Seq<char>>, sep: char, millis: Seq<char>)
    requires
        1 <= parts.len() <= 3,
        forall|k: int| 0 <= k < parts.len() ==> is_number(#[trigger] parts[k]),
        clock_seconds(parts) <= 9_000_000_000,
        sep == ',' || sep == '.',
        millis.len() == 3,
        is_number(millis),
    ensures
        timestamp(clock_text(parts) + (seq![sep] + millis)) == Some(
            clock_seconds(parts) * 1_000_000 + digits_value(millis).unwrap() * 1000,
        ),
{
    let hms = clock_text(parts);
    let s = hms + (seq![sep] + millis);
    let t = dotted(s);
    let at = hms.len() as int;
    assert forall|k: int| at < k < t.len() implies (#[trigger] t[k]) != '.' by {
        lemma_digits(millis, k - at - 1);
    }
    lemma_last_dot(t, at, t.len() as int);
    assert(t.take(at) =~= hms) by {
        assert forall|k: int| 0 <= k < at implies t[k] == hms[k] by {
            lemma_clock_chars(parts, k);
        }
    }
    assert(t.skip(at + 1) =~= millis) by {
        assert forall|k: int| 0 <= k < 3 implies t[at + 1 + k] == millis[k] by {
            lemma_digits(millis, k);
        }
    }
    // Every part is small.
    let n = parts.len();
    assert forall|k: int| 0 <= k < n implies 0 <= digits_value(#[trigger] parts[k]).unwrap()
        <= 9_000_000_000 by {
        assert(is_number(parts[n - 1]));
        lemma_digits_at_least_zero(parts[n - 1]);
        if n >= 2 {
            assert(is_number(parts[n - 2]));
            lemma_digits_at_least_zero(parts[n - 2]);
        }
        if n >= 3 {
            assert(is_number(parts[n - 3]));
            lemma_digits_at_least_zero(parts[n - 3]);
        }
    }
    lemma_clock_pieces(parts);
    lemma_numbers(parts);
    let ns = numbers(parts);
    assert(0 <= digits_value(parts[n - 1]).unwrap());
    assert(ns[n - 1] == digits_value(parts[n - 1]).unwrap());
    if n >= 2 {
        assert(0 <= digits_value(parts[n - 2]).unwrap());
        lemma_small_product(ns[n - 2], 60);
    }
    if n >= 3 {
        assert(0 <= digits_value(parts[n - 3]).unwrap());
        lemma_small_product(ns[n - 3], 3600);
    }
    assert(total_seconds(ns) == clock_seconds(parts));
    // The thousandths.
    lemma_digits(millis, 0);
    lemma_digits_at_least_zero(millis);
    lemma_three_digits(millis);
    let m = digits_value(millis).unwrap();
    assert(fraction_number(millis) == Some(of_integer(double(), m)));
    lemma_microseconds(clock_seconds(parts), m);
}

proof fn lemma_three_digits(s: Seq<char>)
    requires
        s.len() == 3,
        digits_value(s).is_some(),
    ensures
        digits_value(s).unwrap() <= 999,
{
    let a = s.drop_last();
    let b = a.drop_last();
    let c = b.drop_last();
    assert(c.len() == 0);
    assert(digits_value(c) == Some(0int));
    assert(digits_value(b).is_some() && digits_value(b).unwrap() <= 9);
    assert(digits_value(a).is_some() && digits_value(a).unwrap() <= 99);
}

proof fn lemma_cue_text(block: Seq<char>)
    ensures
        srt_cue(block).is_some() ==> srt_cue(block).unwrap().text.len() > 0,
        vtt_cue(block).is_some() ==> vtt_cue(block).unwrap().text.len() > 0,
{
}

/// Every subtitle that is read has a text.
pub proof fn law_subtitles_have_text(blocks: Seq<Seq<char>>)
    ensures
        forall|i: int|
            0 <= i < srt_cues(blocks).len() ==> (#[trigger] srt_cues(blocks)[i]).text.len() > 0,
        forall|i: int|
            0 <= i < vtt_cues(blocks).len() ==> (#[trigger] vtt_cues(blocks)[i]).text.len() > 0,
        srt_cues(blocks).len() <= blocks.len(),
        vtt_cues(blocks).len() <= blocks.len(),
    decreases blocks.len(),
{
    if blocks.len() > 0 {
        law_subtitles_have_text(blocks.drop_last());
        lemma_cue_text(blocks.last());
    }
}

/// The lines without an arrow, where the first is the only one with one.
proof fn lemma_first_arrow(ls: Seq<Seq<char>>)
    requires
        ls.len() > 0,
        has_arrow(ls[0]),
        forall|i: int| 1 <= i < ls.len() ==> !has_arrow(#[trigger] ls[i]),
    ensures
        plain_lines(ls) == ls.skip(1),
    decreases ls.len(),
{
    let init = ls.drop_last();
    if ls.len() == 1 {
        assert(plain_lines(init) =~= Seq::empty());
        assert(plain_lines(ls) =~= ls.skip(1));
    } else {
        assert forall|i: int| 1 <= i < init.len() implies !has_arrow(#[trigger] init[i]) by {
            assert(init[i] == ls[i]);
        }
        lemma_first_arrow(init);
        assert(!has_arrow(ls[ls.len() - 1]));
        assert(init.skip(1).push(ls.last()) =~= ls.skip(1));
    }
}

/// A line that holds times holds an arrow.
proof fn lemma_times_hold_an_arrow(line: Seq<char>)
    ensures
        time_range(line).is_some() ==> has_arrow(line),
{
    let arrow = seq!['-', '-', '>'];
    lemma_first_at(line, arrow, 0);
    if first_at(line, arrow, 0).is_none() {
        assert(pieces(line, arrow).len() == 1);
    } else {
        assert(occurs_at(line, arrow, first_at(line, arrow, 0).unwrap()));
    }
}

/// An SRT block with its line of times in the first or second place, and no other arrow,
/// is the same cue in VTT data, as long as it is no header and no note there.
pub proof fn law_srt_cues_are_vtt_cues(block: Seq<char>, at: int)
    requires
        ({
            let ls = lines(trimmed(block));
            &&& 0 <= at <= 1
            &&& at < ls.len()
            &&& time_range(ls[at]).is_some()
            &&& forall|i: int| 0 <= i < ls.len() && i != at ==> !has_arrow(#[trigger] ls[i])
        }),
        !starts_with(trimmed(block), "WEBVTT"@),
        !contains(trimmed(block), "NOTE"@),
    ensures
        vtt_cue(block) == srt_cue(block),
{
    let ls = lines(trimmed(block));
    assert(trimmed(block).len() > 0);
    lemma_times_hold_an_arrow(ls[at]);
    lemma_times_hold_an_arrow(ls[0]);
    assert(at == 1 ==> !has_arrow(ls[0]));
    reveal_with_fuel(arrow_line, 2);
    assert(arrow_line(ls, 0) == at);
    let text = ls.skip(at);
    assert forall|i: int| 1 <= i < text.len() implies !has_arrow(#[trigger] text[i]) by {
        assert(text[i] == ls[at + i]);
    }
    lemma_first_arrow(text);
    assert(text.skip(1) =~= ls.skip(at + 1));
}

/// The cues of some blocks in either format.
spec fn cues_in(bs: Seq<Seq<char>>, vtt: bool) -> Seq<SubtitleView> {
    if vtt {
        vtt_cues(bs)
    } else {
        srt_cues(bs)
    }
}

proof fn lemma_cues_append(a: Seq<Seq<char>>, b: Seq<Seq<char>>, vtt: bool)
    ensures
        cues_in(a + b, vtt) == cues_in(a, vtt) + cues_in(b, vtt),
    decreases b.len(),
{
    if b.len() == 0 {
        assert(a + b =~= a);
        assert(cues_in(a, vtt) + cues_in(b, vtt) =~= cues_in(a, vtt));
    } else {
        lemma_cues_append(a, b.drop_last(), vtt);
        assert((a + b).drop_last() =~= a + b.drop_last());
        assert((a + b).last() == b.last());
        assert(cues_in(a + b, vtt) =~= cues_in(a, vtt) + cues_in(b, vtt));
    }
}

/// White space at the end of a text that is trimmed.
proof fn lemma_start_of_push(x: Seq<char>)
    ensures
        ({
            let t = trimmed_start(x);
            trimmed_start(x.push('\n')) == (if t.len() == 0 {
                t
            } else {
                t.push('\n')
            })
        }),
    decreases x.len(),
{
    let a = x.push('\n');
    if x.len() == 0 {
        assert(a.drop_first() =~= x);
        assert(trimmed_start(a) == trimmed_start(x));
    } else {
        assert(a[0] == x[0]);
        if is_space(x[0]) {
            assert(a.drop_first() =~= x.drop_first().push('\n'));
            lemma_start_of_push(x.drop_first());
        }
    }
}

/// A line break round a block makes no difference to its cue.
proof fn lemma_breaks_round_a_block(x: Seq<char>)
    ensures
        trimmed(x.push('\n')) == trimmed(x),
        trimmed(seq!['\n'] + x) == trimmed(x),
{
    assert((seq!['\n'] + x).drop_first() =~= x);
    lemma_start_of_push(x);
    let t = trimmed_start(x);
    assert(t.push('\n').drop_last() =~= t);
}

/// Two line breaks stand at a place.
proof fn lemma_break_at(s: Seq<char>, i: int)
    ensures
        occurs_at(s, seq!['\n', '\n'], i) == (0 <= i && i + 2 <= s.len() && s[i] == '\n' && s[i + 1]
            == '\n'),
{
    let nn = seq!['\n', '\n'];
    if 0 <= i && i + 2 <= s.len() {
        let sub = s.subrange(i, i + 2);
        if s[i] == '\n' && s[i + 1] == '\n' {
            assert(sub =~= nn);
        }
        assert(sub[0] == s[i] && sub[1] == s[i + 1]);
    }
}

/// The first empty line of a text, where it is known.
proof fn lemma_first_break(s: Seq<char>, at: int)
    requires
        0 <= at,
        at + 2 <= s.len(),
        s[at] == '\n' && s[at + 1] == '\n',
        forall|k: int| 0 <= k < at ==> !((#[trigger] s[k]) == '\n' && s[k + 1] == '\n'),
    ensures
        blocks(s) == seq![s.take(at)] + blocks(s.skip(at + 2)),
{
    let nn = seq!['\n', '\n'];
    lemma_first_at(s, nn, 0);
    lemma_break_at(s, at);
    let i = first_at(s, nn, 0).unwrap();
    lemma_break_at(s, i);
    if i < at {
        assert(s[i] == '\n');
    }
}

/// A line break at the start of a text makes no difference to its cues.
proof fn lemma_leading_break(s: Seq<char>, vtt: bool)
    ensures
        cues_in(blocks(seq!['\n'] + s), vtt) == cues_in(blocks(s), vtt),
    decreases s.len(),
{
    let nn = seq!['\n', '\n'];
    let t = seq!['\n'] + s;
    if s.len() > 0 && s[0] == '\n' {
        let u = s.skip(1);
        lemma_first_break(t, 0);
        assert(t.take(0) =~= Seq::<char>::empty());
        assert(t.skip(2) =~= u);
        lemma_cues_append(seq![Seq::<char>::empty()], blocks(u), vtt);
        lemma_no_cue(vtt);
        assert(cues_in(blocks(t), vtt) =~= cues_in(blocks(u), vtt));
        lemma_leading_break(u, vtt);
        assert(seq!['\n'] + u =~= s);
    } else {
        lemma_first_at(s, nn, 0);
        match first_at(s, nn, 0) {
            Some(i) => {
                lemma_break_at(s, i);
                assert forall|k: int| 0 <= k < i + 1 implies !((#[trigger] t[k]) == '\n' && t[k + 1]
                    == '\n') by {
                    if k > 0 {
                        lemma_break_at(s, k - 1);
                        assert(t[k] == s[k - 1] && t[k + 1] == s[k]);
                    } else {
                        assert(t[1] == s[0]);
                    }
                }
                lemma_first_break(t, i + 1);
                assert(t.take(i + 1) =~= seq!['\n'] + s.take(i));
                assert(t.skip(i + 3) =~= s.skip(i + 2));
                lemma_breaks_round_a_block(s.take(i));
                lemma_same_cue(t.take(i + 1), s.take(i), vtt);
                lemma_cues_append(seq![t.take(i + 1)], blocks(s.skip(i + 2)), vtt);
                lemma_cues_append(seq![s.take(i)], blocks(s.skip(i + 2)), vtt);
            },
            None => {
                lemma_first_at(t, nn, 0);
                if let Some(j) = first_at(t, nn, 0) {
                    lemma_break_at(t, j);
                    if j > 0 {
                        assert(t[j] == s[j - 1] && t[j + 1] == s[j]);
                        lemma_break_at(s, j - 1);
                    } else {
                        assert(t[1] == s[0]);
                    }
                }
                lemma_breaks_round_a_block(s);
                lemma_same_cue(t, s, vtt);
            },
        }
    }
}

proof fn lemma_same_cue(a: Seq<char>, b: Seq<char>, vtt: bool)
    requires
        trimmed(a) == trimmed(b),
    ensures
        cues_in(seq![a], vtt) == cues_in(seq![b], vtt),
{
    assert(seq![a].drop_last() =~= Seq::empty());
    assert(seq![b].drop_last() =~= Seq::empty());
}

proof fn lemma_no_cue(vtt: bool)
    ensures
        cues_in(seq![Seq::<char>::empty()], vtt) == Seq::<SubtitleView>::empty(),
{
    let none = Seq::<char>::empty();
    assert(seq![none].drop_last() =~= Seq::empty());
    assert(seq![none].last() == none);
    reveal_with_fuel(srt_cues, 2);
    reveal_with_fuel(vtt_cues, 2);
    assert(trimmed_start(none) == none);
    assert(trimmed(none) == none);
    assert(lines(none).len() == 0);
    assert(srt_cue(none).is_none() && vtt_cue(none).is_none());
}

proof fn lemma_joined_texts(a: Seq<char>, b: Seq<char>, vtt: bool)
    ensures
        cues_in(blocks(a + seq!['\n', '\n'] + b), vtt) == cues_in(blocks(a), vtt) + cues_in(
            blocks(b),
            vtt,
        ),
    decreases a.len(),
{
    let nn = seq!['\n', '\n'];
    let t = a + nn + b;
    lemma_first_at(a, nn, 0);
    match first_at(a, nn, 0) {
        Some(i) => {
            lemma_break_at(a, i);
            assert forall|k: int| 0 <= k < i implies !((#[trigger] t[k]) == '\n' && t[k + 1]
                == '\n') by {
                lemma_break_at(a, k);
            }
            lemma_first_break(t, i);
            let rest = a.skip(i + 2);
            assert(t.take(i) =~= a.take(i));
            assert(t.skip(i + 2) =~= rest + nn + b);
            lemma_joined_texts(rest, b, vtt);
            lemma_cues_append(seq![a.take(i)], blocks(rest + nn + b), vtt);
            lemma_cues_append(seq![a.take(i)], blocks(rest), vtt);
            assert(cues_in(blocks(t), vtt) =~= cues_in(blocks(a), vtt) + cues_in(blocks(b), vtt));
        },
        None => {
            let n = a.len() as int;
            let at = if n > 0 && a[n - 1] == '\n' {
                n - 1
            } else {
                n
            };
            assert forall|k: int| 0 <= k < at implies !((#[trigger] t[k]) == '\n' && t[k + 1]
                == '\n') by {
                lemma_break_at(a, k);
            }
            lemma_first_break(t, at);
            let head = t.take(at);
            let tail = t.skip(at + 2);
            if at == n {
                assert(head =~= a);
                assert(tail =~= b);
            } else {
                assert(head.push('\n') =~= a);
                assert(tail =~= seq!['\n'] + b);
                lemma_breaks_round_a_block(head);
                lemma_leading_break(b, vtt);
            }
            lemma_same_cue(head, a, vtt);
            lemma_cues_append(seq![head], blocks(tail), vtt);
        },
    }
}

/// Two texts joined by an empty line hold the cues of both, in order: no block has an
/// effect on another.
pub proof fn law_joined_texts_keep_their_cues(a: Seq<char>, b: Seq<char>)
    ensures
        srt_cues(blocks(a + seq!['\n', '\n'] + b)) == srt_cues(blocks(a)) + srt_cues(blocks(b)),
        vtt_cues(blocks(a + seq!['\n', '\n'] + b)) == vtt_cues(blocks(a)) + vtt_cues(blocks(b)),
{
    lemma_joined_texts(a, b, false);
    lemma_joined_texts(a, b, true);
}

/// No character of a text is `c`.
pub open spec fn lacks(s: Seq<char>, c: char) -> bool {
    forall|k: int| 0 <= k < s.len() ==> (#[trigger] s[k]) != c
}

/// A text on one line, with no white space around it.
pub open spec fn is_one_line(s: Seq<char>) -> bool {
    &&& s.len() > 0
    &&& !is_space(s[0])
    &&& !is_space(s.last())
    &&& lacks(s, '\n')
    &&& s.last() != '\r'
}

proof fn lemma_first_of(a: Seq<char>, b: Seq<char>, c: char, i: int)
    requires
        lacks(a, c),
        0 <= i <= a.len(),
    ensures
        first_at(a + (seq![c] + b), seq![c], i) == Some(a.len() as int),
    decreases a.len() - i,
{
    let s = a + (seq![c] + b);
    if i == a.len() {
        assert(s.subrange(i, i + 1) =~= seq![c]);
    } else {
        assert(s.subrange(i, i + 1)[0] == a[i]);
        lemma_first_of(a, b, c, i + 1);
    }
}

proof fn lemma_none_of(a: Seq<char>, pat: Seq<char>, i: int)
    requires
        pat.len() > 0,
        lacks(a, pat[0]),
        0 <= i,
    ensures
        first_at(a, pat, i).is_none(),
    decreases a.len() + 1 - i,
{
    if i <= a.len() {
        if i + pat.len() <= a.len() {
            assert(a.subrange(i, i + pat.len())[0] == a[i]);
        }
        lemma_none_of(a, pat, i + 1);
    }
}

/// The lines of a line and what follows it.
proof fn lemma_lines_of(a: Seq<char>, b: Seq<char>)
    requires
        a.len() > 0,
        lacks(a, '\n'),
        a.last() != '\r',
    ensures
        lines(a + (seq!['\n'] + b)) == seq![a] + lines(b),
{
    let s = a + (seq!['\n'] + b);
    lemma_first_of(a, b, '\n', 0);
    assert(s.take(a.len() as int) =~= a);
    assert(s.skip(a.len() as int + 1) =~= b);
}

proof fn lemma_last_line(a: Seq<char>)
    requires
        a.len() > 0,
        lacks(a, '\n'),
    ensures
        lines(a).len() == 1,
        a.last() != '\r' ==> lines(a) == seq![a],
{
    assert(seq!['\n'][0] == '\n');
    lemma_none_of(a, seq!['\n'], 0);
}

/// A line of times holds the time before the arrow and the one after it, in this order.
pub proof fn law_times_stand_around_the_arrow(x: Seq<char>, y: Seq<char>)
    requires
        x.len() > 0,
        y.len() > 0,
        !is_space(x[0]),
        !is_space(x.last()),
        !is_space(y[0]),
        !is_space(y.last()),
        lacks(x, '-'),
        lacks(y, '-'),
    ensures
        time_range(x + (seq![' ', '-', '-', '>', ' '] + y)) == match (timestamp(x), timestamp(y)) {
            (Some(start), Some(end)) => Some((start, end)),
            _ => None,
        },
{
    let arrow = seq!['-', '-', '>'];
    let s = x + (seq![' ', '-', '-', '>', ' '] + y);
    let at = x.len() as int + 1;
    lemma_first_arrow_at(x, y, 0);
    let (a, b) = (x.push(' '), seq![' '] + y);
    assert(s.take(at) =~= a);
    assert(s.skip(at + 3) =~= b);
    assert(lacks(b, '-'));
    lemma_none_of(b, arrow, 0);
    assert(pieces(b, arrow) =~= seq![b]);
    assert(pieces(s, arrow) =~= seq![a, b]);
    assert(trimmed(a) == x) by {
        assert(a[0] == x[0]);
        assert(trimmed_start(a) == a);
        assert(a.drop_last() =~= x);
        assert(trimmed_end(x) == x);
        assert(is_space(a.last()));
    }
    assert(trimmed(b) == y) by {
        assert(is_space(b[0]));
        assert(b.drop_first() =~= y);
        assert(trimmed_start(y) == y);
        assert(trimmed_end(y) == y);
    }
}

proof fn lemma_first_arrow_at(x: Seq<char>, y: Seq<char>, i: int)
    requires
        lacks(x, '-'),
        0 <= i <= x.len() + 1,
    ensures
        first_at(x + (seq![' ', '-', '-', '>', ' '] + y), seq!['-', '-', '>'], i) == Some(
            x.len() as int + 1,
        ),
    decreases x.len() + 1 - i,
{
    let s = x + (seq![' ', '-', '-', '>', ' '] + y);
    if i == x.len() + 1 {
        assert(s.subrange(i, i + 3) =~= seq!['-', '-', '>']);
    } else {
        assert(s[i] != '-');
        assert(s.subrange(i, i + 3)[0] == s[i]);
        lemma_first_arrow_at(x, y, i + 1);
    }
}

/// A cue of an SRT file, of an index, two times around an arrow and a line of text, each on
/// its own line, is a subtitle with that text from the first time to the second; in a VTT
/// file so is one without an index, and one with it, as long as it is no header and no note.
pub proof fn law_cues_show_their_text_in_their_time(
    index: Seq<char>,
    x: Seq<char>,
    y: Seq<char>,
    text: Seq<char>,
    start: i64,
    end: i64,
)
    requires
        is_number(index),
        is_one_line(x),
        is_one_line(y),
        lacks(x, '-'),
        lacks(y, '-'),
        timestamp(x) == Some(start as int),
        timestamp(y) == Some(end as int),
        is_one_line(text),
        !has_arrow(text),
    ensures
        ({
            let times = x + (seq![' ', '-', '-', '>', ' '] + y);
            let cue = times + (seq!['\n'] + text);
            let block = index + (seq!['\n'] + cue);
            let want = SubtitleView { start_us: start, end_us: end, text };
            &&& srt_cue(block) == Some(want)
            &&& srt_cue(cue) == Some(want)
            &&& !starts_with(cue, "WEBVTT"@) && !contains(cue, "NOTE"@) ==> vtt_cue(cue) == Some(
                want,
            )
            &&& !starts_with(block, "WEBVTT"@) && !contains(block, "NOTE"@) ==> vtt_cue(block)
                == Some(want)
        }),
{
    let times = x + (seq![' ', '-', '-', '>', ' '] + y);
    let cue = times + (seq!['\n'] + text);
    let block = index + (seq!['\n'] + cue);
    let want = SubtitleView { start_us: start, end_us: end, text };
    lemma_digits(index, 0);
    lemma_digits(index, index.len() - 1);
    assert forall|k: int| 0 <= k < index.len() implies (#[trigger] index[k]) != '\n' && index[k]
        != '-' by {
        lemma_digits(index, k);
        assert(is_space('\n'));
    }
    assert(index.last() != '\r') by {
        assert(is_space('\r'));
    }
    law_times_stand_around_the_arrow(x, y);
    assert(time_range(times) == Some((start as int, end as int)));
    assert(times.last() == y.last() && times[0] == x[0]);
    assert forall|k: int| 0 <= k < times.len() implies (#[trigger] times[k]) != '\n' by {
        if k < x.len() {
            assert(times[k] == x[k]);
        } else if k >= x.len() + 5 {
            assert(times[k] == y[k - x.len() - 5]);
        }
    }
    lemma_lines_of(times, text);
    lemma_last_line(text);
    lemma_lines_of(index, cue);
    let ls = lines(cue);
    assert(ls =~= seq![times, text]);
    assert(lines(block) =~= seq![index, times, text]);
    assert(cue.last() == text.last() && block.last() == text.last());
    assert(cue[0] == x[0] && block[0] == index[0]);
    assert(trimmed_start(cue) == cue && trimmed_end(cue) == cue && trimmed(cue) == cue);
    assert(trimmed_start(block) == block && trimmed_end(block) == block && trimmed(block) == block);
    assert(seq!['-', '-', '>'][0] == '-');
    lemma_none_of(index, seq!['-', '-', '>'], 0);
    assert(time_range(index).is_none()) by {
        assert(pieces(index, seq!['-', '-', '>']).len() == 1);
    }
    assert(trimmed_start(text) == text && trimmed_end(text) == text && trimmed(text) == text);
    assert(ls.skip(1) =~= seq![text] && lines(block).skip(2) =~= seq![text]);
    assert(joined(seq![text]) == text);
    assert(cue_of(times, seq![text]) == Some(want));
    assert(srt_cue(cue) == Some(want));
    assert(srt_cue(block) == Some(want));
    lemma_times_hold_an_arrow(times);
    if !starts_with(cue, "WEBVTT"@) && !contains(cue, "NOTE"@) {
        law_srt_cues_are_vtt_cues(cue, 0);
    }
    assert(!has_arrow(index)) by {
        if has_arrow(index) {
            lemma_first_at(index, seq!['-', '-', '>'], 0);
        }
    }
    if !starts_with(block, "WEBVTT"@) && !contains(block, "NOTE"@) {
        law_srt_cues_are_vtt_cues(block, 1);
    }
}

} // verus!
