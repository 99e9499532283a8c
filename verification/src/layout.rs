//! Text: lines, their places, how much is revealed, the strokes of a glyph, and how they
//! are painted.

use crate::edit::not_below_zero;
use crate::exact::{
    halves, holds, integer, law_integer_products_are_exact, law_integer_sums_are_exact,
    law_integers_are_exact, law_multiplication_by_one_is_exact, lemma_exact, lemma_halves,
    lemma_integers_in_order, lemma_rounded_bound, lemma_rounded_within, lemma_sum_of_halves,
};
use crate::float::{
    clamp_number, difference, larger, less, negated, number_of_bits32, positive, product, quotient,
    rounded, single, sum, to_integer, Float32, Number, Toward,
};
use crate::paint::{
    box_filled, box_of, emit_glyph, fill_rect, glyph_painted, has_room, BoxView, InkView, Stroke,
    TurnedBox,
};
use crate::pixel::{lemma_part, n32, num};
use crate::project::{is_time, Project, ProjectView};
use crate::strings::{is_space, space};
use crate::timeline::{
    views, TextAlign, TextClip, TextClipView, TextStyle, TextStyleView, Transform, HALF_BITS,
};
use vstd::arithmetic::div_mod::{lemma_fundamental_div_mod, lemma_mod_bound};
use vstd::arithmetic::power2::{
    lemma2_to64, lemma2_to64_rest, lemma_pow2_adds, lemma_pow2_pos, lemma_pow2_strictly_increases,
    pow2,
};
use vstd::prelude::*;

verus! {

/// A text that shows at a time, and how much of it is revealed.
pub struct TextLayerView {
    pub track: int,
    pub clip: int,
    pub reveal: Number,
}

/// A text that shows at a time, and how much of it is revealed.
#[derive(Clone, Copy, Debug)]
pub struct TextLayer {
    pub track: usize,
    pub clip: usize,
    pub reveal: Float32,
}

impl View for TextLayer {
    type V = TextLayerView;

    open spec fn view(&self) -> TextLayerView {
        TextLayerView { track: self.track as int, clip: self.clip as int, reveal: self.reveal@ }
    }
}

/// How much of a text is revealed: all of it, or as much of its time as has passed.
pub open spec fn revealed(c: TextClipView, pts: int) -> Number {
    if c.style.typewriter {
        let d = not_below_zero(c.timeline_end - c.timeline_start);
        clamp_number(
            quotient(
                single(),
                num(pts - c.timeline_start),
                num(if d > 1 { d } else { 1 }),
            ),
            num(0),
            num(1),
        )
    } else {
        num(1)
    }
}

pub open spec fn track_texts(p: ProjectView, track: int, n: int, pts: int) -> Seq<TextLayerView>
    decreases n,
{
    if n <= 0 {
        Seq::empty()
    } else {
        let before = track_texts(p, track, n - 1, pts);
        let c = p.text_tracks[track].clips[n - 1];
        if c.active(pts) {
            before.push(TextLayerView { track, clip: n - 1, reveal: revealed(c, pts) })
        } else {
            before
        }
    }
}

pub open spec fn texts_upto(p: ProjectView, n: int, pts: int) -> Seq<TextLayerView>
    decreases n,
{
    if n <= 0 {
        Seq::empty()
    } else {
        texts_upto(p, n - 1, pts) + track_texts(
            p,
            n - 1,
            p.text_tracks[n - 1].clips.len() as int,
            pts,
        )
    }
}

/// The texts of a frame, from the bottom to the top.
pub open spec fn texts_at(p: ProjectView, pts: int) -> Seq<TextLayerView> {
    texts_upto(p, p.text_tracks.len() as int, pts)
}

/// The lengths of the texts can be computed.
pub open spec fn texts_fit(p: ProjectView) -> bool {
    forall|i: int, j: int|
        0 <= i < p.text_tracks.len() && 0 <= j < p.text_tracks[i].clips.len() ==> is_time(
            (#[trigger] p.text_tracks[i].clips[j]).timeline_end
                - p.text_tracks[i].clips[j].timeline_start,
        )
}

impl Project {
    /// Whether the lengths of the texts can be computed.
    pub fn can_show_texts(&self) -> (r: bool)
        ensures
            r == texts_fit(self@),
    {
        let ghost vs = self@.text_tracks;
        let mut i: usize = 0;
        while i < self.text_tracks.len()
            invariant
                i <= self.text_tracks.len(),
                vs == self@.text_tracks,
                forall|k: int, l: int|
                    0 <= k < i && 0 <= l < vs[k].clips.len() ==> is_time(
                        (#[trigger] vs[k].clips[l]).timeline_end - vs[k].clips[l].timeline_start,
                    ),
            decreases self.text_tracks.len() - i,
        {
            let clips: &Vec<TextClip> = &self.text_tracks[i].clips;
            let mut j: usize = 0;
            while j < clips.len()
                invariant
                    i < self.text_tracks.len(),
                    j <= clips.len(),
                    vs == self@.text_tracks,
                    clips@ == self.text_tracks@[i as int].clips@,
                    forall|l: int|
                        0 <= l < j ==> is_time(
                            (#[trigger] vs[i as int].clips[l]).timeline_end
                                - vs[i as int].clips[l].timeline_start,
                        ),
                decreases clips.len() - j,
            {
                assert(vs[i as int].clips[j as int] == clips@[j as int]@);
                if clips[j].timeline_end.checked_sub(clips[j].timeline_start).is_none() {
                    return false;
                }
                j = j + 1;
            }
            i = i + 1;
        }
        true
    }

    /// The texts of a frame, from the bottom to the top.
    pub fn texts(&self, pts: i64) -> (r: Vec<TextLayer>)
        requires
            texts_fit(self@),
        ensures
            views(r@) == texts_at(self@, pts as int),
            forall|k: int|
                0 <= k < r@.len() ==> {
                    let l = #[trigger] r@[k];
                    l.track < self.text_tracks.len() && l.clip
                        < self.text_tracks@[l.track as int].clips.len()
                },
    {
        let ghost p = self@;
        let mut out: Vec<TextLayer> = Vec::new();
        let mut i: usize = 0;
        assert(views(out@) =~= texts_upto(p, 0, pts as int));
        while i < self.text_tracks.len()
            invariant
                i <= self.text_tracks.len(),
                p == self@,
                texts_fit(p),
                views(out@) == texts_upto(p, i as int, pts as int),
                forall|k: int|
                    0 <= k < out@.len() ==> {
                        let l = #[trigger] out@[k];
                        l.track < self.text_tracks.len() && l.clip
                            < self.text_tracks@[l.track as int].clips.len()
                    },
            decreases self.text_tracks.len() - i,
        {
            let clips: &Vec<TextClip> = &self.text_tracks[i].clips;
            let ghost below = views(out@);
            let mut j: usize = 0;
            assert(below + track_texts(p, i as int, 0, pts as int) =~= below);
            while j < clips.len()
                invariant
                    i < self.text_tracks.len(),
                    j <= clips.len(),
                    p == self@,
                    texts_fit(p),
                    clips@ == self.text_tracks@[i as int].clips@,
                    views(out@) == below + track_texts(p, i as int, j as int, pts as int),
                    forall|k: int|
                        0 <= k < out@.len() ==> {
                            let l = #[trigger] out@[k];
                            l.track < self.text_tracks.len() && l.clip
                                < self.text_tracks@[l.track as int].clips.len()
                        },
                decreases clips.len() - j,
            {
                let c: &TextClip = &clips[j];
                let ghost held = views(out@);
                let ghost before = track_texts(p, i as int, j as int, pts as int);
                assert(c@ == p.text_tracks[i as int].clips[j as int]);
                if c.timeline_start <= pts && pts < c.timeline_end {
                    assert(is_time(p.text_tracks[i as int].clips[j as int].timeline_end
                        - p.text_tracks[i as int].clips[j as int].timeline_start));
                    let d: i64 = c.timeline_end - c.timeline_start;
                    let reveal: Float32 = if c.style.typewriter {
                        n32(pts - c.timeline_start).over(
                            n32(
                                if d > 1 {
                                    d
                                } else {
                                    1
                                },
                            ),
                        ).clamped(n32(0), n32(1))
                    } else {
                        n32(1)
                    };
                    let l: TextLayer = TextLayer { track: i, clip: j, reveal };
                    out.push(l);
                    proof {
                        assert(views(out@) =~= held.push(l@));
                        assert(held.push(l@) =~= below + before.push(l@));
                    }
                }
                j = j + 1;
            }
            i = i + 1;
        }
        out
    }
}

/// A character and how far it moves the pen.
#[derive(Clone, Copy, Debug)]
pub struct Cell {
    pub c: char,
    pub advance: Float32,
}

/// The width of some characters.
pub open spec fn width_of(cells: Seq<Cell>) -> Number
    decreases cells.len(),
{
    if cells.len() == 0 {
        num(0)
    } else {
        sum(single(), width_of(cells.drop_last()), cells.last().advance@)
    }
}

/// Appends a word to those of a line: `started` says that a word is open at the
/// end.
pub open spec fn words_upto(cells: Seq<Cell>, n: int) -> (Seq<Seq<Cell>>, bool)
    decreases n,
{
    if n <= 0 {
        (Seq::empty(), false)
    } else {
        let (words, open) = words_upto(cells, n - 1);
        let cell = cells[n - 1];
        if is_space(cell.c) {
            (words, false)
        } else if open {
            (words.update(words.len() - 1, words.last().push(cell)), true)
        } else {
            (words.push(seq![cell]), true)
        }
    }
}

/// The words of a line: the longest stretches without white space.
pub open spec fn words_of(cells: Seq<Cell>) -> Seq<Seq<Cell>> {
    words_upto(cells, cells.len() as int).0
}

/// Lines done, the line under way and its width.
pub struct Wrapping {
    pub done: Seq<Seq<Cell>>,
    pub line: Seq<Cell>,
    pub width: Number,
}

/// One more word: on the line under way where it still fits, else on a new one.
pub open spec fn wrapped_word(w: Wrapping, word: Seq<Cell>, blank: Cell, limit: Number) -> Wrapping {
    let ww = width_of(word);
    let sep = if w.line.len() == 0 {
        num(0)
    } else {
        width_of(seq![blank])
    };
    let full = less(limit, sum(single(), sum(single(), w.width, sep), ww)) && w.line.len() > 0;
    if full {
        Wrapping { done: w.done.push(w.line), line: word, width: sum(single(), num(0), ww) }
    } else if w.line.len() > 0 {
        Wrapping {
            done: w.done,
            line: w.line.push(blank) + word,
            width: sum(single(), sum(single(), w.width, sep), ww),
        }
    } else {
        Wrapping { done: w.done, line: word, width: sum(single(), w.width, ww) }
    }
}

pub open spec fn wrapped_upto(words: Seq<Seq<Cell>>, n: int, blank: Cell, limit: Number) -> Wrapping
    decreases n,
{
    if n <= 0 {
        Wrapping { done: Seq::empty(), line: Seq::empty(), width: num(0) }
    } else {
        wrapped_word(wrapped_upto(words, n - 1, blank, limit), words[n - 1], blank, limit)
    }
}

/// The lines that a line is wrapped to.
pub open spec fn wrapped(cells: Seq<Cell>, blank: Cell, limit: Number) -> Seq<Seq<Cell>> {
    let words = words_of(cells);
    let w = wrapped_upto(words, words.len() as int, blank, limit);
    if w.line.len() > 0 {
        w.done.push(w.line)
    } else {
        w.done
    }
}

/// The lines of a text up to its `n`th character: the finished ones and the one
/// under way.
pub open spec fn raw_lines_upto(cells: Seq<Cell>, n: int) -> (Seq<Seq<Cell>>, Seq<Cell>)
    decreases n,
{
    if n <= 0 {
        (Seq::empty(), Seq::empty())
    } else {
        let (done, line) = raw_lines_upto(cells, n - 1);
        if cells[n - 1].c == '\n' {
            (done.push(line), Seq::empty())
        } else {
            (done, line.push(cells[n - 1]))
        }
    }
}

/// The lines of a text as it was typed.
pub open spec fn raw_lines(cells: Seq<Cell>) -> Seq<Seq<Cell>> {
    let (done, line) = raw_lines_upto(cells, cells.len() as int);
    done.push(line)
}

pub open spec fn wrapped_all(lines: Seq<Seq<Cell>>, blank: Cell, limit: Number) -> Seq<Seq<Cell>>
    decreases lines.len(),
{
    if lines.len() == 0 {
        Seq::empty()
    } else {
        wrapped_all(lines.drop_last(), blank, limit) + wrapped(lines.last(), blank, limit)
    }
}

/// The lines of a text: as typed, or wrapped to a width above zero.
pub open spec fn text_lines(cells: Seq<Cell>, blank: Cell, wrap: Number) -> Seq<Seq<Cell>> {
    if positive(wrap) {
        wrapped_all(raw_lines(cells), blank, wrap)
    } else {
        raw_lines(cells)
    }
}

fn measure(cells: &Vec<Cell>) -> (w: Float32)
    ensures
        w@ == width_of(cells@),
{
    let mut w: Float32 = n32(0);
    let mut i: usize = 0;
    while i < cells.len()
        invariant
            i <= cells.len(),
            w@ == width_of(cells@.take(i as int)),
        decreases cells.len() - i,
    {
        proof {
            assert(cells@.take(i + 1).drop_last() =~= cells@.take(i as int));
        }
        w = w.plus(cells[i].advance);
        i = i + 1;
    }
    assert(cells@.take(cells.len() as int) =~= cells@);
    w
}

fn split_words(cells: &Vec<Cell>) -> (words: Vec<Vec<Cell>>)
    ensures
        views(words@) == words_of(cells@),
{
    let mut words: Vec<Vec<Cell>> = Vec::new();
    let mut open: bool = false;
    let mut i: usize = 0;
    assert(views(words@) =~= words_upto(cells@, 0).0);
    while i < cells.len()
        invariant
            i <= cells.len(),
            views(words@) == words_upto(cells@, i as int).0,
            open == words_upto(cells@, i as int).1,
            open ==> words.len() > 0,
        decreases cells.len() - i,
    {
        let cell: Cell = cells[i];
        let ghost before = views(words@);
        if space(cell.c) {
            open = false;
        } else if open {
            let last: usize = words.len() - 1;
            let ghost old_last = words@[last as int]@;
            words[last].push(cell);
            proof {
                assert(views(words@) =~= before.update(last as int, old_last.push(cell)));
            }
        } else {
            let word: Vec<Cell> = vec![cell];
            proof {
                assert(word@ =~= seq![cell]);
            }
            words.push(word);
            open = true;
            proof {
                assert(views(words@) =~= before.push(seq![cell]));
            }
        }
        i = i + 1;
    }
    words
}

fn append_cells(line: &mut Vec<Cell>, more: &Vec<Cell>)
    ensures
        final(line)@ == old(line)@ + more@,
{
    let mut i: usize = 0;
    while i < more.len()
        invariant
            i <= more.len(),
            line@ == old(line)@ + more@.take(i as int),
        decreases more.len() - i,
    {
        line.push(more[i]);
        i = i + 1;
        assert(line@ =~= old(line)@ + more@.take(i as int));
    }
    assert(line@ =~= old(line)@ + more@);
}

/// Wraps a line to a width, adding the lines that it makes.
pub fn wrap_line(cells: &Vec<Cell>, blank: Cell, limit: Float32, out: &mut Vec<Vec<Cell>>)
    ensures
        views(final(out)@) == views(old(out)@) + wrapped(cells@, blank, limit@),
{
    let ghost first = views(out@);
    let words: Vec<Vec<Cell>> = split_words(cells);
    let ghost ws = views(words@);
    let lone: Vec<Cell> = vec![blank];
    proof {
        assert(lone@ =~= seq![blank]);
    }
    let gap: Float32 = measure(&lone);
    let mut line: Vec<Cell> = Vec::new();
    let mut width: Float32 = n32(0);
    let mut i: usize = 0;
    assert(views(out@) =~= first + wrapped_upto(ws, 0, blank, limit@).done);
    while i < words.len()
        invariant
            i <= words.len(),
            ws == views(words@),
            gap@ == width_of(seq![blank]),
            views(out@) == first + wrapped_upto(ws, i as int, blank, limit@).done,
            line@ == wrapped_upto(ws, i as int, blank, limit@).line,
            width@ == wrapped_upto(ws, i as int, blank, limit@).width,
        decreases words.len() - i,
    {
        let ghost w = wrapped_upto(ws, i as int, blank, limit@);
        let word: &Vec<Cell> = &words[i];
        assert(ws[i as int] == word@);
        let ww: Float32 = measure(word);
        let sep: Float32 = if line.len() == 0 {
            n32(0)
        } else {
            gap
        };
        if limit.less_than(width.plus(sep).plus(ww)) && line.len() > 0 {
            let ghost held = views(out@);
            let ghost full = line@;
            out.push(line);
            line = Vec::new();
            width = n32(0);
            proof {
                assert(views(out@) =~= held.push(full));
                assert(views(out@) =~= first + w.done.push(full));
            }
        }
        if line.len() > 0 {
            line.push(blank);
            width = width.plus(sep);
        }
        let ghost start = line@;
        append_cells(&mut line, word);
        width = width.plus(ww);
        proof {
            assert(Seq::<Cell>::empty() + word@ =~= word@);
            if w.line.len() == 0 {
                assert(w.line =~= Seq::<Cell>::empty());
            }
        }
        i = i + 1;
    }
    if line.len() > 0 {
        let ghost held = views(out@);
        let ghost rest = line@;
        out.push(line);
        proof {
            assert(views(out@) =~= held.push(rest));
            assert(views(out@) =~= first + wrapped(cells@, blank, limit@));
        }
    }
}

fn split_raw(cells: &Vec<Cell>) -> (r: Vec<Vec<Cell>>)
    ensures
        views(r@) == raw_lines(cells@),
{
    let mut done: Vec<Vec<Cell>> = Vec::new();
    let mut line: Vec<Cell> = Vec::new();
    let mut i: usize = 0;
    assert(views(done@) =~= raw_lines_upto(cells@, 0).0);
    assert(line@ =~= raw_lines_upto(cells@, 0).1);
    while i < cells.len()
        invariant
            i <= cells.len(),
            views(done@) == raw_lines_upto(cells@, i as int).0,
            line@ == raw_lines_upto(cells@, i as int).1,
        decreases cells.len() - i,
    {
        let ghost held = views(done@);
        let ghost cur = line@;
        if cells[i].c == '\n' {
            done.push(line);
            line = Vec::new();
            proof {
                assert(views(done@) =~= held.push(cur));
                assert(line@ =~= Seq::<Cell>::empty());
            }
        } else {
            line.push(cells[i]);
        }
        i = i + 1;
    }
    let ghost held = views(done@);
    let ghost cur = line@;
    done.push(line);
    assert(views(done@) =~= held.push(cur));
    done
}

/// The lines of a text.
pub fn lines_of(cells: &Vec<Cell>, blank: Cell, wrap: Float32) -> (r: Vec<Vec<Cell>>)
    ensures
        views(r@) == text_lines(cells@, blank, wrap@),
{
    let raw: Vec<Vec<Cell>> = split_raw(cells);
    if !wrap.is_positive() {
        return raw;
    }
    let ghost rs = views(raw@);
    let mut out: Vec<Vec<Cell>> = Vec::new();
    let mut i: usize = 0;
    assert(views(out@) =~= wrapped_all(rs.take(0), blank, wrap@));
    while i < raw.len()
        invariant
            i <= raw.len(),
            rs == views(raw@),
            views(out@) == wrapped_all(rs.take(i as int), blank, wrap@),
        decreases raw.len() - i,
    {
        proof {
            assert(rs.take(i + 1).drop_last() =~= rs.take(i as int));
            assert(rs.take(i + 1).last() == raw@[i as int]@);
        }
        wrap_line(&raw[i], blank, wrap, &mut out);
        i = i + 1;
    }
    assert(rs.take(raw.len() as int) =~= rs);
    out
}

/// The measures of a font at a size.
#[derive(Clone, Copy, Debug)]
pub struct FontMetrics {
    pub height: Float32,
    pub ascent: Float32,
}

/// The width of the widest of some lines, at least zero.
pub open spec fn widest(lines: Seq<Seq<Cell>>) -> Number
    decreases lines.len(),
{
    if lines.len() == 0 {
        num(0)
    } else {
        larger(widest(lines.drop_last()), width_of(lines.last()))
    }
}

/// The space between two lines: a quarter of the size.
pub open spec fn line_gap(size: Number) -> Number {
    product(single(), size, (Float32 { bits: 0x3e80_0000 })@)
}

/// The width of a block of lines, at least one.
pub open spec fn block_width(lines: Seq<Seq<Cell>>) -> Number {
    larger(widest(lines), num(1))
}

/// The height of a block of `n` lines.
pub open spec fn block_height(n: int, m: FontMetrics, size: Number) -> Number {
    sum(
        single(),
        product(single(), m.height@, num(n)),
        product(single(), line_gap(size), num(if n > 0 { n - 1 } else { 0 })),
    )
}

/// Which part of the free width of a line lies to its left.
pub open spec fn align_factor(a: TextAlign) -> Number {
    match a {
        TextAlign::Left => num(0),
        TextAlign::Center => (Float32 { bits: HALF_BITS })@,
        TextAlign::Right => num(1),
    }
}

fn align_x(a: TextAlign) -> (r: Float32)
    ensures
        r@ == align_factor(a),
{
    match a {
        TextAlign::Left => n32(0),
        TextAlign::Center => Float32 { bits: HALF_BITS },
        TextAlign::Right => n32(1),
    }
}

pub open spec fn half(x: Number) -> Number {
    quotient(single(), x, num(2))
}

/// Where the pen starts on a line.
pub open spec fn line_start(line: Seq<Cell>, total: Number, cx: Number, align: TextAlign) -> Number {
    sum(
        single(),
        difference(single(), cx, half(total)),
        product(single(), difference(single(), total, width_of(line)), align_factor(align)),
    )
}

/// Where the pen is before the `j`th character of a line.
pub open spec fn pen_at(line: Seq<Cell>, start: Number, j: int) -> Number
    decreases j,
{
    if j <= 0 {
        start
    } else {
        sum(single(), pen_at(line, start, j - 1), line[j - 1].advance@)
    }
}

/// The height of the first line: the block is centered on `cy`.
pub open spec fn first_baseline(cy: Number, total_h: Number, m: FontMetrics, size: Number) -> Number {
    sum(
        single(),
        sum(single(), difference(single(), cy, half(total_h)), m.ascent@),
        product(single(), size, (Float32 { bits: HALF_BITS })@),
    )
}

/// The height of the `i`th line.
pub open spec fn baseline(first: Number, m: FontMetrics, size: Number, i: int) -> Number
    decreases i,
{
    if i <= 0 {
        first
    } else {
        sum(single(), baseline(first, m, size, i - 1), sum(single(), m.height@, line_gap(size)))
    }
}

/// How many characters the lines hold.
pub open spec fn char_count(lines: Seq<Seq<Cell>>) -> nat
    decreases lines.len(),
{
    if lines.len() == 0 {
        0
    } else {
        char_count(lines.drop_last()) + lines.last().len()
    }
}

/// How many characters are drawn.
pub open spec fn visible_chars(total: int, typewriter: bool, reveal: Number) -> int {
    if typewriter {
        let n = to_integer(
            single(),
            Toward::Zero,
            product(single(), num(total), clamp_number(reveal, num(0), num(1))),
            0,
            u64::MAX as int,
        );
        if n < total {
            n
        } else {
            total
        }
    } else {
        total
    }
}

/// A character at its place.
pub struct GlyphView {
    pub c: char,
    pub x: Number,
    pub y: Number,
}

/// A character at its place.
#[derive(Clone, Copy, Debug)]
pub struct Glyph {
    pub c: char,
    pub x: Float32,
    pub y: Float32,
}

impl View for Glyph {
    type V = GlyphView;

    open spec fn view(&self) -> GlyphView {
        GlyphView { c: self.c, x: self.x@, y: self.y@ }
    }
}

/// The first `n` characters of a line at their places, from `done` characters on,
/// as far as they are visible.
pub open spec fn line_glyphs(
    line: Seq<Cell>,
    start: Number,
    y: Number,
    done: int,
    visible: int,
    n: int,
) -> Seq<GlyphView>
    decreases n,
{
    if n <= 0 {
        Seq::empty()
    } else {
        let before = line_glyphs(line, start, y, done, visible, n - 1);
        if done + (n - 1) < visible {
            before.push(GlyphView { c: line[n - 1].c, x: pen_at(line, start, n - 1), y })
        } else {
            before
        }
    }
}

/// The block of a text.
pub struct BlockView {
    pub lines: Seq<Seq<Cell>>,
    pub width: Number,
    pub height: Number,
    pub cx: Number,
    pub cy: Number,
}

/// The characters of the first `n` lines at their places.
pub open spec fn block_glyphs(
    b: BlockView,
    align: TextAlign,
    m: FontMetrics,
    size: Number,
    visible: int,
    n: int,
) -> Seq<GlyphView>
    decreases n,
{
    if n <= 0 {
        Seq::empty()
    } else {
        let line = b.lines[n - 1];
        block_glyphs(b, align, m, size, visible, n - 1) + line_glyphs(
            line,
            line_start(line, b.width, b.cx, align),
            baseline(first_baseline(b.cy, b.height, m, size), m, size, n - 1),
            char_count(b.lines.take(n - 1)) as int,
            visible,
            line.len() as int,
        )
    }
}

/// The size of a font, at least one.
pub open spec fn text_size(style: TextStyleView) -> Number {
    larger(style.font_size@, num(1))
}

/// The block of a text in a frame of `dw` by `dh`.
pub open spec fn text_block(
    cells: Seq<Cell>,
    blank: Cell,
    style: TextStyleView,
    m: FontMetrics,
    t: Transform,
    dw: int,
    dh: int,
) -> BlockView {
    let lines = text_lines(cells, blank, style.word_wrap@);
    BlockView {
        lines,
        width: block_width(lines),
        height: block_height(lines.len() as int, m, text_size(style)),
        cx: product(single(), num(dw), t.x@),
        cy: product(single(), num(dh), t.y@),
    }
}

/// The box behind a block of text, with its padding.
pub open spec fn block_box(b: BlockView, padding: Number, cos: Number, sin: Number) -> BoxView {
    let pad = larger(padding, num(0));
    let twice = product(single(), pad, num(2));
    box_of(
        difference(single(), difference(single(), b.cx, half(b.width)), pad),
        difference(single(), difference(single(), b.cy, half(b.height)), pad),
        sum(single(), b.width, twice),
        sum(single(), b.height, twice),
        cos,
        sin,
    )
}

/// A text laid out: its center, the box behind it, and the characters to be drawn.
#[derive(Clone, Debug)]
pub struct TextLayout {
    pub cx: Float32,
    pub cy: Float32,
    /// The cosine and sine of the angle by which it is turned.
    pub cos: Float32,
    pub sin: Float32,
    pub background: Option<TurnedBox>,
    pub glyphs: Vec<Glyph>,
}

proof fn lemma_char_count_prefix(lines: Seq<Seq<Cell>>, n: int)
    requires
        0 <= n <= lines.len(),
    ensures
        char_count(lines.take(n)) <= char_count(lines),
    decreases lines.len(),
{
    if n == lines.len() {
        assert(lines.take(n) =~= lines);
    } else {
        lemma_char_count_prefix(lines.drop_last(), n);
        assert(lines.drop_last().take(n) =~= lines.take(n));
    }
}

fn widest_of(lines: &Vec<Vec<Cell>>) -> (w: Float32)
    ensures
        w@ == widest(views(lines@)),
{
    let ghost vs = views(lines@);
    let mut w: Float32 = n32(0);
    let mut i: usize = 0;
    while i < lines.len()
        invariant
            i <= lines.len(),
            vs == views(lines@),
            w@ == widest(vs.take(i as int)),
        decreases lines.len() - i,
    {
        proof {
            assert(vs.take(i + 1).drop_last() =~= vs.take(i as int));
            assert(vs.take(i + 1).last() == lines@[i as int]@);
        }
        w = w.maximum(measure(&lines[i]));
        i = i + 1;
    }
    assert(vs.take(lines.len() as int) =~= vs);
    w
}

/// The characters of a text to draw, or `None` where there are more than can be
/// counted.
fn total_chars(lines: &Vec<Vec<Cell>>) -> (r: Option<usize>)
    ensures
        match r {
            Some(n) => n == char_count(views(lines@)),
            None => char_count(views(lines@)) > usize::MAX,
        },
{
    let ghost vs = views(lines@);
    let mut n: usize = 0;
    let mut i: usize = 0;
    while i < lines.len()
        invariant
            i <= lines.len(),
            vs == views(lines@),
            n == char_count(vs.take(i as int)),
        decreases lines.len() - i,
    {
        proof {
            assert(vs.take(i + 1).drop_last() =~= vs.take(i as int));
            lemma_char_count_prefix(vs, i + 1);
        }
        match n.checked_add(lines[i].len()) {
            Some(m) => {
                n = m;
            },
            None => {
                return None;
            },
        }
        i = i + 1;
    }
    assert(vs.take(lines.len() as int) =~= vs);
    Some(n)
}

fn push_line(
    out: &mut Vec<Glyph>,
    line: &Vec<Cell>,
    start: Float32,
    y: Float32,
    done: usize,
    visible: usize,
)
    requires
        done + line.len() <= usize::MAX,
    ensures
        views(final(out)@) == views(old(out)@) + line_glyphs(
            line@,
            start@,
            y@,
            done as int,
            visible as int,
            line.len() as int,
        ),
{
    let ghost first = views(out@);
    let mut pen: Float32 = start;
    let mut j: usize = 0;
    assert(views(out@) =~= first + line_glyphs(line@, start@, y@, done as int, visible as int, 0));
    while j < line.len()
        invariant
            j <= line.len(),
            done + line.len() <= usize::MAX,
            pen@ == pen_at(line@, start@, j as int),
            views(out@) == first + line_glyphs(
                line@,
                start@,
                y@,
                done as int,
                visible as int,
                j as int,
            ),
        decreases line.len() - j,
    {
        let ghost held = views(out@);
        let ghost before = line_glyphs(line@, start@, y@, done as int, visible as int, j as int);
        if done + j < visible {
            let g: Glyph = Glyph { c: line[j].c, x: pen, y };
            out.push(g);
            proof {
                assert(views(out@) =~= held.push(g@));
                assert(held.push(g@) =~= first + before.push(g@));
            }
        }
        pen = pen.plus(line[j].advance);
        j = j + 1;
    }
}

/// Lays out a text in a frame of `dw` by `dh` pixels. `cells` are its characters
/// with their advances, `blank` is a space, `cos` and `sin` are those of its angle.
/// `None` where the text has more characters than can be counted.
pub fn lay_out(
    cells: &Vec<Cell>,
    blank: Cell,
    style: &TextStyle,
    m: FontMetrics,
    t: &Transform,
    dw: u32,
    dh: u32,
    cos: Float32,
    sin: Float32,
    reveal: Float32,
) -> (r: Option<TextLayout>)
    ensures
        ({
            let b = text_block(cells@, blank, style@, m, *t, dw as int, dh as int);
            let size = text_size(style@);
            let total = char_count(b.lines);
            match r {
                Some(l) => {
                    &&& total <= usize::MAX
                    &&& l.cx@ == b.cx
                    &&& l.cy@ == b.cy
                    &&& l.cos == cos
                    &&& l.sin == sin
                    &&& l.background.is_some() == (style.background@[3] > 0)
                    &&& l.background.is_some() ==> l.background.unwrap()@ == block_box(
                        b,
                        style.box_padding@,
                        cos@,
                        sin@,
                    )
                    &&& views(l.glyphs@) == block_glyphs(
                        b,
                        style.align,
                        m,
                        size,
                        visible_chars(total as int, style.typewriter, reveal@),
                        b.lines.len() as int,
                    )
                },
                None => total > usize::MAX,
            }
        }),
{
    let ghost b = text_block(cells@, blank, style@, m, *t, dw as int, dh as int);
    let size: Float32 = style.font_size.maximum(n32(1));
    let lines: Vec<Vec<Cell>> = lines_of(cells, blank, style.word_wrap);
    let total: usize = match total_chars(&lines) {
        Some(n) => n,
        None => {
            return None;
        },
    };
    let n: usize = lines.len();
    let gap: Float32 = size.times(Float32 { bits: 0x3e80_0000 });
    let width: Float32 = widest_of(&lines).maximum(n32(1));
    let height: Float32 = m.height.times(Float32::from_u64(n as u64)).plus(
        gap.times(
            Float32::from_u64(
                if n > 0 {
                    (n - 1) as u64
                } else {
                    0
                },
            ),
        ),
    );
    let cx: Float32 = n32(dw as i64).times(t.x);
    let cy: Float32 = n32(dh as i64).times(t.y);
    let two: Float32 = n32(2);
    let background: Option<TurnedBox> = if style.background[3] > 0 {
        let pad: Float32 = style.box_padding.maximum(n32(0));
        let twice: Float32 = pad.times(two);
        Some(
            TurnedBox::new(
                cx.minus(width.over(two)).minus(pad),
                cy.minus(height.over(two)).minus(pad),
                width.plus(twice),
                height.plus(twice),
                cos,
                sin,
            ),
        )
    } else {
        None
    };
    let visible: usize = if style.typewriter {
        let shown: u64 = Float32::from_u64(total as u64).times(
            reveal.clamped(n32(0), n32(1)),
        ).to_u64(Toward::Zero);
        if shown < total as u64 {
            shown as usize
        } else {
            total
        }
    } else {
        total
    };
    let ghost vis = visible_chars(total as int, style.typewriter, reveal@);
    assert(visible == vis);
    let ghost first = first_baseline(b.cy, b.height, m, size@);
    let mut y: Float32 = cy.minus(height.over(two)).plus(m.ascent).plus(
        size.times(Float32 { bits: HALF_BITS }),
    );
    let mut glyphs: Vec<Glyph> = Vec::new();
    let mut done: usize = 0;
    let mut i: usize = 0;
    proof {
        assert(b.lines == views(lines@));
        assert(b.width == width@);
        assert(b.height == height@);
        assert(views(glyphs@) =~= block_glyphs(b, style.align, m, size@, vis, 0));
        assert(char_count(b.lines.take(0)) == 0);
    }
    while i < n
        invariant
            i <= n,
            n == lines.len(),
            b.lines == views(lines@),
            b.width == width@,
            b.height == height@,
            b.cx == cx@,
            gap@ == line_gap(size@),
            total == char_count(b.lines),
            visible == vis,
            two@ == num(2),
            first == first_baseline(b.cy, b.height, m, size@),
            y@ == baseline(first, m, size@, i as int),
            done == char_count(b.lines.take(i as int)),
            views(glyphs@) == block_glyphs(b, style.align, m, size@, vis, i as int),
        decreases n - i,
    {
        let line: &Vec<Cell> = &lines[i];
        proof {
            assert(b.lines[i as int] == line@);
            assert(b.lines.take(i + 1).drop_last() =~= b.lines.take(i as int));
            assert(b.lines.take(i + 1).last() == line@);
            lemma_char_count_prefix(b.lines, i + 1);
        }
        let start: Float32 = cx.minus(width.over(two)).plus(
            width.minus(measure(line)).times(align_x(style.align)),
        );
        push_line(&mut glyphs, line, start, y, done, visible);
        done = done + line.len();
        y = y.plus(m.height.plus(gap));
        i = i + 1;
    }
    Some(TextLayout { cx, cy, cos, sin, background, glyphs })
}

/// A stroke of a glyph: how far it is shifted, its color and its strength.
pub struct StrokeView {
    pub ox: Number,
    pub oy: Number,
    pub color: Seq<u8>,
    pub strength: Number,
}

/// A stroke of a glyph.
#[derive(Clone, Copy, Debug)]
pub struct GlyphStroke {
    pub ox: Float32,
    pub oy: Float32,
    pub color: [u8; 4],
    pub strength: Float32,
}

impl View for GlyphStroke {
    type V = StrokeView;

    open spec fn view(&self) -> StrokeView {
        StrokeView {
            ox: self.ox@,
            oy: self.oy@,
            color: self.color@,
            strength: self.strength@,
        }
    }
}

pub open spec fn shadow_stroke() -> StrokeView {
    StrokeView {
        ox: num(2),
        oy: num(2),
        color: seq![0u8, 0u8, 0u8, 255u8],
        strength: (Float32 { bits: 0x3eb3_3333 })@,
    }
}

pub open spec fn outline_stroke(ox: Number, oy: Number, color: Seq<u8>) -> StrokeView {
    StrokeView { ox, oy, color: seq![color[0], color[1], color[2], 255u8], strength: num(1) }
}

/// The strokes of an outline: four along the axes and four between them.
pub open spec fn outline_strokes(w: Number, color: Seq<u8>) -> Seq<StrokeView> {
    let f = (Float32 { bits: 0x3f33_3333 })@;
    let d = product(single(), w, f);
    let e = product(single(), negated(w), f);
    let o = num(0);
    seq![
        outline_stroke(w, o, color),
        outline_stroke(negated(w), o, color),
        outline_stroke(o, w, color),
        outline_stroke(o, negated(w), color),
        outline_stroke(d, d, color),
        outline_stroke(e, d, color),
        outline_stroke(d, e, color),
        outline_stroke(e, e, color),
    ]
}

/// There is an outline to draw.
pub open spec fn has_outline(style: TextStyleView) -> bool {
    less((Float32 { bits: 0x3a83_126f })@, style.outline_width@) && style.outline_color[3] > 0
}

/// The strokes of a glyph, in the order in which they are drawn: shadow, outline,
/// fill.
pub open spec fn strokes_of(style: TextStyleView) -> Seq<StrokeView> {
    let shadow = if style.shadow {
        seq![shadow_stroke()]
    } else {
        Seq::empty()
    };
    let outline = if has_outline(style) {
        outline_strokes(style.outline_width@, style.outline_color)
    } else {
        Seq::empty()
    };
    shadow + outline + seq![
        StrokeView { ox: num(0), oy: num(0), color: style.color, strength: num(1) },
    ]
}

fn outline_at(ox: Float32, oy: Float32, color: &[u8; 4]) -> (s: GlyphStroke)
    ensures
        s@ == outline_stroke(ox@, oy@, color@),
{
    let c: [u8; 4] = [color[0], color[1], color[2], 255];
    proof {
        assert(c@ =~= seq![color@[0], color@[1], color@[2], 255u8]);
    }
    GlyphStroke { ox, oy, color: c, strength: n32(1) }
}

/// The strokes of a glyph, in the order in which they are drawn.
pub fn glyph_strokes(style: &TextStyle) -> (r: Vec<GlyphStroke>)
    ensures
        views(r@) == strokes_of(style@),
{
    let mut r: Vec<GlyphStroke> = Vec::new();
    if style.shadow {
        let c: [u8; 4] = [0, 0, 0, 255];
        proof {
            assert(c@ =~= seq![0u8, 0u8, 0u8, 255u8]);
        }
        r.push(
            GlyphStroke {
                ox: n32(2),
                oy: n32(2),
                color: c,
                strength: Float32 { bits: 0x3eb3_3333 },
            },
        );
    }
    let ghost shadow = views(r@);
    assert(shadow =~= (if style@.shadow { seq![shadow_stroke()] } else { Seq::empty() }));
    if (Float32 { bits: 0x3a83_126f }).less_than(style.outline_width) && style.outline_color[3] > 0 {
        let w: Float32 = style.outline_width;
        let f: Float32 = Float32 { bits: 0x3f33_3333 };
        let d: Float32 = w.times(f);
        let e: Float32 = w.negate().times(f);
        let o: Float32 = n32(0);
        let c: &[u8; 4] = &style.outline_color;
        r.push(outline_at(w, o, c));
        r.push(outline_at(w.negate(), o, c));
        r.push(outline_at(o, w, c));
        r.push(outline_at(o, w.negate(), c));
        r.push(outline_at(d, d, c));
        r.push(outline_at(e, d, c));
        r.push(outline_at(d, e, c));
        r.push(outline_at(e, e, c));
        assert(views(r@) =~= shadow + outline_strokes(w@, c@));
    } else {
        assert(views(r@) =~= shadow + Seq::<StrokeView>::empty());
    }
    let ghost most = views(r@);
    let fill: GlyphStroke = GlyphStroke { ox: n32(0), oy: n32(0), color: style.color, strength: n32(1) };
    r.push(fill);
    assert(views(r@) =~= most.push(fill@));
    assert(views(r@) =~= strokes_of(style@));
    r
}

/// The pixels of the outline of a glyph: where it begins in the frame, and how much of
/// each pixel from there on is covered.
#[derive(Clone, Debug)]
pub struct GlyphPixels {
    pub x: Float32,
    pub y: Float32,
    pub cover: Vec<(u32, u32, Float32)>,
}

/// What a stroke of a text is painted with.
pub open spec fn ink_of(l: TextLayout, style: TextStyleView, s: StrokeView, opacity: Number) -> InkView {
    InkView {
        cx: l.cx@,
        cy: l.cy@,
        cos: l.cos@,
        sin: l.sin@,
        color: s.color,
        strength: s.strength,
        text_alpha: style.color[3],
        opacity,
    }
}

/// The frame after the first `n` pixels of a glyph were painted, shifted.
pub open spec fn shape_drawn(
    dst: Seq<u8>,
    dw: int,
    dh: int,
    ink: InkView,
    ox: Number,
    oy: Number,
    shape: GlyphPixels,
    n: int,
) -> Seq<u8>
    decreases n,
{
    if n <= 0 {
        dst
    } else {
        let (px, py, cover) = shape.cover@[n - 1];
        glyph_painted(
            shape_drawn(dst, dw, dh, ink, ox, oy, shape, n - 1),
            dw,
            dh,
            ink,
            sum(single(), sum(single(), shape.x@, num(px as int)), ox),
            sum(single(), sum(single(), shape.y@, num(py as int)), oy),
            cover@,
        )
    }
}

/// The frame after the first `n` strokes of a glyph.
pub open spec fn strokes_drawn(
    dst: Seq<u8>,
    dw: int,
    dh: int,
    l: TextLayout,
    style: TextStyleView,
    opacity: Number,
    shape: GlyphPixels,
    n: int,
) -> Seq<u8>
    decreases n,
{
    if n <= 0 {
        dst
    } else {
        let s = strokes_of(style)[n - 1];
        shape_drawn(
            strokes_drawn(dst, dw, dh, l, style, opacity, shape, n - 1),
            dw,
            dh,
            ink_of(l, style, s, opacity),
            s.ox,
            s.oy,
            shape,
            shape.cover@.len() as int,
        )
    }
}

/// The frame after the first `n` glyphs, each with all of its strokes; one without an
/// outline leaves it as it is.
pub open spec fn glyphs_drawn(
    dst: Seq<u8>,
    dw: int,
    dh: int,
    l: TextLayout,
    style: TextStyleView,
    opacity: Number,
    shapes: Seq<Option<GlyphPixels>>,
    n: int,
) -> Seq<u8>
    decreases n,
{
    if n <= 0 {
        dst
    } else {
        let before = glyphs_drawn(dst, dw, dh, l, style, opacity, shapes, n - 1);
        match shapes[n - 1] {
            Some(shape) => strokes_drawn(
                before,
                dw,
                dh,
                l,
                style,
                opacity,
                shape,
                strokes_of(style).len() as int,
            ),
            None => before,
        }
    }
}

/// The frame after the box behind a text was filled.
pub open spec fn box_drawn(
    dst: Seq<u8>,
    dw: int,
    dh: int,
    l: TextLayout,
    style: TextStyleView,
    opacity: Number,
) -> Seq<u8> {
    match l.background {
        Some(b) => box_filled(dst, dw, dh, b@, style.background, opacity),
        None => dst,
    }
}

/// The frame after a text was drawn: the box behind it, then its glyphs in order.
pub open spec fn text_drawn(
    dst: Seq<u8>,
    dw: int,
    dh: int,
    l: TextLayout,
    shapes: Seq<Option<GlyphPixels>>,
    style: TextStyleView,
    opacity: Number,
) -> Seq<u8> {
    glyphs_drawn(
        box_drawn(dst, dw, dh, l, style, opacity),
        dw,
        dh,
        l,
        style,
        opacity,
        shapes,
        shapes.len() as int,
    )
}

fn draw_shape(
    dst: &mut Vec<u8>,
    dw: u32,
    dh: u32,
    ink: &Stroke,
    ox: Float32,
    oy: Float32,
    shape: &GlyphPixels,
)
    requires
        has_room(old(dst).len() as int, dw as int, dh as int),
    ensures
        final(dst).len() == old(dst).len(),
        final(dst)@ == shape_drawn(
            old(dst)@,
            dw as int,
            dh as int,
            ink@,
            ox@,
            oy@,
            *shape,
            shape.cover@.len() as int,
        ),
{
    let ghost first = dst@;
    let mut k: usize = 0;
    while k < shape.cover.len()
        invariant
            k <= shape.cover.len(),
            dst.len() == first.len(),
            has_room(first.len() as int, dw as int, dh as int),
            dst@ == shape_drawn(first, dw as int, dh as int, ink@, ox@, oy@, *shape, k as int),
        decreases shape.cover.len() - k,
    {
        let (px, py, cover): (u32, u32, Float32) = shape.cover[k];
        let gx: Float32 = shape.x.plus(n32(px as i64)).plus(ox);
        let gy: Float32 = shape.y.plus(n32(py as i64)).plus(oy);
        emit_glyph(dst, dw, dh, ink, gx, gy, cover);
        k = k + 1;
    }
}

fn draw_glyph(
    dst: &mut Vec<u8>,
    dw: u32,
    dh: u32,
    layout: &TextLayout,
    strokes: &Vec<GlyphStroke>,
    style: &TextStyle,
    opacity: Float32,
    shape: &GlyphPixels,
)
    requires
        has_room(old(dst).len() as int, dw as int, dh as int),
        views(strokes@) == strokes_of(style@),
    ensures
        final(dst).len() == old(dst).len(),
        final(dst)@ == strokes_drawn(
            old(dst)@,
            dw as int,
            dh as int,
            *layout,
            style@,
            opacity@,
            *shape,
            strokes_of(style@).len() as int,
        ),
{
    let ghost first = dst@;
    let mut k: usize = 0;
    while k < strokes.len()
        invariant
            k <= strokes.len(),
            dst.len() == first.len(),
            has_room(first.len() as int, dw as int, dh as int),
            views(strokes@) == strokes_of(style@),
            dst@ == strokes_drawn(
                first,
                dw as int,
                dh as int,
                *layout,
                style@,
                opacity@,
                *shape,
                k as int,
            ),
        decreases strokes.len() - k,
    {
        let s: GlyphStroke = strokes[k];
        assert(strokes_of(style@)[k as int] == s@);
        let ink: Stroke = Stroke {
            cx: layout.cx,
            cy: layout.cy,
            cos: layout.cos,
            sin: layout.sin,
            color: s.color,
            strength: s.strength,
            text_alpha: style.color[3],
            opacity,
        };
        assert(ink@ == ink_of(*layout, style@, s@, opacity@));
        draw_shape(dst, dw, dh, &ink, s.ox, s.oy, shape);
        k = k + 1;
    }
}

/// Draws a text that was laid out: the box behind it, then each glyph with its strokes in
/// order. `shapes` are the pixels of the glyphs, in their order; a glyph without an
/// outline has none.
pub fn draw_text_billboard(
    dst: &mut Vec<u8>,
    dw: u32,
    dh: u32,
    layout: &TextLayout,
    shapes: &Vec<Option<GlyphPixels>>,
    style: &TextStyle,
    opacity: Float32,
)
    requires
        has_room(old(dst).len() as int, dw as int, dh as int),
    ensures
        final(dst).len() == old(dst).len(),
        final(dst)@ == text_drawn(
            old(dst)@,
            dw as int,
            dh as int,
            *layout,
            shapes@,
            style@,
            opacity@,
        ),
{
    let ghost start = dst@;
    if let Some(b) = &layout.background {
        fill_rect(dst, dw, dh, b, &style.background, opacity);
    }
    let ghost first = dst@;
    proof {
        assert(first == box_drawn(start, dw as int, dh as int, *layout, style@, opacity@));
    }
    let strokes: Vec<GlyphStroke> = glyph_strokes(style);
    let mut k: usize = 0;
    while k < shapes.len()
        invariant
            k <= shapes.len(),
            dst.len() == first.len(),
            has_room(first.len() as int, dw as int, dh as int),
            views(strokes@) == strokes_of(style@),
            dst@ == glyphs_drawn(
                first,
                dw as int,
                dh as int,
                *layout,
                style@,
                opacity@,
                shapes@,
                k as int,
            ),
        decreases shapes.len() - k,
    {
        if let Some(shape) = &shapes[k] {
            draw_glyph(dst, dw, dh, layout, &strokes, style, opacity, shape);
        }
        k = k + 1;
    }
}

/// A text of a frame: how it is laid out, the pixels of its glyphs, its style and its
/// opacity.
pub struct DrawnText<'a> {
    pub layout: TextLayout,
    pub shapes: Vec<Option<GlyphPixels>>,
    pub style: &'a TextStyle,
    pub opacity: Float32,
}

/// The frame after the first `n` texts, each over those before it; a text for which there
/// is no font leaves it as it is.
pub open spec fn texts_drawn(
    dst: Seq<u8>,
    dw: int,
    dh: int,
    texts: Seq<Option<DrawnText<'_>>>,
    n: int,
) -> Seq<u8>
    decreases n,
{
    if n <= 0 {
        dst
    } else {
        let below = texts_drawn(dst, dw, dh, texts, n - 1);
        match texts[n - 1] {
            Some(t) => text_drawn(below, dw, dh, t.layout, t.shapes@, t.style@, t.opacity@),
            None => below,
        }
    }
}

/// Draws the texts of a frame over what is there, from the bottom to the top.
pub fn draw_texts(dst: &mut Vec<u8>, dw: u32, dh: u32, texts: &Vec<Option<DrawnText<'_>>>)
    requires
        has_room(old(dst).len() as int, dw as int, dh as int),
    ensures
        final(dst).len() == old(dst).len(),
        final(dst)@ == texts_drawn(
            old(dst)@,
            dw as int,
            dh as int,
            texts@,
            texts@.len() as int,
        ),
{
    let ghost first = dst@;
    let mut k: usize = 0;
    while k < texts.len()
        invariant
            k <= texts.len(),
            dst.len() == first.len(),
            has_room(first.len() as int, dw as int, dh as int),
            dst@ == texts_drawn(first, dw as int, dh as int, texts@, k as int),
        decreases texts.len() - k,
    {
        if let Some(t) = &texts[k] {
            draw_text_billboard(dst, dw, dh, &t.layout, &t.shapes, t.style, t.opacity);
        }
        k = k + 1;
    }
}

/// All the characters of some words, one after the other.
pub open spec fn flattened(words: Seq<Seq<Cell>>) -> Seq<Cell>
    decreases words.len(),
{
    if words.len() == 0 {
        Seq::empty()
    } else {
        flattened(words.drop_last()) + words.last()
    }
}

/// The first `n` characters without white space.
pub open spec fn solid(cells: Seq<Cell>, n: int) -> Seq<Cell>
    decreases n,
{
    if n <= 0 {
        Seq::empty()
    } else if is_space(cells[n - 1].c) {
        solid(cells, n - 1)
    } else {
        solid(cells, n - 1).push(cells[n - 1])
    }
}

/// Splitting a line into words loses no character but white space, adds none and
/// keeps their order, and no word is empty.
pub proof fn law_words_keep_the_text(cells: Seq<Cell>)
    ensures
        flattened(words_of(cells)) == solid(cells, cells.len() as int),
        forall|i: int| 0 <= i < words_of(cells).len() ==> (#[trigger] words_of(cells)[i]).len() > 0,
{
    lemma_words_upto(cells, cells.len() as int);
}

proof fn lemma_words_upto(cells: Seq<Cell>, n: int)
    requires
        0 <= n <= cells.len(),
    ensures
        flattened(words_upto(cells, n).0) == solid(cells, n),
        forall|i: int|
            0 <= i < words_upto(cells, n).0.len() ==> (#[trigger] words_upto(cells, n).0[i]).len() > 0,
        words_upto(cells, n).1 ==> words_upto(cells, n).0.len() > 0,
    decreases n,
{
    if n > 0 {
        lemma_words_upto(cells, n - 1);
        let (words, open) = words_upto(cells, n - 1);
        let cell = cells[n - 1];
        let now = words_upto(cells, n).0;
        if is_space(cell.c) {
        } else if open {
            assert(now.drop_last() =~= words.drop_last());
            assert(flattened(now) =~= flattened(words).push(cell));
        } else {
            assert(now.drop_last() =~= words);
            assert(flattened(now) =~= flattened(words).push(cell));
        }
    }
}

/// What some whole numbers add up to.
pub open spec fn total_of(a: Seq<int>) -> int
    decreases a.len(),
{
    if a.len() == 0 {
        0
    } else {
        total_of(a.drop_last()) + a.last()
    }
}

/// The characters of a line move the pen by so many whole pixels each.
pub open spec fn moves_by(line: Seq<Cell>, a: Seq<int>) -> bool {
    &&& a.len() == line.len()
    &&& forall|j: int|
        #![trigger a[j]]
        #![trigger line[j]]
        0 <= j < line.len() ==> 0 <= a[j] && line[j].advance@ == num(a[j])
}

proof fn lemma_total_grows(a: Seq<int>, j: int)
    requires
        0 <= j <= a.len(),
        forall|i: int| 0 <= i < a.len() ==> 0 <= #[trigger] a[i],
    ensures
        0 <= total_of(a.take(j)) <= total_of(a),
    decreases a.len(),
{
    if j == a.len() {
        assert(a.take(j) =~= a);
        if a.len() > 0 {
            lemma_total_grows(a.drop_last(), a.len() - 1);
            assert(a.drop_last().take(a.len() - 1) =~= a.drop_last());
        }
    } else {
        lemma_total_grows(a.drop_last(), j);
        assert(a.drop_last().take(j) =~= a.take(j));
    }
}

/// A whole number as so many halves.
proof fn lemma_whole(i: int)
    requires
        -0x80_0000 < i < 0x80_0000,
    ensures
        num(i) == halves(2 * i),
        num(i) == integer(single(), i),
        holds(single(), i),
{
    lemma2_to64();
    law_integers_are_exact(single(), i);
    lemma_halves(i);
}

proof fn lemma_whole_width(line: Seq<Cell>, a: Seq<int>)
    requires
        moves_by(line, a),
        total_of(a) < 0x80_0000,
    ensures
        width_of(line) == num(total_of(a)),
        0 <= total_of(a),
    decreases line.len(),
{
    lemma_total_grows(a, a.len() as int);
    if line.len() > 0 {
        let (rest, b) = (line.drop_last(), a.drop_last());
        assert(a.last() == a[a.len() - 1] && line.last() == line[a.len() - 1]);
        assert forall|j: int| 0 <= j < rest.len() implies 0 <= #[trigger] b[j]
            && rest[j].advance@ == num(b[j]) by {
            assert(b[j] == a[j]);
        }
        lemma_whole_width(rest, b);
        lemma_total_grows(b, b.len() as int);
        lemma_whole(total_of(b));
        lemma_whole(a.last());
        lemma_whole(total_of(a));
        law_integer_sums_are_exact(single(), total_of(b), a.last());
    }
}

proof fn lemma_whole_pen(line: Seq<Cell>, a: Seq<int>, s: int, j: int)
    requires
        moves_by(line, a),
        0 <= j <= line.len(),
        -0x80_0000 < s,
        s + 2 * total_of(a) < 0x80_0000,
    ensures
        pen_at(line, halves(s), j) == halves(s + 2 * total_of(a.take(j))),
        total_of(a.take(j)) >= 0,
    decreases j,
{
    lemma_total_grows(a, j);
    if j > 0 {
        lemma_whole_pen(line, a, s, j - 1);
        lemma_total_grows(a, j - 1);
        assert(a.take(j).drop_last() =~= a.take(j - 1));
        assert(a.take(j).last() == a[j - 1]);
        assert(line[j - 1].advance@ == num(a[j - 1]));
        lemma_whole(a[j - 1]);
        lemma_sum_of_halves(s + 2 * total_of(a.take(j - 1)), 2 * a[j - 1]);
    }
}

/// The lines of a block in whole pixels.
pub open spec fn lines_move_by(lines: Seq<Seq<Cell>>, advances: Seq<Seq<int>>) -> bool {
    &&& advances.len() == lines.len()
    &&& forall|i: int|
        #![trigger advances[i]]
        #![trigger lines[i]]
        0 <= i < lines.len() ==> moves_by(lines[i], advances[i])
}

/// The width of the widest line, in whole pixels.
proof fn lemma_whole_widest(lines: Seq<Seq<Cell>>, advances: Seq<Seq<int>>, limit: int) -> (m: int)
    requires
        lines_move_by(lines, advances),
        0 <= limit < 0x80_0000,
        forall|i: int| 0 <= i < lines.len() ==> total_of(#[trigger] advances[i]) <= limit,
    ensures
        widest(lines) == num(m),
        0 <= m <= limit,
        forall|i: int| 0 <= i < lines.len() ==> total_of(#[trigger] advances[i]) <= m,
        m == 0 || exists|i: int| 0 <= i < lines.len() && total_of(#[trigger] advances[i]) == m,
    decreases lines.len(),
{
    if lines.len() == 0 {
        0
    } else {
        let (ls, bs) = (lines.drop_last(), advances.drop_last());
        let last = lines.len() - 1;
        assert forall|i: int| 0 <= i < ls.len() implies moves_by(ls[i], #[trigger] bs[i])
            && total_of(bs[i]) <= limit by {
            assert(bs[i] == advances[i] && ls[i] == lines[i]);
        }
        assert forall|i: int| 0 <= i < ls.len() implies moves_by(#[trigger] ls[i], bs[i]) by {
            assert(bs[i] == advances[i] && ls[i] == lines[i]);
        }
        let k = lemma_whole_widest(ls, bs, limit);
        assert(moves_by(lines[last], advances[last]));
        let n = total_of(advances[last]);
        lemma_whole_width(lines[last], advances[last]);
        lemma_whole(k);
        lemma_whole(n);
        lemma_integers_in_order(single(), k, n);
        let m = if k < n {
            n
        } else {
            k
        };
        assert forall|i: int| 0 <= i < lines.len() implies total_of(#[trigger] advances[i]) <= m by {
            if i < last {
                assert(bs[i] == advances[i]);
            }
        }
        if k >= n && m != 0 {
            let i = choose|i: int| 0 <= i < ls.len() && total_of(#[trigger] bs[i]) == k;
            assert(bs[i] == advances[i]);
            assert(total_of(advances[i]) == m);
        }
        m
    }
}

/// The characters of a line, as far as they are visible.
proof fn lemma_line_glyphs(line: Seq<Cell>, start: Number, y: Number, done: int, visible: int, n: int)
    requires
        0 <= n <= line.len(),
    ensures
        ({
            let g = line_glyphs(line, start, y, done, visible, n);
            &&& g.len() == (if visible - done < 0 {
                0
            } else if visible - done < n {
                visible - done
            } else {
                n
            })
            &&& forall|j: int|
                0 <= j < g.len() ==> (#[trigger] g[j]) == (GlyphView {
                    c: line[j].c,
                    x: pen_at(line, start, j),
                    y,
                })
        }),
    decreases n,
{
    if n > 0 {
        lemma_line_glyphs(line, start, y, done, visible, n - 1);
    }
}

proof fn lemma_block_glyphs(
    b: BlockView,
    align: TextAlign,
    m: FontMetrics,
    size: Number,
    visible: int,
    n: int,
)
    requires
        0 <= n <= b.lines.len(),
        0 <= visible,
    ensures
        ({
            let g = block_glyphs(b, align, m, size, visible, n);
            let count = char_count(b.lines.take(n));
            &&& g.len() == (if visible < count {
                visible
            } else {
                count as int
            })
            &&& forall|i: int, j: int|
                #![trigger b.lines[i], pen_at(b.lines[i], line_start(b.lines[i], b.width, b.cx, align), j)]
                0 <= i < n && 0 <= j < b.lines[i].len() && char_count(b.lines.take(i)) + j < visible
                    ==> {
                    &&& char_count(b.lines.take(i)) + j < g.len()
                    &&& g[char_count(b.lines.take(i)) + j] == (GlyphView {
                        c: b.lines[i][j].c,
                        x: pen_at(b.lines[i], line_start(b.lines[i], b.width, b.cx, align), j),
                        y: baseline(first_baseline(b.cy, b.height, m, size), m, size, i),
                    })
                }
        }),
    decreases n,
{
    if n == 0 {
        assert(b.lines.take(0) =~= Seq::empty());
    } else {
        lemma_block_glyphs(b, align, m, size, visible, n - 1);
        let before = block_glyphs(b, align, m, size, visible, n - 1);
        let line = b.lines[n - 1];
        let done = char_count(b.lines.take(n - 1)) as int;
        let start = line_start(line, b.width, b.cx, align);
        let y = baseline(first_baseline(b.cy, b.height, m, size), m, size, n - 1);
        lemma_line_glyphs(line, start, y, done, visible, line.len() as int);
        let own = line_glyphs(line, start, y, done, visible, line.len() as int);
        assert(b.lines.take(n).drop_last() =~= b.lines.take(n - 1));
        assert(b.lines.take(n).last() == line);
        let g = block_glyphs(b, align, m, size, visible, n);
        assert(g == before + own);
        assert forall|i: int, j: int|
            #![trigger b.lines[i], pen_at(b.lines[i], line_start(b.lines[i], b.width, b.cx, align), j)]
            0 <= i < n && 0 <= j < b.lines[i].len() && char_count(b.lines.take(i)) + j < visible implies {
            &&& char_count(b.lines.take(i)) + j < g.len()
            &&& g[char_count(b.lines.take(i)) + j] == (GlyphView {
                c: b.lines[i][j].c,
                x: pen_at(b.lines[i], line_start(b.lines[i], b.width, b.cx, align), j),
                y: baseline(first_baseline(b.cy, b.height, m, size), m, size, i),
            })
        } by {
            let at = char_count(b.lines.take(i)) + j;
            if i < n - 1 {
                assert(at < before.len());
                assert(g[at] == before[at]);
            } else {
                assert(before.len() == done);
                assert(g[at] == own[j]);
            }
        }
    }
}

/// Where a line starts that is so many whole pixels wide.
proof fn lemma_whole_start(line: Seq<Cell>, a: Seq<int>, width: int, c: int, align: TextAlign) -> (s:
    int)
    requires
        moves_by(line, a),
        0 <= total_of(a) <= width < 0x20_0000,
        -0x20_0000 < c < 0x20_0000,
    ensures
        line_start(line, num(width), halves(c), align) == halves(s),
        align == TextAlign::Left ==> s == c - width,
        align == TextAlign::Center ==> s == c - total_of(a),
        align == TextAlign::Right ==> s == c + width - 2 * total_of(a),
{
    let f = single();
    let n = total_of(a);
    lemma_whole_width(line, a);
    lemma_whole(width);
    lemma_whole(n);
    lemma_whole(width - n);
    lemma_whole(0);
    lemma_whole(1);
    lemma_half_width(width);
    lemma_sum_of_halves(c, width);
    lemma_sum_of_halves(2 * width, 2 * n);
    lemma_halves(width - n);
    assert((width - n) * 0 == 0) by (nonlinear_arith);
    law_integer_products_are_exact(f, width - n, 0);
    law_multiplication_by_one_is_exact(f, width - n);
    let free = match align {
        TextAlign::Left => 0,
        TextAlign::Center => width - n,
        TextAlign::Right => 2 * (width - n),
    };
    lemma_sum_of_halves(c - width, free);
    c - width + free
}

proof fn lemma_half_width(width: int)
    requires
        0 <= width < 0x80_0000,
    ensures
        half(num(width)) == halves(width),
{
    reveal(quotient);
    lemma_whole(width);
    lemma_whole(2);
    lemma2_to64();
    lemma_pow2_adds(148, 1);
    lemma_pow2_pos(148);
    let (one, p) = (pow2(149), pow2(148));
    assert((width as nat * one) * one == (width as nat * p) * (2 * one) && 2 * one > 0)
        by (nonlinear_arith)
        requires
            one == p * 2,
            p > 0,
            width >= 0,
    ;
    lemma_exact(single(), false, width as nat, 148, 2 * one);
}

/// The lines of a text are aligned in its block, which is centered at the place of the
/// transform and as wide as the widest line: a line on the left starts at the left edge, one
/// on the right ends at the right edge, and a centered one leaves as much free on its left
/// as on its right. Each character stands behind those before it on its line. This holds
/// where the characters move the pen by whole pixels and the center lies on a half of one;
/// `center` and `x` count halves of a pixel. A typewriter hides nothing but the last
/// characters.
pub proof fn law_lines_are_aligned(
    cells: Seq<Cell>,
    blank: Cell,
    style: TextStyleView,
    m: FontMetrics,
    t: Transform,
    dw: int,
    dh: int,
    advances: Seq<Seq<int>>,
    width: int,
    center: int,
    visible: int,
    i: int,
    j: int,
) -> (x: int)
    requires
        lines_move_by(text_lines(cells, blank, style.word_wrap@), advances),
        1 <= width < 0x20_0000,
        forall|k: int| 0 <= k < advances.len() ==> total_of(#[trigger] advances[k]) <= width,
        width == 1 || exists|k: int|
            0 <= k < advances.len() && total_of(#[trigger] advances[k]) == width,
        product(single(), num(dw), t.x@) == halves(center),
        -0x20_0000 < center < 0x20_0000,
        0 <= i < advances.len(),
        0 <= j < advances[i].len(),
        char_count(text_lines(cells, blank, style.word_wrap@).take(i)) + j < visible,
    ensures
        ({
            let b = text_block(cells, blank, style, m, t, dw, dh);
            let lines = text_lines(cells, blank, style.word_wrap@);
            let g = block_glyphs(b, style.align, m, text_size(style), visible, lines.len() as int);
            let at = char_count(lines.take(i)) + j;
            let start = x - 2 * total_of(advances[i].take(j));
            let (left, right) = (center - width, center + width);
            let free = 2 * width - 2 * total_of(advances[i]);
            &&& at < g.len()
            &&& g[at].c == lines[i][j].c
            &&& g[at].x == halves(x)
            &&& style.align == TextAlign::Left ==> start == left
            &&& style.align == TextAlign::Right ==> start + 2 * total_of(advances[i]) == right
            &&& style.align == TextAlign::Center ==> start - left == right - (start + 2 * total_of(
                advances[i],
            ))
        }),
{
    let b = text_block(cells, blank, style, m, t, dw, dh);
    let lines = text_lines(cells, blank, style.word_wrap@);
    let w = lemma_whole_widest(lines, advances, width);
    lemma_whole(w);
    lemma_whole(1);
    lemma_integers_in_order(single(), w, 1);
    if width != 1 {
        let k = choose|k: int| 0 <= k < advances.len() && total_of(#[trigger] advances[k]) == width;
        assert(total_of(advances[k]) <= w);
    }
    assert(b.width == num(width));
    let (line, a) = (lines[i], advances[i]);
    assert(moves_by(line, a));
    lemma_total_grows(a, a.len() as int);
    assert(a.take(a.len() as int) =~= a);
    let s = lemma_whole_start(line, a, width, center, style.align);
    lemma_whole_pen(line, a, s, j);
    lemma_block_glyphs(b, style.align, m, text_size(style), visible, lines.len() as int);
    assert(b.lines[i] == line);
    assert(pen_at(line, line_start(line, b.width, b.cx, style.align), j) == halves(
        s + 2 * total_of(a.take(j)),
    ));
    s + 2 * total_of(a.take(j))
}

/// A quarter of a size that is a multiple of four.
proof fn lemma_quarter(g: int)
    requires
        0 <= g < 0x10_0000,
    ensures
        line_gap(num(4 * g)) == num(g),
{
    reveal(product);
    reveal(number_of_bits32);
    lemma_whole(4 * g);
    lemma_whole(g);
    lemma2_to64();
    lemma_pow2_adds(147, 2);
    lemma_pow2_adds(23, 124);
    lemma_pow2_pos(147);
    let (one, p, n) = (pow2(149), pow2(147), g as nat);
    assert((Float32 { bits: 0x3e80_0000 })@ == (Number::Finite {
        negative: false,
        units: 0x80_0000 * pow2(124),
    }));
    assert(((4 * g) as nat * one) * p == (n * one) * one) by (nonlinear_arith)
        requires
            one == p * 4,
            n == g,
            g >= 0,
    ;
    lemma_exact(single(), false, n, 149, one);
}

proof fn lemma_whole_baseline(y: int, m: FontMetrics, height: int, g: int, i: int)
    requires
        m.height@ == num(height),
        0 <= height < 0x1_0000,
        0 <= g < 0x1_0000,
        0 <= i < 0x10,
        -0x40_0000 < y < 0x40_0000,
    ensures
        baseline(halves(y), m, num(4 * g), i) == halves(y + 2 * (i * (height + g))),
    decreases i,
{
    assert(0 * (height + g) == 0) by (nonlinear_arith);
    if i > 0 {
        lemma_whole_baseline(y, m, height, g, i - 1);
        lemma_quarter(g);
        lemma_whole(height);
        lemma_whole(g);
        lemma_whole(height + g);
        lemma_sum_of_halves(2 * height, 2 * g);
        assert((i - 1) * (height + g) + (height + g) == i * (height + g) && 0 <= (i - 1) * (height
            + g) < 0x20_0000 && 0 <= i * (height + g) < 0x20_0000) by (nonlinear_arith)
            requires
                0 < i < 0x10,
                0 <= height + g < 0x2_0000,
        ;
        lemma_sum_of_halves(y + 2 * ((i - 1) * (height + g)), 2 * (height + g));
    }
}

/// The lines of a text stand below each other, each as far as a line of the font is high and
/// a quarter of the size, and the block that they make, without a gap behind the last one, is
/// centered at the place of the transform; the characters of the first line stand on the
/// ascent of the font and half of the size below its upper edge. This holds for up to sixteen
/// lines in whole pixels; `middle` and `y` count halves of one.
pub proof fn law_lines_stand_below_each_other(
    cells: Seq<Cell>,
    blank: Cell,
    style: TextStyleView,
    m: FontMetrics,
    t: Transform,
    dw: int,
    dh: int,
    height: int,
    ascent: int,
    g: int,
    middle: int,
    visible: int,
    i: int,
    j: int,
) -> (y: int)
    requires
        m.height@ == num(height),
        m.ascent@ == num(ascent),
        style.font_size@ == num(4 * g),
        0 <= height < 0x1_0000,
        0 <= ascent < 0x1_0000,
        0 < g < 0x1_0000,
        product(single(), num(dh), t.y@) == halves(middle),
        -0x8_0000 < middle < 0x8_0000,
        text_lines(cells, blank, style.word_wrap@).len() <= 0x10,
        0 <= i < text_lines(cells, blank, style.word_wrap@).len(),
        0 <= j < text_lines(cells, blank, style.word_wrap@)[i].len(),
        char_count(text_lines(cells, blank, style.word_wrap@).take(i)) + j < visible,
    ensures
        ({
            let b = text_block(cells, blank, style, m, t, dw, dh);
            let lines = text_lines(cells, blank, style.word_wrap@);
            let n = lines.len() as int;
            let glyphs = block_glyphs(b, style.align, m, text_size(style), visible, n);
            let at = char_count(lines.take(i)) + j;
            let total = n * height + (n - 1) * g;
            let upper = middle - total;
            &&& at < glyphs.len()
            &&& glyphs[at].c == lines[i][j].c
            &&& glyphs[at].y == halves(y)
            &&& y == upper + 2 * ascent + 4 * g + 2 * (i * (height + g))
        }),
{
    let b = text_block(cells, blank, style, m, t, dw, dh);
    let lines = text_lines(cells, blank, style.word_wrap@);
    let n = lines.len() as int;
    let f = single();
    lemma_whole(height);
    lemma_whole(ascent);
    lemma_whole(g);
    lemma_whole(4 * g);
    lemma_whole(1);
    lemma_whole(n);
    lemma_whole(n - 1);
    lemma_integers_in_order(f, 4 * g, 1);
    assert(text_size(style) == num(4 * g));
    lemma_quarter(g);
    assert(0 <= height * n < 0x10_0000 && 0 <= g * (n - 1) < 0x10_0000 && height * n == n * height
        && g * (n - 1) == (n - 1) * g) by (nonlinear_arith)
        requires
            0 <= height < 0x1_0000,
            0 <= g < 0x1_0000,
            1 <= n <= 0x10,
    ;
    lemma_whole(height * n);
    lemma_whole(g * (n - 1));
    law_integer_products_are_exact(f, height, n);
    law_integer_products_are_exact(f, g, n - 1);
    let total = height * n + g * (n - 1);
    lemma_whole(total);
    law_integer_sums_are_exact(f, height * n, g * (n - 1));
    assert(b.height == num(total));
    lemma_half_width(total);
    lemma_sum_of_halves(middle, total);
    lemma_sum_of_halves(middle - total, 2 * ascent);
    lemma_halves(4 * g);
    lemma_sum_of_halves(middle - total + 2 * ascent, 4 * g);
    let first = middle - total + 2 * ascent + 4 * g;
    lemma_whole_baseline(first, m, height, g, i);
    lemma_block_glyphs(b, style.align, m, text_size(style), visible, n);
    assert(b.lines[i] == lines[i]);
    assert(pen_at(b.lines[i], line_start(b.lines[i], b.width, b.cx, style.align), j) == pen_at(
        lines[i],
        line_start(lines[i], b.width, b.cx, style.align),
        j,
    ));
    first + 2 * (i * (height + g))
}

/// A text that is written letter by letter shows as many of its characters as correspond to
/// the part of its time that has passed, give or take a sixty-fourth of one; any other shows
/// all of them.
pub proof fn law_typewriters_keep_time(c: TextClipView, pts: int, total: int)
    requires
        c.timeline_start <= pts < c.timeline_end,
        c.timeline_end - c.timeline_start < 0x100_0000,
        0 <= total < 0x4000,
    ensures
        ({
            let n = visible_chars(total, c.style.typewriter, revealed(c, pts));
            let (passed, all) = (pts - c.timeline_start, c.timeline_end - c.timeline_start);
            &&& !c.style.typewriter ==> n == total
            &&& c.style.typewriter ==> 64 * (n * all) <= 64 * (total * passed) + all
            &&& c.style.typewriter ==> 64 * (total * passed) <= 64 * ((n + 1) * all) + all
        }),
{
    if c.style.typewriter {
        let (e, d) = (pts - c.timeline_start, c.timeline_end - c.timeline_start);
        let u = pow2(149);
        let f = single();
        reveal(product);
        reveal(less);
        reveal(to_integer);
        lemma2_to64();
        lemma2_to64_rest();
        lemma_pow2_pos(149);
        lemma_pow2_strictly_increases(64, 149);
        let q = lemma_part(e, d);
        lemma_whole(total);
        lemma_whole(0);
        lemma_whole(1);
        assert(0 * u == 0 && 1 * u == u) by (nonlinear_arith);
        let share = Number::Finite { negative: false, units: q };
        assert(revealed(c, pts) == share);
        assert(clamp_number(share, num(0), num(1)) == share);
        let (m, a) = (total as nat, (total as nat * u) * q);
        let mq = m * q;
        assert(a == mq * u && a <= ((m * u) * u)) by (nonlinear_arith)
            requires
                a == (m * u) * q,
                mq == m * q,
                q <= u,
        ;
        let v = rounded(24, a, u);
        lemma_rounded_bound(24, a, u);
        lemma_rounded_within(24, a, u, m, 149);
        assert(v * 0x100_0000 <= mq * 0x100_0001 + 0x100_0000 && mq * 0x100_0000 <= v * 0x100_0000
            + mq + 0x100_0000) by (nonlinear_arith)
            requires
                (v * u) * 0x100_0000 <= a * 0x100_0001 + u * 0x100_0000,
                a * 0x100_0000 <= (v * u) * 0x100_0000 + a + u * 0x100_0000,
                a == mq * u,
                u > 0,
        ;
        lemma_pow2_adds(16, 149);
        lemma_pow2_strictly_increases(165, 277);
        assert(m * u <= 0x1_0000 * u) by (nonlinear_arith)
            requires
                m <= 0x1_0000,
        ;
        assert(product(f, num(total), share) == (Number::Finite { negative: false, units: v }));
        let (n, r) = (v as int / u as int, v as int % u as int);
        lemma_fundamental_div_mod(v as int, u as int);
        lemma_mod_bound(v as int, u as int);
        let nu = n * u;
        assert(v == nu + r && 0 <= n <= total) by (nonlinear_arith)
            requires
                v == u * n + r,
                nu == n * u,
                0 <= r < u,
                v <= m * u,
                m == total,
                u > 0,
        ;
        assert(visible_chars(total, true, revealed(c, pts)) == n);
        // Times the whole time.
        let (qd, eu, ud) = (q * d, e * u, u * d);
        let (x, y, w) = (mq * d, total * eu, total * ud);
        assert((x - y) * 0x40_0000 <= w && (y - x) * 0x40_0000 <= w && x >= 0) by (nonlinear_arith)
            requires
                (qd - eu) * 0x40_0000 <= ud,
                (eu - qd) * 0x40_0000 <= ud,
                x == (m * q) * d,
                qd == q * d,
                y == total * eu,
                w == total * ud,
                m == total,
                total >= 0,
                d > 0,
                q >= 0,
        ;
        let (vd, nud) = (v * d, nu * d);
        assert(vd * 0x100_0000 <= x * 0x100_0001 + d * 0x100_0000 && x * 0x100_0000 <= vd
            * 0x100_0000 + x + d * 0x100_0000 && nud <= vd < nud + ud) by (nonlinear_arith)
            requires
                v * 0x100_0000 <= mq * 0x100_0001 + 0x100_0000,
                mq * 0x100_0000 <= v * 0x100_0000 + mq + 0x100_0000,
                x == mq * d,
                vd == v * d,
                nud == nu * d,
                ud == u * d,
                v == nu + r,
                0 <= r < u,
                d > 0,
        ;
        assert(w <= 0x4000 * ud && x <= w && d * 0x100_0000 <= ud) by (nonlinear_arith)
            requires
                w == total * ud,
                x == (m * q) * d,
                m == total,
                0 <= total <= 0x4000,
                ud == u * d,
                q <= u,
                d > 0,
                u >= 0x100_0000,
        ;
        assert(64 * nud <= 64 * y + ud);
        assert(64 * y <= 64 * (nud + ud) + ud);
        let (nd, te) = (n * d, total * e);
        assert(64 * nd <= 64 * te + d && 64 * te <= 64 * (nd + d) + d) by (nonlinear_arith)
            requires
                64 * nud <= 64 * y + ud,
                64 * y <= 64 * (nud + ud) + ud,
                nud == (n * u) * d,
                y == total * (e * u),
                ud == u * d,
                nd == n * d,
                te == total * e,
                u > 0,
        ;
        assert((n + 1) * d == nd + d) by (nonlinear_arith)
            requires
                nd == n * d,
        ;
    }
}

/// A word goes on the line under way where the line, a blank and the word are no wider than
/// the limit, and on a new one where they are; the first word of a line always stays on it.
/// This holds of whole pixels.
pub proof fn law_words_wrap_where_they_do_not_fit(
    w: Wrapping,
    word: Seq<Cell>,
    blank: Cell,
    line: int,
    gap: int,
    own: int,
    limit: int,
)
    requires
        w.width == num(line),
        width_of(seq![blank]) == num(gap),
        width_of(word) == num(own),
        0 <= line < 0x10_0000,
        0 <= gap < 0x10_0000,
        0 <= own < 0x10_0000,
        0 <= limit < 0x40_0000,
        w.line.len() == 0 ==> line == 0,
    ensures
        ({
            let r = wrapped_word(w, word, blank, num(limit));
            if w.line.len() == 0 {
                r.done == w.done && r.line == word && r.width == num(own)
            } else if line + gap + own <= limit {
                r.done == w.done && r.line == w.line + seq![blank] + word && r.width == num(
                    line + gap + own,
                )
            } else {
                r.done == w.done.push(w.line) && r.line == word && r.width == num(own)
            }
        }),
{
    let f = single();
    lemma_whole(0);
    lemma_whole(line);
    lemma_whole(gap);
    lemma_whole(own);
    lemma_whole(limit);
    lemma_whole(line + gap);
    lemma_whole(line + gap + own);
    law_integer_sums_are_exact(f, line, gap);
    law_integer_sums_are_exact(f, line + gap, own);
    law_integer_sums_are_exact(f, 0, own);
    law_integer_sums_are_exact(f, 0, 0);
    lemma_integers_in_order(f, limit, line + gap + own);
    assert(w.line.push(blank) + word =~= w.line + seq![blank] + word);
}

/// The box behind a text has its padding on all sides: it is as much wider and higher than
/// the block as twice the padding, and lies around the same center. This holds of whole
/// pixels, and of boxes that are not turned.
pub proof fn law_boxes_pad_their_text(
    b: BlockView,
    width: int,
    height: int,
    cx: int,
    cy: int,
    pad: int,
)
    requires
        b.width == num(width),
        b.height == num(height),
        b.cx == halves(cx),
        b.cy == halves(cy),
        0 <= width < 0x10_0000,
        0 <= height < 0x10_0000,
        -0x10_0000 < cx < 0x10_0000,
        -0x10_0000 < cy < 0x10_0000,
        0 <= pad < 0x8_0000,
    ensures
        block_box(b, num(pad), num(1), num(0)) == box_of(
            halves(cx - width - 2 * pad),
            halves(cy - height - 2 * pad),
            num(width + 2 * pad),
            num(height + 2 * pad),
            num(1),
            num(0),
        ),
{
    let f = single();
    lemma_whole(0);
    lemma_whole(2);
    lemma_whole(pad);
    lemma_whole(2 * pad);
    lemma_whole(width);
    lemma_whole(height);
    lemma_whole(width + 2 * pad);
    lemma_whole(height + 2 * pad);
    lemma_integers_in_order(f, pad, 0);
    law_integer_products_are_exact(f, pad, 2);
    law_integer_sums_are_exact(f, width, 2 * pad);
    law_integer_sums_are_exact(f, height, 2 * pad);
    lemma_half_width(width);
    lemma_half_width(height);
    lemma_sum_of_halves(cx, width);
    lemma_sum_of_halves(cy, height);
    lemma_sum_of_halves(cx - width, 2 * pad);
    lemma_sum_of_halves(cy - height, 2 * pad);
}

/// A glyph is drawn once in the color of the text, on top and in its place; before it comes
/// the outline, drawn in its own color at eight places around it, opposite to each other,
/// where there is one, and first of all a shadow to the lower right, where there is one.
pub proof fn law_strokes_surround_the_glyph(style: TextStyleView)
    ensures
        ({
            let s = strokes_of(style);
            let lined = less((Float32 { bits: 0x3a83_126f })@, style.outline_width@)
                && style.outline_color[3] > 0;
            let first = if style.shadow {
                1int
            } else {
                0
            };
            let w = style.outline_width@;
            &&& s.len() == first + (if lined {
                8int
            } else {
                0
            }) + 1
            &&& s.last().ox == num(0) && s.last().oy == num(0)
            &&& s.last().color == style.color && s.last().strength == num(1)
            &&& style.shadow ==> s[0].ox == num(2) && s[0].oy == num(2)
            &&& style.shadow ==> s[0].color[0] == 0 && s[0].color[1] == 0 && s[0].color[2] == 0
            &&& lined ==> {
                &&& s[first].ox == w && s[first].oy == num(0)
                &&& s[first + 1].ox == negated(w) && s[first + 1].oy == num(0)
                &&& s[first + 2].ox == num(0) && s[first + 2].oy == w
                &&& s[first + 3].ox == num(0) && s[first + 3].oy == negated(w)
                &&& s[first + 4].ox == s[first + 4].oy && s[first + 7].ox == s[first + 7].oy
                &&& s[first + 5].ox == s[first + 7].ox && s[first + 5].oy == s[first + 4].oy
                &&& s[first + 6].ox == s[first + 4].ox && s[first + 6].oy == s[first + 7].oy
                &&& forall|i: int|
                    first <= i < first + 8 ==> {
                        &&& (#[trigger] s[i]).color[0] == style.outline_color[0]
                        &&& s[i].color[1] == style.outline_color[1]
                        &&& s[i].color[2] == style.outline_color[2]
                    }
            }
        }),
{
}

/// A text comes before another in the frame: on a lower track, or earlier on the same one.
pub open spec fn text_below(a: TextLayerView, b: TextLayerView) -> bool {
    a.track < b.track || (a.track == b.track && a.clip < b.clip)
}

/// A layer of text is a text of a project that shows at a time.
pub open spec fn is_text_shown(p: ProjectView, l: TextLayerView, pts: int) -> bool {
    &&& 0 <= l.track < p.text_tracks.len()
    &&& 0 <= l.clip < p.text_tracks[l.track].clips.len()
    &&& p.text_tracks[l.track].clips[l.clip].timeline_start <= pts
    &&& pts < p.text_tracks[l.track].clips[l.clip].timeline_end
    &&& !p.text_tracks[l.track].clips[l.clip].style.typewriter ==> l.reveal == num(1)
}

/// A text of a project is one of some layers.
pub open spec fn is_shown_in(ls: Seq<TextLayerView>, track: int, clip: int) -> bool {
    exists|k: int| 0 <= k < ls.len() && (#[trigger] ls[k]).track == track && ls[k].clip == clip
}

proof fn lemma_track_texts(p: ProjectView, track: int, n: int, pts: int)
    requires
        0 <= track < p.text_tracks.len(),
        0 <= n <= p.text_tracks[track].clips.len(),
    ensures
        ({
            let ls = track_texts(p, track, n, pts);
            &&& forall|i: int|
                0 <= i < ls.len() ==> {
                    let l = #[trigger] ls[i];
                    is_text_shown(p, l, pts) && l.track == track && l.clip < n
                }
            &&& forall|i: int, j: int| 0 <= i < j < ls.len() ==> text_below(ls[i], ls[j])
            &&& forall|c: int|
                0 <= c < n && (#[trigger] p.text_tracks[track].clips[c]).timeline_start <= pts
                    < p.text_tracks[track].clips[c].timeline_end ==> is_shown_in(ls, track, c)
        }),
    decreases n,
{
    if n > 0 {
        lemma_track_texts(p, track, n - 1, pts);
        let before = track_texts(p, track, n - 1, pts);
        let ls = track_texts(p, track, n, pts);
        assert forall|c: int|
            0 <= c < n && (#[trigger] p.text_tracks[track].clips[c]).timeline_start <= pts
                < p.text_tracks[track].clips[c].timeline_end implies is_shown_in(ls, track, c) by {
            if c < n - 1 {
                assert(is_shown_in(before, track, c));
                let k = choose|k: int|
                    0 <= k < before.len() && (#[trigger] before[k]).track == track && before[k].clip
                        == c;
                assert(ls[k] == before[k]);
            } else {
                assert(ls[before.len() as int].clip == c);
            }
        }
    }
}

proof fn lemma_texts_upto(p: ProjectView, n: int, pts: int)
    requires
        0 <= n <= p.text_tracks.len(),
    ensures
        ({
            let ls = texts_upto(p, n, pts);
            &&& forall|i: int|
                0 <= i < ls.len() ==> {
                    let l = #[trigger] ls[i];
                    is_text_shown(p, l, pts) && l.track < n
                }
            &&& forall|i: int, j: int| 0 <= i < j < ls.len() ==> text_below(ls[i], ls[j])
            &&& forall|t: int, c: int|
                0 <= t < n && 0 <= c < p.text_tracks[t].clips.len() && (
                #[trigger] p.text_tracks[t].clips[c]).timeline_start <= pts
                    < p.text_tracks[t].clips[c].timeline_end ==> is_shown_in(ls, t, c)
        }),
    decreases n,
{
    if n > 0 {
        lemma_texts_upto(p, n - 1, pts);
        let m = p.text_tracks[n - 1].clips.len() as int;
        lemma_track_texts(p, n - 1, m, pts);
        let (a, b) = (texts_upto(p, n - 1, pts), track_texts(p, n - 1, m, pts));
        let ls = texts_upto(p, n, pts);
        assert(ls == a + b);
        assert forall|t: int, c: int|
            0 <= t < n && 0 <= c < p.text_tracks[t].clips.len() && (
            #[trigger] p.text_tracks[t].clips[c]).timeline_start <= pts
                < p.text_tracks[t].clips[c].timeline_end implies is_shown_in(ls, t, c) by {
            if t < n - 1 {
                assert(is_shown_in(a, t, c));
                let k = choose|k: int|
                    0 <= k < a.len() && (#[trigger] a[k]).track == t && a[k].clip == c;
                assert(ls[k] == a[k]);
            } else {
                assert(is_shown_in(b, t, c));
                let k = choose|k: int|
                    0 <= k < b.len() && (#[trigger] b[k]).track == t && b[k].clip == c;
                assert(ls[a.len() + k] == b[k]);
            }
        }
    }
}

/// The texts of a frame are those whose time it is, all of them, from the bottom to the top.
pub proof fn law_texts_show_in_their_time(p: ProjectView, pts: int)
    ensures
        ({
            let ls = texts_at(p, pts);
            &&& forall|i: int| 0 <= i < ls.len() ==> is_text_shown(p, #[trigger] ls[i], pts)
            &&& forall|i: int, j: int| 0 <= i < j < ls.len() ==> text_below(ls[i], ls[j])
            &&& forall|t: int, c: int|
                0 <= t < p.text_tracks.len() && 0 <= c < p.text_tracks[t].clips.len() && (
                #[trigger] p.text_tracks[t].clips[c]).timeline_start <= pts
                    < p.text_tracks[t].clips[c].timeline_end ==> is_shown_in(ls, t, c)
        }),
{
    lemma_texts_upto(p, p.text_tracks.len() as int, pts);
}

} // verus!
