//! Snapping: dragged clips stick to the playhead, to markers and to the edges of
//! other clips.

use crate::exact::{law_integers_are_exact, lemma_integers_in_order, lemma_rounded_bound};
use crate::float::{
    larger, of_integer, product, quotient, rounded, single, to_integer, Float32, Toward,
};
use crate::project::{all_fit, Clip, Placed, Project, ProjectView};
use crate::timeline::{views, Track, TrackView, SECOND_US};
use vstd::arithmetic::div_mod::{lemma_fundamental_div_mod, lemma_mod_bound};
use vstd::arithmetic::power2::{
    lemma2_to64, lemma2_to64_rest, lemma_pow2_adds, lemma_pow2_pos, lemma_pow2_strictly_increases,
    pow2,
};
use vstd::prelude::*;

verus! {

/// Start and end of the first `n` clips.
pub open spec fn clip_edges<V: Placed>(clips: Seq<V>, n: int) -> Seq<int>
    decreases n,
{
    if n <= 0 {
        Seq::empty()
    } else {
        clip_edges(clips, n - 1).push(clips[n - 1].start()).push(clips[n - 1].finish())
    }
}

/// Start and end of the clips of the first `n` tracks.
pub open spec fn edges<V: Placed>(tracks: Seq<TrackView<V>>, n: int) -> Seq<int>
    decreases n,
{
    if n <= 0 {
        Seq::empty()
    } else {
        edges(tracks, n - 1) + clip_edges(tracks[n - 1].clips, tracks[n - 1].clips.len() as int)
    }
}

/// The times that a clip can snap to, in order of preference among equally near
/// ones.
pub open spec fn snap_times(p: ProjectView, playhead: int) -> Seq<int> {
    seq![playhead] + Seq::new(p.markers.len(), |i: int| p.markers[i].time_us as int) + edges(
        p.video_tracks,
        p.video_tracks.len() as int,
    ) + edges(p.audio_tracks, p.audio_tracks.len() as int) + edges(
        p.text_tracks,
        p.text_tracks.len() as int,
    )
}

pub open spec fn distance(a: int, b: int) -> int {
    if a < b {
        b - a
    } else {
        a - b
    }
}

/// The nearest of the first `n` times within a window around `t`, the first of
/// those equally near.
pub open spec fn nearest_within(times: Seq<int>, t: int, window: int, n: int) -> Option<int>
    decreases n,
{
    if n <= 0 {
        None
    } else {
        let before = nearest_within(times, t, window, n - 1);
        let d = distance(times[n - 1], t);
        let nearer = match before {
            Some(b) => d < distance(b, t),
            None => true,
        };
        if d <= window && nearer {
            Some(times[n - 1])
        } else {
            before
        }
    }
}

/// How far a clip snaps at a zoom in pixels per second: nine pixels, and at most
/// what they are worth at four pixels per second.
pub open spec fn snap_window(zoom: Float32) -> int {
    to_integer(
        single(),
        Toward::Zero,
        product(
            single(),
            product(
                single(),
                quotient(
                    single(),
                    of_integer(single(), 1),
                    larger(zoom@, of_integer(single(), 4)),
                ),
                of_integer(single(), 1_000_000),
            ),
            of_integer(single(), 9),
        ),
        i64::MIN as int,
        i64::MAX as int,
    )
}

/// Where a clip proposed at `t` goes.
pub open spec fn snapped(p: ProjectView, playhead: int, zoom: Float32, t: int) -> int {
    let times = snap_times(p, playhead);
    match nearest_within(times, t, snap_window(zoom), times.len() as int) {
        Some(s) => s,
        None => t,
    }
}

fn push_edges<C: Clip>(tracks: &Vec<Track<C>>, out: &mut Vec<i64>) where C::V: Placed
    requires
        all_fit(views(tracks@)),
    ensures
        final(out)@.len() == old(out)@.len() + edges(views(tracks@), tracks.len() as int).len(),
        forall|k: int|
            0 <= k < final(out)@.len() ==> #[trigger] final(out)@[k] == (if k < old(out)@.len() {
                old(out)@[k] as int
            } else {
                edges(views(tracks@), tracks.len() as int)[k - old(out)@.len()]
            }),
{
    let ghost vs = views(tracks@);
    let ghost first = out@;
    let ghost ints = |s: Seq<i64>| Seq::new(s.len(), |i: int| s[i] as int);
    let mut i: usize = 0;
    assert(ints(out@) =~= ints(first) + edges(vs, 0));
    while i < tracks.len()
        invariant
            i <= tracks.len(),
            vs == views(tracks@),
            all_fit(vs),
            ints == |s: Seq<i64>| Seq::new(s.len(), |i: int| s[i] as int),
            ints(out@) == ints(first) + edges(vs, i as int),
        decreases tracks.len() - i,
    {
        let clips: &Vec<C> = &tracks[i].clips;
        let ghost cs = vs[i as int].clips;
        let ghost start = out@;
        let mut j: usize = 0;
        assert(ints(out@) =~= ints(start) + clip_edges(cs, 0));
        while j < clips.len()
            invariant
                i < tracks.len(),
                j <= clips.len(),
                vs == views(tracks@),
                cs == vs[i as int].clips,
                cs == views(clips@),
                all_fit(vs),
                ints == |s: Seq<i64>| Seq::new(s.len(), |i: int| s[i] as int),
                ints(out@) == ints(start) + clip_edges(cs, j as int),
            decreases clips.len() - j,
        {
            assert(vs[i as int].clips[j as int].fits());
            let ghost held = out@;
            let a: i64 = clips[j].start_us();
            let b: i64 = clips[j].finish_us();
            out.push(a);
            out.push(b);
            proof {
                assert(ints(out@) =~= ints(held).push(a as int).push(b as int));
                assert(ints(start) + clip_edges(cs, j + 1) =~= (ints(start) + clip_edges(
                    cs,
                    j as int,
                )).push(a as int).push(b as int));
            }
            j = j + 1;
        }
        proof {
            assert(ints(first) + edges(vs, i + 1) =~= (ints(first) + edges(vs, i as int))
                + clip_edges(cs, cs.len() as int));
        }
        i = i + 1;
    }
    proof {
        let all = ints(first) + edges(vs, tracks.len() as int);
        assert(out@.len() == all.len());
        assert forall|k: int| 0 <= k < out@.len() implies #[trigger] out@[k] == (if k < first.len() {
            first[k] as int
        } else {
            edges(vs, tracks.len() as int)[k - first.len()]
        }) by {
            assert(ints(out@)[k] == out@[k]);
            assert(all[k] == ints(out@)[k]);
        }
    }
}

fn gap(a: i64, b: i64) -> (d: i128)
    ensures
        d == distance(a as int, b as int),
{
    if a < b {
        b as i128 - a as i128
    } else {
        a as i128 - b as i128
    }
}

/// How far a clip snaps at a zoom in pixels per second.
pub fn snap_window_us(zoom: Float32) -> (r: i64)
    ensures
        r == snap_window(zoom),
{
    Float32::from_i64(1).over(zoom.maximum(Float32::from_i64(4))).times(
        Float32::from_i64(SECOND_US),
    ).times(Float32::from_i64(9)).to_i64(Toward::Zero)
}

impl Project {
    /// Snaps a proposed start to the playhead, a marker or a clip edge nearby.
    pub fn snap(&self, playhead: i64, zoom: Float32, t: i64) -> (r: i64)
        requires
            self@.times_fit(),
        ensures
            r == snapped(self@, playhead as int, zoom, t as int),
    {
        let window: i64 = snap_window_us(zoom);
        let mut times: Vec<i64> = vec![playhead];
        let mut m: usize = 0;
        while m < self.markers.len()
            invariant
                m <= self.markers.len(),
                times.len() == m + 1,
                times@[0] == playhead,
                forall|k: int| 0 <= k < m ==> #[trigger] times@[k + 1] == self@.markers[k].time_us,
            decreases self.markers.len() - m,
        {
            times.push(self.markers[m].time_us);
            m = m + 1;
        }
        let ghost v = edges(self@.video_tracks, self@.video_tracks.len() as int);
        let ghost a = edges(self@.audio_tracks, self@.audio_tracks.len() as int);
        let ghost x = edges(self@.text_tracks, self@.text_tracks.len() as int);
        let ghost n0 = times@.len();
        let ghost t0 = times@;
        push_edges(&self.video_tracks, &mut times);
        let ghost t1 = times@;
        push_edges(&self.audio_tracks, &mut times);
        let ghost t2 = times@;
        push_edges(&self.text_tracks, &mut times);
        let ghost all = snap_times(self@, playhead as int);
        proof {
            assert(all.len() == times@.len());
            assert forall|k: int| 0 <= k < all.len() implies #[trigger] times@[k] == all[k] by {
                if k < t2.len() {
                    assert(times@[k] == t2[k]);
                    if k < t1.len() {
                        assert(t2[k] == t1[k]);
                        if k < t0.len() {
                            assert(t1[k] == t0[k]);
                            if k > 0 {
                                assert(t0[(k - 1) + 1] == self@.markers[k - 1].time_us);
                            }
                        }
                    }
                }
            }
        }
        let mut best: Option<i64> = None;
        let mut i: usize = 0;
        while i < times.len()
            invariant
                i <= times.len(),
                all == snap_times(self@, playhead as int),
                all.len() == times.len(),
                forall|k: int| 0 <= k < all.len() ==> #[trigger] times@[k] == all[k],
                window == snap_window(zoom),
                match best {
                    Some(b) => nearest_within(all, t as int, window as int, i as int) == Some(
                        b as int,
                    ),
                    None => nearest_within(all, t as int, window as int, i as int).is_none(),
                },
            decreases times.len() - i,
        {
            let c: i64 = times[i];
            assert(c == all[i as int]);
            let d: i128 = gap(c, t);
            let nearer: bool = match best {
                Some(b) => d < gap(b, t),
                None => true,
            };
            if d <= window as i128 && nearer {
                best = Some(c);
            }
            i = i + 1;
        }
        match best {
            Some(b) => b,
            None => t,
        }
    }
}

proof fn lemma_nearest_within(times: Seq<int>, t: int, window: int, n: int)
    requires
        0 <= n <= times.len(),
    ensures
        match nearest_within(times, t, window, n) {
            Some(s) => {
                &&& exists|k: int| 0 <= k < n && times[k] == s
                &&& distance(s, t) <= window
                &&& forall|k: int| 0 <= k < n ==> distance(s, t) <= distance(#[trigger] times[k], t)
            },
            None => forall|k: int| 0 <= k < n ==> distance(#[trigger] times[k], t) > window,
        },
    decreases n,
{
    if n > 0 {
        lemma_nearest_within(times, t, window, n - 1);
        let before = nearest_within(times, t, window, n - 1);
        match nearest_within(times, t, window, n) {
            Some(s) => {
                if before == Some(s) {
                    let k = choose|k: int| 0 <= k < n - 1 && times[k] == s;
                    assert(0 <= k < n && times[k] == s);
                } else {
                    assert(times[n - 1] == s);
                }
            },
            None => {},
        }
    }
}

/// A snapped clip goes to a time of the timeline within the window, none of them
/// is nearer, and a clip with none in the window stays where it is.
pub proof fn law_snapping_takes_the_nearest(p: ProjectView, playhead: int, zoom: Float32, t: int)
    ensures
        ({
            let s = snapped(p, playhead, zoom, t);
            let times = snap_times(p, playhead);
            if exists|k: int|
                0 <= k < times.len() && distance(#[trigger] times[k], t) <= snap_window(zoom) {
                &&& exists|k: int| 0 <= k < times.len() && times[k] == s
                &&& distance(s, t) <= snap_window(zoom)
                &&& forall|k: int|
                    0 <= k < times.len() ==> distance(s, t) <= distance(#[trigger] times[k], t)
            } else {
                s == t
            }
        }),
{
    let times = snap_times(p, playhead);
    lemma_nearest_within(times, t, snap_window(zoom), times.len() as int);
}

/// A time is where a clip of some tracks starts or ends.
pub open spec fn is_edge<V: Placed>(tracks: Seq<TrackView<V>>, t: int) -> bool {
    exists|i: int, j: int|
        0 <= i < tracks.len() && 0 <= j < tracks[i].clips.len() && ((
        #[trigger] tracks[i].clips[j]).start() == t || tracks[i].clips[j].finish() == t)
}

proof fn lemma_clip_edges<V: Placed>(clips: Seq<V>, n: int, t: int)
    requires
        0 <= n <= clips.len(),
    ensures
        clip_edges(clips, n).contains(t) <==> exists|j: int|
            0 <= j < n && ((#[trigger] clips[j]).start() == t || clips[j].finish() == t),
    decreases n,
{
    if n > 0 {
        lemma_clip_edges(clips, n - 1, t);
        let before = clip_edges(clips, n - 1);
        let (a, b) = (clips[n - 1].start(), clips[n - 1].finish());
        let all = clip_edges(clips, n);
        assert(all == before.push(a).push(b));
        if before.contains(t) {
            let k = choose|k: int| 0 <= k < before.len() && before[k] == t;
            assert(all[k] == t);
        }
        if a == t {
            assert(all[before.len() as int] == t);
        }
        if b == t {
            assert(all[(before.len() + 1) as int] == t);
        }
        if all.contains(t) {
            let k = choose|k: int| 0 <= k < all.len() && all[k] == t;
            if k < before.len() {
                assert(before[k] == t);
            }
        }
    }
}

proof fn lemma_joined_contains(a: Seq<int>, b: Seq<int>, t: int)
    ensures
        (a + b).contains(t) <==> a.contains(t) || b.contains(t),
{
    if a.contains(t) {
        let k = choose|k: int| 0 <= k < a.len() && a[k] == t;
        assert((a + b)[k] == t);
    }
    if b.contains(t) {
        let k = choose|k: int| 0 <= k < b.len() && b[k] == t;
        assert((a + b)[a.len() + k] == t);
    }
    if (a + b).contains(t) {
        let k = choose|k: int| 0 <= k < (a + b).len() && (a + b)[k] == t;
        if k < a.len() {
            assert(a[k] == t);
        } else {
            assert(b[k - a.len()] == t);
        }
    }
}

proof fn lemma_edges<V: Placed>(tracks: Seq<TrackView<V>>, n: int, t: int)
    requires
        0 <= n <= tracks.len(),
    ensures
        edges(tracks, n).contains(t) <==> exists|i: int, j: int|
            0 <= i < n && 0 <= j < tracks[i].clips.len() && ((
            #[trigger] tracks[i].clips[j]).start() == t || tracks[i].clips[j].finish() == t),
    decreases n,
{
    if n > 0 {
        lemma_edges(tracks, n - 1, t);
        let clips = tracks[n - 1].clips;
        lemma_clip_edges(clips, clips.len() as int, t);
        lemma_joined_contains(edges(tracks, n - 1), clip_edges(clips, clips.len() as int), t);
        if clip_edges(clips, clips.len() as int).contains(t) {
            let j = choose|j: int|
                0 <= j < clips.len() && ((#[trigger] clips[j]).start() == t || clips[j].finish() == t);
            assert(tracks[n - 1].clips[j].start() == t || tracks[n - 1].clips[j].finish() == t);
        }
        if exists|i: int, j: int|
            0 <= i < n && 0 <= j < tracks[i].clips.len() && ((
            #[trigger] tracks[i].clips[j]).start() == t || tracks[i].clips[j].finish() == t) {
            let (i, j) = choose|i: int, j: int|
                0 <= i < n && 0 <= j < tracks[i].clips.len() && ((
                #[trigger] tracks[i].clips[j]).start() == t || tracks[i].clips[j].finish() == t);
            if i == n - 1 {
                assert(clips[j].start() == t || clips[j].finish() == t);
            } else {
                assert(tracks[i].clips[j].start() == t || tracks[i].clips[j].finish() == t);
            }
        }
    }
}

/// Clips snap to the playhead, to every marker, and to the start and the end of every clip on
/// every track, and to nothing else.
pub proof fn law_everything_is_snapped_to(p: ProjectView, playhead: int, t: int)
    ensures
        snap_times(p, playhead).contains(t) <==> {
            ||| t == playhead
            ||| exists|i: int| 0 <= i < p.markers.len() && (#[trigger] p.markers[i]).time_us == t
            ||| is_edge(p.video_tracks, t)
            ||| is_edge(p.audio_tracks, t)
            ||| is_edge(p.text_tracks, t)
        },
{
    let marks = Seq::new(p.markers.len(), |i: int| p.markers[i].time_us as int);
    let (v, a, x) = (
        edges(p.video_tracks, p.video_tracks.len() as int),
        edges(p.audio_tracks, p.audio_tracks.len() as int),
        edges(p.text_tracks, p.text_tracks.len() as int),
    );
    lemma_edges(p.video_tracks, p.video_tracks.len() as int, t);
    lemma_edges(p.audio_tracks, p.audio_tracks.len() as int, t);
    lemma_edges(p.text_tracks, p.text_tracks.len() as int, t);
    lemma_joined_contains(seq![playhead], marks, t);
    lemma_joined_contains(seq![playhead] + marks, v, t);
    lemma_joined_contains(seq![playhead] + marks + v, a, t);
    lemma_joined_contains(seq![playhead] + marks + v + a, x, t);
    assert(seq![playhead].contains(t) <==> t == playhead) by {
        assert(seq![playhead][0] == playhead);
    }
    if exists|i: int| 0 <= i < p.markers.len() && (#[trigger] p.markers[i]).time_us == t {
        let i = choose|i: int| 0 <= i < p.markers.len() && (#[trigger] p.markers[i]).time_us == t;
        assert(marks[i] == t);
    }
    if marks.contains(t) {
        let i = choose|i: int| 0 <= i < marks.len() && marks[i] == t;
        assert(p.markers[i].time_us == t);
    }
}

/// Clips snap over nine pixels: at so many pixels per second, that many times the window is
/// nine seconds, give or take what rounding does.
pub proof fn law_clips_snap_over_nine_pixels(zoom: Float32, z: int)
    requires
        zoom@ == of_integer(single(), z),
        4 <= z <= 3000,
    ensures
        z * snap_window(zoom) <= 9_000_010,
        8_999_990 <= z * (snap_window(zoom) + 1),
{
    reveal(quotient);
    reveal(product);
    reveal(to_integer);
    let f = single();
    let u = pow2(149);
    lemma2_to64();
    lemma2_to64_rest();
    lemma_pow2_pos(149);
    lemma_pow2_strictly_increases(64, 149);
    law_integers_are_exact(f, z);
    law_integers_are_exact(f, 4);
    law_integers_are_exact(f, 1);
    law_integers_are_exact(f, 9);
    law_integers_are_exact(f, 1_000_000);
    lemma_integers_in_order(f, z, 4);
    let n = z as nat;
    // One part of a second.
    assert(1 * u == u && n * u > 0) by (nonlinear_arith)
        requires
            n > 0,
            u > 0,
    ;
    let a = rounded(24, (1 * u) * u, n * u);
    lemma_rounded_bound(24, (1 * u) * u, n * u);
    let az = a * n;
    assert(az * 0x100_0000 <= u * 0x100_0001 + n * 0x100_0000 && u * 0x100_0000 <= az * 0x100_0000
        + u + n * 0x100_0000) by (nonlinear_arith)
        requires
            (a * (n * u)) * 0x100_0000 <= (u * u) * 0x100_0001 + (n * u) * 0x100_0000,
            (u * u) * 0x100_0000 <= (a * (n * u)) * 0x100_0000 + u * u + (n * u) * 0x100_0000,
            az == a * n,
            u > 0,
    ;
    assert(a <= az) by (nonlinear_arith)
        requires
            az == a * n,
            n >= 1,
    ;
    // In microseconds.
    let b = rounded(24, a * (1_000_000 * u), u);
    lemma_rounded_bound(24, a * (1_000_000 * u), u);
    let bz = b * n;
    assert(b * 0x100_0000 <= a * 1_000_000 * 0x100_0001 + 0x100_0000 && a * 1_000_000 * 0x100_0000
        <= b * 0x100_0000 + a * 1_000_000 + 0x100_0000) by (nonlinear_arith)
        requires
            (b * u) * 0x100_0000 <= (a * (1_000_000 * u)) * 0x100_0001 + u * 0x100_0000,
            (a * (1_000_000 * u)) * 0x100_0000 <= (b * u) * 0x100_0000 + a * (1_000_000 * u) + u
                * 0x100_0000,
            u > 0,
    ;
    assert(bz * 0x100_0000 <= az * 1_000_000 * 0x100_0001 + n * 0x100_0000 && az * 1_000_000
        * 0x100_0000 <= bz * 0x100_0000 + az * 1_000_000 + n * 0x100_0000) by (nonlinear_arith)
        requires
            b * 0x100_0000 <= a * 1_000_000 * 0x100_0001 + 0x100_0000,
            a * 1_000_000 * 0x100_0000 <= b * 0x100_0000 + a * 1_000_000 + 0x100_0000,
            az == a * n,
            bz == b * n,
    ;
    // Nine of them.
    let c = rounded(24, b * (9 * u), u);
    lemma_rounded_bound(24, b * (9 * u), u);
    let cz = c * n;
    assert(c * 0x100_0000 <= b * 9 * 0x100_0001 + 0x100_0000 && b * 9 * 0x100_0000 <= c
        * 0x100_0000 + b * 9 + 0x100_0000) by (nonlinear_arith)
        requires
            (c * u) * 0x100_0000 <= (b * (9 * u)) * 0x100_0001 + u * 0x100_0000,
            (b * (9 * u)) * 0x100_0000 <= (c * u) * 0x100_0000 + b * (9 * u) + u * 0x100_0000,
            u > 0,
    ;
    assert(cz * 0x100_0000 <= bz * 9 * 0x100_0001 + n * 0x100_0000 && bz * 9 * 0x100_0000 <= cz
        * 0x100_0000 + bz * 9 + n * 0x100_0000) by (nonlinear_arith)
        requires
            c * 0x100_0000 <= b * 9 * 0x100_0001 + 0x100_0000,
            b * 9 * 0x100_0000 <= c * 0x100_0000 + b * 9 + 0x100_0000,
            bz == b * n,
            cz == c * n,
    ;
    lemma_pow2_adds(24, 149);
    lemma_pow2_strictly_increases(173, 277);
    assert(a <= 2 * u);
    assert(b <= 4_000_000 * u);
    assert(cz <= 9_000_009 * u && 8_999_991 * u <= cz);
    assert(c <= cz && b <= bz) by (nonlinear_arith)
        requires
            cz == c * n,
            bz == b * n,
            n >= 1,
    ;
    let (w, r) = (c as int / u as int, c as int % u as int);
    lemma_fundamental_div_mod(c as int, u as int);
    lemma_mod_bound(c as int, u as int);
    assert(0 <= w && z * w <= 9_000_010 && 8_999_990 <= z * (w + 1)) by (nonlinear_arith)
        requires
            c == u * w + r,
            0 <= r < u,
            cz == c * n,
            n == z,
            n > 0,
            c >= 0,
            cz <= 9_000_009 * u,
            8_999_991 * u <= cz,
            u > 0,
    ;
    assert(w <= 9_000_010) by (nonlinear_arith)
        requires
            z * w <= 9_000_010,
            z >= 1,
            w >= 0,
    ;
}

} // verus!
