//! The frame cache: which decoded frame to show, and what the decoder does next.

use crate::decoder::VideoFrame;
use crate::strings::same_text;
use vstd::prelude::*;

verus! {

/// A frame that is wanted.
#[derive(Clone, Debug)]
pub struct FrameRequest {
    pub asset: u64,
    pub path: String,
    pub w: u32,
    pub h: u32,
    pub pts_us: i64,
}

/// A decoded frame of an asset.
#[derive(Clone, Debug)]
pub struct CachedFrame {
    pub asset: u64,
    pub frame: VideoFrame,
}

/// The decoded frames at hand, one for each asset and time.
#[derive(Clone, Debug)]
pub struct FrameCache {
    pub frames: Vec<CachedFrame>,
}

/// The frames of a cache by asset and time.
pub open spec fn cache_map(frames: Seq<CachedFrame>) -> Map<(u64, i64), VideoFrame>
    decreases frames.len(),
{
    if frames.len() == 0 {
        Map::empty()
    } else {
        let f = frames.last();
        cache_map(frames.drop_last()).insert((f.asset, f.frame.pts_us), f.frame)
    }
}

/// No two frames are of one asset and time.
pub open spec fn all_distinct(frames: Seq<CachedFrame>) -> bool {
    forall|i: int, j: int|
        0 <= i < frames.len() && 0 <= j < frames.len() && i != j ==> !(frames[i].asset
            == frames[j].asset && frames[i].frame.pts_us == frames[j].frame.pts_us)
}

impl View for FrameCache {
    type V = Map<(u64, i64), VideoFrame>;

    open spec fn view(&self) -> Map<(u64, i64), VideoFrame> {
        cache_map(self.frames@)
    }
}

proof fn lemma_cache_map(frames: Seq<CachedFrame>)
    requires
        all_distinct(frames),
    ensures
        forall|i: int|
            0 <= i < frames.len() ==> {
                let f = #[trigger] frames[i];
                cache_map(frames).contains_key((f.asset, f.frame.pts_us)) && cache_map(
                    frames,
                )[(f.asset, f.frame.pts_us)] == f.frame
            },
        forall|k: (u64, i64)| #[trigger]
            cache_map(frames).contains_key(k) ==> exists|i: int|
                0 <= i < frames.len() && (#[trigger] frames[i]).asset == k.0
                    && frames[i].frame.pts_us == k.1,
    decreases frames.len(),
{
    if frames.len() > 0 {
        let init = frames.drop_last();
        assert(all_distinct(init)) by {
            assert forall|i: int, j: int|
                0 <= i < init.len() && 0 <= j < init.len() && i != j implies !(init[i].asset
                == init[j].asset && init[i].frame.pts_us == init[j].frame.pts_us) by {
                assert(init[i] == frames[i] && init[j] == frames[j]);
            }
        }
        lemma_cache_map(init);
        let last = frames.len() - 1;
        assert forall|i: int| 0 <= i < frames.len() implies {
            let f = #[trigger] frames[i];
            cache_map(frames).contains_key((f.asset, f.frame.pts_us)) && cache_map(
                frames,
            )[(f.asset, f.frame.pts_us)] == f.frame
        } by {
            if i < last {
                assert(frames[i] == init[i]);
                assert(!(frames[i].asset == frames[last].asset && frames[i].frame.pts_us
                    == frames[last].frame.pts_us));
            }
        }
        assert forall|k: (u64, i64)| #[trigger] cache_map(frames).contains_key(k) implies exists|
            i: int,
        |
            0 <= i < frames.len() && (#[trigger] frames[i]).asset == k.0 && frames[i].frame.pts_us
                == k.1 by {
            if k == (frames[last].asset, frames[last].frame.pts_us) {
                assert(frames[last].asset == k.0 && frames[last].frame.pts_us == k.1);
            } else {
                assert(cache_map(init).contains_key(k));
                let i = choose|i: int|
                    0 <= i < init.len() && (#[trigger] init[i]).asset == k.0
                        && init[i].frame.pts_us == k.1;
                assert(frames[i].asset == k.0 && frames[i].frame.pts_us == k.1);
            }
        }
    }
}

/// The time of the frame to show of an asset at `pts`: the last one at or before it.
pub open spec fn is_before(m: Map<(u64, i64), VideoFrame>, asset: u64, pts: i64, t: i64) -> bool {
    &&& m.contains_key((asset, t))
    &&& t <= pts
    &&& forall|s: i64| #[trigger] m.contains_key((asset, s)) && s <= pts ==> s <= t
}

/// The time of the frame to show where none is at or before: the first one, no
/// later than `up_to`.
pub open spec fn is_after(
    m: Map<(u64, i64), VideoFrame>,
    asset: u64,
    up_to: Option<i64>,
    t: i64,
) -> bool {
    &&& m.contains_key((asset, t))
    &&& within(up_to, t)
    &&& forall|s: i64| #[trigger] m.contains_key((asset, s)) && within(up_to, s) ==> t <= s
}

pub open spec fn within(up_to: Option<i64>, t: i64) -> bool {
    match up_to {
        Some(u) => t <= u,
        None => true,
    }
}

/// The frame to show of an asset at `pts`.
pub open spec fn shown(
    m: Map<(u64, i64), VideoFrame>,
    asset: u64,
    pts: i64,
    up_to: Option<i64>,
    r: Option<&VideoFrame>,
) -> bool {
    if exists|s: i64| #[trigger] m.contains_key((asset, s)) && s <= pts {
        exists|t: i64| #[trigger] is_before(m, asset, pts, t) && r == Some(&m[(asset, t)])
    } else if exists|s: i64| #[trigger] m.contains_key((asset, s)) && within(up_to, s) {
        exists|t: i64| #[trigger] is_after(m, asset, up_to, t) && r == Some(&m[(asset, t)])
    } else {
        r.is_none()
    }
}

impl FrameCache {
    pub open spec fn well_formed(self) -> bool {
        all_distinct(self.frames@)
    }

    pub fn new() -> (c: FrameCache)
        ensures
            c.well_formed(),
            c@ == Map::<(u64, i64), VideoFrame>::empty(),
    {
        FrameCache { frames: Vec::new() }
    }

    /// The frame to show of an asset at `pts_us`: the last one at or before it, else
    /// the first one after it that is no later than `up_to`.
    pub fn nearest(&self, asset: u64, pts_us: i64, up_to: Option<i64>) -> (r: Option<&VideoFrame>)
        requires
            self.well_formed(),
        ensures
            shown(self@, asset, pts_us, up_to, r),
    {
        proof {
            lemma_cache_map(self.frames@);
        }
        let ghost fs = self.frames@;
        let mut before: Option<usize> = None;
        let mut after: Option<usize> = None;
        let mut i: usize = 0;
        while i < self.frames.len()
            invariant
                i <= self.frames.len(),
                fs == self.frames@,
                match before {
                    Some(b) => {
                        &&& b < i
                        &&& fs[b as int].asset == asset
                        &&& fs[b as int].frame.pts_us <= pts_us
                        &&& forall|k: int|
                            0 <= k < i && (#[trigger] fs[k]).asset == asset && fs[k].frame.pts_us
                                <= pts_us ==> fs[k].frame.pts_us <= fs[b as int].frame.pts_us
                    },
                    None => forall|k: int|
                        0 <= k < i && (#[trigger] fs[k]).asset == asset ==> fs[k].frame.pts_us
                            > pts_us,
                },
                match after {
                    Some(a) => {
                        &&& a < i
                        &&& fs[a as int].asset == asset
                        &&& within(up_to, fs[a as int].frame.pts_us)
                        &&& forall|k: int|
                            0 <= k < i && (#[trigger] fs[k]).asset == asset && within(
                                up_to,
                                fs[k].frame.pts_us,
                            ) ==> fs[a as int].frame.pts_us <= fs[k].frame.pts_us
                    },
                    None => forall|k: int|
                        0 <= k < i && (#[trigger] fs[k]).asset == asset ==> !within(
                            up_to,
                            fs[k].frame.pts_us,
                        ),
                },
            decreases self.frames.len() - i,
        {
            if self.frames[i].asset == asset {
                let t: i64 = self.frames[i].frame.pts_us;
                if t <= pts_us {
                    let better: bool = match before {
                        Some(b) => self.frames[b].frame.pts_us < t,
                        None => true,
                    };
                    if better {
                        before = Some(i);
                    }
                }
                let allowed: bool = match up_to {
                    Some(u) => t <= u,
                    None => true,
                };
                if allowed {
                    let better: bool = match after {
                        Some(a) => t < self.frames[a].frame.pts_us,
                        None => true,
                    };
                    if better {
                        after = Some(i);
                    }
                }
            }
            i = i + 1;
        }
        let ghost m = self@;
        match before {
            Some(b) => {
                proof {
                    let t = fs[b as int].frame.pts_us;
                    assert(m.contains_key((asset, t)));
                    assert forall|s: i64| #[trigger] m.contains_key((asset, s)) && s <= pts_us implies s
                        <= t by {
                        let k = choose|k: int|
                            0 <= k < fs.len() && (#[trigger] fs[k]).asset == asset
                                && fs[k].frame.pts_us == s;
                    }
                    assert(is_before(m, asset, pts_us, t));
                }
                return Some(&self.frames[b].frame);
            },
            None => {
                proof {
                    assert forall|s: i64| #[trigger] m.contains_key((asset, s)) implies s > pts_us by {
                        let k = choose|k: int|
                            0 <= k < fs.len() && (#[trigger] fs[k]).asset == asset
                                && fs[k].frame.pts_us == s;
                    }
                }
            },
        }
        match after {
            Some(a) => {
                proof {
                    let t = fs[a as int].frame.pts_us;
                    assert(m.contains_key((asset, t)));
                    assert forall|s: i64| #[trigger] m.contains_key((asset, s)) && within(up_to, s) implies t
                        <= s by {
                        let k = choose|k: int|
                            0 <= k < fs.len() && (#[trigger] fs[k]).asset == asset
                                && fs[k].frame.pts_us == s;
                    }
                    assert(is_after(m, asset, up_to, t));
                }
                Some(&self.frames[a].frame)
            },
            None => {
                proof {
                    assert forall|s: i64| #[trigger] m.contains_key((asset, s)) implies !within(up_to, s) by {
                        let k = choose|k: int|
                            0 <= k < fs.len() && (#[trigger] fs[k]).asset == asset
                                && fs[k].frame.pts_us == s;
                    }
                }
                None
            },
        }
    }

    /// Takes in a frame, in place of an earlier one of the same asset and time.
    pub fn insert(&mut self, asset: u64, frame: VideoFrame)
        requires
            old(self).well_formed(),
        ensures
            final(self).well_formed(),
            final(self)@ == old(self)@.insert((asset, frame.pts_us), frame),
    {
        let ghost before = self.frames@;
        let t: i64 = frame.pts_us;
        let mut i: usize = 0;
        while i < self.frames.len() && !(self.frames[i].asset == asset && self.frames[i].frame.pts_us
            == t)
            invariant
                i <= self.frames.len(),
                before == self.frames@,
                t == frame.pts_us,
                forall|k: int|
                    0 <= k < i ==> !((#[trigger] before[k]).asset == asset && before[k].frame.pts_us
                        == t),
            decreases self.frames.len() - i,
        {
            i = i + 1;
        }
        if i < self.frames.len() {
            self.frames[i].frame = frame;
            proof {
                let now = self.frames@;
                assert(now.len() == before.len());
                assert forall|k: int| 0 <= k < now.len() implies (#[trigger] now[k]).asset
                    == before[k].asset && now[k].frame.pts_us == before[k].frame.pts_us by {}
                assert(all_distinct(now)) by {
                    assert forall|a: int, b: int|
                        0 <= a < now.len() && 0 <= b < now.len() && a != b implies !(now[a].asset
                        == now[b].asset && now[a].frame.pts_us == now[b].frame.pts_us) by {
                        assert(!(before[a].asset == before[b].asset && before[a].frame.pts_us
                            == before[b].frame.pts_us));
                    }
                }
                lemma_cache_replaced(before, now, i as int);
            }
        } else {
            self.frames.push(CachedFrame { asset, frame });
            proof {
                let now = self.frames@;
                assert(now.drop_last() =~= before);
                assert(all_distinct(now)) by {
                    assert forall|a: int, b: int|
                        0 <= a < now.len() && 0 <= b < now.len() && a != b implies !(now[a].asset
                        == now[b].asset && now[a].frame.pts_us == now[b].frame.pts_us) by {
                        if a < before.len() && b < before.len() {
                            assert(!(before[a].asset == before[b].asset && before[a].frame.pts_us
                                == before[b].frame.pts_us));
                        } else if a < before.len() {
                            assert(!(before[a].asset == asset && before[a].frame.pts_us == t));
                        } else {
                            assert(!(before[b].asset == asset && before[b].frame.pts_us == t));
                        }
                    }
                }
            }
        }
    }

    /// Gives up the frames outside a window of time.
    pub fn retain_window(&mut self, low: i64, high: i64)
        requires
            old(self).well_formed(),
        ensures
            final(self).well_formed(),
            forall|k: (u64, i64)| #[trigger]
                final(self)@.contains_key(k) <==> old(self)@.contains_key(k) && low <= k.1 <= high,
            forall|k: (u64, i64)| #[trigger]
                final(self)@.contains_key(k) ==> final(self)@[k] == old(self)@[k],
    {
        let ghost first = self.frames@;
        proof {
            lemma_cache_map(first);
        }
        let ghost m = self@;
        let mut i: usize = 0;
        while i < self.frames.len()
            invariant
                i <= self.frames.len(),
                all_distinct(self.frames@),
                forall|k: int|
                    0 <= k < i ==> low <= (#[trigger] self.frames@[k]).frame.pts_us <= high,
                forall|k: int|
                    0 <= k < self.frames@.len() ==> {
                        let f = #[trigger] self.frames@[k];
                        m.contains_key((f.asset, f.frame.pts_us)) && m[(f.asset, f.frame.pts_us)]
                            == f.frame
                    },
                forall|k: (u64, i64)| #[trigger]
                    m.contains_key(k) && low <= k.1 <= high ==> exists|l: int|
                        0 <= l < self.frames@.len() && (#[trigger] self.frames@[l]).asset == k.0
                            && self.frames@[l].frame.pts_us == k.1,
            decreases self.frames.len() - i,
        {
            let t: i64 = self.frames[i].frame.pts_us;
            if low <= t && t <= high {
                i = i + 1;
            } else {
                let ghost was = self.frames@;
                let _ = self.frames.remove(i);
                proof {
                    let now = self.frames@;
                    assert(now =~= was.remove(i as int));
                    assert(all_distinct(now)) by {
                        assert forall|a: int, b: int|
                            0 <= a < now.len() && 0 <= b < now.len() && a != b implies !(now[a].asset
                            == now[b].asset && now[a].frame.pts_us == now[b].frame.pts_us) by {
                            let x = if a < i {
                                a
                            } else {
                                a + 1
                            };
                            let y = if b < i {
                                b
                            } else {
                                b + 1
                            };
                            assert(now[a] == was[x] && now[b] == was[y]);
                        }
                    }
                    assert forall|k: (u64, i64)| #[trigger] m.contains_key(k) && low <= k.1 <= high implies exists|
                        l: int,
                    |
                        0 <= l < now.len() && (#[trigger] now[l]).asset == k.0 && now[l].frame.pts_us
                            == k.1 by {
                        let l = choose|l: int|
                            0 <= l < was.len() && (#[trigger] was[l]).asset == k.0
                                && was[l].frame.pts_us == k.1;
                        let x = if l < i {
                            l
                        } else {
                            l - 1
                        };
                        assert(now[x] == was[l]);
                    }
                    assert forall|k: int| 0 <= k < now.len() implies {
                        let f = #[trigger] now[k];
                        m.contains_key((f.asset, f.frame.pts_us)) && m[(f.asset, f.frame.pts_us)]
                            == f.frame
                    } by {
                        let x = if k < i {
                            k
                        } else {
                            k + 1
                        };
                        assert(now[k] == was[x]);
                    }
                }
            }
        }
        proof {
            let now = self.frames@;
            lemma_cache_map(now);
            assert forall|k: (u64, i64)| #[trigger] self@.contains_key(k) <==> m.contains_key(k) && low
                <= k.1 <= high by {
                if self@.contains_key(k) {
                    let l = choose|l: int|
                        0 <= l < now.len() && (#[trigger] now[l]).asset == k.0
                            && now[l].frame.pts_us == k.1;
                    assert(low <= now[l].frame.pts_us <= high);
                }
                if m.contains_key(k) && low <= k.1 <= high {
                    let l = choose|l: int|
                        0 <= l < now.len() && (#[trigger] now[l]).asset == k.0
                            && now[l].frame.pts_us == k.1;
                }
            }
            assert forall|k: (u64, i64)| #[trigger] self@.contains_key(k) implies self@[k] == m[k] by {
                let l = choose|l: int|
                    0 <= l < now.len() && (#[trigger] now[l]).asset == k.0 && now[l].frame.pts_us
                        == k.1;
            }
        }
    }
}

proof fn lemma_cache_replaced(before: Seq<CachedFrame>, now: Seq<CachedFrame>, i: int)
    requires
        0 <= i < before.len(),
        now.len() == before.len(),
        all_distinct(before),
        all_distinct(now),
        forall|k: int| 0 <= k < now.len() && k != i ==> #[trigger] now[k] == before[k],
        now[i].asset == before[i].asset,
        now[i].frame.pts_us == before[i].frame.pts_us,
    ensures
        cache_map(now) == cache_map(before).insert(
            (before[i].asset, before[i].frame.pts_us),
            now[i].frame,
        ),
{
    lemma_cache_map(before);
    lemma_cache_map(now);
    let key = (before[i].asset, before[i].frame.pts_us);
    let a = cache_map(now);
    let b = cache_map(before).insert(key, now[i].frame);
    assert forall|k: (u64, i64)| #[trigger] a.contains_key(k) == b.contains_key(k) by {
        if a.contains_key(k) {
            let l = choose|l: int|
                0 <= l < now.len() && (#[trigger] now[l]).asset == k.0 && now[l].frame.pts_us
                    == k.1;
            if l != i {
                assert(before[l].asset == k.0);
            }
        }
        if b.contains_key(k) && k != key {
            let l = choose|l: int|
                0 <= l < before.len() && (#[trigger] before[l]).asset == k.0
                    && before[l].frame.pts_us == k.1;
            assert(now[l].asset == k.0);
        }
    }
    assert forall|k: (u64, i64)| #[trigger] a.contains_key(k) implies a[k] == b[k] by {
        let l = choose|l: int|
            0 <= l < now.len() && (#[trigger] now[l]).asset == k.0 && now[l].frame.pts_us == k.1;
        if l != i {
            assert(now[l] == before[l]);
            assert(k != key) by {
                assert(!(before[l].asset == before[i].asset && before[l].frame.pts_us
                    == before[i].frame.pts_us));
            }
        }
    }
    assert(a =~= b);
}

/// A frame of the cache that is shown is one of the asset that was asked for, and
/// not a later one while there is one at or before the time.
pub proof fn law_shown_frames(
    m: Map<(u64, i64), VideoFrame>,
    asset: u64,
    pts: i64,
    up_to: Option<i64>,
    r: Option<&VideoFrame>,
)
    requires
        shown(m, asset, pts, up_to, r),
        forall|k: (u64, i64)| #[trigger] m.contains_key(k) ==> m[k].pts_us == k.1,
    ensures
        r.is_some() ==> m.contains_key((asset, r.unwrap().pts_us)),
        forall|s: i64| #[trigger]
            m.contains_key((asset, s)) && s <= pts ==> r.is_some() && s <= r.unwrap().pts_us <= pts,
{
}

/// Which source a decoder has open, at which size.
#[derive(Clone, Debug)]
pub struct SourceKey {
    pub asset: u64,
    pub path: String,
    pub w: u32,
    pub h: u32,
}

/// Where the decoder stands.
#[derive(Clone, Debug)]
pub struct DecodeState {
    /// What it has open.
    pub key: Option<SourceKey>,
    /// The time of the last frame that it gave.
    pub last_decoded: Option<i64>,
}

/// What the decoder does for a request.
#[derive(Clone, Copy, Debug, PartialEq, Eq, Structural)]
pub struct DecodePlan {
    /// It has to open the source first.
    pub reopen: bool,
    /// It has to go to this time first; else it goes on from where it is.
    pub seek: Option<i64>,
    /// It goes on until it passes this time.
    pub target: i64,
}

pub open spec fn same_source(key: Option<SourceKey>, req: FrameRequest) -> bool {
    match key {
        Some(k) => k.asset == req.asset && k.path@ == req.path@ && k.w == req.w && k.h == req.h,
        None => false,
    }
}

/// The request's time, not before zero.
pub open spec fn decode_target(pts: i64) -> i64 {
    if pts > 0 {
        pts
    } else {
        0
    }
}

/// A fifth of a second before a time, not before zero.
pub open spec fn lead_in(target: int) -> int {
    if target > 200_000 {
        target - 200_000
    } else {
        0
    }
}

/// What the decoder does for a request: it opens another source or size anew, goes
/// on while the time lies ahead of it, and else goes back to a little before it.
pub open spec fn plan_for(state: DecodeState, req: FrameRequest) -> DecodePlan {
    let target = decode_target(req.pts_us);
    let reopen = !same_source(state.key, req);
    let last = if reopen {
        None
    } else {
        state.last_decoded
    };
    DecodePlan {
        reopen,
        seek: match last {
            Some(l) => if target >= l {
                None
            } else {
                Some(lead_in(target as int) as i64)
            },
            None => Some(lead_in(target as int) as i64),
        },
        target,
    }
}

impl DecodeState {
    pub fn new() -> (s: DecodeState)
        ensures
            s.key.is_none(),
            s.last_decoded.is_none(),
    {
        DecodeState { key: None, last_decoded: None }
    }

    /// Takes a request and says what to do for it.
    pub fn set_target(&mut self, req: &FrameRequest) -> (plan: DecodePlan)
        ensures
            plan == plan_for(*old(self), *req),
            same_source(final(self).key, *req),
            final(self).last_decoded == (if plan.reopen {
                None
            } else {
                old(self).last_decoded
            }),
    {
        let open: bool = match &self.key {
            Some(k) => k.asset == req.asset && same_text(k.path.as_str(), req.path.as_str()) && k.w
                == req.w && k.h == req.h,
            None => false,
        };
        if !open {
            self.key = Some(
                SourceKey { asset: req.asset, path: req.path.clone(), w: req.w, h: req.h },
            );
            self.last_decoded = None;
        }
        let target: i64 = if req.pts_us > 0 {
            req.pts_us
        } else {
            0
        };
        let back: i64 = if target > 200_000 {
            target - 200_000
        } else {
            0
        };
        let seek: Option<i64> = match self.last_decoded {
            Some(l) => if target >= l {
                None
            } else {
                Some(back)
            },
            None => Some(back),
        };
        DecodePlan { reopen: !open, seek, target }
    }

    /// Takes note of a decoded frame, the `n`th for this request counted from zero,
    /// and says whether to go on.
    pub fn decoded(&mut self, pts_us: i64, target: i64, n: u32) -> (more: bool)
        ensures
            *final(self) == (DecodeState { last_decoded: Some(pts_us), ..*old(self) }),
            more == (pts_us < target && n <= 600),
    {
        self.last_decoded = Some(pts_us);
        pts_us < target && n <= 600
    }
}

/// The window of time that stays in the cache round a time: three seconds before,
/// one and a half after.
pub open spec fn cache_window(target: int) -> (int, int) {
    (if target > 3_000_000 { target - 3_000_000 } else { 0 }, target + 1_500_000)
}

/// The window of time that stays in the cache.
pub fn window_around(target: i64) -> (r: (i64, i64))
    requires
        target + 1_500_000 <= i64::MAX,
    ensures
        (r.0 as int, r.1 as int) == cache_window(target as int),
{
    (
        if target > 3_000_000 {
            target - 3_000_000
        } else {
            0
        },
        target + 1_500_000,
    )
}

/// A frame at the time that was asked for stays in the cache.
pub proof fn law_target_stays_cached(target: int)
    requires
        target >= 0,
    ensures
        cache_window(target).0 <= target <= cache_window(target).1,
{
}

} // verus!
