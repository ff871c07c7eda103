//! Frames as text, and the animation model: which frame of a sequence a clock is showing.

use vstd::arithmetic::power2::*;
use vstd::prelude::*;
use vstd::string::*;

use crate::arith::{
    from_whole, lemma_exact_steps, lemma_ratio_stays_above, lemma_ratio_stays_below,
    lemma_size_is_exact, lemma_steps_are_sizes, ratio, whole_number,
};
use crate::number::{
    INFINITY, Number, SIGN, lemma_steps_increase, lemma_steps_nonnegative, num,
};
use crate::order::{law_quotients_keep_order, lemma_values_in_order};
use crate::rounding::lemma_scaled_is_exact;
use crate::sprite::error::{SpriteError, SpriteFault};
use crate::sprite::pose::PlayMode;
use crate::whole::{
    is_whole, law_small_whole_numbers_are_exact, law_whole_products_are_exact,
    lemma_parts_are_exact,
};

verus! {

/// One frame: one string per texel row, one character per texel column.
///
/// `.` or `0` are transparent; `1` to `9` index the palette.
pub type Frame = Vec<String>;

/// One playable sequence: the frames, and the rule for stepping through them.
#[derive(Clone, Debug, PartialEq, Eq)]
pub struct SeqSpec {
    pub frames: Vec<Frame>,
    pub mode: PlayMode,
    /// Frames per second. Ignored by `Hold` and `Phase`.
    pub fps: Number,
    /// `Ambient` only: seconds between blinks. Zero never blinks, and then no frame is reserved.
    pub blink_every: Number,
    /// `Ambient` only: how long one blink lasts, in seconds.
    pub blink_for: Number,
}

/// A list of strings as a list of character sequences.
pub open spec fn texts(rows: Seq<String>) -> Seq<Seq<char>> {
    Seq::new(rows.len(), |i: int| rows[i]@)
}

/// A list of frames, each as its rows of characters.
pub open spec fn frame_texts(frames: Seq<Frame>) -> Seq<Seq<Seq<char>>> {
    Seq::new(frames.len(), |i: int| texts(frames[i]@))
}

/// What a run of lines reads as so far: the frames that a blank line has closed, and the rows
/// of the one that is still open.
pub open spec fn filmstrip(lines: Seq<Seq<char>>) -> (Seq<Seq<Seq<char>>>, Seq<Seq<char>>)
    decreases lines.len(),
{
    if lines.len() == 0 {
        (Seq::empty(), Seq::empty())
    } else {
        let (closed, open_rows) = filmstrip(lines.drop_last());
        if lines.last().len() > 0 {
            (closed, open_rows.push(lines.last()))
        } else if open_rows.len() > 0 {
            (closed.push(open_rows), Seq::empty())
        } else {
            (closed, open_rows)
        }
    }
}

/// The frames in a pose body: its runs of lines that are not blank.
pub open spec fn frames_in(lines: Seq<Seq<char>>) -> Seq<Seq<Seq<char>>> {
    let (closed, open_rows) = filmstrip(lines);
    if open_rows.len() > 0 {
        closed.push(open_rows)
    } else {
        closed
    }
}

/// The first frame, from `i` on, whose row count is not `cells_h`.
pub open spec fn row_fault(
    frames: Seq<Seq<Seq<char>>>,
    cells_h: nat,
    who: Seq<char>,
    i: nat,
) -> Option<SpriteFault>
    decreases frames.len() - i,
{
    if i >= frames.len() {
        None
    } else if frames[i as int].len() != cells_h {
        Some(SpriteFault::FrameRows { who, frame: i, rows: frames[i as int].len(), expected: cells_h })
    } else {
        row_fault(frames, cells_h, who, i + 1)
    }
}

/// Copies a frame's rows.
pub fn copy_frame(frame: &Frame) -> (out: Frame)
    ensures
        texts(out@) == texts(frame@),
{
    let mut out: Frame = Vec::new();
    let mut i: usize = 0;
    while i < frame.len()
        invariant
            i <= frame.len(),
            out@.len() == i,
            texts(out@) =~= texts(frame@).take(i as int),
        decreases frame.len() - i,
    {
        let ghost before = out@;
        out.push(frame[i].clone());
        assert forall|j: int| 0 <= j <= i implies texts(out@)[j] == texts(frame@)[j] by {
            if j < i {
                assert(texts(before)[j] == texts(frame@).take(i as int)[j]);
            }
        }
        i = i + 1;
    }
    assert(texts(frame@).take(i as int) =~= texts(frame@));
    out
}

/// Split one pose body into frames on blank lines, and validate the row count.
///
/// The row count of every frame must match `cells_h`, or the art and the collision box disagree.
/// Row width is checked when the frame is baked, because only the baker knows the palette.
pub fn split_frames(lines: &Vec<String>, cells_h: u32, who: &str) -> (out: Result<
    Vec<Frame>,
    SpriteError,
>)
    ensures
        match out {
            Ok(frames) => {
                &&& row_fault(frames_in(texts(lines@)), cells_h as nat, who@, 0) is None
                &&& frame_texts(frames@) == frames_in(texts(lines@))
            },
            Err(e) => row_fault(frames_in(texts(lines@)), cells_h as nat, who@, 0) == Some(e@),
        },
{
    let mut out: Vec<Frame> = Vec::new();
    let mut cur: Frame = Vec::new();
    let ghost all = texts(lines@);
    let mut i: usize = 0;
    while i < lines.len()
        invariant
            i <= lines.len(),
            all == texts(lines@),
            frame_texts(out@) =~= filmstrip(all.take(i as int)).0,
            texts(cur@) =~= filmstrip(all.take(i as int)).1,
        decreases lines.len() - i,
    {
        proof {
            assert(all.take(i as int + 1).drop_last() =~= all.take(i as int));
            assert(all.take(i as int + 1).last() == lines@[i as int]@);
        }
        let ghost (closed, open_rows) = filmstrip(all.take(i as int));
        if lines[i].as_str().is_empty() {
            if cur.len() > 0 {
                let ghost before = out@;
                let ghost rows = cur@;
                assert(open_rows.len() == texts(cur@).len());
                out.push(cur);
                cur = Vec::new();
                assert(frame_texts(out@) =~= closed.push(open_rows)) by {
                    assert(out@ == before.push(out@.last()));
                    assert forall|j: int| 0 <= j < out@.len() implies frame_texts(out@)[j]
                        == closed.push(open_rows)[j] by {
                        if j < before.len() {
                            assert(frame_texts(before)[j] == closed[j]);
                        }
                    }
                }
            } else {
                assert(open_rows.len() == texts(cur@).len());
            }
        } else {
            let ghost before = cur@;
            cur.push(lines[i].clone());
            assert(texts(cur@) =~= open_rows.push(lines@[i as int]@)) by {
                assert forall|j: int| 0 <= j < cur@.len() implies texts(cur@)[j] == open_rows.push(
                    lines@[i as int]@,
                )[j] by {
                    if j < before.len() {
                        assert(texts(before)[j] == open_rows[j]);
                    }
                }
            }
        }
        i = i + 1;
    }
    assert(all.take(i as int) =~= all);
    let ghost (closed, open_rows) = filmstrip(all);
    if cur.len() > 0 {
        let ghost before = out@;
        assert(open_rows.len() == texts(cur@).len());
        out.push(cur);
        assert(frame_texts(out@) =~= closed.push(open_rows)) by {
            assert forall|j: int| 0 <= j < out@.len() implies frame_texts(out@)[j] == closed.push(
                open_rows,
            )[j] by {
                if j < before.len() {
                    assert(frame_texts(before)[j] == closed[j]);
                }
            }
        }
    } else {
        assert(open_rows.len() == texts(cur@).len());
    }
    let ghost frames = frames_in(all);
    let mut f: usize = 0;
    while f < out.len()
        invariant
            f <= out.len(),
            frames == frames_in(texts(lines@)),
            frame_texts(out@) == frames,
            row_fault(frames, cells_h as nat, who@, 0) == row_fault(
                frames,
                cells_h as nat,
                who@,
                f as nat,
            ),
        decreases out.len() - f,
    {
        assert(frames[f as int] == texts(out@[f as int]@));
        let rows: usize = out[f].len();
        if rows != cells_h as usize {
            let e: SpriteError = SpriteError::FrameRows {
                who: String::from_str(who),
                frame: f,
                rows,
                expected: cells_h,
            };
            assert(row_fault(frames, cells_h as nat, who@, f as nat) == Some(e@));
            return Err(e);
        }
        f = f + 1;
    }
    Ok(out)
}

/// The rows of some frames, one after another.
pub open spec fn all_rows(frames: Seq<Seq<Seq<char>>>) -> Seq<Seq<char>>
    decreases frames.len(),
{
    if frames.len() == 0 {
        Seq::empty()
    } else {
        all_rows(frames.drop_last()) + frames.last()
    }
}

/// The lines of a pose body that are not blank.
pub open spec fn inked_lines(lines: Seq<Seq<char>>) -> Seq<Seq<char>>
    decreases lines.len(),
{
    if lines.len() == 0 {
        Seq::empty()
    } else if lines.last().len() > 0 {
        inked_lines(lines.drop_last()).push(lines.last())
    } else {
        inked_lines(lines.drop_last())
    }
}

proof fn lemma_filmstrip_keeps_lines(lines: Seq<Seq<char>>)
    ensures
        all_rows(filmstrip(lines).0) + filmstrip(lines).1 == inked_lines(lines),
        forall|i: int| 0 <= i < filmstrip(lines).0.len() ==> (#[trigger] filmstrip(lines).0[i]).len() > 0,
    decreases lines.len(),
{
    if lines.len() > 0 {
        lemma_filmstrip_keeps_lines(lines.drop_last());
        let (closed, open_rows) = filmstrip(lines.drop_last());
        if lines.last().len() > 0 {
            assert(all_rows(closed) + open_rows.push(lines.last()) =~= (all_rows(closed)
                + open_rows).push(lines.last()));
        } else if open_rows.len() > 0 {
            assert(closed.push(open_rows).drop_last() =~= closed);
            assert(all_rows(closed.push(open_rows)) + Seq::<Seq<char>>::empty() =~= all_rows(closed)
                + open_rows);
        }
    } else {
        assert(all_rows(filmstrip(lines).0) + filmstrip(lines).1 =~= inked_lines(lines));
    }
}

/// Splitting loses no art and invents none: the frames hold exactly the lines that are not
/// blank, in order, and no frame is empty.
pub proof fn law_split_keeps_every_line(lines: Seq<Seq<char>>)
    ensures
        all_rows(frames_in(lines)) == inked_lines(lines),
        forall|i: int| 0 <= i < frames_in(lines).len() ==> (#[trigger] frames_in(lines)[i]).len() > 0,
{
    lemma_filmstrip_keeps_lines(lines);
    let (closed, open_rows) = filmstrip(lines);
    assert(closed.push(open_rows).drop_last() =~= closed);
    assert(all_rows(closed) + Seq::<Seq<char>>::empty() =~= all_rows(closed));
}

/// Where a running count of frames stands.
#[derive(Clone, Copy, Debug, PartialEq, Eq, Structural)]
pub enum Beat {
    /// A whole number of frames, rounded down.
    At(i64),
    /// More frames than any number.
    PastEnd,
    /// Fewer frames than any number.
    BeforeStart,
    /// Not a number of frames.
    Undefined,
}

/// What a sprite's animation reads of its owner.
#[derive(Clone, Copy, Debug, PartialEq, Eq, Structural)]
pub struct SpriteClock {
    /// Seconds since the current state was entered.
    pub state_t: Number,
    /// Seconds since the owner appeared.
    pub clock_t: Number,
    /// Turns of a cadence that comes from the world and not from time.
    pub phase: Number,
}

impl Default for SpriteClock {
    fn default() -> (clock: SpriteClock)
        ensures
            clock == (SpriteClock {
                state_t: Number { bits: 0 },
                clock_t: Number { bits: 0 },
                phase: Number { bits: 0 },
            }),
    {
        SpriteClock {
            state_t: Number { bits: 0 },
            clock_t: Number { bits: 0 },
            phase: Number { bits: 0 },
        }
    }
}

/// A number of frames, rounded down. A number too large for 64 bits stops at the last.
pub open spec fn beat_of(frames: Number) -> Beat {
    if !frames.is_number() {
        Beat::Undefined
    } else if frames.is_infinite() {
        if frames.negative() {
            Beat::BeforeStart
        } else {
            Beat::PastEnd
        }
    } else if frames.floored() > i64::MAX {
        Beat::At(i64::MAX)
    } else if frames.floored() < i64::MIN {
        Beat::At(i64::MIN)
    } else {
        Beat::At(frames.floored() as i64)
    }
}

fn beat(frames: Number) -> (beat: Beat)
    ensures
        beat == beat_of(frames),
{
    if frames.is_nan() {
        Beat::Undefined
    } else if frames.bits == INFINITY {
        Beat::PastEnd
    } else if frames.bits == SIGN + INFINITY {
        Beat::BeforeStart
    } else {
        Beat::At(frames.floor())
    }
}

impl SeqSpec {
    /// Seconds to a frame.
    pub open spec fn frame_time(&self) -> Number {
        (Number { bits: 0x3f80_0000 }).quotient(self.fps)
    }

    /// Whether there is a blink period. A period that is not a number is none.
    pub open spec fn blinks(&self) -> bool {
        self.blink_every.is_number() && !self.blink_every.le_zero()
    }
}

/// What a clock reads against a sequence's cadence.
///
/// A loop and a one-shot multiply seconds by the rate. The breath divides them by the time to a
/// frame, and where there is a blink it starts over with every one.
pub open spec fn reading_of(spec: SeqSpec, clock: SpriteClock) -> ClockReading {
    let alive = clock.clock_t.or_zero();
    let since = if spec.blinks() {
        alive.remainder(spec.blink_every)
    } else {
        alive
    };
    ClockReading {
        phase: beat_of(clock.phase.product(whole_number(spec.frames@.len()))),
        state: beat_of(clock.state_t.or_zero().product(spec.fps)),
        breath: beat_of(since.quotient(spec.frame_time())),
        blink: if spec.blinks() {
            Some(since.lt(spec.blink_for))
        } else {
            None
        },
    }
}

/// Reads a clock against a sequence's cadence. See [`reading_of`].
pub fn read(spec: &SeqSpec, clock: &SpriteClock) -> (reading: ClockReading)
    ensures
        reading == reading_of(*spec, *clock),
{
    let one: Number = Number { bits: 0x3f80_0000 };
    let frame_time: Number = one.over(spec.fps);
    let alive: Number = clock.clock_t.max_zero();
    let blinks: bool = !spec.blink_every.is_nan() && !spec.blink_every.is_at_most_zero();
    let since: Number = if blinks {
        alive.rest(spec.blink_every)
    } else {
        alive
    };
    ClockReading {
        phase: beat(clock.phase.times(from_whole(spec.frames.len() as u64))),
        state: beat(clock.state_t.max_zero().times(spec.fps)),
        breath: beat(since.over(frame_time)),
        blink: if blinks {
            Some(since.less(spec.blink_for))
        } else {
            None
        },
    }
}

/// What a clock reads, once it has been held against a sequence's cadence.
#[derive(Clone, Copy, Debug, PartialEq, Eq, Structural)]
pub struct ClockReading {
    /// The cadence times the frame count.
    pub phase: Beat,
    /// Frames since the state was entered.
    pub state: Beat,
    /// Frames into the breath: since the last blink began where there is a blink period, and
    /// since the clock started where there is none.
    pub breath: Beat,
    /// Whether a blink is showing, or `None` where there is no blink period.
    pub blink: Option<bool>,
}

/// A beat wrapped into `0..n`. A beat that is no whole number shows the first frame.
pub open spec fn wrapped(beat: Beat, n: int) -> int {
    match beat {
        Beat::At(i) => i as int % n,
        _ => 0,
    }
}

/// A beat held at the last of `n` frames, and at the first before the start.
pub open spec fn held(beat: Beat, n: int) -> int {
    match beat {
        Beat::At(i) => if i < 0 {
            0
        } else if i < n {
            i as int
        } else {
            n - 1
        },
        Beat::PastEnd => n - 1,
        _ => 0,
    }
}

/// Which of `n` frames a reading shows.
pub open spec fn picked(n: int, mode: PlayMode, reading: ClockReading) -> int {
    if n <= 1 {
        0
    } else {
        match mode {
            PlayMode::Hold => 0,
            PlayMode::Phase => wrapped(reading.phase, n),
            PlayMode::Once => held(reading.state, n),
            PlayMode::Loop => wrapped(reading.state, n),
            PlayMode::Ambient => match reading.blink {
                None => wrapped(reading.breath, n),
                Some(closed) => if closed {
                    n - 1
                } else if n <= 2 {
                    0
                } else {
                    wrapped(reading.breath, n - 1)
                },
            },
        }
    }
}

/// The beat wrapped into `0..n`, so no clock can index out of a sequence.
fn wrap_index(beat: Beat, n: usize) -> (i: usize)
    requires
        n > 0,
    ensures
        i == wrapped(beat, n as int),
        i < n,
{
    match beat {
        Beat::At(at) => {
            let m: i128 = n as i128;
            let a: i128 = at as i128;
            let r: i128 = if a >= 0 {
                a % m
            } else {
                let back: i128 = (-a) % m;
                if back == 0 {
                    0
                } else {
                    m - back
                }
            };
            proof {
                if a < 0 {
                    lemma_negative_wrap(a as int, m as int);
                }
            }
            r as usize
        },
        _ => 0,
    }
}

proof fn lemma_negative_wrap(a: int, m: int)
    requires
        a < 0,
        m > 0,
    ensures
        a % m == (if (-a) % m == 0 {
            0
        } else {
            m - (-a) % m
        }),
{
    let q = (-a) / m;
    let r = (-a) % m;
    vstd::arithmetic::div_mod::lemma_fundamental_div_mod(-a, m);
    vstd::arithmetic::mul::lemma_mul_unary_negation(m, q);
    if r == 0 {
        assert(a == (-q) * m + 0) by {
            vstd::arithmetic::mul::lemma_mul_is_commutative(m, -q);
        }
        vstd::arithmetic::div_mod::lemma_fundamental_div_mod_converse(a, m, -q, 0);
    } else {
        assert(a == (-q - 1) * m + (m - r)) by (nonlinear_arith)
            requires
                -a == m * q + r,
        ;
        vstd::arithmetic::div_mod::lemma_fundamental_div_mod_converse(a, m, -q - 1, m - r);
    }
}

/// Resolve a sequence to a frame index.
///
/// Every mode wraps or holds its beat rather than trusting the caller's clock, because a single
/// frame of negative time would otherwise index out of the sequence and blank the sprite.
pub fn pick_frame_index(spec: &SeqSpec, clock: &SpriteClock) -> (i: usize)
    ensures
        i == picked(spec.frames@.len() as int, spec.mode, reading_of(*spec, *clock)),
        spec.frames@.len() > 0 ==> i < spec.frames@.len(),
{
    let reading: ClockReading = read(spec, clock);
    frame_at(spec, &reading)
}

/// The frame of a sequence that a reading shows.
pub fn frame_at(spec: &SeqSpec, reading: &ClockReading) -> (i: usize)
    ensures
        i == picked(spec.frames@.len() as int, spec.mode, *reading),
        spec.frames@.len() > 0 ==> i < spec.frames@.len(),
{
    let n: usize = spec.frames.len();
    if n <= 1 {
        return 0;
    }
    match spec.mode {
        PlayMode::Hold => 0,
        PlayMode::Phase => wrap_index(reading.phase, n),
        PlayMode::Once => match reading.state {
            Beat::At(at) => {
                if at < 0 {
                    0
                } else if (at as u64) < (n as u64) {
                    at as usize
                } else {
                    n - 1
                }
            },
            Beat::PastEnd => n - 1,
            _ => 0,
        },
        PlayMode::Loop => wrap_index(reading.state, n),
        PlayMode::Ambient => ambient_index(n, reading),
    }
}

/// Idle: a slow breath with an occasional blink punched over the top.
///
/// The blink is the last frame by convention, so adding one to an existing loop is an append.
fn ambient_index(n: usize, reading: &ClockReading) -> (i: usize)
    requires
        n > 1,
    ensures
        i == picked(n as int, PlayMode::Ambient, *reading),
        i < n,
{
    match reading.blink {
        None => wrap_index(reading.breath, n),
        Some(closed) => {
            if closed {
                return n - 1;
            }
            let breaths: usize = n - 1;
            if breaths <= 1 {
                return 0;
            }
            wrap_index(reading.breath, breaths)
        },
    }
}

/// Whatever the clock reads, the frame is one the sequence has.
pub proof fn law_frame_is_in_the_sequence(n: int, mode: PlayMode, reading: ClockReading)
    requires
        n > 0,
    ensures
        0 <= picked(n, mode, reading) < n,
{
    if n > 1 {
        assert forall|beat: Beat, m: int| m > 0 implies 0 <= #[trigger] wrapped(beat, m) < m by {
            if let Beat::At(i) = beat {
                vstd::arithmetic::div_mod::lemma_mod_bound(i as int, m);
            }
        }
    }
}

/// A loop and a cadence come round: a whole number of turns later they show the same frame.
pub proof fn law_loops_come_round(n: int, i: i64, turns: int, j: i64)
    requires
        n > 0,
        j == i + turns * n,
    ensures
        wrapped(Beat::At(i), n) == wrapped(Beat::At(j), n),
{
    vstd::arithmetic::div_mod::lemma_mod_multiples_vanish(turns, i as int, n);
    vstd::arithmetic::mul::lemma_mul_is_commutative(turns, n);
}

/// A one-shot never goes back, and once it has reached its last frame it stays there.
pub proof fn law_one_shot_holds_its_last_frame(n: int, i: i64, j: i64)
    requires
        n > 0,
        i <= j,
    ensures
        held(Beat::At(i), n) <= held(Beat::At(j), n),
        held(Beat::At(i), n) == n - 1 ==> held(Beat::At(j), n) == n - 1,
        held(Beat::PastEnd, n) == n - 1,
{
}

/// A sequence that blinks shows its last frame during the blink and at no other time.
pub proof fn law_blink_is_the_last_frame(n: int, reading: ClockReading)
    requires
        n > 1,
        reading.blink is Some,
    ensures
        picked(n, PlayMode::Ambient, reading) == n - 1 <==> reading.blink == Some(true),
{
    if n > 2 {
        if let Beat::At(i) = reading.breath {
            vstd::arithmetic::div_mod::lemma_mod_bound(i as int, n - 1);
        }
    }
}

/// The frame after one of `n`, coming round after the last.
proof fn lemma_next_frame(n: int, i: i64)
    requires
        n > 0,
        i < i64::MAX,
    ensures
        ({
            let (now, next) = (wrapped(Beat::At(i), n), wrapped(Beat::At((i + 1) as i64), n));
            &&& 0 <= now < n
            &&& next == (if now == n - 1 {
                0
            } else {
                now + 1
            })
        }),
{
    vstd::arithmetic::div_mod::lemma_mod_bound(i as int, n);
    vstd::arithmetic::div_mod::lemma_fundamental_div_mod(i as int, n);
    let (q, r) = (i as int / n, i as int % n);
    if r == n - 1 {
        assert(i + 1 == (q + 1) * n + 0) by (nonlinear_arith)
            requires
                i == n * q + r,
                r == n - 1,
        ;
        vstd::arithmetic::div_mod::lemma_fundamental_div_mod_converse(i + 1, n, q + 1, 0);
    } else {
        assert(i + 1 == q * n + (r + 1)) by (nonlinear_arith)
            requires
                i == n * q + r,
        ;
        vstd::arithmetic::div_mod::lemma_fundamental_div_mod_converse(i + 1, n, q, r + 1);
    }
}

/// A sequence that plays shows its frames in order, one to a beat: whatever else the two readings
/// say, the beat after the one that shows a frame shows the one after it. A loop, a cadence and a
/// breath that has no blink come round after the last of `n`, a breath between blinks after the
/// last but one, and a one-shot stays on its last.
pub proof fn law_each_beat_shows_the_next_frame(n: int, i: i64, now: ClockReading, next: ClockReading)
    requires
        n > 1,
        i < i64::MAX,
    ensures
        now.state == Beat::At(i) && next.state == Beat::At((i + 1) as i64) ==> picked(
            n,
            PlayMode::Loop,
            next,
        ) == (if picked(n, PlayMode::Loop, now) == n - 1 {
            0
        } else {
            picked(n, PlayMode::Loop, now) + 1
        }),
        now.phase == Beat::At(i) && next.phase == Beat::At((i + 1) as i64) ==> picked(
            n,
            PlayMode::Phase,
            next,
        ) == (if picked(n, PlayMode::Phase, now) == n - 1 {
            0
        } else {
            picked(n, PlayMode::Phase, now) + 1
        }),
        now.breath == Beat::At(i) && next.breath == Beat::At((i + 1) as i64) && now.blink is None
            && next.blink is None ==> picked(n, PlayMode::Ambient, next) == (if picked(
            n,
            PlayMode::Ambient,
            now,
        ) == n - 1 {
            0
        } else {
            picked(n, PlayMode::Ambient, now) + 1
        }),
        now.breath == Beat::At(i) && next.breath == Beat::At((i + 1) as i64) && now.blink == Some(
            false,
        ) && next.blink == Some(false) ==> picked(n, PlayMode::Ambient, next) == (if picked(
            n,
            PlayMode::Ambient,
            now,
        ) == n - 2 {
            0
        } else {
            picked(n, PlayMode::Ambient, now) + 1
        }),
        0 <= i && now.state == Beat::At(i) && next.state == Beat::At((i + 1) as i64) ==> picked(
            n,
            PlayMode::Once,
            next,
        ) == (if picked(n, PlayMode::Once, now) == n - 1 {
            n - 1
        } else {
            picked(n, PlayMode::Once, now) + 1
        }),
{
    lemma_next_frame(n, i);
    lemma_next_frame(n - 1, i);
}

/// Every way of playing starts at the first frame, whatever the clocks read that it does not play
/// by; only a blink shows another. A still shows the first frame whatever they all read.
pub proof fn law_every_sequence_starts_at_its_first_frame(n: int, reading: ClockReading)
    requires
        n > 0,
    ensures
        reading.state == Beat::At(0) ==> picked(n, PlayMode::Loop, reading) == 0 && picked(
            n,
            PlayMode::Once,
            reading,
        ) == 0,
        reading.phase == Beat::At(0) ==> picked(n, PlayMode::Phase, reading) == 0,
        reading.breath == Beat::At(0) && reading.blink != Some(true) ==> picked(
            n,
            PlayMode::Ambient,
            reading,
        ) == 0,
        picked(n, PlayMode::Hold, reading) == 0,
{
    if n > 1 {
        vstd::arithmetic::div_mod::lemma_small_mod(0, n as nat);
        vstd::arithmetic::div_mod::lemma_small_mod(0, (n - 1) as nat);
    }
}

/// An idle that is not blinking breathes: a beat shows the frame that is left of it once whole
/// breaths are taken out, so over one breath each of its frames is shown on the beat of its number.
/// A breath has one frame fewer than the sequence where the last is kept for the blink.
pub proof fn law_an_idle_breathes(n: int, i: i64, breaths: int, reading: ClockReading)
    requires
        n > 2,
        reading.breath == Beat::At(i),
        reading.blink == Some(false) && breaths == n - 1 || reading.blink is None && breaths == n,
    ensures
        0 <= picked(n, PlayMode::Ambient, reading) < breaths,
        exists|whole: int|
            i == #[trigger] (whole * breaths) + picked(n, PlayMode::Ambient, reading),
        0 <= i < breaths ==> picked(n, PlayMode::Ambient, reading) == i,
{
    vstd::arithmetic::div_mod::lemma_mod_bound(i as int, breaths);
    vstd::arithmetic::div_mod::lemma_fundamental_div_mod(i as int, breaths);
    let whole = i as int / breaths;
    vstd::arithmetic::mul::lemma_mul_is_commutative(whole, breaths);
    assert(i == whole * breaths + picked(n, PlayMode::Ambient, reading));
    if 0 <= i < breaths {
        vstd::arithmetic::div_mod::lemma_small_mod(i as nat, breaths as nat);
    }
}

/// The largest whole number that is not above a number rises with it.
proof fn lemma_floors_keep_order(a: Number, b: Number)
    requires
        a.is_finite(),
        b.is_finite(),
        !a.negative(),
        !b.negative(),
        a.le(b),
    ensures
        0 <= a.floored() <= b.floored(),
{
    reveal(Number::floored);
    lemma_values_in_order(a, b);
    lemma_steps_are_sizes(a);
    lemma_steps_are_sizes(b);
    lemma_pow2_pos(149);
    vstd::arithmetic::div_mod::lemma_div_is_ordered(
        a.size() as int,
        b.size() as int,
        pow2(149) as int,
    );
    vstd::arithmetic::div_mod::lemma_div_pos_is_pos(a.size() as int, pow2(149) as int);
}

/// A whole number rounds down to itself.
proof fn lemma_floor_of_whole(n: Number, k: int)
    requires
        is_whole(n, k),
        0 <= k,
    ensures
        n.floored() == k,
{
    reveal(Number::floored);
    lemma_steps_are_sizes(n);
    lemma_pow2_pos(149);
    let one = pow2(149) as int;
    assert(0 <= k * one) by (nonlinear_arith)
        requires
            0 <= k,
            0 < one,
    ;
    vstd::arithmetic::div_mod::lemma_div_multiples_vanish(k, one);
    vstd::arithmetic::mul::lemma_mul_is_commutative(k, one);
    if n.negative() {
        assert(n.size() == 0);
        assert(k == 0) by (nonlinear_arith)
            requires
                k * one == 0,
                one > 0,
        ;
        vstd::arithmetic::div_mod::lemma_basic_div(one - 1, one);
    }
}

/// Each way of playing goes by its own clock: a loop and a one-shot by the time in the state, a
/// cadence by its phase, and a breath with its blink by the time since the owner appeared. Time that
/// runs back, or is no number, is no time.
pub proof fn law_each_mode_goes_by_its_own_clock(
    spec: SeqSpec,
    clock: SpriteClock,
    other: SpriteClock,
)
    ensures
        ({
            let (a, b) = (reading_of(spec, clock), reading_of(spec, other));
            let none = reading_of(spec, SpriteClock { state_t: num(0), clock_t: num(0), ..clock });
            &&& clock.state_t == other.state_t ==> a.state == b.state
            &&& clock.phase == other.phase ==> a.phase == b.phase
            &&& clock.clock_t == other.clock_t ==> a.breath == b.breath && a.blink == b.blink
            &&& !clock.state_t.is_number() || clock.state_t.lt(num(0)) ==> a.state == none.state
            &&& !clock.clock_t.is_number() || clock.clock_t.lt(num(0)) ==> a.breath == none.breath
                && a.blink == none.blink
        }),
{
}

/// A loop and a one-shot show so many frames a second: after whole seconds at a whole rate they are
/// as many frames in as the two make. A cadence shows each of its frames once a turn: after whole
/// turns it has shown them all that many times.
pub proof fn law_frames_keep_their_rate(
    spec: SeqSpec,
    clock: SpriteClock,
    seconds: int,
    rate: int,
    turns: int,
)
    requires
        spec.frames@.len() < 0x100_0000,
    ensures
        is_whole(clock.state_t, seconds) && is_whole(spec.fps, rate) && 0 <= seconds && 0 <= rate
            && seconds * rate < 0x100_0000 ==> reading_of(spec, clock).state == Beat::At(
            (seconds * rate) as i64,
        ),
        is_whole(clock.phase, turns) && 0 <= turns && turns * spec.frames@.len() < 0x100_0000
            ==> reading_of(spec, clock).phase == Beat::At((turns * spec.frames@.len()) as i64),
{
    let n = spec.frames@.len();
    if is_whole(clock.state_t, seconds) && is_whole(spec.fps, rate) && 0 <= seconds && 0 <= rate
        && seconds * rate < 0x100_0000 {
        assert(0 <= seconds * rate) by (nonlinear_arith)
            requires
                0 <= seconds,
                0 <= rate,
        ;
        lemma_pow2_pos(149);
        assert(0 <= seconds * pow2(149)) by (nonlinear_arith)
            requires
                0 <= seconds,
                0 < pow2(149),
        ;
        lemma_values_in_order(num(0), clock.state_t);
        law_whole_products_are_exact(clock.state_t, spec.fps, seconds, rate);
        lemma_floor_of_whole(clock.state_t.product(spec.fps), seconds * rate);
    }
    if is_whole(clock.phase, turns) && 0 <= turns && turns * n < 0x100_0000 {
        assert(0 <= turns * n) by (nonlinear_arith)
            requires
                0 <= turns,
        ;
        law_small_whole_numbers_are_exact(n as int);
        law_whole_products_are_exact(clock.phase, whole_number(n), turns, n as int);
        lemma_floor_of_whole(clock.phase.product(whole_number(n)), turns * n);
    }
}

/// A breath keeps time: once the clock has run for so many times the time to a frame, it is that many
/// frames in, and it is never further back at a later moment.
pub proof fn law_a_breath_keeps_time(
    spec: SeqSpec,
    clock: SpriteClock,
    later: SpriteClock,
    frames: int,
)
    requires
        !spec.blinks(),
        spec.frame_time().is_finite(),
        num(0).lt(spec.frame_time()),
        clock.clock_t.is_finite(),
        !clock.clock_t.negative(),
        clock.clock_t.le(later.clock_t),
        later.clock_t.is_finite(),
        !later.clock_t.negative(),
    ensures
        0 <= frames < 0x100_0000 && clock.clock_t.steps() == frames * spec.frame_time().steps()
            ==> reading_of(spec, clock).breath == Beat::At(frames as i64),
        reading_of(spec, clock).breath matches Beat::At(i) ==> (reading_of(
            spec,
            later,
        ).breath matches Beat::At(j) ==> i <= j),
{
    let step = spec.frame_time();
    let (a, b) = (clock.clock_t, later.clock_t);
    law_quotients_keep_order(a, b, step);
    let (p, q) = (a.quotient(step), b.quotient(step));
    assert(!p.negative() && !q.negative()) by {
        reveal(Number::quotient);
    }
    if p.is_finite() && q.is_finite() {
        lemma_floors_keep_order(p, q);
    }
    if 0 <= frames < 0x100_0000 && a.steps() == frames * step.steps() {
        lemma_goes_in_exactly(a, step, frames as nat);
        lemma_floor_of_whole(p, frames);
    }
}

/// A number goes as often into a multiple of itself as that is.
proof fn lemma_goes_in_exactly(a: Number, step: Number, k: nat)
    requires
        a.is_finite(),
        step.is_finite(),
        !a.negative(),
        num(0).lt(step),
        a.steps() == k * step.steps(),
        k < 0x100_0000,
    ensures
        is_whole(a.quotient(step), k as int),
{
    reveal(Number::quotient);
    let (d, one) = (step.size(), pow2(149));
    lemma_steps_are_sizes(a);
    lemma_steps_are_sizes(step);
    lemma_steps_nonnegative(step.magnitude());
    lemma_pow2_pos(149);
    let y = k * one;
    assert(a.size() * one == y * d) by (nonlinear_arith)
        requires
            a.size() == k * d,
            y == k * one,
    ;
    lemma_scaled_is_exact(k, 149);
    lemma_ratio_stays_below(y * d, d, y);
    lemma_ratio_stays_above(y * d, d, y);
    assert(ratio(a.size() * one, d) == y);
    lemma_parts_are_exact(k, 149);
    lemma_exact_steps(y, false);
}

/// A blink starts every period: in the first one it shows for as long as a blink lasts, and the breath
/// is where it would be without one; and a whole number of whole periods later the clock reads the
/// same.
pub proof fn law_a_blink_comes_every_period(
    spec: SeqSpec,
    clock: SpriteClock,
    later: SpriteClock,
    at: int,
    every: int,
    periods: int,
)
    requires
        spec.blinks(),
        !clock.clock_t.negative(),
        clock.clock_t.is_finite(),
    ensures
        clock.clock_t.lt(spec.blink_every) && spec.blink_every.is_finite() ==> {
            let (with, without) = (
                reading_of(spec, clock),
                reading_of(SeqSpec { blink_every: num(0), ..spec }, clock),
            );
            &&& with.blink == Some(clock.clock_t.lt(spec.blink_for))
            &&& with.breath == without.breath
        },
        is_whole(spec.blink_every, every) && is_whole(clock.clock_t, at) && is_whole(
            later.clock_t,
            at + periods * every,
        ) && !later.clock_t.negative() ==> reading_of(spec, clock).breath == reading_of(
            spec,
            later,
        ).breath && reading_of(spec, clock).blink == reading_of(spec, later).blink,
{
    reveal(Number::remainder);
    let (t, e) = (clock.clock_t, spec.blink_every);
    lemma_steps_are_sizes(t);
    if t.lt(e) && e.is_finite() {
        lemma_steps_are_sizes(e);
        lemma_steps_increase(t.magnitude(), e.magnitude());
        vstd::arithmetic::div_mod::lemma_small_mod(t.size(), e.size());
        lemma_size_is_exact(t);
    }
    if is_whole(e, every) && is_whole(t, at) && is_whole(later.clock_t, at + periods * every)
        && !later.clock_t.negative() {
        let one = pow2(149) as int;
        lemma_pow2_pos(149);
        lemma_steps_are_sizes(e);
        lemma_steps_are_sizes(later.clock_t);
        lemma_steps_nonnegative(e.magnitude());
        let (m, n) = (at * one, every * one);
        assert(every * one > 0);
        assert((at + periods * every) * one == n * periods + m) by (nonlinear_arith)
            requires
                m == at * one,
                n == every * one,
        ;
        vstd::arithmetic::div_mod::lemma_mod_multiples_vanish(periods, m, n);
    }
}

} // verus!
