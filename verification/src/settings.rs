//! What the player has chosen, and the file it survives in.
//!
//! One `key=value` to a line. An unknown key is skipped, a malformed value keeps the default, and
//! a file from a newer build loads in an older one.

use vstd::arithmetic::power2::*;
use vstd::prelude::*;
use vstd::string::*;

use crate::arith::{from_whole, whole_number};
use crate::fixed::{
    are_near, decimal_number, fixed, law_a_number_settles, lemma_fixed_has_no_white_space,
    lemma_short_decimal, nearest_decimal, pow10, push_fixed, reread,
};
use crate::number::{Number, num};
use crate::order::lemma_values_in_order;
use crate::pin::joined;
use crate::text::{
    chars_of, decimal, is_text, is_trim, is_white, law_decimal_reads_back, lemma_trim_of_trim, part,
    push_decimal, small_unsigned, string_of, trim, trimmed, unsigned_value,
};
use crate::whole::{
    is_whole, law_small_whole_numbers_are_exact, law_whole_products_are_exact,
};

verus! {

broadcast use vstd::string::group_string_axioms;

/// How the control hints behave.
#[derive(Clone, Copy, Debug, PartialEq, Eq, Structural)]
pub enum HintMode {
    /// Always on screen.
    Always,
    /// Hold, then fade out. The default.
    Fade,
    /// Never drawn.
    Never,
}

impl Default for HintMode {
    fn default() -> (mode: HintMode)
        ensures
            mode == HintMode::Fade,
    {
        HintMode::Fade
    }
}

/// What the option button says for a mode.
pub open spec fn hint_label(mode: HintMode) -> Seq<char> {
    match mode {
        HintMode::Always => "Always"@,
        HintMode::Fade => "Fade out"@,
        HintMode::Never => "Never"@,
    }
}

/// How a mode is written in the file.
pub open spec fn hint_key(mode: HintMode) -> Seq<char> {
    match mode {
        HintMode::Always => "always"@,
        HintMode::Fade => "fade"@,
        HintMode::Never => "never"@,
    }
}

/// The mode a word in the file names.
pub open spec fn hint_of(word: Seq<char>) -> Option<HintMode> {
    if word == "always"@ {
        Some(HintMode::Always)
    } else if word == "fade"@ {
        Some(HintMode::Fade)
    } else if word == "never"@ {
        Some(HintMode::Never)
    } else {
        None
    }
}

impl HintMode {
    /// The whole cycle, in the order the option button steps through it.
    pub fn all() -> (modes: [HintMode; 3])
        ensures
            modes@ == seq![HintMode::Always, HintMode::Fade, HintMode::Never],
    {
        let modes: [HintMode; 3] = [HintMode::Always, HintMode::Fade, HintMode::Never];
        assert(modes@ =~= seq![HintMode::Always, HintMode::Fade, HintMode::Never]);
        modes
    }

    /// What the option button says.
    pub fn label(self) -> (label: &'static str)
        ensures
            label@ == hint_label(self),
    {
        match self {
            HintMode::Always => "Always",
            HintMode::Fade => "Fade out",
            HintMode::Never => "Never",
        }
    }

    fn key(self) -> (key: &'static str)
        ensures
            key@ == hint_key(self),
    {
        match self {
            HintMode::Always => "always",
            HintMode::Fade => "fade",
            HintMode::Never => "never",
        }
    }

    fn parse(word: &Vec<char>) -> (mode: Option<HintMode>)
        ensures
            mode == hint_of(word@),
    {
        if is_text(word, "always") {
            Some(HintMode::Always)
        } else if is_text(word, "fade") {
            Some(HintMode::Fade)
        } else if is_text(word, "never") {
            Some(HintMode::Never)
        } else {
            None
        }
    }
}

/// How big a buffer pixel is on screen.
#[derive(Clone, Copy, Debug, PartialEq, Eq, Structural)]
pub enum RenderScale {
    /// Fit the window.
    Auto,
    /// A fixed whole-number zoom.
    Fixed(u32),
}

impl Default for RenderScale {
    fn default() -> (scale: RenderScale)
        ensures
            scale == RenderScale::Auto,
    {
        RenderScale::Auto
    }
}

/// The largest zoom a file may ask for.
pub const MAX_ZOOM: u32 = 8;

/// The zoom floor an automatic scale stands for.
#[verifier::allow_in_spec]
pub fn auto_zoom() -> Number
    returns
        (Number { bits: 0x4000_0000 }),
{
    Number { bits: 0x4000_0000 }
}

/// The scale a word in the file names: a whole number from 1 to the largest zoom is that zoom,
/// and anything else is automatic.
pub open spec fn scale_in(word: Seq<char>) -> RenderScale {
    match unsigned_value(word) {
        Some(n) => if 1 <= n <= MAX_ZOOM {
            RenderScale::Fixed(n as u32)
        } else {
            RenderScale::Auto
        },
        None => RenderScale::Auto,
    }
}

/// How a scale is written in the file.
pub open spec fn scale_text(scale: RenderScale) -> Seq<char> {
    match scale {
        RenderScale::Auto => "auto"@,
        RenderScale::Fixed(n) => decimal(n as nat),
    }
}

impl RenderScale {
    /// The cycle, in the order the option button steps through it.
    pub fn all() -> (scales: [RenderScale; 5])
        ensures
            scales@ == seq![
                RenderScale::Auto,
                RenderScale::Fixed(2),
                RenderScale::Fixed(3),
                RenderScale::Fixed(4),
                RenderScale::Fixed(5),
            ],
    {
        let scales: [RenderScale; 5] = [
            RenderScale::Auto,
            RenderScale::Fixed(2),
            RenderScale::Fixed(3),
            RenderScale::Fixed(4),
            RenderScale::Fixed(5),
        ];
        assert(scales@ =~= seq![
            RenderScale::Auto,
            RenderScale::Fixed(2),
            RenderScale::Fixed(3),
            RenderScale::Fixed(4),
            RenderScale::Fixed(5),
        ]);
        scales
    }

    /// What the option button says.
    pub fn label(self) -> (label: String)
        ensures
            label@ == match self {
                RenderScale::Auto => "Auto"@,
                RenderScale::Fixed(n) => decimal(n as nat) + "x"@,
            },
    {
        match self {
            RenderScale::Auto => String::from_str("Auto"),
            RenderScale::Fixed(n) => {
                let mut out: String = String::new();
                push_decimal(&mut out, n as u64);
                out.append("x");
                assert(out@ =~= decimal(n as nat) + "x"@);
                out
            },
        }
    }

    /// The zoom this scale pins, or `None` for automatic.
    pub fn zoom(self) -> (zoom: Option<Number>)
        ensures
            zoom == match self {
                RenderScale::Auto => None,
                RenderScale::Fixed(n) => Some(whole_number(n as nat)),
            },
    {
        match self {
            RenderScale::Auto => None,
            RenderScale::Fixed(n) => Some(from_whole(n as u64)),
        }
    }

    /// A file can ask for it: automatic, or from 1 to the largest zoom.
    pub open spec fn is_offered(self) -> bool {
        self matches RenderScale::Fixed(n) ==> 1 <= n <= MAX_ZOOM
    }

    /// The zoom floor the view is fitted with.
    pub open spec fn floor(self) -> Number {
        match self {
            RenderScale::Auto => auto_zoom(),
            RenderScale::Fixed(n) => whole_number(n as nat),
        }
    }

    /// The zoom floor the view is fitted with. See [`RenderScale::floor`].
    pub fn zoom_floor(self) -> (zoom: Number)
        ensures
            zoom == self.floor(),
    {
        match self.zoom() {
            None => auto_zoom(),
            Some(zoom) => zoom,
        }
    }
}

/// Everything the player has chosen.
#[derive(Clone, Copy, Debug, PartialEq, Eq, Structural)]
pub struct Settings {
    /// Borderless fullscreen.
    pub fullscreen: bool,
    /// Wait for the display's refresh.
    pub vsync: bool,
    /// Buffer pixel size.
    pub scale: RenderScale,
    /// Fraction of the particle budget that may be alive at once, from 0 to 1.
    pub particles: Number,
    /// Screenshake magnitude, from 0 to 1. Zero is off.
    pub shake: Number,
    /// What the control hints do.
    pub hints: HintMode,
    /// Whether the debug panel starts up.
    pub debug_overlay: bool,
    /// Real minutes in one in-game day, from 2 to 60.
    pub day_minutes: Number,
    /// Seconds between autosaves, from 10 to 300.
    pub autosave_s: Number,
}

/// What a fresh install plays with, given the day length and the autosave interval the game
/// ships with.
#[verifier::allow_in_spec]
pub fn shipped(day_minutes: Number, autosave_s: Number) -> Settings
    returns
        (Settings {
            fullscreen: false,
            vsync: true,
            scale: RenderScale::Auto,
            particles: Number { bits: 0x3f80_0000 },
            shake: Number { bits: 0x3f80_0000 },
            hints: HintMode::Fade,
            debug_overlay: false,
            day_minutes,
            autosave_s,
        }),
{
    Settings {
        fullscreen: false,
        vsync: true,
        scale: RenderScale::Auto,
        particles: Number { bits: 0x3f80_0000 },
        shake: Number { bits: 0x3f80_0000 },
        hints: HintMode::Fade,
        debug_overlay: false,
        day_minutes,
        autosave_s,
    }
}

/// The ends of a fraction: zero and one.
pub const FRACTION: (u32, u32) = (0, 0x3f80_0000);

/// Real minutes in a day, at the ends of the slider: 2 and 60.
pub const DAY_MINUTES: (u32, u32) = (0x4000_0000, 0x4270_0000);

/// Seconds between autosaves, at the ends of the slider: 10 and 300.
pub const AUTOSAVE_S: (u32, u32) = (0x4120_0000, 0x4396_0000);

/// A number pulled back between the ends of a slider. What is not a number goes to the lower end.
pub open spec fn pulled_back(n: Number, ends: (u32, u32)) -> Number {
    if n.is_number() {
        n.clamped(Number { bits: ends.0 }, Number { bits: ends.1 })
    } else {
        Number { bits: ends.0 }
    }
}

fn pull_back(n: Number, ends: (u32, u32)) -> (out: Number)
    requires
        num(ends.0).is_number(),
        num(ends.1).is_number(),
        num(ends.0).rank() <= num(ends.1).rank(),
    ensures
        out == pulled_back(n, ends),
{
    if n.is_nan() {
        Number { bits: ends.0 }
    } else {
        n.clamp(Number { bits: ends.0 }, Number { bits: ends.1 })
    }
}

/// A number is between the ends of a slider.
pub open spec fn is_between(n: Number, ends: (u32, u32)) -> bool {
    num(ends.0).le(n) && n.le(num(ends.1))
}

/// Every number is inside its range.
pub open spec fn are_in_range(s: Settings) -> bool {
    &&& is_between(s.particles, FRACTION)
    &&& is_between(s.shake, FRACTION)
    &&& is_between(s.day_minutes, DAY_MINUTES)
    &&& is_between(s.autosave_s, AUTOSAVE_S)
}

/// Settings with every value pulled back inside its range.
pub open spec fn clamped(s: Settings) -> Settings {
    Settings {
        particles: pulled_back(s.particles, FRACTION),
        shake: pulled_back(s.shake, FRACTION),
        day_minutes: pulled_back(s.day_minutes, DAY_MINUTES),
        autosave_s: pulled_back(s.autosave_s, AUTOSAVE_S),
        ..s
    }
}

/// A key of the file.
#[derive(Clone, Copy, Debug, PartialEq, Eq, Structural)]
pub enum Key {
    Fullscreen,
    Vsync,
    Scale,
    Particles,
    Shake,
    Hints,
    DebugOverlay,
    DayMinutes,
    AutosaveS,
}

/// How a key is written.
pub open spec fn key_text(key: Key) -> Seq<char> {
    match key {
        Key::Fullscreen => "fullscreen"@,
        Key::Vsync => "vsync"@,
        Key::Scale => "scale"@,
        Key::Particles => "particles"@,
        Key::Shake => "shake"@,
        Key::Hints => "hints"@,
        Key::DebugOverlay => "debug_overlay"@,
        Key::DayMinutes => "day_minutes"@,
        Key::AutosaveS => "autosave_s"@,
    }
}

/// The key a word names.
pub open spec fn key_of(word: Seq<char>) -> Option<Key> {
    if word == "fullscreen"@ {
        Some(Key::Fullscreen)
    } else if word == "vsync"@ {
        Some(Key::Vsync)
    } else if word == "scale"@ {
        Some(Key::Scale)
    } else if word == "particles"@ {
        Some(Key::Particles)
    } else if word == "shake"@ {
        Some(Key::Shake)
    } else if word == "hints"@ {
        Some(Key::Hints)
    } else if word == "debug_overlay"@ {
        Some(Key::DebugOverlay)
    } else if word == "day_minutes"@ {
        Some(Key::DayMinutes)
    } else if word == "autosave_s"@ {
        Some(Key::AutosaveS)
    } else {
        None
    }
}

/// Whether a key's value is a number.
pub open spec fn is_numeric(key: Key) -> bool {
    key is Particles || key is Shake || key is DayMinutes || key is AutosaveS
}

/// The lines of a text: those that a line feed has ended, and the one that is still open.
pub open spec fn lines_in(text: Seq<char>) -> (Seq<Seq<char>>, Seq<char>)
    decreases text.len(),
{
    if text.len() == 0 {
        (Seq::empty(), Seq::empty())
    } else {
        let (ended, open_line) = lines_in(text.drop_last());
        if text.last() == '\n' {
            (ended.push(open_line), Seq::empty())
        } else {
            (ended, open_line.push(text.last()))
        }
    }
}

/// The first place, from `i` on, that holds an equals sign.
pub open spec fn equals_at(s: Seq<char>, i: nat) -> Option<nat>
    decreases s.len() - i,
{
    if i >= s.len() {
        None
    } else if s[i as int] == '=' {
        Some(i)
    } else {
        equals_at(s, i + 1)
    }
}

/// What a line assigns: nothing when it is blank, a comment, has no equals sign or names no key.
pub open spec fn assignment(line: Seq<char>) -> Option<(Key, Seq<char>)> {
    let s = trimmed(line);
    if s.len() == 0 || s[0] == '#' {
        None
    } else {
        match equals_at(s, 0) {
            None => None,
            Some(at) => match key_of(trimmed(s.take(at as int))) {
                None => None,
                Some(key) => Some((key, trimmed(s.skip(at as int + 1)))),
            },
        }
    }
}

/// What some lines assign, in order.
pub open spec fn assigned(lines: Seq<Seq<char>>) -> Seq<(Key, Seq<char>)>
    decreases lines.len(),
{
    if lines.len() == 0 {
        Seq::empty()
    } else {
        let before = assigned(lines.drop_last());
        match assignment(lines.last()) {
            Some(a) => before.push(a),
            None => before,
        }
    }
}

/// What a text assigns, in order.
pub open spec fn assignments(text: Seq<char>) -> Seq<(Key, Seq<char>)> {
    let (ended, open_line) = lines_in(text);
    assigned(ended.push(open_line))
}

/// A switch that was `was`, once it has been given a value. Only the two words change it.
pub open spec fn switched(value: Seq<char>, was: bool) -> bool {
    if value == "true"@ {
        true
    } else if value == "false"@ {
        false
    } else {
        was
    }
}

fn switch_to(value: &Vec<char>, was: bool) -> (on: bool)
    ensures
        on == switched(value@, was),
{
    if is_text(value, "true") {
        true
    } else if is_text(value, "false") {
        false
    } else {
        was
    }
}

/// A slider that was at `was`, once it has been given what a value reads as. Only a number changes
/// it.
pub open spec fn moved_to(number: Option<Number>, was: Number) -> Number {
    match number {
        Some(n) => if n.is_number() {
            n
        } else {
            was
        },
        None => was,
    }
}

fn move_to(number: Option<Number>, was: Number) -> (out: Number)
    ensures
        out == moved_to(number, was),
{
    match number {
        Some(n) => if n.is_nan() {
            was
        } else {
            n
        },
        None => was,
    }
}

/// Settings once a key has been given a value. `number` is what the value reads as, for a key
/// that takes one; a malformed value changes nothing.
pub open spec fn set_key(
    s: Settings,
    key: Key,
    value: Seq<char>,
    number: Option<Number>,
) -> Settings {
    match key {
        Key::Fullscreen => Settings { fullscreen: switched(value, s.fullscreen), ..s },
        Key::Vsync => Settings { vsync: switched(value, s.vsync), ..s },
        Key::DebugOverlay => Settings { debug_overlay: switched(value, s.debug_overlay), ..s },
        Key::Scale => Settings { scale: scale_in(value), ..s },
        Key::Hints => match hint_of(value) {
            Some(mode) => Settings { hints: mode, ..s },
            None => s,
        },
        Key::Particles => Settings { particles: moved_to(number, s.particles), ..s },
        Key::Shake => Settings { shake: moved_to(number, s.shake), ..s },
        Key::DayMinutes => Settings { day_minutes: moved_to(number, s.day_minutes), ..s },
        Key::AutosaveS => Settings { autosave_s: moved_to(number, s.autosave_s), ..s },
    }
}

/// How many of the first `n` assignments take a number.
pub open spec fn numeric_before(all: Seq<(Key, Seq<char>)>, n: nat) -> nat
    decreases n,
{
    if n == 0 {
        0
    } else {
        numeric_before(all, (n - 1) as nat) + if is_numeric(all[n - 1].0) {
            1nat
        } else {
            0nat
        }
    }
}

/// Settings once the first `n` assignments have been made, where `numbers[k]` is what the value
/// of the `k`-th assignment that takes a number reads as.
pub open spec fn settled(
    start: Settings,
    all: Seq<(Key, Seq<char>)>,
    numbers: Seq<Option<Number>>,
    n: nat,
) -> Settings
    decreases n,
{
    if n == 0 {
        start
    } else {
        let k = numeric_before(all, (n - 1) as nat) as int;
        set_key(
            settled(start, all, numbers, (n - 1) as nat),
            all[n - 1].0,
            all[n - 1].1,
            if k < numbers.len() {
                numbers[k]
            } else {
                None
            },
        )
    }
}

/// The settings a text stands for.
pub open spec fn settings_in(
    defaults: Settings,
    text: Seq<char>,
    numbers: Seq<Option<Number>>,
) -> Settings {
    let all = assignments(text);
    clamped(settled(defaults, all, numbers, all.len()))
}

/// The values of the assignments that take a number, in order.
pub open spec fn numeric_values(all: Seq<(Key, Seq<char>)>) -> Seq<Seq<char>>
    decreases all.len(),
{
    if all.len() == 0 {
        Seq::empty()
    } else if is_numeric(all.last().0) {
        numeric_values(all.drop_last()).push(all.last().1)
    } else {
        numeric_values(all.drop_last())
    }
}

/// How a switch is written.
pub open spec fn switch_text(on: bool) -> Seq<char> {
    if on {
        "true"@
    } else {
        "false"@
    }
}

/// One line of the file.
pub open spec fn line_text(key: Key, value: Seq<char>) -> Seq<char> {
    (key_text(key) + "="@ + value).push('\n')
}

/// The lines of the file after its heading, in order. The fractions are written in hundredths, the
/// length of a day in tenths of a minute, and the autosave interval in whole seconds.
pub open spec fn file_values(s: Settings) -> Seq<(Key, Seq<char>)> {
    seq![
        (Key::Fullscreen, switch_text(s.fullscreen)),
        (Key::Vsync, switch_text(s.vsync)),
        (Key::Scale, scale_text(s.scale)),
        (Key::Particles, fixed(s.particles, 2)),
        (Key::Shake, fixed(s.shake, 2)),
        (Key::Hints, hint_key(s.hints)),
        (Key::DebugOverlay, switch_text(s.debug_overlay)),
        (Key::DayMinutes, fixed(s.day_minutes, 1)),
        (Key::AutosaveS, fixed(s.autosave_s, 0)),
    ]
}

/// The first `n` of some lines.
pub open spec fn lines_text(values: Seq<(Key, Seq<char>)>, n: nat) -> Seq<char>
    decreases n,
{
    if n == 0 {
        Seq::empty()
    } else {
        lines_text(values, (n - 1) as nat) + line_text(values[n - 1].0, values[n - 1].1)
    }
}

/// The comment the file starts with.
pub open spec fn heading() -> Seq<char> {
    "# Yugen settings. Delete a line to restore its default."@
}

/// The whole file.
pub open spec fn file_text(s: Settings) -> Seq<char> {
    heading().push('\n') + lines_text(file_values(s), 9)
}

fn number_text(n: Number, places: u32) -> (out: String)
    requires
        places <= 9,
    ensures
        out@ == fixed(n, places as nat),
{
    let mut out: String = String::new();
    push_fixed(&mut out, n, places);
    assert(out@ =~= fixed(n, places as nat));
    out
}

/// Writes line `k` of a file whose lines before it are written.
fn push_line(
    out: &mut String,
    key: Key,
    value: &str,
    head: Ghost<Seq<char>>,
    values: Ghost<Seq<(Key, Seq<char>)>>,
    k: Ghost<nat>,
)
    requires
        old(out)@ == head@ + lines_text(values@, k@),
        k@ < values@.len(),
        values@[k@ as int] == (key, value@),
    ensures
        final(out)@ == head@ + lines_text(values@, k@ + 1),
{
    let name: &str = match key {
        Key::Fullscreen => "fullscreen",
        Key::Vsync => "vsync",
        Key::Scale => "scale",
        Key::Particles => "particles",
        Key::Shake => "shake",
        Key::Hints => "hints",
        Key::DebugOverlay => "debug_overlay",
        Key::DayMinutes => "day_minutes",
        Key::AutosaveS => "autosave_s",
    };
    out.append(name);
    out.append("=");
    out.append(value);
    out.push('\n');
    assert(out@ =~= old(out)@ + line_text(key, value@));
    assert(out@ =~= head@ + lines_text(values@, k@ + 1));
}

fn switch(on: bool) -> (text: &'static str)
    ensures
        text@ == switch_text(on),
{
    if on {
        "true"
    } else {
        "false"
    }
}

fn key_named(word: &Vec<char>) -> (key: Option<Key>)
    ensures
        key == key_of(word@),
{
    if is_text(word, "fullscreen") {
        Some(Key::Fullscreen)
    } else if is_text(word, "vsync") {
        Some(Key::Vsync)
    } else if is_text(word, "scale") {
        Some(Key::Scale)
    } else if is_text(word, "particles") {
        Some(Key::Particles)
    } else if is_text(word, "shake") {
        Some(Key::Shake)
    } else if is_text(word, "hints") {
        Some(Key::Hints)
    } else if is_text(word, "debug_overlay") {
        Some(Key::DebugOverlay)
    } else if is_text(word, "day_minutes") {
        Some(Key::DayMinutes)
    } else if is_text(word, "autosave_s") {
        Some(Key::AutosaveS)
    } else {
        None
    }
}

fn numeric(key: Key) -> (is: bool)
    ensures
        is == is_numeric(key),
{
    match key {
        Key::Particles | Key::Shake | Key::DayMinutes | Key::AutosaveS => true,
        _ => false,
    }
}

/// What a line assigns.
fn read_line(line: &Vec<char>) -> (out: Option<(Key, Vec<char>)>)
    ensures
        match out {
            Some((key, value)) => assignment(line@) == Some((key, value@)),
            None => assignment(line@) is None,
        },
{
    let s: Vec<char> = trim(line);
    if s.len() == 0 || s[0] == '#' {
        return None;
    }
    let mut at: usize = 0;
    while at < s.len() && s[at] != '='
        invariant
            at <= s.len(),
            equals_at(s@, 0) == equals_at(s@, at as nat),
        decreases s.len() - at,
    {
        at = at + 1;
    }
    if at >= s.len() {
        return None;
    }
    let word: Vec<char> = part(&s, 0, at);
    let rest: Vec<char> = part(&s, at + 1, s.len());
    assert(word@ =~= s@.take(at as int));
    assert(rest@ =~= s@.skip(at as int + 1));
    let word: Vec<char> = trim(&word);
    match key_named(&word) {
        Some(key) => Some((key, trim(&rest))),
        None => None,
    }
}

/// Assignments with each value as its text.
pub open spec fn value_texts(all: Seq<(Key, Vec<char>)>) -> Seq<(Key, Seq<char>)> {
    Seq::new(all.len(), |i: int| (all[i].0, all[i].1@))
}

fn note(out: &mut Vec<(Key, Vec<char>)>, line: &Vec<char>, before: Ghost<Seq<Seq<char>>>)
    requires
        value_texts(old(out)@) == assigned(before@),
    ensures
        value_texts(final(out)@) == assigned(before@.push(line@)),
{
    assert(before@.push(line@).drop_last() =~= before@);
    if let Some((key, value)) = read_line(line) {
        let ghost was = out@;
        out.push((key, value));
        assert(value_texts(out@) =~= value_texts(was).push((key, value@)));
    }
}

/// What a text assigns, in order.
fn read_all(text: &str) -> (out: Vec<(Key, Vec<char>)>)
    ensures
        value_texts(out@) == assignments(text@),
{
    let chars: Vec<char> = chars_of(text);
    let mut out: Vec<(Key, Vec<char>)> = Vec::new();
    let mut line: Vec<char> = Vec::new();
    let mut i: usize = 0;
    assert(value_texts(out@) =~= Seq::empty());
    while i < chars.len()
        invariant
            i <= chars.len(),
            chars@ == text@,
            line@ == lines_in(chars@.take(i as int)).1,
            value_texts(out@) == assigned(lines_in(chars@.take(i as int)).0),
        decreases chars.len() - i,
    {
        let c: char = chars[i];
        let ghost now = chars@.take(i as int + 1);
        proof {
            assert(now.drop_last() =~= chars@.take(i as int));
            assert(now.last() == c);
        }
        if c == '\n' {
            note(&mut out, &line, Ghost(lines_in(chars@.take(i as int)).0));
            line = Vec::new();
        } else {
            line.push(c);
        }
        i = i + 1;
    }
    assert(chars@.take(i as int) =~= chars@);
    note(&mut out, &line, Ghost(lines_in(chars@).0));
    out
}

impl Settings {
    /// Pull every value back inside its range.
    pub fn clamp(&mut self)
        ensures
            *final(self) == clamped(*old(self)),
            are_in_range(*final(self)),
    {
        self.particles = pull_back(self.particles, FRACTION);
        self.shake = pull_back(self.shake, FRACTION);
        self.day_minutes = pull_back(self.day_minutes, DAY_MINUTES);
        self.autosave_s = pull_back(self.autosave_s, AUTOSAVE_S);
    }

    /// The file, as text.
    pub fn to_text(&self) -> (out: String)
        ensures
            out@ == file_text(*self),
    {
        let ghost values = file_values(*self);
        let mut out: String = String::from_str(
            "# Yugen settings. Delete a line to restore its default.",
        );
        out.push('\n');
        let ghost head = out@;
        assert(out@ =~= head + lines_text(values, 0));
        push_line(&mut out, Key::Fullscreen, switch(self.fullscreen), Ghost(head), Ghost(values), Ghost(0nat));
        push_line(&mut out, Key::Vsync, switch(self.vsync), Ghost(head), Ghost(values), Ghost(1nat));
        match self.scale {
            RenderScale::Auto => {
                push_line(&mut out, Key::Scale, "auto", Ghost(head), Ghost(values), Ghost(2nat));
            },
            RenderScale::Fixed(n) => {
                let mut digits: String = String::new();
                push_decimal(&mut digits, n as u64);
                assert(digits@ =~= decimal(n as nat));
                push_line(&mut out, Key::Scale, digits.as_str(), Ghost(head), Ghost(values), Ghost(2nat));
            },
        }
        push_line(&mut out, Key::Particles, number_text(self.particles, 2).as_str(), Ghost(head), Ghost(values), Ghost(3nat));
        push_line(&mut out, Key::Shake, number_text(self.shake, 2).as_str(), Ghost(head), Ghost(values), Ghost(4nat));
        push_line(&mut out, Key::Hints, self.hints.key(), Ghost(head), Ghost(values), Ghost(5nat));
        push_line(&mut out, Key::DebugOverlay, switch(self.debug_overlay), Ghost(head), Ghost(values), Ghost(6nat));
        push_line(&mut out, Key::DayMinutes, number_text(self.day_minutes, 1).as_str(), Ghost(head), Ghost(values), Ghost(7nat));
        push_line(&mut out, Key::AutosaveS, number_text(self.autosave_s, 0).as_str(), Ghost(head), Ghost(values), Ghost(8nat));
        out
    }

    /// The values of a file that have to be read as numbers, in order.
    pub fn numbers_in(text: &str) -> (out: Vec<String>)
        ensures
            crate::sprite::frames::texts(out@) == numeric_values(assignments(text@)),
    {
        let all: Vec<(Key, Vec<char>)> = read_all(text);
        let ghost seen = assignments(text@);
        let mut out: Vec<String> = Vec::new();
        let mut i: usize = 0;
        assert(crate::sprite::frames::texts(out@) =~= Seq::empty());
        while i < all.len()
            invariant
                i <= all.len(),
                value_texts(all@) == seen,
                crate::sprite::frames::texts(out@) == numeric_values(seen.take(i as int)),
            decreases all.len() - i,
        {
            proof {
                assert(seen.take(i as int + 1).drop_last() =~= seen.take(i as int));
                assert(seen[i as int] == (all@[i as int].0, all@[i as int].1@));
            }
            if numeric(all[i].0) {
                let ghost was = out@;
                let value: String = string_of(&all[i].1);
                out.push(value);
                assert(crate::sprite::frames::texts(out@) =~= crate::sprite::frames::texts(
                    was,
                ).push(value@));
            }
            i = i + 1;
        }
        assert(seen.take(i as int) =~= seen);
        out
    }

    /// Read `text`, keeping the default for anything missing or malformed. `numbers` is what the
    /// values of [`Settings::numbers_in`] read as, in the same order.
    ///
    /// Never fails. Refusing the file would reset every choice the player made, which is worse
    /// than ignoring one bad line.
    pub fn from_text(defaults: Settings, text: &str, numbers: &Vec<Option<Number>>) -> (out:
        Settings)
        ensures
            out == settings_in(defaults, text@, numbers@),
            are_in_range(out),
            defaults.scale.is_offered() ==> out.scale.is_offered(),
    {
        let all: Vec<(Key, Vec<char>)> = read_all(text);
        let ghost seen = assignments(text@);
        let mut out: Settings = defaults;
        let mut k: usize = 0;
        let mut i: usize = 0;
        while i < all.len()
            invariant
                i <= all.len(),
                k <= i,
                value_texts(all@) == seen,
                k == numeric_before(seen, i as nat),
                out == settled(defaults, seen, numbers@, i as nat),
                defaults.scale.is_offered() ==> out.scale.is_offered(),
            decreases all.len() - i,
        {
            let key: Key = all[i].0;
            let value: &Vec<char> = &all[i].1;
            assert(seen[i as int] == (key, value@));
            let number: Option<Number> = if k < numbers.len() {
                numbers[k]
            } else {
                None
            };
            match key {
                Key::Fullscreen => {
                    out.fullscreen = switch_to(value, out.fullscreen);
                },
                Key::Vsync => {
                    out.vsync = switch_to(value, out.vsync);
                },
                Key::DebugOverlay => {
                    out.debug_overlay = switch_to(value, out.debug_overlay);
                },
                Key::Scale => {
                    out.scale = match small_unsigned(value, MAX_ZOOM + 1) {
                        Some(n) => if n >= 1 {
                            RenderScale::Fixed(n)
                        } else {
                            RenderScale::Auto
                        },
                        None => RenderScale::Auto,
                    };
                },
                Key::Hints => {
                    if let Some(mode) = HintMode::parse(value) {
                        out.hints = mode;
                    }
                },
                Key::Particles => {
                    out.particles = move_to(number, out.particles);
                },
                Key::Shake => {
                    out.shake = move_to(number, out.shake);
                },
                Key::DayMinutes => {
                    out.day_minutes = move_to(number, out.day_minutes);
                },
                Key::AutosaveS => {
                    out.autosave_s = move_to(number, out.autosave_s);
                },
            }
            if numeric(key) {
                k = k + 1;
            }
            i = i + 1;
        }
        assert(value_texts(all@).len() == all@.len());
        out.clamp();
        out
    }
}

/// The file's own name.
pub open spec fn file_name() -> Seq<char> {
    "options.txt"@
}

/// How much of a path comes before its names: the slash of an absolute one, or a dot that it starts
/// with.
pub open spec fn lead(path: Seq<char>) -> nat {
    if path.len() > 0 && (path[0] == '/' || (path[0] == '.' && (path.len() == 1 || path[1] == '/'))) {
        1
    } else {
        0
    }
}

/// Where the last name of a path starts that has `from` characters before its names.
pub open spec fn name_start(path: Seq<char>, from: nat) -> nat
    decreases path.len(),
{
    if path.len() <= from || path.last() == '/' {
        path.len()
    } else {
        name_start(path.drop_last(), from)
    }
}

/// A path without its last name, and without the slash before it.
pub open spec fn without_name(path: Seq<char>, from: nat) -> Seq<char> {
    let start = name_start(path, from);
    if start > from {
        path.take(start - 1)
    } else {
        path.take(start as int)
    }
}

/// A path ends in something that names nothing: a slash, or a dot after one.
pub open spec fn ends_in_nothing(path: Seq<char>, from: nat) -> bool {
    let name = path.skip(name_start(path, from) as int);
    path.len() > from && (name.len() == 0 || name == seq!['.'])
}

proof fn lemma_name_start(path: Seq<char>, from: nat)
    requires
        path.len() >= from,
    ensures
        from <= name_start(path, from) <= path.len(),
        path.len() > from && ends_in_nothing(path, from) ==> without_name(path, from).len()
            < path.len(),
        without_name(path, from).len() >= from,
    decreases path.len(),
{
    if path.len() > from && path.last() != '/' {
        lemma_name_start(path.drop_last(), from);
    }
}

/// A path without what names nothing at its end.
pub open spec fn cut_end(path: Seq<char>, from: nat) -> Seq<char>
    decreases path.len(),
{
    if ends_in_nothing(path, from) && without_name(path, from).len() < path.len() {
        cut_end(without_name(path, from), from)
    } else {
        path
    }
}

/// The directory that a path is in, with slashes between the names. One that has no name is in
/// none; one that is a dot alone is in the empty path.
pub open spec fn parent_of(path: Seq<char>) -> Option<Seq<char>> {
    let from = lead(path);
    let named = cut_end(path, from);
    if named.len() > from {
        Some(cut_end(without_name(named, from), from))
    } else if path.len() > 0 && path[0] == '.' {
        Some(Seq::empty())
    } else {
        None
    }
}

/// Where the last name of a path starts. See [`name_start`].
fn find_name(path: &Vec<char>, from: usize) -> (start: usize)
    requires
        from <= path@.len(),
    ensures
        start == name_start(path@, from as nat),
        from <= start <= path@.len(),
{
    let mut n: usize = path.len();
    assert(path@.take(n as int) =~= path@);
    while n > from && path[n - 1] != '/'
        invariant
            from <= n <= path@.len(),
            name_start(path@.take(n as int), from as nat) == name_start(path@, from as nat),
        decreases n,
    {
        assert(path@.take(n as int).drop_last() =~= path@.take(n - 1));
        n = n - 1;
    }
    n
}

fn drop_name(path: &Vec<char>, from: usize) -> (out: Vec<char>)
    requires
        from <= path@.len(),
    ensures
        out@ == without_name(path@, from as nat),
{
    let start: usize = find_name(path, from);
    let end: usize = if start > from {
        start - 1
    } else {
        start
    };
    let out: Vec<char> = part(path, 0, end);
    assert(out@ =~= path@.take(end as int));
    out
}

fn cut(path: &Vec<char>, from: usize) -> (out: Vec<char>)
    requires
        from <= path@.len(),
    ensures
        out@ == cut_end(path@, from as nat),
        out@.len() >= from,
{
    let mut out: Vec<char> = part(path, 0, path.len());
    assert(out@ =~= path@);
    while out.len() > from
        invariant_except_break
            from <= out@.len(),
            cut_end(out@, from as nat) == cut_end(path@, from as nat),
        ensures
            from <= out@.len(),
            out@ == cut_end(path@, from as nat),
        decreases out@.len(),
    {
        proof {
            lemma_name_start(out@, from as nat);
        }
        let start: usize = find_name(&out, from);
        let ghost name = out@.skip(start as int);
        let nothing: bool = start == out.len() || (start + 1 == out.len() && out[start] == '.');
        assert(nothing == ends_in_nothing(out@, from as nat)) by {
            if start + 1 == out@.len() && out@[start as int] == '.' {
                assert(name =~= seq!['.']);
            } else if name == seq!['.'] {
                assert(name.len() == 1 && name[0] == '.');
            }
        }
        if !nothing {
            break;
        }
        out = drop_name(&out, from);
    }
    out
}

/// The settings file that lies beside a path.
pub open spec fn beside(saves: Seq<char>) -> Seq<char> {
    joined(
        match parent_of(saves) {
            Some(dir) => dir,
            None => saves,
        },
        file_name(),
    )
}

proof fn lemma_name_after_slash(dir: Seq<char>, name: Seq<char>, from: nat)
    requires
        from <= dir.len(),
        forall|i: int| 0 <= i < name.len() ==> #[trigger] name[i] != '/',
    ensures
        name_start(dir.push('/') + name, from) == dir.len() + 1,
    decreases name.len(),
{
    let path = dir.push('/') + name;
    if name.len() > 0 {
        lemma_name_after_slash(dir, name.drop_last(), from);
        assert(path.drop_last() =~= dir.push('/') + name.drop_last());
        assert(path.last() == name.last());
    } else {
        assert(path.last() == '/');
    }
}

/// The settings lie in the directory that the saves are in, under their own name and not inside the
/// saves: the last name of the path gives way to theirs, and all before it stays.
pub proof fn law_settings_lie_beside_the_saves(dir: Seq<char>, name: Seq<char>)
    requires
        dir.len() >= 2,
        !ends_in_nothing(dir, lead(dir)),
        name.len() > 0,
        name != seq!['.'],
        forall|i: int| 0 <= i < name.len() ==> #[trigger] name[i] != '/',
    ensures
        beside(dir.push('/') + name) == dir.push('/') + "options.txt"@,
{
    let path = dir.push('/') + name;
    let from = lead(path);
    assert(path[0] == dir[0] && path[1] == dir[1]);
    assert(lead(dir) == from);
    lemma_name_after_slash(dir, name, from);
    assert(path.skip(dir.len() as int + 1) =~= name);
    assert(!ends_in_nothing(path, from));
    assert(without_name(path, from) =~= dir);
    assert(dir.last() != '/') by {
        if dir.last() == '/' {
            assert(dir.skip(dir.len() as int).len() == 0);
        }
    }
    reveal_strlit("options.txt");
}

/// Where the settings file lives, given where saves do.
///
/// Beside the saves and not inside them: deleting a world should not reset the controls.
pub fn path_beside(saves: &str) -> (path: String)
    ensures
        path@ == beside(saves@),
        path@ == joined(
            match parent_of(saves@) {
                Some(dir) => dir,
                None => saves@,
            },
            file_name(),
        ),
{
    let whole: Vec<char> = chars_of(saves);
    let dot: bool = whole.len() > 0 && whole[0] == '.';
    let from: usize = if whole.len() > 0 && (whole[0] == '/' || (whole[0] == '.' && (whole.len()
        == 1 || whole[1] == '/'))) {
        1
    } else {
        0
    };
    let named: Vec<char> = cut(&whole, from);
    if named.len() > from {
        proof {
            lemma_name_start(named@, from as nat);
        }
        let dir: String = string_of(&cut(&drop_name(&named, from), from));
        crate::pin::join(dir.as_str(), "options.txt")
    } else if dot {
        proof {
            reveal_strlit("");
            assert(""@ =~= Seq::<char>::empty());
        }
        crate::pin::join("", "options.txt")
    } else {
        crate::pin::join(saves, "options.txt")
    }
}

/// Whether the file is to be written: when the settings have changed since they were put in
/// place.
pub fn stores(changed: bool, added: bool) -> (store: bool)
    ensures
        store == (changed && !added),
{
    changed && !added
}

/// How a window shows the game. Each is `None` where it is neither of the two ways a setting can
/// ask for.
#[derive(Clone, Copy, Debug, PartialEq, Eq, Structural)]
pub struct WindowState {
    /// Borderless on its monitor, or in a frame.
    pub fullscreen: Option<bool>,
    /// Waits for the display's refresh, or does not.
    pub vsync: Option<bool>,
}

/// What is in force in the parts of the game that the settings steer.
#[derive(Clone, Debug, PartialEq, Eq)]
pub struct InForce {
    pub windows: Vec<WindowState>,
    /// The zoom floor.
    pub floor: Number,
    pub autosave_s: Number,
    pub overlay: bool,
    /// Whether the game runs the part that shakes the screen.
    pub has_shake: bool,
    /// Whether it runs the particles.
    pub has_particles: bool,
    /// Whether it runs the clock.
    pub has_clock: bool,
}

/// What to write into one window, where it is not already so.
#[derive(Clone, Copy, Debug, PartialEq, Eq, Structural)]
pub struct WindowWrites {
    pub fullscreen: Option<bool>,
    pub vsync: Option<bool>,
}

/// What to write into the parts of the game, `None` where nothing is to be.
#[derive(Clone, Debug, PartialEq, Eq)]
pub struct Writes {
    pub windows: Vec<WindowWrites>,
    pub floor: Option<Number>,
    pub autosave_s: Option<Number>,
    pub overlay: Option<bool>,
    pub shake: Option<Number>,
    pub particles: Option<Number>,
    /// Seconds in one in-game day.
    pub day_length_s: Option<Number>,
}

/// A switch to write, unless it is already so.
pub open spec fn unless_so(want: bool, now: Option<bool>) -> Option<bool> {
    if now == Some(want) {
        None
    } else {
        Some(want)
    }
}

fn write_switch(want: bool, now: Option<bool>) -> (write: Option<bool>)
    ensures
        write == unless_so(want, now),
{
    match now {
        Some(so) => if so == want {
            None
        } else {
            Some(want)
        },
        None => Some(want),
    }
}

/// A number to write, unless it is already in force.
pub open spec fn unless_same(want: Number, now: Number) -> Option<Number> {
    if now.same(want) {
        None
    } else {
        Some(want)
    }
}

fn write_number(want: Number, now: Number) -> (write: Option<Number>)
    ensures
        write == unless_same(want, now),
{
    if now.equals(want) {
        None
    } else {
        Some(want)
    }
}

/// A number to write into a part, where there is one.
pub open spec fn where_there(part: bool, want: Number) -> Option<Number> {
    if part {
        Some(want)
    } else {
        None
    }
}

fn write_where(part: bool, want: Number) -> (write: Option<Number>)
    ensures
        write == where_there(part, want),
{
    if part {
        Some(want)
    } else {
        None
    }
}

/// What is written into a window.
pub open spec fn window_writes(s: Settings, now: WindowState) -> WindowWrites {
    WindowWrites {
        fullscreen: unless_so(s.fullscreen, now.fullscreen),
        vsync: unless_so(s.vsync, now.vsync),
    }
}

/// `w` is what applying `s` writes: each part gets its own setting. A window, the zoom floor, the
/// autosave interval and the overlay are only written where they differ, because a write to one
/// of them makes it be rebuilt.
pub open spec fn is_applied(w: Writes, s: Settings, now: InForce) -> bool {
    &&& w.windows@ == Seq::new(
        now.windows@.len(),
        |i: int| window_writes(s, now.windows@[i]),
    )
    &&& w.floor == unless_same(s.scale.floor(), now.floor)
    &&& w.autosave_s == unless_same(s.autosave_s, now.autosave_s)
    &&& w.overlay == unless_so(s.debug_overlay, Some(now.overlay))
    &&& w.shake == where_there(now.has_shake, s.shake)
    &&& w.particles == where_there(now.has_particles, s.particles)
    &&& w.day_length_s == where_there(now.has_clock, s.day_minutes.product(num(0x4270_0000)))
}

/// Push every setting to the part that owns the behaviour it names.
pub fn apply(s: &Settings, now: &InForce) -> (out: Writes)
    ensures
        is_applied(out, *s, *now),
{
    let mut windows: Vec<WindowWrites> = Vec::new();
    let mut i: usize = 0;
    while i < now.windows.len()
        invariant
            i <= now.windows@.len(),
            windows@ =~= Seq::new(i as nat, |j: int| window_writes(*s, now.windows@[j])),
        decreases now.windows@.len() - i,
    {
        let window: WindowState = now.windows[i];
        windows.push(
            WindowWrites {
                fullscreen: write_switch(s.fullscreen, window.fullscreen),
                vsync: write_switch(s.vsync, window.vsync),
            },
        );
        i = i + 1;
    }
    Writes {
        windows,
        floor: write_number(s.scale.zoom_floor(), now.floor),
        autosave_s: write_number(s.autosave_s, now.autosave_s),
        overlay: write_switch(s.debug_overlay, Some(now.overlay)),
        shake: write_where(now.has_shake, s.shake),
        particles: write_where(now.has_particles, s.particles),
        day_length_s: write_where(now.has_clock, s.day_minutes.times(num(0x4270_0000))),
    }
}

/// `next` is what is in force once the writes `w` have been made to `now`.
pub open spec fn is_written(next: InForce, now: InForce, w: Writes) -> bool {
    &&& next.windows@.len() == now.windows@.len()
    &&& forall|i: int|
        0 <= i < now.windows@.len() ==> {
            &&& (#[trigger] next.windows@[i]).fullscreen == (match w.windows@[i].fullscreen {
                Some(on) => Some(on),
                None => now.windows@[i].fullscreen,
            })
            &&& next.windows@[i].vsync == (match w.windows@[i].vsync {
                Some(on) => Some(on),
                None => now.windows@[i].vsync,
            })
        }
    &&& next.floor == (match w.floor {
        Some(zoom) => zoom,
        None => now.floor,
    })
    &&& next.autosave_s == (match w.autosave_s {
        Some(every) => every,
        None => now.autosave_s,
    })
    &&& next.overlay == (match w.overlay {
        Some(on) => on,
        None => now.overlay,
    })
}

/// Applying settings a second time writes nothing into a window, the zoom floor, the autosave
/// interval or the overlay, so nothing is rebuilt frame after frame.
pub proof fn law_applying_twice_writes_once(
    s: Settings,
    now: InForce,
    first: Writes,
    next: InForce,
    second: Writes,
)
    requires
        is_applied(first, s, now),
        is_written(next, now, first),
        is_applied(second, s, next),
        s.autosave_s.is_number(),
    ensures
        forall|i: int|
            0 <= i < second.windows@.len() ==> (#[trigger] second.windows@[i]).fullscreen is None
                && second.windows@[i].vsync is None,
        second.floor is None,
        second.autosave_s is None,
        second.overlay is None,
{
    assert forall|i: int| 0 <= i < second.windows@.len() implies (
    #[trigger] second.windows@[i]).fullscreen is None && second.windows@[i].vsync is None by {
        assert(second.windows@[i] == window_writes(s, next.windows@[i]));
        assert(first.windows@[i] == window_writes(s, now.windows@[i]));
    }
    reveal(whole_number);
}

/// Applying settings puts each of them in force in the part that owns it: once the writes have been
/// made every window is as the settings want it, the zoom floor is their scale's, and the autosave
/// interval and the overlay are theirs. The shake and the particles are written their own numbers
/// and the clock sixty seconds for each minute of a day, where the game runs them, and nothing is
/// written where it does not.
pub proof fn law_each_part_gets_its_own_setting(
    s: Settings,
    now: InForce,
    w: Writes,
    next: InForce,
    minutes: int,
)
    requires
        is_applied(w, s, now),
        is_written(next, now, w),
    ensures
        next.windows@.len() == now.windows@.len(),
        forall|i: int|
            0 <= i < next.windows@.len() ==> (#[trigger] next.windows@[i]).fullscreen == Some(
                s.fullscreen,
            ) && next.windows@[i].vsync == Some(s.vsync),
        s.scale matches RenderScale::Fixed(n) ==> (n < 0x100_0000 ==> is_whole(next.floor, n as int)),
        s.scale == RenderScale::Auto ==> is_whole(next.floor, 2),
        s.autosave_s.is_number() ==> next.autosave_s.same(s.autosave_s),
        next.overlay == s.debug_overlay,
        now.has_shake ==> w.shake == Some(s.shake),
        now.has_particles ==> w.particles == Some(s.particles),
        now.has_clock && is_whole(s.day_minutes, minutes) && -0x4_0000 < minutes < 0x4_0000
            ==> w.day_length_s is Some && is_whole(w.day_length_s->0, 60 * minutes),
        !now.has_shake ==> w.shake is None,
        !now.has_particles ==> w.particles is None,
        !now.has_clock ==> w.day_length_s is None,
{
    assert forall|i: int| 0 <= i < next.windows@.len() implies (
    #[trigger] next.windows@[i]).fullscreen == Some(s.fullscreen) && next.windows@[i].vsync == Some(
        s.vsync,
    ) by {
        assert(w.windows@[i] == window_writes(s, now.windows@[i]));
    }
    lemma_ends_are_whole();
    if let RenderScale::Fixed(n) = s.scale {
        if n < 0x100_0000 {
            law_small_whole_numbers_are_exact(n as int);
            lemma_same_whole(next.floor, s.scale.floor(), n as int);
        }
    } else {
        lemma_same_whole(next.floor, s.scale.floor(), 2);
    }
    if is_whole(s.day_minutes, minutes) && -0x4_0000 < minutes < 0x4_0000 {
        law_whole_products_are_exact(s.day_minutes, num(0x4270_0000), minutes, 60);
    }
}

/// What equals a whole number is that whole number.
proof fn lemma_same_whole(a: Number, b: Number, k: int)
    requires
        a.same(b) || a == b,
        is_whole(b, k),
    ensures
        is_whole(a, k),
{
    lemma_values_in_order(a, b);
    lemma_values_in_order(b, a);
}

/// No setting leaks into a part that another owns: of two that are applied to one game, what is
/// written to a part is the same wherever they agree on its own setting, and where they differ in a
/// number that is always written, so do the writes.
pub proof fn law_settings_do_not_leak(
    s: Settings,
    other: Settings,
    now: InForce,
    w: Writes,
    other_w: Writes,
)
    requires
        is_applied(w, s, now),
        is_applied(other_w, other, now),
    ensures
        s.fullscreen == other.fullscreen ==> forall|i: int|
            0 <= i < now.windows@.len() ==> (#[trigger] w.windows@[i]).fullscreen
                == other_w.windows@[i].fullscreen,
        s.vsync == other.vsync ==> forall|i: int|
            0 <= i < now.windows@.len() ==> (#[trigger] w.windows@[i]).vsync
                == other_w.windows@[i].vsync,
        s.scale == other.scale ==> w.floor == other_w.floor,
        s.autosave_s == other.autosave_s ==> w.autosave_s == other_w.autosave_s,
        s.debug_overlay == other.debug_overlay ==> w.overlay == other_w.overlay,
        s.debug_overlay != other.debug_overlay ==> w.overlay != other_w.overlay,
        s.day_minutes == other.day_minutes ==> w.day_length_s == other_w.day_length_s,
        now.has_shake ==> (w.shake == other_w.shake <==> s.shake == other.shake),
        now.has_particles ==> (w.particles == other_w.particles <==> s.particles
            == other.particles),
{
    assert forall|i: int| 0 <= i < now.windows@.len() implies #[trigger] w.windows@[i]
        == window_writes(s, now.windows@[i]) && other_w.windows@[i] == window_writes(
        other,
        now.windows@[i],
    ) by {}
}

/// Pulling settings back leaves every number that is inside its range where it is, moves one that is
/// outside to the end it is nearer to, and leaves all else.
pub proof fn law_settings_are_pulled_into_range(s: Settings)
    ensures
        ({
            let r = clamped(s);
            &&& are_in_range(r)
            &&& is_between(s.particles, FRACTION) ==> r.particles == s.particles
            &&& is_between(s.shake, FRACTION) ==> r.shake == s.shake
            &&& is_between(s.day_minutes, DAY_MINUTES) ==> r.day_minutes == s.day_minutes
            &&& is_between(s.autosave_s, AUTOSAVE_S) ==> r.autosave_s == s.autosave_s
            &&& s.particles.lt(num(FRACTION.0)) ==> r.particles == num(FRACTION.0)
            &&& num(FRACTION.1).lt(s.particles) ==> r.particles == num(FRACTION.1)
            &&& s.shake.lt(num(FRACTION.0)) ==> r.shake == num(FRACTION.0)
            &&& num(FRACTION.1).lt(s.shake) ==> r.shake == num(FRACTION.1)
            &&& s.day_minutes.lt(num(DAY_MINUTES.0)) ==> r.day_minutes == num(DAY_MINUTES.0)
            &&& num(DAY_MINUTES.1).lt(s.day_minutes) ==> r.day_minutes == num(DAY_MINUTES.1)
            &&& s.autosave_s.lt(num(AUTOSAVE_S.0)) ==> r.autosave_s == num(AUTOSAVE_S.0)
            &&& num(AUTOSAVE_S.1).lt(s.autosave_s) ==> r.autosave_s == num(AUTOSAVE_S.1)
            &&& r.fullscreen == s.fullscreen
            &&& r.vsync == s.vsync
            &&& r.scale == s.scale
            &&& r.hints == s.hints
            &&& r.debug_overlay == s.debug_overlay
            &&& clamped(r) == r
        }),
        is_whole(num(FRACTION.0), 0),
        is_whole(num(FRACTION.1), 1),
        is_whole(num(DAY_MINUTES.0), 2),
        is_whole(num(DAY_MINUTES.1), 60),
        is_whole(num(AUTOSAVE_S.0), 10),
        is_whole(num(AUTOSAVE_S.1), 300),
{
    lemma_ends_are_whole();
}

/// A line of the file changes the setting its key names and no other: a switch to what its word
/// says, the hints to the mode that is named, and a number to what was read. What cannot be read
/// leaves the setting as it was, but for a scale, which is then automatic.
pub proof fn law_a_key_changes_only_its_own_setting(
    s: Settings,
    word: Seq<char>,
    value: Seq<char>,
    number: Option<Number>,
)
    requires
        key_of(word) is Some,
    ensures
        ({
            let r = set_key(s, key_of(word)->0, value, number);
            let read = match number {
                Some(n) => n.is_number(),
                None => false,
            };
            &&& word != "fullscreen"@ ==> r.fullscreen == s.fullscreen
            &&& word != "vsync"@ ==> r.vsync == s.vsync
            &&& word != "scale"@ ==> r.scale == s.scale
            &&& word != "particles"@ ==> r.particles == s.particles
            &&& word != "shake"@ ==> r.shake == s.shake
            &&& word != "hints"@ ==> r.hints == s.hints
            &&& word != "debug_overlay"@ ==> r.debug_overlay == s.debug_overlay
            &&& word != "day_minutes"@ ==> r.day_minutes == s.day_minutes
            &&& word != "autosave_s"@ ==> r.autosave_s == s.autosave_s
            &&& word == "particles"@ && read ==> r.particles == number->0
            &&& word == "shake"@ && read ==> r.shake == number->0
            &&& word == "day_minutes"@ && read ==> r.day_minutes == number->0
            &&& word == "autosave_s"@ && read ==> r.autosave_s == number->0
            &&& !read && word != "scale"@ && word != "hints"@ && value != "true"@ && value
                != "false"@ ==> r == s
            &&& word == "fullscreen"@ && value == "true"@ ==> r.fullscreen
            &&& word == "fullscreen"@ && value == "false"@ ==> !r.fullscreen
            &&& word == "vsync"@ && value == "true"@ ==> r.vsync
            &&& word == "vsync"@ && value == "false"@ ==> !r.vsync
            &&& word == "debug_overlay"@ && value == "true"@ ==> r.debug_overlay
            &&& word == "debug_overlay"@ && value == "false"@ ==> !r.debug_overlay
            &&& word == "hints"@ && value == "never"@ ==> r.hints == HintMode::Never
            &&& word == "hints"@ && value == "always"@ ==> r.hints == HintMode::Always
            &&& word == "hints"@ && value == "fade"@ ==> r.hints == HintMode::Fade
        }),
{
    reveal_strlit("fullscreen");
    reveal_strlit("vsync");
    reveal_strlit("scale");
    reveal_strlit("particles");
    reveal_strlit("shake");
    reveal_strlit("hints");
    reveal_strlit("debug_overlay");
    reveal_strlit("day_minutes");
    reveal_strlit("autosave_s");
    reveal_strlit("true");
    reveal_strlit("false");
    reveal_strlit("never");
    reveal_strlit("always");
    reveal_strlit("fade");
    assert("scale"@[1] != "shake"@[1]);
    assert("vsync"@[0] != "shake"@[0]);
    assert("vsync"@[0] != "scale"@[0]);
    assert("hints"@[0] != "shake"@[0]);
    assert("hints"@[0] != "scale"@[0]);
    assert("hints"@[0] != "vsync"@[0]);
    assert("fullscreen"@[0] != "autosave_s"@[0]);
    assert("day_minutes"@.len() != "autosave_s"@.len());
    assert("particles"@.len() != "day_minutes"@.len());
    assert("true"@.len() != "false"@.len());
    assert("never"@.len() != "always"@.len());
    assert("fade"@.len() != "always"@.len());
}

/// A value that can stand on a line of the file: no line feed in it, and no white space round it.
pub open spec fn is_plain(value: Seq<char>) -> bool {
    is_trim(value) && forall|i: int| 0 <= i < value.len() ==> #[trigger] value[i] != '\n'
}

/// A word with nothing in it that the file gives a meaning to.
spec fn is_word(word: Seq<char>) -> bool {
    &&& word.len() > 0
    &&& forall|i: int|
        0 <= i < word.len() ==> {
            &&& #[trigger] word[i] != '='
            &&& word[i] != '#'
            &&& !is_white(word[i])
        }
}

proof fn lemma_key_text(key: Key)
    ensures
        is_word(key_text(key)),
        key_of(key_text(key)) == Some(key),
{
    reveal_strlit("fullscreen");
    reveal_strlit("vsync");
    reveal_strlit("scale");
    reveal_strlit("particles");
    reveal_strlit("shake");
    reveal_strlit("hints");
    reveal_strlit("debug_overlay");
    reveal_strlit("day_minutes");
    reveal_strlit("autosave_s");
    assert("fullscreen"@ =~= seq!['f', 'u', 'l', 'l', 's', 'c', 'r', 'e', 'e', 'n']);
    assert("vsync"@ =~= seq!['v', 's', 'y', 'n', 'c']);
    assert("scale"@ =~= seq!['s', 'c', 'a', 'l', 'e']);
    assert("particles"@ =~= seq!['p', 'a', 'r', 't', 'i', 'c', 'l', 'e', 's']);
    assert("shake"@ =~= seq!['s', 'h', 'a', 'k', 'e']);
    assert("hints"@ =~= seq!['h', 'i', 'n', 't', 's']);
    assert("debug_overlay"@ =~= seq!['d', 'e', 'b', 'u', 'g', '_', 'o', 'v', 'e', 'r', 'l', 'a', 'y']);
    assert("day_minutes"@ =~= seq!['d', 'a', 'y', '_', 'm', 'i', 'n', 'u', 't', 'e', 's']);
    assert("autosave_s"@ =~= seq!['a', 'u', 't', 'o', 's', 'a', 'v', 'e', '_', 's']);
    assert("fullscreen"@[0] == 'f' && "vsync"@[0] == 'v' && "scale"@[1] == 'c' && "shake"@[1]
        == 'h' && "hints"@[0] == 'h' && "particles"@[0] == 'p');
}

proof fn lemma_fixed_words(on: bool, mode: HintMode)
    ensures
        is_plain(switch_text(on)),
        (switch_text(on) == "true"@) == on,
        is_plain(hint_key(mode)),
        hint_of(hint_key(mode)) == Some(mode),
        is_plain("auto"@),
        scale_in("auto"@) == RenderScale::Auto,
{
    reveal_strlit("true");
    reveal_strlit("false");
    reveal_strlit("always");
    reveal_strlit("fade");
    reveal_strlit("never");
    reveal_strlit("auto");
    assert("true"@ =~= seq!['t', 'r', 'u', 'e']);
    assert("false"@ =~= seq!['f', 'a', 'l', 's', 'e']);
    assert("always"@ =~= seq!['a', 'l', 'w', 'a', 'y', 's']);
    assert("fade"@ =~= seq!['f', 'a', 'd', 'e']);
    assert("never"@ =~= seq!['n', 'e', 'v', 'e', 'r']);
    assert("auto"@ =~= seq!['a', 'u', 't', 'o']);
    assert("true"@.len() == 4 && "false"@.len() == 5 && "always"@.len() == 6 && "fade"@.len() == 4
        && "never"@.len() == 5);
    assert("auto"@[0] == 'a' && "auto"@.last() == 'o');
}

proof fn lemma_decimal_is_plain(n: nat)
    ensures
        is_plain(decimal(n)),
        forall|i: int| 0 <= i < decimal(n).len() ==> '0' <= #[trigger] decimal(n)[i] <= '9',
    decreases n,
{
    law_decimal_reads_back(n);
    if n >= 10 {
        lemma_decimal_is_plain(n / 10);
    }
}

proof fn lemma_scale_reads_back(scale: RenderScale)
    requires
        scale matches RenderScale::Fixed(z) ==> 1 <= z <= MAX_ZOOM,
    ensures
        is_plain(scale_text(scale)),
        scale_in(scale_text(scale)) == scale,
{
    lemma_fixed_words(true, HintMode::Fade);
    if let RenderScale::Fixed(z) = scale {
        lemma_decimal_is_plain(z as nat);
        law_decimal_reads_back(z as nat);
    }
}

proof fn lemma_no_equals_before(s: Seq<char>, at: nat, i: nat)
    requires
        i <= at < s.len(),
        s[at as int] == '=',
        forall|j: int| i <= j < at ==> #[trigger] s[j] != '=',
    ensures
        equals_at(s, i) == Some(at),
    decreases at - i,
{
    if i < at {
        lemma_no_equals_before(s, at, i + 1);
    }
}

proof fn lemma_line_reads_back(key: Key, value: Seq<char>)
    requires
        is_plain(value),
    ensures
        assignment(key_text(key) + "="@ + value) == Some((key, value)),
        forall|i: int|
            0 <= i < (key_text(key) + "="@ + value).len() ==> #[trigger] (key_text(key) + "="@
                + value)[i] != '\n',
{
    lemma_key_text(key);
    reveal_strlit("=");
    let word = key_text(key);
    let line = word + "="@ + value;
    assert("="@ =~= seq!['=']);
    assert(line[0] == word[0]);
    assert(line.last() == if value.len() > 0 {
        value.last()
    } else {
        '='
    });
    assert(is_trim(line));
    lemma_trim_of_trim(line);
    assert(line[word.len() as int] == '=');
    assert forall|j: int| 0 <= j < word.len() implies #[trigger] line[j] != '=' by {
        assert(line[j] == word[j]);
    }
    lemma_no_equals_before(line, word.len(), 0);
    assert(line.take(word.len() as int) =~= word);
    assert(line.skip(word.len() as int + 1) =~= value);
    lemma_trim_of_trim(word);
    lemma_trim_of_trim(value);
    assert forall|i: int| 0 <= i < line.len() implies #[trigger] line[i] != '\n' by {
        if i < word.len() {
            assert(line[i] == word[i]);
            assert(!is_white(word[i]));
        } else if i > word.len() {
            assert(line[i] == value[i - word.len() - 1]);
        }
    }
}

proof fn lemma_open_line(text: Seq<char>, more: Seq<char>)
    requires
        forall|i: int| 0 <= i < more.len() ==> #[trigger] more[i] != '\n',
    ensures
        lines_in(text + more) == (lines_in(text).0, lines_in(text).1 + more),
    decreases more.len(),
{
    if more.len() > 0 {
        let less = more.drop_last();
        lemma_open_line(text, less);
        assert((text + more).drop_last() =~= text + less);
        assert((text + more).last() == more[more.len() - 1]);
        assert(lines_in(text).1 + more =~= (lines_in(text).1 + less).push(more.last()));
    } else {
        assert(text + more =~= text);
        assert(lines_in(text).1 + more =~= lines_in(text).1);
    }
}

proof fn lemma_ended_line(text: Seq<char>, line: Seq<char>)
    requires
        lines_in(text).1 == Seq::<char>::empty(),
        forall|i: int| 0 <= i < line.len() ==> #[trigger] line[i] != '\n',
    ensures
        lines_in(text + line.push('\n')) == (lines_in(text).0.push(line), Seq::<char>::empty()),
{
    lemma_open_line(text, line);
    let all = text + line.push('\n');
    assert(all.drop_last() =~= text + line);
    assert(all.last() == '\n');
    assert(lines_in(text).1 + line =~= line);
}

proof fn lemma_file_lines(values: Seq<(Key, Seq<char>)>, k: nat)
    requires
        k <= values.len(),
        forall|i: int| 0 <= i < values.len() ==> is_plain((#[trigger] values[i]).1),
    ensures
        lines_in(heading().push('\n') + lines_text(values, k)).1 == Seq::<char>::empty(),
        assigned(lines_in(heading().push('\n') + lines_text(values, k)).0) == values.take(k as int),
    decreases k,
{
    let head = heading().push('\n');
    if k == 0 {
        reveal_strlit("# Yugen settings. Delete a line to restore its default.");
        let line = heading();
        assert(line[0] == '#');
        assert(line.len() == 55);
        assert(line.last() == '.');
        assert(is_trim(line));
        lemma_trim_of_trim(line);
        assert(assignment(line) is None);
        lemma_heading_is_one_line();
        assert(lines_in(Seq::<char>::empty()).1 == Seq::<char>::empty());
        lemma_ended_line(Seq::empty(), line);
        assert(Seq::<char>::empty() + line.push('\n') =~= head);
        assert(head + lines_text(values, 0) =~= head);
        let ended = lines_in(head).0;
        assert(ended =~= Seq::<Seq<char>>::empty().push(line));
        assert(ended.drop_last() =~= Seq::<Seq<char>>::empty());
        reveal_with_fuel(assigned, 2);
        assert(ended.last() == line);
        assert(assigned(ended) =~= values.take(0));
    } else {
        lemma_file_lines(values, (k - 1) as nat);
        let before = head + lines_text(values, (k - 1) as nat);
        let (key, value) = values[k - 1];
        assert(is_plain(values[k - 1].1));
        lemma_line_reads_back(key, value);
        let line = key_text(key) + "="@ + value;
        lemma_ended_line(before, line);
        assert(head + lines_text(values, k) =~= before + line.push('\n'));
        let ended = lines_in(before).0;
        assert(ended.push(line).drop_last() =~= ended);
        assert(values.take(k as int) =~= values.take(k - 1).push(values[k - 1]));
    }
}

proof fn lemma_heading_is_one_line()
    ensures
        forall|i: int| 0 <= i < heading().len() ==> #[trigger] heading()[i] != '\n',
{
    reveal_strlit("# Yugen settings. Delete a line to restore its default.");
    assert(heading() =~= seq![
        '#', ' ', 'Y', 'u', 'g', 'e', 'n', ' ', 's', 'e', 't', 't', 'i', 'n', 'g', 's', '.', ' ',
        'D', 'e', 'l', 'e', 't', 'e', ' ', 'a', ' ', 'l', 'i', 'n', 'e', ' ', 't', 'o', ' ', 'r',
        'e', 's', 't', 'o', 'r', 'e', ' ', 'i', 't', 's', ' ', 'd', 'e', 'f', 'a', 'u', 'l', 't',
        '.',
    ]);
}

/// A number's text can stand on a line.
proof fn lemma_number_is_plain(n: Number, places: nat)
    ensures
        is_plain(fixed(n, places)),
{
    lemma_fixed_has_no_white_space(n, places);
}

/// A file that was written assigns exactly what was written, and the values that have to be read
/// as numbers are the four that were written as numbers, in that order.
pub proof fn law_file_assigns_what_was_written(s: Settings)
    requires
        s.scale.is_offered(),
    ensures
        assignments(file_text(s)) == file_values(s),
        numeric_values(assignments(file_text(s))) == seq![
            fixed(s.particles, 2),
            fixed(s.shake, 2),
            fixed(s.day_minutes, 1),
            fixed(s.autosave_s, 0),
        ],
{
    let values = file_values(s);
    lemma_number_is_plain(s.particles, 2);
    lemma_number_is_plain(s.shake, 2);
    lemma_number_is_plain(s.day_minutes, 1);
    lemma_number_is_plain(s.autosave_s, 0);
    lemma_fixed_words(s.fullscreen, s.hints);
    lemma_fixed_words(s.vsync, s.hints);
    lemma_fixed_words(s.debug_overlay, s.hints);
    lemma_scale_reads_back(s.scale);
    lemma_file_lines(values, 9);
    let (ended, open_line) = lines_in(file_text(s));
    assert(ended.push(open_line).drop_last() =~= ended);
    assert(assignment(open_line) is None);
    assert(values.take(9) =~= values);
    reveal_with_fuel(numeric_values, 10);
    assert(values.drop_last() =~= values.take(8));
    assert(values.take(8).drop_last() =~= values.take(7));
    assert(values.take(7).drop_last() =~= values.take(6));
    assert(values.take(6).drop_last() =~= values.take(5));
    assert(values.take(5).drop_last() =~= values.take(4));
    assert(values.take(4).drop_last() =~= values.take(3));
    assert(values.take(3).drop_last() =~= values.take(2));
    assert(values.take(2).drop_last() =~= values.take(1));
    assert(values.take(1).drop_last() =~= values.take(0));
    assert(numeric_values(values) =~= seq![
        fixed(s.particles, 2),
        fixed(s.shake, 2),
        fixed(s.day_minutes, 1),
        fixed(s.autosave_s, 0),
    ]);
}

proof fn lemma_numeric_before(all: Seq<(Key, Seq<char>)>, n: nat)
    requires
        n > 0,
    ensures
        numeric_before(all, n) == numeric_before(all, (n - 1) as nat) + if is_numeric(all[n - 1].0) {
            1nat
        } else {
            0nat
        },
{
}

/// Each line of a written file puts its own field back, the numbers as they are read.
#[verifier::spinoff_prover]
proof fn lemma_written_lines_settle(
    defaults: Settings,
    s: Settings,
    numbers: Seq<Option<Number>>,
    r: Settings,
)
    requires
        r == (Settings {
            particles: r.particles,
            shake: r.shake,
            day_minutes: r.day_minutes,
            autosave_s: r.autosave_s,
            ..s
        }),
        numbers == seq![
            Some(r.particles),
            Some(r.shake),
            Some(r.day_minutes),
            Some(r.autosave_s),
        ],
        s.scale.is_offered(),
        are_in_range(r),
    ensures
        settled(defaults, file_values(s), numbers, 9) == r,
{
    let all = file_values(s);
    lemma_fixed_words(s.fullscreen, s.hints);
    lemma_fixed_words(s.vsync, s.hints);
    lemma_fixed_words(s.debug_overlay, s.hints);
    lemma_scale_reads_back(s.scale);
    let s1 = Settings { fullscreen: s.fullscreen, ..defaults };
    let s2 = Settings { vsync: s.vsync, ..s1 };
    let s3 = Settings { scale: s.scale, ..s2 };
    let s4 = Settings { particles: r.particles, ..s3 };
    let s5 = Settings { shake: r.shake, ..s4 };
    let s6 = Settings { hints: s.hints, ..s5 };
    let s7 = Settings { debug_overlay: s.debug_overlay, ..s6 };
    let s8 = Settings { day_minutes: r.day_minutes, ..s7 };
    assert(numeric_before(all, 0) == 0);
    lemma_numeric_before(all, 1);
    lemma_numeric_before(all, 2);
    lemma_numeric_before(all, 3);
    lemma_numeric_before(all, 4);
    lemma_numeric_before(all, 5);
    lemma_numeric_before(all, 6);
    lemma_numeric_before(all, 7);
    lemma_numeric_before(all, 8);
    assert(settled(defaults, all, numbers, 0) == defaults);
    assert(settled(defaults, all, numbers, 1) == s1);
    assert(settled(defaults, all, numbers, 2) == s2);
    assert(settled(defaults, all, numbers, 3) == s3);
    assert(settled(defaults, all, numbers, 4) == s4);
    assert(settled(defaults, all, numbers, 5) == s5);
    assert(settled(defaults, all, numbers, 6) == s6);
    assert(settled(defaults, all, numbers, 7) == s7);
    assert(settled(defaults, all, numbers, 8) == s8);
}

/// What the numbers of a file read as: of each, the number nearest to its decimal.
pub open spec fn numbers_read(words: Seq<Seq<char>>) -> Seq<Option<Number>> {
    Seq::new(words.len(), |i: int| decimal_number(words[i]))
}

/// The settings that come out of the file that some settings were written into.
pub open spec fn after_a_trip(defaults: Settings, s: Settings) -> Settings {
    settings_in(
        defaults,
        file_text(s),
        numbers_read(numeric_values(assignments(file_text(s)))),
    )
}

/// Settings with each number as the file has places for it: hundredths, tenths of a minute and
/// seconds.
pub open spec fn in_file_places(s: Settings) -> Settings {
    Settings {
        particles: reread(s.particles, 2),
        shake: reread(s.shake, 2),
        day_minutes: reread(s.day_minutes, 1),
        autosave_s: reread(s.autosave_s, 0),
        ..s
    }
}

/// The four numbers are in range once they have been read again, and read as themselves from then
/// on.
#[verifier::spinoff_prover]
proof fn lemma_numbers_settle(s: Settings)
    requires
        are_in_range(s),
    ensures
        are_in_range(in_file_places(s)),
        in_file_places(in_file_places(s)) == in_file_places(s),
        are_near(in_file_places(s).particles, s.particles, 2),
        are_near(in_file_places(s).shake, s.shake, 2),
        are_near(in_file_places(s).day_minutes, s.day_minutes, 1),
        are_near(in_file_places(s).autosave_s, s.autosave_s, 0),
        decimal_number(fixed(s.particles, 2)) == Some(in_file_places(s).particles),
        decimal_number(fixed(s.shake, 2)) == Some(in_file_places(s).shake),
        decimal_number(fixed(s.day_minutes, 1)) == Some(in_file_places(s).day_minutes),
        decimal_number(fixed(s.autosave_s, 0)) == Some(in_file_places(s).autosave_s),
{
    lemma_ends_are_whole();
    law_a_number_settles(s.particles, 2, num(FRACTION.0), num(FRACTION.1), (0, 1));
    law_a_number_settles(s.shake, 2, num(FRACTION.0), num(FRACTION.1), (0, 1));
    law_a_number_settles(s.day_minutes, 1, num(DAY_MINUTES.0), num(DAY_MINUTES.1), (2, 60));
    law_a_number_settles(s.autosave_s, 0, num(AUTOSAVE_S.0), num(AUTOSAVE_S.1), (10, 300));
}

/// The ends of the sliders are whole numbers.
proof fn lemma_ends_are_whole()
    ensures
        is_whole(num(FRACTION.0), 0),
        is_whole(num(FRACTION.1), 1),
        is_whole(num(DAY_MINUTES.0), 2),
        is_whole(num(DAY_MINUTES.1), 60),
        is_whole(num(AUTOSAVE_S.0), 10),
        is_whole(num(AUTOSAVE_S.1), 300),
{
    lemma2_to64();
    lemma_pow2_adds(23, 126);
    lemma_pow2_adds(22, 127);
    lemma_pow2_adds(18, 131);
    lemma_pow2_adds(20, 129);
    lemma_pow2_adds(15, 134);
    assert(0xf0_0000 * pow2(131) == 60 * pow2(149)) by (nonlinear_arith)
        requires
            pow2(149) == 0x4_0000 * pow2(131),
    ;
    assert(0x96_0000 * pow2(134) == 300 * pow2(149)) by (nonlinear_arith)
        requires
            pow2(149) == 0x8000 * pow2(134),
    ;
    assert(0xa0_0000 * pow2(129) == 10 * pow2(149)) by (nonlinear_arith)
        requires
            pow2(149) == 0x10_0000 * pow2(129),
    ;
}

/// A trip through the file keeps every choice, moves a number by no more than half a unit of the
/// last place it is written with and a little, and a second trip changes nothing: whatever the
/// defaults of either.
pub proof fn law_settings_settle(defaults: Settings, later: Settings, s: Settings)
    requires
        s.scale.is_offered(),
        are_in_range(s),
    ensures
        ({
            let r = after_a_trip(defaults, s);
            &&& r == in_file_places(s)
            &&& are_in_range(r)
            &&& are_near(r.particles, s.particles, 2)
            &&& are_near(r.shake, s.shake, 2)
            &&& are_near(r.day_minutes, s.day_minutes, 1)
            &&& are_near(r.autosave_s, s.autosave_s, 0)
            &&& after_a_trip(later, r) == r
        }),
{
    let r = in_file_places(s);
    lemma_numbers_settle(s);
    lemma_numbers_settle(r);
    lemma_a_trip(defaults, s);
    lemma_a_trip(later, r);
}

#[verifier::spinoff_prover]
proof fn lemma_a_trip(defaults: Settings, s: Settings)
    requires
        s.scale.is_offered(),
        are_in_range(s),
    ensures
        after_a_trip(defaults, s) == in_file_places(s),
{
    let r = in_file_places(s);
    lemma_numbers_settle(s);
    lemma_numbers_are_read(s);
    law_file_assigns_what_was_written(s);
    let numbers = seq![Some(r.particles), Some(r.shake), Some(r.day_minutes), Some(r.autosave_s)];
    lemma_written_lines_settle(defaults, s, numbers, r);
    lemma_in_range_stays(r);
}

/// Settings inside their ranges are not pulled anywhere.
#[verifier::spinoff_prover]
proof fn lemma_in_range_stays(s: Settings)
    requires
        are_in_range(s),
    ensures
        clamped(s) == s,
{
}

#[verifier::spinoff_prover]
proof fn lemma_numbers_are_read(s: Settings)
    requires
        are_in_range(s),
    ensures
        numbers_read(
            seq![
                fixed(s.particles, 2),
                fixed(s.shake, 2),
                fixed(s.day_minutes, 1),
                fixed(s.autosave_s, 0),
            ],
        ) == seq![
            Some(in_file_places(s).particles),
            Some(in_file_places(s).shake),
            Some(in_file_places(s).day_minutes),
            Some(in_file_places(s).autosave_s),
        ],
{
    lemma_numbers_settle(s);
    let words = seq![
        fixed(s.particles, 2),
        fixed(s.shake, 2),
        fixed(s.day_minutes, 1),
        fixed(s.autosave_s, 0),
    ];
    assert(numbers_read(words) =~= seq![
        Some(in_file_places(s).particles),
        Some(in_file_places(s).shake),
        Some(in_file_places(s).day_minutes),
        Some(in_file_places(s).autosave_s),
    ]);
}

/// The numbers of some settings are ones that the file has places for: whole hundredths, tenths of
/// a minute and seconds.
pub open spec fn are_written_in_full(s: Settings, units: (nat, nat, nat, nat)) -> bool {
    &&& units.0 <= 100 && s.particles == nearest_decimal(units.0, 2)
    &&& units.1 <= 100 && s.shake == nearest_decimal(units.1, 2)
    &&& units.2 <= 600 && s.day_minutes == nearest_decimal(units.2, 1)
    &&& units.3 <= 300 && s.autosave_s == nearest_decimal(units.3, 0)
}

/// A round trip through the file changes nothing: settings inside their ranges, with numbers that
/// the file has places for, are the settings that come out, whatever the defaults.
pub proof fn law_settings_round_trip(
    defaults: Settings,
    s: Settings,
    units: (nat, nat, nat, nat),
)
    requires
        s.scale.is_offered(),
        are_written_in_full(s, units),
        are_in_range(s),
    ensures
        after_a_trip(defaults, s) == s,
{
    lemma_a_trip(defaults, s);
    reveal_with_fuel(pow10, 4);
    lemma_short_decimal(units.0, 2);
    lemma_short_decimal(units.1, 2);
    lemma_short_decimal(units.2, 1);
    lemma_short_decimal(units.3, 0);
}

/// What a line does not say is left as it was: an empty file is the defaults.
pub proof fn law_empty_file_is_the_defaults(defaults: Settings, numbers: Seq<Option<Number>>)
    ensures
        settings_in(defaults, Seq::empty(), numbers) == clamped(defaults),
{
    let lines = Seq::<Seq<char>>::empty().push(Seq::<char>::empty());
    assert(lines.drop_last() =~= Seq::<Seq<char>>::empty());
    assert(assignment(Seq::<char>::empty()) is None);
    reveal_with_fuel(assigned, 2);
    assert(lines.last() == Seq::<char>::empty());
    assert(assignments(Seq::<char>::empty()) =~= Seq::empty());
}

proof fn lemma_lines_after(a: Seq<char>, b: Seq<char>)
    requires
        lines_in(a).1 == Seq::<char>::empty(),
    ensures
        lines_in(a + b) == (lines_in(a).0 + lines_in(b).0, lines_in(b).1),
    decreases b.len(),
{
    if b.len() > 0 {
        let less = b.drop_last();
        lemma_lines_after(a, less);
        assert((a + b).drop_last() =~= a + less);
        assert((a + b).last() == b.last());
        assert(lines_in(a).0 + lines_in(less).0.push(lines_in(less).1) =~= (lines_in(a).0
            + lines_in(less).0).push(lines_in(less).1));
    } else {
        assert(a + b =~= a);
        assert(lines_in(a).0 + lines_in(b).0 =~= lines_in(a).0);
    }
}

proof fn lemma_assigned_after(x: Seq<Seq<char>>, y: Seq<Seq<char>>)
    ensures
        assigned(x + y) == assigned(x) + assigned(y),
    decreases y.len(),
{
    if y.len() > 0 {
        let less = y.drop_last();
        lemma_assigned_after(x, less);
        assert((x + y).drop_last() =~= x + less);
        assert((x + y).last() == y.last());
        if let Some(a) = assignment(y.last()) {
            assert((assigned(x) + assigned(less)).push(a) =~= assigned(x) + assigned(less).push(a));
        }
    } else {
        assert(x + y =~= x);
        assert(assigned(x) + assigned(y) =~= assigned(x));
    }
}

/// A bad line costs that line and nothing else: wherever it stands, the file assigns what it
/// would without it. A key from a newer build is such a line.
pub proof fn law_bad_line_costs_only_itself(before: Seq<char>, bad: Seq<char>, after: Seq<char>)
    requires
        lines_in(before).1 == Seq::<char>::empty(),
        forall|i: int| 0 <= i < bad.len() ==> #[trigger] bad[i] != '\n',
        assignment(bad) is None,
    ensures
        assignments(before + bad.push('\n') + after) == assignments(before + after),
{
    let with = before + bad.push('\n');
    lemma_ended_line(before, bad);
    lemma_lines_after(with, after);
    lemma_lines_after(before, after);
    let first = lines_in(before).0;
    let rest = lines_in(after).0.push(lines_in(after).1);
    lemma_assigned_after(first.push(bad), rest);
    lemma_assigned_after(first, rest);
    assert(first.push(bad).drop_last() =~= first);
    assert((first.push(bad) + lines_in(after).0).push(lines_in(after).1) =~= first.push(bad) + rest);
    assert((first + lines_in(after).0).push(lines_in(after).1) =~= first + rest);
}

/// A line is divided at its first equals sign: there is one where it is divided and none before it,
/// and one that is not divided has none.
pub proof fn law_the_first_equals_divides(s: Seq<char>, i: nat)
    ensures
        equals_at(s, i) matches Some(at) ==> i <= at < s.len() && s[at as int] == '=' && forall|j: int|
            i <= j < at ==> #[trigger] s[j] != '=',
        equals_at(s, i) is None ==> forall|j: int| i <= j < s.len() ==> #[trigger] s[j] != '=',
    decreases s.len() - i,
{
    if i < s.len() && s[i as int] != '=' {
        law_the_first_equals_divides(s, i + 1);
    }
}

/// A comment and an empty line assign nothing, whatever white space is round them.
pub proof fn law_a_comment_assigns_nothing(line: Seq<char>)
    requires
        trimmed(line).len() == 0 || trimmed(line)[0] == '#',
    ensures
        assignment(line) is None,
{
}

/// A value that cannot be read leaves its setting as it was: a switch that is neither on nor off, a
/// number that is none, and a hint mode there is not. A scale there is not is the automatic one.
pub proof fn law_an_unreadable_value_changes_nothing(
    s: Settings,
    key: Key,
    value: Seq<char>,
    number: Option<Number>,
)
    requires
        key == Key::Fullscreen || key == Key::Vsync || key == Key::DebugOverlay ==> value != "true"@
            && value != "false"@,
        key == Key::Hints ==> value != "always"@ && value != "fade"@ && value != "never"@,
        is_numeric(key) ==> (number matches Some(n) ==> !n.is_number()),
    ensures
        key != Key::Scale ==> set_key(s, key, value, number) == s,
        key == Key::Scale && unsigned_value(value) is None ==> set_key(s, key, value, number)
            == (Settings { scale: RenderScale::Auto, ..s }),
{
}

/// The last line that sets a switch, a scale or a hint mode decides it, whatever was set before.
pub proof fn law_a_later_line_wins(
    start: Settings,
    all: Seq<(Key, Seq<char>)>,
    numbers: Seq<Option<Number>>,
    on: bool,
    mode: HintMode,
)
    ensures
        ({
            let set = |key: Key, value: Seq<char>|
                settled(start, all.push((key, value)), numbers, all.len() + 1);
            &&& set(Key::Fullscreen, switch_text(on)).fullscreen == on
            &&& set(Key::Vsync, switch_text(on)).vsync == on
            &&& set(Key::DebugOverlay, switch_text(on)).debug_overlay == on
            &&& set(Key::Hints, hint_key(mode)).hints == mode
        }),
{
    lemma_fixed_words(on, mode);
    assert(all.push((Key::Fullscreen, switch_text(on)))[all.len() as int] == (
        Key::Fullscreen,
        switch_text(on),
    ));
    assert(all.push((Key::Vsync, switch_text(on)))[all.len() as int].0 == Key::Vsync);
    assert(all.push((Key::DebugOverlay, switch_text(on)))[all.len() as int].0 == Key::DebugOverlay);
    assert(all.push((Key::Hints, hint_key(mode)))[all.len() as int].0 == Key::Hints);
}

/// A scale that is read is one that is offered: the number that was written, or the automatic one
/// where no such number is.
pub proof fn law_a_scale_is_one_on_offer(word: Seq<char>)
    ensures
        scale_in(word).is_offered(),
        scale_in(word) matches RenderScale::Fixed(n) ==> unsigned_value(word) == Some(n as nat),
        unsigned_value(word) matches Some(n) ==> (scale_in(word) == RenderScale::Auto <==> n < 1 || n
            > MAX_ZOOM),
{
}

} // verus!
