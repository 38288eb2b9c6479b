use vstd::prelude::*;

use crate::config::{Color, Config};
use crate::hid::{report_is_down, report_key, KeyEvent};
use crate::key_mappings::{led_of, KeyMapping};

verus! {

/// How much an active fade loses per tick. A larger step gives a faster fade.
pub const FADE_STEP: u8 = 1;

/// Brightness of one LED: 0 is off, 255 is the maximum.
#[derive(Clone, Copy, Debug, PartialEq, Eq, Structural)]
pub struct Brightness(pub u8);

/// Fade state of one LED.
#[derive(Clone, Copy, Debug, PartialEq, Eq, Structural)]
pub enum FadeState {
    Off,
    On(Brightness),
}

impl Default for FadeState {
    fn default() -> (r: FadeState)
        ensures
            r == FadeState::Off,
    {
        FadeState::Off
    }
}

pub open spec fn max_brightness() -> Brightness {
    Brightness(255)
}

/// One tick of a fade: an active fade loses `step`, and turns off when its
/// brightness would drop below `step`. `Off` stays `Off`.
pub open spec fn advance(s: FadeState, step: u8) -> FadeState {
    match s {
        FadeState::Off => FadeState::Off,
        FadeState::On(b) => if (b.0 as int) < 2 * (step as int) {
            FadeState::Off
        } else {
            FadeState::On(Brightness((b.0 - step) as u8))
        },
    }
}

/// `n` ticks in a row.
pub open spec fn advance_n(s: FadeState, step: u8, n: nat) -> FadeState
    decreases n,
{
    if n == 0 {
        s
    } else {
        advance_n(advance(s, step), step, (n - 1) as nat)
    }
}

pub open spec fn brightness_of(s: FadeState) -> u8 {
    match s {
        FadeState::Off => 0,
        FadeState::On(b) => b.0,
    }
}

pub open spec fn black() -> Color {
    Color { r: 0, g: 0, b: 0 }
}

/// Each channel divided by `d`, truncating.
pub open spec fn scale_down(c: Color, d: u8) -> Color
    recommends
        d > 0,
{
    Color { r: (c.r / d) as u8, g: (c.g / d) as u8, b: (c.b / d) as u8 }
}

/// The color a state shows for the base color: black when off or at brightness 0,
/// otherwise the base color divided by `255 - b`. At brightness 255 that divisor
/// would be 0; it is taken as 1 there, so the LED shows the base color itself.
pub open spec fn color_for(s: FadeState, base: Color) -> Color {
    match s {
        FadeState::Off => black(),
        FadeState::On(b) => if b.0 == 0 {
            black()
        } else if b.0 == 255 {
            scale_down(base, 1)
        } else {
            scale_down(base, (255 - b.0) as u8)
        },
    }
}

/// Ticks a full-brightness fade takes to turn off: `255 / step`, rounded up.
pub open spec fn ticks_to_off(step: u8) -> int {
    (255 + step - 1) / (step as int)
}

/// Between 1 and 254 the color is the base color divided channel by channel by
/// `255 - b`; at 0, or when off, it is black.
pub proof fn lemma_color_formula(b: u8, base: Color)
    ensures
        1 <= b < 255 ==> color_for(FadeState::On(Brightness(b)), base) == (Color {
            r: (base.r / (255 - b) as u8) as u8,
            g: (base.g / (255 - b) as u8) as u8,
            b: (base.b / (255 - b) as u8) as u8,
        }),
        color_for(FadeState::On(Brightness(0)), base) == black(),
        color_for(FadeState::Off, base) == black(),
{
}

/// Advancing `Off` leaves it `Off`.
pub proof fn lemma_advance_off(step: u8)
    ensures
        advance(FadeState::Off, step) == FadeState::Off,
{
}

proof fn lemma_fade_multiple(m: int, step: u8)
    requires
        m >= 1,
        step >= 1,
        m * step <= 255,
    ensures
        advance_n(FadeState::On(Brightness((m * step) as u8)), step, m as nat) == FadeState::Off,
        forall|j: nat|
            j < m ==> (#[trigger] advance_n(FadeState::On(Brightness((m * step) as u8)), step, j)
                is On),
    decreases m,
{
    let s = FadeState::On(Brightness((m * step) as u8));
    if m == 1 {
        assert(m * step == step) by (nonlinear_arith)
            requires
                m == 1,
        ;
        assert(advance(s, step) == FadeState::Off);
        assert(advance_n(FadeState::Off, step, 0) == FadeState::Off);
        assert forall|j: nat| j < m implies advance_n(s, step, j) is On by {
            assert(j == 0);
        }
    } else {
        assert((m - 1) * step == m * step - step) by (nonlinear_arith);
        assert(m * step >= 2 * step) by (nonlinear_arith)
            requires
                m >= 2,
                step >= 1,
        ;
        assert((m - 1) * step >= 1) by (nonlinear_arith)
            requires
                m >= 2,
                step >= 1,
        ;
        let t = FadeState::On(Brightness(((m - 1) * step) as u8));
        assert(advance(s, step) == t);
        lemma_fade_multiple(m - 1, step);
        assert(advance_n(s, step, m as nat) == advance_n(t, step, (m - 1) as nat));
        assert forall|j: nat| j < m implies advance_n(s, step, j) is On by {
            if j > 0 {
                assert(advance_n(s, step, j) == advance_n(t, step, (j - 1) as nat));
            }
        }
    }
}

/// A fade started at full brightness turns off after exactly `ceil(255 / step)`
/// ticks, for steps of 1 and 5.
pub proof fn lemma_fade_length(step: u8)
    requires
        step == 1 || step == 5,
    ensures
        advance_n(FadeState::On(max_brightness()), step, ticks_to_off(step) as nat)
            == FadeState::Off,
        forall|j: nat|
            j < ticks_to_off(step) ==> (#[trigger] advance_n(
                FadeState::On(max_brightness()),
                step,
                j,
            ) is On),
{
    if step == 1 {
        assert(ticks_to_off(step) == 255);
        lemma_fade_multiple(255, step);
    } else {
        assert(ticks_to_off(step) == 51);
        lemma_fade_multiple(51, step);
    }
}

impl Brightness {
    /// Full brightness, where every fade starts.
    pub fn max() -> (b: Brightness)
        ensures
            b == max_brightness(),
    {
        Brightness(255)
    }

    /// Loses one step of brightness; `None`, and no change, when the
    /// brightness is already below the step (at 0, for a step of 1).
    pub fn tick(&mut self) -> (r: Option<()>)
        ensures
            old(self).0 < FADE_STEP ==> r is None && *final(self) == *old(self),
            old(self).0 >= FADE_STEP ==> r is Some && final(self).0 == old(self).0 - FADE_STEP,
    {
        self.tick_by(FADE_STEP)
    }

    /// As `tick`, with a step of the caller's choosing.
    pub fn tick_by(&mut self, step: u8) -> (r: Option<()>)
        ensures
            old(self).0 < step ==> r is None && *final(self) == *old(self),
            old(self).0 >= step ==> r is Some && final(self).0 == old(self).0 - step,
    {
        if self.0 < step {
            None
        } else {
            self.0 = self.0 - step;
            Some(())
        }
    }
}

impl FadeState {
    /// Advances the fade by one tick of `FADE_STEP`.
    pub fn update(&mut self)
        ensures
            *final(self) == advance(*old(self), FADE_STEP),
    {
        self.update_by(FADE_STEP)
    }

    /// Advances the fade by one tick of `step`.
    pub fn update_by(&mut self, step: u8)
        ensures
            *final(self) == advance(*old(self), step),
    {
        match self {
            FadeState::On(b) => {
                let mut nb = *b;
                if nb.0 < step || nb.0 - step < step {
                    *self = FadeState::Off;
                } else {
                    let ticked = nb.tick_by(step);
                    assert(ticked is Some);
                    *self = FadeState::On(nb);
                }
            },
            FadeState::Off => {},
        }
    }

    /// Restarts the fade at full brightness, whatever the state was.
    pub fn trigger(&mut self)
        ensures
            *final(self) == FadeState::On(max_brightness()),
    {
        *self = FadeState::On(Brightness::max());
    }

    pub fn get_brightness(&self) -> (r: u8)
        ensures
            r == brightness_of(*self),
    {
        match self {
            FadeState::On(b) => b.0,
            FadeState::Off => 0,
        }
    }

    /// The color this state shows for the base color.
    pub fn color(&self, base: Color) -> (c: Color)
        ensures
            c == color_for(*self, base),
    {
        let brightness = self.get_brightness();
        if brightness == 0 {
            Color::new(0, 0, 0)
        } else {
            let d: u8 = if brightness == 255 {
                1
            } else {
                255 - brightness
            };
            Color::new(base.r / d, base.g / d, base.b / d)
        }
    }
}

/// Whether one of the first `n` events is a key press whose code maps to LED `i`.
pub open spec fn triggered_upto(events: Seq<KeyEvent>, m: Seq<u16>, i: int, n: int) -> bool {
    exists|k: int|
        0 <= k < n && report_is_down(#[trigger] events[k]@) && led_of(m, report_key(events[k]@))
            == Some(i)
}

/// The LED states after one tick: every LED that a press in `events` maps to
/// restarts at full brightness, then every LED advances by one step.
pub open spec fn next_states(states: Seq<FadeState>, events: Seq<KeyEvent>, m: Seq<u16>, step: u8) -> Seq<
    FadeState,
> {
    Seq::new(
        states.len(),
        |i: int|
            advance(
                if triggered_upto(events, m, i, events.len() as int) {
                    FadeState::On(max_brightness())
                } else {
                    states[i]
                },
                step,
            ),
    )
}

/// The colors the LEDs show, in LED order.
pub open spec fn colors_of(states: Seq<FadeState>, base: Color) -> Seq<Color> {
    Seq::new(states.len(), |i: int| color_for(states[i], base))
}

/// The fade effect over all LEDs of one controller.
pub struct FadeLeds {
    state: Vec<FadeState>,
    step: u8,
}

impl FadeLeds {
    /// The state of every LED, in LED order.
    pub closed spec fn states(&self) -> Seq<FadeState> {
        self.state@
    }

    /// The step each tick takes off an active fade.
    pub closed spec fn step(&self) -> u8 {
        self.step
    }

    /// All `num_leds` LEDs off, fading by `FADE_STEP`.
    pub fn new(num_leds: usize) -> (r: FadeLeds)
        ensures
            r.states() == Seq::new(num_leds as nat, |i: int| FadeState::Off),
            r.step() == FADE_STEP,
    {
        FadeLeds::with_step(num_leds, FADE_STEP)
    }

    /// All `num_leds` LEDs off, fading by `step`.
    pub fn with_step(num_leds: usize, step: u8) -> (r: FadeLeds)
        ensures
            r.states() == Seq::new(num_leds as nat, |i: int| FadeState::Off),
            r.step() == step,
    {
        let mut state: Vec<FadeState> = Vec::new();
        let mut i: usize = 0;
        while i < num_leds
            invariant
                i <= num_leds,
                state@ == Seq::new(i as nat, |j: int| FadeState::Off),
            decreases num_leds - i,
        {
            state.push(FadeState::Off);
            i = i + 1;
        }
        FadeLeds { state, step }
    }

    pub fn num_leds(&self) -> (n: usize)
        ensures
            n == self.states().len(),
    {
        self.state.len()
    }

    /// The state of LED `led`, if there is one.
    pub fn state(&self, led: usize) -> (r: Option<FadeState>)
        ensures
            led < self.states().len() ==> r == Some(self.states()[led as int]),
            led >= self.states().len() ==> r is None,
    {
        if led < self.state.len() {
            Some(self.state[led])
        } else {
            None
        }
    }

    /// One frame: presses in `events` restart their LEDs' fades, every LED then
    /// advances one tick, and the colors of all LEDs come back in LED order.
    /// A code that maps past the last LED is ignored.
    pub fn update(&mut self, config: &Config, events: &[KeyEvent], key_map: &KeyMapping) -> (r: Vec<
        Color,
    >)
        ensures
            final(self).step() == old(self).step(),
            final(self).states() == next_states(
                old(self).states(),
                events@,
                key_map@,
                old(self).step(),
            ),
            r@ == colors_of(final(self).states(), config.color),
    {
        let ghost start = self.state@;
        let n = self.state.len();
        let mut k: usize = 0;
        while k < events.len()
            invariant
                k <= events@.len(),
                self.step == old(self).step,
                self.state@.len() == n,
                n == start.len(),
                forall|i: int|
                    0 <= i < n ==> #[trigger] self.state@[i] == if triggered_upto(
                        events@,
                        key_map@,
                        i,
                        k as int,
                    ) {
                        FadeState::On(max_brightness())
                    } else {
                        start[i]
                    },
            decreases events@.len() - k,
        {
            let event = &events[k];
            let mut hit: Option<usize> = None;
            if event.is_down() {
                hit = key_map.get_led(event.key_bytes());
            }
            if let Some(led) = hit {
                if led < n {
                    self.state.set(led, FadeState::On(Brightness::max()));
                }
            }
            assert forall|i: int| 0 <= i < n implies #[trigger] self.state@[i] == if triggered_upto(
                events@,
                key_map@,
                i,
                k + 1,
            ) {
                FadeState::On(max_brightness())
            } else {
                start[i]
            } by {
                if triggered_upto(events@, key_map@, i, k as int) {
                    let w = choose|w: int|
                        0 <= w < k && report_is_down(#[trigger] events@[w]@) && led_of(
                            key_map@,
                            report_key(events@[w]@),
                        ) == Some(i);
                    assert(0 <= w < k + 1 && report_is_down(events@[w]@));
                }
                if report_is_down(events@[k as int]@) && led_of(
                    key_map@,
                    report_key(events@[k as int]@),
                ) == Some(i) {
                    assert(report_is_down(events@[k as int]@));
                }
                if triggered_upto(events@, key_map@, i, k + 1) {
                    let w = choose|w: int|
                        0 <= w < k + 1 && report_is_down(#[trigger] events@[w]@) && led_of(
                            key_map@,
                            report_key(events@[w]@),
                        ) == Some(i);
                    if w < k {
                        assert(triggered_upto(events@, key_map@, i, k as int));
                    }
                }
            }
            k = k + 1;
        }
        let ghost mid = self.state@;
        let base = config.color();
        let mut colors: Vec<Color> = Vec::new();
        let mut led: usize = 0;
        while led < n
            invariant
                led <= n,
                self.step == old(self).step,
                self.state@.len() == n,
                mid.len() == n,
                colors@.len() == led,
                forall|i: int| 0 <= i < led ==> #[trigger] self.state@[i] == advance(mid[i], self.step),
                forall|i: int| led <= i < n ==> #[trigger] self.state@[i] == mid[i],
                forall|i: int| 0 <= i < led ==> #[trigger] colors@[i] == color_for(self.state@[i], base),
            decreases n - led,
        {
            let mut s = self.state[led];
            s.update_by(self.step);
            self.state.set(led, s);
            colors.push(s.color(base));
            led = led + 1;
        }
        assert(self.state@ == next_states(start, events@, key_map@, self.step));
        assert(colors@ == colors_of(self.state@, base));
        colors
    }
}

} // verus!
