use openrgb_fade::config::{Color, Config};
use openrgb_fade::fade::{Brightness, FadeLeds, FadeState, FADE_STEP};
use openrgb_fade::hid::KeyEvent;
use openrgb_fade::key_mappings::KeyMapping;

fn down(code: u16) -> KeyEvent {
    KeyEvent::new(vec![0, 0, (code % 256) as u8, (code / 256) as u8, 1])
}

fn up(code: u16) -> KeyEvent {
    KeyEvent::new(vec![0, 0, (code % 256) as u8, (code / 256) as u8, 0])
}

fn config(r: u8, g: u8, b: u8) -> Config {
    Config {
        color: Color::new(r, g, b),
        fps: None,
        fadeout_time_ms: None,
        server: None,
    }
}

fn brightness(leds: &FadeLeds, led: usize) -> u8 {
    leds.state(led).unwrap().get_brightness()
}

#[test]
fn color_divides_by_remaining_brightness() {
    let base = Color::new(255, 100, 255);
    for b in 1..255u8 {
        let c = FadeState::On(Brightness(b)).color(base);
        let d = 255 - b;
        assert_eq!(c, Color::new(255 / d, 100 / d, 255 / d));
    }
    assert_eq!(FadeState::On(Brightness(250)).color(base), Color::new(51, 20, 51));
    assert_eq!(FadeState::On(Brightness(0)).color(base), Color::new(0, 0, 0));
    assert_eq!(FadeState::Off.color(base), Color::new(0, 0, 0));
}

#[test]
fn full_brightness_shows_base_color() {
    let base = Color::new(255, 100, 255);
    assert_eq!(FadeState::On(Brightness(255)).color(base), base);
}

#[test]
fn fade_turns_off_below_twice_the_step() {
    let mut one = FadeState::On(Brightness(1));
    one.update();
    assert_eq!(one, FadeState::Off);
    let mut two = FadeState::On(Brightness(2));
    two.update();
    assert_eq!(two, FadeState::On(Brightness(1)));
    let mut nine = FadeState::On(Brightness(9));
    nine.update_by(5);
    assert_eq!(nine, FadeState::Off);
}

#[test]
fn advance_off_stays_off() {
    let mut s = FadeState::Off;
    s.update();
    assert_eq!(s, FadeState::Off);
    s.update_by(5);
    assert_eq!(s, FadeState::Off);
    assert_eq!(FadeState::default(), FadeState::Off);
}

fn ticks_until_off(step: u8) -> u32 {
    let mut s = FadeState::Off;
    s.trigger();
    let mut n = 0;
    while s != FadeState::Off {
        s.update_by(step);
        n += 1;
    }
    n
}

#[test]
fn fade_reaches_off_in_ceil_ticks() {
    assert_eq!(FADE_STEP, 1);
    assert_eq!(ticks_until_off(1), 255);
    assert_eq!(ticks_until_off(5), 51);
}

#[test]
fn trigger_always_restarts_at_max() {
    for start in [FadeState::Off, FadeState::On(Brightness(0)), FadeState::On(Brightness(17)), FadeState::On(Brightness(255))] {
        let mut s = start;
        s.trigger();
        assert_eq!(s, FadeState::On(Brightness(255)));
    }
}

#[test]
fn brightness_tick_steps_down() {
    let mut b = Brightness(10);
    assert_eq!(b.tick(), Some(()));
    assert_eq!(b, Brightness(9));
    let mut low = Brightness(1);
    assert_eq!(low.tick(), Some(()));
    assert_eq!(low, Brightness(0));
    let mut zero = Brightness(0);
    assert_eq!(zero.tick(), None);
    assert_eq!(zero, Brightness(0));
    let mut four = Brightness(4);
    assert_eq!(four.tick_by(5), None);
    assert_eq!(four, Brightness(4));
    let mut nine = Brightness(9);
    assert_eq!(nine.tick_by(5), Some(()));
    assert_eq!(nine, Brightness(4));
    let mut ten = Brightness(10);
    assert_eq!(ten.tick_by(5), Some(()));
    assert_eq!(ten, Brightness(5));
}

#[test]
fn key_press_during_fade() {
    let map = KeyMapping::from(vec![100, 200]);
    let cfg = config(255, 100, 255);
    let mut leds = FadeLeds::new(2);
    let mut s = FadeState::Off;
    s.trigger();
    assert_eq!(s, FadeState::On(Brightness(255)));
    let colors = leds.update(&cfg, &[down(200)], &map);
    assert_eq!(brightness(&leds, 1), 254);
    assert_eq!(colors, vec![Color::new(0, 0, 0), Color::new(255, 100, 255)]);
    for _ in 0..4 {
        leds.update(&cfg, &[], &map);
    }
    assert_eq!(brightness(&leds, 1), 250);
    assert_eq!(leds.state(0), Some(FadeState::Off));
    for _ in 0..5 {
        s.update();
    }
    assert_eq!(s.get_brightness(), 250);
}

#[test]
fn drain_ordering_retriggers() {
    let map = KeyMapping::from(vec![100, 200]);
    let cfg = config(255, 100, 255);
    let mut leds = FadeLeds::new(2);
    leds.update(&cfg, &[down(100)], &map);
    leds.update(&cfg, &[], &map);
    assert_eq!(brightness(&leds, 0), 253);
    leds.update(&cfg, &[down(100), down(200), down(100)], &map);
    assert_eq!(brightness(&leds, 0), 254);
    assert_eq!(brightness(&leds, 1), 254);
}

#[test]
fn unmapped_key_changes_nothing() {
    let map = KeyMapping::from(vec![100, 200]);
    let cfg = config(255, 100, 255);
    let mut with = FadeLeds::new(2);
    let mut without = FadeLeds::new(2);
    with.update(&cfg, &[down(100)], &map);
    without.update(&cfg, &[down(100)], &map);
    let a = with.update(&cfg, &[down(300), up(200)], &map);
    let b = without.update(&cfg, &[], &map);
    assert_eq!(a, b);
    assert_eq!(with.state(0), without.state(0));
    assert_eq!(with.state(1), Some(FadeState::Off));
}

#[test]
fn code_past_last_led_is_ignored() {
    let map = KeyMapping::from(vec![100, 200, 300]);
    let cfg = config(10, 10, 10);
    let mut leds = FadeLeds::new(2);
    let colors = leds.update(&cfg, &[down(300)], &map);
    assert_eq!(colors, vec![Color::new(0, 0, 0), Color::new(0, 0, 0)]);
    assert_eq!(leds.num_leds(), 2);
    assert_eq!(leds.state(2), None);
}

#[test]
fn faster_step_fades_faster() {
    let map = KeyMapping::from(vec![7]);
    let cfg = config(255, 255, 255);
    let mut leds = FadeLeds::with_step(1, 5);
    leds.update(&cfg, &[down(7)], &map);
    assert_eq!(brightness(&leds, 0), 250);
}

#[test]
fn short_reports_are_not_presses() {
    assert!(!KeyEvent::new(vec![0, 0, 1, 0]).is_down());
    assert!(!KeyEvent::new(vec![]).is_down());
    assert!(!up(5).is_down());
    assert!(down(5).is_down());
    assert_eq!(KeyEvent::new(vec![9, 9, 0x34, 0x12]).key_bytes(), 0x1234);
    assert_eq!(KeyEvent::new(vec![9, 9, 0x34, 0x12]).key_code(), Some(0x1234));
    assert_eq!(KeyEvent::new(vec![9, 9, 0x34]).key_code(), None);
    assert_eq!(KeyEvent::new(vec![9, 9, 0x34]).len(), 3);
}

#[test]
fn config_defaults() {
    let mut cfg = config(1, 2, 3);
    assert_eq!(cfg.fps(), 60);
    assert_eq!(cfg.fadeout_time_ms(), 1000);
    assert_eq!(cfg.frame_time_ms(), 16);
    assert_eq!(cfg.color(), Color::new(1, 2, 3));
    cfg.fps = Some(30);
    cfg.fadeout_time_ms = Some(400);
    assert_eq!(cfg.fps(), 30);
    assert_eq!(cfg.frame_time_ms(), 33);
    assert_eq!(cfg.fadeout_time_ms(), 400);
}
