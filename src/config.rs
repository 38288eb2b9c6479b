use vstd::prelude::*;

verus! {

/// An RGB color with three 8-bit channels.
#[derive(Clone, Copy, Debug, PartialEq, Eq, Structural)]
pub struct Color {
    pub r: u8,
    pub g: u8,
    pub b: u8,
}

impl Color {
    pub fn new(r: u8, g: u8, b: u8) -> (c: Color)
        ensures
            c == (Color { r, g, b }),
    {
        Color { r, g, b }
    }
}

/// Where the lighting-controller server listens, when not at its default.
#[derive(Clone, Debug)]
pub struct SDKServerInfo {
    pub address: Option<String>,
    pub port: Option<u16>,
}

pub const DEFAULT_FPS: usize = 60;

pub const DEFAULT_FADEOUT_TIME_MS: usize = 1000;

/// The user's settings, loaded once at start and read-only afterwards.
#[derive(Clone, Debug)]
pub struct Config {
    pub color: Color,
    pub fps: Option<usize>,
    pub fadeout_time_ms: Option<usize>,
    pub server: Option<SDKServerInfo>,
}

pub open spec fn option_or(o: Option<usize>, d: usize) -> usize {
    match o {
        Some(v) => v,
        None => d,
    }
}

/// Length of one frame in milliseconds at the given rate.
pub open spec fn frame_time_of(fps: usize) -> int
    recommends
        fps > 0,
{
    1000int / (fps as int)
}

impl Config {
    /// The base color that a key lights up in.
    pub fn color(&self) -> (c: Color)
        ensures
            c == self.color,
    {
        self.color
    }

    /// Frames per second; 60 when not set.
    pub fn fps(&self) -> (r: usize)
        ensures
            r == option_or(self.fps, DEFAULT_FPS),
    {
        match self.fps {
            Some(v) => v,
            None => DEFAULT_FPS,
        }
    }

    /// Fade duration hint in milliseconds; 1000 when not set.
    pub fn fadeout_time_ms(&self) -> (r: usize)
        ensures
            r == option_or(self.fadeout_time_ms, DEFAULT_FADEOUT_TIME_MS),
    {
        match self.fadeout_time_ms {
            Some(v) => v,
            None => DEFAULT_FADEOUT_TIME_MS,
        }
    }

    /// How long a frame driver sleeps between ticks: `1000 / fps` milliseconds.
    pub fn frame_time_ms(&self) -> (r: u64)
        requires
            option_or(self.fps, DEFAULT_FPS) > 0,
        ensures
            r == frame_time_of(option_or(self.fps, DEFAULT_FPS)),
    {
        let fps = self.fps();
        (1000 / fps) as u64
    }
}

} // verus!
