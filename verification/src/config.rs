use vstd::prelude::*;

verus! {

/// Window settings read from the configuration file.
#[derive(Debug, Clone, Copy, PartialEq, Eq, Structural)]
pub struct ScreenConfig {
    pub full_screen: bool,
    pub width: i32,
    pub height: i32,
}

/// Top-level configuration of the game.
#[derive(Debug, Clone, Copy, PartialEq, Eq, Structural)]
pub struct Config {
    pub screen: ScreenConfig,
}

impl ScreenConfig {
    /// Default window width in pixels.
    pub fn default_width() -> (w: i32)
        ensures
            w == 800,
    {
        800
    }

    /// Default window height in pixels.
    pub fn default_height() -> (h: i32)
        ensures
            h == 600,
    {
        600
    }

    /// A windowed 800x600 screen.
    pub fn default_screen() -> (s: ScreenConfig)
        ensures
            !s.full_screen,
            s.width == 800,
            s.height == 600,
    {
        ScreenConfig {
            full_screen: false,
            width: ScreenConfig::default_width(),
            height: ScreenConfig::default_height(),
        }
    }
}

impl Config {
    /// The configuration used when no configuration file exists.
    pub fn default_config() -> (c: Config)
        ensures
            !c.screen.full_screen,
            c.screen.width == 800,
            c.screen.height == 600,
    {
        Config { screen: ScreenConfig::default_screen() }
    }
}

} // verus!
