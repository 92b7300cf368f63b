//! The settings of the application and its remembered state.
use vstd::prelude::*;

verus! {

/// What the application remembers between runs, apart from its settings.
pub struct SettingsState {
    pub show_flatpak_dialog: bool,
}

impl SettingsState {
    /// The dialog about the Flatpak install is shown.
    pub fn default() -> (r: Self)
        ensures
            r.show_flatpak_dialog,
    {
        Self { show_flatpak_dialog: true }
    }
}

/// The settings of the application.
pub struct Settings {
    pub theme: AppTheme,
    pub update_delay: u64,
    pub current_config: Option<String>,
    pub start_at_login: bool,
    pub inactive: bool,
}

impl Settings {
    /// A light theme, an update every 1500 ms, no configuration, not started
    /// at login, active.
    pub fn default() -> (r: Self)
        ensures
            r.theme == AppTheme::Light,
            r.update_delay == 1500,
            r.current_config.is_none(),
            !r.start_at_login,
            !r.inactive,
    {
        Self {
            theme: AppTheme::default(),
            update_delay: 1500,
            current_config: None,
            start_at_login: false,
            inactive: false,
        }
    }
}

/// The themes of the interface.
#[derive(Clone, Copy, PartialEq, Eq, Structural)]
pub enum AppTheme {
    System,
    Dark,
    HighContrastDark,
    HighContrastLight,
    Light,
}

impl AppTheme {
    /// The light theme.
    pub fn default() -> (r: Self)
        ensures
            r == AppTheme::Light,
    {
        AppTheme::Light
    }

    /// Every theme, in the order of declaration.
    pub fn values() -> (r: Vec<AppTheme>)
        ensures
            r@ == seq![
                AppTheme::System,
                AppTheme::Dark,
                AppTheme::HighContrastDark,
                AppTheme::HighContrastLight,
                AppTheme::Light,
            ],
    {
        let mut r: Vec<AppTheme> = Vec::new();
        r.push(AppTheme::System);
        r.push(AppTheme::Dark);
        r.push(AppTheme::HighContrastDark);
        r.push(AppTheme::HighContrastLight);
        r.push(AppTheme::Light);
        r
    }
}

} // verus!
