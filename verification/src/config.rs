//! Configuration data: plain values that the surrounding program fills from
//! its configuration file and hands to the core.

use vstd::prelude::*;

verus! {

pub struct Config {
    pub ui: UIConfig,
    pub debug: bool,
    pub history: HistoryConfig,
    pub systemd_run: SystemdRunConfig,
}

#[derive(Clone)]
pub struct UIConfig {
    pub prompt: Option<String>,
    pub highlight_color: Option<String>,
}

#[derive(Clone)]
pub struct HistoryConfig {
    pub enabled: bool,
    pub file: Option<String>,
}

#[derive(Clone)]
pub struct SystemdRunConfig {
    pub parameters: Vec<String>,
}

impl Default for UIConfig {
    fn default() -> (c: Self)
        ensures
            c.prompt is None,
            c.highlight_color is None,
    {
        UIConfig { prompt: None, highlight_color: None }
    }
}

impl Default for HistoryConfig {
    fn default() -> (c: Self)
        ensures
            !c.enabled,
            c.file is None,
    {
        HistoryConfig { enabled: false, file: None }
    }
}

impl Default for SystemdRunConfig {
    fn default() -> (c: Self)
        ensures
            c.parameters@ == Seq::<String>::empty(),
    {
        let c = SystemdRunConfig { parameters: Vec::new() };
        proof {
            assert(c.parameters@ =~= Seq::<String>::empty());
        }
        c
    }
}

impl Default for Config {
    fn default() -> (c: Self)
        ensures
            !c.debug,
            c.ui.prompt is None,
            c.ui.highlight_color is None,
            !c.history.enabled,
            c.history.file is None,
            c.systemd_run.parameters@ == Seq::<String>::empty(),
    {
        Config {
            ui: Default::default(),
            debug: false,
            history: Default::default(),
            systemd_run: Default::default(),
        }
    }
}

} // verus!
