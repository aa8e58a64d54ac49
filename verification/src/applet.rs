//! What the applet decides on each message: which section the popup shows, when the
//! popup opens or closes, and what the configuration becomes. Opening and closing the
//! popup, sampling, saving and launching are left to the caller, who is told which to
//! do.

use vstd::prelude::*;

use crate::config::{
    is_shown, join_keys, move_in_order, moved, normalized_order, visible_sections, Config,
    Section,
};

verus! {

/// The state that the messages change.
pub struct Panel {
    /// Whether the popup exists.
    pub popup_open: bool,
    /// The section that the popup shows, or would show if it were open.
    pub selected: Section,
    /// Whether the popup shows the settings page instead of a section.
    pub showing_settings: bool,
    pub config: Config,
}

pub enum Message {
    /// A sampling period has passed.
    Tick,
    /// Click on a section of the panel.
    OpenSection(Section),
    /// The popup that was asked for now exists.
    PopupOpened,
    /// Click on the system monitor button of the popup's footer.
    OpenSystemMonitor,
    /// Click on the gear of the popup's footer.
    OpenSettings,
    /// Click on the cross of the settings page.
    CloseSettings,
    /// A "show" switch of the settings page.
    ToggleSection(Section, bool),
    /// The +/- buttons of the update interval.
    SetInterval(u32),
    /// The up/down arrows of the order of the sections.
    MoveSection(Section, i32),
    /// A popup was closed from outside; `current` says whether it is the open one.
    PopupClosed(bool),
    /// The stored configuration changed.
    ConfigChanged(Config),
}

/// What the caller does with the popup.
#[derive(Clone, Copy, PartialEq, Eq, Debug, Structural)]
pub enum PopupTask {
    Keep,
    Open,
    Destroy,
}

/// What the caller does after a message.
pub struct Effects {
    pub popup: PopupTask,
    /// Take a sample of every collector, with this section's detail on view.
    pub sample: Option<Option<Section>>,
    /// Refresh the costly part of the collectors for this section right away.
    pub refresh_expensive: Option<Section>,
    /// Store the configuration.
    pub save_config: bool,
    /// Launch the system monitor.
    pub launch_monitor: bool,
}

/// The section whose detail is on view: the popup is open and not on the settings page.
pub open spec fn detail_on_view(p: Panel) -> Option<Section> {
    if p.popup_open && !p.showing_settings {
        Some(p.selected)
    } else {
        None
    }
}

/// `c` with the "show" switch of `s` set to `on`.
pub open spec fn with_shown(c: Config, s: Section, on: bool) -> Config {
    match s {
        Section::Cpu => Config { show_cpu: on, ..c },
        Section::Ram => Config { show_ram: on, ..c },
        Section::Network => Config { show_network: on, ..c },
        Section::Storage => Config { show_storage: on, ..c },
        Section::Temps => Config { show_temps: on, ..c },
        Section::Gpu => Config { show_gpu: on, ..c },
    }
}

/// The section shown after the configuration becomes `c`: the same one while it is
/// shown, else the first visible one, else the same one.
pub open spec fn fallback_selected(c: Config, selected: Section) -> Section {
    if !is_shown(c, selected) && visible_sections(c).len() > 0 {
        visible_sections(c)[0]
    } else {
        selected
    }
}

pub open spec fn clamp_interval(ms: int) -> int {
    if ms < 500 {
        500
    } else if ms > 10_000 {
        10_000
    } else {
        ms
    }
}

/// The popup part of a message: the state after it and what happens to the popup.
pub open spec fn popup_step(p: Panel, m: Message) -> (bool, Section, bool, PopupTask) {
    match m {
        Message::OpenSection(s) => if p.popup_open && p.selected == s {
            (false, p.selected, false, PopupTask::Destroy)
        } else if p.popup_open {
            (true, s, false, PopupTask::Keep)
        } else {
            (false, s, false, PopupTask::Open)
        },
        Message::PopupOpened => (true, p.selected, p.showing_settings, PopupTask::Keep),
        Message::OpenSettings => (
            p.popup_open,
            p.selected,
            true,
            if p.popup_open {
                PopupTask::Keep
            } else {
                PopupTask::Open
            },
        ),
        Message::CloseSettings => (p.popup_open, p.selected, false, PopupTask::Keep),
        Message::PopupClosed(current) => if current {
            (false, p.selected, false, PopupTask::Keep)
        } else {
            (p.popup_open, p.selected, p.showing_settings, PopupTask::Keep)
        },
        Message::ToggleSection(s, on) => (
            p.popup_open,
            fallback_selected(with_shown(p.config, s, on), p.selected),
            p.showing_settings,
            PopupTask::Keep,
        ),
        _ => (p.popup_open, p.selected, p.showing_settings, PopupTask::Keep),
    }
}

/// The interval that the -/+ buttons of the settings page ask for: 500 ms less, never
/// under 500; or 500 ms more, never over 10000.
pub open spec fn stepped_interval(ms: int, up: bool) -> int {
    if up {
        if ms + 500 < 10_000 {
            ms + 500
        } else {
            10_000
        }
    } else if ms - 500 > 500 {
        ms - 500
    } else {
        500
    }
}

pub fn interval_step(ms: u32, up: bool) -> (out: u32)
    requires
        up ==> ms + 500 <= u32::MAX,
    ensures
        out == stepped_interval(ms as int, up),
{
    if up {
        let n = ms + 500;
        if n < 10_000 {
            n
        } else {
            10_000
        }
    } else {
        let n = ms.saturating_sub(500);
        if n > 500 {
            n
        } else {
            500
        }
    }
}

impl Panel {
    /// The state of a freshly started applet with configuration `config`.
    pub fn new(config: Config) -> (p: Panel)
        ensures
            !p.popup_open,
            p.selected == Section::Cpu,
            !p.showing_settings,
            p.config == config,
    {
        Panel { popup_open: false, selected: Section::Cpu, showing_settings: false, config }
    }

    /// The section whose detail is on view: the popup is open and not on the settings
    /// page.
    pub fn visible_detail(&self) -> (out: Option<Section>)
        ensures
            out == detail_on_view(*self),
    {
        if self.popup_open && !self.showing_settings {
            Some(self.selected)
        } else {
            None
        }
    }

    pub fn selected(&self) -> (s: Section)
        ensures
            s == self.selected,
    {
        self.selected
    }

    pub fn showing_settings(&self) -> (b: bool)
        ensures
            b == self.showing_settings,
    {
        self.showing_settings
    }

    /// The sampling period in milliseconds: the configured one, kept within the range
    /// of the plasmoid's spinner.
    pub fn tick_millis(&self) -> (ms: u64)
        ensures
            ms == clamp_interval(self.config.update_interval as int),
    {
        let v = self.config.update_interval;
        if v < 500 {
            500
        } else if v > 10_000 {
            10_000
        } else {
            v as u64
        }
    }

    fn toggle_section(&mut self, s: Section, on: bool)
        ensures
            final(self).config == with_shown(old(self).config, s, on),
            final(self).selected == fallback_selected(final(self).config, old(self).selected),
            final(self).popup_open == old(self).popup_open,
            final(self).showing_settings == old(self).showing_settings,
    {
        match s {
            Section::Cpu => self.config.show_cpu = on,
            Section::Ram => self.config.show_ram = on,
            Section::Network => self.config.show_network = on,
            Section::Storage => self.config.show_storage = on,
            Section::Temps => self.config.show_temps = on,
            Section::Gpu => self.config.show_gpu = on,
        }
        if !self.config.shown(self.selected) {
            let visible = self.config.ordered_sections();
            if visible.len() > 0 {
                self.selected = visible[0];
            }
        }
    }

    fn move_section(&mut self, s: Section, delta: i32)
        ensures
            final(self).config.section_order@ == join_keys(
                moved(normalized_order(old(self).config.section_order@), s, delta as int),
            ),
            final(self).config.update_interval == old(self).config.update_interval,
            final(self).config.show_cpu == old(self).config.show_cpu,
            final(self).config.show_ram == old(self).config.show_ram,
            final(self).config.show_network == old(self).config.show_network,
            final(self).config.show_storage == old(self).config.show_storage,
            final(self).config.show_temps == old(self).config.show_temps,
            final(self).config.show_gpu == old(self).config.show_gpu,
            final(self).popup_open == old(self).popup_open,
            final(self).selected == old(self).selected,
            final(self).showing_settings == old(self).showing_settings,
    {
        let order = move_in_order(self.config.section_order.as_str(), s, delta);
        self.config.section_order = order;
    }

    /// Handles one message. A click on the section that the open popup shows closes the
    /// popup; on another section it switches the popup to it, opening it if needed; in
    /// both cases the settings page is left. When the detail on view changes to a
    /// section, that section's costly data is refreshed at once.
    pub fn update(&mut self, m: Message) -> (e: Effects)
        ensures
            ({
                let (open, selected, settings, task) = popup_step(*old(self), m);
                &&& final(self).popup_open == open
                &&& final(self).selected == selected
                &&& final(self).showing_settings == settings
                &&& e.popup == task
            }),
            match m {
                Message::ToggleSection(s, on) => final(self).config == with_shown(
                    old(self).config,
                    s,
                    on,
                ),
                Message::SetInterval(ms) => final(self).config == Config {
                    update_interval: clamp_interval(ms as int) as u32,
                    ..old(self).config
                },
                Message::ConfigChanged(c) => final(self).config == c,
                Message::MoveSection(s, delta) => {
                    &&& final(self).config.section_order@ == join_keys(
                        moved(normalized_order(old(self).config.section_order@), s, delta as int),
                    )
                    &&& final(self).config.update_interval == old(self).config.update_interval
                    &&& final(self).config.show_cpu == old(self).config.show_cpu
                    &&& final(self).config.show_ram == old(self).config.show_ram
                    &&& final(self).config.show_network == old(self).config.show_network
                    &&& final(self).config.show_storage == old(self).config.show_storage
                    &&& final(self).config.show_temps == old(self).config.show_temps
                    &&& final(self).config.show_gpu == old(self).config.show_gpu
                },
                _ => final(self).config == old(self).config,
            },
            e.save_config == (m is ToggleSection || m is SetInterval || m is MoveSection),
            e.launch_monitor == (m is OpenSystemMonitor),
            e.sample == if m is Tick {
                Some(detail_on_view(*old(self)))
            } else {
                None::<Option<Section>>
            },
            e.refresh_expensive == if detail_on_view(*final(self)) is Some && (m is PopupOpened
                || detail_on_view(*final(self)) != detail_on_view(*old(self))) {
                detail_on_view(*final(self))
            } else {
                None
            },
    {
        let before = self.visible_detail();
        let mut e = Effects {
            popup: PopupTask::Keep,
            sample: None,
            refresh_expensive: None,
            save_config: false,
            launch_monitor: false,
        };
        let mut opened = false;
        match m {
            Message::Tick => {
                e.sample = Some(before);
            },
            Message::ConfigChanged(c) => {
                self.config = c;
            },
            Message::PopupOpened => {
                self.popup_open = true;
                opened = true;
            },
            Message::PopupClosed(current) => {
                if current {
                    self.popup_open = false;
                    self.showing_settings = false;
                }
            },
            Message::OpenSection(s) => {
                if self.popup_open && self.selected == s {
                    self.popup_open = false;
                    self.showing_settings = false;
                    e.popup = PopupTask::Destroy;
                } else {
                    self.selected = s;
                    self.showing_settings = false;
                    if !self.popup_open {
                        e.popup = PopupTask::Open;
                    }
                }
            },
            Message::OpenSystemMonitor => {
                e.launch_monitor = true;
            },
            Message::OpenSettings => {
                self.showing_settings = true;
                if !self.popup_open {
                    e.popup = PopupTask::Open;
                }
            },
            Message::CloseSettings => {
                self.showing_settings = false;
            },
            Message::ToggleSection(s, on) => {
                self.toggle_section(s, on);
                e.save_config = true;
            },
            Message::SetInterval(ms) => {
                self.config.update_interval = if ms < 500 {
                    500
                } else if ms > 10_000 {
                    10_000
                } else {
                    ms
                };
                e.save_config = true;
            },
            Message::MoveSection(s, delta) => {
                self.move_section(s, delta);
                e.save_config = true;
            },
        }
        let after = self.visible_detail();
        match after {
            Some(now) => {
                let changed = match before {
                    Some(b) => b != now,
                    None => true,
                };
                if opened || changed {
                    e.refresh_expensive = Some(now);
                }
            },
            None => {},
        }
        e
    }
}


/// Clicking twice on a section with the popup closed opens the popup on that section
/// and then closes it, leaving the settings page off.
pub proof fn lemma_second_click_closes(p: Panel, s: Section)
    requires
        !p.popup_open,
    ensures
        ({
            let (o1, s1, st1, t1) = popup_step(p, Message::OpenSection(s));
            let p1 = Panel { popup_open: o1, selected: s1, showing_settings: st1, ..p };
            let (o2, s2, st2, t2) = popup_step(p1, Message::PopupOpened);
            let p2 = Panel { popup_open: o2, selected: s2, showing_settings: st2, ..p1 };
            let (o3, s3, st3, t3) = popup_step(p2, Message::OpenSection(s));
            &&& t1 == PopupTask::Open
            &&& detail_on_view(p2) == Some(s)
            &&& t3 == PopupTask::Destroy
            &&& !o3 && s3 == s && !st3
        }),
{
}

/// With the popup open, a click on another section switches the detail to it without
/// closing the popup, even from the settings page.
pub proof fn lemma_other_section_switches(p: Panel, s: Section)
    requires
        p.popup_open,
        p.selected != s,
    ensures
        ({
            let (o, sel, st, t) = popup_step(p, Message::OpenSection(s));
            &&& o && sel == s && !st
            &&& t == PopupTask::Keep
            &&& detail_on_view(Panel { popup_open: o, selected: sel, showing_settings: st, ..p })
                == Some(s)
        }),
{
}

/// Turning a section off never leaves the popup on a hidden section while some section
/// is still visible.
pub proof fn lemma_toggle_keeps_selection_visible(p: Panel, s: Section, on: bool)
    ensures
        ({
            let c = with_shown(p.config, s, on);
            let (_, sel, _, _) = popup_step(p, Message::ToggleSection(s, on));
            visible_sections(c).len() > 0 ==> is_shown(c, sel)
        }),
{
    let c = with_shown(p.config, s, on);
    crate::config::lemma_visible_sections(c);
    if visible_sections(c).len() > 0 {
        assert(visible_sections(c).contains(visible_sections(c)[0]));
    }
}

/// A popup closed from outside leaves the settings page, so the next opening shows the
/// section asked for; the close of some other popup changes nothing.
pub proof fn lemma_outside_close(p: Panel)
    ensures
        ({
            let (o, sel, st, t) = popup_step(p, Message::PopupClosed(true));
            !o && !st && sel == p.selected && t == PopupTask::Keep
        }),
        popup_step(p, Message::PopupClosed(false)) == (
            p.popup_open,
            p.selected,
            p.showing_settings,
            PopupTask::Keep,
        ),
{
}

/// A click on a section, from any state, leaves the settings page: the click asks to see
/// that section (or to close the popup).
pub proof fn lemma_section_click_leaves_settings(p: Panel, s: Section)
    ensures
        ({
            let (_, _, st, _) = popup_step(p, Message::OpenSection(s));
            !st
        }),
{
}

/// The sampling period stays within the range of the plasmoid's spinner, whatever the
/// stored interval.
pub proof fn lemma_sampling_period_in_range(ms: u32)
    ensures
        500 <= clamp_interval(ms as int) <= 10_000,
{
}

/// The cross of the settings page goes back to the detail: the settings page is off,
/// the popup and the selection stay, and with the popup open the selected section's
/// detail is on view again. Opening the settings and closing them gives back the panel
/// as it was.
pub proof fn lemma_close_settings_returns_to_detail(p: Panel)
    ensures
        ({
            let (o, sel, st, t) = popup_step(p, Message::CloseSettings);
            &&& o == p.popup_open && sel == p.selected && !st && t == PopupTask::Keep
            &&& p.popup_open ==> detail_on_view(Panel { popup_open: o, selected: sel, showing_settings: st, ..p })
                == Some(p.selected)
        }),
        p.popup_open && !p.showing_settings ==> ({
            let (o1, s1, st1, _) = popup_step(p, Message::OpenSettings);
            let p1 = Panel { popup_open: o1, selected: s1, showing_settings: st1, ..p };
            let (o2, s2, st2, _) = popup_step(p1, Message::CloseSettings);
            &&& detail_on_view(p1) is None
            &&& o2 == p.popup_open && s2 == p.selected && st2 == p.showing_settings
        }),
{
}

} // verus!
