//! Decisions the host shell carries out: window visibility toggles, the
//! closed tray-menu dispatch table, and fixed per-user paths.

use vstd::prelude::*;
use vstd::string::StringExecFns;

verus! {

/// Compare two string slices by content.
pub fn str_eq(a: &str, b: &str) -> (r: bool)
    ensures
        r == (a@ == b@),
{
    let sa = String::from_str(a);
    let sb = String::from_str(b);
    sa == sb
}

/// The host shell's window visibility state: whether the main window and
/// the debug window are currently hidden.
#[derive(Clone, Copy, PartialEq, Eq, Structural, Debug)]
pub struct AppState {
    pub main_is_hidden: bool,
    pub debug_is_hidden: bool,
}

/// What the shell should do with a window after a toggle decision.
#[derive(Clone, Copy, PartialEq, Eq, Structural, Debug)]
pub enum WindowDirective {
    ShowAndFocus,
    Hide,
}

/// What the shell should do with the lazily created debug window.
#[derive(Clone, Copy, PartialEq, Eq, Structural, Debug)]
pub enum DebugDirective {
    ShowAndFocus,
    Hide,
    CreateVisible,
}

impl AppState {
    /// At startup the main window is visible and the debug window absent,
    /// so hidden.
    pub fn new() -> (s: Self)
        ensures
            !s.main_is_hidden,
            s.debug_is_hidden,
    {
        Self { main_is_hidden: false, debug_is_hidden: true }
    }

    /// Closing the main window hides it instead of destroying it.
    pub fn on_main_close_requested(&mut self)
        ensures
            final(self).main_is_hidden,
            final(self).debug_is_hidden == old(self).debug_is_hidden,
    {
        self.main_is_hidden = true;
    }

    /// Reopening the application brings the main window back.
    pub fn on_reopen(&mut self)
        ensures
            !final(self).main_is_hidden,
            final(self).debug_is_hidden == old(self).debug_is_hidden,
    {
        self.main_is_hidden = false;
    }

    /// Toggle the main window from the tray menu: show it when hidden, hide
    /// it when visible.
    pub fn toggle_main(&mut self) -> (r: WindowDirective)
        ensures
            final(self).main_is_hidden == !old(self).main_is_hidden,
            final(self).debug_is_hidden == old(self).debug_is_hidden,
            r == WindowDirective::ShowAndFocus <==> old(self).main_is_hidden,
    {
        if self.main_is_hidden {
            self.main_is_hidden = false;
            WindowDirective::ShowAndFocus
        } else {
            self.main_is_hidden = true;
            WindowDirective::Hide
        }
    }

    /// Toggle the debug window from the tray menu: create it visibly when
    /// it does not exist yet, otherwise show or hide it by its tracked
    /// state.
    pub fn toggle_debug(&mut self, window_exists: bool) -> (r: DebugDirective)
        ensures
            final(self).main_is_hidden == old(self).main_is_hidden,
            !window_exists ==> r == DebugDirective::CreateVisible && !final(self).debug_is_hidden,
            window_exists && old(self).debug_is_hidden ==> r == DebugDirective::ShowAndFocus
                && !final(self).debug_is_hidden,
            window_exists && !old(self).debug_is_hidden ==> r == DebugDirective::Hide
                && final(self).debug_is_hidden,
    {
        if window_exists {
            if self.debug_is_hidden {
                self.debug_is_hidden = false;
                DebugDirective::ShowAndFocus
            } else {
                self.debug_is_hidden = true;
                DebugDirective::Hide
            }
        } else {
            self.debug_is_hidden = false;
            DebugDirective::CreateVisible
        }
    }
}

/// Decide the debug-window command, which goes by the window's actual
/// visibility rather than the tracked state: hide a visible window, show a
/// hidden one, create the window when it does not exist.
pub fn plan_debug_toggle(window_exists: bool, is_visible: bool) -> (r: DebugDirective)
    ensures
        !window_exists ==> r == DebugDirective::CreateVisible,
        window_exists && is_visible ==> r == DebugDirective::Hide,
        window_exists && !is_visible ==> r == DebugDirective::ShowAndFocus,
{
    if window_exists {
        if is_visible {
            DebugDirective::Hide
        } else {
            DebugDirective::ShowAndFocus
        }
    } else {
        DebugDirective::CreateVisible
    }
}

/// The tray menu's commands, with an explicit branch for an identifier the
/// table does not know.
#[derive(Clone, Copy, PartialEq, Eq, Structural, Debug)]
pub enum MenuCommand {
    ToggleMain,
    ToggleDebug,
    StartStop,
    ShowStatus,
    ViewScreenshots,
    Quit,
    Unrecognized,
}

/// The closed dispatch table from a menu identifier to its command.
pub fn dispatch_menu(id: &str) -> (r: MenuCommand)
    ensures
        r == MenuCommand::ToggleMain <==> id@ == "toggle_main"@,
        r == MenuCommand::ToggleDebug <==> id@ == "toggle_debug"@,
        r == MenuCommand::StartStop <==> id@ == "start_stop"@,
        r == MenuCommand::ShowStatus <==> id@ == "status"@,
        r == MenuCommand::ViewScreenshots <==> id@ == "view_screenshots"@,
        r == MenuCommand::Quit <==> id@ == "quit"@,
{
    proof {
        reveal_strlit("toggle_main");
        reveal_strlit("toggle_debug");
        reveal_strlit("start_stop");
        reveal_strlit("status");
        reveal_strlit("view_screenshots");
        reveal_strlit("quit");
        assert("toggle_main"@.len() == 11);
        assert("toggle_debug"@.len() == 12);
        assert("start_stop"@.len() == 10);
        assert("status"@.len() == 6);
        assert("view_screenshots"@.len() == 16);
        assert("quit"@.len() == 4);
    }
    if str_eq(id, "toggle_main") {
        MenuCommand::ToggleMain
    } else if str_eq(id, "toggle_debug") {
        MenuCommand::ToggleDebug
    } else if str_eq(id, "start_stop") {
        MenuCommand::StartStop
    } else if str_eq(id, "status") {
        MenuCommand::ShowStatus
    } else if str_eq(id, "view_screenshots") {
        MenuCommand::ViewScreenshots
    } else if str_eq(id, "quit") {
        MenuCommand::Quit
    } else {
        MenuCommand::Unrecognized
    }
}

/// The per-user folder where the engine's screenshots are kept.
pub fn screenshots_path(home: &str) -> (r: String)
    ensures
        r@ == home@ + "/Pictures/NoPickie/screenshots"@,
{
    String::from_str(home).concat("/Pictures/NoPickie/screenshots")
}

} // verus!
