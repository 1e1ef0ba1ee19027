use vstd::prelude::*;

verus! {

/// What the game loop should do once the menu closes.
#[derive(Clone, Copy, Debug, PartialEq, Eq, Structural)]
pub enum NextGameStep {
    Exit,
    RecreateIO,
}

/// Which pane of the menu is open.
#[derive(Clone, Copy, Debug, PartialEq, Eq, Structural)]
pub enum Mode {
    New,
    Load,
    Module,
    Mods,
    Options,
    Links,
    NoChoice,
}

/// One selectable display configuration, by plain identifier and name.
#[derive(Debug)]
pub struct DisplayConfiguration {
    pub index: usize,
    pub name: String,
}

/// The main menu's state: the chosen pane, the step to take on exit, and
/// the display configurations offered by the options pane.
#[derive(Debug)]
pub struct MainMenu {
    pub next_step: Option<NextGameStep>,
    pub mode: Mode,
    pub display_configurations: Vec<DisplayConfiguration>,
}

impl MainMenu {
    pub fn new(display_configurations: Vec<DisplayConfiguration>) -> (m: MainMenu)
        ensures
            m.next_step is None,
            m.mode == Mode::NoChoice,
            m.display_configurations@ == display_configurations@,
    {
        MainMenu { next_step: None, mode: Mode::NoChoice, display_configurations }
    }

    /// Returns the menu to its no-choice pane.
    pub fn reset(&mut self)
        ensures
            final(self).mode == Mode::NoChoice,
            final(self).next_step == old(self).next_step,
            final(self).display_configurations == old(self).display_configurations,
    {
        self.mode = Mode::NoChoice;
    }

    /// Whether the menu loop should stop: a next step has been chosen.
    pub fn is_exit(&self) -> (r: bool)
        ensures
            r == (self.next_step is Some),
    {
        self.next_step.is_some()
    }

    /// Takes the chosen next step, leaving none chosen.
    pub fn next_step(&mut self) -> (r: Option<NextGameStep>)
        ensures
            r == old(self).next_step,
            final(self).next_step is None,
            final(self).mode == old(self).mode,
            final(self).display_configurations == old(self).display_configurations,
    {
        self.next_step.take()
    }

    /// Asks the game loop to rebuild the display backend.
    pub fn recreate_io(&mut self)
        ensures
            final(self).next_step == Some(NextGameStep::RecreateIO),
            final(self).mode == old(self).mode,
            final(self).display_configurations == old(self).display_configurations,
    {
        self.next_step = Some(NextGameStep::RecreateIO);
    }
}

/// Drives the menu until a next step is chosen.
#[derive(Debug)]
pub struct LoopUpdater {
    pub view: MainMenu,
}

impl LoopUpdater {
    pub fn new(view: MainMenu) -> (u: LoopUpdater)
        ensures
            u.view.next_step == view.next_step,
            u.view.mode == view.mode,
    {
        LoopUpdater { view }
    }

    pub fn is_exit(&self) -> (r: bool)
        ensures
            r == (self.view.next_step is Some),
    {
        self.view.is_exit()
    }
}

} // verus!
