//! Keys and modifier keys, as plain values.

use vstd::prelude::*;

verus! {

/// Which modifier keys are held down.
#[derive(Clone, Copy, Debug, Default, PartialEq, Eq, Hash, Structural)]
pub struct Modifiers {
    /// Either alt key.
    pub alt: bool,
    /// Either control key.
    pub ctrl: bool,
    /// Either shift key.
    pub shift: bool,
    /// The command key of a Mac keyboard.
    pub mac_cmd: bool,
    /// The key that commands are given with: control, or command on a Mac.
    pub command: bool,
}

impl Modifiers {
    /// No modifier key is down.
    pub open spec fn none_down(self) -> bool {
        !self.alt && !self.ctrl && !self.shift && !self.mac_cmd && !self.command
    }

    /// The command key is down, and neither alt nor shift.
    pub open spec fn only_command_down(self) -> bool {
        !self.alt && !self.shift && self.command
    }

    /// The control and command keys that are down are those that `pattern` asks for;
    /// alt and shift are not looked at.
    pub open spec fn ctrl_keys_match(self, pattern: Modifiers) -> bool {
        if pattern.mac_cmd {
            self.mac_cmd && pattern.ctrl == self.ctrl
        } else if !pattern.ctrl && !pattern.command {
            !self.ctrl && !self.command
        } else {
            (pattern.ctrl ==> self.ctrl) && (pattern.command ==> self.command)
        }
    }

    /// No key.
    pub fn none() -> (m: Modifiers)
        ensures
            m.none_down(),
    {
        Modifiers { alt: false, ctrl: false, shift: false, mac_cmd: false, command: false }
    }

    /// The alt key alone.
    pub fn alt() -> (m: Modifiers)
        ensures
            m == (Modifiers { alt: true, ..Modifiers::none_spec() }),
    {
        Modifiers { alt: true, ctrl: false, shift: false, mac_cmd: false, command: false }
    }

    /// The control key alone.
    pub fn ctrl() -> (m: Modifiers)
        ensures
            m == (Modifiers { ctrl: true, ..Modifiers::none_spec() }),
    {
        Modifiers { alt: false, ctrl: true, shift: false, mac_cmd: false, command: false }
    }

    /// The shift key alone.
    pub fn shift() -> (m: Modifiers)
        ensures
            m == (Modifiers { shift: true, ..Modifiers::none_spec() }),
    {
        Modifiers { alt: false, ctrl: false, shift: true, mac_cmd: false, command: false }
    }

    /// The value with no key down.
    pub open spec fn none_spec() -> Modifiers {
        Modifiers { alt: false, ctrl: false, shift: false, mac_cmd: false, command: false }
    }

    /// The keys of `self` together with those of `other`.
    pub fn plus(self, other: Modifiers) -> (m: Modifiers)
        ensures
            m.alt == (self.alt || other.alt),
            m.ctrl == (self.ctrl || other.ctrl),
            m.shift == (self.shift || other.shift),
            m.mac_cmd == (self.mac_cmd || other.mac_cmd),
            m.command == (self.command || other.command),
    {
        Modifiers {
            alt: self.alt || other.alt,
            ctrl: self.ctrl || other.ctrl,
            shift: self.shift || other.shift,
            mac_cmd: self.mac_cmd || other.mac_cmd,
            command: self.command || other.command,
        }
    }

    /// `egui::Modifiers::is_none`: the value equals the default one, in which every
    /// field is false.
    #[verifier::external_body]
    pub(crate) fn is_none(&self) -> (b: bool)
        ensures
            b == self.none_down(),
    {
        egui::Modifiers {
            alt: self.alt,
            ctrl: self.ctrl,
            shift: self.shift,
            mac_cmd: self.mac_cmd,
            command: self.command,
        }.is_none()
    }

    /// `egui::Modifiers::command_only`: command is set, alt and shift are not.
    #[verifier::external_body]
    pub(crate) fn command_only(&self) -> (b: bool)
        ensures
            b == self.only_command_down(),
    {
        egui::Modifiers {
            alt: self.alt,
            ctrl: self.ctrl,
            shift: self.shift,
            mac_cmd: self.mac_cmd,
            command: self.command,
        }.command_only()
    }

    /// `egui::Modifiers::cmd_ctrl_matches`: a pattern with `mac_cmd` wants `mac_cmd`
    /// down and the same `ctrl`; one with neither `ctrl` nor `command` wants neither
    /// down; any other wants each of the two that it names down.
    #[verifier::external_body]
    pub(crate) fn cmd_ctrl_matches(&self, pattern: Modifiers) -> (b: bool)
        ensures
            b == self.ctrl_keys_match(pattern),
    {
        egui::Modifiers {
            alt: self.alt,
            ctrl: self.ctrl,
            shift: self.shift,
            mac_cmd: self.mac_cmd,
            command: self.command,
        }.cmd_ctrl_matches(egui::Modifiers {
            alt: pattern.alt,
            ctrl: pattern.ctrl,
            shift: pattern.shift,
            mac_cmd: pattern.mac_cmd,
            command: pattern.command,
        })
    }
}

/// The keys that the grid's own shortcuts use.
#[derive(Clone, Copy, Debug, PartialEq, Eq, Hash, Structural)]
pub enum Key {
    ArrowDown,
    ArrowLeft,
    ArrowRight,
    ArrowUp,
    Escape,
    Tab,
    Backspace,
    Enter,
    Delete,
    Home,
    End,
    PageUp,
    PageDown,
    A,
    C,
    D,
    V,
    X,
    Y,
    Z,
}

/// A key pressed together with modifier keys.
#[derive(Clone, Copy, Debug, PartialEq, Eq, Hash, Structural)]
pub struct KeyboardShortcut {
    pub modifiers: Modifiers,
    pub logical_key: Key,
}

impl KeyboardShortcut {
    /// The shortcut of `logical_key` with `modifiers`.
    pub fn new(modifiers: Modifiers, logical_key: Key) -> (s: KeyboardShortcut)
        ensures
            s.modifiers == modifiers,
            s.logical_key == logical_key,
    {
        KeyboardShortcut { modifiers, logical_key }
    }
}

} // verus!
