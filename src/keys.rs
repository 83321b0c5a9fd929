use vstd::prelude::*;

use crate::registry::is_valid_register_key;
use crate::clip::push_char;
use crate::view::{AppMode, RegisterFilter, Session};

verus! {

/// A key as the list view sees it.
#[derive(Debug, Clone, Copy, PartialEq, Eq, Structural)]
pub enum Key {
    Char(char),
    Up,
    Down,
    Home,
    End,
    PageUp,
    PageDown,
    Enter,
    Esc,
    Backspace,
    Other,
}

/// A key with its modifiers; `plain` when no modifier was held.
#[derive(Debug, Clone, Copy, PartialEq, Eq, Structural)]
pub struct KeyPress {
    pub key: Key,
    pub ctrl: bool,
    pub alt: bool,
    pub plain: bool,
}

/// Outside work a key asks of the caller.
#[derive(Debug, Clone, Copy, PartialEq, Eq, Structural)]
pub enum Effect {
    Nothing,
    /// Copy the selected entry (then call `finish_select`).
    CopySelection,
    ReloadTheme,
    SaveTheme,
    CycleTheme,
    /// List the themes and call `open_theme_picker`.
    OpenThemePicker,
    /// Switch to the theme at this picker position.
    ApplyTheme(usize),
}

/// An ASCII digit.
pub open spec fn is_digit(c: char) -> bool {
    '0' <= c && c <= '9'
}

impl Session {
    /// Show the theme picker over `count` themes with `current` highlighted.
    pub fn open_theme_picker(&mut self, count: usize, current: usize)
        ensures
            *final(self) == (Session {
                mode: AppMode::ThemePicker,
                theme_picker_len: count,
                theme_picker_selected: if current < count { current } else { 0 },
                ..*old(self)
            }),
    {
        self.theme_picker_len = count;
        self.theme_picker_selected = if current < count { current } else { 0 };
        self.mode = AppMode::ThemePicker;
    }

    fn picker_key(&mut self, press: KeyPress) -> (r: Effect)
        requires
            old(self).mode == AppMode::ThemePicker,
        ensures
            press.key == Key::Esc ==> *final(self) == (Session { mode: AppMode::Normal, ..*old(self) })
                && r == Effect::Nothing,
            press.key == Key::Enter && old(self).theme_picker_selected < old(self).theme_picker_len
                ==> *final(self) == (Session { mode: AppMode::Normal, ..*old(self) }) && r
                == Effect::ApplyTheme(old(self).theme_picker_selected),
            (press.key == Key::Up || press.key == Key::Char('k')) ==> *final(self) == (Session {
                theme_picker_selected: if old(self).theme_picker_selected > 0 {
                    (old(self).theme_picker_selected - 1) as usize
                } else {
                    0
                },
                ..*old(self)
            }),
            (press.key == Key::Down || press.key == Key::Char('j')) ==> *final(self) == (Session {
                theme_picker_selected: if old(self).theme_picker_selected + 1 < old(self).theme_picker_len {
                    (old(self).theme_picker_selected + 1) as usize
                } else {
                    old(self).theme_picker_selected
                },
                ..*old(self)
            }),
            (press.key == Key::Home || press.key == Key::Char('g')) ==> *final(self) == (Session {
                theme_picker_selected: 0,
                ..*old(self)
            }),
            (press.key == Key::End || press.key == Key::Char('G')) ==> *final(self) == (Session {
                theme_picker_selected: if old(self).theme_picker_len > 0 {
                    (old(self).theme_picker_len - 1) as usize
                } else {
                    0
                },
                ..*old(self)
            }),
            final(self).history == old(self).history,
            final(self).registers == old(self).registers,
    {
        match press.key {
            Key::Esc => {
                self.mode = AppMode::Normal;
            },
            Key::Enter => {
                if self.theme_picker_selected < self.theme_picker_len {
                    self.mode = AppMode::Normal;
                    return Effect::ApplyTheme(self.theme_picker_selected);
                }
            },
            Key::Up | Key::Char('k') => {
                if self.theme_picker_selected > 0 {
                    self.theme_picker_selected = self.theme_picker_selected - 1;
                }
            },
            Key::Down | Key::Char('j') => {
                if self.theme_picker_selected < usize::MAX && self.theme_picker_selected + 1
                    < self.theme_picker_len {
                    self.theme_picker_selected = self.theme_picker_selected + 1;
                }
            },
            Key::Home | Key::Char('g') => {
                self.theme_picker_selected = 0;
            },
            Key::End | Key::Char('G') => {
                self.theme_picker_selected = if self.theme_picker_len > 0 {
                    self.theme_picker_len - 1
                } else {
                    0
                };
            },
            _ => {},
        }
        Effect::Nothing
    }

    fn numeric_key(&mut self, press: KeyPress)
        requires
            old(self).wf(),
            old(self).mode == AppMode::Numeric,
        ensures
            final(self).wf(),
            (press.key matches Key::Char(c) && is_digit(c)) ==> final(self).mode == AppMode::Numeric
                && final(self).numeric_prefix@ == old(self).numeric_prefix@.push(press.key->Char_0)
                && final(self).selected_index == old(self).selected_index,
            !(press.key matches Key::Char(c) && is_digit(c)) ==> final(self).mode == AppMode::Normal
                && final(self).numeric_prefix@.len() == 0,
            final(self).history == old(self).history,
            final(self).registers == old(self).registers,
            final(self).search_query == old(self).search_query,
            final(self).search_results == old(self).search_results,
            final(self).register_filter == old(self).register_filter,
            final(self).should_quit == old(self).should_quit,
    {
        match press.key {
            Key::Char(c) => {
                if '0' <= c && c <= '9' {
                    push_char(&mut self.numeric_prefix, c);
                    return ;
                }
                if c == 'j' {
                    let n = self.prefix_count(1);
                    self.move_down(n);
                } else if c == 'k' {
                    let n = self.prefix_count(1);
                    self.move_up(n);
                } else if c == 'd' && press.ctrl {
                    let n = self.half_page_size();
                    let m = self.prefix_count(1);
                    self.move_down(saturating_mul(n, m));
                } else if c == 'u' && press.ctrl {
                    let n = self.half_page_size();
                    let m = self.prefix_count(1);
                    self.move_up(saturating_mul(n, m));
                }
            },
            Key::Enter => {
                let n = self.prefix_count(0);
                self.jump_to_number(n);
            },
            _ => {},
        }
        self.numeric_prefix = String::new();
        self.mode = AppMode::Normal;
    }

    fn normal_key(&mut self, press: KeyPress) -> (r: Effect)
        requires
            old(self).wf(),
            old(self).mode == AppMode::Normal,
        ensures
            final(self).wf(),
            press.key matches Key::Char(c) && is_digit(c) && press.plain ==> final(self).mode
                == AppMode::Numeric && final(self).numeric_prefix@ == old(self).numeric_prefix@.push(
                press.key->Char_0,
            ) && r == Effect::Nothing,
            (press.key == Key::Down || press.key == Key::Char('j')) ==> *final(self) == (Session {
                selected_index: if old(self).spec_visible().len() == 0 {
                    old(self).selected_index
                } else if old(self).selected_index + 1 < old(self).spec_visible().len() {
                    (old(self).selected_index + 1) as usize
                } else {
                    (old(self).spec_visible().len() - 1) as usize
                },
                ..*old(self)
            }),
            (press.key == Key::Up || press.key == Key::Char('k')) ==> *final(self) == (Session {
                selected_index: if old(self).selected_index >= 1 {
                    (old(self).selected_index - 1) as usize
                } else {
                    0
                },
                ..*old(self)
            }),
            press.key == Key::Enter ==> r == Effect::CopySelection && *final(self) == *old(self),
            press.key == Key::Char('/') ==> *final(self) == (Session { mode: AppMode::Search, ..*old(self) }),
            press.key == Key::Char('m') ==> *final(self) == (Session {
                mode: AppMode::RegisterAssign,
                register_key: None,
                ..*old(self)
            }),
            press.key == Key::Char('?') ==> *final(self) == (Session { mode: AppMode::Help, ..*old(self) }),
            press.key == Key::Char('D') ==> *final(self) == (Session { mode: AppMode::Confirm, ..*old(self) }),
            press.key == Key::Char('q') ==> *final(self) == (Session { should_quit: true, ..*old(self) }),
            press.key == Key::Char('T') ==> r == Effect::OpenThemePicker && *final(self) == *old(self),
            press.key == Key::Char('r') && press.ctrl ==> r == Effect::ReloadTheme && *final(self) == *old(self),
            press.key == Key::Esc && old(self).search_query@.len() == 0 && old(self).register_filter
                == RegisterFilter::All ==> *final(self) == (Session { should_quit: true, ..*old(self) }),
    {
        let ctrl = press.ctrl;
        match press.key {
            Key::Char(c) => {
                if '0' <= c && c <= '9' && press.plain {
                    push_char(&mut self.numeric_prefix, c);
                    self.mode = AppMode::Numeric;
                    Effect::Nothing
                } else if c == 'j' {
                    self.move_down(1);
                    Effect::Nothing
                } else if c == 'k' {
                    self.move_up(1);
                    Effect::Nothing
                } else if c == 'd' && ctrl {
                    let n = self.half_page_size();
                    self.move_down(n);
                    Effect::Nothing
                } else if c == 'u' && ctrl {
                    let n = self.half_page_size();
                    self.move_up(n);
                    Effect::Nothing
                } else if c == 'r' && ctrl {
                    Effect::ReloadTheme
                } else if c == 'm' {
                    self.enter_register_mode();
                    Effect::Nothing
                } else if c == 'p' {
                    let _ = self.toggle_pin();
                    Effect::Nothing
                } else if c == '/' {
                    self.enter_search_mode();
                    Effect::Nothing
                } else if c == '?' {
                    self.toggle_help();
                    Effect::Nothing
                } else if c == '\'' {
                    self.toggle_temporary_filter();
                    Effect::Nothing
                } else if c == '"' {
                    self.toggle_permanent_filter();
                    Effect::Nothing
                } else if c == 'v' {
                    self.toggle_view_mode();
                    Effect::Nothing
                } else if c == 't' && press.alt {
                    Effect::SaveTheme
                } else if c == 't' && ctrl {
                    Effect::CycleTheme
                } else if c == 'T' {
                    Effect::OpenThemePicker
                } else if c == 'd' {
                    let _ = self.delete_entry();
                    Effect::Nothing
                } else if c == 'D' {
                    self.enter_confirm_clear_all();
                    Effect::Nothing
                } else if c == 'q' {
                    self.quit();
                    Effect::Nothing
                } else {
                    Effect::Nothing
                }
            },
            Key::Down => {
                self.move_down(1);
                Effect::Nothing
            },
            Key::Up => {
                self.move_up(1);
                Effect::Nothing
            },
            Key::Home => {
                self.jump_to_top();
                Effect::Nothing
            },
            Key::End => {
                self.jump_to_bottom();
                Effect::Nothing
            },
            Key::PageUp => {
                let n = self.full_page_size();
                self.move_up(n);
                Effect::Nothing
            },
            Key::PageDown => {
                let n = self.full_page_size();
                self.move_down(n);
                Effect::Nothing
            },
            Key::Enter => Effect::CopySelection,
            Key::Esc => {
                if !self.search_query.as_str().is_empty() {
                    self.clear_search();
                } else if self.register_filter != RegisterFilter::All {
                    self.register_filter = RegisterFilter::All;
                    self.selected_index = 0;
                } else {
                    self.quit();
                }
                Effect::Nothing
            },
            _ => Effect::Nothing,
        }
    }

    /// React to a key in the current mode: change the session, and name any
    /// outside work (copying, themes) for the caller to do.
    pub fn handle_key(&mut self, press: KeyPress) -> (r: Result<Effect, crate::view::ActionError>)
        requires
            old(self).wf(),
        ensures
            final(self).wf(),
            old(self).mode == AppMode::Help ==> *final(self) == (Session { mode: AppMode::Normal, ..*old(self) })
                && r == Ok::<Effect, crate::view::ActionError>(Effect::Nothing),
            old(self).mode == AppMode::Confirm && (press.key == Key::Char('y') || press.key == Key::Char('Y'))
                ==> final(self).history.model() == old(self).history.model().filter(
                crate::history::protected_only(),
            ) && final(self).mode == AppMode::Normal,
            old(self).mode == AppMode::Confirm && (press.key == Key::Char('n') || press.key == Key::Char('N')
                || press.key == Key::Esc) ==> *final(self) == (Session { mode: AppMode::Normal, ..*old(self) }),
            old(self).mode == AppMode::RegisterAssign && press.key == Key::Esc ==> *final(self) == (Session {
                mode: AppMode::Normal,
                register_key: None,
                ..*old(self)
            }),
            old(self).mode == AppMode::Search && press.key == Key::Esc ==> *final(self) == (Session {
                mode: AppMode::Normal,
                ..*old(self)
            }),
            old(self).mode == AppMode::Search && press.key == Key::Enter ==> *final(self) == (Session {
                mode: AppMode::Normal,
                ..*old(self)
            }) && r == Ok::<Effect, crate::view::ActionError>(Effect::CopySelection),
            old(self).mode == AppMode::Search && (press.key matches Key::Char(c)) ==> final(self).search_query@
                == old(self).search_query@.push(press.key->Char_0) && final(self).selected_index == 0,
            old(self).mode == AppMode::Normal && press.key == Key::Enter ==> r == Ok::<
                Effect,
                crate::view::ActionError,
            >(Effect::CopySelection),
            old(self).mode == AppMode::Normal && press.key == Key::Char('q') ==> final(self).should_quit,
            old(self).mode == AppMode::Numeric && !(press.key matches Key::Char(c) && is_digit(c))
                ==> final(self).mode == AppMode::Normal && final(self).numeric_prefix@.len() == 0,
            old(self).mode == AppMode::ThemePicker && press.key == Key::Enter && old(self).theme_picker_selected
                < old(self).theme_picker_len ==> r == Ok::<Effect, crate::view::ActionError>(
                Effect::ApplyTheme(old(self).theme_picker_selected),
            ) && final(self).mode == AppMode::Normal,
    {
        match self.mode {
            AppMode::Normal => Ok(self.normal_key(press)),
            AppMode::Search => {
                match press.key {
                    Key::Backspace => self.search_backspace(),
                    Key::Up => self.move_up(1),
                    Key::Down => self.move_down(1),
                    Key::Esc => self.exit_search_mode(),
                    Key::Enter => {
                        self.mode = AppMode::Normal;
                        return Ok(Effect::CopySelection);
                    },
                    Key::Char(c) => self.search_input_char(c),
                    _ => {},
                }
                Ok(Effect::Nothing)
            },
            AppMode::RegisterAssign => {
                match press.key {
                    Key::Char(c) => {
                        if is_valid_register_key(c) {
                            match self.assign_register(c) {
                                Ok(()) => {},
                                Err(e) => {
                                    return Err(e);
                                },
                            }
                        }
                    },
                    Key::Esc => {
                        self.mode = AppMode::Normal;
                        self.register_key = None;
                    },
                    _ => {},
                }
                Ok(Effect::Nothing)
            },
            AppMode::Confirm => {
                match press.key {
                    Key::Char('y') | Key::Char('Y') => self.clear_all_unpinned(),
                    Key::Char('n') | Key::Char('N') | Key::Esc => self.cancel_confirm(),
                    _ => {},
                }
                Ok(Effect::Nothing)
            },
            AppMode::Help => {
                self.mode = AppMode::Normal;
                Ok(Effect::Nothing)
            },
            AppMode::Numeric => {
                self.numeric_key(press);
                Ok(Effect::Nothing)
            },
            AppMode::ThemePicker => Ok(self.picker_key(press)),
        }
    }
}

fn saturating_mul(a: usize, b: usize) -> (r: usize)
    ensures
        r == if a * b <= usize::MAX { a * b } else { usize::MAX as int },
{
    if a == 0 || b <= usize::MAX / a {
        proof {
            if a > 0 {
                assert(a * b <= a * (usize::MAX / a)) by (nonlinear_arith)
                    requires b <= usize::MAX / a, a > 0;
                assert(a * (usize::MAX / a) <= usize::MAX) by (nonlinear_arith)
                    requires a > 0;
            }
        }
        a * b
    } else {
        proof {
            assert(a * b > usize::MAX) by (nonlinear_arith)
                requires b > usize::MAX / a, a > 0;
        }
        usize::MAX
    }
}

} // verus!
