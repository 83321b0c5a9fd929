use vstd::prelude::*;
use vstd::string::*;

use crate::clip::{push_char, ClipContent, ContentModel, EntryModel};
use crate::history::{has_id, id_pos, models, ClipboardHistory};
use crate::registry::{is_register_key, lemma_clear_links, lemma_linked_frame, without_id, RegisterError, Registry};
use crate::search_index::{candidates, matched_query, sort_desc, SearchIndex, SearchMode};

verus! {

/// Which keybindings are active.
#[derive(Debug, Clone, Copy, PartialEq, Eq, Structural)]
pub enum AppMode {
    /// Browsing.
    Normal,
    /// Typing a search query.
    Search,
    /// Waiting for a register key.
    RegisterAssign,
    /// Confirming the clearing of the history.
    Confirm,
    /// Help overlay.
    Help,
    /// Typing a numeric prefix.
    Numeric,
    /// Choosing a theme.
    ThemePicker,
}

impl Default for AppMode {
    fn default() -> (r: AppMode)
        ensures
            r == AppMode::Normal,
    {
        AppMode::Normal
    }
}

/// Which entries the list shows, by register.
#[derive(Debug, Clone, Copy, PartialEq, Eq, Structural)]
pub enum RegisterFilter {
    /// All entries.
    All,
    /// Entries holding a temporary register.
    Temporary,
    /// Entries holding a permanent register.
    Permanent,
    /// Pinned entries.
    Pinned,
}

/// List layout.
#[derive(Debug, Clone, Copy, PartialEq, Eq, Structural)]
pub enum ViewMode {
    /// One row per entry.
    Compact,
    /// Two rows per entry.
    Comfortable,
}

/// Why a list action did nothing.
#[derive(Debug, Clone, Copy, PartialEq, Eq, Structural)]
pub enum ActionError {
    /// No entry is selected.
    NoClipSelected,
    /// The selected id is not in the history.
    ClipNotFound,
    /// File references cannot be copied back.
    UnsupportedContent,
    /// A register operation was refused.
    Register(RegisterError),
}

/// Relies on `String::pop`: the last character is removed, if any.
#[verifier::external_body]
fn pop_char(s: &mut String)
    ensures
        old(s)@.len() == 0 ==> final(s)@ == old(s)@,
        old(s)@.len() > 0 ==> final(s)@ == old(s)@.drop_last(),
{
    s.pop();
}

/// Every character is an ASCII digit.
pub open spec fn all_digits(s: Seq<char>) -> bool {
    forall|i: int| 0 <= i < s.len() ==> '0' <= #[trigger] s[i] && s[i] <= '9'
}

/// The number written by decimal digits `s`.
pub open spec fn digits_value(s: Seq<char>) -> nat
    decreases s.len(),
{
    if s.len() == 0 {
        0
    } else {
        digits_value(s.drop_last()) * 10 + (s.last() as nat - '0' as nat) as nat
    }
}

/// Whether an id passes the register filter over entries `s`.
pub open spec fn passes(s: Seq<EntryModel>, filter: RegisterFilter) -> spec_fn(u64) -> bool {
    |id: u64|
        match filter {
            RegisterFilter::All => true,
            RegisterFilter::Temporary => has_id(s, id) && s[id_pos(s, id)].temporary_registers.len()
                > 0,
            RegisterFilter::Permanent => has_id(s, id) && s[id_pos(s, id)].permanent_registers.len()
                > 0,
            RegisterFilter::Pinned => has_id(s, id) && s[id_pos(s, id)].pinned,
        }
}

/// The ids before register filtering: the history order when no search is
/// active, else the search results.
pub open spec fn base_ids(s: Seq<EntryModel>, results: Seq<u64>, query: Seq<char>) -> Seq<u64> {
    if results.len() == 0 && query.len() == 0 {
        s.map_values(|e: EntryModel| e.id)
    } else {
        results
    }
}

/// The visible ids: the base ids, order kept, that pass the register filter.
pub open spec fn visible(
    s: Seq<EntryModel>,
    results: Seq<u64>,
    query: Seq<char>,
    filter: RegisterFilter,
) -> Seq<u64> {
    match filter {
        RegisterFilter::All => base_ids(s, results, query),
        _ => base_ids(s, results, query).filter(passes(s, filter)),
    }
}

/// The interactive state over a history and its registers: the visible
/// list, the selection in it, search, filters and mode.
pub struct Session {
    pub mode: AppMode,
    pub history: ClipboardHistory,
    pub registers: Registry,
    pub search_index: SearchIndex,
    /// Selected position in the visible list.
    pub selected_index: usize,
    /// Current search query (empty when no search is active).
    pub search_query: String,
    /// Ranked ids from the last search.
    pub search_results: Vec<u64>,
    /// Register key being assigned.
    pub register_key: Option<char>,
    /// Digits typed as a count prefix.
    pub numeric_prefix: String,
    pub register_filter: RegisterFilter,
    pub view_mode: ViewMode,
    /// Rows available to the list, for page movements.
    pub list_height: u16,
    /// Leave after copying a selection.
    pub exit_on_select: bool,
    pub should_quit: bool,
    /// Number of themes offered by the theme picker.
    pub theme_picker_len: usize,
    /// Highlighted position in the theme picker.
    pub theme_picker_selected: usize,
}

impl Session {
    /// The history and registers are well formed and linked (I1).
    pub open spec fn wf(&self) -> bool {
        &&& self.history.wf()
        &&& self.registers.wf()
        &&& self.registers.consistent(self.history.model())
    }

    /// Filter, layout, prefix, picker and quit settings are those of `other`.
    pub open spec fn same_settings(&self, other: &Session) -> bool {
        &&& self.numeric_prefix == other.numeric_prefix
        &&& self.register_filter == other.register_filter
        &&& self.view_mode == other.view_mode
        &&& self.list_height == other.list_height
        &&& self.exit_on_select == other.exit_on_select
        &&& self.should_quit == other.should_quit
        &&& self.theme_picker_len == other.theme_picker_len
        &&& self.theme_picker_selected == other.theme_picker_selected
    }

    /// The ids the list shows now.
    pub open spec fn spec_visible(&self) -> Seq<u64> {
        visible(
            self.history.model(),
            self.search_results@,
            self.search_query@,
            self.register_filter,
        )
    }

    /// A session over a loaded history and registry, in normal mode with the
    /// first entry selected.
    pub fn new(
        history: ClipboardHistory,
        registers: Registry,
        exit_on_select: bool,
        view_mode: ViewMode,
    ) -> (r: Session)
        ensures
            r.history == history,
            r.registers == registers,
            r.mode == AppMode::Normal,
            r.selected_index == 0,
            r.search_query@.len() == 0,
            r.search_results@.len() == 0,
            r.register_filter == RegisterFilter::All,
            r.view_mode == view_mode,
            r.exit_on_select == exit_on_select,
            !r.should_quit,
    {
        Session {
            mode: AppMode::Normal,
            history,
            registers,
            search_index: SearchIndex::new(),
            selected_index: 0,
            search_query: String::new(),
            search_results: Vec::new(),
            register_key: None,
            numeric_prefix: String::new(),
            register_filter: RegisterFilter::All,
            view_mode,
            list_height: 20,
            exit_on_select,
            should_quit: false,
            theme_picker_len: 0,
            theme_picker_selected: 0,
        }
    }

    /// The visible ids: search results (or the whole history, newest
    /// first) narrowed by the register filter, order kept.
    pub fn visible_clips(&self) -> (r: Vec<u64>)
        requires
            self.history.wf(),
        ensures
            r@ == self.spec_visible(),
    {
        let ghost s = self.history.model();
        let base: Vec<u64> = if self.search_results.len() == 0 && self.search_query.as_str().is_empty() {
            let entries = self.history.entries();
            let mut ids: Vec<u64> = Vec::new();
            let mut i: usize = 0;
            while i < entries.len()
                invariant
                    i <= entries@.len(),
                    models(entries@) == s,
                    ids@ == s.take(i as int).map_values(|e: EntryModel| e.id),
                decreases entries.len() - i,
            {
                ids.push(entries[i].id);
                proof {
                    assert(ids@ =~= s.take(i + 1).map_values(|e: EntryModel| e.id));
                }
                i = i + 1;
            }
            proof {
                assert(s.take(i as int) =~= s);
            }
            ids
        } else {
            let r = self.search_results.clone();
            assert(r@ =~= self.search_results@);
            r
        };
        let filter = self.register_filter;
        match filter {
            RegisterFilter::All => base,
            _ => {
                let ghost p = passes(s, filter);
                let mut out: Vec<u64> = Vec::new();
                let mut i: usize = 0;
                while i < base.len()
                    invariant
                        i <= base@.len(),
                        self.history.wf(),
                        s == self.history.model(),
                        p == passes(s, filter),
                        filter != RegisterFilter::All,
                        out@ == base@.take(i as int).filter(p),
                    decreases base.len() - i,
                {
                    let id = base[i];
                    proof {
                        assert(base@.take(i + 1) =~= base@.take(i as int).push(id));
                        base@.take(i as int).lemma_filter_push(id, p);
                    }
                    let keep = match self.history.get_entry(id) {
                        Some(e) => match filter {
                            RegisterFilter::Temporary => !e.temporary_registers.is_empty(),
                            RegisterFilter::Pinned => e.pinned,
                            _ => !e.permanent_registers.is_empty(),
                        },
                        None => false,
                    };
                    if keep {
                        out.push(id);
                    }
                    i = i + 1;
                }
                proof {
                    assert(base@.take(i as int) =~= base@);
                }
                out
            },
        }
    }

    /// The id at the selected position of the visible list.
    pub fn selected_clip_id(&self) -> (r: Option<u64>)
        requires
            self.history.wf(),
        ensures
            r == if self.selected_index < self.spec_visible().len() {
                Some(self.spec_visible()[self.selected_index as int])
            } else {
                None::<u64>
            },
    {
        let visible = self.visible_clips();
        if self.selected_index < visible.len() {
            Some(visible[self.selected_index])
        } else {
            None
        }
    }

    /// Entries per half page (at least one).
    pub fn half_page_size(&self) -> (r: usize)
        ensures
            r == if self.list_height as int / self.rows_per_entry() / 2 > 0 {
                (self.list_height as int / self.rows_per_entry() / 2) as usize
            } else {
                1usize
            },
    {
        let rows: usize = match self.view_mode {
            ViewMode::Compact => 1,
            ViewMode::Comfortable => 2,
        };
        let n = (self.list_height as usize) / rows / 2;
        if n > 0 { n } else { 1 }
    }

    /// Entries per full page (at least one).
    pub fn full_page_size(&self) -> (r: usize)
        ensures
            r == if self.list_height as int / self.rows_per_entry() > 0 {
                (self.list_height as int / self.rows_per_entry()) as usize
            } else {
                1usize
            },
    {
        let rows: usize = match self.view_mode {
            ViewMode::Compact => 1,
            ViewMode::Comfortable => 2,
        };
        let n = (self.list_height as usize) / rows;
        if n > 0 { n } else { 1 }
    }

    /// Terminal rows one entry takes.
    pub open spec fn rows_per_entry(&self) -> int {
        match self.view_mode {
            ViewMode::Compact => 1,
            ViewMode::Comfortable => 2,
        }
    }

    /// Move the selection up by `n`, stopping at the top.
    pub fn move_up(&mut self, n: usize)
        ensures
            *final(self) == (Session {
                selected_index: if old(self).selected_index >= n {
                    (old(self).selected_index - n) as usize
                } else {
                    0
                },
                ..*old(self)
            }),
    {
        self.selected_index = if self.selected_index >= n { self.selected_index - n } else { 0 };
    }

    /// Move the selection down by `n`, stopping at the last visible entry.
    pub fn move_down(&mut self, n: usize)
        requires
            old(self).history.wf(),
        ensures
            *final(self) == (Session {
                selected_index: if old(self).spec_visible().len() == 0 {
                    old(self).selected_index
                } else if old(self).selected_index + n < old(self).spec_visible().len() {
                    (old(self).selected_index + n) as usize
                } else {
                    (old(self).spec_visible().len() - 1) as usize
                },
                ..*old(self)
            }),
    {
        let count = self.visible_clips().len();
        if count > 0 {
            let last = count - 1;
            self.selected_index = if self.selected_index > last || n > last - self.selected_index {
                last
            } else {
                self.selected_index + n
            };
        }
    }

    /// Select the first visible entry.
    pub fn jump_to_top(&mut self)
        ensures
            *final(self) == (Session { selected_index: 0, ..*old(self) }),
    {
        self.selected_index = 0;
    }

    /// Select the last visible entry (no change when none is visible).
    pub fn jump_to_bottom(&mut self)
        requires
            old(self).history.wf(),
        ensures
            *final(self) == (Session {
                selected_index: if old(self).spec_visible().len() > 0 {
                    (old(self).spec_visible().len() - 1) as usize
                } else {
                    old(self).selected_index
                },
                ..*old(self)
            }),
    {
        let count = self.visible_clips().len();
        if count > 0 {
            self.selected_index = count - 1;
        }
    }

    /// Select position `num` (from 0) if it is visible; otherwise no change.
    pub fn jump_to_number(&mut self, num: usize)
        requires
            old(self).history.wf(),
        ensures
            *final(self) == (Session {
                selected_index: if num < old(self).spec_visible().len() {
                    num
                } else {
                    old(self).selected_index
                },
                ..*old(self)
            }),
    {
        let count = self.visible_clips().len();
        if num < count {
            self.selected_index = num;
        }
    }

    /// Enter search mode, keeping any query.
    pub fn enter_search_mode(&mut self)
        ensures
            *final(self) == (Session { mode: AppMode::Search, ..*old(self) }),
    {
        self.mode = AppMode::Search;
    }

    /// Leave search mode, keeping the query and its results.
    pub fn exit_search_mode(&mut self)
        ensures
            *final(self) == (Session { mode: AppMode::Normal, ..*old(self) }),
    {
        self.mode = AppMode::Normal;
    }

    /// Drop the query and results: the whole history shows again.
    pub fn clear_search(&mut self)
        ensures
            final(self).search_query@.len() == 0,
            final(self).search_results@.len() == 0,
            final(self).selected_index == 0,
            final(self).history == old(self).history,
            final(self).registers == old(self).registers,
            final(self).same_settings(old(self)),
            final(self).mode == old(self).mode,
            final(self).search_index == old(self).search_index,
    {
        self.search_query = String::new();
        self.search_results = Vec::new();
        self.selected_index = 0;
    }

    /// Rerun the search for the current query and select its first result;
    /// an empty query clears the results.
    pub fn update_search_results(&mut self)
        requires
            old(self).history.wf(),
        ensures
            old(self).search_query@.len() == 0 ==> final(self).search_results@.len() == 0,
            old(self).search_query@.len() > 0 ==> final(self).search_results@ == sort_desc(
                candidates(
                    old(self).history.model(),
                    matched_query(old(self).search_query@),
                    old(self).search_index.spec_mode() == SearchMode::CaseSensitive,
                ),
            ).map_values(|p: (u64, u32)| p.0),
            final(self).search_index.spec_mode() == old(self).search_index.spec_mode(),
            final(self).search_query == old(self).search_query,
            final(self).selected_index == 0,
            final(self).history == old(self).history,
            final(self).registers == old(self).registers,
            final(self).same_settings(old(self)),
            final(self).mode == old(self).mode,
    {
        if self.search_query.as_str().is_empty() {
            self.search_results = Vec::new();
            self.selected_index = 0;
            return;
        }
        let results = self.search_index.search(self.history.entries(), self.search_query.as_str());
        let mut ids: Vec<u64> = Vec::new();
        let mut i: usize = 0;
        while i < results.len()
            invariant
                i <= results@.len(),
                ids@ == results@.take(i as int).map_values(|p: (u64, u32)| p.0),
            decreases results.len() - i,
        {
            ids.push(results[i].0);
            proof {
                assert(ids@ =~= results@.take(i + 1).map_values(|p: (u64, u32)| p.0));
            }
            i = i + 1;
        }
        proof {
            assert(results@.take(i as int) =~= results@);
        }
        self.search_results = ids;
        self.selected_index = 0;
    }

    /// Type a character into the query and search again.
    pub fn search_input_char(&mut self, c: char)
        requires
            old(self).history.wf(),
        ensures
            final(self).search_query@ == old(self).search_query@.push(c),
            final(self).selected_index == 0,
            final(self).history == old(self).history,
            final(self).registers == old(self).registers,
            final(self).same_settings(old(self)),
            final(self).mode == old(self).mode,
    {
        push_char(&mut self.search_query, c);
        self.update_search_results();
    }

    /// Delete the last query character and search again.
    pub fn search_backspace(&mut self)
        requires
            old(self).history.wf(),
        ensures
            old(self).search_query@.len() > 0 ==> final(self).search_query@
                == old(self).search_query@.drop_last(),
            old(self).search_query@.len() == 0 ==> final(self).search_query@ == old(self).search_query@,
            final(self).selected_index == 0,
            final(self).history == old(self).history,
            final(self).registers == old(self).registers,
            final(self).same_settings(old(self)),
            final(self).mode == old(self).mode,
    {
        pop_char(&mut self.search_query);
        self.update_search_results();
    }

    /// Wait for a register key.
    pub fn enter_register_mode(&mut self)
        ensures
            *final(self) == (Session { mode: AppMode::RegisterAssign, register_key: None, ..*old(self) }),
    {
        self.mode = AppMode::RegisterAssign;
        self.register_key = None;
    }

    /// Toggle temporary register `key` on the selected entry: removed if the
    /// entry holds it, else assigned. Back to normal mode on success.
    pub fn assign_register(&mut self, key: char) -> (r: Result<(), ActionError>)
        requires
            old(self).wf(),
        ensures
            final(self).wf(),
            old(self).selected_index >= old(self).spec_visible().len() ==> r == Err::<(), ActionError>(
                ActionError::NoClipSelected,
            ),
            r is Ok ==> final(self).mode == AppMode::Normal,
            r is Ok ==> old(self).selected_index < old(self).spec_visible().len() && ({
                let id = old(self).spec_visible()[old(self).selected_index as int];
                let s = old(self).history.model();
                let m = old(self).registers.temporary_map();
                if has_id(s, id) && s[id_pos(s, id)].temporary_registers.contains(key) {
                    final(self).registers.temporary_map() == m.remove(key)
                } else {
                    final(self).registers.temporary_map() == m.insert(key, id)
                }
            }),
            r is Ok ==> final(self).registers.permanent_map() == old(self).registers.permanent_map(),
            r is Err ==> final(self).registers == old(self).registers && final(self).history.model()
                == old(self).history.model(),
            old(self).selected_index < old(self).spec_visible().len() && is_register_key(key) && has_id(
                old(self).history.model(),
                old(self).spec_visible()[old(self).selected_index as int],
            ) ==> r is Ok,
            final(self).same_settings(old(self)),
            r is Err ==> final(self).mode == old(self).mode,
            final(self).selected_index == old(self).selected_index,
            final(self).search_query == old(self).search_query,
            final(self).search_results == old(self).search_results,
            final(self).search_index == old(self).search_index,
    {
        let clip_id = match self.selected_clip_id() {
            Some(id) => id,
            None => {
                return Err(ActionError::NoClipSelected);
            },
        };
        let has_key = match self.history.get_entry(clip_id) {
            Some(e) => contains_key(&e.temporary_registers, key),
            None => false,
        };
        let result = if has_key {
            self.registers.remove_temporary(key, &mut self.history)
        } else {
            self.registers.assign_temporary(key, clip_id, &mut self.history)
        };
        match result {
            Ok(()) => {
                self.mode = AppMode::Normal;
                self.register_key = None;
                Ok(())
            },
            Err(e) => Err(ActionError::Register(e)),
        }
    }

    /// Show or hide the help overlay.
    pub fn toggle_help(&mut self)
        ensures
            *final(self) == (Session {
                mode: if old(self).mode == AppMode::Help {
                    AppMode::Normal
                } else {
                    AppMode::Help
                },
                ..*old(self)
            }),
    {
        self.mode = match self.mode {
            AppMode::Help => AppMode::Normal,
            _ => AppMode::Help,
        };
    }

    /// Show only entries with temporary registers, or stop doing so; the
    /// selection goes back to the top.
    pub fn toggle_temporary_filter(&mut self)
        ensures
            *final(self) == (Session {
                register_filter: if old(self).register_filter == RegisterFilter::Temporary {
                    RegisterFilter::All
                } else {
                    RegisterFilter::Temporary
                },
                selected_index: 0,
                ..*old(self)
            }),
    {
        self.register_filter = match self.register_filter {
            RegisterFilter::Temporary => RegisterFilter::All,
            _ => RegisterFilter::Temporary,
        };
        self.selected_index = 0;
    }

    /// Show only entries with permanent registers, or stop doing so; the
    /// selection goes back to the top.
    pub fn toggle_permanent_filter(&mut self)
        ensures
            *final(self) == (Session {
                register_filter: if old(self).register_filter == RegisterFilter::Permanent {
                    RegisterFilter::All
                } else {
                    RegisterFilter::Permanent
                },
                selected_index: 0,
                ..*old(self)
            }),
    {
        self.register_filter = match self.register_filter {
            RegisterFilter::Permanent => RegisterFilter::All,
            _ => RegisterFilter::Permanent,
        };
        self.selected_index = 0;
    }

    /// Show only pinned entries, or stop doing so; the selection goes back
    /// to the top.
    pub fn toggle_pinned_filter(&mut self)
        ensures
            *final(self) == (Session {
                register_filter: if old(self).register_filter == RegisterFilter::Pinned {
                    RegisterFilter::All
                } else {
                    RegisterFilter::Pinned
                },
                selected_index: 0,
                ..*old(self)
            }),
    {
        self.register_filter = match self.register_filter {
            RegisterFilter::Pinned => RegisterFilter::All,
            _ => RegisterFilter::Pinned,
        };
        self.selected_index = 0;
    }

    /// Switch between compact and comfortable rows.
    pub fn toggle_view_mode(&mut self)
        ensures
            *final(self) == (Session {
                view_mode: match old(self).view_mode {
                    ViewMode::Compact => ViewMode::Comfortable,
                    ViewMode::Comfortable => ViewMode::Compact,
                },
                ..*old(self)
            }),
    {
        self.view_mode = match self.view_mode {
            ViewMode::Compact => ViewMode::Comfortable,
            ViewMode::Comfortable => ViewMode::Compact,
        };
    }

    /// Ask for confirmation before clearing.
    pub fn enter_confirm_clear_all(&mut self)
        ensures
            *final(self) == (Session { mode: AppMode::Confirm, ..*old(self) }),
    {
        self.mode = AppMode::Confirm;
    }

    /// Remove every entry that is neither pinned nor registered.
    pub fn clear_all_unpinned(&mut self)
        requires
            old(self).wf(),
        ensures
            final(self).wf(),
            final(self).history.model() == old(self).history.model().filter(
                crate::history::protected_only(),
            ),
            final(self).registers == old(self).registers,
            final(self).selected_index == 0,
            final(self).mode == AppMode::Normal,
            final(self).same_settings(old(self)),
            final(self).search_query == old(self).search_query,
            final(self).search_results == old(self).search_results,
            final(self).search_index == old(self).search_index,
    {
        let ghost s = self.history.model();
        self.history.clear_unpinned();
        proof {
            lemma_clear_links(self.registers.temporary_map(), s, false);
            lemma_clear_links(self.registers.permanent_map(), s, true);
        }
        self.selected_index = 0;
        self.mode = AppMode::Normal;
    }

    /// Back to normal mode.
    pub fn cancel_confirm(&mut self)
        ensures
            *final(self) == (Session { mode: AppMode::Normal, ..*old(self) }),
    {
        self.mode = AppMode::Normal;
    }

    /// Ask to leave.
    pub fn quit(&mut self)
        ensures
            *final(self) == (Session { should_quit: true, ..*old(self) }),
    {
        self.should_quit = true;
    }

    /// Pin or unpin the selected entry.
    pub fn toggle_pin(&mut self) -> (r: Result<(), ActionError>)
        requires
            old(self).wf(),
        ensures
            final(self).wf(),
            old(self).selected_index >= old(self).spec_visible().len() ==> r == Err::<(), ActionError>(
                ActionError::NoClipSelected,
            ),
            r is Ok ==> old(self).selected_index < old(self).spec_visible().len() && ({
                let id = old(self).spec_visible()[old(self).selected_index as int];
                let s = old(self).history.model();
                has_id(s, id) && final(self).history.model() == s.update(
                    id_pos(s, id),
                    EntryModel { pinned: !s[id_pos(s, id)].pinned, ..s[id_pos(s, id)] },
                )
            }),
            r is Err ==> final(self).history.model() == old(self).history.model(),
            final(self).registers == old(self).registers,
            old(self).selected_index < old(self).spec_visible().len() && has_id(
                old(self).history.model(),
                old(self).spec_visible()[old(self).selected_index as int],
            ) ==> r is Ok,
            final(self).same_settings(old(self)),
            final(self).mode == old(self).mode,
            final(self).selected_index == old(self).selected_index,
            final(self).search_query == old(self).search_query,
            final(self).search_results == old(self).search_results,
            final(self).search_index == old(self).search_index,
    {
        let clip_id = match self.selected_clip_id() {
            Some(id) => id,
            None => {
                return Err(ActionError::NoClipSelected);
            },
        };
        let ghost s = self.history.model();
        if self.history.toggle_pin(clip_id) {
            proof {
                let f = self.history.model();
                assert forall|i: int| 0 <= i < s.len() implies f[i].id == s[i].id
                    && f[i].temporary_registers == s[i].temporary_registers
                    && f[i].permanent_registers == s[i].permanent_registers by {}
                lemma_linked_frame(self.registers.temporary_map(), s, f, false);
                lemma_linked_frame(self.registers.permanent_map(), s, f, true);
            }
            Ok(())
        } else {
            Err(ActionError::ClipNotFound)
        }
    }

    /// Delete the selected entry with its temporary registers; refused for
    /// an entry holding a permanent register. The selection is kept within
    /// the shorter list.
    pub fn delete_entry(&mut self) -> (r: Result<(), ActionError>)
        requires
            old(self).wf(),
        ensures
            final(self).wf(),
            old(self).selected_index >= old(self).spec_visible().len() ==> r == Err::<(), ActionError>(
                ActionError::NoClipSelected,
            ),
            r is Ok ==> final(self).spec_visible().len() == 0 || final(self).selected_index
                < final(self).spec_visible().len(),
            r is Ok ==> old(self).selected_index < old(self).spec_visible().len() && ({
                let id = old(self).spec_visible()[old(self).selected_index as int];
                let s = old(self).history.model();
                has_id(s, id) && final(self).history.model() == s.remove(id_pos(s, id))
                    && final(self).registers.temporary_map() == without_id(
                    old(self).registers.temporary_map(),
                    id,
                ) && final(self).registers.permanent_map() == old(self).registers.permanent_map()
            }),
            r is Err ==> final(self).history.model() == old(self).history.model()
                && final(self).registers == old(self).registers,
            final(self).same_settings(old(self)),
            final(self).mode == old(self).mode,
            final(self).search_query == old(self).search_query,
            final(self).search_results == old(self).search_results,
            r is Err ==> final(self).selected_index == old(self).selected_index,
            final(self).search_index == old(self).search_index,
            old(self).selected_index < old(self).spec_visible().len() && ({
                let id = old(self).spec_visible()[old(self).selected_index as int];
                let s = old(self).history.model();
                has_id(s, id) && s[id_pos(s, id)].permanent_registers.len() == 0
            }) ==> r is Ok,
            old(self).selected_index < old(self).spec_visible().len() && ({
                let id = old(self).spec_visible()[old(self).selected_index as int];
                let s = old(self).history.model();
                has_id(s, id) && s[id_pos(s, id)].permanent_registers.len() > 0
            }) ==> r == Err::<(), ActionError>(
                ActionError::Register(
                    RegisterError::CannotDelete(
                        old(self).spec_visible()[old(self).selected_index as int],
                    ),
                ),
            ),
    {
        let clip_id = match self.selected_clip_id() {
            Some(id) => id,
            None => {
                return Err(ActionError::NoClipSelected);
            },
        };
        match self.registers.delete_entry(clip_id, &mut self.history) {
            Ok(()) => {},
            Err(e) => {
                return Err(ActionError::Register(e));
            },
        }
        let count = self.visible_clips().len();
        if count > 0 && self.selected_index >= count {
            self.selected_index = count - 1;
        }
        Ok(())
    }

    /// The content to copy for the selected entry; file references are not
    /// copied.
    pub fn selected_content(&self) -> (r: Result<ClipContent, ActionError>)
        requires
            self.wf(),
        ensures
            self.selected_index >= self.spec_visible().len() ==> r == Err::<ClipContent, ActionError>(
                ActionError::NoClipSelected,
            ),
            r matches Ok(c) ==> has_id(self.history.model(), self.spec_visible()[self.selected_index as int])
                && c@ == self.history.model()[id_pos(
                self.history.model(),
                self.spec_visible()[self.selected_index as int],
            )].content && !(c is File),
            self.selected_index < self.spec_visible().len() && has_id(
                self.history.model(),
                self.spec_visible()[self.selected_index as int],
            ) && !(self.history.model()[id_pos(
                self.history.model(),
                self.spec_visible()[self.selected_index as int],
            )].content is File) ==> r is Ok,
            self.selected_index < self.spec_visible().len() && has_id(
                self.history.model(),
                self.spec_visible()[self.selected_index as int],
            ) && self.history.model()[id_pos(
                self.history.model(),
                self.spec_visible()[self.selected_index as int],
            )].content is File ==> r == Err::<ClipContent, ActionError>(ActionError::UnsupportedContent),
            self.selected_index < self.spec_visible().len() && !has_id(
                self.history.model(),
                self.spec_visible()[self.selected_index as int],
            ) ==> r == Err::<ClipContent, ActionError>(ActionError::ClipNotFound),
    {
        let clip_id = match self.selected_clip_id() {
            Some(id) => id,
            None => {
                return Err(ActionError::NoClipSelected);
            },
        };
        match self.history.get_entry(clip_id) {
            Some(e) => {
                if e.content.is_file() {
                    Err(ActionError::UnsupportedContent)
                } else {
                    Ok(e.content.duplicate())
                }
            },
            None => Err(ActionError::ClipNotFound),
        }
    }

    /// The count typed as a numeric prefix, or `default` when the prefix is
    /// empty, is not all digits, or does not fit in a `usize`.
    pub fn prefix_count(&self, default: usize) -> (r: usize)
        ensures
            self.numeric_prefix@.len() > 0 && all_digits(self.numeric_prefix@) && digits_value(
                self.numeric_prefix@,
            ) <= usize::MAX ==> r == digits_value(self.numeric_prefix@),
            !(self.numeric_prefix@.len() > 0 && all_digits(self.numeric_prefix@) && digits_value(
                self.numeric_prefix@,
            ) <= usize::MAX) ==> r == default,
    {
        let q = self.numeric_prefix.as_str();
        let n = q.unicode_len();
        if n == 0 {
            return default;
        }
        let ghost s = q@;
        let mut value: usize = 0;
        let mut i: usize = 0;
        while i < n
            invariant
                n == s.len(),
                q@ == s,
                s == self.numeric_prefix@,
                i <= n,
                all_digits(s.take(i as int)),
                value == digits_value(s.take(i as int)),
            decreases n - i,
        {
            let c = q.get_char(i);
            proof {
                assert(s.take(i + 1).drop_last() =~= s.take(i as int));
                assert(s.take(i + 1).last() == c);
            }
            if c < '0' || c > '9' {
                proof {
                    assert(s[i as int] == c);
                    assert(!('0' <= s[i as int] && s[i as int] <= '9'));
                }
                return default;
            }
            let d = (c as u32 - '0' as u32) as usize;
            if value > (usize::MAX - d) / 10 {
                proof {
                    lemma_digits_grow(s, i as int + 1, n as int);
                    assert(digits_value(s.take(i + 1)) == value * 10 + d) by (nonlinear_arith)
                        requires digits_value(s.take(i + 1)) == digits_value(s.take(i as int)) * 10 + d,
                            value == digits_value(s.take(i as int));
                    assert(value * 10 + d > usize::MAX) by (nonlinear_arith)
                        requires value > (usize::MAX - d) / 10, d <= 9;
                    assert(s.take(n as int) =~= s);
                }
                return default;
            }
            proof {
                assert(value * 10 + d <= usize::MAX) by (nonlinear_arith)
                    requires value <= (usize::MAX - d) / 10, d <= 9;
                assert forall|j: int| 0 <= j < i + 1 implies '0' <= #[trigger] s.take(i + 1)[j] && s.take(i + 1)[j] <= '9' by {
                    if j < i {
                        assert(s.take(i + 1)[j] == s.take(i as int)[j]);
                    }
                }
            }
            value = value * 10 + d;
            i = i + 1;
        }
        proof {
            assert(s.take(n as int) =~= s);
        }
        value
    }

    /// The id and bytes of the selected entry, when it is an in-memory image.
    pub fn selected_image(&self) -> (r: Option<(u64, &Vec<u8>)>)
        requires
            self.history.wf(),
        ensures
            r is Some <==> self.selected_index < self.spec_visible().len() && has_id(
                self.history.model(),
                self.spec_visible()[self.selected_index as int],
            ) && self.history.model()[id_pos(
                self.history.model(),
                self.spec_visible()[self.selected_index as int],
            )].content is Image,
            r matches Some((id, data)) ==> id == self.spec_visible()[self.selected_index as int]
                && (self.history.model()[id_pos(self.history.model(), id)].content matches ContentModel::Image(
                bytes,
                _,
            ) && bytes == data@),
    {
        let id = match self.selected_clip_id() {
            Some(id) => id,
            None => {
                return None;
            },
        };
        match self.history.get_entry(id) {
            Some(e) => match &e.content {
                ClipContent::Image { data, .. } => Some((id, data)),
                _ => None,
            },
            None => None,
        }
    }

    /// After the selection was copied: leave if so configured.
    pub fn finish_select(&mut self)
        ensures
            *final(self) == (Session {
                should_quit: old(self).should_quit || old(self).exit_on_select,
                ..*old(self)
            }),
    {
        if self.exit_on_select {
            self.should_quit = true;
        }
    }
}

/// A longer all-digit prefix never has a smaller value.
proof fn lemma_digits_grow(s: Seq<char>, a: int, b: int)
    requires
        0 <= a <= b <= s.len(),
        all_digits(s.take(a)),
    ensures
        all_digits(s.take(b)) ==> digits_value(s.take(b)) >= digits_value(s.take(a)),
    decreases b - a,
{
    if a < b && all_digits(s.take(b)) {
        assert forall|j: int| 0 <= j < b - 1 implies '0' <= #[trigger] s.take(b - 1)[j] && s.take(b - 1)[j] <= '9' by {
            assert(s.take(b - 1)[j] == s.take(b)[j]);
        }
        lemma_digits_grow(s, a, b - 1);
        assert(s.take(b).drop_last() =~= s.take(b - 1));
        assert(s.take(b)[b - 1] >= '0');
    }
}

fn contains_key(keys: &Vec<char>, key: char) -> (r: bool)
    ensures
        r == keys@.contains(key),
{
    let mut i: usize = 0;
    while i < keys.len()
        invariant
            i <= keys.len(),
            forall|j: int| 0 <= j < i ==> keys@[j] != key,
        decreases keys.len() - i,
    {
        if keys[i] == key {
            return true;
        }
        i = i + 1;
    }
    false
}

} // verus!
