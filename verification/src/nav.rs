//! Keyboard navigation of the terminal view: which panel is active, which
//! module is selected, and how far the symbol and log panels are scrolled.

use vstd::prelude::*;
use crate::table::strs;

verus! {

/// The number of panels the view cycles through: modules, symbols, log and
/// timeline, in that order.
pub const PANEL_COUNT: usize = 4;

/// A key press, as far as navigation reads it.
#[derive(PartialEq, Eq, Structural, Clone, Copy, Debug)]
pub enum Key {
    /// `q` or `Esc`.
    Quit,
    Tab,
    BackTab,
    /// `Up` or `k`.
    Up,
    /// `Down` or `j`.
    Down,
    Other,
}

/// The navigation state.
#[derive(PartialEq, Eq, Structural, Clone, Copy, Debug)]
pub struct Nav {
    pub active_panel: usize,
    pub selected_module: usize,
    pub symbol_scroll: usize,
    pub log_scroll: usize,
    pub quit: bool,
}

/// The sizes the arrow keys are bounded by: how many modules there are,
/// how many symbols the selected module has, how many log entries there are.
#[derive(PartialEq, Eq, Structural, Clone, Copy, Debug)]
pub struct Extent {
    pub modules: usize,
    pub symbols: usize,
    pub log: usize,
}

/// `n - 1`, or 0 for an empty list: the last index a scroll may reach.
pub open spec fn last_index(n: nat) -> nat {
    if n == 0 {
        0
    } else {
        (n - 1) as nat
    }
}

pub open spec fn up(n: Nav) -> Nav {
    if n.active_panel == 0 {
        if n.selected_module > 0 {
            Nav { selected_module: (n.selected_module - 1) as usize, symbol_scroll: 0, ..n }
        } else {
            n
        }
    } else if n.active_panel == 1 {
        if n.symbol_scroll > 0 {
            Nav { symbol_scroll: (n.symbol_scroll - 1) as usize, ..n }
        } else {
            n
        }
    } else if n.active_panel == 2 {
        if n.log_scroll > 0 {
            Nav { log_scroll: (n.log_scroll - 1) as usize, ..n }
        } else {
            n
        }
    } else {
        n
    }
}

pub open spec fn down(n: Nav, e: Extent) -> Nav {
    if n.active_panel == 0 {
        if n.selected_module + 1 < e.modules {
            Nav { selected_module: (n.selected_module + 1) as usize, symbol_scroll: 0, ..n }
        } else {
            n
        }
    } else if n.active_panel == 1 {
        if n.symbol_scroll < last_index(e.symbols as nat) {
            Nav { symbol_scroll: (n.symbol_scroll + 1) as usize, ..n }
        } else {
            n
        }
    } else if n.active_panel == 2 {
        if n.log_scroll < last_index(e.log as nat) {
            Nav { log_scroll: (n.log_scroll + 1) as usize, ..n }
        } else {
            n
        }
    } else {
        n
    }
}

/// The state after pressing `k`.
pub open spec fn step(n: Nav, k: Key, e: Extent) -> Nav {
    match k {
        Key::Quit => Nav { quit: true, ..n },
        Key::Tab => Nav { active_panel: ((n.active_panel + 1) % 4) as usize, ..n },
        Key::BackTab => Nav {
            active_panel: if n.active_panel == 0 {
                3usize
            } else {
                (n.active_panel - 1) as usize
            },
            ..n
        },
        Key::Up => up(n),
        Key::Down => down(n, e),
        Key::Other => n,
    }
}

/// The first position of `name` in `names`, if any.
pub open spec fn position(names: Seq<Seq<char>>, name: Seq<char>) -> Option<int> {
    if names.contains(name) {
        Some(choose|i: int| 0 <= i < names.len() && names[i] == name && forall|j: int| 0 <= j < i ==> names[j] != name)
    } else {
        None
    }
}

/// The state after the modules were rebuilt: the module that was selected
/// stays selected if it still exists (the first module otherwise), and both
/// scrolls are pulled back into range.
pub open spec fn refreshed(n: Nav, prev: Option<Seq<char>>, names: Seq<Seq<char>>, symbols: Seq<usize>, log: nat) -> Nav {
    let sel = match prev {
        Some(p) => match position(names, p) {
            Some(i) => i,
            None => 0,
        },
        None => 0,
    };
    let count: nat = if 0 <= sel < symbols.len() {
        symbols[sel] as nat
    } else {
        0
    };
    Nav {
        selected_module: sel as usize,
        symbol_scroll: if n.symbol_scroll <= last_index(count) {
            n.symbol_scroll
        } else {
            last_index(count) as usize
        },
        log_scroll: if n.log_scroll <= last_index(log) {
            n.log_scroll
        } else {
            last_index(log) as usize
        },
        ..n
    }
}

impl Nav {
    /// The panel index names one of the four panels.
    pub open spec fn wf(&self) -> bool {
        self.active_panel < 4
    }

    pub fn new() -> (r: Self)
        ensures
            r.wf(),
            r == (Nav { active_panel: 0, selected_module: 0, symbol_scroll: 0, log_scroll: 0, quit: false }),
    {
        Nav { active_panel: 0, selected_module: 0, symbol_scroll: 0, log_scroll: 0, quit: false }
    }

    /// Moves the selection or scroll of the active panel one step up.
    pub fn move_up(&mut self)
        requires
            old(self).wf(),
        ensures
            *final(self) == up(*old(self)),
    {
        if self.active_panel == 0 {
            if self.selected_module > 0 {
                self.selected_module = self.selected_module - 1;
                self.symbol_scroll = 0;
            }
        } else if self.active_panel == 1 {
            if self.symbol_scroll > 0 {
                self.symbol_scroll = self.symbol_scroll - 1;
            }
        } else if self.active_panel == 2 {
            if self.log_scroll > 0 {
                self.log_scroll = self.log_scroll - 1;
            }
        }
    }

    /// Moves the selection or scroll of the active panel one step down,
    /// never past the last module, symbol or log entry.
    pub fn move_down(&mut self, e: Extent)
        requires
            old(self).wf(),
        ensures
            *final(self) == down(*old(self), e),
    {
        if self.active_panel == 0 {
            if e.modules > 0 && self.selected_module < e.modules - 1 {
                self.selected_module = self.selected_module + 1;
                self.symbol_scroll = 0;
            }
        } else if self.active_panel == 1 {
            let max = if e.symbols > 0 {
                e.symbols - 1
            } else {
                0
            };
            if self.symbol_scroll < max {
                self.symbol_scroll = self.symbol_scroll + 1;
            }
        } else if self.active_panel == 2 {
            let max = if e.log > 0 {
                e.log - 1
            } else {
                0
            };
            if self.log_scroll < max {
                self.log_scroll = self.log_scroll + 1;
            }
        }
    }

    /// Applies a key press.
    pub fn handle_key(&mut self, key: Key, e: Extent)
        requires
            old(self).wf(),
        ensures
            final(self).wf(),
            *final(self) == step(*old(self), key, e),
    {
        match key {
            Key::Quit => {
                self.quit = true;
            },
            Key::Tab => {
                self.active_panel = (self.active_panel + 1) % PANEL_COUNT;
            },
            Key::BackTab => {
                self.active_panel = if self.active_panel == 0 {
                    PANEL_COUNT - 1
                } else {
                    self.active_panel - 1
                };
            },
            Key::Up => self.move_up(),
            Key::Down => self.move_down(e),
            Key::Other => {},
        }
    }

    /// Follows the previously selected module by name after the module list
    /// was rebuilt, and pulls both scrolls back into range. `symbols[i]` is
    /// how many symbols module `i` has.
    pub fn refresh(&mut self, prev: &Option<String>, names: &Vec<String>, symbols: &Vec<usize>, log: usize)
        requires
            names.len() == symbols.len(),
        ensures
            *final(self) == refreshed(*old(self), match *prev {
                Some(p) => Some(p@),
                None => None,
            }, strs(names@), symbols@, log as nat),
    {
        let ghost nv = strs(names@);
        let mut sel: usize = 0;
        match prev {
            Some(p) => {
                let mut i: usize = 0;
                let mut found = false;
                while i < names.len() && !found
                    invariant
                        i <= names.len(),
                        nv == strs(names@),
                        found ==> i < names.len() && nv[i as int] == p@,
                        forall|j: int| 0 <= j < i ==> nv[j] != p@,
                    decreases names.len() - i + (if found { 0int } else { 1int }),
                {
                    if names[i] == *p {
                        found = true;
                    } else {
                        i = i + 1;
                    }
                }
                if found {
                    sel = i;
                    proof {
                        assert(nv[i as int] == p@);
                        assert(nv.contains(p@));
                        let c = choose|c: int| 0 <= c < nv.len() && nv[c] == p@ && forall|j: int| 0 <= j < c ==> nv[j] != p@;
                        assert(c == i as int) by {
                            if c < i {
                                assert(nv[c] != p@);
                            }
                            if c > i {
                                assert(nv[i as int] != p@);
                            }
                        }
                    }
                } else {
                    assert(!nv.contains(p@)) by {
                        if nv.contains(p@) {
                            let w = choose|w: int| 0 <= w < nv.len() && nv[w] == p@;
                            assert(i == names.len());
                            assert(nv[w] != p@);
                        }
                    }
                }
            },
            None => {},
        }
        let count: usize = if sel < symbols.len() {
            symbols[sel]
        } else {
            0
        };
        let sym_max: usize = if count > 0 {
            count - 1
        } else {
            0
        };
        let log_max: usize = if log > 0 {
            log - 1
        } else {
            0
        };
        self.selected_module = sel;
        if self.symbol_scroll > sym_max {
            self.symbol_scroll = sym_max;
        }
        if self.log_scroll > log_max {
            self.log_scroll = log_max;
        }
    }
}

/// The slice of the log shown in a panel `visible` rows high, scrolled up
/// `scroll` entries from the newest: `(start, end)`, end exclusive.
pub open spec fn log_window_spec(total: nat, scroll: nat, visible: nat) -> (nat, nat) {
    let start: nat = if total > scroll + visible {
        (total - scroll - visible) as nat
    } else {
        0
    };
    (start, if start + visible < total {
        start + visible
    } else {
        total
    })
}

pub fn log_window(total: usize, scroll: usize, visible: usize) -> (r: (usize, usize))
    ensures
        (r.0 as nat, r.1 as nat) == log_window_spec(total as nat, scroll as nat, visible as nat),
        r.0 <= r.1 <= total,
        r.1 - r.0 <= visible,
{
    let start: usize = if visible < total && scroll < total - visible {
        total - scroll - visible
    } else {
        0
    };
    let end: usize = if visible < total - start {
        start + visible
    } else {
        total
    };
    (start, end)
}

/// Tab and BackTab undo each other.
pub proof fn lemma_tab_backtab(n: Nav, e: Extent)
    requires
        n.wf(),
    ensures
        step(step(n, Key::Tab, e), Key::BackTab, e) == n,
        step(step(n, Key::BackTab, e), Key::Tab, e) == n,
{
}

/// Four Tabs come back to the panel they started from.
pub proof fn lemma_tab_cycle(n: Nav, e: Extent)
    requires
        n.wf(),
    ensures
        step(step(step(step(n, Key::Tab, e), Key::Tab, e), Key::Tab, e), Key::Tab, e) == n,
{
}

/// Whatever key is pressed, a selection or scroll that was in range stays
/// in range.
pub proof fn lemma_step_in_range(n: Nav, k: Key, e: Extent)
    requires
        n.wf(),
        e.modules == 0 || n.selected_module < e.modules,
        n.symbol_scroll <= last_index(e.symbols as nat),
        n.log_scroll <= last_index(e.log as nat),
    ensures
        step(n, k, e).wf(),
        e.modules == 0 || step(n, k, e).selected_module < e.modules,
        step(n, k, e).symbol_scroll <= last_index(e.symbols as nat),
        step(n, k, e).log_scroll <= last_index(e.log as nat),
{
}

} // verus!
