//! The interactive input and navigation state machine. Keys either edit the
//! draft buffers, commit or cancel an entry, move the selection cursor, or
//! request exit; every transition is specified below as a relation between
//! the state before and after the key.

use vstd::prelude::*;
use crate::aggregate::month_of_spec;
use crate::amount::{lemma_find_char_found, lemma_parse_amount_bounds, parse_amount, parse_or_zero};
use crate::models::{Budget, Transaction, TxView, tx_valid};

verus! {

/// A discrete input event, as the state machine sees it. Keys the machine
/// does not react to arrive as `Other`.
#[derive(Clone, Copy, PartialEq, Eq, Structural)]
pub enum Key {
    Esc,
    Enter,
    Tab,
    BackTab,
    Backspace,
    Up,
    Down,
    Char(char),
    Other,
}

/// Which part of the interface currently receives keys: cursor navigation
/// over the ledger, or the draft-entry form.
#[derive(Clone, Copy, PartialEq, Eq, Structural)]
pub enum FocusMode {
    Transactions,
    Input,
}

/// The interactive application: the ledger, the selection cursor, and the
/// four draft buffers with their active field.
pub struct App {
    pub budget: Budget,
    pub selected_transaction: Option<usize>,
    pub input_field: usize,
    pub input_amount: String,
    pub input_category: String,
    pub input_date: String,
    pub input_description: String,
    pub focus_mode: FocusMode,
}

/// All four draft buffers empty and the first field active.
pub open spec fn draft_cleared(a: App) -> bool {
    a.input_amount@.len() == 0 && a.input_category@.len() == 0 && a.input_date@.len() == 0
        && a.input_description@.len() == 0 && a.input_field == 0
}

/// The draft buffer of field `f` (0 amount, 1 category, 2 date, 3 description).
pub open spec fn buf(a: App, f: int) -> Seq<char> {
    if f == 0 {
        a.input_amount@
    } else if f == 1 {
        a.input_category@
    } else if f == 2 {
        a.input_date@
    } else {
        a.input_description@
    }
}

pub open spec fn same_draft(a: App, b: App) -> bool {
    b.input_amount@ == a.input_amount@ && b.input_category@ == a.input_category@
        && b.input_date@ == a.input_date@ && b.input_description@ == a.input_description@
        && b.input_field == a.input_field
}

pub open spec fn same_ledger(a: App, b: App) -> bool {
    b.budget@ == a.budget@
}

pub open spec fn same_cursor(a: App, b: App) -> bool {
    b.selected_transaction == a.selected_transaction
}

/// Cursor soundness: an empty ledger carries no cursor, and a cursor always
/// points inside the ledger.
pub open spec fn cursor_ok(a: App) -> bool {
    (match a.selected_transaction {
        Some(i) => i < a.budget@.len(),
        None => true,
    }) && (a.budget@.len() == 0 ==> a.selected_transaction is None)
}

/// Where the cursor lands when moved by `delta`: clamped into the ledger,
/// and selecting the first entry when nothing was selected yet.
pub open spec fn move_target(a: App, delta: int) -> Option<usize> {
    match a.selected_transaction {
        Some(i) => {
            let ni = if i + delta >= 0 {
                i + delta
            } else {
                0int
            };
            if ni < a.budget@.len() {
                Some(ni as usize)
            } else {
                Some(i)
            }
        },
        None => if a.budget@.len() > 0 {
            Some(0usize)
        } else {
            None
        },
    }
}

pub open spec fn moved(pre: App, post: App, delta: int) -> bool {
    same_ledger(pre, post) && same_draft(pre, post) && post.focus_mode == pre.focus_mode
        && post.selected_transaction == move_target(pre, delta)
}

/// Deleting the selected entry: removes it and clamps the old index into
/// the new range, so the cursor stays on the entry that shifted into the
/// removed slot, or falls back to the new last entry; the cursor clears
/// when the ledger empties. A no-op without a valid selection.
pub open spec fn deleted(pre: App, post: App) -> bool {
    same_draft(pre, post) && post.focus_mode == pre.focus_mode && (match pre
        .selected_transaction {
        Some(i) => if (i as int) < pre.budget@.len() {
            post.budget@ == pre.budget@.remove(i as int) && post.selected_transaction == (
            if post.budget@.len() == 0 {
                None
            } else {
                Some(
                    (if (i as int) < post.budget@.len() {
                        i
                    } else {
                        (post.budget@.len() - 1) as usize
                    }),
                )
            })
        } else {
            same_ledger(pre, post) && same_cursor(pre, post)
        },
        None => same_ledger(pre, post) && same_cursor(pre, post),
    })
}

/// The transaction a commit appends: the parsed amount with zero as the
/// fallback, the date draft or `today` when it is empty, category and
/// description verbatim.
pub open spec fn commit_tx(pre: App, today: Seq<char>) -> TxView {
    TxView {
        amount: parse_or_zero(pre.input_amount@),
        category: pre.input_category@,
        date: if pre.input_date@.len() > 0 {
            pre.input_date@
        } else {
            today
        },
        description: pre.input_description@,
    }
}

pub open spec fn committed(pre: App, post: App, today: Seq<char>) -> bool {
    post.budget@ == pre.budget@.push(commit_tx(pre, today)) && draft_cleared(post)
        && same_cursor(pre, post)
}

pub open spec fn drafts_same(pre: App, post: App) -> bool {
    forall|g: int| 0 <= g < 4 ==> buf(post, g) == buf(pre, g)
}

/// One character appended to the active field's buffer.
pub open spec fn typed(pre: App, post: App, c: char) -> bool {
    same_ledger(pre, post) && same_cursor(pre, post) && post.focus_mode == pre.focus_mode
        && post.input_field == pre.input_field && (forall|g: int|
        0 <= g < 4 && g != pre.input_field ==> buf(post, g) == buf(pre, g)) && buf(
        post,
        pre.input_field as int,
    ) == buf(pre, pre.input_field as int).push(c)
}

/// The last character removed from the active field's buffer; a no-op on an
/// empty buffer.
pub open spec fn backspaced(pre: App, post: App) -> bool {
    same_ledger(pre, post) && same_cursor(pre, post) && post.focus_mode == pre.focus_mode
        && post.input_field == pre.input_field && (forall|g: int|
        0 <= g < 4 && g != pre.input_field ==> buf(post, g) == buf(pre, g)) && buf(
        post,
        pre.input_field as int,
    ) == (if buf(pre, pre.input_field as int).len() > 0 {
        buf(pre, pre.input_field as int).drop_last()
    } else {
        buf(pre, pre.input_field as int)
    })
}

/// The active field changed to `nf`, everything else untouched.
pub open spec fn refocused(pre: App, post: App, nf: int) -> bool {
    same_ledger(pre, post) && same_cursor(pre, post) && post.focus_mode == pre.focus_mode
        && post.input_field == nf && drafts_same(pre, post)
}

/// The transition relation while browsing the ledger.
pub open spec fn browsing_step(pre: App, post: App, key: Key, cont: bool) -> bool {
    match key {
        Key::Esc => !cont && post == pre,
        Key::Char(c) => cont && (if c == 'a' {
            post.focus_mode is Input && draft_cleared(post) && same_ledger(pre, post)
                && same_cursor(pre, post)
        } else if c == 'd' {
            deleted(pre, post)
        } else {
            post == pre
        }),
        Key::Down => cont && moved(pre, post, 1),
        Key::Up => cont && moved(pre, post, -1),
        _ => cont && post == pre,
    }
}

/// The transition relation while editing a draft entry.
pub open spec fn editing_step(pre: App, post: App, key: Key, cont: bool) -> bool {
    cont && (match key {
        Key::Esc => draft_cleared(post) && post.focus_mode is Transactions && same_ledger(
            pre,
            post,
        ) && same_cursor(pre, post),
        Key::Enter => post.focus_mode is Transactions && (exists|today: Seq<char>|
            committed(pre, post, today)) && (pre.input_date@.len() > 0 ==> committed(
            pre,
            post,
            Seq::<char>::empty(),
        )) && (pre.input_date@.len() == 0 ==> month_of_spec(post.budget@.last().date) is Some),
        Key::Tab => refocused(pre, post, ((pre.input_field + 1) % 4) as int),
        Key::BackTab => refocused(pre, post, ((pre.input_field + 3) % 4) as int),
        Key::Backspace => backspaced(pre, post),
        Key::Char(c) => typed(pre, post, c),
        _ => post == pre,
    })
}

impl App {
    /// The machine's whole invariant: a well-formed ledger, an active field
    /// index inside the form, and a sound cursor.
    pub open spec fn wf(&self) -> bool {
        self.budget.wf() && self.input_field < 4 && cursor_ok(*self)
    }

    pub fn new() -> (a: App)
        ensures
            a.wf(),
            a.budget@ == Seq::<TxView>::empty(),
            a.focus_mode is Transactions,
            a.selected_transaction is None,
            draft_cleared(a),
    {
        App {
            budget: Budget::new(),
            selected_transaction: None,
            input_field: 0,
            input_amount: String::new(),
            input_category: String::new(),
            input_date: String::new(),
            input_description: String::new(),
            focus_mode: FocusMode::Transactions,
        }
    }

    /// Empties all four draft buffers and returns to the first field.
    pub fn clear_inputs(&mut self)
        ensures
            draft_cleared(*final(self)),
            same_ledger(*old(self), *final(self)),
            same_cursor(*old(self), *final(self)),
            final(self).focus_mode == old(self).focus_mode,
            final(self).budget == old(self).budget,
    {
        self.input_amount = String::new();
        self.input_category = String::new();
        self.input_date = String::new();
        self.input_description = String::new();
        self.input_field = 0;
    }

    /// Moves the cursor one step down (`delta == 1`) or up (`delta == -1`),
    /// clamped to the ledger; selects the first entry when none is selected.
    pub fn move_selection(&mut self, delta: i32)
        requires
            old(self).wf(),
            delta == 1 || delta == -1,
        ensures
            final(self).wf(),
            moved(*old(self), *final(self), delta as int),
    {
        let len = self.budget.transactions.len();
        proof {
            assert(len == self.budget@.len());
        }
        match self.selected_transaction {
            Some(i) => {
                let ni: usize = if delta == 1 {
                    i + 1
                } else {
                    if i == 0 {
                        0
                    } else {
                        i - 1
                    }
                };
                if ni < len {
                    self.selected_transaction = Some(ni);
                }
            },
            None => {
                if len > 0 {
                    self.selected_transaction = Some(0);
                }
            },
        }
    }

    /// Removes the selected entry, if the selection is valid, and clamps
    /// the cursor into the new range; pressing delete with no selection,
    /// or with a stale out-of-range one, changes nothing.
    pub fn delete_selected(&mut self)
        ensures
            deleted(*old(self), *final(self)),
            old(self).wf() ==> final(self).wf(),
    {
        match self.selected_transaction {
            Some(index) => {
                let len = self.budget.transactions.len();
                proof {
                    assert(len == self.budget@.len());
                }
                if index < len {
                    self.budget.remove_transaction(index);
                    let new_len = self.budget.transactions.len();
                    proof {
                        assert(new_len == self.budget@.len());
                    }
                    self.selected_transaction = if new_len == 0 {
                        None
                    } else {
                        Some(
                            if index < new_len {
                                index
                            } else {
                                new_len - 1
                            },
                        )
                    };
                }
            },
            None => {},
        }
    }

    /// Builds a transaction from the drafts and appends it to the ledger:
    /// amount text that does not parse falls back to zero, an empty date
    /// falls back to `today`; category and description go in verbatim.
    /// Clears the drafts.
    pub fn commit_entry(&mut self, today: String)
        requires
            old(self).wf(),
        ensures
            final(self).wf(),
            committed(*old(self), *final(self), today@),
            final(self).focus_mode == old(self).focus_mode,
    {
        let amount: i64 = match parse_amount(self.input_amount.as_str()) {
            Some(v) => v,
            None => 0,
        };
        proof {
            lemma_parse_amount_bounds(self.input_amount@);
        }
        let date = if self.input_date.as_str().is_empty() {
            today
        } else {
            self.input_date.clone()
        };
        let tx = Transaction {
            amount,
            category: self.input_category.clone(),
            date,
            description: self.input_description.clone(),
        };
        let ghost tv = tx@;
        proof {
            assert(tx_valid(tv));
            assert(tv == commit_tx(*old(self), today@));
        }
        self.budget.add_transaction(tx);
        self.clear_inputs();
    }

    /// Commits the drafts, with the machine's clock supplying today's date
    /// for an empty date field. Whatever the clock returned, the new entry
    /// carries it only when the date draft was empty.
    pub fn save_transaction(&mut self)
        requires
            old(self).wf(),
        ensures
            final(self).wf(),
            exists|today: Seq<char>| committed(*old(self), *final(self), today),
            old(self).input_date@.len() > 0 ==> committed(
                *old(self),
                *final(self),
                Seq::<char>::empty(),
            ),
            old(self).input_date@.len() == 0 ==> month_of_spec(
                final(self).budget@.last().date,
            ) is Some,
            final(self).focus_mode == old(self).focus_mode,
    {
        let today = crate::clock::today_string();
        let ghost td = today@;
        self.commit_entry(today);
        proof {
            assert(committed(*old(self), *self, td));
            if old(self).input_date@.len() > 0 {
                assert(commit_tx(*old(self), td) == commit_tx(*old(self), Seq::<char>::empty()));
            } else {
                // the clock text holds a '-', so the entry reaches a month
                lemma_find_char_found(td, '-');
                assert(self.budget@.last().date == td);
            }
        }
    }

    /// Feeds one key event through the machine. Returns false exactly when
    /// the key requests exit (Escape while browsing).
    pub fn handle_input(&mut self, key: Key) -> (cont: bool)
        requires
            old(self).wf(),
        ensures
            final(self).wf(),
            old(self).focus_mode is Transactions ==> browsing_step(
                *old(self),
                *final(self),
                key,
                cont,
            ),
            old(self).focus_mode is Input ==> editing_step(*old(self), *final(self), key, cont),
    {
        match self.focus_mode {
            FocusMode::Transactions => match key {
                Key::Esc => false,
                Key::Char(c) => {
                    if c == 'a' {
                        self.focus_mode = FocusMode::Input;
                        self.clear_inputs();
                    } else if c == 'd' {
                        self.delete_selected();
                    }
                    true
                },
                Key::Down => {
                    self.move_selection(1);
                    true
                },
                Key::Up => {
                    self.move_selection(-1);
                    true
                },
                _ => true,
            },
            FocusMode::Input => match key {
                Key::Esc => {
                    self.clear_inputs();
                    self.focus_mode = FocusMode::Transactions;
                    true
                },
                Key::Enter => {
                    self.save_transaction();
                    let ghost mid = *self;
                    self.focus_mode = FocusMode::Transactions;
                    proof {
                        let td = choose|t: Seq<char>| committed(*old(self), mid, t);
                        assert(committed(*old(self), *self, td));
                    }
                    true
                },
                Key::Tab => {
                    self.input_field = (self.input_field + 1) % 4;
                    true
                },
                Key::BackTab => {
                    self.input_field = (self.input_field + 3) % 4;
                    true
                },
                Key::Backspace => {
                    if self.input_field == 0 {
                        let _ = crate::text::pop_char(&mut self.input_amount);
                    } else if self.input_field == 1 {
                        let _ = crate::text::pop_char(&mut self.input_category);
                    } else if self.input_field == 2 {
                        let _ = crate::text::pop_char(&mut self.input_date);
                    } else {
                        let _ = crate::text::pop_char(&mut self.input_description);
                    }
                    true
                },
                Key::Char(c) => {
                    if self.input_field == 0 {
                        crate::text::push_char(&mut self.input_amount, c);
                    } else if self.input_field == 1 {
                        crate::text::push_char(&mut self.input_category, c);
                    } else if self.input_field == 2 {
                        crate::text::push_char(&mut self.input_date, c);
                    } else {
                        crate::text::push_char(&mut self.input_description, c);
                    }
                    true
                },
                _ => true,
            },
        }
    }
}

} // verus!
