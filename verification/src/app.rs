use vstd::prelude::*;
use crate::search::{rank_view, view_ranking};
use crate::session::{ScoredSession, Session};
use crate::display::{byte_len, format_date, home_dir_text, is_date_of, opt_text, shorten_path_under, shortened, table_texts,
    texts};
use crate::text::{decimal, decimal_text, pop_char, push_char, text_from};

verus! {

/// The result of running the app: the user selected a session, or quit.
#[derive(Debug)]
pub enum AppResult {
    Selected(Session),
    Quit,
}

/// A message from the background loader.
#[derive(Debug)]
pub enum LoadMsg {
    /// More sessions, in display order.
    Batch(Vec<Session>),
    /// Every session has been sent; last messages follow.
    SessionsDone,
    /// The last message of the session at `index`.
    BackfillInput { index: usize, last_input: String },
    /// Loading has ended, with an error if it failed.
    Done(Option<String>),
}

/// What one look at the loader's channel found.
#[derive(Debug)]
pub enum Received {
    Message(LoadMsg),
    /// Nothing is waiting.
    Empty,
    /// The loader has gone away.
    Disconnected,
}

/// What a round of polling has found so far.
#[derive(Debug, Clone, Copy)]
pub struct PollProgress {
    /// The display needs a redraw.
    pub needs_redraw: bool,
    /// Sessions were added, so the list must be filtered again.
    pub sessions_added: bool,
}

impl PollProgress {
    /// The start of a round: nothing found yet.
    pub fn new() -> (r: PollProgress)
        ensures
            !r.needs_redraw && !r.sessions_added,
    {
        PollProgress { needs_redraw: false, sessions_added: false }
    }
}

/// The state of the interactive session picker.
pub struct App {
    pub sessions: Vec<Session>,
    pub filtered: Vec<ScoredSession>,
    pub query: String,
    pub selected: usize,
    pub sort_by_date: bool,
    pub result: Option<AppResult>,
    /// The row the table widget marks as selected.
    pub table_selected: Option<usize>,
    pub loading: bool,
    pub loading_messages: bool,
    pub load_error: Option<String>,
}

/// The selection after the list has `len` entries: none on an empty list,
/// the last entry when it was past the end, else unchanged.
pub open spec fn clamped(selected: usize, table_selected: Option<usize>, len: nat) -> (usize, Option<usize>) {
    if len == 0 {
        (0, None)
    } else if selected >= len {
        ((len - 1) as usize, Some((len - 1) as usize))
    } else {
        (selected, table_selected)
    }
}

/// The position in `s` of the first entry whose session has the id `id`;
/// `s.len()` when there is none.
pub open spec fn first_with_id(s: Seq<ScoredSession>, id: Seq<char>) -> int
    decreases s.len(),
{
    if s.len() == 0 {
        0
    } else if s[0].session.id@ == id {
        0
    } else {
        1 + first_with_id(s.drop_first(), id)
    }
}

proof fn lemma_first_with_id(s: Seq<ScoredSession>, id: Seq<char>, j: int)
    requires
        0 <= j <= s.len(),
        forall|k: int| 0 <= k < j ==> (#[trigger] s[k]).session.id@ != id,
        j == s.len() || s[j].session.id@ == id,
    ensures
        first_with_id(s, id) == j,
    decreases s.len(),
{
    if s.len() > 0 && j > 0 {
        assert(s[0].session.id@ != id);
        assert forall|k: int| 0 <= k < j - 1 implies (#[trigger] s.drop_first()[k]).session.id@ != id by {
            assert(s.drop_first()[k] == s[k + 1]);
        }
        lemma_first_with_id(s.drop_first(), id, j - 1);
    }
}

/// The cells of one listed entry: title, last message, shortened
/// directory, date text.
pub open spec fn entry_cells(x: ScoredSession, home: Option<Seq<char>>, date: Seq<char>) -> Seq<Seq<char>> {
    seq![x.session.title@, x.session.last_input@, shortened(x.session.directory@, home), date]
}

/// The cells of all listed entries.
pub open spec fn entry_table(
    entries: Seq<ScoredSession>,
    home: Option<Seq<char>>,
    dates: Seq<Seq<char>>,
) -> Seq<Seq<Seq<char>>> {
    Seq::new(entries.len(), |i: int| entry_cells(entries[i], home, dates[i]))
}

impl App {
    /// The selection is on an entry of the list, or at 0 on an empty list;
    /// the table marks no row or the selected one.
    pub open spec fn wf(&self) -> bool {
        &&& self.filtered.len() == 0 ==> self.selected == 0
        &&& self.filtered.len() > 0 ==> self.selected < self.filtered.len()
        &&& self.table_selected is Some ==> self.table_selected == Some(self.selected)
    }

    /// `self` is `before` with the query set to `query`, the order to
    /// `sort_by_date`, the list filtered anew for them and the selection
    /// clamped to it; nothing else changed.
    pub open spec fn refreshed(&self, before: &App, query: Seq<char>, sort_by_date: bool) -> bool {
        &&& self.filtered@ == view_ranking(before.sessions@, query, sort_by_date)
        &&& (self.selected, self.table_selected) == clamped(
            before.selected,
            before.table_selected,
            self.filtered@.len(),
        )
        &&& self.query@ == query
        &&& self.sort_by_date == sort_by_date
        &&& self.sessions@ == before.sessions@
        &&& self.result == before.result
        &&& self.loading == before.loading
        &&& self.loading_messages == before.loading_messages
        &&& self.load_error == before.load_error
    }

    /// `self` comes from `before` by one step of the picker, as far as the
    /// selection goes: the list was filtered anew and the selection clamped
    /// to it; or the list kept its length and the selection stayed, moved
    /// up one entry, or moved down one entry onto the list, the table
    /// marking it.
    pub open spec fn follows(&self, before: &App) -> bool {
        ||| (self.selected, self.table_selected) == clamped(
            before.selected,
            before.table_selected,
            self.filtered@.len(),
        )
        ||| self.filtered@.len() == before.filtered@.len() && self.selected == before.selected
            && self.table_selected == before.table_selected
        ||| self.filtered@.len() == before.filtered@.len() && self.selected + 1 == before.selected
            && self.table_selected == Some(self.selected)
        ||| self.filtered@.len() == before.filtered@.len() && self.selected == before.selected + 1
            && self.selected < self.filtered@.len() && self.table_selected == Some(self.selected)
    }

    /// `self` shows the same list and selection as `before`.
    pub open spec fn same_list(&self, before: &App) -> bool {
        &&& self.filtered@ == before.filtered@
        &&& self.selected == before.selected
        &&& self.table_selected == before.table_selected
    }

    /// `self` holds the same sessions, query, order, result and loading
    /// state as `before`.
    pub open spec fn same_data(&self, before: &App) -> bool {
        &&& self.sessions@ == before.sessions@
        &&& self.query@ == before.query@
        &&& self.sort_by_date == before.sort_by_date
        &&& self.result == before.result
        &&& self.loading == before.loading
        &&& self.loading_messages == before.loading_messages
        &&& self.load_error == before.load_error
    }

    /// A fresh app: nothing loaded yet, an empty query, loading under way.
    pub fn new() -> (app: App)
        ensures
            app.wf(),
            app.sessions@.len() == 0,
            app.filtered@.len() == 0,
            app.query@.len() == 0,
            app.selected == 0,
            !app.sort_by_date,
            app.result is None,
            app.table_selected == Some(0usize),
            app.loading,
            !app.loading_messages,
            app.load_error is None,
    {
        App {
            sessions: Vec::new(),
            filtered: Vec::new(),
            query: String::new(),
            selected: 0,
            sort_by_date: false,
            result: None,
            table_selected: Some(0),
            loading: true,
            loading_messages: false,
            load_error: None,
        }
    }

    /// Re-filter sessions based on the current query and sort mode, and
    /// clamp the selection to the new list.
    fn update_filter(&mut self)
        ensures
            old(self).wf() ==> final(self).wf(),
            final(self).follows(old(self)),
            final(self).refreshed(old(self), old(self).query@, old(self).sort_by_date),
    {
        self.filtered = rank_view(&self.sessions, self.query.as_str(), self.sort_by_date);
        if self.filtered.len() == 0 {
            self.selected = 0;
            self.table_selected = None;
        } else if self.selected >= self.filtered.len() {
            self.selected = self.filtered.len() - 1;
            self.table_selected = Some(self.selected);
        }
    }

    /// Append a character to the query and filter anew.
    pub fn type_char(&mut self, c: char)
        ensures
            old(self).wf() ==> final(self).wf(),
            final(self).follows(old(self)),
            final(self).refreshed(old(self), old(self).query@.push(c), old(self).sort_by_date),
    {
        push_char(&mut self.query, c);
        self.update_filter();
    }

    /// Delete the last character of the query, if any, and filter anew.
    pub fn backspace(&mut self)
        ensures
            old(self).wf() ==> final(self).wf(),
            final(self).follows(old(self)),
            final(self).refreshed(
                old(self),
                if old(self).query@.len() == 0 {
                    old(self).query@
                } else {
                    old(self).query@.drop_last()
                },
                old(self).sort_by_date,
            ),
    {
        let _ = pop_char(&mut self.query);
        self.update_filter();
    }

    /// Toggle between ordering by score and by date, and filter anew.
    pub fn toggle_sort(&mut self)
        ensures
            old(self).wf() ==> final(self).wf(),
            final(self).follows(old(self)),
            final(self).refreshed(old(self), old(self).query@, !old(self).sort_by_date),
    {
        self.sort_by_date = !self.sort_by_date;
        self.update_filter();
    }

    /// Move the selection up one entry, unless it is on the first.
    pub fn move_up(&mut self)
        ensures
            old(self).wf() ==> final(self).wf(),
            final(self).follows(old(self)),
            final(self).same_data(old(self)),
            final(self).filtered@ == old(self).filtered@,
            old(self).selected > 0 ==> final(self).selected == old(self).selected - 1
                && final(self).table_selected == Some((old(self).selected - 1) as usize),
            old(self).selected == 0 ==> final(self).same_list(old(self)),
    {
        if self.selected > 0 {
            self.selected = self.selected - 1;
            self.table_selected = Some(self.selected);
        }
    }

    /// Move the selection down one entry, unless it is on the last.
    pub fn move_down(&mut self)
        ensures
            old(self).wf() ==> final(self).wf(),
            final(self).follows(old(self)),
            final(self).same_data(old(self)),
            final(self).filtered@ == old(self).filtered@,
            old(self).selected + 1 < old(self).filtered@.len() ==> final(self).selected
                == old(self).selected + 1 && final(self).table_selected == Some(
                (old(self).selected + 1) as usize,
            ),
            old(self).selected + 1 >= old(self).filtered@.len() ==> final(self).same_list(old(self)),
    {
        if self.filtered.len() > 0 && self.selected < self.filtered.len() - 1 {
            self.selected = self.selected + 1;
            self.table_selected = Some(self.selected);
        }
    }

    /// Confirm the current selection: the selected entry's session becomes
    /// the result. With no entry selected (an empty list) nothing happens.
    pub fn confirm(&mut self)
        ensures
            old(self).wf() ==> final(self).wf(),
            final(self).follows(old(self)),
            final(self).same_list(old(self)),
            final(self).sessions@ == old(self).sessions@,
            final(self).query@ == old(self).query@,
            final(self).sort_by_date == old(self).sort_by_date,
            final(self).loading == old(self).loading,
            final(self).loading_messages == old(self).loading_messages,
            final(self).load_error == old(self).load_error,
            old(self).selected < old(self).filtered@.len() ==> final(self).result == Some(
                AppResult::Selected(old(self).filtered@[old(self).selected as int].session),
            ),
            old(self).selected >= old(self).filtered@.len() ==> final(self).result == old(self).result,
    {
        if self.selected < self.filtered.len() {
            let session = self.filtered[self.selected].session.clone();
            self.result = Some(AppResult::Selected(session));
        }
    }

    /// Quit without selecting.
    pub fn quit(&mut self)
        ensures
            old(self).wf() ==> final(self).wf(),
            final(self).follows(old(self)),
            final(self).same_list(old(self)),
            final(self).sessions@ == old(self).sessions@,
            final(self).query@ == old(self).query@,
            final(self).sort_by_date == old(self).sort_by_date,
            final(self).loading == old(self).loading,
            final(self).loading_messages == old(self).loading_messages,
            final(self).load_error == old(self).load_error,
            final(self).result == Some(AppResult::Quit),
    {
        self.result = Some(AppResult::Quit);
    }

    /// Whether the app should exit: a session was selected or the user quit.
    pub fn should_exit(&self) -> (r: bool)
        ensures
            r == self.result is Some,
    {
        self.result.is_some()
    }

    /// `self` is `before` after the session at `index` learned its last message.
    pub open spec fn backfilled(&self, before: &App, index: usize, last_input: String) -> bool {
        let updated = Session { last_input: last_input, ..before.sessions@[index as int] };
        let j = first_with_id(before.filtered@, before.sessions@[index as int].id@);
        &&& self.sessions@ == before.sessions@.update(index as int, updated)
        &&& self.filtered@ == if j < before.filtered@.len() {
            before.filtered@.update(
                j,
                ScoredSession {
                    session: Session { last_input: last_input, ..before.filtered@[j].session },
                    ..before.filtered@[j]
                },
            )
        } else {
            before.filtered@
        }
        &&& self.selected == before.selected
        &&& self.table_selected == before.table_selected
        &&& self.query@ == before.query@
        &&& self.sort_by_date == before.sort_by_date
        &&& self.result == before.result
        &&& self.loading == before.loading
        &&& self.loading_messages == before.loading_messages
        &&& self.load_error == before.load_error
    }

    /// `self` is `before` with the loading flags and error set as given.
    pub open spec fn loading_set(
        &self,
        before: &App,
        loading: bool,
        loading_messages: bool,
        load_error: Option<String>,
    ) -> bool {
        &&& self.same_list(before)
        &&& self.sessions@ == before.sessions@
        &&& self.query@ == before.query@
        &&& self.sort_by_date == before.sort_by_date
        &&& self.result == before.result
        &&& self.loading == loading
        &&& self.loading_messages == loading_messages
        &&& self.load_error == load_error
    }

    /// Handle one look at the loader's channel; returns whether to look
    /// again. Batches are added to the sessions (the list is filtered anew
    /// by `finish_poll`); the end of the sessions, the end of loading and
    /// a lost loader update the loading state; a last message is recorded
    /// in its session and in the first listed entry with that session's id.
    pub fn take_message(&mut self, progress: &mut PollProgress, received: Received) -> (keep_polling:
        bool)
        ensures
            old(self).wf() ==> final(self).wf(),
            final(self).follows(old(self)),
            match received {
                Received::Message(LoadMsg::Batch(batch)) => {
                    &&& keep_polling
                    &&& final(self).sessions@ == old(self).sessions@ + batch@
                    &&& final(self).same_list(old(self))
                    &&& final(self).query@ == old(self).query@
                    &&& final(self).sort_by_date == old(self).sort_by_date
                    &&& final(self).result == old(self).result
                    &&& final(self).loading == old(self).loading
                    &&& final(self).loading_messages == old(self).loading_messages
                    &&& final(self).load_error == old(self).load_error
                    &&& final(progress).needs_redraw
                    &&& final(progress).sessions_added
                },
                Received::Message(LoadMsg::SessionsDone) => {
                    &&& keep_polling
                    &&& final(self).loading_set(old(self), false, true, old(self).load_error)
                    &&& final(progress).needs_redraw
                    &&& final(progress).sessions_added == old(progress).sessions_added
                },
                Received::Message(LoadMsg::BackfillInput { index, last_input }) => {
                    &&& keep_polling
                    &&& final(progress).sessions_added == old(progress).sessions_added
                    &&& index < old(self).sessions@.len() ==> final(self).backfilled(
                        old(self),
                        index,
                        last_input,
                    ) && final(progress).needs_redraw
                    &&& index >= old(self).sessions@.len() ==> final(self).loading_set(
                        old(self),
                        old(self).loading,
                        old(self).loading_messages,
                        old(self).load_error,
                    ) && *final(progress) == *old(progress)
                },
                Received::Message(LoadMsg::Done(err)) => {
                    &&& !keep_polling
                    &&& final(self).loading_set(old(self), false, false, err)
                    &&& final(progress).needs_redraw
                    &&& final(progress).sessions_added == old(progress).sessions_added
                },
                Received::Empty => {
                    &&& !keep_polling
                    &&& final(self).loading_set(
                        old(self),
                        old(self).loading,
                        old(self).loading_messages,
                        old(self).load_error,
                    )
                    &&& *final(progress) == *old(progress)
                },
                Received::Disconnected => {
                    &&& !keep_polling
                    &&& final(self).loading_set(old(self), false, false, old(self).load_error)
                    &&& final(progress).needs_redraw
                    &&& final(progress).sessions_added == old(progress).sessions_added
                },
            },
    {
        match received {
            Received::Message(LoadMsg::Batch(batch)) => {
                let mut batch = batch;
                self.sessions.append(&mut batch);
                progress.sessions_added = true;
                progress.needs_redraw = true;
                true
            },
            Received::Message(LoadMsg::SessionsDone) => {
                self.loading = false;
                self.loading_messages = true;
                progress.needs_redraw = true;
                true
            },
            Received::Message(LoadMsg::BackfillInput { index, last_input }) => {
                if index < self.sessions.len() {
                    let mut updated = self.sessions[index].clone();
                    updated.last_input = last_input;
                    self.sessions.set(index, updated);
                    let mut j: usize = 0;
                    while j < self.filtered.len()
                        invariant
                            j <= self.filtered@.len(),
                            index < self.sessions@.len(),
                            forall|k: int|
                                0 <= k < j ==> (#[trigger] self.filtered@[k]).session.id@
                                    != self.sessions@[index as int].id@,
                        ensures
                            j <= self.filtered@.len(),
                            index < self.sessions@.len(),
                            forall|k: int|
                                0 <= k < j ==> (#[trigger] self.filtered@[k]).session.id@
                                    != self.sessions@[index as int].id@,
                            j == self.filtered@.len() || self.filtered@[j as int].session.id@
                                == self.sessions@[index as int].id@,
                        decreases self.filtered.len() - j,
                    {
                        if self.filtered[j].session.id == self.sessions[index].id {
                            break;
                        }
                        j = j + 1;
                    }
                    proof {
                        lemma_first_with_id(self.filtered@, self.sessions@[index as int].id@, j as int);
                    }
                    if j < self.filtered.len() {
                        let mut entry = self.filtered[j].clone();
                        entry.session.last_input = self.sessions[index].last_input.clone();
                        self.filtered.set(j, entry);
                    }
                    progress.needs_redraw = true;
                }
                true
            },
            Received::Message(LoadMsg::Done(err)) => {
                self.loading = false;
                self.loading_messages = false;
                self.load_error = err;
                progress.needs_redraw = true;
                false
            },
            Received::Empty => false,
            Received::Disconnected => {
                self.loading = false;
                self.loading_messages = false;
                progress.needs_redraw = true;
                false
            },
        }
    }

    /// End a round of polling: filter anew if sessions were added, and
    /// report whether the display needs a redraw.
    pub fn finish_poll(&mut self, progress: PollProgress) -> (needs_redraw: bool)
        ensures
            old(self).wf() ==> final(self).wf(),
            final(self).follows(old(self)),
            needs_redraw == progress.needs_redraw,
            progress.sessions_added ==> final(self).refreshed(
                old(self),
                old(self).query@,
                old(self).sort_by_date,
            ),
            !progress.sessions_added ==> final(self).same_list(old(self)) && final(self).same_data(
                old(self),
            ),
    {
        if progress.sessions_added {
            self.update_filter();
        }
        progress.needs_redraw
    }

    /// The label of the current order: `date` or `score`.
    pub fn sort_label(&self) -> (r: &'static str)
        ensures
            r@ == if self.sort_by_date {
                "date"@
            } else {
                "score"@
            },
    {
        if self.sort_by_date {
            "date"
        } else {
            "score"
        }
    }

    /// The terminal column of the cursor in the search box that starts at
    /// column `left`: past the border, the `> ` prompt and the query, whose
    /// length counts bytes and is taken modulo 2^16.
    pub fn cursor_column(&self, left: u16) -> (r: u16)
        requires
            left + 3 + byte_len(self.query@) % 65536 <= u16::MAX,
        ensures
            r == left + 3 + byte_len(self.query@) % 65536,
    {
        let n: usize = self.query.as_str().len();
        let low: u16 = (n % 65536) as u16;
        left + 3 + low
    }

    /// Whether row `row` of the list is drawn highlighted: the selected one.
    pub fn is_highlighted(&self, row: usize) -> (r: bool)
        ensures
            r == (row == self.selected),
    {
        row == self.selected
    }

    /// The texts of the status line: the count of listed entries out of all
    /// sessions, and the current order with the key that switches it.
    pub fn status_texts(&self) -> (r: (String, String))
        ensures
            r.0@ == seq![' '] + decimal(self.filtered@.len()) + seq!['/'] + decimal(
                self.sessions@.len(),
            ),
            r.1@ == "  sort: "@ + (if self.sort_by_date {
                "date"@
            } else {
                "score"@
            }) + " (F2)"@,
    {
        proof {
            reveal_strlit(" ");
            reveal_strlit("/");
        }
        let mut counts = text_from(" ");
        let shown = decimal_text(self.filtered.len());
        counts.append(shown.as_str());
        counts.append("/");
        let total = decimal_text(self.sessions.len());
        counts.append(total.as_str());
        let mut order = text_from("  sort: ");
        order.append(self.sort_label());
        order.append(" (F2)");
        assert(counts@ =~= seq![' '] + decimal(self.filtered@.len()) + seq!['/'] + decimal(
            self.sessions@.len(),
        ));
        (counts, order)
    }

    /// The cells of the listed entries, given the home directory to
    /// shorten paths under and each entry's date text.
    pub fn entry_rows_with(&self, home: &Option<String>, dates: &Vec<String>) -> (r: Vec<Vec<String>>)
        requires
            dates.len() == self.filtered.len(),
        ensures
            table_texts(r@) == entry_table(
                self.filtered@,
                opt_text(*home),
                Seq::new(dates@.len(), |i: int| dates@[i]@),
            ),
    {
        let ghost want = Seq::new(
            self.filtered@.len(),
            |i: int| entry_cells(self.filtered@[i], opt_text(*home), dates@[i]@),
        );
        let mut rows: Vec<Vec<String>> = Vec::new();
        let mut i: usize = 0;
        while i < self.filtered.len()
            invariant
                i <= self.filtered.len(),
                dates.len() == self.filtered.len(),
                want == Seq::new(
                    self.filtered@.len(),
                    |i: int| entry_cells(self.filtered@[i], opt_text(*home), dates@[i]@),
                ),
                rows.len() == i,
                table_texts(rows@) == want.take(i as int),
            decreases self.filtered.len() - i,
        {
            let s = &self.filtered[i].session;
            let row = vec![
                s.title.clone(),
                s.last_input.clone(),
                shorten_path_under(s.directory.as_str(), home),
                dates[i].clone(),
            ];
            assert(texts(row@) =~= want[i as int]);
            rows.push(row);
            assert(table_texts(rows@) =~= want.take(i + 1));
            i = i + 1;
        }
        assert(want.take(i as int) =~= want);
        assert(want =~= entry_table(
            self.filtered@,
            opt_text(*home),
            Seq::new(dates@.len(), |i: int| dates@[i]@),
        ));
        rows
    }

    /// The cells of the listed entries: title, last message, directory
    /// shortened under the user's home, and local date.
    pub fn entry_rows(&self) -> (r: Vec<Vec<String>>)
        ensures
            exists|home: Option<Seq<char>>, dates: Seq<Seq<char>>|
                {
                    &&& dates.len() == self.filtered.len()
                    &&& forall|i: int|
                        0 <= i < dates.len() ==> is_date_of(
                            #[trigger] dates[i],
                            self.filtered@[i].session.time_created,
                        )
                    &&& table_texts(r@) == #[trigger] entry_table(self.filtered@, home, dates)
                },
    {
        let home = home_dir_text();
        let mut dates: Vec<String> = Vec::new();
        let mut i: usize = 0;
        while i < self.filtered.len()
            invariant
                i <= self.filtered.len(),
                dates.len() == i,
                forall|j: int|
                    0 <= j < i ==> is_date_of(
                        #[trigger] dates@[j]@,
                        self.filtered@[j].session.time_created,
                    ),
            decreases self.filtered.len() - i,
        {
            dates.push(format_date(self.filtered[i].session.time_created));
            i = i + 1;
        }
        let r = self.entry_rows_with(&home, &dates);
        let ghost ds = Seq::new(dates@.len(), |i: int| dates@[i]@);
        assert(ds.len() == self.filtered.len());
        assert(forall|j: int| 0 <= j < ds.len() ==> ds[j] == dates@[j]@);
        r
    }
}

/// Law: typing a character and then deleting it gives back the query, and
/// the list shows the entries for that query again.
pub proof fn lemma_type_then_backspace(a0: App, a1: App, a2: App, c: char)
    requires
        a1.refreshed(&a0, a0.query@.push(c), a0.sort_by_date),
        a2.refreshed(
            &a1,
            if a1.query@.len() == 0 {
                a1.query@
            } else {
                a1.query@.drop_last()
            },
            a1.sort_by_date,
        ),
    ensures
        a2.query@ == a0.query@,
        a2.sort_by_date == a0.sort_by_date,
        a2.sessions@ == a0.sessions@,
        a2.filtered@ == view_ranking(a0.sessions@, a0.query@, a0.sort_by_date),
{
    assert(a0.query@.push(c).drop_last() =~= a0.query@);
}

/// Law: switching the order twice gives back the order, and the list shows
/// the entries in it again.
pub proof fn lemma_toggle_twice(a0: App, a1: App, a2: App)
    requires
        a1.refreshed(&a0, a0.query@, !a0.sort_by_date),
        a2.refreshed(&a1, a1.query@, !a1.sort_by_date),
    ensures
        a2.query@ == a0.query@,
        a2.sort_by_date == a0.sort_by_date,
        a2.sessions@ == a0.sessions@,
        a2.filtered@ == view_ranking(a0.sessions@, a0.query@, a0.sort_by_date),
{
}

/// One step of the picker keeps the selection on the list.
proof fn lemma_follows_keeps_wf(before: App, after: App)
    requires
        before.wf(),
        after.follows(&before),
    ensures
        after.wf(),
{
}

/// Law: from a well-formed app (as `App::new` makes one), through any
/// sequence of the picker's steps, every state keeps the selection on an
/// entry of the list (at 0 on an empty list), and the table marks no row
/// or the selected one.
pub proof fn lemma_selection_stays(states: Seq<App>)
    requires
        states.len() > 0,
        states[0].wf(),
        forall|i: int| 0 <= i < states.len() - 1 ==> (#[trigger] states[i + 1]).follows(&states[i]),
    ensures
        forall|i: int| 0 <= i < states.len() ==> (#[trigger] states[i]).wf(),
    decreases states.len(),
{
    if states.len() > 1 {
        let front = states.drop_last();
        assert forall|i: int| 0 <= i < front.len() - 1 implies (#[trigger] front[i + 1]).follows(
            &front[i],
        ) by {
            assert(front[i + 1] == states[i + 1] && front[i] == states[i]);
        }
        lemma_selection_stays(front);
        let k = states.len() - 1;
        let j = k - 1;
        assert(front[j].wf());
        assert(states[j + 1].follows(&states[j]));
        lemma_follows_keeps_wf(states[j], states[j + 1]);
        assert forall|i: int| 0 <= i < states.len() implies (#[trigger] states[i]).wf() by {
            if i < k {
                assert(front[i] == states[i]);
            }
        }
    }
}

} // verus!
