use vstd::prelude::*;
use vstd::string::*;
use crate::operations::{Operation, OperationView};

verus! {

/// `x` pulled into `[lo, hi]`.
pub open spec fn clamp(x: int, lo: int, hi: int) -> int {
    if x < lo {
        lo
    } else if x > hi {
        hi
    } else {
        x
    }
}

/// The lines of `lines` whose flag in `sel` is set, in order, among the first `n`.
pub open spec fn picked(lines: Seq<Seq<char>>, sel: Seq<bool>, n: int) -> Seq<Seq<char>>
    decreases n,
{
    if n <= 0 {
        Seq::empty()
    } else if sel[n - 1] {
        picked(lines, sel, n - 1).push(lines[n - 1])
    } else {
        picked(lines, sel, n - 1)
    }
}

/// The lines of `s` joined by newlines.
pub open spec fn join_lines(s: Seq<Seq<char>>) -> Seq<char>
    decreases s.len(),
{
    if s.len() == 0 {
        Seq::empty()
    } else if s.len() == 1 {
        s[0]
    } else {
        join_lines(s.drop_last()) + seq!['\n'] + s.last()
    }
}

/// `sel` made `n` long: kept where it reaches, `false` beyond it.
pub open spec fn resized(sel: Seq<bool>, n: int) -> Seq<bool> {
    Seq::new(n as nat, |i: int| if i < sel.len() { sel[i] } else { false })
}

/// The abstract selection state: the lines, one flag per line, the cursor, the
/// number of header lines that the cursor never enters, and whether help shows.
pub struct StateView {
    pub lines: Seq<Seq<char>>,
    pub selected: Seq<bool>,
    pub cursor: Option<usize>,
    pub first_index: usize,
    pub show_help_menu: bool,
}

impl StateView {
    /// The highest position the cursor may take.
    pub open spec fn last_index(self) -> int {
        if self.lines.len() == 0 {
            self.first_index as int
        } else if self.first_index >= self.lines.len() - 1 {
            self.first_index as int
        } else {
            self.lines.len() - 1
        }
    }

    /// One flag per line, and no more lines than a `usize` can count.
    pub open spec fn sized(self) -> bool {
        &&& self.selected.len() == self.lines.len()
        &&& self.lines.len() <= usize::MAX
    }

    pub open spec fn wf(self) -> bool {
        &&& self.sized()
        &&& (self.cursor is None <==> self.lines.len() == 0)
        &&& (self.cursor matches Some(c) ==> self.first_index <= c <= self.last_index())
    }

    /// The cursor after a move towards `target`.
    pub open spec fn moved(self, target: int) -> Option<usize> {
        if self.lines.len() == 0 {
            None
        } else {
            Some(clamp(target, self.first_index as int, self.last_index()) as usize)
        }
    }

    pub open spec fn with_cursor(self, c: Option<usize>) -> StateView {
        StateView { cursor: c, ..self }
    }

    pub open spec fn with_selected(self, s: Seq<bool>) -> StateView {
        StateView { selected: s, ..self }
    }

    pub open spec fn down(self, steps: int) -> StateView {
        match self.cursor {
            Some(i) => self.with_cursor(self.moved(i + steps)),
            None => self,
        }
    }

    pub open spec fn up(self, steps: int) -> StateView {
        match self.cursor {
            Some(i) => self.with_cursor(self.moved(i - steps)),
            None => self,
        }
    }

    pub open spec fn first(self) -> StateView {
        self.with_cursor(self.moved(self.first_index as int))
    }

    pub open spec fn last(self) -> StateView {
        self.with_cursor(self.moved(self.last_index()))
    }

    /// The selection with the flag under the cursor replaced by `f(old flag)`.
    pub open spec fn set_at_cursor(self, f: spec_fn(bool) -> bool) -> StateView {
        match self.cursor {
            Some(i) => if i < self.selected.len() {
                self.with_selected(self.selected.update(i as int, f(self.selected[i as int])))
            } else {
                self
            },
            None => self,
        }
    }

    pub open spec fn select(self) -> StateView {
        self.set_at_cursor(|b: bool| true)
    }

    pub open spec fn unselect(self) -> StateView {
        self.set_at_cursor(|b: bool| false)
    }

    pub open spec fn select_toggle(self) -> StateView {
        self.set_at_cursor(|b: bool| !b)
    }

    pub open spec fn select_all(self) -> StateView {
        self.with_selected(Seq::new(self.selected.len(), |i: int| true))
    }

    pub open spec fn unselect_all(self) -> StateView {
        self.with_selected(Seq::new(self.selected.len(), |i: int| false))
    }

    pub open spec fn toggle_help_menu(self) -> StateView {
        StateView { show_help_menu: !self.show_help_menu, ..self }
    }

    /// New lines in place of the old: flags kept by position, the cursor kept
    /// where it can be and pulled into range otherwise.
    pub open spec fn update_lines(self, new_lines: Seq<Seq<char>>) -> StateView {
        let s = StateView {
            lines: new_lines,
            selected: resized(self.selected, new_lines.len() as int),
            ..self
        };
        match self.cursor {
            None => s.first(),
            Some(i) => s.with_cursor(s.moved(i as int)),
        }
    }

    /// The state after one operation; running a command leaves it as it is.
    pub open spec fn apply(self, op: OperationView) -> StateView {
        match op {
            OperationView::MoveUp(n) => self.up(n as int),
            OperationView::MoveDown(n) => self.down(n as int),
            OperationView::MoveFirst => self.first(),
            OperationView::MoveLast => self.last(),
            OperationView::Select => self.select(),
            OperationView::Unselect => self.unselect(),
            OperationView::ToggleSelect => self.select_toggle(),
            OperationView::SelectAll => self.select_all(),
            OperationView::UnselectAll => self.unselect_all(),
            OperationView::ToggleHelp => self.toggle_help_menu(),
            OperationView::RunCommand(_, _) => self,
        }
    }

    /// What a command is handed: the selected lines joined by newlines, or,
    /// with nothing selected, the line under the cursor.
    pub open spec fn selected_text(self) -> Option<Seq<char>> {
        if self.selected.contains(true) {
            Some(join_lines(picked(self.lines, self.selected, self.lines.len() as int)))
        } else {
            match self.cursor {
                Some(i) => if i < self.lines.len() {
                    Some(self.lines[i as int])
                } else {
                    None
                },
                None => None,
            }
        }
    }
}

/// The lines on display, which of them are selected, and the cursor.
pub struct State {
    lines: Vec<String>,
    selected: Vec<bool>,
    cursor: Option<usize>,
    first_index: usize,
    show_help_menu: bool,
}

impl View for State {
    type V = StateView;

    closed spec fn view(&self) -> StateView {
        StateView {
            lines: self.lines@.map_values(|l: String| l@),
            selected: self.selected@,
            cursor: self.cursor,
            first_index: self.first_index,
            show_help_menu: self.show_help_menu,
        }
    }
}

impl State {
    pub open spec fn wf(&self) -> bool {
        self@.wf()
    }

    /// An empty state whose first `header_lines` lines are headers.
    pub fn new(header_lines: usize) -> (r: State)
        ensures
            r.wf(),
            r@.lines.len() == 0,
            r@.selected.len() == 0,
            r@.cursor is None,
            r@.first_index == header_lines,
            !r@.show_help_menu,
    {
        State {
            lines: Vec::new(),
            selected: Vec::new(),
            cursor: None,
            first_index: header_lines,
            show_help_menu: false,
        }
    }

    fn last_index(&self) -> (r: usize)
        requires
            self@.sized(),
        ensures
            r == self@.last_index(),
    {
        let n = self.lines.len();
        if n == 0 {
            self.first_index
        } else if self.first_index >= n - 1 {
            self.first_index
        } else {
            n - 1
        }
    }

    /// Moves the cursor to `target` pulled into range.
    fn cursor_move(&mut self, target: usize)
        requires
            old(self)@.sized(),
        ensures
            final(self).wf(),
            final(self)@ == old(self)@.with_cursor(old(self)@.moved(target as int)),
    {
        if self.lines.len() == 0 {
            self.cursor = None;
        } else {
            let first = self.first_index;
            let last = self.last_index();
            let c = if target < first {
                first
            } else if target > last {
                last
            } else {
                target
            };
            self.cursor = Some(c);
        }
    }

    /// Replaces the lines; flags are kept by position, new ones start unset,
    /// and the cursor is pulled into the new range.
    pub fn update_lines(&mut self, new_lines: Vec<String>)
        requires
            old(self).wf(),
        ensures
            final(self).wf(),
            final(self)@ == old(self)@.update_lines(new_lines@.map_values(|l: String| l@)),
    {
        let n = new_lines.len();
        let mut sel: Vec<bool> = Vec::new();
        let mut i: usize = 0;
        while i < n
            invariant
                0 <= i <= n,
                sel@ == resized(self.selected@, n as int).subrange(0, i as int),
            decreases n - i,
        {
            let b = if i < self.selected.len() {
                self.selected[i]
            } else {
                false
            };
            sel.push(b);
            i = i + 1;
            assert(sel@ =~= resized(self.selected@, n as int).subrange(0, i as int));
        }
        assert(sel@ =~= resized(self.selected@, n as int));
        self.lines = new_lines;
        self.selected = sel;
        match self.cursor {
            None => self.first(),
            Some(c) => self.cursor_move(c),
        }
    }

    /// Moves the cursor `steps` lines down, stopping at the last line.
    pub fn down(&mut self, steps: usize)
        requires
            old(self).wf(),
        ensures
            final(self).wf(),
            final(self)@ == old(self)@.down(steps as int),
    {
        if let Some(i) = self.cursor {
            let target = if steps > usize::MAX - i {
                usize::MAX
            } else {
                i + steps
            };
            self.cursor_move(target);
        }
    }

    /// Moves the cursor `steps` lines up, stopping at the first line after the headers.
    pub fn up(&mut self, steps: usize)
        requires
            old(self).wf(),
        ensures
            final(self).wf(),
            final(self)@ == old(self)@.up(steps as int),
    {
        if let Some(i) = self.cursor {
            let target = if steps > i {
                0
            } else {
                i - steps
            };
            self.cursor_move(target);
        }
    }

    /// Moves the cursor to the first line after the headers.
    pub fn first(&mut self)
        requires
            old(self)@.sized(),
        ensures
            final(self).wf(),
            final(self)@ == old(self)@.first(),
    {
        let first = self.first_index;
        self.cursor_move(first);
    }

    /// Moves the cursor to the last line.
    pub fn last(&mut self)
        requires
            old(self).wf(),
        ensures
            final(self).wf(),
            final(self)@ == old(self)@.last(),
    {
        let last = self.last_index();
        self.cursor_move(last);
    }

    /// Marks the line under the cursor as selected.
    pub fn select(&mut self)
        requires
            old(self).wf(),
        ensures
            final(self).wf(),
            final(self)@ == old(self)@.select(),
    {
        if let Some(i) = self.cursor {
            if i < self.selected.len() {
                self.selected.set(i, true);
            }
        }
    }

    /// Clears the selection of the line under the cursor.
    pub fn unselect(&mut self)
        requires
            old(self).wf(),
        ensures
            final(self).wf(),
            final(self)@ == old(self)@.unselect(),
    {
        if let Some(i) = self.cursor {
            if i < self.selected.len() {
                self.selected.set(i, false);
            }
        }
    }

    /// Flips the selection of the line under the cursor.
    pub fn select_toggle(&mut self)
        requires
            old(self).wf(),
        ensures
            final(self).wf(),
            final(self)@ == old(self)@.select_toggle(),
    {
        if let Some(i) = self.cursor {
            if i < self.selected.len() {
                let b = self.selected[i];
                self.selected.set(i, !b);
            }
        }
    }

    fn fill_selected(&mut self, value: bool)
        requires
            old(self).wf(),
        ensures
            final(self).wf(),
            final(self)@ == old(self)@.with_selected(Seq::new(old(self)@.selected.len(), |i: int| value)),
    {
        let n = self.selected.len();
        let mut i: usize = 0;
        while i < n
            invariant
                0 <= i <= n,
                n == self.selected@.len(),
                self.lines == old(self).lines,
                self.cursor == old(self).cursor,
                self.first_index == old(self).first_index,
                self.show_help_menu == old(self).show_help_menu,
                forall|k: int| 0 <= k < i ==> self.selected@[k] == value,
            decreases n - i,
        {
            self.selected.set(i, value);
            i = i + 1;
        }
        assert(self@.selected =~= Seq::new(old(self)@.selected.len(), |i: int| value));
    }

    /// Selects every line.
    pub fn select_all(&mut self)
        requires
            old(self).wf(),
        ensures
            final(self).wf(),
            final(self)@ == old(self)@.select_all(),
    {
        self.fill_selected(true);
    }

    /// Clears every selection.
    pub fn unselect_all(&mut self)
        requires
            old(self).wf(),
        ensures
            final(self).wf(),
            final(self)@ == old(self)@.unselect_all(),
    {
        self.fill_selected(false);
    }

    /// Shows the help menu if it is hidden, and hides it otherwise.
    pub fn toggle_help_menu(&mut self)
        requires
            old(self).wf(),
        ensures
            final(self).wf(),
            final(self)@ == old(self)@.toggle_help_menu(),
    {
        self.show_help_menu = !self.show_help_menu;
    }

    fn get_cursor_line(&self) -> (r: Option<String>)
        requires
            self.wf(),
        ensures
            r matches Some(l) ==> self@.cursor matches Some(i) && i < self@.lines.len() && l@ == self@.lines[i as int],
            r is None ==> !(self@.cursor matches Some(i) && i < self@.lines.len()),
    {
        match self.cursor {
            Some(i) => if i < self.lines.len() {
                Some(self.lines[i].clone())
            } else {
                None
            },
            None => None,
        }
    }

    /// The text a command is handed: the selected lines, in order and joined by
    /// newlines, or, with nothing selected, the line under the cursor.
    pub fn get_selected_lines(&self) -> (r: Option<String>)
        requires
            self.wf(),
        ensures
            r matches Some(t) ==> self@.selected_text() == Some(t@),
            r is None ==> self@.selected_text() is None,
    {
        let n = self.selected.len();
        let mut any = false;
        let mut out = String::new();
        let ghost lines = self@.lines;
        let ghost sel = self@.selected;
        let mut i: usize = 0;
        while i < n
            invariant
                0 <= i <= n,
                n == sel.len(),
                self.wf(),
                lines == self@.lines,
                sel == self@.selected,
                any <==> picked(lines, sel, i as int).len() > 0,
                any <==> sel.subrange(0, i as int).contains(true),
                out@ == join_lines(picked(lines, sel, i as int)),
            decreases n - i,
        {
            let ghost prev = picked(lines, sel, i as int);
            let ghost had = any;
            assert(sel.subrange(0, i + 1) =~= sel.subrange(0, i as int).push(sel[i as int]));
            proof {
                if had {
                    let k = choose|k: int| 0 <= k < i && sel.subrange(0, i as int)[k] == true;
                    assert(sel.subrange(0, i + 1)[k] == true);
                }
                if sel[i as int] {
                    assert(sel.subrange(0, i + 1)[i as int] == true);
                }
            }
            if self.selected[i] {
                assert(self.lines@[i as int]@ == lines[i as int]);
                if any {
                    proof {
                        reveal_strlit("\n");
                    }
                    out.append("\n");
                }
                out.append(self.lines[i].as_str());
                let ghost next = prev.push(lines[i as int]);
                assert(next.drop_last() =~= prev);
                any = true;
            }
            i = i + 1;
            assert(sel.subrange(0, i as int).contains(true) ==> any) by {
                if !any {
                    assert forall|k: int| 0 <= k < i implies !sel.subrange(0, i as int)[k] by {
                        if k < i - 1 {
                            assert(sel.subrange(0, i as int)[k] == sel.subrange(0, i - 1)[k]);
                        }
                    };
                }
            };
        }
        assert(sel.subrange(0, n as int) =~= sel);
        if any {
            Some(out)
        } else {
            self.get_cursor_line()
        }
    }

    /// Carries out one operation on the cursor, the selection or the help
    /// menu; a command is left to the caller, which runs it with
    /// `get_selected_lines`.
    pub fn apply(&mut self, op: &Operation)
        requires
            old(self).wf(),
        ensures
            final(self).wf(),
            final(self)@ == old(self)@.apply(op@),
    {
        match op {
            Operation::MoveUp(n) => self.up(*n),
            Operation::MoveDown(n) => self.down(*n),
            Operation::MoveFirst => self.first(),
            Operation::MoveLast => self.last(),
            Operation::Select => self.select(),
            Operation::Unselect => self.unselect(),
            Operation::ToggleSelect => self.select_toggle(),
            Operation::SelectAll => self.select_all(),
            Operation::UnselectAll => self.unselect_all(),
            Operation::ToggleHelp => self.toggle_help_menu(),
            Operation::RunCommand(_) => {},
        }
    }

    /// The lines on display.
    pub fn lines(&self) -> (r: &Vec<String>)
        ensures
            r@.map_values(|l: String| l@) == self@.lines,
    {
        &self.lines
    }

    /// One selection flag per line.
    pub fn selected(&self) -> (r: &Vec<bool>)
        ensures
            r@ == self@.selected,
    {
        &self.selected
    }

    /// The line under the cursor, if there are lines.
    pub fn cursor(&self) -> (r: Option<usize>)
        ensures
            r == self@.cursor,
    {
        self.cursor
    }

    /// Whether the help menu shows.
    pub fn show_help_menu(&self) -> (r: bool)
        ensures
            r == self@.show_help_menu,
    {
        self.show_help_menu
    }
}

/// The state after `k` single steps down.
pub open spec fn down_times(v: StateView, k: nat) -> StateView
    decreases k,
{
    if k == 0 {
        v
    } else {
        down_times(v, (k - 1) as nat).down(1)
    }
}

/// Stepping down one line at a time from the top never leaves
/// `[first_index, max(first_index, len - 1)]`, after `k` steps stands on
/// `min(first_index + k, last)`, and after `len + 5` steps stands on the last line.
pub proof fn lemma_down_from_top(v: StateView, k: nat)
    requires
        v.wf(),
        v.lines.len() > 0,
        v.cursor == Some(v.first_index),
    ensures
        down_times(v, k).wf(),
        down_times(v, k).cursor matches Some(c) && v.first_index <= c <= v.last_index(),
        down_times(v, k).cursor == Some(
            (if v.first_index + k <= v.last_index() { v.first_index + k } else { v.last_index() }) as usize,
        ),
        v.last_index() == (if v.first_index >= v.lines.len() - 1 { v.first_index as int } else { v.lines.len() - 1 }),
        down_times(v, (v.lines.len() + 5) as nat).cursor == Some(v.last_index() as usize),
{
    lemma_down_lands_on_last(v, k);
    lemma_down_lands_on_last(v, (v.lines.len() + 5) as nat);
}

proof fn lemma_down_lands_on_last(v: StateView, k: nat)
    requires
        v.wf(),
        v.lines.len() > 0,
        v.cursor == Some(v.first_index),
    ensures
        down_times(v, k).wf(),
        down_times(v, k).lines == v.lines,
        down_times(v, k).first_index == v.first_index,
        down_times(v, k).cursor == Some(
            (if v.first_index + k <= v.last_index() { v.first_index + k } else { v.last_index() }) as usize,
        ),
    decreases k,
{
    if k > 0 {
        lemma_down_lands_on_last(v, (k - 1) as nat);
    }
}

/// Flipping the selection under the cursor twice gives back the same state.
pub proof fn lemma_select_toggle_twice(v: StateView)
    requires
        v.wf(),
    ensures
        v.select_toggle().select_toggle() == v,
        v.select_toggle().select_toggle().selected == v.selected,
{
    if let Some(i) = v.cursor {
        if i < v.selected.len() {
            assert(v.select_toggle().select_toggle().selected =~= v.selected);
        }
    }
}

/// Fewer lines than before: the flags are cut to the new length, and a cursor
/// beyond the new last line lands on that last line, not on the first; the
/// cursor is gone exactly when no lines are left.
pub proof fn lemma_update_lines_shorter(v: StateView, new_lines: Seq<Seq<char>>)
    requires
        v.wf(),
        new_lines.len() < v.lines.len(),
    ensures
        v.update_lines(new_lines).wf(),
        v.update_lines(new_lines).selected == v.selected.subrange(0, new_lines.len() as int),
        v.update_lines(new_lines).cursor is None <==> new_lines.len() == 0,
        new_lines.len() > 0 ==> v.update_lines(new_lines).cursor == Some(
            clamp(v.cursor.unwrap() as int, v.first_index as int, v.update_lines(new_lines).last_index()) as usize,
        ),
        (new_lines.len() > 0 && v.cursor.unwrap() > v.update_lines(new_lines).last_index())
            ==> v.update_lines(new_lines).cursor == Some(v.update_lines(new_lines).last_index() as usize),
{
    assert(v.update_lines(new_lines).selected =~= v.selected.subrange(0, new_lines.len() as int));
}

} // verus!
