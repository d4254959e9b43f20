use vstd::prelude::*;
use vstd::string::*;
use crate::text::{lemma_decimal_round_trip, decimal_text, decimal_value, has_prefix, is_decimal, parse_count, push_decimal, starts_with, text_eq};

verus! {

/// A shell command, and whether input waits for it to finish.
#[derive(Debug, Clone, PartialEq, Eq)]
pub struct Command {
    pub command: String,
    pub blocking: bool,
}

/// One action that a key can be bound to.
#[derive(Debug, Clone, PartialEq, Eq)]
pub enum Operation {
    MoveUp(usize),
    MoveDown(usize),
    MoveFirst,
    MoveLast,
    Select,
    Unselect,
    ToggleSelect,
    SelectAll,
    UnselectAll,
    ToggleHelp,
    RunCommand(Command),
}

/// An operation, with a command as its text.
pub enum OperationView {
    MoveUp(nat),
    MoveDown(nat),
    MoveFirst,
    MoveLast,
    Select,
    Unselect,
    ToggleSelect,
    SelectAll,
    UnselectAll,
    ToggleHelp,
    RunCommand(Seq<char>, bool),
}

impl View for Operation {
    type V = OperationView;

    open spec fn view(&self) -> OperationView {
        match self {
            Operation::MoveUp(n) => OperationView::MoveUp(*n as nat),
            Operation::MoveDown(n) => OperationView::MoveDown(*n as nat),
            Operation::MoveFirst => OperationView::MoveFirst,
            Operation::MoveLast => OperationView::MoveLast,
            Operation::Select => OperationView::Select,
            Operation::Unselect => OperationView::Unselect,
            Operation::ToggleSelect => OperationView::ToggleSelect,
            Operation::SelectAll => OperationView::SelectAll,
            Operation::UnselectAll => OperationView::UnselectAll,
            Operation::ToggleHelp => OperationView::ToggleHelp,
            Operation::RunCommand(c) => OperationView::RunCommand(c.command@, c.blocking),
        }
    }
}

/// The rest of `s` after a prefix of length `k`.
pub open spec fn after(s: Seq<char>, k: int) -> Seq<char> {
    s.subrange(k, s.len() as int)
}

/// A step count after a move: none means one; else a numeral after a space.
pub open spec fn count_of(s: Seq<char>, name: Seq<char>) -> Option<nat> {
    if s == name {
        Some(1)
    } else if has_prefix(s, name + " "@) && is_decimal(after(s, (name + " "@).len() as int))
        && decimal_value(after(s, (name + " "@).len() as int)) <= usize::MAX {
        Some(decimal_value(after(s, (name + " "@).len() as int)) as nat)
    } else {
        None
    }
}

/// The operation that an operation text names.
pub open spec fn operation_of(s: Seq<char>) -> Option<OperationView> {
    if count_of(s, "up"@) is Some {
        Some(OperationView::MoveUp(count_of(s, "up"@).unwrap()))
    } else if count_of(s, "down"@) is Some {
        Some(OperationView::MoveDown(count_of(s, "down"@).unwrap()))
    } else if s == "first"@ {
        Some(OperationView::MoveFirst)
    } else if s == "last"@ {
        Some(OperationView::MoveLast)
    } else if s == "select"@ {
        Some(OperationView::Select)
    } else if s == "unselect"@ {
        Some(OperationView::Unselect)
    } else if s == "select-toggle"@ {
        Some(OperationView::ToggleSelect)
    } else if s == "select-all"@ {
        Some(OperationView::SelectAll)
    } else if s == "unselect-all"@ {
        Some(OperationView::UnselectAll)
    } else if s == "help-toggle"@ {
        Some(OperationView::ToggleHelp)
    } else if has_prefix(s, "exec -- "@) {
        Some(OperationView::RunCommand(after(s, "exec -- "@.len() as int), true))
    } else if has_prefix(s, "exec & -- "@) {
        Some(OperationView::RunCommand(after(s, "exec & -- "@.len() as int), false))
    } else {
        None
    }
}

fn parse_count_after(s: &str, name: &str, name_space: &str) -> (r: Option<usize>)
    requires
        name_space@ == name@ + " "@,
    ensures
        r matches Some(v) <==> count_of(s@, name@) is Some,
        r matches Some(v) ==> count_of(s@, name@) == Some(v as nat),
{
    if text_eq(s, name) {
        Some(1)
    } else if starts_with(s, name_space) {
        parse_count(s.substring_char(name_space.unicode_len(), s.unicode_len()))
    } else {
        None
    }
}

impl Operation {
    /// Reads an operation text such as `down`, `up 3`, `select` or `exec -- CMD`.
    pub fn parse(s: &str) -> (r: Option<Operation>)
        ensures
            r is Some <==> operation_of(s@) is Some,
            r matches Some(o) ==> operation_of(s@) == Some(o@),
    {
        proof {
            reveal_strlit("up");
            reveal_strlit("up ");
            reveal_strlit("down");
            reveal_strlit("down ");
            reveal_strlit(" ");
        }
        assert("up "@ == "up"@ + " "@);
        assert("down "@ == "down"@ + " "@);
        let n = s.unicode_len();
        if let Some(k) = parse_count_after(s, "up", "up ") {
            Some(Operation::MoveUp(k))
        } else if let Some(k) = parse_count_after(s, "down", "down ") {
            Some(Operation::MoveDown(k))
        } else if text_eq(s, "first") {
            Some(Operation::MoveFirst)
        } else if text_eq(s, "last") {
            Some(Operation::MoveLast)
        } else if text_eq(s, "select") {
            Some(Operation::Select)
        } else if text_eq(s, "unselect") {
            Some(Operation::Unselect)
        } else if text_eq(s, "select-toggle") {
            Some(Operation::ToggleSelect)
        } else if text_eq(s, "select-all") {
            Some(Operation::SelectAll)
        } else if text_eq(s, "unselect-all") {
            Some(Operation::UnselectAll)
        } else if text_eq(s, "help-toggle") {
            Some(Operation::ToggleHelp)
        } else if starts_with(s, "exec -- ") {
            let cmd = String::from_str(s.substring_char("exec -- ".unicode_len(), n));
            Some(Operation::RunCommand(Command { command: cmd, blocking: true }))
        } else if starts_with(s, "exec & -- ") {
            let cmd = String::from_str(s.substring_char("exec & -- ".unicode_len(), n));
            Some(Operation::RunCommand(Command { command: cmd, blocking: false }))
        } else {
            None
        }
    }
}

/// The operations bound to one key, applied in order.
#[derive(Debug, Clone, PartialEq, Eq)]
pub struct Operations(pub Vec<Operation>);

impl View for Operations {
    type V = Seq<OperationView>;

    open spec fn view(&self) -> Seq<OperationView> {
        self.0@.map_values(|o: Operation| o@)
    }
}

/// A step count in the form that `count_of` reads: nothing for one, else a
/// space and the numeral.
pub open spec fn count_text(name: Seq<char>, n: nat) -> Seq<char> {
    if n == 1 {
        name
    } else {
        name + " "@ + decimal_text(n)
    }
}

/// The text of an operation, in the form that `operation_of` reads.
pub open spec fn operation_text(o: OperationView) -> Seq<char> {
    match o {
        OperationView::MoveUp(n) => count_text("up"@, n),
        OperationView::MoveDown(n) => count_text("down"@, n),
        OperationView::MoveFirst => "first"@,
        OperationView::MoveLast => "last"@,
        OperationView::Select => "select"@,
        OperationView::Unselect => "unselect"@,
        OperationView::ToggleSelect => "select-toggle"@,
        OperationView::SelectAll => "select-all"@,
        OperationView::UnselectAll => "unselect-all"@,
        OperationView::ToggleHelp => "help-toggle"@,
        OperationView::RunCommand(c, blocking) => if blocking {
            "exec -- "@ + c
        } else {
            "exec & -- "@ + c
        },
    }
}

/// The texts of a list of operations joined by `+`.
pub open spec fn operations_text(s: Seq<OperationView>) -> Seq<char>
    decreases s.len(),
{
    if s.len() == 0 {
        Seq::empty()
    } else if s.len() == 1 {
        operation_text(s[0])
    } else {
        operations_text(s.drop_last()) + "+"@ + operation_text(s.last())
    }
}

fn append_count(s: &mut String, name: &str, n: usize)
    ensures
        final(s)@ == old(s)@ + count_text(name@, n as nat),
{
    s.append(name);
    if n != 1 {
        s.append(" ");
        push_decimal(s, n);
    }
}

impl Operation {
    /// Appends the operation's text to `s`.
    pub fn append_text(&self, s: &mut String)
        ensures
            final(s)@ == old(s)@ + operation_text(self@),
    {
        let ghost pre = s@;
        match self {
            Operation::MoveUp(n) => append_count(s, "up", *n),
            Operation::MoveDown(n) => append_count(s, "down", *n),
            Operation::MoveFirst => s.append("first"),
            Operation::MoveLast => s.append("last"),
            Operation::Select => s.append("select"),
            Operation::Unselect => s.append("unselect"),
            Operation::ToggleSelect => s.append("select-toggle"),
            Operation::SelectAll => s.append("select-all"),
            Operation::UnselectAll => s.append("unselect-all"),
            Operation::ToggleHelp => s.append("help-toggle"),
            Operation::RunCommand(c) => {
                if c.blocking {
                    s.append("exec -- ");
                } else {
                    s.append("exec & -- ");
                }
                s.append(c.command.as_str());
            },
        }
        assert(s@ =~= pre + operation_text(self@));
    }
}

impl Operations {
    /// The operations as text, joined by `+`.
    pub fn to_text(&self) -> (r: String)
        ensures
            r@ == operations_text(self@),
    {
        let mut s = String::new();
        let n = self.0.len();
        let mut i: usize = 0;
        while i < n
            invariant
                n == self@.len(),
                0 <= i <= n,
                s@ == operations_text(self@.subrange(0, i as int)),
            decreases n - i,
        {
            let ghost pre = self@.subrange(0, i as int);
            let ghost post = self@.subrange(0, i + 1);
            assert(post.drop_last() =~= pre);
            assert(post.last() == self.0@[i as int]@);
            if i > 0 {
                s.append("+");
            } else {
                assert(s@ =~= Seq::<char>::empty());
            }
            self.0[i].append_text(&mut s);
            i = i + 1;
        }
        assert(self@.subrange(0, n as int) =~= self@);
        s
    }
}

/// A text that differs from `p` at `i` neither equals `p` nor starts with it.
proof fn lemma_differs_at(s: Seq<char>, p: Seq<char>, i: int)
    requires
        0 <= i < s.len(),
        i < p.len(),
        s[i] != p[i],
    ensures
        !has_prefix(s, p),
        s != p,
{
    if p.len() <= s.len() {
        assert(s.subrange(0, p.len() as int)[i] == s[i]);
    }
}

proof fn lemma_after_prefix(p: Seq<char>, rest: Seq<char>)
    ensures
        has_prefix(p + rest, p),
        after(p + rest, p.len() as int) == rest,
{
    assert((p + rest).subrange(0, p.len() as int) =~= p);
    assert(after(p + rest, p.len() as int) =~= rest);
}

proof fn lemma_count_round_trip(name: Seq<char>, n: nat)
    requires
        n <= usize::MAX,
        name.len() > 0,
    ensures
        count_of(count_text(name, n), name) == Some(n),
{
    reveal_strlit(" ");
    if n != 1 {
        lemma_decimal_round_trip(n);
        let t = count_text(name, n);
        assert(t =~= (name + " "@) + decimal_text(n));
        lemma_after_prefix(name + " "@, decimal_text(n));
        assert(t.len() > name.len());
    }
}

/// Reading back the text of an operation gives the same operation.
pub proof fn lemma_operation_text_round_trip(o: OperationView)
    requires
        o matches OperationView::MoveUp(n) ==> n <= usize::MAX,
        o matches OperationView::MoveDown(n) ==> n <= usize::MAX,
    ensures
        operation_of(operation_text(o)) == Some(o),
{
    reveal_strlit("up");
    reveal_strlit("down");
    reveal_strlit(" ");
    reveal_strlit("first");
    reveal_strlit("last");
    reveal_strlit("select");
    reveal_strlit("unselect");
    reveal_strlit("select-toggle");
    reveal_strlit("select-all");
    reveal_strlit("unselect-all");
    reveal_strlit("help-toggle");
    reveal_strlit("exec -- ");
    reveal_strlit("exec & -- ");
    assert("up"@[0] == 'u');
    assert("down"@[0] == 'd');
    assert(" "@[0] == ' ');
    assert("first"@[0] == 'f');
    assert("last"@[0] == 'l');
    assert("select"@[0] == 's');
    assert("unselect"@[0] == 'u');
    assert("select-toggle"@[0] == 's');
    assert("select-all"@[0] == 's');
    assert("unselect-all"@[0] == 'u');
    assert("help-toggle"@[0] == 'h');
    assert("exec -- "@[0] == 'e');
    assert("exec & -- "@[0] == 'e');
    let t = operation_text(o);
    match o {
        OperationView::MoveUp(n) => {
            lemma_count_round_trip("up"@, n);
        },
        OperationView::MoveDown(n) => {
            lemma_count_round_trip("down"@, n);
            lemma_differs_at(t, "up"@, 0);
            lemma_differs_at(t, "up"@ + " "@, 0);
        },
        OperationView::RunCommand(c, blocking) => {
            lemma_differs_at(t, "up"@, 0);
            lemma_differs_at(t, "up"@ + " "@, 0);
            lemma_differs_at(t, "down"@, 0);
            lemma_differs_at(t, "down"@ + " "@, 0);
            if blocking {
                lemma_after_prefix("exec -- "@, c);
            } else {
                lemma_after_prefix("exec & -- "@, c);
                assert("exec -- "@[5] == '-');
                lemma_differs_at(t, "exec -- "@, 5);
            }
            assert(t != "first"@ && t != "last"@ && t != "select"@ && t != "unselect"@);
            assert(t != "select-toggle"@ && t != "select-all"@ && t != "unselect-all"@ && t != "help-toggle"@);
        },
        _ => {
            assert(t[0] == t[0]);
            assert(t.len() > 1 && t[1] == t[1]);
            if t[0] != 'u' {
                lemma_differs_at(t, "up"@, 0);
                lemma_differs_at(t, "up"@ + " "@, 0);
            } else {
                assert("up"@[1] == 'p');
                lemma_differs_at(t, "up"@, 1);
                lemma_differs_at(t, "up"@ + " "@, 1);
            }
            if t[0] != 'd' {
                lemma_differs_at(t, "down"@, 0);
                lemma_differs_at(t, "down"@ + " "@, 0);
            }
            lemma_differs_at(t, "exec -- "@, 0);
            lemma_differs_at(t, "exec & -- "@, 0);
        },
    }
}

} // verus!
