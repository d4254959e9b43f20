use vstd::prelude::*;
use vstd::string::*;
use crate::keys::{key_event_of, KeyEvent};
use crate::keys::key_event_text;
use crate::operations::{operation_of, operations_text, Operation, OperationView, Operations};
use crate::text::{lemma_split_on_nonempty, split_on, text_le};
use itertools::Itertools;

verus! {

/// Why a configuration entry could not be turned into a binding.
#[derive(Debug, Clone, PartialEq, Eq)]
pub enum ConfigError {
    /// The entry has no `:` between the key and its operations.
    MissingColon(String),
    /// The key part names no known key.
    InvalidKey(String),
    /// One of the operation parts names no known operation.
    InvalidOperation(String),
    /// A key is bound to no operation at all.
    NoOperations(String),
}

/// The leftmost position of `c` in `s`, or `s.len()` when it does not occur.
pub open spec fn first_pos(s: Seq<char>, c: char) -> int
    decreases s.len(),
{
    if s.len() == 0 {
        0
    } else if s[0] == c {
        0
    } else {
        1 + first_pos(s.drop_first(), c)
    }
}

/// Whether `c` has the Unicode `White_Space` property, as `char::is_whitespace` has it.
pub open spec fn is_white_space(c: char) -> bool {
    let u = c as u32;
    (9 <= u <= 13) || u == 32 || u == 0x85 || u == 0xA0 || u == 0x1680 || (0x2000 <= u <= 0x200A)
        || u == 0x2028 || u == 0x2029 || u == 0x202F || u == 0x205F || u == 0x3000
}

/// `s` without its leading whitespace.
pub open spec fn trim_start(s: Seq<char>) -> Seq<char>
    decreases s.len(),
{
    if s.len() > 0 && is_white_space(s[0]) {
        trim_start(s.drop_first())
    } else {
        s
    }
}

/// `s` without its trailing whitespace.
pub open spec fn trim_end(s: Seq<char>) -> Seq<char>
    decreases s.len(),
{
    if s.len() > 0 && is_white_space(s.last()) {
        trim_end(s.drop_last())
    } else {
        s
    }
}

/// `s` without its leading and trailing whitespace.
pub open spec fn trimmed(s: Seq<char>) -> Seq<char> {
    trim_end(trim_start(s))
}

/// Relies on `str::trim`: removes leading and trailing characters with the
/// Unicode `White_Space` property.
#[verifier::external_body]
fn trim(s: &str) -> (r: String)
    ensures
        r@ == trimmed(s@),
{
    s.trim().to_owned()
}

proof fn lemma_first_pos_bounds(s: Seq<char>, c: char)
    ensures
        0 <= first_pos(s, c) <= s.len(),
        first_pos(s, c) < s.len() <==> s.contains(c),
        first_pos(s, c) < s.len() ==> s[first_pos(s, c)] == c,
        forall|j: int| 0 <= j < first_pos(s, c) ==> s[j] != c,
    decreases s.len(),
{
    if s.len() > 0 && s[0] != c {
        let t = s.drop_first();
        lemma_first_pos_bounds(t, c);
        assert forall|j: int| 0 <= j < first_pos(s, c) implies s[j] != c by {
            if j > 0 {
                assert(s[j] == t[j - 1]);
            }
        };
        if s.contains(c) {
            let k = choose|k: int| 0 <= k < s.len() && s[k] == c;
            assert(t[k - 1] == c);
        }
        if t.contains(c) {
            let k = choose|k: int| 0 <= k < t.len() && t[k] == c;
            assert(s[k + 1] == c);
        }
    } else if s.len() > 0 {
        assert(s.contains(c));
    }
}

/// Splits a binding entry `KEY:OP[+OP]*` at its first `:` into the key text and
/// the operation texts, each trimmed of surrounding whitespace.
pub fn parse_str(s: &str) -> (r: Result<(String, Vec<String>), ConfigError>)
    ensures
        r is Err <==> !s@.contains(':'),
        r matches Err(ConfigError::MissingColon(t)) ==> t@ == s@,
        r is Err ==> r matches Err(ConfigError::MissingColon(_)),
        r matches Ok((key, ops)) ==> {
            let i = first_pos(s@, ':');
            &&& key@ == s@.subrange(0, i)
            &&& ops@.map_values(|o: String| o@) == split_on(s@.subrange(i + 1, s@.len() as int), '+').map_values(
                |p: Seq<char>| trimmed(p),
            )
        },
{
    proof {
        lemma_first_pos_bounds(s@, ':');
    }
    let n = s.unicode_len();
    let mut i: usize = 0;
    while i < n && s.get_char(i) != ':'
        invariant
            n == s@.len(),
            0 <= i <= n,
            i <= first_pos(s@, ':'),
            0 <= first_pos(s@, ':') <= s@.len(),
            forall|j: int| 0 <= j < first_pos(s@, ':') ==> s@[j] != ':',
            first_pos(s@, ':') < s@.len() ==> s@[first_pos(s@, ':')] == ':',
        decreases n - i,
    {
        i = i + 1;
    }
    if i == n {
        return Err(ConfigError::MissingColon(String::from_str(s)));
    }
    let key = String::from_str(s.substring_char(0, i));
    let rest = s.substring_char(i + 1, n);
    let m = rest.unicode_len();
    let ghost pieces = split_on(rest@, '+');
    let mut ops: Vec<String> = Vec::new();
    let mut start: usize = 0;
    let mut k: usize = 0;
    while k < m
        invariant
            m == rest@.len(),
            0 <= start <= k <= m,
            split_on(rest@.subrange(0, k as int), '+').len() == ops@.len() + 1,
            split_on(rest@.subrange(0, k as int), '+').last() == rest@.subrange(start as int, k as int),
            ops@.map_values(|o: String| o@) == split_on(rest@.subrange(0, k as int), '+').drop_last().map_values(
                |p: Seq<char>| trimmed(p),
            ),
        decreases m - k,
    {
        let ghost pre = rest@.subrange(0, k as int);
        let ghost post = rest@.subrange(0, k + 1);
        assert(post.drop_last() == pre);
        assert(post.last() == rest@[k as int]);
        proof {
            lemma_split_on_nonempty(pre, '+');
        }
        let ghost old_ops = ops@;
        let ghost sp = split_on(pre, '+');
        assert(sp =~= sp.drop_last().push(sp.last()));
        if rest.get_char(k) == '+' {
            let piece = trim(rest.substring_char(start, k));
            let ghost pv = piece@;
            assert(pv == trimmed(sp.last()));
            ops.push(piece);
            assert(ops@.map_values(|o: String| o@) =~= old_ops.map_values(|o: String| o@).push(pv));
            assert(split_on(post, '+').drop_last() =~= sp);
            assert(ops@.map_values(|o: String| o@) =~= sp.map_values(|p: Seq<char>| trimmed(p)));
            start = k + 1;
            assert(split_on(post, '+').last() =~= rest@.subrange(start as int, k + 1));
        } else {
            assert(rest@.subrange(start as int, k + 1) =~= rest@.subrange(start as int, k as int).push(
                rest@[k as int],
            ));
            assert(split_on(post, '+').drop_last() =~= sp.drop_last());
            assert(ops@.map_values(|o: String| o@) =~= split_on(post, '+').drop_last().map_values(
                |p: Seq<char>| trimmed(p),
            ));
        }
        k = k + 1;
    }
    let last = trim(rest.substring_char(start, m));
    ops.push(last);
    assert(rest@.subrange(0, m as int) == rest@);
    proof {
        lemma_split_on_nonempty(rest@, '+');
    }
    assert(pieces =~= pieces.drop_last().push(pieces.last()));
    assert(ops@.map_values(|o: String| o@) =~= pieces.drop_last().map_values(|p: Seq<char>| trimmed(p)).push(trimmed(pieces.last())));
    assert(ops@.map_values(|o: String| o@) =~= pieces.map_values(|p: Seq<char>| trimmed(p)));
    Ok((key, ops))
}

/// A raw binding entry as text: the key and its operation texts.
pub type RawEntry = (Seq<char>, Seq<Seq<char>>);

/// The map that a list of raw entries describes; a later entry for a key wins.
pub open spec fn entries_map<K, V>(s: Seq<(K, V)>) -> Map<K, V>
    decreases s.len(),
{
    if s.len() == 0 {
        Map::empty()
    } else {
        entries_map(s.drop_last()).insert(s.last().0, s.last().1)
    }
}

/// Key bindings as configuration text: each key text maps to its operation texts.
pub struct StringKeybindings(Vec<(String, Vec<String>)>);

impl StringKeybindings {
    /// The entries, as text.
    pub closed spec fn entries(&self) -> Seq<RawEntry> {
        self.0@.map_values(|e: (String, Vec<String>)| (e.0@, e.1@.map_values(|o: String| o@)))
    }

    /// No key text occurs twice.
    pub closed spec fn wf(&self) -> bool {
        forall|i: int, j: int|
            0 <= i < j < self.entries().len() ==> #[trigger] self.entries()[i].0 != #[trigger] self.entries()[j].0
    }

    /// The mapping from key text to operation texts.
    pub closed spec fn view(&self) -> Map<Seq<char>, Seq<Seq<char>>> {
        entries_map(self.entries())
    }

    /// No bindings at all.
    pub fn empty() -> (r: Self)
        ensures
            r.wf(),
            r.view() == Map::<Seq<char>, Seq<Seq<char>>>::empty(),
    {
        StringKeybindings(Vec::new())
    }

    /// Binds `key` to `ops`, replacing what `key` was bound to before.
    pub fn insert(&mut self, key: String, ops: Vec<String>)
        requires
            old(self).wf(),
        ensures
            final(self).wf(),
            final(self).view() == old(self).view().insert(key@, ops@.map_values(|o: String| o@)),
    {
        let ghost kv = key@;
        let ghost ov = ops@.map_values(|o: String| o@);
        let n = self.0.len();
        let mut i: usize = 0;
        while i < n
            invariant
                n == self.0@.len(),
                0 <= i <= n,
                forall|j: int| 0 <= j < i ==> self.entries()[j].0 != key@,
                *self == *old(self),
                self.wf(),
                kv == key@,
                ov == ops@.map_values(|o: String| o@),
            decreases n - i,
        {
            let same = self.0[i].0 == key;
            assert(same == (self.0@[i as int].0@ == key@));
            if same {
                let ghost before = self.entries();
                assert(before[i as int].0 == self.0@[i as int].0@);
                proof {
                    lemma_entries_map_update(before, i as int, (kv, ov));
                }
                self.0.set(i, (key, ops));
                assert(self.entries() =~= before.update(i as int, (kv, ov)));
                assert forall|a: int, b: int|
                    0 <= a < b < self.entries().len() implies #[trigger] self.entries()[a].0
                        != #[trigger] self.entries()[b].0 by {
                    assert(self.entries()[a].0 == before[a].0);
                    assert(self.entries()[b].0 == before[b].0);
                };
                return;
            }
            assert(self.entries()[i as int].0 == self.0@[i as int].0@);
            i = i + 1;
        }
        let ghost before = self.entries();
        self.0.push((key, ops));
        assert(self.entries() =~= before.push((kv, ov)));
        assert(self.entries().drop_last() =~= before);
        assert forall|a: int, b: int|
            0 <= a < b < self.entries().len() implies #[trigger] self.entries()[a].0
                != #[trigger] self.entries()[b].0 by {
            if b == before.len() {
                assert(self.entries()[a].0 == before[a].0);
            } else {
                assert(self.entries()[a].0 == before[a].0);
                assert(self.entries()[b].0 == before[b].0);
            }
        };
    }

    /// Bindings from a list of key texts and operation texts; where a key text
    /// occurs more than once, its last entry wins.
    pub fn from_pairs(pairs: Vec<(String, Vec<String>)>) -> (r: Self)
        ensures
            r.wf(),
            r.view() == entries_map(
                pairs@.map_values(|e: (String, Vec<String>)| (e.0@, e.1@.map_values(|o: String| o@))),
            ),
    {
        let ghost pv = pairs@.map_values(|e: (String, Vec<String>)| (e.0@, e.1@.map_values(|o: String| o@)));
        let ghost total = pairs@;
        let mut kb = StringKeybindings::empty();
        let mut items = pairs;
        let mut taken: usize = 0;
        assert(total.len() == items.len());
        while items.len() > 0
            invariant
                kb.wf(),
                taken + items@.len() == total.len(),
                total.len() <= usize::MAX,
                items@ == total.subrange(taken as int, total.len() as int),
                pv == total.map_values(|e: (String, Vec<String>)| (e.0@, e.1@.map_values(|o: String| o@))),
                kb.view() == entries_map(pv.subrange(0, taken as int)),
            decreases items@.len(),
        {
            let ghost len_before = items@.len();
            let (k, v) = items.remove(0);
            assert(items@.len() == len_before - 1);
            let ghost e = (k@, v@.map_values(|o: String| o@));
            assert(e == pv[taken as int]);
            kb.insert(k, v);
            assert(pv.subrange(0, taken + 1).drop_last() =~= pv.subrange(0, taken as int));
            assert(taken < total.len());
            taken = taken + 1;
            assert(items@ =~= total.subrange(taken as int, total.len() as int));
        }
        assert(pv.subrange(0, taken as int) =~= pv);
        kb
    }

    /// The number of keys bound.
    pub fn len(&self) -> (r: usize)
        requires
            self.wf(),
        ensures
            r == self.view().len(),
    {
        proof {
            lemma_entries_map_len(self.entries());
        }
        self.0.len()
    }

    /// The operation texts bound to the key text `key`, if any.
    pub fn get(&self, key: &str) -> (r: Option<&Vec<String>>)
        requires
            self.wf(),
        ensures
            r is Some <==> self.view().contains_key(key@),
            r matches Some(o) ==> self.view()[key@] == o@.map_values(|t: String| t@),
    {
        let n = self.0.len();
        let mut i: usize = 0;
        while i < n
            invariant
                n == self.0@.len(),
                0 <= i <= n,
                forall|j: int| 0 <= j < i ==> self.entries()[j].0 != key@,
                self.wf(),
            decreases n - i,
        {
            if crate::text::text_eq(self.0[i].0.as_str(), key) {
                proof {
                    lemma_entries_map_unique(self.entries(), i as int);
                }
                return Some(&self.0[i].1);
            }
            i = i + 1;
        }
        proof {
            lemma_entries_map_absent(self.entries(), key@);
        }
        None
    }

    /// Lays `new_opt` over `old_opt`: where both bind a key, the binding of
    /// `new_opt` is kept; every other binding of either is kept as it is.
    pub fn merge(new_opt: Option<Self>, old_opt: Option<Self>) -> (r: Option<Self>)
        requires
            new_opt matches Some(n) ==> n.wf(),
            old_opt matches Some(o) ==> o.wf(),
        ensures
            r is Some <==> (new_opt is Some || old_opt is Some),
            r matches Some(m) ==> m.wf(),
            r matches Some(m) ==> m.view() == match (new_opt, old_opt) {
                (Some(n), Some(o)) => o.view().union_prefer_right(n.view()),
                (Some(n), None) => n.view(),
                (None, Some(o)) => o.view(),
                (None, None) => Map::empty(),
            },
    {
        match new_opt {
            Some(new) => match old_opt {
                Some(old) => {
                    let ghost nv = new.entries();
                    let ghost ov = old.view();
                    let mut merged = old;
                    let mut items = new.0;
                    let ghost total = items@;
                    assert(total.len() == items.len());
                    let mut taken: usize = 0;
                    while items.len() > 0
                        invariant
                            merged.wf(),
                            taken + items@.len() == total.len(),
                            total.len() <= usize::MAX,
                            items@ == total.subrange(taken as int, total.len() as int),
                            nv == total.map_values(|e: (String, Vec<String>)| (e.0@, e.1@.map_values(|o: String| o@))),
                            merged.view() == ov.union_prefer_right(entries_map(nv.subrange(0, taken as int))),
                        decreases items@.len(),
                    {
                        let ghost len_before = items@.len();
                        let (k, v) = items.remove(0);
                        assert(items@.len() == len_before - 1);
                        let ghost e = (k@, v@.map_values(|o: String| o@));
                        assert(e == nv[taken as int]);
                        merged.insert(k, v);
                        assert(nv.subrange(0, taken + 1).drop_last() =~= nv.subrange(0, taken as int));
                        assert(merged.view() =~= ov.union_prefer_right(entries_map(nv.subrange(0, taken + 1))));
                        assert(taken < total.len());
                        taken = taken + 1;
                        assert(items@ =~= total.subrange(taken as int, total.len() as int));
                    }
                    assert(nv.subrange(0, taken as int) =~= nv);
                    Some(merged)
                },
                None => Some(new),
            },
            None => old_opt,
        }
    }
}

/// Layering bindings: a key bound in the new layer keeps that binding; a key
/// bound only in the old layer keeps the old binding; no other key is bound.
pub proof fn lemma_merge_layers(
    new: Map<Seq<char>, Seq<Seq<char>>>,
    old: Map<Seq<char>, Seq<Seq<char>>>,
    key: Seq<char>,
)
    ensures
        old.union_prefer_right(new).contains_key(key) <==> (new.contains_key(key) || old.contains_key(key)),
        new.contains_key(key) ==> old.union_prefer_right(new)[key] == new[key],
        (!new.contains_key(key) && old.contains_key(key)) ==> old.union_prefer_right(new)[key] == old[key],
{
}

/// The operations that a list of operation texts names, if each names one.
pub open spec fn parsed_all(t: Seq<Seq<char>>) -> Option<Seq<OperationView>>
    decreases t.len(),
{
    if t.len() == 0 {
        Some(Seq::empty())
    } else {
        match (parsed_all(t.drop_last()), operation_of(t.last())) {
            (Some(p), Some(o)) => Some(p.push(o)),
            _ => None,
        }
    }
}

/// The operations that a non-empty list of operation texts names.
pub open spec fn operations_of(t: Seq<Seq<char>>) -> Option<Seq<OperationView>> {
    if t.len() == 0 {
        None
    } else {
        parsed_all(t)
    }
}

impl Operations {
    /// Reads a non-empty list of operation texts, keeping their order.
    pub fn from_texts(texts: &Vec<String>) -> (r: Result<Operations, ConfigError>)
        ensures
            r is Ok <==> operations_of(texts@.map_values(|t: String| t@)) is Some,
            r matches Ok(o) ==> operations_of(texts@.map_values(|t: String| t@)) == Some(o@),
            r matches Err(ConfigError::InvalidOperation(t)) ==> operation_of(t@) is None
                && texts@.map_values(|t: String| t@).contains(t@),
            r matches Err(e) ==> (e is InvalidOperation || (e is NoOperations && texts@.len() == 0)),
    {
        let ghost tv = texts@.map_values(|t: String| t@);
        let n = texts.len();
        if n == 0 {
            return Err(ConfigError::NoOperations(String::new()));
        }
        let mut ops: Vec<Operation> = Vec::new();
        let mut i: usize = 0;
        while i < n
            invariant
                n == texts@.len(),
                tv == texts@.map_values(|t: String| t@),
                0 <= i <= n,
                parsed_all(tv.subrange(0, i as int)) == Some(ops@.map_values(|o: Operation| o@)),
            decreases n - i,
        {
            let ghost pre = tv.subrange(0, i as int);
            let ghost post = tv.subrange(0, i + 1);
            assert(post.drop_last() =~= pre);
            match Operation::parse(texts[i].as_str()) {
                Some(o) => {
                    let ghost ov = o@;
                    let ghost before = ops@.map_values(|o: Operation| o@);
                    ops.push(o);
                    assert(ops@.map_values(|o: Operation| o@) =~= before.push(ov));
                },
                None => {
                    assert(tv[i as int] == texts@[i as int]@);
                    proof { lemma_parsed_all_fails(tv, i as int); }
                    return Err(ConfigError::InvalidOperation(texts[i].clone()));
                },
            }
            i = i + 1;
        }
        assert(tv.subrange(0, n as int) =~= tv);
        Ok(Operations(ops))
    }
}

proof fn lemma_parsed_all_fails(t: Seq<Seq<char>>, i: int)
    requires
        0 <= i < t.len(),
        operation_of(t[i]) is None,
    ensures
        parsed_all(t) is None,
        t.contains(t[i]),
    decreases t.len(),
{
    if i < t.len() - 1 {
        lemma_parsed_all_fails(t.drop_last(), i);
    }
}

/// Whether every key text of `m` names a key press and every operation list
/// of `m` names operations.
pub open spec fn all_parse(m: Map<Seq<char>, Seq<Seq<char>>>) -> bool {
    forall|t: Seq<char>| #[trigger] m.contains_key(t) ==> key_event_of(t) is Some && operations_of(m[t]) is Some
}

/// What each key press is bound to.
#[derive(Clone)]
pub struct Keybindings(Vec<(KeyEvent, Operations)>);

impl Keybindings {
    pub closed spec fn entries(&self) -> Seq<(KeyEvent, Seq<OperationView>)> {
        self.0@.map_values(|e: (KeyEvent, Operations)| (e.0, e.1@))
    }

    /// No key press occurs twice.
    pub closed spec fn wf(&self) -> bool {
        forall|i: int, j: int|
            0 <= i < j < self.entries().len() ==> #[trigger] self.entries()[i].0 != #[trigger] self.entries()[j].0
    }

    /// The mapping from key press to operations.
    pub closed spec fn view(&self) -> Map<KeyEvent, Seq<OperationView>> {
        entries_map(self.entries())
    }

    /// The operations bound to `key`, if any.
    pub fn get_operations(&self, key: &KeyEvent) -> (r: Option<&Operations>)
        requires
            self.wf(),
        ensures
            r is Some <==> self.view().contains_key(*key),
            r matches Some(o) ==> self.view()[*key] == o@,
    {
        let n = self.0.len();
        let mut i: usize = 0;
        while i < n
            invariant
                n == self.0@.len(),
                0 <= i <= n,
                forall|j: int| 0 <= j < i ==> self.entries()[j].0 != *key,
                self.wf(),
            decreases n - i,
        {
            if self.0[i].0 == *key {
                proof {
                    lemma_entries_map_unique(self.entries(), i as int);
                }
                return Some(&self.0[i].1);
            }
            i = i + 1;
        }
        proof {
            lemma_entries_map_absent(self.entries(), *key);
        }
        None
    }

    fn insert(&mut self, key: KeyEvent, ops: Operations)
        requires
            old(self).wf(),
        ensures
            final(self).wf(),
            final(self).view() == old(self).view().insert(key, ops@),
    {
        let ghost ov = ops@;
        let n = self.0.len();
        let mut i: usize = 0;
        while i < n
            invariant
                n == self.0@.len(),
                0 <= i <= n,
                forall|j: int| 0 <= j < i ==> self.entries()[j].0 != key,
                *self == *old(self),
                self.wf(),
                ov == ops@,
            decreases n - i,
        {
            if self.0[i].0 == key {
                let ghost before = self.entries();
                proof {
                    lemma_entries_map_update(before, i as int, (key, ov));
                }
                self.0.set(i, (key, ops));
                assert(self.entries() =~= before.update(i as int, (key, ov)));
                assert forall|a: int, b: int|
                    0 <= a < b < self.entries().len() implies #[trigger] self.entries()[a].0
                        != #[trigger] self.entries()[b].0 by {
                    assert(self.entries()[a].0 == before[a].0);
                    assert(self.entries()[b].0 == before[b].0);
                };
                return;
            }
            i = i + 1;
        }
        let ghost before = self.entries();
        self.0.push((key, ops));
        assert(self.entries() =~= before.push((key, ov)));
        assert(self.entries().drop_last() =~= before);
        assert forall|a: int, b: int|
            0 <= a < b < self.entries().len() implies #[trigger] self.entries()[a].0
                != #[trigger] self.entries()[b].0 by {
            if b == before.len() {
                assert(self.entries()[a].0 == before[a].0);
            } else {
                assert(self.entries()[a].0 == before[a].0);
                assert(self.entries()[b].0 == before[b].0);
            }
        };
    }

    /// Reads every key text and operation text of `value`. Fails, naming
    /// the text at fault, when a key text or an operation list names nothing;
    /// otherwise binds each key press to the operations of the key text that
    /// names it.
    pub fn try_from(value: StringKeybindings) -> (r: Result<Keybindings, ConfigError>)
        requires
            value.wf(),
        ensures
            r is Ok <==> all_parse(value.view()),
            r matches Ok(k) ==> k.wf(),
            r matches Ok(k) ==> forall|t: Seq<char>| #[trigger] value.view().contains_key(t)
                ==> k.view().contains_key(key_event_of(t).unwrap()),
            r matches Ok(k) ==> forall|e: KeyEvent| #[trigger] k.view().contains_key(e) ==> exists|t: Seq<char>|
                value.view().contains_key(t) && key_event_of(t) == Some(e) && operations_of(value.view()[t]) == Some(
                    k.view()[e],
                ),
            r matches Ok(k) ==> forall|t: Seq<char>|
                #[trigger] value.view().contains_key(t) && (forall|t2: Seq<char>|
                    value.view().contains_key(t2) && key_event_of(t2) == key_event_of(t) ==> t2 == t)
                    ==> k.view()[key_event_of(t).unwrap()] == operations_of(value.view()[t]).unwrap(),
            r matches Err(ConfigError::InvalidKey(t)) ==> value.view().contains_key(t@) && key_event_of(t@) is None,
            r matches Err(ConfigError::InvalidOperation(t)) ==> operation_of(t@) is None && exists|key: Seq<char>|
                value.view().contains_key(key) && value.view()[key].contains(t@),
            r matches Err(ConfigError::NoOperations(t)) ==> value.view().contains_key(t@) && value.view()[t@].len() == 0,
            !(r matches Err(ConfigError::MissingColon(_))),
    {
        let ghost es = value.entries();
        let ghost vm = value.view();
        let mut kb = Keybindings(Vec::new());
        let n = value.0.len();
        let mut i: usize = 0;
        while i < n
            invariant
                n == value.0@.len(),
                es == value.entries(),
                vm == value.view(),
                value.wf(),
                0 <= i <= n,
                kb.wf(),
                forall|j: int| 0 <= j < i ==> key_event_of(#[trigger] es[j].0) is Some && operations_of(es[j].1) is Some,
                forall|j: int| 0 <= j < i ==> kb.view().contains_key(key_event_of(#[trigger] es[j].0).unwrap()),
                forall|e: KeyEvent| #[trigger] kb.view().contains_key(e) ==> exists|j: int|
                    0 <= j < i && key_event_of(#[trigger] es[j].0) == Some(e) && operations_of(es[j].1) == Some(kb.view()[e]),
                forall|j: int|
                    0 <= j < i && (forall|j2: int| 0 <= j2 < n && key_event_of(#[trigger] es[j2].0) == key_event_of(es[j].0) ==> j2 == j)
                        ==> kb.view()[key_event_of(#[trigger] es[j].0).unwrap()] == operations_of(es[j].1).unwrap(),
            decreases n - i,
        {
            assert(es[i as int] == (value.0@[i as int].0@, value.0@[i as int].1@.map_values(|o: String| o@)));
            proof {
                lemma_entries_map_unique(es, i as int);
            }
            let key = match KeyEvent::parse(value.0[i].0.as_str()) {
                Some(k) => k,
                None => {
                    return Err(ConfigError::InvalidKey(value.0[i].0.clone()));
                },
            };
            let ops = match Operations::from_texts(&value.0[i].1) {
                Ok(o) => o,
                Err(e) => {
                    return Err(
                        match e {
                            ConfigError::NoOperations(_) => ConfigError::NoOperations(value.0[i].0.clone()),
                            other => other,
                        },
                    );
                },
            };
            let ghost before = kb.view();
            let ghost ov = ops@;
            kb.insert(key, ops);
            assert(kb.view() == before.insert(key, ov));
            assert forall|e: KeyEvent| #[trigger] kb.view().contains_key(e) implies exists|j: int|
                0 <= j < i + 1 && key_event_of(#[trigger] es[j].0) == Some(e) && operations_of(es[j].1) == Some(kb.view()[e]) by {
                if e != key {
                    assert(before.contains_key(e));
                } else {
                    assert(key_event_of(es[i as int].0) == Some(e));
                }
            };
            assert forall|j: int|
                0 <= j < i + 1 && (forall|j2: int| 0 <= j2 < n && key_event_of(#[trigger] es[j2].0) == key_event_of(es[j].0) ==> j2 == j)
                    implies kb.view()[key_event_of(#[trigger] es[j].0).unwrap()] == operations_of(es[j].1).unwrap() by {
                if j < i {
                    assert(key_event_of(es[j].0) != key_event_of(es[i as int].0));
                }
            };
            i = i + 1;
        }
        proof {
            assert forall|t: Seq<char>| #[trigger] vm.contains_key(t) implies exists|j: int|
                0 <= j < n && #[trigger] es[j].0 == t && vm[t] == es[j].1 by {
                lemma_entries_map_dom(es, t);
                let j = choose|j: int| 0 <= j < es.len() && #[trigger] es[j].0 == t;
                lemma_entries_map_unique(es, j);
            };
            assert forall|j: int| 0 <= j < n implies #[trigger] vm.contains_key(es[j].0) && vm[es[j].0] == es[j].1 by {
                lemma_entries_map_unique(es, j);
            };
        }
        Ok(kb)
    }
}

/// Every key of the map comes from some entry.
proof fn lemma_entries_map_dom<K, V>(s: Seq<(K, V)>, k: K)
    requires
        entries_map(s).contains_key(k),
    ensures
        exists|j: int| 0 <= j < s.len() && #[trigger] s[j].0 == k,
    decreases s.len(),
{
    if s.last().0 != k {
        lemma_entries_map_dom(s.drop_last(), k);
        let j = choose|j: int| 0 <= j < s.len() - 1 && #[trigger] s.drop_last()[j].0 == k;
        assert(s[j].0 == k);
    } else {
        assert(s[s.len() - 1].0 == k);
    }
}

proof fn lemma_entries_map_unique<K, V>(s: Seq<(K, V)>, i: int)
    requires
        0 <= i < s.len(),
        forall|a: int, b: int| 0 <= a < b < s.len() ==> #[trigger] s[a].0 != #[trigger] s[b].0,
    ensures
        entries_map(s).contains_key(s[i].0),
        entries_map(s)[s[i].0] == s[i].1,
    decreases s.len(),
{
    if i < s.len() - 1 {
        lemma_entries_map_unique(s.drop_last(), i);
        assert(s[i].0 != s.last().0);
    }
}

proof fn lemma_entries_map_absent<K, V>(s: Seq<(K, V)>, k: K)
    requires
        forall|j: int| 0 <= j < s.len() ==> s[j].0 != k,
    ensures
        !entries_map(s).contains_key(k),
    decreases s.len(),
{
    if s.len() > 0 {
        lemma_entries_map_absent(s.drop_last(), k);
    }
}

/// A row of the bindings table as text: key and operations.
pub open spec fn row_view(r: (String, String)) -> (Seq<char>, Seq<char>) {
    (r.0@, r.1@)
}

/// The table row of the binding of `e` in `m`: key text and operations text.
pub open spec fn binding_row(m: Map<KeyEvent, Seq<OperationView>>, e: KeyEvent) -> (Seq<char>, Seq<char>) {
    (key_event_text(e), operations_text(m[e]))
}

/// Whether `row` is the table row of some binding of `m`.
pub open spec fn is_binding_row(m: Map<KeyEvent, Seq<OperationView>>, row: (Seq<char>, Seq<char>)) -> bool {
    exists|e: KeyEvent| m.contains_key(e) && row == #[trigger] binding_row(m, e)
}

/// Whether the rows come in order of their key text.
pub open spec fn rows_sorted(rows: Seq<(Seq<char>, Seq<char>)>) -> bool {
    forall|i: int, j: int| 0 <= i < j < rows.len() ==> text_le(#[trigger] rows[i].0, #[trigger] rows[j].0)
}

/// Relies on `Itertools::sorted`, which sorts with `slice::sort`: the same rows,
/// in ascending order; `str` orders by code point, and pairs by their first
/// part before their second.
#[verifier::external_body]
fn sorted_rows(rows: Vec<(String, String)>) -> (r: Vec<(String, String)>)
    ensures
        r@.map_values(|x: (String, String)| row_view(x)).to_multiset() == rows@.map_values(
            |x: (String, String)| row_view(x),
        ).to_multiset(),
        rows_sorted(r@.map_values(|x: (String, String)| row_view(x))),
{
    rows.into_iter().sorted().collect()
}

/// What `tabwriter` makes of a text: its tab-separated cells lined up in columns.
pub uninterp spec fn aligned(s: Seq<char>) -> Seq<char>;

/// Relies on `tabwriter::TabWriter` with its default settings, written to
/// memory and flushed: the text with its cells lined up. Writing to a `Vec`
/// cannot fail, so neither can the flush in `into_inner`; the output is the
/// input's bytes with ASCII spaces added, so it stays valid UTF-8.
#[verifier::external_body]
fn align_columns(text: &str) -> (r: String)
    ensures
        r@ == aligned(text@),
{
    let mut tw = tabwriter::TabWriter::new(Vec::new());
    std::io::Write::write_all(&mut tw, text.as_bytes()).expect("writing to memory");
    let bytes = tw.into_inner().expect("flushing to memory");
    String::from_utf8(bytes).expect("aligned text stays UTF-8")
}

/// The table text of the rows: one line `KEY:<tab>OPS` each.
pub open spec fn table_text(rows: Seq<(Seq<char>, Seq<char>)>) -> Seq<char>
    decreases rows.len(),
{
    if rows.len() == 0 {
        Seq::empty()
    } else {
        table_text(rows.drop_last()) + rows.last().0 + ":\t"@ + rows.last().1 + "\n"@
    }
}

/// Lines up the table text of already sorted rows.
pub fn format_rows(rows: &Vec<(String, String)>) -> (r: String)
    ensures
        r@ == aligned(table_text(rows@.map_values(|x: (String, String)| row_view(x)))),
{
    let ghost rv = rows@.map_values(|x: (String, String)| row_view(x));
    let mut text = String::new();
    let n = rows.len();
    let mut i: usize = 0;
    while i < n
        invariant
            n == rows@.len(),
            rv == rows@.map_values(|x: (String, String)| row_view(x)),
            0 <= i <= n,
            text@ == table_text(rv.subrange(0, i as int)),
        decreases n - i,
    {
        let ghost pre = rv.subrange(0, i as int);
        let ghost post = rv.subrange(0, i + 1);
        assert(post.drop_last() =~= pre);
        assert(post.last() == row_view(rows@[i as int]));
        text.append(rows[i].0.as_str());
        text.append(":\t");
        text.append(rows[i].1.as_str());
        text.append("\n");
        i = i + 1;
    }
    assert(rv.subrange(0, n as int) =~= rv);
    align_columns(text.as_str())
}

impl Keybindings {
    /// Each binding as its key text and operations text, in no set order.
    closed spec fn rows(&self) -> Seq<(Seq<char>, Seq<char>)> {
        self.entries().map_values(|e: (KeyEvent, Seq<OperationView>)| (key_event_text(e.0), operations_text(e.1)))
    }

    /// The table rows of the bindings, in their stored order.
    fn row_texts(&self) -> (r: Vec<(String, String)>)
        ensures
            r@.map_values(|x: (String, String)| row_view(x)) == self.rows(),
    {
        let mut rows: Vec<(String, String)> = Vec::new();
        let n = self.0.len();
        let mut i: usize = 0;
        while i < n
            invariant
                n == self.0@.len(),
                0 <= i <= n,
                rows@.map_values(|x: (String, String)| row_view(x)) == self.rows().subrange(0, i as int),
            decreases n - i,
        {
            let k = self.0[i].0.to_text();
            let o = self.0[i].1.to_text();
            let ghost before = rows@;
            assert(self.entries()[i as int] == (self.0@[i as int].0, self.0@[i as int].1@));
            assert(self.rows()[i as int] == (k@, o@));
            rows.push((k, o));
            assert(rows@.map_values(|x: (String, String)| row_view(x)) =~= before.map_values(
                |x: (String, String)| row_view(x),
            ).push((k@, o@)));
            assert(rows@.map_values(|x: (String, String)| row_view(x)) =~= self.rows().subrange(0, i + 1));
            i = i + 1;
        }
        assert(self.rows().subrange(0, n as int) =~= self.rows());
        rows
    }

    /// All bindings as a table of `KEY: OPS` lines, one per binding, sorted by
    /// key text, with the operations lined up in one column.
    pub fn display_text(&self) -> (r: String)
        requires
            self.wf(),
        ensures
            exists|rows: Seq<(Seq<char>, Seq<char>)>|
                {
                    &&& rows.len() == self.view().len()
                    &&& rows_sorted(rows)
                    &&& (forall|i: int| 0 <= i < rows.len() ==> is_binding_row(self.view(), #[trigger] rows[i]))
                    &&& (forall|e: KeyEvent| #[trigger] self.view().contains_key(e) ==> exists|i: int|
                        0 <= i < rows.len() && rows[i] == binding_row(self.view(), e))
                    &&& r@ == aligned(table_text(rows))
                },
    {
        let rows = self.row_texts();
        let sorted = sorted_rows(rows);
        let r = format_rows(&sorted);
        proof {
            let w = sorted@.map_values(|x: (String, String)| row_view(x));
            self.lemma_rows_cover(w);
            assert(r@ == aligned(table_text(w)));
        }
        r
    }

    /// Rows that hold what `rows` holds, in any order, are one row per binding.
    proof fn lemma_rows_cover(&self, w: Seq<(Seq<char>, Seq<char>)>)
        requires
            self.wf(),
            w.to_multiset() == self.rows().to_multiset(),
        ensures
            w.len() == self.view().len(),
            forall|i: int| 0 <= i < w.len() ==> is_binding_row(self.view(), #[trigger] w[i]),
            forall|e: KeyEvent| #[trigger] self.view().contains_key(e) ==> exists|i: int|
                0 <= i < w.len() && w[i] == binding_row(self.view(), e),
    {
            let rs = self.rows();
            let es = self.entries();
            w.to_multiset_ensures();
            rs.to_multiset_ensures();
            lemma_entries_map_len(es);
            assert forall|i: int| 0 <= i < w.len() implies is_binding_row(self.view(), #[trigger] w[i]) by {
                assert(w.contains(w[i]));
                assert(w.to_multiset().count(w[i]) > 0);
                assert(rs.to_multiset().count(w[i]) > 0);
                assert(rs.contains(w[i]));
                let j = choose|j: int| 0 <= j < rs.len() && rs[j] == w[i];
                assert(rs.len() == es.len());
                lemma_entries_map_unique(es, j);
                assert(rs[j] == (key_event_text(es[j].0), operations_text(es[j].1)));
                assert(self.view().contains_key(es[j].0) && self.view()[es[j].0] == es[j].1);
                assert(binding_row(self.view(), es[j].0) == w[i]);
            };
            assert forall|e: KeyEvent| #[trigger] self.view().contains_key(e) implies exists|i: int|
                0 <= i < w.len() && w[i] == binding_row(self.view(), e) by {
                lemma_entries_map_dom(es, e);
                let j = choose|j: int| 0 <= j < es.len() && #[trigger] es[j].0 == e;
                lemma_entries_map_unique(es, j);
                assert(rs.len() == es.len());
                assert(rs[j] == (key_event_text(es[j].0), operations_text(es[j].1)));
                assert(rs[j] == binding_row(self.view(), e));
                assert(rs.contains(binding_row(self.view(), e)));
                assert(rs.to_multiset().count(binding_row(self.view(), e)) > 0);
                assert(w.to_multiset().count(binding_row(self.view(), e)) > 0);
                assert(w.contains(binding_row(self.view(), e)));
            };
    }
}

/// Replacing the entry at `i`, whose key no other entry has, replaces its binding.
proof fn lemma_entries_map_update<K, V>(s: Seq<(K, V)>, i: int, e: (K, V))
    requires
        0 <= i < s.len(),
        s[i].0 == e.0,
        forall|a: int, b: int| 0 <= a < b < s.len() ==> #[trigger] s[a].0 != #[trigger] s[b].0,
    ensures
        entries_map(s.update(i, e)) == entries_map(s).insert(e.0, e.1),
    decreases s.len(),
{
    let t = s.update(i, e);
    if i == s.len() - 1 {
        assert(t.drop_last() =~= s.drop_last());
        assert(entries_map(t) =~= entries_map(s).insert(e.0, e.1));
    } else {
        let d = s.drop_last();
        lemma_entries_map_update(d, i, e);
        assert(t.drop_last() =~= d.update(i, e));
        assert(s[i].0 != s.last().0);
        assert(entries_map(t) =~= entries_map(s).insert(e.0, e.1));
    }
}

proof fn lemma_entries_map_len<K, V>(s: Seq<(K, V)>)
    requires
        forall|a: int, b: int| 0 <= a < b < s.len() ==> #[trigger] s[a].0 != #[trigger] s[b].0,
    ensures
        entries_map(s).len() == s.len(),
        entries_map(s).dom().finite(),
    decreases s.len(),
{
    if s.len() > 0 {
        let d = s.drop_last();
        lemma_entries_map_len(d);
        lemma_entries_map_absent(d, s.last().0);
    }
}

} // verus!
