//! The program that a plugin supplies, the parameters it is built from, and
//! the single stored instance that the two entry points work on.

use vstd::prelude::*;
use vstd::string::*;
use crate::headers::{distinct_names, lemma_name_index, name_index, name_index_from};
use crate::marshal::{text_list_at, text_list_framed_at, unmarshal_string_vec};
use crate::text::texts;
use crate::wire::le_value;

verus! {

/// The parameters of a program, by key. No key stands twice; the entries keep
/// the order in which their keys first came.
#[derive(Debug, Clone)]
pub struct Params {
    entries: Vec<(String, String)>,
}

/// What the entries hold: each key with its value.
pub open spec fn pair_views(entries: Seq<(String, String)>) -> Seq<(Seq<char>, Seq<char>)> {
    Seq::new(entries.len(), |i: int| (entries[i].0@, entries[i].1@))
}

/// The parameters after a key is given a value: in the place of the value
/// that the key had, or as a new last entry.
pub open spec fn inserted(m: Seq<(Seq<char>, Seq<char>)>, key: Seq<char>, value: Seq<char>) -> Seq<
    (Seq<char>, Seq<char>),
> {
    let i = name_index(m, key);
    if 0 <= i < m.len() {
        m.update(i, (key, value))
    } else {
        m.push((key, value))
    }
}

/// The parameters after the pairs of `list` from position `from` on: a key,
/// then its value, then the next key. The last value given for a key stays.
pub open spec fn with_pairs(m: Seq<(Seq<char>, Seq<char>)>, list: Seq<Seq<char>>, from: int) -> Seq<
    (Seq<char>, Seq<char>),
>
    decreases list.len() - from,
{
    if 0 <= from && from + 2 <= list.len() {
        with_pairs(inserted(m, list[from], list[from + 1]), list, from + 2)
    } else {
        m
    }
}

/// The parameters that a list of alternating keys and values describes.
pub open spec fn params_of_list(list: Seq<Seq<char>>) -> Seq<(Seq<char>, Seq<char>)> {
    with_pairs(Seq::empty(), list, 0)
}

/// A new value for a key keeps the keys distinct.
pub proof fn lemma_inserted_distinct(
    m: Seq<(Seq<char>, Seq<char>)>,
    key: Seq<char>,
    value: Seq<char>,
)
    requires
        distinct_names(m),
    ensures
        distinct_names(inserted(m, key, value)),
{
    lemma_name_index(m, key, 0);
    let after = inserted(m, key, value);
    assert forall|i: int, j: int| 0 <= i < j < after.len() implies (#[trigger] after[i]).0 != (
    #[trigger] after[j]).0 by {
        if j < m.len() {
            assert(m[i].0 != m[j].0);
        } else {
            assert(m[i].0 != key);
        }
    }
}

/// The last value given for a key is the one found under it, and the other
/// keys keep what they had.
pub proof fn lemma_inserted_lookup(
    m: Seq<(Seq<char>, Seq<char>)>,
    key: Seq<char>,
    value: Seq<char>,
    other: Seq<char>,
)
    requires
        distinct_names(m),
    ensures
        name_index(inserted(m, key, value), key) < inserted(m, key, value).len(),
        inserted(m, key, value)[name_index(inserted(m, key, value), key)].1 == value,
        other != key && name_index(m, other) < m.len() ==> name_index(
            inserted(m, key, value),
            other,
        ) < inserted(m, key, value).len() && inserted(m, key, value)[name_index(
            inserted(m, key, value),
            other,
        )].1 == m[name_index(m, other)].1,
        other != key && name_index(m, other) == m.len() ==> name_index(
            inserted(m, key, value),
            other,
        ) == inserted(m, key, value).len(),
{
    let after = inserted(m, key, value);
    lemma_inserted_distinct(m, key, value);
    lemma_name_index(m, key, 0);
    lemma_name_index(m, other, 0);
    lemma_name_index(after, key, 0);
    lemma_name_index(after, other, 0);
    let i = name_index(m, key);
    let a = name_index(after, key);
    if i < m.len() {
        assert(after[i].0 == key);
    } else {
        assert(after[m.len() as int].0 == key);
    }
    if a < after.len() && i < m.len() && a != i {
        assert(after[a].0 == after[i].0);
    }
    if other != key {
        let j = name_index(m, other);
        let b = name_index(after, other);
        if j < m.len() {
            assert(after[j].0 == other);
            if b != j {
                assert(after[b].0 == after[j].0);
            }
        } else if b < after.len() {
            if b < m.len() {
                assert(m[b].0 == other);
            }
        }
    }
}

/// The value that the parameters hold under a key, if any.
pub open spec fn lookup(m: Seq<(Seq<char>, Seq<char>)>, key: Seq<char>) -> Option<Seq<char>> {
    if name_index(m, key) < m.len() {
        Some(m[name_index(m, key)].1)
    } else {
        None
    }
}

/// The value of the last pair of `list`, from position `from` on, whose key
/// is `key`, if there is such a pair.
pub open spec fn last_given(list: Seq<Seq<char>>, from: int, key: Seq<char>) -> Option<Seq<char>>
    decreases list.len() - from,
{
    if 0 <= from && from + 2 <= list.len() {
        match last_given(list, from + 2, key) {
            Some(v) => Some(v),
            None => if list[from] == key {
                Some(list[from + 1])
            } else {
                None
            },
        }
    } else {
        None
    }
}

/// Of the values that a list gives for a key the last one stays; a key that
/// the list does not give keeps what it had. The keys stay distinct.
pub proof fn lemma_last_write_wins(
    m: Seq<(Seq<char>, Seq<char>)>,
    list: Seq<Seq<char>>,
    from: int,
    key: Seq<char>,
)
    requires
        distinct_names(m),
        0 <= from,
    ensures
        distinct_names(with_pairs(m, list, from)),
        lookup(with_pairs(m, list, from), key) == (match last_given(list, from, key) {
            Some(v) => Some(v),
            None => lookup(m, key),
        }),
    decreases list.len() - from,
{
    if from + 2 <= list.len() {
        let next = inserted(m, list[from], list[from + 1]);
        lemma_inserted_distinct(m, list[from], list[from + 1]);
        lemma_inserted_lookup(m, list[from], list[from + 1], key);
        lemma_name_index(m, key, 0);
        lemma_last_write_wins(next, list, from + 2, key);
    }
}

impl View for Params {
    type V = Seq<(Seq<char>, Seq<char>)>;

    closed spec fn view(&self) -> Seq<(Seq<char>, Seq<char>)> {
        pair_views(self.entries@)
    }
}

impl Params {
    /// Whether the parameters are in order: no key stands twice.
    pub open spec fn wf(&self) -> bool {
        distinct_names(self@)
    }

    /// No parameters.
    pub fn new() -> (m: Self)
        ensures
            m.wf(),
            m@ == Seq::<(Seq<char>, Seq<char>)>::empty(),
    {
        let m = Params { entries: Vec::new() };
        assert(m@ =~= Seq::<(Seq<char>, Seq<char>)>::empty());
        m
    }

    /// The entries, each key with its value.
    pub fn entries(&self) -> (r: &Vec<(String, String)>)
        ensures
            pair_views(r@) == self@,
    {
        &self.entries
    }

    /// The position of the entry with the key, or the number of entries.
    pub fn position(&self, key: &String) -> (i: usize)
        ensures
            i == name_index(self@, key@),
            i <= self@.len(),
    {
        let n: usize = self.entries.len();
        let mut i: usize = 0;
        while i < n
            invariant
                i <= n,
                n == self.entries@.len(),
                self@ == pair_views(self.entries@),
                name_index(self@, key@) == name_index_from(self@, key@, i as int),
            decreases n - i,
        {
            if self.entries[i].0 == *key {
                return i;
            }
            i += 1;
        }
        n
    }

    /// The value of a key, where it has one.
    pub fn get(&self, key: &String) -> (r: Option<&String>)
        ensures
            match r {
                Some(value) => lookup(self@, key@) == Some(value@),
                None => lookup(self@, key@) is None,
            },
    {
        let i = self.position(key);
        if i < self.entries.len() {
            Some(&self.entries[i].1)
        } else {
            None
        }
    }

    /// Gives a key a value, in place of the one it had.
    pub fn insert(&mut self, key: String, value: String)
        requires
            old(self).wf(),
        ensures
            final(self).wf(),
            final(self)@ == inserted(old(self)@, key@, value@),
    {
        let ghost before = self@;
        let i = self.position(&key);
        if i < self.entries.len() {
            self.entries.set(i, (key, value));
        } else {
            self.entries.push((key, value));
        }
        proof {
            lemma_name_index(before, key@, 0);
            lemma_inserted_distinct(before, key@, value@);
            assert(self@ =~= inserted(before, key@, value@));
        }
    }

    /// The parameters that a list of alternating keys and values describes.
    pub fn from_list(list: &Vec<String>) -> (m: Self)
        requires
            list@.len() % 2 == 0,
        ensures
            m.wf(),
            m@ == params_of_list(texts(list@)),
    {
        let ghost all = texts(list@);
        let mut m = Params::new();
        let n: usize = list.len();
        let mut i: usize = 0;
        while i < n
            invariant
                i <= n,
                i % 2 == 0,
                n % 2 == 0,
                n == list@.len(),
                all == texts(list@),
                m.wf(),
                params_of_list(all) == with_pairs(m@, all, i as int),
            decreases n - i,
        {
            assert(all[i as int] == list@[i as int]@);
            assert(all[i + 1] == list@[i + 1]@);
            m.insert(list[i].clone(), list[i + 1].clone());
            i += 2;
        }
        m
    }
}

/// What a plugin supplies: how it is built from its parameters, and what it
/// does for one unit of work.
pub trait Program: Sized {
    /// Builds the program from its parameters.
    fn new(params: Params) -> (p: Self)
        requires
            params.wf(),
    ;

    /// Does one unit of work and reports its status. A program that does not
    /// say what it does reports zero.
    fn run(&self) -> (code: i32)
        default_ensures
            code == 0,
    {
        0
    }
}

/// Whether the stored program came with the module or from the host's
/// parameters.
#[derive(Debug, Clone, Copy, PartialEq, Eq, Structural)]
pub enum Stage {
    Defaulted,
    Initialized,
}

/// The one stored program of a module instance.
pub struct Instance<T: Program> {
    program: T,
    stage: Stage,
    built: Ghost<Params>,
}

impl<T: Program> Instance<T> {
    /// The parameters, as they were handed over, that the stored program was
    /// built from.
    pub closed spec fn source(&self) -> Params {
        self.built@
    }

    /// What the parameters held that the stored program was built from.
    pub open spec fn params(&self) -> Seq<(Seq<char>, Seq<char>)> {
        self.source()@
    }

    /// Where the instance stands.
    pub closed spec fn stage(&self) -> Stage {
        self.stage
    }

    /// The stored program.
    pub closed spec fn program(&self) -> T {
        self.program
    }

    /// Whether the stored program is one that `Program::new` gives for the
    /// recorded parameters.
    pub open spec fn wf(&self) -> bool {
        &&& self.source().wf()
        &&& call_ensures(T::new, (self.source(),), self.program())
    }

    /// The instance as it is when the module loads: a program built from no
    /// parameters.
    pub fn load() -> (s: Self)
        ensures
            s.wf(),
            s.stage() == Stage::Defaulted,
            s.params() == Seq::<(Seq<char>, Seq<char>)>::empty(),
    {
        let params = Params::new();
        let built = Ghost(params);
        Instance { built, program: T::new(params), stage: Stage::Defaulted }
    }

    /// Where the instance stands.
    pub fn current_stage(&self) -> (s: Stage)
        ensures
            s == self.stage(),
    {
        self.stage
    }

    /// The stored program.
    pub fn stored(&self) -> (p: &T)
        ensures
            *p == self.program(),
    {
        &self.program
    }

    /// Builds a program from the given parameters and stores it in place of
    /// the one before, whatever that was.
    pub fn replace(&mut self, params: Params)
        requires
            params.wf(),
        ensures
            final(self).wf(),
            final(self).stage() == Stage::Initialized,
            final(self).params() == params@,
    {
        self.built = Ghost(params);
        self.program = T::new(params);
        self.stage = Stage::Initialized;
    }

    /// The init entry point: reads the list of alternating keys and values
    /// framed at `ptr`, builds a program from them and stores it in place of
    /// the one before, whatever that was.
    pub fn init(&mut self, mem: &[u8], ptr: i32)
        requires
            text_list_framed_at(mem@, ptr as int),
            le_value(mem@, ptr as int) % 2 == 0,
        ensures
            final(self).wf(),
            final(self).stage() == Stage::Initialized,
            final(self).params() == params_of_list(text_list_at(mem@, ptr as int)),
    {
        let list = unmarshal_string_vec(mem, ptr);
        assert(texts(list@).len() == list@.len());
        self.replace(Params::from_list(&list));
    }

    /// The run entry point: runs the stored program and hands back the
    /// status that it reports. The instance stays as it is.
    pub fn run(&self) -> (code: i32)
        ensures
            call_ensures(T::run, (&self.program(),), code),
    {
        self.program.run()
    }
}

} // verus!
