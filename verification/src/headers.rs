//! The header multimap, from a name to the values given for it in their
//! order, and its text form of `name:value` lines.
//!
//! The text form has no escaping: a name that holds `:` or a line break, or a
//! value that holds a line break, does not come back as it went in.

use vstd::prelude::*;
use vstd::string::*;
use crate::text::{
    chars_of, find, find_from, join_lines, lemma_find_from, lemma_split_join, match_at, no_break,
    slice_text, split, split_text, texts,
};

verus! {

/// One name with its values.
#[derive(Debug, Clone)]
pub struct HeaderEntry {
    pub name: String,
    pub values: Vec<String>,
}

/// Headers by name. No name stands twice; the entries keep the order in
/// which their names first came.
#[derive(Debug, Clone)]
pub struct HeaderMap {
    entries: Vec<HeaderEntry>,
}

/// What the entries hold: each name with its values.
pub open spec fn entry_views(entries: Seq<HeaderEntry>) -> Seq<(Seq<char>, Seq<Seq<char>>)> {
    Seq::new(entries.len(), |i: int| (entries[i].name@, texts(entries[i].values@)))
}

/// The first position at or after `from` whose entry has the name, or the
/// number of entries where there is none.
pub open spec fn name_index_from<V>(m: Seq<(Seq<char>, V)>, name: Seq<char>, from: int) -> int
    decreases m.len() - from,
{
    if from < 0 || from >= m.len() {
        m.len() as int
    } else if m[from].0 == name {
        from
    } else {
        name_index_from(m, name, from + 1)
    }
}

/// The position of the entry with the name, or the number of entries.
pub open spec fn name_index<V>(m: Seq<(Seq<char>, V)>, name: Seq<char>) -> int {
    name_index_from(m, name, 0)
}

/// Whether no name stands twice.
pub open spec fn distinct_names<V>(m: Seq<(Seq<char>, V)>) -> bool {
    forall|i: int, j: int| 0 <= i < j < m.len() ==> (#[trigger] m[i]).0 != (#[trigger] m[j]).0
}

/// The headers after one more value for a name: behind the values that the
/// name has, or as a new last entry.
pub open spec fn added(
    m: Seq<(Seq<char>, Seq<Seq<char>>)>,
    name: Seq<char>,
    value: Seq<char>,
) -> Seq<(Seq<char>, Seq<Seq<char>>)> {
    let i = name_index(m, name);
    if 0 <= i < m.len() {
        m.update(i, (name, m[i].1.push(value)))
    } else {
        m.push((name, seq![value]))
    }
}

/// The headers after one line. The name ends at the first `:`, the value is
/// the rest; a line without `:` changes nothing.
pub open spec fn with_line(
    m: Seq<(Seq<char>, Seq<Seq<char>>)>,
    line: Seq<char>,
) -> Seq<(Seq<char>, Seq<Seq<char>>)> {
    let k = find_from(line, ":"@, 0);
    if 0 <= k < line.len() {
        added(m, line.subrange(0, k), line.subrange(k + 1, line.len() as int))
    } else {
        m
    }
}

/// The headers after the lines in their order.
pub open spec fn with_lines(
    m: Seq<(Seq<char>, Seq<Seq<char>>)>,
    lines: Seq<Seq<char>>,
) -> Seq<(Seq<char>, Seq<Seq<char>>)>
    decreases lines.len(),
{
    if lines.len() == 0 {
        m
    } else {
        with_lines(with_line(m, lines[0]), lines.drop_first())
    }
}

/// The headers that a text of lines describes. The lines are the pieces
/// between line breaks of a carriage return and a line feed.
pub open spec fn headers_of_text(t: Seq<char>) -> Seq<(Seq<char>, Seq<Seq<char>>)> {
    with_lines(Seq::empty(), split(t, "\r\n"@))
}

/// One line for each value of a name.
pub open spec fn entry_lines(name: Seq<char>, values: Seq<Seq<char>>) -> Seq<char>
    decreases values.len(),
{
    if values.len() == 0 {
        Seq::empty()
    } else {
        entry_lines(name, values.drop_last()) + (name + ":"@ + values.last() + "\r\n"@)
    }
}

/// The lines of all entries, in the order of the entries.
pub open spec fn header_text(m: Seq<(Seq<char>, Seq<Seq<char>>)>) -> Seq<char>
    decreases m.len(),
{
    if m.len() == 0 {
        Seq::empty()
    } else {
        header_text(m.drop_last()) + entry_lines(m.last().0, m.last().1)
    }
}

/// Where the search for a name ends: at the first entry that has it, past
/// entries that do not.
pub proof fn lemma_name_index<V>(m: Seq<(Seq<char>, V)>, name: Seq<char>, from: int)
    requires
        0 <= from <= m.len(),
    ensures
        from <= name_index_from(m, name, from) <= m.len(),
        name_index_from(m, name, from) < m.len() ==> m[name_index_from(m, name, from)].0 == name,
        forall|j: int| from <= j < name_index_from(m, name, from) ==> (#[trigger] m[j]).0 != name,
    decreases m.len() - from,
{
    if from < m.len() && m[from].0 != name {
        lemma_name_index(m, name, from + 1);
    }
}

/// One more value keeps the names distinct.
pub proof fn lemma_added_distinct(
    m: Seq<(Seq<char>, Seq<Seq<char>>)>,
    name: Seq<char>,
    value: Seq<char>,
)
    requires
        distinct_names(m),
    ensures
        distinct_names(added(m, name, value)),
{
    lemma_name_index(m, name, 0);
    let after = added(m, name, value);
    assert forall|i: int, j: int| 0 <= i < j < after.len() implies (#[trigger] after[i]).0 != (
    #[trigger] after[j]).0 by {
        if j < m.len() {
            assert(m[i].0 != m[j].0);
        } else {
            assert(m[i].0 != name);
        }
    }
}

/// After one more value for a name, the name has the values it had and then
/// the new one, and the other names keep theirs.
pub proof fn lemma_added_lookup(
    m: Seq<(Seq<char>, Seq<Seq<char>>)>,
    name: Seq<char>,
    value: Seq<char>,
    other: Seq<char>,
)
    requires
        distinct_names(m),
    ensures
        name_index(added(m, name, value), name) < added(m, name, value).len(),
        added(m, name, value)[name_index(added(m, name, value), name)].1 == (if name_index(m, name)
            < m.len() {
            m[name_index(m, name)].1.push(value)
        } else {
            seq![value]
        }),
        other != name && name_index(m, other) < m.len() ==> name_index(
            added(m, name, value),
            other,
        ) < added(m, name, value).len() && added(m, name, value)[name_index(
            added(m, name, value),
            other,
        )].1 == m[name_index(m, other)].1,
        other != name && name_index(m, other) == m.len() ==> name_index(
            added(m, name, value),
            other,
        ) == added(m, name, value).len(),
{
    let after = added(m, name, value);
    lemma_added_distinct(m, name, value);
    lemma_name_index(m, name, 0);
    lemma_name_index(m, other, 0);
    lemma_name_index(after, name, 0);
    lemma_name_index(after, other, 0);
    let i = name_index(m, name);
    let a = name_index(after, name);
    if i < m.len() {
        assert(after[i].0 == name);
    } else {
        assert(after[m.len() as int].0 == name);
    }
    if a < after.len() && i < m.len() && a != i {
        assert(after[a].0 == after[i].0);
    }
    if other != name {
        let j = name_index(m, other);
        let b = name_index(after, other);
        if j < m.len() {
            assert(after[j].0 == other);
            if b != j {
                assert(after[b].0 == after[j].0);
            }
        } else if b < after.len() {
            if b < m.len() {
                assert(m[b].0 == other);
            }
        }
    }
}

impl View for HeaderMap {
    type V = Seq<(Seq<char>, Seq<Seq<char>>)>;

    closed spec fn view(&self) -> Seq<(Seq<char>, Seq<Seq<char>>)> {
        entry_views(self.entries@)
    }
}

impl HeaderMap {
    /// Whether the map is in order: no name stands twice.
    pub open spec fn wf(&self) -> bool {
        distinct_names(self@)
    }

    /// No headers.
    pub fn new() -> (m: Self)
        ensures
            m.wf(),
            m@ == Seq::<(Seq<char>, Seq<Seq<char>>)>::empty(),
    {
        let m = HeaderMap { entries: Vec::new() };
        assert(m@ =~= Seq::<(Seq<char>, Seq<Seq<char>>)>::empty());
        m
    }

    /// The entries, each name with its values.
    pub fn entries(&self) -> (r: &Vec<HeaderEntry>)
        ensures
            entry_views(r@) == self@,
    {
        &self.entries
    }

    /// The position of the entry with the name, or the number of entries.
    pub fn position(&self, name: &String) -> (i: usize)
        ensures
            i == name_index(self@, name@),
            i <= self@.len(),
    {
        let n: usize = self.entries.len();
        let mut i: usize = 0;
        while i < n
            invariant
                i <= n,
                n == self.entries@.len(),
                self@ == entry_views(self.entries@),
                name_index(self@, name@) == name_index_from(self@, name@, i as int),
            decreases n - i,
        {
            if self.entries[i].name == *name {
                return i;
            }
            i += 1;
        }
        n
    }

    /// The values of a name, where it has any.
    pub fn get(&self, name: &String) -> (r: Option<&Vec<String>>)
        ensures
            match r {
                Some(values) => name_index(self@, name@) < self@.len() && texts(values@)
                    == self@[name_index(self@, name@)].1,
                None => name_index(self@, name@) == self@.len(),
            },
    {
        let i = self.position(name);
        if i < self.entries.len() {
            Some(&self.entries[i].values)
        } else {
            None
        }
    }

    /// Gives a name one more value, behind those it has.
    pub fn add(&mut self, name: String, value: String)
        requires
            old(self).wf(),
        ensures
            final(self).wf(),
            final(self)@ == added(old(self)@, name@, value@),
    {
        let ghost before = self@;
        let i = self.position(&name);
        if i < self.entries.len() {
            let ghost kept = texts(self.entries@[i as int].values@);
            self.entries[i].values.push(value);
            assert(texts(self.entries@[i as int].values@) =~= kept.push(value@));
        } else {
            let mut values: Vec<String> = Vec::new();
            values.push(value);
            assert(texts(values@) =~= seq![value@]);
            self.entries.push(HeaderEntry { name, values });
        }
        proof {
            lemma_name_index(before, name@, 0);
            lemma_added_distinct(before, name@, value@);
            assert(self@ =~= added(before, name@, value@));
        }
    }

    /// The headers that a text of lines describes.
    pub fn from_text(text: &str) -> (m: Self)
        ensures
            m.wf(),
            m@ == headers_of_text(text@),
    {
        proof {
            reveal_strlit("\r\n");
            reveal_strlit(":");
        }
        let lines = split_text(text, "\r\n");
        let colon = chars_of(":");
        let ghost all = split(text@, "\r\n"@);
        let mut m = HeaderMap::new();
        let n: usize = lines.len();
        let mut i: usize = 0;
        assert(all.subrange(0, n as int) =~= all);
        while i < n
            invariant
                i <= n,
                n == lines@.len(),
                all == texts(lines@),
                colon@ == ":"@,
                m.wf(),
                headers_of_text(text@) == with_lines(m@, all.subrange(i as int, n as int)),
            decreases n - i,
        {
            let ghost rest = all.subrange(i as int, n as int);
            assert(rest[0] == lines@[i as int]@);
            assert(rest.drop_first() =~= all.subrange(i + 1, n as int));
            let line = lines[i].as_str();
            let chars = chars_of(line);
            let k: usize = find(&chars, &colon, 0);
            if k < chars.len() {
                let name = slice_text(line, 0, k);
                let value = slice_text(line, k + 1, chars.len());
                m.add(name, value);
            }
            i += 1;
        }
        m
    }

    /// The lines of the headers: for each entry, one line for each value.
    pub fn to_text(&self) -> (text: String)
        ensures
            text@ == header_text(self@),
            self.wf() && plain(self@) ==> headers_of_text(text@) == self@,
    {
        let mut out = String::new();
        let n: usize = self.entries.len();
        let mut i: usize = 0;
        assert(self@.take(0) =~= Seq::<(Seq<char>, Seq<Seq<char>>)>::empty());
        while i < n
            invariant
                i <= n,
                n == self.entries@.len(),
                self@ == entry_views(self.entries@),
                out@ == header_text(self@.take(i as int)),
            decreases n - i,
        {
            let entry = &self.entries[i];
            let ghost head = out@;
            let ghost values = texts(entry.values@);
            let count: usize = entry.values.len();
            let mut j: usize = 0;
            assert(values.take(0) =~= Seq::<Seq<char>>::empty());
            while j < count
                invariant
                    j <= count,
                    count == entry.values@.len(),
                    values == texts(entry.values@),
                    out@ == head + entry_lines(entry.name@, values.take(j as int)),
                decreases count - j,
            {
                let ghost so_far = out@;
                out.append(entry.name.as_str());
                out.append(":");
                out.append(entry.values[j].as_str());
                out.append("\r\n");
                proof {
                    let next = values.take(j + 1);
                    assert(next.drop_last() =~= values.take(j as int));
                    assert(next.last() == entry.values@[j as int]@);
                    assert(out@ =~= head + entry_lines(entry.name@, next));
                }
                j += 1;
            }
            proof {
                assert(values.take(count as int) =~= values);
                let next = self@.take(i + 1);
                assert(next.drop_last() =~= self@.take(i as int));
                assert(next.last() == self@[i as int]);
            }
            i += 1;
        }
        proof {
            assert(self@.take(n as int) =~= self@);
            if self.wf() && plain(self@) {
                lemma_header_round_trip(self@);
            }
        }
        out
    }
}

/// Whether `s` holds no `:`.
pub open spec fn no_colon(s: Seq<char>) -> bool {
    forall|i: int| 0 <= i < s.len() ==> #[trigger] s[i] != ':'
}

/// Whether the headers come through their text form: every name without `:`
/// and without a line break, at least one value under every name, and every
/// value without a line break.
pub open spec fn plain(m: Seq<(Seq<char>, Seq<Seq<char>>)>) -> bool {
    forall|i: int|
        0 <= i < m.len() ==> {
            &&& no_colon((#[trigger] m[i]).0)
            &&& no_break(m[i].0)
            &&& m[i].1.len() > 0
            &&& forall|j: int| 0 <= j < m[i].1.len() ==> no_break(#[trigger] m[i].1[j])
        }
}

/// The lines of one name, one for each value.
pub open spec fn line_list(name: Seq<char>, values: Seq<Seq<char>>) -> Seq<Seq<char>>
    decreases values.len(),
{
    if values.len() == 0 {
        Seq::empty()
    } else {
        line_list(name, values.drop_last()).push(name + ":"@ + values.last())
    }
}

/// The lines of all entries, in the order of the entries.
pub open spec fn lines_of(m: Seq<(Seq<char>, Seq<Seq<char>>)>) -> Seq<Seq<char>>
    decreases m.len(),
{
    if m.len() == 0 {
        Seq::empty()
    } else {
        lines_of(m.drop_last()) + line_list(m.last().0, m.last().1)
    }
}

proof fn lemma_join_append(a: Seq<Seq<char>>, b: Seq<Seq<char>>)
    ensures
        join_lines(a + b) == join_lines(a) + join_lines(b),
    decreases b.len(),
{
    if b.len() == 0 {
        assert(a + b =~= a);
        assert(join_lines(a) + join_lines(b) =~= join_lines(a));
    } else {
        lemma_join_append(a, b.drop_last());
        assert((a + b).drop_last() =~= a + b.drop_last());
        assert((a + b).last() == b.last());
        assert(join_lines(a + b) =~= join_lines(a) + join_lines(b));
    }
}

proof fn lemma_entry_text(name: Seq<char>, values: Seq<Seq<char>>)
    ensures
        entry_lines(name, values) == join_lines(line_list(name, values)),
    decreases values.len(),
{
    if values.len() > 0 {
        lemma_entry_text(name, values.drop_last());
        let lines = line_list(name, values);
        assert(lines.drop_last() =~= line_list(name, values.drop_last()));
        assert(lines.last() == name + ":"@ + values.last());
        assert(entry_lines(name, values) =~= join_lines(lines));
    }
}

/// The text of the headers is their lines, each closed by a line break.
pub proof fn lemma_header_text(m: Seq<(Seq<char>, Seq<Seq<char>>)>)
    ensures
        header_text(m) == join_lines(lines_of(m)),
    decreases m.len(),
{
    if m.len() > 0 {
        lemma_header_text(m.drop_last());
        lemma_entry_text(m.last().0, m.last().1);
        lemma_join_append(lines_of(m.drop_last()), line_list(m.last().0, m.last().1));
    }
}

proof fn lemma_with_lines_push(
    acc: Seq<(Seq<char>, Seq<Seq<char>>)>,
    lines: Seq<Seq<char>>,
    line: Seq<char>,
)
    ensures
        with_lines(acc, lines.push(line)) == with_line(with_lines(acc, lines), line),
    decreases lines.len(),
{
    let all = lines.push(line);
    if lines.len() == 0 {
        assert(all.drop_first() =~= Seq::<Seq<char>>::empty());
        assert(with_lines(with_line(acc, line), all.drop_first()) == with_line(acc, line));
    } else {
        assert(all[0] == lines[0]);
        assert(all.drop_first() =~= lines.drop_first().push(line));
        lemma_with_lines_push(with_line(acc, lines[0]), lines.drop_first(), line);
    }
}

proof fn lemma_with_lines_append(
    acc: Seq<(Seq<char>, Seq<Seq<char>>)>,
    a: Seq<Seq<char>>,
    b: Seq<Seq<char>>,
)
    ensures
        with_lines(acc, a + b) == with_lines(with_lines(acc, a), b),
    decreases a.len(),
{
    if a.len() == 0 {
        assert(a + b =~= b);
    } else {
        assert((a + b)[0] == a[0]);
        assert((a + b).drop_first() =~= a.drop_first() + b);
        lemma_with_lines_append(with_line(acc, a[0]), a.drop_first(), b);
    }
}

/// A line of a name without `:`, a `:` and a value reads as that name and
/// that value.
pub proof fn lemma_line_added(
    m: Seq<(Seq<char>, Seq<Seq<char>>)>,
    name: Seq<char>,
    value: Seq<char>,
)
    requires
        no_colon(name),
    ensures
        with_line(m, name + ":"@ + value) == added(m, name, value),
{
    reveal_strlit(":");
    let pat = ":"@;
    assert(pat =~= seq![':']);
    let line = name + pat + value;
    let n = name.len() as int;
    lemma_find_from(line, pat, 0);
    let k = find_from(line, pat, 0);
    assert(line.subrange(n, n + 1) =~= pat);
    assert(match_at(line, pat, n));
    if k < n {
        assert(line.subrange(k, k + 1)[0] == ':');
        assert(line[k] == name[k]);
    }
    assert(line.subrange(0, n) =~= name);
    assert(line.subrange(n + 1, line.len() as int) =~= value);
}

proof fn lemma_line_no_break(name: Seq<char>, value: Seq<char>)
    requires
        no_break(name),
        no_break(value),
    ensures
        no_break(name + ":"@ + value),
{
    reveal_strlit(":");
    let line = name + ":"@ + value;
    let n = name.len() as int;
    assert forall|i: int| #![trigger line[i]] 0 <= i && i + 1 < line.len() implies !(line[i] == '\r'
        && line[i + 1] == '\n') by {
        if i + 1 < n {
            assert(line[i] == name[i] && line[i + 1] == name[i + 1]);
        } else if i + 1 == n {
            assert(line[i + 1] == ':');
        } else if i == n {
            assert(line[i] == ':');
        } else {
            assert(line[i] == value[i - n - 1] && line[i + 1] == value[i - n]);
        }
    }
}

proof fn lemma_entry_built(
    acc: Seq<(Seq<char>, Seq<Seq<char>>)>,
    name: Seq<char>,
    values: Seq<Seq<char>>,
)
    requires
        no_colon(name),
        name_index(acc, name) == acc.len(),
    ensures
        with_lines(acc, line_list(name, values)) == (if values.len() == 0 {
            acc
        } else {
            acc.push((name, values))
        }),
    decreases values.len(),
{
    if values.len() > 0 {
        let before = values.drop_last();
        lemma_entry_built(acc, name, before);
        lemma_with_lines_push(acc, line_list(name, before), name + ":"@ + values.last());
        let mid = with_lines(acc, line_list(name, before));
        lemma_line_added(mid, name, values.last());
        lemma_name_index(mid, name, 0);
        lemma_name_index(acc, name, 0);
        if before.len() == 0 {
            assert(mid == acc);
            assert(seq![values.last()] =~= values);
        } else {
            let i = name_index(mid, name);
            assert(mid[acc.len() as int].0 == name);
            if i < acc.len() {
                assert(mid[i] == acc[i]);
            }
            assert(before.push(values.last()) =~= values);
            assert(mid.update(i, (name, values)) =~= acc.push((name, values)));
        }
    }
}

proof fn lemma_lines_plain(name: Seq<char>, values: Seq<Seq<char>>)
    requires
        no_break(name),
        forall|j: int| 0 <= j < values.len() ==> no_break(#[trigger] values[j]),
    ensures
        forall|k: int|
            0 <= k < line_list(name, values).len() ==> no_break(
                #[trigger] line_list(name, values)[k],
            ),
    decreases values.len(),
{
    if values.len() > 0 {
        let before = values.drop_last();
        lemma_lines_plain(name, before);
        lemma_line_no_break(name, values.last());
        let lines = line_list(name, values);
        assert forall|k: int| 0 <= k < lines.len() implies no_break(#[trigger] lines[k]) by {
            if k < lines.len() - 1 {
                assert(lines[k] == line_list(name, before)[k]);
            }
        }
    }
}

proof fn lemma_built(m: Seq<(Seq<char>, Seq<Seq<char>>)>)
    requires
        distinct_names(m),
        plain(m),
    ensures
        with_lines(Seq::empty(), lines_of(m)) == m,
        forall|k: int| 0 <= k < lines_of(m).len() ==> no_break(#[trigger] lines_of(m)[k]),
    decreases m.len(),
{
    if m.len() > 0 {
        let front = m.drop_last();
        let last = m.last();
        assert forall|i: int| 0 <= i < front.len() implies front[i] == m[i] by {}
        assert(distinct_names(front));
        assert(plain(front)) by {
            assert forall|i: int| 0 <= i < front.len() implies {
                &&& no_colon((#[trigger] front[i]).0)
                &&& no_break(front[i].0)
                &&& front[i].1.len() > 0
                &&& forall|j: int| 0 <= j < front[i].1.len() ==> no_break(#[trigger] front[i].1[j])
            } by {
                assert(front[i] == m[i]);
            }
        }
        lemma_built(front);
        assert(m[m.len() - 1] == last);
        lemma_lines_plain(last.0, last.1);
        lemma_with_lines_append(Seq::empty(), lines_of(front), line_list(last.0, last.1));
        lemma_name_index(front, last.0, 0);
        if name_index(front, last.0) < front.len() {
            let i = name_index(front, last.0);
            assert(m[i].0 == m[m.len() - 1].0);
        }
        lemma_entry_built(front, last.0, last.1);
        assert(front.push((last.0, last.1)) =~= m);
        let lines = lines_of(m);
        assert forall|k: int| 0 <= k < lines.len() implies no_break(#[trigger] lines[k]) by {
            if k < lines_of(front).len() {
                assert(lines[k] == lines_of(front)[k]);
            } else {
                assert(lines[k] == line_list(last.0, last.1)[k - lines_of(front).len()]);
            }
        }
    }
}

/// Reading the text form of headers gives the headers back, each name with
/// its values in their order, as long as the names are distinct and the
/// headers are plain.
pub proof fn lemma_header_round_trip(m: Seq<(Seq<char>, Seq<Seq<char>>)>)
    requires
        distinct_names(m),
        plain(m),
    ensures
        headers_of_text(header_text(m)) == m,
{
    reveal_strlit(":");
    lemma_header_text(m);
    lemma_built(m);
    let lines = lines_of(m);
    lemma_split_join(lines);
    lemma_with_lines_push(Seq::empty(), lines, Seq::empty());
    let none = Seq::<char>::empty();
    assert(find_from(none, ":"@, 0) == 0);
}

} // verus!
