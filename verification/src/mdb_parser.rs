//! The Code Table Builder: turning one code file per subsystem into a
//! read-only mapping from error tokens to canonical message templates.
//!
//! Each line of a code file carries at most one entry: its first
//! word-shaped token is the error token, and the first double-quoted
//! string after that token is the template, stored verbatim with its
//! quotes.  Lines without a token are skipped; a line whose token has no
//! trailing quoted string is a fatal parse error for the file.  When a
//! token occurs on several lines, the last occurrence wins.

use vstd::prelude::*;

use crate::FCP;
use crate::fcp_of;
use crate::text::is_word_char;
use crate::text::lines_view;
use crate::text::subvec;
use crate::text::word_char;

verus! {

/// Predicate selecting word-shaped characters.
pub open spec fn word_pred() -> spec_fn(char) -> bool {
    |c: char| is_word_char(c)
}

/// Predicate selecting everything but word-shaped characters.
pub open spec fn nonword_pred() -> spec_fn(char) -> bool {
    |c: char| !is_word_char(c)
}

/// Predicate selecting the double quote.
pub open spec fn quote_pred() -> spec_fn(char) -> bool {
    |c: char| c == '"'
}

/// Predicate selecting the path separator.
pub open spec fn slash_pred() -> spec_fn(char) -> bool {
    |c: char| c == '/'
}

/// Predicate selecting the dot.
pub open spec fn dot_pred() -> spec_fn(char) -> bool {
    |c: char| c == '.'
}

/// First position at or after `from` whose character satisfies `p`, or
/// `s.len()` if there is none.
pub open spec fn find_from(s: Seq<char>, from: int, p: spec_fn(char) -> bool) -> int
    decreases s.len() - from,
    when 0 <= from <= s.len()
{
    if from == s.len() {
        from
    } else if p(s[from]) {
        from
    } else {
        find_from(s, from + 1, p)
    }
}

pub proof fn lemma_find_from(s: Seq<char>, from: int, p: spec_fn(char) -> bool)
    requires
        0 <= from <= s.len(),
    ensures
        from <= find_from(s, from, p) <= s.len(),
        find_from(s, from, p) < s.len() ==> p(s[find_from(s, from, p)]),
        forall|j: int| from <= j < find_from(s, from, p) ==> !p(s[j]),
    decreases s.len() - from,
{
    if from < s.len() && !p(s[from]) {
        lemma_find_from(s, from + 1, p);
    }
}

/// Last position whose character satisfies `p`, or `-1` if there is
/// none.
pub open spec fn find_last(s: Seq<char>, p: spec_fn(char) -> bool) -> int
    decreases s.len(),
{
    if s.len() == 0 {
        -1
    } else if p(s.last()) {
        s.len() - 1
    } else {
        find_last(s.drop_last(), p)
    }
}

pub proof fn lemma_find_last(s: Seq<char>, p: spec_fn(char) -> bool)
    ensures
        -1 <= find_last(s, p) < s.len(),
        find_last(s, p) >= 0 ==> p(s[find_last(s, p)]),
        forall|j: int| find_last(s, p) < j < s.len() ==> !p(s[j]),
    decreases s.len(),
{
    if s.len() > 0 && !p(s.last()) {
        lemma_find_last(s.drop_last(), p);
        assert(forall|j: int|
            find_last(s, p) < j < s.len() - 1 ==> s[j] == s.drop_last()[j] && !p(s[j]));
    }
}

/// First position at or after `from` holding a word-shaped character.
fn find_word_from(line: &Vec<char>, from: usize) -> (r: usize)
    requires
        from <= line@.len(),
    ensures
        from <= r <= line@.len(),
        r == find_from(line@, from as int, word_pred()),
{
    proof {
        lemma_find_from(line@, from as int, word_pred());
    }
    let n = line.len();
    let mut i: usize = from;
    while i < n && !word_char(line[i])
        invariant
            from <= i <= n,
            n == line@.len(),
            forall|j: int| from <= j < i ==> !word_pred()(line@[j]),
        decreases n - i,
    {
        i += 1;
    }
    proof {
        let r = find_from(line@, from as int, word_pred());
        assert(i < n ==> word_pred()(line@[i as int]));
        assert(r >= i) by {
            if r < i {
                assert(!word_pred()(line@[r]));
            }
        }
        assert(r <= i) by {
            if r > i {
                assert(!word_pred()(line@[i as int]));
            }
        }
    }
    i
}

/// First position at or after `from` holding a character that is not
/// word-shaped.
pub(crate) fn find_nonword_from(line: &Vec<char>, from: usize) -> (r: usize)
    requires
        from <= line@.len(),
    ensures
        from <= r <= line@.len(),
        r == find_from(line@, from as int, nonword_pred()),
{
    proof {
        lemma_find_from(line@, from as int, nonword_pred());
    }
    let n = line.len();
    let mut i: usize = from;
    while i < n && word_char(line[i])
        invariant
            from <= i <= n,
            n == line@.len(),
            forall|j: int| from <= j < i ==> !nonword_pred()(line@[j]),
        decreases n - i,
    {
        i += 1;
    }
    proof {
        let r = find_from(line@, from as int, nonword_pred());
        assert(i < n ==> nonword_pred()(line@[i as int]));
        assert(r >= i) by {
            if r < i {
                assert(!nonword_pred()(line@[r]));
            }
        }
        assert(r <= i) by {
            if r > i {
                assert(!nonword_pred()(line@[i as int]));
            }
        }
    }
    i
}

/// First position at or after `from` holding a double quote.
fn find_quote_from(line: &Vec<char>, from: usize) -> (r: usize)
    requires
        from <= line@.len(),
    ensures
        from <= r <= line@.len(),
        r == find_from(line@, from as int, quote_pred()),
{
    proof {
        lemma_find_from(line@, from as int, quote_pred());
    }
    let n = line.len();
    let mut i: usize = from;
    while i < n && line[i] != '"'
        invariant
            from <= i <= n,
            n == line@.len(),
            forall|j: int| from <= j < i ==> !quote_pred()(line@[j]),
        decreases n - i,
    {
        i += 1;
    }
    proof {
        let r = find_from(line@, from as int, quote_pred());
        assert(i < n ==> quote_pred()(line@[i as int]));
        assert(r >= i) by {
            if r < i {
                assert(!quote_pred()(line@[r]));
            }
        }
        assert(r <= i) by {
            if r > i {
                assert(!quote_pred()(line@[i as int]));
            }
        }
    }
    i
}

/// Start of the first word-shaped token of a line, or the line length
/// if the line has none.
pub open spec fn token_start(s: Seq<char>) -> int {
    find_from(s, 0, word_pred())
}

/// End of the first word-shaped token of a line.
pub open spec fn token_end(s: Seq<char>) -> int {
    find_from(s, token_start(s), nonword_pred())
}

/// The first word-shaped token of a line, if any.
pub open spec fn mdb_token_spec(s: Seq<char>) -> Option<Seq<char>> {
    if token_start(s) == s.len() {
        None
    } else {
        Some(s.subrange(token_start(s), token_end(s)))
    }
}

/// The first double-quoted string starting at or after position `e`,
/// quotes included.
pub open spec fn quoted_after(s: Seq<char>, e: int) -> Option<Seq<char>>
    recommends
        0 <= e <= s.len(),
{
    let q1 = find_from(s, e, quote_pred());
    if q1 == s.len() {
        None
    } else {
        let q2 = find_from(s, q1 + 1, quote_pred());
        if q2 == s.len() {
            None
        } else {
            Some(s.subrange(q1, q2 + 1))
        }
    }
}

/// The canonical template of a code-file line: the first quoted string
/// after its token.
pub open spec fn mdb_template_spec(s: Seq<char>) -> Option<Seq<char>> {
    match mdb_token_spec(s) {
        None => None,
        Some(_) => quoted_after(s, token_end(s)),
    }
}

/// The entries contributed by a sequence of code-file lines, in order,
/// or the index of the first malformed line: one with a token but no
/// quoted template after it.
pub open spec fn build_entries(lines: Seq<Seq<char>>) -> Result<Seq<(Seq<char>, Seq<char>)>, int>
    decreases lines.len(),
{
    if lines.len() == 0 {
        Ok(Seq::empty())
    } else {
        match build_entries(lines.drop_last()) {
            Err(i) => Err(i),
            Ok(es) => {
                let s = lines.last();
                match mdb_token_spec(s) {
                    None => Ok(es),
                    Some(t) => match quoted_after(s, token_end(s)) {
                        None => Err(lines.len() - 1),
                        Some(m) => Ok(es.push((t, m))),
                    },
                }
            },
        }
    }
}

/// A malformed line keeps the whole file malformed: once a prefix of
/// the lines fails, every extension fails the same way.
proof fn lemma_build_entries_err(lines: Seq<Seq<char>>, k: int)
    requires
        0 <= k <= lines.len(),
        build_entries(lines.take(k)) is Err,
    ensures
        build_entries(lines) == build_entries(lines.take(k)),
    decreases lines.len(),
{
    if k == lines.len() {
        assert(lines.take(k) =~= lines);
    } else {
        assert(lines.drop_last().take(k) =~= lines.take(k));
        lemma_build_entries_err(lines.drop_last(), k);
    }
}

/// The views of a sequence of entry pairs.
pub open spec fn entry_views(es: Seq<(Vec<char>, Vec<char>)>) -> Seq<(Seq<char>, Seq<char>)> {
    es.map_values(|e: (Vec<char>, Vec<char>)| (e.0@, e.1@))
}

/// The value bound to `k` in an entry list where the latest entry wins.
pub open spec fn assoc_get(es: Seq<(Seq<char>, Seq<char>)>, k: Seq<char>) -> Option<Seq<char>>
    decreases es.len(),
{
    if es.len() == 0 {
        None
    } else if es.last().0 == k {
        Some(es.last().1)
    } else {
        assoc_get(es.drop_last(), k)
    }
}

/// One subsystem's code table: error token to canonical message
/// template, the last occurrence of a token winning.
pub struct CodeTable {
    entries: Vec<(Vec<char>, Vec<char>)>,
}

impl CodeTable {
    /// The entries in insertion order.
    pub closed spec fn spec_entries(&self) -> Seq<(Seq<char>, Seq<char>)> {
        entry_views(self.entries@)
    }

    /// The template bound to a token.
    pub open spec fn spec_get(&self, k: Seq<char>) -> Option<Seq<char>> {
        assoc_get(self.spec_entries(), k)
    }

    /// An empty table.
    pub fn new() -> (r: Self)
        ensures
            r.spec_entries() == Seq::<(Seq<char>, Seq<char>)>::empty(),
    {
        let r = CodeTable { entries: Vec::new() };
        proof {
            assert(r.spec_entries() =~= Seq::<(Seq<char>, Seq<char>)>::empty());
        }
        r
    }

    /// Record one entry; a later entry for the same token shadows an
    /// earlier one.
    pub fn insert(&mut self, token: Vec<char>, template: Vec<char>)
        ensures
            final(self).spec_entries() == old(self).spec_entries().push((token@, template@)),
    {
        let ghost t = token@;
        let ghost m = template@;
        self.entries.push((token, template));
        proof {
            assert(final(self).spec_entries() =~= old(self).spec_entries().push((t, m)));
        }
    }

    /// Look a token up; `None` is a valid, expected outcome.
    pub fn get(&self, token: &Vec<char>) -> (r: Option<Vec<char>>)
        ensures
            match r {
                Some(m) => self.spec_get(token@) == Some(m@),
                None => self.spec_get(token@) is None,
            },
    {
        let n = self.entries.len();
        let mut i: usize = n;
        proof {
            assert(self.spec_entries().take(n as int) =~= self.spec_entries());
        }
        while i > 0
            invariant
                0 <= i <= n,
                n == self.entries@.len(),
                assoc_get(self.spec_entries(), token@) == assoc_get(
                    self.spec_entries().take(i as int),
                    token@,
                ),
            decreases i,
        {
            i -= 1;
            let ghost pre = self.spec_entries().take(i + 1);
            proof {
                assert(pre.last() == self.spec_entries()[i as int]);
                assert(pre.drop_last() =~= self.spec_entries().take(i as int));
            }
            if crate::text::chars_eq(&self.entries[i].0, token) {
                let m = self.entries[i].1.clone();
                proof {
                    assert(pre.last().0 == token@);
                    assert(m@ =~= self.entries@[i as int].1@);
                }
                return Some(m);
            }
            proof {
                assert(pre.last().0 != token@);
            }
        }
        proof {
            assert(self.spec_entries().take(0) =~= Seq::<(Seq<char>, Seq<char>)>::empty());
        }
        None
    }
}

/// Extract the template of one code-file line, if the line has a token
/// followed by a quoted string.
pub fn get_mdb(line: &Vec<char>) -> (r: Option<Vec<char>>)
    ensures
        match r {
            Some(m) => mdb_template_spec(line@) == Some(m@),
            None => mdb_template_spec(line@) is None,
        },
{
    let n = line.len();
    let start = find_word_from(line, 0);
    if start == n {
        return None;
    }
    let e = find_nonword_from(line, start);
    proof {
        lemma_find_from(line@, start as int, nonword_pred());
    }
    let q1 = find_quote_from(line, e);
    if q1 == n {
        return None;
    }
    let q2 = find_quote_from(line, q1 + 1);
    if q2 == n {
        return None;
    }
    Some(subvec(line, q1, q2 + 1))
}

/// Build one subsystem's table from the lines of its code file.  The
/// error is the index of the first malformed line.
pub fn get_mdb_codes(lines: &Vec<Vec<char>>) -> (r: Result<CodeTable, usize>)
    ensures
        match r {
            Ok(t) => build_entries(lines_view(lines@)) == Ok::<_, int>(t.spec_entries()),
            Err(i) => build_entries(lines_view(lines@)) == Err::<Seq<(Seq<char>, Seq<char>)>, int>(
                i as int,
            ),
        },
{
    let n = lines.len();
    let mut table = CodeTable::new();
    let mut i: usize = 0;
    proof {
        assert(lines_view(lines@).take(0) =~= Seq::<Seq<char>>::empty());
    }
    while i < n
        invariant
            0 <= i <= n,
            n == lines@.len(),
            build_entries(lines_view(lines@).take(i as int)) == Ok::<_, int>(table.spec_entries()),
        decreases n - i,
    {
        let ghost lv = lines_view(lines@);
        proof {
            assert(lv.take(i + 1).drop_last() =~= lv.take(i as int));
            assert(lv.take(i + 1).last() == lines@[i as int]@);
        }
        let line = &lines[i];
        let ln = line.len();
        let start = find_word_from(line, 0);
        if start < ln {
            let e = find_nonword_from(line, start);
            proof {
                lemma_find_from(line@, start as int, nonword_pred());
            }
            let q1 = find_quote_from(line, e);
            if q1 == ln {
                proof {
                    assert(build_entries(lv.take(i + 1)) == Err::<Seq<(Seq<char>, Seq<char>)>,
                        int>(i as int));
                    lemma_build_entries_err(lv, i + 1);
                }
                return Err(i);
            }
            let q2 = find_quote_from(line, q1 + 1);
            if q2 == ln {
                proof {
                    assert(build_entries(lv.take(i + 1)) == Err::<Seq<(Seq<char>, Seq<char>)>,
                        int>(i as int));
                    lemma_build_entries_err(lv, i + 1);
                }
                return Err(i);
            }
            let token = subvec(line, start, e);
            let template = subvec(line, q1, q2 + 1);
            table.insert(token, template);
        }
        i += 1;
    }
    proof {
        assert(lines_view(lines@).take(n as int) =~= lines_view(lines@));
    }
    Ok(table)
}

/// The file stem of a path: what follows the last separator, with the
/// extension after the last dot removed (a dot in first position starts
/// no extension).
pub open spec fn stem_spec(s: Seq<char>) -> Seq<char> {
    let seg = s.skip(find_last(s, slash_pred()) + 1);
    let d = find_last(seg, dot_pred());
    if d <= 0 {
        seg
    } else {
        seg.take(d)
    }
}

/// Extract the file stem of a path.
pub fn stem_of(path: &Vec<char>) -> (r: Vec<char>)
    ensures
        r@ == stem_spec(path@),
{
    let n = path.len();
    let mut a: usize = n;
    while a > 0 && path[a - 1] != '/'
        invariant
            0 <= a <= n,
            n == path@.len(),
            forall|j: int| a <= j < n ==> path@[j] != '/',
        decreases a,
    {
        a -= 1;
    }
    proof {
        lemma_find_last(path@, slash_pred());
        let fl = find_last(path@, slash_pred());
        if a > 0 {
            assert(slash_pred()(path@[a - 1]));
            assert(fl >= a - 1) by {
                if fl < a - 1 {
                    assert(!slash_pred()(path@[a - 1]));
                }
            }
            assert(fl <= a - 1) by {
                if fl > a - 1 {
                    assert(path@[fl] != '/');
                    assert(!slash_pred()(path@[fl]));
                }
            }
        } else {
            assert(fl == -1) by {
                if fl >= 0 {
                    assert(path@[fl] != '/');
                    assert(!slash_pred()(path@[fl]));
                }
            }
        }
    }
    let seg = subvec(path, a, n);
    proof {
        assert(seg@ =~= path@.skip(find_last(path@, slash_pred()) + 1));
    }
    let m = seg.len();
    let mut b: usize = m;
    while b > 0 && seg[b - 1] != '.'
        invariant
            0 <= b <= m,
            m == seg@.len(),
            forall|j: int| b <= j < m ==> seg@[j] != '.',
        decreases b,
    {
        b -= 1;
    }
    proof {
        lemma_find_last(seg@, dot_pred());
        let d = find_last(seg@, dot_pred());
        if b > 0 {
            assert(dot_pred()(seg@[b - 1]));
            assert(d >= b - 1) by {
                if d < b - 1 {
                    assert(!dot_pred()(seg@[b - 1]));
                }
            }
            assert(d <= b - 1) by {
                if d > b - 1 {
                    assert(seg@[d] != '.');
                    assert(!dot_pred()(seg@[d]));
                }
            }
        } else {
            assert(d == -1) by {
                if d >= 0 {
                    assert(seg@[d] != '.');
                    assert(!dot_pred()(seg@[d]));
                }
            }
        }
    }
    if b <= 1 {
        seg
    } else {
        let r = subvec(&seg, 0, b - 1);
        proof {
            assert(r@ =~= seg@.take(b - 1));
        }
        r
    }
}

/// The views of a table list.
pub open spec fn table_views(ts: Seq<(FCP, CodeTable)>) -> Seq<
    (FCP, Seq<(Seq<char>, Seq<char>)>),
> {
    ts.map_values(|t: (FCP, CodeTable)| (t.0, t.1.spec_entries()))
}

/// The entries held for subsystem `f` in a table list where the latest
/// table wins.
pub open spec fn tables_get(ts: Seq<(FCP, Seq<(Seq<char>, Seq<char>)>)>, f: FCP) -> Option<
    Seq<(Seq<char>, Seq<char>)>,
>
    decreases ts.len(),
{
    if ts.len() == 0 {
        None
    } else if ts.last().0 == f {
        Some(ts.last().1)
    } else {
        tables_get(ts.drop_last(), f)
    }
}

proof fn lemma_tables_get_none_iff(ts: Seq<(FCP, Seq<(Seq<char>, Seq<char>)>)>, f: FCP)
    ensures
        tables_get(ts, f) is None <==> forall|i: int| 0 <= i < ts.len() ==> ts[i].0 != f,
    decreases ts.len(),
{
    if ts.len() > 0 && ts.last().0 != f {
        lemma_tables_get_none_iff(ts.drop_last(), f);
        assert(forall|i: int| 0 <= i < ts.len() - 1 ==> ts[i] == ts.drop_last()[i]);
    }
}

proof fn lemma_tables_get_update(
    ts: Seq<(FCP, Seq<(Seq<char>, Seq<char>)>)>,
    i: int,
    x: (FCP, Seq<(Seq<char>, Seq<char>)>),
)
    requires
        0 <= i < ts.len(),
        ts[i].0 == x.0,
        forall|j: int| i < j < ts.len() ==> ts[j].0 != x.0,
    ensures
        tables_get(ts.update(i, x), x.0) == Some(x.1),
        forall|g: FCP| g != x.0 ==> tables_get(ts.update(i, x), g) == tables_get(ts, g),
    decreases ts.len(),
{
    let u = ts.update(i, x);
    if i == ts.len() - 1 {
        assert(u.last() == x);
        assert(u.drop_last() =~= ts.drop_last());
        assert forall|g: FCP| g != x.0 implies tables_get(u, g) == tables_get(ts, g) by {
            assert(ts.last().0 == x.0);
        }
    } else {
        assert(u.last() == ts.last());
        assert(u.drop_last() =~= ts.drop_last().update(i, x));
        lemma_tables_get_update(ts.drop_last(), i, x);
        assert(ts.last().0 != x.0);
        assert(tables_get(u, x.0) == Some(x.1));
        assert forall|g: FCP| g != x.0 implies tables_get(u, g) == tables_get(ts, g) by {
            if u.last().0 != g {
                assert(tables_get(u, g) == tables_get(u.drop_last(), g));
                assert(tables_get(ts, g) == tables_get(ts.drop_last(), g));
            }
        }
    }
}

/// The code tables of a run, one per subsystem: keys unique, a repeated
/// load replacing a subsystem's table in place.
pub struct CodeTables {
    tables: Vec<(FCP, CodeTable)>,
}

impl CodeTables {
    /// The tables in insertion order.
    pub closed spec fn spec_tables(&self) -> Seq<(FCP, Seq<(Seq<char>, Seq<char>)>)> {
        table_views(self.tables@)
    }

    /// The entries of the table held for subsystem `f`.
    pub open spec fn spec_get(&self, f: FCP) -> Option<Seq<(Seq<char>, Seq<char>)>> {
        tables_get(self.spec_tables(), f)
    }

    /// The subsystems that own a table, in insertion order.
    pub open spec fn spec_fcps(&self) -> Seq<FCP> {
        self.spec_tables().map_values(|t: (FCP, Seq<(Seq<char>, Seq<char>)>)| t.0)
    }

    /// Each subsystem owns at most one table.
    pub open spec fn wf(&self) -> bool {
        forall|i: int, j: int|
            0 <= i < j < self.spec_tables().len() ==> self.spec_tables()[i].0
                != self.spec_tables()[j].0
    }

    /// No tables yet.
    pub fn new() -> (r: Self)
        ensures
            r.wf(),
            r.spec_tables() == Seq::<(FCP, Seq<(Seq<char>, Seq<char>)>)>::empty(),
    {
        let r = CodeTables { tables: Vec::new() };
        proof {
            assert(r.spec_tables() =~= Seq::<(FCP, Seq<(Seq<char>, Seq<char>)>)>::empty());
        }
        r
    }

    /// The number of tables.
    pub fn len(&self) -> (r: usize)
        ensures
            r == self.spec_tables().len(),
    {
        self.tables.len()
    }

    /// The subsystem of the table at a position.
    pub fn fcp_at(&self, i: usize) -> (r: FCP)
        requires
            i < self.spec_tables().len(),
        ensures
            r == self.spec_fcps()[i as int],
    {
        self.tables[i].0
    }

    /// Bind a subsystem to a table, replacing its earlier table in
    /// place if it had one.
    pub fn insert_table(&mut self, f: FCP, t: CodeTable)
        requires
            old(self).wf(),
        ensures
            final(self).wf(),
            final(self).spec_get(f) == Some(t.spec_entries()),
            forall|g: FCP| g != f ==> final(self).spec_get(g) == old(self).spec_get(g),
            old(self).spec_get(f) is Some ==> final(self).spec_fcps() == old(self).spec_fcps(),
            old(self).spec_get(f) is None ==> final(self).spec_fcps() == old(self).spec_fcps().push(
                f,
            ),
    {
        let ghost oldts = self.spec_tables();
        let n = self.tables.len();
        let mut i: usize = 0;
        while i < n
            invariant
                0 <= i <= n,
                n == self.tables@.len(),
                *self == *old(self),
                self.wf(),
                oldts == self.spec_tables(),
                forall|j: int| 0 <= j < i ==> self.spec_tables()[j].0 != f,
            decreases n - i,
        {
            if self.tables[i].0 == f {
                let ghost x = (f, t.spec_entries());
                proof {
                    assert(oldts[i as int].0 == f);
                    assert forall|j: int| i < j < oldts.len() implies oldts[j].0 != f by {
                        if oldts[j].0 == f {
                            assert(oldts[i as int].0 == oldts[j].0);
                        }
                    }
                    lemma_tables_get_update(oldts, i as int, x);
                }
                self.tables.remove(i);
                self.tables.insert(i, (f, t));
                proof {
                    assert(self.spec_tables() =~= oldts.update(i as int, x));
                    assert forall|a: int|
                        0 <= a < self.spec_tables().len() implies #[trigger] self.spec_tables()[a].0
                        == oldts[a].0 by {
                        if a == i {
                            assert(self.spec_tables()[a].0 == f);
                        }
                    }
                    assert(self.spec_fcps() =~= old(self).spec_fcps());
                    lemma_tables_get_none_iff(oldts, f);
                }
                return ;
            }
            i += 1;
        }
        proof {
            lemma_tables_get_none_iff(oldts, f);
        }
        self.tables.push((f, t));
        proof {
            assert(self.spec_tables() =~= oldts.push((f, t.spec_entries())));
            assert(self.spec_fcps() =~= old(self).spec_fcps().push(f));
            assert forall|g: FCP| g != f implies final(self).spec_get(g) == old(self).spec_get(
                g,
            ) by {
                assert(final(self).spec_tables().drop_last() =~= oldts);
            }
        }
    }

    /// Look a token up in the table of subsystem `f`.
    pub fn lookup(&self, f: FCP, token: &Vec<char>) -> (r: Option<Vec<char>>)
        ensures
            match self.spec_get(f) {
                None => r is None,
                Some(es) => match r {
                    Some(m) => assoc_get(es, token@) == Some(m@),
                    None => assoc_get(es, token@) is None,
                },
            },
    {
        let n = self.tables.len();
        let mut i: usize = n;
        proof {
            assert(self.spec_tables().take(n as int) =~= self.spec_tables());
        }
        while i > 0
            invariant
                0 <= i <= n,
                n == self.tables@.len(),
                tables_get(self.spec_tables(), f) == tables_get(
                    self.spec_tables().take(i as int),
                    f,
                ),
            decreases i,
        {
            i -= 1;
            let ghost pre = self.spec_tables().take(i + 1);
            proof {
                assert(pre.last() == self.spec_tables()[i as int]);
                assert(pre.drop_last() =~= self.spec_tables().take(i as int));
            }
            if self.tables[i].0 == f {
                return self.tables[i].1.get(token);
            }
        }
        proof {
            assert(self.spec_tables().take(0) =~= Seq::<
                (FCP, Seq<(Seq<char>, Seq<char>)>),
            >::empty());
        }
        None
    }
}

/// One code file handed to the builder: its path and its lines.
pub struct MdbFile {
    pub path: Vec<char>,
    pub lines: Vec<Vec<char>>,
}

/// The views of a list of code files.
pub open spec fn file_views(fs: Seq<MdbFile>) -> Seq<(Seq<char>, Seq<Seq<char>>)> {
    fs.map_values(|f: MdbFile| (f.path@, lines_view(f.lines@)))
}

/// A code file loads cleanly: its stem names a subsystem and every line
/// parses.
pub open spec fn file_ok(fv: (Seq<char>, Seq<Seq<char>>)) -> bool {
    fcp_of(stem_spec(fv.0)) is Some && build_entries(fv.1) is Ok
}

/// The entries that loading a list of code files leaves for subsystem
/// `f`: those of the last file whose stem names `f`.
pub open spec fn loggers_get(fs: Seq<(Seq<char>, Seq<Seq<char>>)>, f: FCP) -> Option<
    Seq<(Seq<char>, Seq<char>)>,
>
    decreases fs.len(),
{
    if fs.len() == 0 {
        None
    } else if fcp_of(stem_spec(fs.last().0)) == Some(f) {
        Some(build_entries(fs.last().1)->Ok_0)
    } else {
        loggers_get(fs.drop_last(), f)
    }
}

/// The order in which subsystems first appear in a list of code files.
pub open spec fn fcp_order(fs: Seq<(Seq<char>, Seq<Seq<char>>)>) -> Seq<FCP>
    decreases fs.len(),
{
    if fs.len() == 0 {
        Seq::empty()
    } else {
        let rest = fcp_order(fs.drop_last());
        match fcp_of(stem_spec(fs.last().0)) {
            None => rest,
            Some(f) => if loggers_get(fs.drop_last(), f) is Some {
                rest
            } else {
                rest.push(f)
            },
        }
    }
}

/// A configuration error while loading the code files: fatal, reported
/// before any target file is edited.
#[derive(Eq, PartialEq, Structural, Copy, Clone, Debug)]
pub enum MdbError {
    /// The stem of the file at this position names no subsystem.
    UnknownSubsystem(usize),
    /// The file at the first position has a malformed line, with a
    /// token but no quoted template, at the second position.
    MalformedLine(usize, usize),
}

/// Load every code file, in order, into one table per subsystem.
pub fn get_loggers(files: &Vec<MdbFile>) -> (r: Result<CodeTables, MdbError>)
    ensures
        match r {
            Ok(ts) => {
                &&& ts.wf()
                &&& forall|j: int| 0 <= j < files@.len() ==> file_ok(#[trigger] file_views(
                    files@,
                )[j])
                &&& forall|f: FCP| #[trigger] ts.spec_get(f) == loggers_get(file_views(files@), f)
                &&& ts.spec_fcps() == fcp_order(file_views(files@))
            },
            Err(MdbError::UnknownSubsystem(i)) => {
                &&& i < files@.len()
                &&& fcp_of(stem_spec(files@[i as int].path@)) is None
                &&& forall|j: int| 0 <= j < i ==> file_ok(#[trigger] file_views(files@)[j])
            },
            Err(MdbError::MalformedLine(i, k)) => {
                &&& i < files@.len()
                &&& fcp_of(stem_spec(files@[i as int].path@)) is Some
                &&& build_entries(lines_view(files@[i as int].lines@)) == Err::<
                    Seq<(Seq<char>, Seq<char>)>,
                    int,
                >(k as int)
                &&& forall|j: int| 0 <= j < i ==> file_ok(#[trigger] file_views(files@)[j])
            },
        },
{
    let n = files.len();
    let mut ts = CodeTables::new();
    let mut i: usize = 0;
    let ghost fv = file_views(files@);
    proof {
        assert(fv.take(0) =~= Seq::<(Seq<char>, Seq<Seq<char>>)>::empty());
    }
    while i < n
        invariant
            0 <= i <= n,
            n == files@.len(),
            fv == file_views(files@),
            ts.wf(),
            forall|j: int| 0 <= j < i ==> file_ok(#[trigger] fv[j]),
            forall|f: FCP| #[trigger] ts.spec_get(f) == loggers_get(fv.take(i as int), f),
            ts.spec_fcps() == fcp_order(fv.take(i as int)),
        decreases n - i,
    {
        proof {
            assert(fv.take(i + 1).drop_last() =~= fv.take(i as int));
            assert(fv.take(i + 1).last() == fv[i as int]);
        }
        let stem = stem_of(&files[i].path);
        let fcp = match FCP::from_chars(&stem) {
            None => {
                return Err(MdbError::UnknownSubsystem(i));
            },
            Some(fcp) => fcp,
        };
        let table = match get_mdb_codes(&files[i].lines) {
            Err(k) => {
                return Err(MdbError::MalformedLine(i, k));
            },
            Ok(table) => table,
        };
        let ghost oldget = ts.spec_get(fcp);
        ts.insert_table(fcp, table);
        proof {
            assert forall|f: FCP| #[trigger] ts.spec_get(f) == loggers_get(
                fv.take(i + 1),
                f,
            ) by {
                if f != fcp {
                    assert(fcp_of(stem_spec(fv[i as int].0)) != Some(f));
                }
            }
        }
        i += 1;
    }
    proof {
        assert(fv.take(n as int) =~= fv);
    }
    Ok(ts)
}


/// Parsing round-trips one table entry: a line made of a word-shaped
/// token, a space, and a double-quoted template yields exactly the
/// binding from that token to that template, quotes included.
pub proof fn lemma_code_table_round_trip(token: Seq<char>, msg: Seq<char>)
    requires
        token.len() > 0,
        forall|i: int| 0 <= i < token.len() ==> is_word_char(#[trigger] token[i]),
        forall|i: int| 0 <= i < msg.len() ==> #[trigger] msg[i] != '"',
    ensures
        build_entries(seq![token + " \""@ + msg + "\""@]) == Ok::<_, int>(
            seq![(token, "\""@ + msg + "\""@)],
        ),
        assoc_get(seq![(token, "\""@ + msg + "\""@)], token) == Some("\""@ + msg + "\""@),
{
    reveal_strlit(" \"");
    reveal_strlit("\"");
    assert(" \""@ =~= seq![' ', '"']);
    assert("\""@ =~= seq!['"']);
    let line = token + " \""@ + msg + "\""@;
    let tl = token.len() as int;
    let ml = msg.len() as int;
    assert(line.len() == tl + ml + 3);
    assert(forall|i: int| 0 <= i < tl ==> line[i] == token[i]);
    assert(line[tl] == ' ');
    assert(line[tl + 1] == '"');
    assert(forall|i: int| 0 <= i < ml ==> line[tl + 2 + i] == msg[i]);
    assert(line[tl + 2 + ml] == '"');

    // the token starts at the first character
    assert(token_start(line) == 0) by {
        assert(is_word_char(line[0]));
    }
    // and runs up to the space
    assert(token_end(line) == tl) by {
        lemma_find_from(line, 0, nonword_pred());
        let f = find_from(line, 0, nonword_pred());
        assert(!is_word_char(' '));
        assert(f <= tl) by {
            if f > tl {
                assert(!nonword_pred()(line[tl]));
            }
        }
        assert(f >= tl) by {
            if f < tl {
                assert(nonword_pred()(line[f]));
                assert(is_word_char(line[f]));
            }
        }
    }
    assert(line.subrange(0, tl) =~= token);
    assert(mdb_token_spec(line) == Some(token));

    // the template's quotes stand right after the space and at the end
    assert(find_from(line, tl, quote_pred()) == tl + 1) by {
        lemma_find_from(line, tl, quote_pred());
        let f = find_from(line, tl, quote_pred());
        assert(f <= tl + 1) by {
            if f > tl + 1 {
                assert(!quote_pred()(line[tl + 1]));
            }
        }
        assert(f >= tl + 1) by {
            if f < tl + 1 {
                assert(quote_pred()(line[f]));
                assert(line[tl] == ' ');
            }
        }
    }
    assert(find_from(line, tl + 2, quote_pred()) == tl + 2 + ml) by {
        lemma_find_from(line, tl + 2, quote_pred());
        let f = find_from(line, tl + 2, quote_pred());
        assert(f <= tl + 2 + ml) by {
            if f > tl + 2 + ml {
                assert(!quote_pred()(line[tl + 2 + ml]));
            }
        }
        assert(f >= tl + 2 + ml) by {
            if f < tl + 2 + ml {
                assert(quote_pred()(line[f]));
                assert(line[f] == msg[f - tl - 2]);
            }
        }
    }
    let quoted = "\""@ + msg + "\""@;
    assert(line.subrange(tl + 1, tl + 3 + ml) =~= quoted);
    assert(quoted_after(line, token_end(line)) == Some(quoted));

    assert(seq![line].drop_last() =~= Seq::<Seq<char>>::empty());
    assert(seq![line].last() == line);
    assert(build_entries(Seq::<Seq<char>>::empty()) == Ok::<_, int>(
        Seq::<(Seq<char>, Seq<char>)>::empty(),
    ));
    assert(build_entries(seq![line]) == Ok::<_, int>(
        Seq::<(Seq<char>, Seq<char>)>::empty().push((token, quoted)),
    ));
    assert(Seq::<(Seq<char>, Seq<char>)>::empty().push((token, quoted)) =~= seq![
        (token, quoted),
    ]);
}

} // verus!
