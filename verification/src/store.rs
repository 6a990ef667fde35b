//! The fingerprint store: a mapping from absolute file path to content
//! digest, serialized as line-delimited records `path<TAB>digest\n`.
//!
//! The tab delimiter never occurs in a hexadecimal digest and is assumed
//! not to occur in a path.  Loading parses each non-empty line, splitting
//! it at its only delimiter; later lines for the same path win.  A line
//! with no delimiter or more than one is a corrupt record.

use vstd::prelude::*;

use crate::text::{count_char, find_char, lemma_count_char_concat, lemma_count_one_split,
    lemma_find_char, lemma_find_char_is, to_chars};

verus! {

/// The record delimiter between path and digest.
pub open spec fn delim() -> char {
    '\t'
}

/// The failures of the engine, each surfaced with enough context to
/// identify the failing step.
#[derive(Debug, Clone)]
pub enum Error {
    /// A filesystem open, read or write failure, with a description.
    IoError(String),
    /// A malformed enumeration pattern or traversal failure.
    GlobError(String),
    /// The store was asked for before any index run created it.
    StoreNotFound,
    /// A store line that does not parse into path and digest; carries the
    /// offending line.
    CorruptRecord(String),
}

/// The entries of a mapping, as character sequences.
pub type Entries = Seq<(Seq<char>, Seq<char>)>;

/// The digest recorded for `k`, later records winning.
pub open spec fn lookup(s: Entries, k: Seq<char>) -> Option<Seq<char>>
    decreases s.len(),
{
    if s.len() == 0 {
        None
    } else if s.last().0 == k {
        Some(s.last().1)
    } else {
        lookup(s.drop_last(), k)
    }
}

/// The entries with every record for `k` removed.
pub open spec fn remove_key(s: Entries, k: Seq<char>) -> Entries
    decreases s.len(),
{
    if s.len() == 0 {
        Seq::empty()
    } else if s.last().0 == k {
        remove_key(s.drop_last(), k)
    } else {
        remove_key(s.drop_last(), k).push(s.last())
    }
}

/// Record `v` under `k`: any previous record for `k` goes, the new one is
/// appended.
pub open spec fn upsert(s: Entries, k: Seq<char>, v: Seq<char>) -> Entries {
    remove_key(s, k).push((k, v))
}

/// No two entries share a path.
pub open spec fn keys_distinct(s: Entries) -> bool {
    forall|i: int, j: int| 0 <= i < j < s.len() ==> (#[trigger] s[i]).0 != (#[trigger] s[j]).0
}

/// `lookup` misses exactly when no entry carries the key.
pub proof fn lemma_lookup_none_iff(s: Entries, k: Seq<char>)
    ensures
        lookup(s, k) is None <==> (forall|i: int| 0 <= i < s.len() ==> (#[trigger] s[i]).0 != k),
    decreases s.len(),
{
    if s.len() > 0 {
        lemma_lookup_none_iff(s.drop_last(), k);
        assert forall|i: int| 0 <= i < s.len() - 1 implies s.drop_last()[i] == s[i] by {}
    }
}

/// What removing a key does: lookups for other keys are kept, the key
/// itself is gone, distinctness survives, and removing an absent key does
/// nothing.
pub proof fn lemma_remove_key(s: Entries, k: Seq<char>)
    ensures
        lookup(remove_key(s, k), k) is None,
        forall|k2: Seq<char>| k2 != k ==> lookup(remove_key(s, k), k2) == lookup(s, k2),
        keys_distinct(s) ==> keys_distinct(remove_key(s, k)),
        lookup(s, k) is None ==> remove_key(s, k) =~= s,
        forall|j: int| 0 <= j < remove_key(s, k).len() ==> s.contains(#[trigger] remove_key(s, k)[j]),
    decreases s.len(),
{
    if s.len() > 0 {
        lemma_remove_key(s.drop_last(), k);
        assert(keys_distinct(s) ==> keys_distinct(s.drop_last()));
        if s.last().0 == k {
            assert forall|k2: Seq<char>| k2 != k
                implies lookup(remove_key(s, k), k2) == lookup(s, k2) by {
                assert(lookup(s, k2) == lookup(s.drop_last(), k2));
            }
        } else {
            let r = remove_key(s.drop_last(), k).push(s.last());
            assert(r.drop_last() =~= remove_key(s.drop_last(), k));
            assert forall|k2: Seq<char>| k2 != k
                implies lookup(remove_key(s, k), k2) == lookup(s, k2) by {
                if s.last().0 == k2 {
                    assert(lookup(r, k2) == Some(s.last().1));
                } else {
                    assert(lookup(r, k2) == lookup(r.drop_last(), k2));
                    assert(lookup(s, k2) == lookup(s.drop_last(), k2));
                }
            }
            assert forall|j: int| 0 <= j < r.len() implies s.contains(#[trigger] r[j]) by {
                if j < r.len() - 1 {
                    assert(s.drop_last().contains(r[j]));
                    let w = choose|w: int| 0 <= w < s.drop_last().len() && s.drop_last()[w] == r[j];
                    assert(s[w] == r[j]);
                } else {
                    assert(s[s.len() - 1] == r[j]);
                }
            }
            if keys_distinct(s) {
                assert forall|i: int, j: int| 0 <= i < j < r.len()
                    implies (#[trigger] r[i]).0 != (#[trigger] r[j]).0 by {
                    if j == r.len() - 1 {
                        assert(s.drop_last().contains(r[i]));
                        let w = choose|w: int|
                            0 <= w < s.drop_last().len() && s.drop_last()[w] == r[i];
                        assert(s[w] == r[i]);
                        assert(s[w].0 != s.last().0);
                    }
                }
            }
        }
        if lookup(s, k) is None {
            assert(s.last().0 != k);
            assert(remove_key(s.drop_last(), k).push(s.last()) =~= s);
        }
    }
}

/// What recording under a key does to lookups, and that distinctness
/// survives; recording a fresh key simply appends.
pub proof fn lemma_upsert(s: Entries, k: Seq<char>, v: Seq<char>)
    ensures
        lookup(upsert(s, k, v), k) == Some(v),
        forall|k2: Seq<char>| k2 != k ==> lookup(upsert(s, k, v), k2) == lookup(s, k2),
        keys_distinct(s) ==> keys_distinct(upsert(s, k, v)),
        lookup(s, k) is None ==> upsert(s, k, v) =~= s.push((k, v)),
{
    lemma_remove_key(s, k);
    let u = upsert(s, k, v);
    assert(u.drop_last() =~= remove_key(s, k));
    if keys_distinct(s) {
        lemma_lookup_none_iff(remove_key(s, k), k);
        assert forall|i: int, j: int| 0 <= i < j < u.len()
            implies (#[trigger] u[i]).0 != (#[trigger] u[j]).0 by {
            if j == u.len() - 1 {
                assert(remove_key(s, k)[i] == u[i]);
            }
        }
    }
}

/// The in-memory image of the store: path/digest records with unique paths.
pub struct Mapping {
    entries: Vec<(String, String)>,
}

impl View for Mapping {
    type V = Entries;

    closed spec fn view(&self) -> Entries {
        Seq::new(self.entries@.len(), |i: int| (self.entries@[i].0@, self.entries@[i].1@))
    }
}

impl Mapping {
    /// A mapping is well formed when no two records share a path.
    pub open spec fn wf(&self) -> bool {
        keys_distinct(self@)
    }

    /// The empty mapping.
    pub fn new() -> (r: Mapping)
        ensures
            r@ =~= Seq::<(Seq<char>, Seq<char>)>::empty(),
            r.wf(),
    {
        Mapping { entries: Vec::new() }
    }

    /// How many records the mapping holds.
    pub fn len(&self) -> (r: usize)
        ensures
            r == self@.len(),
    {
        self.entries.len()
    }

    /// The record at an index, as borrowed path and digest.
    pub fn entry_at(&self, i: usize) -> (r: (&String, &String))
        requires
            i < self@.len(),
        ensures
            r.0@ == self@[i as int].0,
            r.1@ == self@[i as int].1,
    {
        (&self.entries[i].0, &self.entries[i].1)
    }

    /// The digest recorded for a path, if any.
    pub fn get(&self, k: &String) -> (r: Option<&String>)
        ensures
            match r {
                Some(v) => lookup(self@, k@) == Some(v@),
                None => lookup(self@, k@) is None,
            },
    {
        let n = self.entries.len();
        proof {
            assert(self@.take(n as int) =~= self@);
        }
        let mut i: usize = n;
        while i > 0
            invariant
                i <= n,
                n == self@.len(),
                lookup(self@, k@) == lookup(self@.take(i as int), k@),
            decreases i,
        {
            proof {
                assert(self@.take(i as int).drop_last() =~= self@.take(i - 1));
            }
            if self.entries[i - 1].0.eq(k) {
                return Some(&self.entries[i - 1].1);
            }
            i = i - 1;
        }
        None
    }

    /// Record a digest under a path, replacing any earlier record for it.
    pub fn set(&mut self, k: String, v: String)
        ensures
            final(self)@ =~= upsert(old(self)@, k@, v@),
            old(self).wf() ==> final(self).wf(),
    {
        let n = self.entries.len();
        let mut out: Vec<(String, String)> = Vec::new();
        let mut i: usize = 0;
        while i < n
            invariant
                i <= n,
                n == self@.len(),
                Seq::new(out@.len(), |j: int| (out@[j].0@, out@[j].1@))
                    =~= remove_key(self@.take(i as int), k@),
            decreases n - i,
        {
            proof {
                assert(self@.take(i + 1).drop_last() =~= self@.take(i as int));
            }
            if !self.entries[i].0.eq(&k) {
                out.push((self.entries[i].0.clone(), self.entries[i].1.clone()));
            }
            proof {
                assert(Seq::new(out@.len(), |j: int| (out@[j].0@, out@[j].1@))
                    =~= remove_key(self@.take(i + 1), k@));
            }
            i = i + 1;
        }
        proof {
            assert(self@.take(n as int) =~= self@);
            lemma_upsert(old(self)@, k@, v@);
        }
        out.push((k, v));
        self.entries = out;
        proof {
            assert(self@ =~= upsert(old(self)@, k@, v@));
        }
    }
}

/// A sequence is free of `c` exactly when the count is zero.
pub proof fn lemma_count_char_zero(s: Seq<char>, c: char)
    ensures
        count_char(s, c) == 0 <==> !s.contains(c),
    decreases s.len(),
{
    if s.len() > 0 {
        lemma_count_char_zero(s.drop_last(), c);
        assert(s.contains(c) <==> s.last() == c || s.drop_last().contains(c)) by {
            if s.contains(c) {
                let i = choose|i: int| 0 <= i < s.len() && s[i] == c;
                if i < s.len() - 1 {
                    assert(s.drop_last()[i] == c);
                }
            } else {
                assert(s[s.len() - 1] != c);
                assert(forall|i: int| 0 <= i < s.len() - 1 ==> s.drop_last()[i] == s[i]);
            }
        }
    }
}

/// The segments of `s` between occurrences of `c`; always at least one
/// segment, and one more than there are occurrences.
pub open spec fn split_on(s: Seq<char>, c: char) -> Seq<Seq<char>>
    decreases s.len(),
    via split_on_decreases
{
    if find_char(s, c) == s.len() {
        seq![s]
    } else {
        seq![s.take(find_char(s, c))] + split_on(s.skip(find_char(s, c) + 1), c)
    }
}

#[via_fn]
proof fn split_on_decreases(s: Seq<char>, c: char) {
    lemma_find_char(s, c);
}

/// A store line parses when the delimiter occurs in it exactly once.
pub open spec fn line_ok(l: Seq<char>) -> bool {
    count_char(l, delim()) == 1
}

/// The path field of a line: everything before the delimiter.
pub open spec fn line_path(l: Seq<char>) -> Seq<char> {
    l.take(find_char(l, delim()))
}

/// The digest field of a line: everything after the delimiter.
pub open spec fn line_digest(l: Seq<char>) -> Seq<char> {
    l.skip(find_char(l, delim()) + 1)
}

/// Parse lines into records on top of the records read so far: empty lines
/// are skipped, later records for a path win, and the first line that does
/// not split into exactly two fields is the error.
pub open spec fn parse_lines(ls: Seq<Seq<char>>, acc: Entries) -> Result<Entries, Seq<char>>
    decreases ls.len(),
{
    if ls.len() == 0 {
        Ok(acc)
    } else if ls[0].len() == 0 {
        parse_lines(ls.drop_first(), acc)
    } else if !line_ok(ls[0]) {
        Err(ls[0])
    } else {
        parse_lines(ls.drop_first(), upsert(acc, line_path(ls[0]), line_digest(ls[0])))
    }
}

/// What parsing a whole store file yields: the records of its lines, or the
/// first corrupt line.
pub open spec fn parse_store_spec(content: Seq<char>) -> Result<Entries, Seq<char>> {
    parse_lines(split_on(content, '\n'), Seq::empty())
}

/// Parse the text of a store file into the mapping it describes.
pub fn parse_store(content: &str) -> (r: Result<Mapping, Error>)
    ensures
        match r {
            Ok(m) => m.wf() && parse_store_spec(content@) == Ok::<Entries, Seq<char>>(m@),
            Err(e) => e is CorruptRecord
                && parse_store_spec(content@) == Err::<Entries, Seq<char>>(e->CorruptRecord_0@),
        },
{
    let cs = to_chars(content);
    let n = cs.len();
    let mut m = Mapping::new();
    let mut p: usize = 0;
    proof {
        assert(cs@.skip(0) =~= content@);
    }
    while p < n
        invariant
            p <= n,
            n == content@.len(),
            cs@ == content@,
            m.wf(),
            parse_lines(split_on(content@.skip(p as int), '\n'), m@)
                == parse_store_spec(content@),
        decreases n - p,
    {
        let ghost tail = content@.skip(p as int);
        let ghost m0 = m@;
        let mut j: usize = p;
        let mut cnt: usize = 0;
        let mut dpos: usize = p;
        let mut seen = false;
        while j < n && cs[j] != '\n'
            invariant
                p <= j <= n,
                n == cs.len(),
                cs@ == content@,
                forall|k: int| p <= k < j ==> content@[k] != '\n',
                cnt <= j - p,
                cnt == count_char(content@.subrange(p as int, j as int), '\t'),
                seen <==> cnt > 0,
                seen ==> p <= dpos < j && content@[dpos as int] == '\t'
                    && forall|k: int| p <= k < dpos ==> content@[k] != '\t',
                !seen ==> forall|k: int| p <= k < j ==> content@[k] != '\t',
            decreases n - j,
        {
            proof {
                assert(content@.subrange(p as int, j + 1).drop_last()
                    =~= content@.subrange(p as int, j as int));
            }
            if cs[j] == '\t' {
                cnt = cnt + 1;
                if !seen {
                    dpos = j;
                    seen = true;
                }
            }
            j = j + 1;
        }
        let ghost line = content@.subrange(p as int, j as int);
        proof {
            assert forall|k: int| 0 <= k < line.len() implies line[k] == content@[p + k] by {}
            lemma_find_char_is(tail, '\n', j - p);
            assert(tail.take(j - p) =~= line);
        }
        let ghost ls = split_on(tail, '\n');
        let ghost rest = split_on(content@.skip(j + 1), '\n');
        proof {
            if j < n {
                assert(tail.skip(j - p + 1) =~= content@.skip(j + 1));
                assert(ls =~= seq![line] + rest);
                assert(ls[0] == line);
                assert(ls.drop_first() =~= rest);
            } else {
                assert(tail =~= line);
                assert(ls =~= seq![line]);
                assert(ls[0] == line);
                assert(ls.drop_first() =~= Seq::<Seq<char>>::empty());
            }
        }
        if j > p {
            if cnt != 1 {
                let bad = String::from_str(content.substring_char(p, j));
                proof {
                    assert(!line_ok(line));
                    assert(parse_lines(ls, m0) == Err::<Entries, Seq<char>>(line));
                }
                return Err(Error::CorruptRecord(bad));
            }
            proof {
                lemma_count_one_split(line, '\t', dpos - p);
                lemma_find_char_is(line, '\t', dpos - p);
                assert(line.take(dpos - p) =~= content@.subrange(p as int, dpos as int));
                assert(line.skip(dpos - p + 1) =~= content@.subrange(dpos + 1, j as int));
            }
            let path = String::from_str(content.substring_char(p, dpos));
            let hash = String::from_str(content.substring_char(dpos + 1, j));
            proof {
                assert(path@ == line_path(line));
                assert(hash@ == line_digest(line));
            }
            m.set(path, hash);
            proof {
                assert(line_ok(line));
                assert(parse_lines(ls, m0) == parse_lines(ls.drop_first(), m@));
            }
        } else {
            proof {
                assert(line.len() == 0);
                assert(parse_lines(ls, m0) == parse_lines(ls.drop_first(), m@));
            }
        }
        if j == n {
            proof {
                assert(parse_lines(Seq::<Seq<char>>::empty(), m@)
                    == Ok::<Entries, Seq<char>>(m@));
                assert(parse_store_spec(content@) == Ok::<Entries, Seq<char>>(m@));
            }
            return Ok(m);
        }
        p = j + 1;
    }
    proof {
        assert(content@.skip(p as int) =~= Seq::<char>::empty());
        let ls = seq![Seq::<char>::empty()];
        assert(split_on(Seq::<char>::empty(), '\n') =~= ls);
        assert(ls.drop_first() =~= Seq::<Seq<char>>::empty());
        assert(ls[0].len() == 0);
        assert(parse_lines(ls, m@) == parse_lines(ls.drop_first(), m@));
        assert(parse_lines(Seq::<Seq<char>>::empty(), m@) == Ok::<Entries, Seq<char>>(m@));
        assert(parse_store_spec(content@) == Ok::<Entries, Seq<char>>(m@));
    }
    Ok(m)
}

/// Load the store from the text of its backing file, or report that no
/// index run has created it yet.
pub fn load_store(content: Option<&str>) -> (r: Result<Mapping, Error>)
    ensures
        match content {
            None => r is Err && r->Err_0 is StoreNotFound,
            Some(c) => match r {
                Ok(m) => m.wf() && parse_store_spec(c@) == Ok::<Entries, Seq<char>>(m@),
                Err(e) => e is CorruptRecord
                    && parse_store_spec(c@) == Err::<Entries, Seq<char>>(e->CorruptRecord_0@),
            },
        },
{
    match content {
        None => Err(Error::StoreNotFound),
        Some(c) => parse_store(c),
    }
}

/// The line a record is stored as: path, delimiter, digest.
pub open spec fn line_of(e: (Seq<char>, Seq<char>)) -> Seq<char> {
    e.0 + seq![delim()] + e.1
}

/// The text of a whole store file: one line per record, each ended by a
/// line break, in record order.
pub open spec fn render_entries(s: Entries) -> Seq<char>
    decreases s.len(),
{
    if s.len() == 0 {
        Seq::empty()
    } else {
        line_of(s[0]) + seq!['\n'] + render_entries(s.drop_first())
    }
}

/// Write the mapping out as store-file text.
pub fn render_store(m: &Mapping) -> (r: String)
    ensures
        r@ == render_entries(m@),
{
    let mut out = String::new();
    let n = m.len();
    let mut i: usize = 0;
    proof {
        reveal_strlit("\t");
        reveal_strlit("\n");
        assert(m@.skip(0) =~= m@);
    }
    while i < n
        invariant
            i <= n,
            n == m@.len(),
            out@ + render_entries(m@.skip(i as int)) =~= render_entries(m@),
            "\t"@ =~= seq![delim()],
            "\n"@ =~= seq!['\n'],
        decreases n - i,
    {
        let (path, hash) = m.entry_at(i);
        let ghost before = out@;
        out.append(path.as_str());
        out.append("\t");
        out.append(hash.as_str());
        out.append("\n");
        proof {
            let tail = m@.skip(i as int);
            assert(tail[0] == m@[i as int]);
            assert(tail.drop_first() =~= m@.skip(i + 1));
            assert(out@ =~= before + line_of(m@[i as int]) + seq!['\n']);
            assert(out@ + render_entries(m@.skip(i + 1)) =~= render_entries(m@));
        }
        i = i + 1;
    }
    proof {
        assert(m@.skip(n as int) =~= Seq::<(Seq<char>, Seq<char>)>::empty());
        assert(out@ =~= out@ + render_entries(m@.skip(n as int)));
    }
    out
}

/// A field that may stand in a store line: free of the delimiter and of
/// line breaks.
pub open spec fn field_clean(f: Seq<char>) -> bool {
    !f.contains(delim()) && !f.contains('\n')
}

/// A record whose path and digest may stand in a store line.
pub open spec fn entry_clean(e: (Seq<char>, Seq<char>)) -> bool {
    field_clean(e.0) && field_clean(e.1)
}

proof fn lemma_parse_render(s: Entries, acc: Entries)
    requires
        keys_distinct(s),
        forall|i: int| 0 <= i < s.len() ==> entry_clean(#[trigger] s[i]),
        forall|i: int| 0 <= i < s.len() ==> lookup(acc, (#[trigger] s[i]).0) is None,
    ensures
        parse_lines(split_on(render_entries(s), '\n'), acc) == Ok::<Entries, Seq<char>>(acc + s),
    decreases s.len(),
{
    if s.len() == 0 {
        assert(render_entries(s) =~= Seq::<char>::empty());
        let ls = seq![Seq::<char>::empty()];
        assert(split_on(Seq::<char>::empty(), '\n') =~= ls);
        assert(ls.drop_first() =~= Seq::<Seq<char>>::empty());
        assert(parse_lines(Seq::<Seq<char>>::empty(), acc) == Ok::<Entries, Seq<char>>(acc));
        assert(ls[0].len() == 0);
        assert(parse_lines(ls, acc) == parse_lines(ls.drop_first(), acc));
        assert(acc + s =~= acc);
        assert(parse_lines(split_on(render_entries(s), '\n'), acc)
            == Ok::<Entries, Seq<char>>(acc + s));
    } else {
        let e = s[0];
        let l0 = line_of(e);
        let r = render_entries(s);
        let rest = render_entries(s.drop_first());
        lemma_count_char_zero(e.0, delim());
        lemma_count_char_zero(e.1, delim());
        assert(r =~= l0 + seq!['\n'] + rest);
        assert forall|k: int| 0 <= k < l0.len() implies r[k] != '\n' by {
            if k < e.0.len() {
                assert(l0[k] == e.0[k]);
                assert(!e.0.contains('\n'));
                assert(e.0[k] != '\n');
            } else if k == e.0.len() {
                assert(l0[k] == delim());
            } else {
                assert(l0[k] == e.1[k - e.0.len() - 1]);
                assert(!e.1.contains('\n'));
                assert(e.1[k - e.0.len() - 1] != '\n');
            }
        }
        assert(r[l0.len() as int] == '\n');
        lemma_find_char_is(r, '\n', l0.len() as int);
        assert(r.take(l0.len() as int) =~= l0);
        assert(r.skip(l0.len() as int + 1) =~= rest);
        assert(split_on(r, '\n') =~= seq![l0] + split_on(rest, '\n'));

        // the line splits into exactly the two stored fields
        lemma_count_char_concat(e.0 + seq![delim()], e.1, delim());
        lemma_count_char_concat(e.0, seq![delim()], delim());
        assert(count_char(seq![delim()], delim()) == 1) by {
            let single = seq![delim()];
            assert(single.len() == 1);
            assert(single.last() == delim());
            assert(single.drop_last() =~= Seq::<char>::empty());
            assert(count_char(single.drop_last(), delim()) == 0);
        }
        assert(line_ok(l0));
        assert forall|k: int| 0 <= k < e.0.len() implies l0[k] != delim() by {
            assert(l0[k] == e.0[k]);
            assert(!e.0.contains(delim()));
        }
        assert(l0[e.0.len() as int] == delim());
        lemma_find_char_is(l0, delim(), e.0.len() as int);
        assert(line_path(l0) =~= e.0);
        assert(line_digest(l0) =~= e.1);

        lemma_upsert(acc, e.0, e.1);
        let acc2 = acc.push(e);
        assert(upsert(acc, e.0, e.1) =~= acc2);
        assert(l0.len() > 0);
        assert((seq![l0] + split_on(rest, '\n')).drop_first() =~= split_on(rest, '\n'));
        assert(parse_lines(split_on(r, '\n'), acc) == parse_lines(split_on(rest, '\n'), acc2));

        assert forall|i: int| 0 <= i < s.drop_first().len()
            implies lookup(acc2, (#[trigger] s.drop_first()[i]).0) is None by {
            assert(s.drop_first()[i] == s[i + 1]);
            assert(s[i + 1].0 != e.0);
            assert(lookup(acc, s[i + 1].0) is None);
            assert(acc2.drop_last() =~= acc);
        }
        assert(keys_distinct(s.drop_first())) by {
            assert forall|i: int, j: int| 0 <= i < j < s.drop_first().len()
                implies (#[trigger] s.drop_first()[i]).0 != (#[trigger] s.drop_first()[j]).0 by {
                assert(s.drop_first()[i] == s[i + 1]);
                assert(s.drop_first()[j] == s[j + 1]);
            }
        }
        assert forall|i: int| 0 <= i < s.drop_first().len()
            implies entry_clean(#[trigger] s.drop_first()[i]) by {
            assert(s.drop_first()[i] == s[i + 1]);
        }
        lemma_parse_render(s.drop_first(), acc2);
        assert(parse_lines(split_on(rest, '\n'), acc2)
            == Ok::<Entries, Seq<char>>(acc2 + s.drop_first()));
        assert(acc2 + s.drop_first() =~= acc + s);
        assert(Ok::<Entries, Seq<char>>(acc2 + s.drop_first())
            == Ok::<Entries, Seq<char>>(acc + s));
        assert(parse_lines(split_on(r, '\n'), acc) == Ok::<Entries, Seq<char>>(acc + s));
    }
}

/// Round-trip store fidelity: the text written for a well-formed mapping
/// whose fields are free of the delimiter and of line breaks parses back to
/// exactly that mapping.
pub proof fn lemma_store_round_trip(s: Entries)
    requires
        keys_distinct(s),
        forall|i: int| 0 <= i < s.len() ==> entry_clean(#[trigger] s[i]),
    ensures
        parse_store_spec(render_entries(s)) == Ok::<Entries, Seq<char>>(s),
{
    lemma_parse_render(s, Seq::empty());
    assert(Seq::<(Seq<char>, Seq<char>)>::empty() + s =~= s);
}

/// Corrupt-record detection: a store text with a non-empty line in which
/// the delimiter does not occur exactly once never loads; parsing stops
/// with a corrupt-record error.
pub proof fn lemma_corrupt_store_rejected(content: Seq<char>, i: int)
    requires
        0 <= i < split_on(content, '\n').len(),
        split_on(content, '\n')[i].len() > 0,
        !line_ok(split_on(content, '\n')[i]),
    ensures
        parse_store_spec(content) is Err,
{
    lemma_parse_lines_err(split_on(content, '\n'), Seq::empty(), i);
}

proof fn lemma_parse_lines_err(ls: Seq<Seq<char>>, acc: Entries, i: int)
    requires
        0 <= i < ls.len(),
        ls[i].len() > 0,
        !line_ok(ls[i]),
    ensures
        parse_lines(ls, acc) is Err,
    decreases ls.len(),
{
    if ls[0].len() == 0 {
        assert(i != 0);
        assert(ls.drop_first()[i - 1] == ls[i]);
        lemma_parse_lines_err(ls.drop_first(), acc, i - 1);
    } else if !line_ok(ls[0]) {
    } else {
        assert(i != 0);
        assert(ls.drop_first()[i - 1] == ls[i]);
        lemma_parse_lines_err(ls.drop_first(),
            upsert(acc, line_path(ls[0]), line_digest(ls[0])), i - 1);
    }
}

} // verus!
