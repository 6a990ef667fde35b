//! The snapshot engine: walking records against a loaded store, reporting
//! the new and modified paths in discovery order, and producing the store
//! text to persist.
//!
//! The engine works on plain `(path, digest)` pairs; the caller enumerates
//! the files, reads them, and fingerprints the bytes with
//! [`crate::digest::digest_hex`].  A record whose path ends with the
//! store's own backing-file path is never reported as changed, so that the
//! store never reports itself after being rewritten by a previous run; its
//! digest is still updated in the mapping.

use vstd::prelude::*;

use crate::store::{Entries, Error, Mapping, lookup, upsert, lemma_upsert, parse_store_spec,
    render_entries, render_store, load_store};
use crate::text::{ends_with, str_ends_with};

verus! {

/// The default backing file for the fingerprint store.
pub const HASH_STORE_FILE: &'static str = ".sniff_store";

/// The records of a walk or a change list, as character sequences.
pub open spec fn pairs_view(s: Seq<(String, String)>) -> Entries {
    Seq::new(s.len(), |i: int| (s[i].0@, s[i].1@))
}

/// A list of paths, as character sequences.
pub open spec fn strings_view(s: Seq<String>) -> Seq<Seq<char>> {
    Seq::new(s.len(), |i: int| s[i]@)
}

/// What one sniff pass does: the final mapping and the reported paths, in
/// walk order.  A record equal to the stored one is left alone; any other
/// record is written into the mapping, and reported unless its path ends
/// with the store's own path.
pub open spec fn sniff_fold(s: Entries, walk: Entries, sfx: Seq<char>) -> (Entries, Seq<Seq<char>>)
    decreases walk.len(),
{
    if walk.len() == 0 {
        (s, Seq::empty())
    } else {
        let p = walk[0].0;
        let d = walk[0].1;
        let hit = lookup(s, p);
        let s1 = if hit == Some(d) { s } else { upsert(s, p, d) };
        let reported = hit != Some(d) && !ends_with(p, sfx);
        let r = sniff_fold(s1, walk.drop_first(), sfx);
        if reported {
            (r.0, seq![p] + r.1)
        } else {
            r
        }
    }
}

/// What indexing does: record every walk entry, later entries for a path
/// winning.
pub open spec fn index_fold(acc: Entries, walk: Entries) -> Entries
    decreases walk.len(),
{
    if walk.len() == 0 {
        acc
    } else {
        index_fold(upsert(acc, walk[0].0, walk[0].1), walk.drop_first())
    }
}

/// Merge a walk into the mapping and report the changed paths, in walk
/// order: the new paths, and those whose digest differs from the stored
/// one, except any path ending with the store's own path.
pub fn apply_walk(m: &mut Mapping, walk: &Vec<(String, String)>, store_suffix: &str) -> (changed:
    Vec<String>)
    requires
        old(m).wf(),
    ensures
        final(m).wf(),
        final(m)@ == sniff_fold(old(m)@, pairs_view(walk@), store_suffix@).0,
        strings_view(changed@) == sniff_fold(old(m)@, pairs_view(walk@), store_suffix@).1,
{
    let ghost w = pairs_view(walk@);
    let ghost full = sniff_fold(old(m)@, w, store_suffix@);
    let mut changed: Vec<String> = Vec::new();
    let n = walk.len();
    let mut i: usize = 0;
    proof {
        assert(w.skip(0) =~= w);
        assert(strings_view(changed@) =~= Seq::<Seq<char>>::empty());
        assert(Seq::<Seq<char>>::empty() + full.1 =~= full.1);
    }
    while i < n
        invariant
            i <= n,
            n == walk@.len(),
            w == pairs_view(walk@),
            full == sniff_fold(old(m)@, w, store_suffix@),
            m.wf(),
            sniff_fold(m@, w.skip(i as int), store_suffix@).0 == full.0,
            strings_view(changed@) + sniff_fold(m@, w.skip(i as int), store_suffix@).1
                =~= full.1,
        decreases n - i,
    {
        let ghost tail = w.skip(i as int);
        let ghost m0 = m@;
        proof {
            assert(tail[0] == (walk@[i as int].0@, walk@[i as int].1@));
            assert(tail.drop_first() =~= w.skip(i + 1));
        }
        let path: &String = &walk[i].0;
        let hash: &String = &walk[i].1;
        let excluded = str_ends_with(path.as_str(), store_suffix);
        let unchanged: bool = match m.get(path) {
            Some(old_hash) => old_hash.eq(hash),
            None => false,
        };
        if !unchanged {
            m.set(path.clone(), hash.clone());
            proof {
                assert(lookup(m0, path@) != Some(hash@));
                assert(m@ =~= upsert(m0, path@, hash@));
            }
            if !excluded {
                let ghost ch0 = changed@;
                changed.push(path.clone());
                proof {
                    assert(strings_view(changed@) =~= strings_view(ch0).push(path@));
                    assert(sniff_fold(m0, tail, store_suffix@).1
                        =~= seq![path@] + sniff_fold(m@, tail.drop_first(), store_suffix@).1);
                    assert(strings_view(ch0).push(path@)
                        + sniff_fold(m@, tail.drop_first(), store_suffix@).1
                        =~= strings_view(ch0) + sniff_fold(m0, tail, store_suffix@).1);
                }
            }
        } else {
            proof {
                assert(lookup(m0, path@) == Some(hash@));
            }
        }
        i = i + 1;
    }
    proof {
        assert(w.skip(n as int) =~= Seq::<(Seq<char>, Seq<char>)>::empty());
        assert(strings_view(changed@) + Seq::<Seq<char>>::empty() =~= strings_view(changed@));
    }
    changed
}

/// The engine's configuration: the root to walk and the path of the
/// fingerprint store's backing file.
pub struct Sniffer {
    /// The root path whose files are walked.
    pub path: String,
    /// The path of the store's backing file.
    pub hash_store_file: String,
}

impl Sniffer {
    /// A blank engine, with no root and no store file configured.
    pub fn new() -> (r: Sniffer)
        ensures
            r.path@ == Seq::<char>::empty(),
            r.hash_store_file@ == Seq::<char>::empty(),
    {
        Sniffer { path: String::new(), hash_store_file: String::new() }
    }

    /// Set the root path to walk for file changes.
    pub fn path(self, path: &str) -> (r: Self)
        ensures
            r.path@ == path@,
            r.hash_store_file@ == self.hash_store_file@,
    {
        Sniffer { path: String::from_str(path), hash_store_file: self.hash_store_file }
    }

    /// Set the file that stores the fingerprints of the walked files.
    pub fn hash_store_file(self, file: &str) -> (r: Self)
        ensures
            r.path@ == self.path@,
            r.hash_store_file@ == file@,
    {
        Sniffer { path: self.path, hash_store_file: String::from_str(file) }
    }

    /// Index a walk: the text of a fresh store holding one record per
    /// walked file, later records for a path winning.
    pub fn index(&self, walk: &Vec<(String, String)>) -> (r: String)
        ensures
            r@ == render_entries(index_fold(Seq::empty(), pairs_view(walk@))),
    {
        let ghost w = pairs_view(walk@);
        let mut m = Mapping::new();
        let n = walk.len();
        let mut i: usize = 0;
        proof {
            assert(w.skip(0) =~= w);
        }
        while i < n
            invariant
                i <= n,
                n == walk@.len(),
                w == pairs_view(walk@),
                m.wf(),
                index_fold(m@, w.skip(i as int)) == index_fold(Seq::empty(), w),
            decreases n - i,
        {
            let ghost tail = w.skip(i as int);
            proof {
                assert(tail[0] == (walk@[i as int].0@, walk@[i as int].1@));
                assert(tail.drop_first() =~= w.skip(i + 1));
            }
            m.set(walk[i].0.clone(), walk[i].1.clone());
            i = i + 1;
        }
        proof {
            assert(w.skip(n as int) =~= Seq::<(Seq<char>, Seq<char>)>::empty());
        }
        render_store(&m)
    }

    /// Sniff a walk against the loaded store: parse the store text, merge
    /// the walk, and return the rewritten store text together with the
    /// changed paths in walk order.  `store_content` is the text of the
    /// backing file, or nothing if the file does not exist.
    pub fn sniff(&self, store_content: Option<&str>, walk: &Vec<(String, String)>) -> (r: Result<
        (String, Vec<String>),
        Error,
    >)
        ensures
            match store_content {
                None => r is Err && r->Err_0 is StoreNotFound,
                Some(c) => match parse_store_spec(c@) {
                    Err(l) => r is Err && r->Err_0 is CorruptRecord
                        && r->Err_0->CorruptRecord_0@ == l,
                    Ok(entries) => r is Ok && {
                        let fold = sniff_fold(entries, pairs_view(walk@),
                            self.hash_store_file@);
                        r->Ok_0.0@ == render_entries(fold.0)
                            && strings_view(r->Ok_0.1@) == fold.1
                    },
                },
            },
    {
        let mut m = match load_store(store_content) {
            Ok(m) => m,
            Err(e) => {
                return Err(e);
            },
        };
        let changed = apply_walk(&mut m, walk, self.hash_store_file.as_str());
        let text = render_store(&m);
        Ok((text, changed))
    }
}

/// A pass leaves the record of a path it never walks alone.
proof fn lemma_fold_preserves_absent(m: Entries, w: Entries, sfx: Seq<char>, p: Seq<char>)
    requires
        forall|i: int| 0 <= i < w.len() ==> (#[trigger] w[i]).0 != p,
    ensures
        lookup(sniff_fold(m, w, sfx).0, p) == lookup(m, p),
    decreases w.len(),
{
    if w.len() > 0 {
        let q = w[0].0;
        let d = w[0].1;
        let s1 = if lookup(m, q) == Some(d) { m } else { upsert(m, q, d) };
        lemma_upsert(m, q, d);
        assert(lookup(s1, p) == lookup(m, p));
        assert(forall|i: int| 0 <= i < w.drop_first().len()
            ==> (#[trigger] w.drop_first()[i]).0 != p);
        lemma_fold_preserves_absent(s1, w.drop_first(), sfx, p);
    }
}

/// After a pass over a walk in which a path always carries one digest, the
/// mapping records exactly that digest for it.
proof fn lemma_fold_records(m: Entries, w: Entries, sfx: Seq<char>, p: Seq<char>, d: Seq<char>)
    requires
        exists|i: int| 0 <= i < w.len() && (#[trigger] w[i]).0 == p,
        forall|i: int| 0 <= i < w.len() && (#[trigger] w[i]).0 == p ==> w[i].1 == d,
    ensures
        lookup(sniff_fold(m, w, sfx).0, p) == Some(d),
    decreases w.len(),
{
    let q = w[0].0;
    let dd = w[0].1;
    let s1 = if lookup(m, q) == Some(dd) { m } else { upsert(m, q, dd) };
    lemma_upsert(m, q, dd);
    let rest = w.drop_first();
    assert(forall|i: int| 0 <= i < rest.len() ==> rest[i] == w[i + 1]);
    if exists|i: int| 0 <= i < rest.len() && (#[trigger] rest[i]).0 == p {
        assert(forall|i: int| 0 <= i < rest.len() && (#[trigger] rest[i]).0 == p
            ==> rest[i].1 == d);
        lemma_fold_records(s1, rest, sfx, p, d);
    } else {
        let i = choose|i: int| 0 <= i < w.len() && (#[trigger] w[i]).0 == p;
        if i > 0 {
            assert(rest[i - 1] == w[i]);
            assert(false);
        }
        assert(i == 0);
        assert(q == p && dd == d);
        assert(lookup(s1, p) == Some(d));
        assert(forall|i: int| 0 <= i < rest.len() ==> (#[trigger] rest[i]).0 != p);
        lemma_fold_preserves_absent(s1, rest, sfx, p);
    }
}

/// A pass in which every walked record either matches the stored digest or
/// belongs to the store's own file reports nothing.
proof fn lemma_fold_no_report(m: Entries, w: Entries, sfx: Seq<char>)
    requires
        forall|i: int| 0 <= i < w.len() ==> ends_with((#[trigger] w[i]).0, sfx)
            || lookup(m, w[i].0) == Some(w[i].1),
    ensures
        sniff_fold(m, w, sfx).1 == Seq::<Seq<char>>::empty(),
    decreases w.len(),
{
    if w.len() > 0 {
        let q = w[0].0;
        let d = w[0].1;
        let s1 = if lookup(m, q) == Some(d) { m } else { upsert(m, q, d) };
        lemma_upsert(m, q, d);
        let rest = w.drop_first();
        assert(forall|i: int| 0 <= i < rest.len() ==> rest[i] == w[i + 1]);
        if lookup(m, q) == Some(d) {
            lemma_fold_no_report(m, rest, sfx);
        } else {
            assert(ends_with(q, sfx));
            assert forall|i: int| 0 <= i < rest.len() implies ends_with((#[trigger] rest[i]).0,
                sfx) || lookup(s1, rest[i].0) == Some(rest[i].1) by {
                if !ends_with(rest[i].0, sfx) {
                    assert(rest[i].0 != q);
                    assert(lookup(s1, rest[i].0) == lookup(m, rest[i].0));
                }
            }
            lemma_fold_no_report(s1, rest, sfx);
        }
    }
}

/// Idempotence of sniff: after one pass, a second walk of the same paths in
/// the same order — with the same digests, except that the store's own file
/// may have been rewritten in between — reports nothing, provided the first
/// walk was a consistent snapshot (one digest per path).
pub proof fn lemma_sniff_idempotent(m0: Entries, w1: Entries, w2: Entries, sfx: Seq<char>)
    requires
        w2.len() == w1.len(),
        forall|i: int| 0 <= i < w1.len() ==> (#[trigger] w2[i]).0 == (#[trigger] w1[i]).0,
        forall|i: int, j: int| 0 <= i < w1.len() && 0 <= j < w1.len()
            && (#[trigger] w1[i]).0 == (#[trigger] w1[j]).0 ==> w1[i].1 == w1[j].1,
        forall|i: int| 0 <= i < w2.len()
            ==> (#[trigger] w2[i]).1 == w1[i].1 || ends_with(w2[i].0, sfx),
    ensures
        sniff_fold(sniff_fold(m0, w1, sfx).0, w2, sfx).1 == Seq::<Seq<char>>::empty(),
{
    let m1 = sniff_fold(m0, w1, sfx).0;
    assert forall|i: int| 0 <= i < w2.len() implies ends_with((#[trigger] w2[i]).0, sfx)
        || lookup(m1, w2[i].0) == Some(w2[i].1) by {
        if !ends_with(w2[i].0, sfx) {
            assert(w2[i].1 == w1[i].1);
            assert(w1[i].0 == w2[i].0);
            lemma_fold_records(m0, w1, sfx, w1[i].0, w1[i].1);
        }
    }
    lemma_fold_no_report(m1, w2, sfx);
}

/// New-file and modification detection: a walked record that occurs once,
/// whose digest is not the one stored — because the path is new or because
/// its content changed — and whose path is not the store's own file, is
/// always in the change list.
pub proof fn lemma_changed_reported(m: Entries, w: Entries, sfx: Seq<char>, i: int)
    requires
        0 <= i < w.len(),
        forall|j: int| 0 <= j < w.len() && j != i ==> (#[trigger] w[j]).0 != w[i].0,
        lookup(m, w[i].0) != Some(w[i].1),
        !ends_with(w[i].0, sfx),
    ensures
        sniff_fold(m, w, sfx).1.contains(w[i].0),
    decreases w.len(),
{
    let q = w[0].0;
    let d = w[0].1;
    let s1 = if lookup(m, q) == Some(d) { m } else { upsert(m, q, d) };
    lemma_upsert(m, q, d);
    let rest = w.drop_first();
    assert(forall|j: int| 0 <= j < rest.len() ==> rest[j] == w[j + 1]);
    if i == 0 {
        let r1 = sniff_fold(s1, rest, sfx).1;
        assert((seq![q] + r1)[0] == q);
        assert(sniff_fold(m, w, sfx).1.contains(q));
    } else {
        let p = w[i].0;
        assert(q != p);
        assert(lookup(s1, p) == lookup(m, p));
        assert(forall|j: int| 0 <= j < rest.len() && j != i - 1
            ==> (#[trigger] rest[j]).0 != rest[i - 1].0);
        lemma_changed_reported(s1, rest, sfx, i - 1);
        let r1 = sniff_fold(s1, rest, sfx).1;
        let idx = choose|idx: int| 0 <= idx < r1.len() && r1[idx] == p;
        if lookup(m, q) != Some(d) && !ends_with(q, sfx) {
            assert((seq![p] + r1)[idx + 1] == p);
            assert((seq![q] + r1)[idx + 1] == p);
        }
    }
}

/// Unchanged-file omission: a path whose every walked record matches the
/// stored digest is never in the change list.
pub proof fn lemma_unchanged_not_reported(m: Entries, w: Entries, sfx: Seq<char>, p: Seq<char>)
    requires
        forall|i: int| 0 <= i < w.len() && (#[trigger] w[i]).0 == p
            ==> lookup(m, p) == Some(w[i].1),
    ensures
        !sniff_fold(m, w, sfx).1.contains(p),
    decreases w.len(),
{
    if w.len() > 0 {
        let q = w[0].0;
        let d = w[0].1;
        let s1 = if lookup(m, q) == Some(d) { m } else { upsert(m, q, d) };
        lemma_upsert(m, q, d);
        let rest = w.drop_first();
        assert(forall|i: int| 0 <= i < rest.len() ==> rest[i] == w[i + 1]);
        if q == p {
            assert(lookup(m, p) == Some(d));
            lemma_unchanged_not_reported(m, rest, sfx, p);
        } else {
            assert(lookup(s1, p) == lookup(m, p));
            lemma_unchanged_not_reported(s1, rest, sfx, p);
            let r1 = sniff_fold(s1, rest, sfx).1;
            if lookup(m, q) != Some(d) && !ends_with(q, sfx) {
                assert(!(seq![q] + r1).contains(p)) by {
                    if (seq![q] + r1).contains(p) {
                        let idx = choose|idx: int|
                            0 <= idx < (seq![q] + r1).len() && (seq![q] + r1)[idx] == p;
                        if idx > 0 {
                            assert(r1[idx - 1] == p);
                        }
                    }
                }
            }
        }
    }
}

impl Default for Sniffer {
    /// A sniffer over the current directory's default store file, with no
    /// root configured.
    fn default() -> (r: Sniffer)
        ensures
            r.path@ == Seq::<char>::empty(),
            r.hash_store_file@ == HASH_STORE_FILE@,
    {
        Sniffer {
            path: String::new(),
            hash_store_file: String::from_str(HASH_STORE_FILE),
        }
    }
}

} // verus!
