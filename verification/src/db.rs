//! The dedup store: an ordered in-memory index of the last known value
//! per key, with insert-with-previous-value, ordered scans, and the
//! grouped write-back plan.

use vstd::prelude::*;

use core::marker::PhantomData;

verus! {

use vstd::string::StringSliceAdditionalSpecFns;

use crate::Format;
use crate::report::WriteReport;
use crate::lex::{
    str_bytes, lex_lt, lex_lt_bytes, bytes_eq, lemma_lex_total, lemma_lex_trans,
    lemma_lex_antisym,
};

/// A fatal store error.
#[derive(Debug)]
pub enum Error<F> {
    /// Key or path derivation failed; holds the capability's own error.
    Format(F),
    /// During write-back a path reappeared after a different path had been
    /// seen: the key/path capability breaks its contiguity obligation.
    /// Holds the reappearing path and the key that derived it.
    InvalidPath(String, Vec<u8>),
}

/// The authoritative index of the last known value per key: an ordered map
/// from key bytes to the line most recently inserted for that key.
pub struct LineDb<F: Format> {
    entries: Vec<(Vec<u8>, String)>,
    format: PhantomData<F>,
}

/// The map a sequence of `(key, value)` entries stands for.
pub open spec fn entries_as_map(s: Seq<(Seq<u8>, Seq<u8>)>) -> Map<Seq<u8>, Seq<u8>>
    decreases s.len(),
{
    if s.len() == 0 {
        Map::empty()
    } else {
        entries_as_map(s.drop_first()).insert(s[0].0, s[0].1)
    }
}

/// The bytes a returned previous value stands for: `None` for a fresh
/// key, `Some(None)` for a duplicate, `Some(Some(old))` for a collision.
pub open spec fn prev_view(prev: Option<Option<String>>) -> Option<Option<Seq<u8>>> {
    match prev {
        None => None,
        Some(None) => Some(None),
        Some(Some(p)) => Some(Some(str_bytes(p))),
    }
}

/// What an insert of value `v` under key `k` against store contents `m`
/// may report: a fresh key only when `k` is absent, a duplicate only when
/// the stored value equals `v`, and a collision only with the differing
/// stored value.
pub open spec fn insert_outcome_ok(
    m: Map<Seq<u8>, Seq<u8>>,
    k: Seq<u8>,
    v: Seq<u8>,
    o: Option<Option<Seq<u8>>>,
) -> bool {
    match o {
        None => !m.dom().contains(k),
        Some(None) => m.dom().contains(k) && m[k] == v,
        Some(Some(p)) => m.dom().contains(k) && p == m[k] && p != v,
    }
}

/// Re-inserting an identical `(key, value)` pair never produces a
/// collision: once `(k, v)` is stored, the only outcome the insert
/// contract allows for inserting `v` under `k` again is the duplicate
/// outcome.
pub proof fn lemma_reinsert_identical_is_duplicate(m: Map<Seq<u8>, Seq<u8>>, k: Seq<u8>, v: Seq<u8>)
    ensures
        forall|o: Option<Option<Seq<u8>>>|
            insert_outcome_ok(m.insert(k, v), k, v, o) ==> o == Some(None::<Seq<u8>>),
{
}

/// Inserting `v2` under a key that currently stores a different value
/// `v1` always reports a collision carrying `v1` as the replaced value:
/// no other outcome meets the insert contract.
pub proof fn lemma_changed_reinsert_is_collision(
    m: Map<Seq<u8>, Seq<u8>>,
    k: Seq<u8>,
    v1: Seq<u8>,
    v2: Seq<u8>,
)
    requires
        v1 != v2,
    ensures
        forall|o: Option<Option<Seq<u8>>>|
            insert_outcome_ok(m.insert(k, v1), k, v2, o) ==> o == Some(Some(v1)),
{
}

/// No two entries share a key.
pub open spec fn distinct_keys(s: Seq<(Seq<u8>, Seq<u8>)>) -> bool {
    forall|i: int, j: int| 0 <= i < s.len() && 0 <= j < s.len() && i != j ==> s[i].0 != s[j].0
}

/// What `entries_as_map` holds when the keys are distinct: membership is
/// exactly the keys of the entries, each key's value is its entry's value,
/// and the domain is finite with one element per entry.
pub proof fn lemma_entries_as_map(s: Seq<(Seq<u8>, Seq<u8>)>)
    requires
        distinct_keys(s),
    ensures
        forall|k: Seq<u8>|
            entries_as_map(s).dom().contains(k) <==> exists|i: int|
                0 <= i < s.len() && s[i].0 == k,
        forall|i: int| 0 <= i < s.len() ==> entries_as_map(s)[#[trigger] s[i].0] == s[i].1,
        entries_as_map(s).dom().finite(),
        entries_as_map(s).dom().len() == s.len(),
    decreases s.len(),
{
    if s.len() == 0 {
    } else {
        let rest = s.drop_first();
        assert(distinct_keys(rest)) by {
            assert(forall|i: int, j: int|
                0 <= i < rest.len() && 0 <= j < rest.len() && i != j ==> rest[i].0 == s[i + 1].0
                    && rest[j].0 == s[j + 1].0);
        }
        lemma_entries_as_map(rest);
        let m = entries_as_map(s);
        assert forall|k: Seq<u8>| m.dom().contains(k) implies exists|i: int|
            0 <= i < s.len() && s[i].0 == k by {
            if k == s[0].0 {
                assert(s[0].0 == k);
            } else {
                let i = choose|i: int| 0 <= i < rest.len() && rest[i].0 == k;
                assert(s[i + 1].0 == k);
            }
        }
        assert forall|k: Seq<u8>| (exists|i: int| 0 <= i < s.len() && s[i].0 == k) implies m
            .dom()
            .contains(k) by {
            let i = choose|i: int| 0 <= i < s.len() && s[i].0 == k;
            if i == 0 {
            } else {
                assert(rest[i - 1].0 == k);
            }
        }
        assert forall|i: int| 0 <= i < s.len() implies m[#[trigger] s[i].0] == s[i].1 by {
            if i == 0 {
            } else {
                assert(rest[i - 1].0 == s[i].0);
                assert(s[i].0 != s[0].0);
            }
        }
        assert(!entries_as_map(rest).dom().contains(s[0].0)) by {
            if entries_as_map(rest).dom().contains(s[0].0) {
                let i = choose|i: int| 0 <= i < rest.len() && rest[i].0 == s[0].0;
                assert(s[i + 1].0 == s[0].0);
            }
        }
    }
}

impl<F: Format> LineDb<F> {
    /// The store's entries: each key's bytes with its value's UTF-8 bytes,
    /// in ascending key order.
    pub closed spec fn entries_view(self) -> Seq<(Seq<u8>, Seq<u8>)> {
        self.entries@.map(|i: int, e: (Vec<u8>, String)| (e.0@, str_bytes(e.1)))
    }

    /// The entries are strictly ascending in key byte order; in particular
    /// there is at most one entry per key.
    pub open spec fn wf(self) -> bool {
        forall|i: int, j: int|
            0 <= i < j < self.entries_view().len() ==> lex_lt(
                #[trigger] self.entries_view()[i].0,
                #[trigger] self.entries_view()[j].0,
            )
    }

    /// The store as a map from key bytes to current value bytes.
    pub open spec fn db_map(self) -> Map<Seq<u8>, Seq<u8>> {
        entries_as_map(self.entries_view())
    }

    /// Strict key ordering leaves no room for a repeated key.
    pub proof fn lemma_wf_distinct(self)
        requires
            self.wf(),
        ensures
            distinct_keys(self.entries_view()),
    {
        assert forall|i: int, j: int|
            0 <= i < self.entries_view().len() && 0 <= j < self.entries_view().len() && i
                != j implies self.entries_view()[i].0 != self.entries_view()[j].0 by {
            if i < j {
                assert(lex_lt(self.entries_view()[i].0, self.entries_view()[j].0));
            } else {
                assert(lex_lt(self.entries_view()[j].0, self.entries_view()[i].0));
            }
        }
    }

    /// Creates an empty store.
    pub fn new() -> (r: Self)
        ensures
            r.wf(),
            r.db_map() == Map::<Seq<u8>, Seq<u8>>::empty(),
            r.entries_view().len() == 0,
    {
        let r = Self { entries: Vec::new(), format: PhantomData };
        proof {
            assert(r.entries_view() =~= Seq::<(Seq<u8>, Seq<u8>)>::empty());
        }
        r
    }

    /// The number of distinct keys currently stored.
    pub fn count(&self) -> (r: usize)
        requires
            self.wf(),
        ensures
            r == self.db_map().dom().len(),
            r == self.entries_view().len(),
    {
        proof {
            self.lemma_wf_distinct();
            lemma_entries_as_map(self.entries_view());
        }
        self.entries.len()
    }

    /// Inserts a line under the key the capability derives for it; the
    /// new value wins. Returns `Ok(None)` when the key was absent,
    /// `Ok(Some(None))` when the stored value was byte-identical (a
    /// duplicate), and `Ok(Some(Some(old)))` when it differed (a collision,
    /// with the replaced value). Fails exactly when no key can be derived.
    pub fn insert(&mut self, line: &str) -> (r: Result<Option<Option<String>>, Error<F::Error>>)
        requires
            old(self).wf(),
        ensures
            final(self).wf(),
            match r {
                Ok(prev) => {
                    &&& F::key_spec(line.spec_bytes()) is Some
                    &&& {
                        let k = F::key_spec(line.spec_bytes())->Some_0;
                        &&& final(self).db_map() == old(self).db_map().insert(
                            k,
                            line.spec_bytes(),
                        )
                        &&& insert_outcome_ok(
                            old(self).db_map(),
                            k,
                            line.spec_bytes(),
                            prev_view(prev),
                        )
                    }
                },
                Err(e) => {
                    &&& *final(self) == *old(self)
                    &&& e is Format
                    &&& F::key_spec(line.spec_bytes()) is None
                },
            },
    {
        let key = match F::key(line) {
            Ok(k) => k,
            Err(e) => {
                return Err(Error::Format(e));
            },
        };
        let ghost kv = key@;
        let ghost s0 = self.entries_view();
        let mut idx: usize = 0;
        while idx < self.entries.len() && lex_lt_bytes(self.entries[idx].0.as_slice(), key.as_slice())
            invariant
                old(self) == self,
                self.wf(),
                kv == key@,
                idx <= self.entries.len(),
                forall|j: int| 0 <= j < idx ==> lex_lt(#[trigger] self.entries_view()[j].0, kv),
            decreases self.entries.len() - idx,
        {
            idx = idx + 1;
        }
        proof {
            self.lemma_wf_distinct();
            lemma_entries_as_map(s0);
            if idx < s0.len() {
                lemma_lex_total(s0[idx as int].0, kv);
            }
        }
        if idx < self.entries.len() && bytes_eq(self.entries[idx].0.as_slice(), key.as_slice()) {
            // The key is present: replace the value, report what stood there.
            let prev_pair = self.entries.remove(idx);
            let same = bytes_eq(prev_pair.1.as_str().as_bytes(), line.as_bytes());
            self.entries.insert(idx, (prev_pair.0, line.to_owned()));
            let ghost s1 = self.entries_view();
            proof {
                assert(s1 =~= s0.update(idx as int, (kv, line.spec_bytes())));
                lemma_update_model(s0, idx as int, line.spec_bytes());
                assert(self.wf()) by {
                    assert(forall|i: int|
                        0 <= i < s1.len() ==> #[trigger] s1[i].0 == s0[i].0);
                }
            }
            if same {
                Ok(Some(None))
            } else {
                Ok(Some(Some(prev_pair.1)))
            }
        } else {
            // The key is absent: insert it at its ordered position.
            proof {
                if idx < s0.len() {
                    assert(lex_lt(kv, s0[idx as int].0));
                }
                assert(!old(self).db_map().dom().contains(kv)) by {
                    if old(self).db_map().dom().contains(kv) {
                        let i = choose|i: int| 0 <= i < s0.len() && s0[i].0 == kv;
                        if i < idx {
                            assert(lex_lt(s0[i].0, kv));
                        } else {
                            assert(idx < s0.len());
                            if i == idx {
                            } else {
                                assert(lex_lt(s0[idx as int].0, s0[i].0));
                                lemma_lex_trans(kv, s0[idx as int].0, s0[i].0);
                                lemma_lex_antisym(kv, s0[i].0);
                            }
                        }
                    }
                }
            }
            self.entries.insert(idx, (key, line.to_owned()));
            let ghost s1 = self.entries_view();
            proof {
                assert(s1 =~= s0.insert(idx as int, (kv, line.spec_bytes())));
                lemma_insert_model(s0, idx as int, kv, line.spec_bytes());
                assert forall|i: int, j: int| 0 <= i < j < s1.len() implies lex_lt(
                    #[trigger] s1[i].0,
                    #[trigger] s1[j].0,
                ) by {
                    let ii = if i < idx { i } else { i - 1 };
                    let jj = if j < idx { j } else { j - 1 };
                    if i == idx {
                        // s1[i].0 is the new key, s1[j].0 an old key at or past idx
                        assert(s1[j].0 == s0[j - 1].0);
                        assert(lex_lt(kv, s0[idx as int].0));
                        if j - 1 > idx {
                            assert(lex_lt(s0[idx as int].0, s0[j - 1].0));
                            lemma_lex_trans(kv, s0[idx as int].0, s0[j - 1].0);
                            assert(kv != s0[j - 1].0) by {
                                if kv == s0[j - 1].0 {
                                    lemma_lex_antisym(s0[idx as int].0, s0[j - 1].0);
                                }
                            }
                        }
                    } else if j == idx {
                        assert(s1[i].0 == s0[i].0);
                        assert(lex_lt(s0[i].0, kv));
                    } else {
                        assert(s1[i].0 == s0[ii].0);
                        assert(s1[j].0 == s0[jj].0);
                        if ii < jj {
                            assert(lex_lt(s0[ii].0, s0[jj].0));
                        } else {
                            // ii and jj only coincide when i and j straddle
                            // the slot, so the new key stands between them
                            assert(i < idx && j > idx);
                            assert(lex_lt(s0[ii].0, kv));
                            assert(lex_lt(kv, s0[jj].0));
                            lemma_lex_trans(s0[ii].0, kv, s0[jj].0);
                            assert(s0[ii].0 != s0[jj].0) by {
                                if s0[ii].0 == s0[jj].0 {
                                    lemma_lex_antisym(kv, s0[jj].0);
                                }
                            }
                        }
                    }
                }
            }
            Ok(None)
        }
    }

    /// A fresh ordered scan of the store: every `(key, value)` record,
    /// in ascending key byte order.
    pub fn ordered_scan(&self) -> (r: Vec<(Vec<u8>, String)>)
        requires
            self.wf(),
        ensures
            r@.len() == self.entries_view().len(),
            forall|i: int|
                0 <= i < r@.len() ==> (#[trigger] r@[i]).0@ == self.entries_view()[i].0
                    && str_bytes(r@[i].1) == self.entries_view()[i].1,
    {
        let mut r: Vec<(Vec<u8>, String)> = Vec::new();
        let mut i: usize = 0;
        while i < self.entries.len()
            invariant
                i <= self.entries@.len(),
                r@.len() == i,
                forall|j: int|
                    0 <= j < i ==> (#[trigger] r@[j]).0@ == self.entries_view()[j].0 && str_bytes(
                        r@[j].1,
                    ) == self.entries_view()[j].1,
            decreases self.entries@.len() - i,
        {
            let pair = (clone_bytes(&self.entries[i].0), self.entries[i].1.clone());
            r.push(pair);
            i = i + 1;
        }
        r
    }

    /// Consumes one ordered scan and groups it into output files: a new
    /// file starts whenever the derived path changes, and a path that
    /// reappears after a different path was seen is refused as
    /// `InvalidPath` — the capability then breaks its contiguity
    /// obligation. On success the plan is exactly the grouping
    /// `plan_rec` describes, so every stored value is planned once, in
    /// key order.
    #[verifier::loop_isolation(false)]
    pub fn write_plan(&self) -> (r: Result<WritePlan, Error<F::Error>>)
        requires
            self.wf(),
        ensures
            ({
                let ev = self.entries_view();
                let n = ev.len() as int;
                match r {
                    Ok(plan) => {
                        &&& plan_rec::<F>(ev, n) == Ok::<_, PlanIssue>(plan.view_files())
                        &&& plan.wf()
                    },
                    Err(Error::Format(_)) => match plan_rec::<F>(ev, n) {
                        Err(PlanIssue::Underivable(at)) => 0 <= at < n && F::path_spec(
                            ev[at].0,
                        ) is None,
                        _ => false,
                    },
                    Err(Error::InvalidPath(p, k)) => match plan_rec::<F>(ev, n) {
                        Err(PlanIssue::Reappears(at)) => 0 <= at < n && k@ == ev[at].0 && Some(p@)
                            == F::path_spec(ev[at].0),
                        _ => false,
                    },
                }
            }),
    {
        let ghost ev = self.entries_view();
        let ghost n = ev.len() as int;
        let mut files: Vec<(String, Vec<String>)> = Vec::new();
        let mut i: usize = 0;
        proof {
            assert(files_view(files@) =~= Seq::<(Seq<char>, Seq<Seq<u8>>)>::empty());
        }
        while i < self.entries.len()
            invariant
                i <= self.entries@.len(),
                ev == self.entries_view(),
                n == ev.len() as int,
                self.wf(),
                plan_rec::<F>(ev, i as int) == Ok::<_, PlanIssue>(files_view(files@)),
            decreases self.entries@.len() - i,
        {
            let ghost groups = files_view(files@);
            let path = match F::path(self.entries[i].0.as_slice()) {
                Ok(p) => p,
                Err(e) => {
                    proof {
                        lemma_plan_rec_err_persists::<F>(ev, i + 1, n);
                    }
                    return Err(Error::Format(e));
                },
            };
            let ghost p = path@;
            let value = self.entries[i].1.clone();
            if files.len() > 0 && path_eq(&files[files.len() - 1].0, &path) {
                let mut lastf = files.pop().unwrap();
                lastf.1.push(value);
                proof {
                    assert(lines_view(lastf.1@) =~= groups.last().1.push(str_bytes(
                        self.entries@[i as int].1,
                    )));
                }
                files.push(lastf);
                proof {
                    assert(files_view(files@) =~= groups.update(
                        groups.len() - 1,
                        (p, groups.last().1.push(ev[i as int].1)),
                    ));
                }
            } else {
                let mut g: usize = 0;
                while g < files.len()
                    invariant
                        g <= files@.len(),
                        forall|j: int| 0 <= j < g ==> (#[trigger] files@[j]).0@ != p,
                        p == path@,
                        Some(p) == F::path_spec(ev[i as int].0),
                    decreases files@.len() - g,
                {
                    if path_eq(&files[g].0, &path) {
                        proof {
                            assert(files_view(files@)[g as int].0 == p);
                            lemma_plan_rec_err_persists::<F>(ev, i + 1, n);
                        }
                        let key_copy = clone_bytes(&self.entries[i].0);
                        return Err(Error::InvalidPath(path, key_copy));
                    }
                    g = g + 1;
                }
                proof {
                    assert(forall|j: int|
                        0 <= j < files_view(files@).len() ==> (#[trigger] files_view(files@)[j]).0
                            != p);
                }
                let lines_vec = vec![value];
                proof {
                    assert(lines_view(lines_vec@) =~= seq![ev[i as int].1]);
                }
                files.push((path, lines_vec));
                proof {
                    assert(files_view(files@) =~= groups.push((p, seq![ev[i as int].1])));
                }
            }
            i = i + 1;
        }
        proof {
            lemma_plan_rec_complete::<F>(ev, n);
            assert(sum_lens(files_view(files@)) == n);
        }
        Ok(WritePlan { files })
    }
}

/// The name a planned output file takes when its stream is compressed:
/// the compression suffix joins the existing extension, or becomes the
/// extension when the name ends in a bare dot.
pub fn zstd_file_name(path: &str) -> (r: String)
    ensures
        r@ == if path@.len() > 0 && path@.last() == '.' {
            path@ + "zst"@
        } else {
            path@ + ".zst"@
        },
{
    let n = path.unicode_len();
    let base = path.to_owned();
    if n > 0 && path.get_char(n - 1) == '.' {
        base.concat("zst")
    } else {
        base.concat(".zst")
    }
}

/// Whether two paths are the same string.
fn path_eq(a: &String, b: &String) -> (r: bool)
    ensures
        r == (a@ == b@),
{
    a.eq(b)
}

/// Why a write-back plan could not be built: the index of the offending
/// entry in the ordered scan, for a key whose path cannot be derived, or
/// for a path that reappears after a different path was seen.
pub enum PlanIssue {
    Underivable(int),
    Reappears(int),
}

/// The grouping write-back performs on the first `n` entries of an ordered
/// scan: consecutive entries deriving the same path join one output file;
/// a path that comes back after a different path was seen is refused.
pub open spec fn plan_rec<F: Format>(s: Seq<(Seq<u8>, Seq<u8>)>, n: int) -> Result<
    Seq<(Seq<char>, Seq<Seq<u8>>)>,
    PlanIssue,
>
    decreases n,
{
    if n <= 0 {
        Ok(Seq::empty())
    } else {
        match plan_rec::<F>(s, n - 1) {
            Err(issue) => Err(issue),
            Ok(groups) => match F::path_spec(s[n - 1].0) {
                None => Err(PlanIssue::Underivable(n - 1)),
                Some(p) => if groups.len() > 0 && groups.last().0 == p {
                    Ok(
                        groups.update(
                            groups.len() - 1,
                            (p, groups.last().1.push(s[n - 1].1)),
                        ),
                    )
                } else if exists|g: int| 0 <= g < groups.len() && (#[trigger] groups[g]).0 == p {
                    Err(PlanIssue::Reappears(n - 1))
                } else {
                    Ok(groups.push((p, seq![s[n - 1].1])))
                },
            },
        }
    }
}

/// Once planning has failed, processing more entries cannot mend it.
pub proof fn lemma_plan_rec_err_persists<F: Format>(s: Seq<(Seq<u8>, Seq<u8>)>, n: int, m: int)
    requires
        0 <= n <= m,
        plan_rec::<F>(s, n) is Err,
    ensures
        plan_rec::<F>(s, m) == plan_rec::<F>(s, n),
    decreases m - n,
{
    if m > n {
        lemma_plan_rec_err_persists::<F>(s, n, m - 1);
    }
}

/// The model of a list of output files: each path's characters with the
/// UTF-8 bytes of each line it holds.
pub open spec fn files_view(files: Seq<(String, Vec<String>)>) -> Seq<(Seq<char>, Seq<Seq<u8>>)> {
    Seq::new(files.len(), |i: int| (files[i].0@, lines_view(files[i].1@)))
}

/// The model of one output file's lines.
pub open spec fn lines_view(ls: Seq<String>) -> Seq<Seq<u8>> {
    Seq::new(ls.len(), |j: int| str_bytes(ls[j]))
}

/// The total number of lines over all planned files.
pub open spec fn sum_lens(gs: Seq<(Seq<char>, Seq<Seq<u8>>)>) -> int
    decreases gs.len(),
{
    if gs.len() == 0 {
        0
    } else {
        sum_lens(gs.drop_last()) + gs.last().1.len()
    }
}

/// All planned lines, in plan order.
pub open spec fn flat_lines(gs: Seq<(Seq<char>, Seq<Seq<u8>>)>) -> Seq<Seq<u8>>
    decreases gs.len(),
{
    if gs.len() == 0 {
        Seq::empty()
    } else {
        flat_lines(gs.drop_last()) + gs.last().1
    }
}

/// What a successful plan guarantees: no path is planned twice, no planned
/// file is empty, and every scanned value lands in exactly one file — in
/// scan order, one line each — so the line counts add up to the number of
/// entries scanned.
pub proof fn lemma_plan_rec_complete<F: Format>(s: Seq<(Seq<u8>, Seq<u8>)>, n: int)
    requires
        0 <= n <= s.len(),
        plan_rec::<F>(s, n) is Ok,
    ensures
        ({
            let gs = plan_rec::<F>(s, n)->Ok_0;
            &&& forall|g1: int, g2: int|
                0 <= g1 < gs.len() && 0 <= g2 < gs.len() && g1 != g2 ==> (#[trigger] gs[g1]).0 != (
                #[trigger] gs[g2]).0
            &&& forall|g: int| 0 <= g < gs.len() ==> 1 <= (#[trigger] gs[g]).1.len()
            &&& sum_lens(gs) == n
            &&& flat_lines(gs) == Seq::new(n as nat, |i: int| s[i].1)
        }),
    decreases n,
{
    if n == 0 {
        assert(flat_lines(plan_rec::<F>(s, n)->Ok_0) =~= Seq::new(0nat, |i: int| s[i].1));
    } else {
        assert(plan_rec::<F>(s, n - 1) is Ok);
        lemma_plan_rec_complete::<F>(s, n - 1);
        let prev = plan_rec::<F>(s, n - 1)->Ok_0;
        let gs = plan_rec::<F>(s, n)->Ok_0;
        let p = F::path_spec(s[n - 1].0)->Some_0;
        let v = s[n - 1].1;
        if prev.len() > 0 && prev.last().0 == p {
            let updated = (p, prev.last().1.push(v));
            assert(gs == prev.update(prev.len() - 1, updated));
            assert(gs.drop_last() =~= prev.drop_last());
            assert(gs.last() == updated);
            assert(sum_lens(gs) == sum_lens(prev.drop_last()) + prev.last().1.len() + 1);
            assert(sum_lens(prev) == sum_lens(prev.drop_last()) + prev.last().1.len());
            assert(flat_lines(gs) =~= Seq::new(n as nat, |i: int| s[i].1)) by {
                assert(flat_lines(gs) == flat_lines(gs.drop_last()) + gs.last().1);
                assert(flat_lines(gs.drop_last()) == flat_lines(prev.drop_last()));
                assert(gs.last().1 =~= prev.last().1.push(v));
                assert(flat_lines(gs) =~= (flat_lines(prev.drop_last()) + prev.last().1) + seq![
                    v
                ]);
                assert(flat_lines(prev) == flat_lines(prev.drop_last()) + prev.last().1);
                assert(flat_lines(gs) =~= flat_lines(prev) + seq![v]);
                assert(flat_lines(prev) =~= Seq::new((n - 1) as nat, |i: int| s[i].1));
            }
            assert(forall|g: int|
                0 <= g < gs.len() ==> (#[trigger] gs[g]).0 == prev[g].0);
        } else {
            assert(gs == prev.push((p, seq![v])));
            assert(gs.drop_last() =~= prev);
            assert(flat_lines(gs) =~= Seq::new(n as nat, |i: int| s[i].1)) by {
                assert(flat_lines(gs) == flat_lines(prev) + seq![v]);
                assert(flat_lines(prev) =~= Seq::new((n - 1) as nat, |i: int| s[i].1));
            }
        }
    }
}

/// A deduplicated, grouped materialization of the store: one planned
/// output file per derived path, holding the lines to write in order.
pub struct WritePlan {
    pub files: Vec<(String, Vec<String>)>,
}

impl WritePlan {
    /// The planned files: each path with the bytes of its lines.
    pub open spec fn view_files(self) -> Seq<(Seq<char>, Seq<Seq<u8>>)> {
        files_view(self.files@)
    }

    /// No path planned twice, no file empty, and a total line count the
    /// machine can represent.
    pub open spec fn wf(self) -> bool {
        &&& forall|g1: int, g2: int|
            0 <= g1 < self.view_files().len() && 0 <= g2 < self.view_files().len() && g1 != g2
                ==> (#[trigger] self.view_files()[g1]).0 != (#[trigger] self.view_files()[g2]).0
        &&& forall|g: int| 0 <= g < self.view_files().len() ==> 1 <= (#[trigger] self.view_files()[g]).1.len()
        &&& sum_lens(self.view_files()) <= usize::MAX
    }

    /// The per-path line counts this plan will produce when executed.
    pub fn report(&self) -> (r: WriteReport)
        requires
            self.wf(),
        ensures
            r.wf(),
            r.counts() == Seq::new(
                self.view_files().len(),
                |g: int| (self.view_files()[g].0, self.view_files()[g].1.len() as int),
            ),
    {
        let mut counts: Vec<(String, usize)> = Vec::new();
        let mut g: usize = 0;
        while g < self.files.len()
            invariant
                g <= self.files@.len(),
                self.wf(),
                counts@.len() == g,
                forall|j: int|
                    0 <= j < g ==> (#[trigger] counts@[j]).0@ == self.view_files()[j].0 && counts@[
                        j
                    ].1 as int == self.view_files()[j].1.len(),
            decreases self.files@.len() - g,
        {
            let entry = (self.files[g].0.clone(), self.files[g].1.len());
            counts.push(entry);
            g = g + 1;
        }
        proof {
            lemma_sum_counts_matches(
                crate::report::counts_view(counts@),
                self.view_files(),
            );
        }
        WriteReport::new(counts)
    }
}

/// When each listed count equals the matching file's line count, the two
/// totals agree.
proof fn lemma_sum_counts_matches(cs: Seq<(Seq<char>, int)>, gs: Seq<(Seq<char>, Seq<Seq<u8>>)>)
    requires
        cs.len() == gs.len(),
        forall|i: int| 0 <= i < cs.len() ==> (#[trigger] cs[i]).1 == gs[i].1.len(),
    ensures
        crate::report::sum_counts(cs) == sum_lens(gs),
    decreases cs.len(),
{
    if cs.len() > 0 {
        lemma_sum_counts_matches(cs.drop_last(), gs.drop_last());
    }
}

/// Byte-for-byte copy of a byte vector.
fn clone_bytes(v: &Vec<u8>) -> (r: Vec<u8>)
    ensures
        r@ == v@,
{
    let mut r: Vec<u8> = Vec::new();
    let mut i: usize = 0;
    while i < v.len()
        invariant
            i <= v@.len(),
            r@ =~= v@.take(i as int),
        decreases v@.len() - i,
    {
        r.push(v[i]);
        i = i + 1;
    }
    proof {
        assert(v@.take(v@.len() as int) =~= v@);
    }
    r
}

/// Updating the value at an existing key updates the map the entries stand
/// for, leaving every other key's value in place.
pub proof fn lemma_update_model(s: Seq<(Seq<u8>, Seq<u8>)>, idx: int, v: Seq<u8>)
    requires
        distinct_keys(s),
        0 <= idx < s.len(),
    ensures
        distinct_keys(s.update(idx, (s[idx].0, v))),
        entries_as_map(s.update(idx, (s[idx].0, v))) == entries_as_map(s).insert(s[idx].0, v),
{
    let k = s[idx].0;
    let s1 = s.update(idx, (k, v));
    assert(distinct_keys(s1)) by {
        assert(forall|i: int| 0 <= i < s1.len() ==> #[trigger] s1[i].0 == s[i].0);
    }
    lemma_entries_as_map(s);
    lemma_entries_as_map(s1);
    let m0 = entries_as_map(s);
    let m1 = entries_as_map(s1);
    assert forall|q: Seq<u8>| m1.dom().contains(q) implies m0.insert(k, v).dom().contains(q) by {
        let i = choose|i: int| 0 <= i < s1.len() && s1[i].0 == q;
        assert(s[i].0 == q);
    }
    assert forall|q: Seq<u8>| m0.insert(k, v).dom().contains(q) implies m1.dom().contains(q) by {
        if q == k {
            assert(s1[idx].0 == q);
        } else {
            let i = choose|i: int| 0 <= i < s.len() && s[i].0 == q;
            assert(s1[i].0 == q);
        }
    }
    assert forall|q: Seq<u8>| m1.dom().contains(q) implies m1[q] == m0.insert(k, v)[q] by {
        let i = choose|i: int| 0 <= i < s1.len() && s1[i].0 == q;
        if i == idx {
            assert(m1[q] == v);
        } else {
            assert(s[i].0 == q);
            assert(q != k);
            assert(m1[q] == s1[i].1);
            assert(m0[q] == s[i].1);
        }
    }
    assert(m1 =~= m0.insert(k, v));
}

/// Inserting an entry under a fresh key inserts it into the map the
/// entries stand for.
pub proof fn lemma_insert_model(s: Seq<(Seq<u8>, Seq<u8>)>, idx: int, k: Seq<u8>, v: Seq<u8>)
    requires
        distinct_keys(s),
        0 <= idx <= s.len(),
        forall|i: int| 0 <= i < s.len() ==> #[trigger] s[i].0 != k,
    ensures
        distinct_keys(s.insert(idx, (k, v))),
        entries_as_map(s.insert(idx, (k, v))) == entries_as_map(s).insert(k, v),
{
    let s1 = s.insert(idx, (k, v));
    assert(distinct_keys(s1)) by {
        assert forall|i: int, j: int|
            0 <= i < s1.len() && 0 <= j < s1.len() && i != j implies s1[i].0 != s1[j].0 by {
            if i == idx {
                if j < idx {
                    assert(s1[j].0 == s[j].0);
                } else {
                    assert(s1[j].0 == s[j - 1].0);
                }
            } else if j == idx {
                if i < idx {
                    assert(s1[i].0 == s[i].0);
                } else {
                    assert(s1[i].0 == s[i - 1].0);
                }
            } else {
                let ii = if i < idx { i } else { i - 1 };
                let jj = if j < idx { j } else { j - 1 };
                assert(s1[i].0 == s[ii].0);
                assert(s1[j].0 == s[jj].0);
            }
        }
    }
    lemma_entries_as_map(s);
    lemma_entries_as_map(s1);
    let m0 = entries_as_map(s);
    let m1 = entries_as_map(s1);
    assert forall|q: Seq<u8>| m1.dom().contains(q) implies m0.insert(k, v).dom().contains(q) by {
        let i = choose|i: int| 0 <= i < s1.len() && s1[i].0 == q;
        if i == idx {
        } else {
            let ii = if i < idx { i } else { i - 1 };
            assert(s[ii].0 == q);
        }
    }
    assert forall|q: Seq<u8>| m0.insert(k, v).dom().contains(q) implies m1.dom().contains(q) by {
        if q == k {
            assert(s1[idx].0 == q);
        } else {
            let i = choose|i: int| 0 <= i < s.len() && s[i].0 == q;
            if i < idx {
                assert(s1[i].0 == q);
            } else {
                assert(s1[i + 1].0 == q);
            }
        }
    }
    assert forall|q: Seq<u8>| m1.dom().contains(q) implies m1[q] == m0.insert(k, v)[q] by {
        let i = choose|i: int| 0 <= i < s1.len() && s1[i].0 == q;
        if i == idx {
            assert(m1[q] == v);
            assert(q == k);
        } else {
            let ii = if i < idx { i } else { i - 1 };
            assert(s[ii].0 == q);
            assert(q != k);
            assert(m1[q] == s1[i].1);
            assert(m0[q] == s[ii].1);
            assert(s1[i].1 == s[ii].1);
        }
    }
    assert(m1 =~= m0.insert(k, v));
}

} // verus!
