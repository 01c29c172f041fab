//! The session's decisions: input ordering, per-file ingestion with
//! repeat collection, and the completeness law behind concurrent runs.

use vstd::prelude::*;

verus! {

use vstd::string::StringSliceAdditionalSpecFns;

use crate::{Format, Location, Repeat, Replacement};
use crate::db::LineDb;
use crate::lex::{str_bytes, lex_le, str_le, lemma_lex_total, lemma_lex_trans};

broadcast use vstd::seq_lib::group_to_multiset_ensures;

/// How the discovered input files are ordered before ingestion.
#[derive(Clone, Copy, Debug, PartialEq, Eq)]
pub enum FileOrder {
    ByName,
    BySizeInterspersed,
}

/// A fatal ingestion error.
#[derive(Debug)]
pub enum Error<F> {
    /// Key derivation failed for a line: the store's error with the file
    /// and the 1-based line number it came from.
    KeyParsing(crate::db::Error<F>, String, usize),
}

/// The model of a sized path list: each path's characters with its byte
/// size.
pub open spec fn sized_view(s: Seq<(String, u64)>) -> Seq<(Seq<char>, u64)> {
    Seq::new(s.len(), |i: int| (s[i].0@, s[i].1))
}

/// Ascending in the lexicographic order of the paths' UTF-8 bytes.
pub open spec fn sorted_by_name(s: Seq<(Seq<char>, u64)>) -> bool {
    forall|i: int, j: int|
        0 <= i < j < s.len() ==> lex_le(
            vstd::utf8::encode_utf8(#[trigger] s[i].0),
            vstd::utf8::encode_utf8(#[trigger] s[j].0),
        )
}

/// Ascending by file size.
pub open spec fn sorted_by_size(s: Seq<(Seq<char>, u64)>) -> bool {
    forall|i: int, j: int| 0 <= i < j < s.len() ==> (#[trigger] s[i]).1 <= (#[trigger] s[j]).1
}

/// The interspersed order built from a size-sorted list: the smaller half
/// ascending, then the remaining larger files in descending order, so a
/// bounded worker pool sees heterogeneous work throughout its lifetime.
pub open spec fn interspersed(sorted: Seq<(Seq<char>, u64)>) -> Seq<(Seq<char>, u64)> {
    let half = sorted.len() as int / 2;
    sorted.take(half) + sorted.skip(half).reverse()
}

/// Orders the input paths for ingestion. `ByName` sorts by path name;
/// `BySizeInterspersed` sorts by size ascending, splits at the midpoint,
/// and appends the larger half reversed. Either way the result holds
/// exactly the input paths.
pub fn sort_paths(paths: &mut Vec<(String, u64)>, file_order: FileOrder)
    ensures
        match file_order {
            FileOrder::ByName => {
                &&& sorted_by_name(sized_view(final(paths)@))
                &&& sized_view(final(paths)@).to_multiset() == sized_view(
                    old(paths)@,
                ).to_multiset()
            },
            FileOrder::BySizeInterspersed => {
                &&& sized_view(final(paths)@).to_multiset() == sized_view(
                    old(paths)@,
                ).to_multiset()
                &&& exists|sorted: Seq<(Seq<char>, u64)>|
                    {
                        &&& sorted.to_multiset() == sized_view(old(paths)@).to_multiset()
                        &&& sorted_by_size(sorted)
                        &&& sized_view(final(paths)@) == interspersed(sorted)
                    }
            },
        },
{
    match file_order {
        FileOrder::ByName => {
            sort_by_name(paths);
        },
        FileOrder::BySizeInterspersed => {
            sort_by_size(paths);
            let ghost sorted = sized_view(paths@);
            let half = paths.len() / 2;
            let mut upper = paths.split_off(half);
            proof {
                assert(sized_view(paths@) =~= sorted.take(half as int));
                assert(sized_view(upper@) =~= sorted.skip(half as int));
                assert(sorted.skip(half as int + upper@.len()).reverse() =~= Seq::<(
                    Seq<char>,
                    u64,
                )>::empty());
                assert(sized_view(paths@) =~= sorted.take(half as int) + sorted.skip(
                    half as int + upper@.len(),
                ).reverse());
            }
            while upper.len() > 0
                invariant
                    half <= sorted.len(),
                    half as int + upper@.len() <= sorted.len(),
                    sized_view(upper@) =~= sorted.subrange(
                        half as int,
                        half as int + upper@.len(),
                    ),
                    sized_view(paths@) =~= sorted.take(half as int) + sorted.skip(
                        half as int + upper@.len(),
                    ).reverse(),
                decreases upper@.len(),
            {
                let ghost m = half as int + upper@.len();
                let ghost pre = upper@;
                let ghost prev_paths = paths@;
                let x = match upper.pop() {
                    Some(x) => x,
                    None => {
                        return ;
                    },
                };
                proof {
                    assert(x == pre[pre.len() - 1]);
                    assert(upper@ =~= pre.drop_last());
                    assert(sized_view(pre)[pre.len() - 1] == (x.0@, x.1));
                    assert(sized_view(pre) =~= sorted.subrange(half as int, m));
                    assert((x.0@, x.1) == sorted[m - 1]);
                    assert(sized_view(upper@) =~= sorted.subrange(half as int, m - 1));
                    assert(sorted.skip(m - 1) =~= seq![sorted[m - 1]] + sorted.skip(m));
                    assert(sorted.skip(m - 1).reverse() =~= sorted.skip(m).reverse().push(
                        sorted[m - 1],
                    ));
                }
                paths.push(x);
                proof {
                    assert(paths@ =~= prev_paths.push(x));
                    assert(sized_view(paths@) =~= sized_view(prev_paths).push((x.0@, x.1)));
                    assert(sized_view(prev_paths) =~= sorted.take(half as int) + sorted.skip(
                        m,
                    ).reverse());
                    assert(sized_view(paths@) =~= (sorted.take(half as int) + sorted.skip(
                        m,
                    ).reverse()).push(sorted[m - 1]));
                    assert(sized_view(paths@) =~= sorted.take(half as int) + sorted.skip(
                        m,
                    ).reverse().push(sorted[m - 1]));
                    assert(sized_view(paths@) =~= sorted.take(half as int) + sorted.skip(
                        m - 1,
                    ).reverse());
                }
            }
            proof {
                assert(sorted.skip(half as int).reverse() =~= sorted.skip(
                    half as int + upper@.len(),
                ).reverse());
                assert(sized_view(paths@) =~= interspersed(sorted));
                assert(sorted.to_multiset() == sized_view(old(paths)@).to_multiset());
                assert(sorted_by_size(sorted));
                vstd::seq_lib::lemma_multiset_commutative(
                    sorted.take(half as int),
                    sorted.skip(half as int).reverse(),
                );
                sorted.skip(half as int).lemma_reverse_to_multiset();
                vstd::seq_lib::lemma_multiset_commutative(
                    sorted.take(half as int),
                    sorted.skip(half as int),
                );
                assert(sorted.take(half as int) + sorted.skip(half as int) =~= sorted);
            }
        },
    }
}

/// The UTF-8 bytes of each line of a file.
pub open spec fn lines_bytes(s: Seq<String>) -> Seq<Seq<u8>> {
    Seq::new(s.len(), |i: int| str_bytes(s[i]))
}

/// The store contents after inserting the first `n` lines in order; a
/// line whose key cannot be derived leaves the store unchanged.
pub open spec fn ingest_maps<F: Format>(
    m: Map<Seq<u8>, Seq<u8>>,
    ls: Seq<Seq<u8>>,
    n: int,
) -> Map<Seq<u8>, Seq<u8>>
    decreases n,
{
    if n <= 0 {
        m
    } else {
        let m1 = ingest_maps::<F>(m, ls, n - 1);
        match F::key_spec(ls[n - 1]) {
            None => m1,
            Some(k) => m1.insert(k, ls[n - 1]),
        }
    }
}

/// The repeats the first `n` lines produce: for each line whose key was
/// already present at its insert, the line's index together with `None`
/// for a duplicate or the replaced value for a collision.
pub open spec fn ingest_reps<F: Format>(
    m: Map<Seq<u8>, Seq<u8>>,
    ls: Seq<Seq<u8>>,
    n: int,
) -> Seq<(int, Option<Seq<u8>>)>
    decreases n,
{
    if n <= 0 {
        Seq::empty()
    } else {
        let pre = ingest_reps::<F>(m, ls, n - 1);
        let m1 = ingest_maps::<F>(m, ls, n - 1);
        match F::key_spec(ls[n - 1]) {
            None => pre,
            Some(k) => if !m1.dom().contains(k) {
                pre
            } else if m1[k] == ls[n - 1] {
                pre.push((n - 1, None))
            } else {
                pre.push((n - 1, Some(m1[k])))
            },
        }
    }
}

/// Whether a repeat records line `idx` (0-based) of `path`, holding the
/// line's own text as the new value and, for a collision, the replaced
/// value.
pub open spec fn repeat_matches(
    rep: Repeat,
    path: Seq<char>,
    idx: int,
    o: Option<Seq<u8>>,
    line: Seq<u8>,
) -> bool {
    &&& rep.location.path@ == path
    &&& rep.location.line_number == idx + 1
    &&& match (rep.replacement, o) {
        (None, None) => true,
        (Some(rp), Some(oldv)) => str_bytes(rp.old_value) == oldv && str_bytes(rp.new_value)
            == line,
        _ => false,
    }
}

/// No insert is lost: after ingesting any prefix of a file, the store's
/// keys are its initial keys together with every key derived from the
/// ingested lines, whatever outcomes the individual inserts reported.
pub proof fn lemma_no_insert_lost<F: Format>(m: Map<Seq<u8>, Seq<u8>>, ls: Seq<Seq<u8>>, n: int)
    requires
        0 <= n <= ls.len(),
    ensures
        ingest_maps::<F>(m, ls, n).dom() == m.dom().union(
            Set::new(
                |k: Seq<u8>| exists|i: int| 0 <= i < n && F::key_spec(#[trigger] ls[i]) == Some(k),
            ),
        ),
    decreases n,
{
    let target = m.dom().union(
        Set::new(
            |k: Seq<u8>| exists|i: int| 0 <= i < n && F::key_spec(#[trigger] ls[i]) == Some(k),
        ),
    );
    if n == 0 {
        assert(ingest_maps::<F>(m, ls, n).dom() =~= target);
    } else {
        lemma_no_insert_lost::<F>(m, ls, n - 1);
        let prev_dom = ingest_maps::<F>(m, ls, n - 1).dom();
        assert forall|k: Seq<u8>| ingest_maps::<F>(m, ls, n).dom().contains(k) implies target
            .contains(k) by {
            if !prev_dom.contains(k) {
                assert(F::key_spec(ls[n - 1]) == Some(k));
            }
        }
        assert forall|k: Seq<u8>| target.contains(k) implies ingest_maps::<F>(
            m,
            ls,
            n,
        ).dom().contains(k) by {
            if !m.dom().contains(k) {
                let i = choose|i: int| 0 <= i < n && F::key_spec(#[trigger] ls[i]) == Some(k);
                if i < n - 1 {
                    assert(prev_dom.contains(k));
                }
            }
        }
        assert(ingest_maps::<F>(m, ls, n).dom() =~= target);
    }
}

/// Ingests one input file's lines: inserts each line in file order and
/// translates each outcome on a repeated key into a `Repeat` tagged with
/// the file's path and the 1-based line number. A key-derivation failure
/// aborts with that location attached; the inserts made before it remain
/// committed.
pub fn ingest_lines<F: Format>(db: &mut LineDb<F>, path: &str, lines: &Vec<String>) -> (r: Result<
    Vec<Repeat>,
    Error<F::Error>,
>)
    requires
        old(db).wf(),
    ensures
        final(db).wf(),
        ({
            let m0 = old(db).db_map();
            let ls = lines_bytes(lines@);
            match r {
                Ok(reps) => {
                    &&& forall|i: int|
                        0 <= i < ls.len() ==> F::key_spec(#[trigger] ls[i]) is Some
                    &&& final(db).db_map() == ingest_maps::<F>(m0, ls, ls.len() as int)
                    &&& ({
                        let model = ingest_reps::<F>(m0, ls, ls.len() as int);
                        &&& reps@.len() == model.len()
                        &&& forall|j: int|
                            0 <= j < model.len() ==> repeat_matches(
                                #[trigger] reps@[j],
                                path@,
                                model[j].0,
                                model[j].1,
                                ls[model[j].0],
                            )
                    })
                },
                Err(e) => match e {
                    Error::KeyParsing(inner, p, ln) => {
                        &&& inner is Format
                        &&& p@ == path@
                        &&& 1 <= ln <= ls.len()
                        &&& F::key_spec(ls[ln - 1]) is None
                        &&& forall|i: int|
                            0 <= i < ln - 1 ==> F::key_spec(#[trigger] ls[i]) is Some
                        &&& final(db).db_map() == ingest_maps::<F>(m0, ls, ln - 1)
                    },
                },
            }
        }),
{
    let ghost m0 = old(db).db_map();
    let ghost ls = lines_bytes(lines@);
    let mut reps: Vec<Repeat> = Vec::new();
    let mut i: usize = 0;
    while i < lines.len()
        invariant
            db.wf(),
            i <= lines@.len(),
            m0 == old(db).db_map(),
            ls == lines_bytes(lines@),
            forall|j: int| 0 <= j < i ==> F::key_spec(#[trigger] ls[j]) is Some,
            db.db_map() == ingest_maps::<F>(m0, ls, i as int),
            reps@.len() == ingest_reps::<F>(m0, ls, i as int).len(),
            forall|j: int|
                0 <= j < ingest_reps::<F>(m0, ls, i as int).len() ==> repeat_matches(
                    #[trigger] reps@[j],
                    path@,
                    ingest_reps::<F>(m0, ls, i as int)[j].0,
                    ingest_reps::<F>(m0, ls, i as int)[j].1,
                    ls[ingest_reps::<F>(m0, ls, i as int)[j].0],
                ),
        decreases lines@.len() - i,
    {
        let line = &lines[i];
        let ghost m_cur = db.db_map();
        proof {
            assert(str_bytes(*line) == ls[i as int]);
        }
        match db.insert(line.as_str()) {
            Err(e) => {
                proof {
                    assert(F::key_spec(ls[i as int]) is None);
                    assert(db.db_map() == ingest_maps::<F>(m0, ls, i as int));
                }
                return Err(Error::KeyParsing(e, path.to_owned(), i + 1));
            },
            Ok(prev) => {
                let ghost model_pre = ingest_reps::<F>(m0, ls, i as int);
                let ghost model_post = ingest_reps::<F>(m0, ls, i + 1);
                match prev {
                    None => {
                        proof {
                            assert(model_post == model_pre);
                        }
                    },
                    Some(replaced) => {
                        let replacement = match replaced {
                            None => None,
                            Some(value) => Some(
                                Replacement { old_value: value, new_value: line.clone() },
                            ),
                        };
                        let ghost rep_model = replacement;
                        let rep = Repeat {
                            location: Location::new(path, i + 1),
                            replacement,
                        };
                        reps.push(rep);
                        proof {
                            let k = F::key_spec(ls[i as int])->Some_0;
                            match rep_model {
                                None => {
                                    assert(m_cur.dom().contains(k) && m_cur[k] == ls[i as int]);
                                    assert(model_post == model_pre.push(((i as int), None)));
                                },
                                Some(rp) => {
                                    assert(m_cur.dom().contains(k) && str_bytes(rp.old_value)
                                        == m_cur[k] && m_cur[k] != ls[i as int]);
                                    assert(model_post == model_pre.push(
                                        ((i as int), Some(m_cur[k])),
                                    ));
                                },
                            }
                        }
                    },
                }
            },
        }
        i = i + 1;
    }
    proof {
        assert(i as int == ls.len());
    }
    Ok(reps)
}

/// Inserts an element into a name-sorted list, keeping it sorted.
fn insert_by_name(out: &mut Vec<(String, u64)>, e: (String, u64))
    requires
        sorted_by_name(sized_view(old(out)@)),
    ensures
        sorted_by_name(sized_view(final(out)@)),
        sized_view(final(out)@).to_multiset() == sized_view(old(out)@).to_multiset().insert(
            (e.0@, e.1),
        ),
{
    let mut idx: usize = 0;
    while idx < out.len() && str_le(out[idx].0.as_str(), e.0.as_str())
        invariant
            idx <= out@.len(),
            out == old(out),
            forall|j: int|
                0 <= j < idx ==> lex_le(
                    vstd::utf8::encode_utf8((#[trigger] sized_view(out@)[j]).0),
                    vstd::utf8::encode_utf8(e.0@),
                ),
        decreases out@.len() - idx,
    {
        idx = idx + 1;
    }
    proof {
        if idx < out@.len() {
            lemma_lex_total(
                vstd::utf8::encode_utf8(out@[idx as int].0@),
                vstd::utf8::encode_utf8(e.0@),
            );
        }
    }
    let ghost old_view = sized_view(out@);
    let ghost eview = (e.0@, e.1);
    let ghost at = idx as int;
    out.insert(idx, e);
    proof {
        let new_view = sized_view(out@);
        assert(new_view =~= old_view.insert(at, eview));
        assert forall|i: int, j: int| 0 <= i < j < new_view.len() implies lex_le(
            vstd::utf8::encode_utf8((#[trigger] new_view[i]).0),
            vstd::utf8::encode_utf8((#[trigger] new_view[j]).0),
        ) by {
            let ii = if i < at {
                i
            } else {
                i - 1
            };
            let jj = if j < at {
                j
            } else {
                j - 1
            };
            if i == at {
                assert(new_view[j] == old_view[jj]);
                if jj > at {
                    lemma_lex_trans(
                        vstd::utf8::encode_utf8(eview.0),
                        vstd::utf8::encode_utf8(old_view[at].0),
                        vstd::utf8::encode_utf8(old_view[jj].0),
                    );
                }
            } else if j == at {
                assert(new_view[i] == old_view[ii]);
            } else {
                assert(new_view[i] == old_view[ii]);
                assert(new_view[j] == old_view[jj]);
                if ii == jj {
                    lemma_lex_trans(
                        vstd::utf8::encode_utf8(old_view[ii].0),
                        vstd::utf8::encode_utf8(eview.0),
                        vstd::utf8::encode_utf8(old_view[jj].0),
                    );
                }
            }
        }
    }
}

/// Sorts the list by path name.
fn sort_by_name(v: &mut Vec<(String, u64)>)
    ensures
        sorted_by_name(sized_view(final(v)@)),
        sized_view(final(v)@).to_multiset() == sized_view(old(v)@).to_multiset(),
{
    let mut out: Vec<(String, u64)> = Vec::new();
    proof {
        assert(sized_view(out@) =~= Seq::<(Seq<char>, u64)>::empty());
    }
    while v.len() > 0
        invariant
            sorted_by_name(sized_view(out@)),
            sized_view(out@).to_multiset().add(sized_view(v@).to_multiset()) == sized_view(
                old(v)@,
            ).to_multiset(),
        decreases v@.len(),
    {
        let ghost pre = sized_view(v@);
        let x = match v.pop() {
            Some(x) => x,
            None => {
                return ;
            },
        };
        proof {
            assert(pre =~= sized_view(v@).push((x.0@, x.1)));
        }
        insert_by_name(&mut out, x);
    }
    proof {
        assert(sized_view(v@) =~= Seq::<(Seq<char>, u64)>::empty());
        assert(sized_view(out@).to_multiset() =~= sized_view(old(v)@).to_multiset());
    }
    *v = out;
}

/// Inserts an element into a size-sorted list, keeping it sorted.
fn insert_by_size(out: &mut Vec<(String, u64)>, e: (String, u64))
    requires
        sorted_by_size(sized_view(old(out)@)),
    ensures
        sorted_by_size(sized_view(final(out)@)),
        sized_view(final(out)@).to_multiset() == sized_view(old(out)@).to_multiset().insert(
            (e.0@, e.1),
        ),
{
    let mut idx: usize = 0;
    while idx < out.len() && out[idx].1 <= e.1
        invariant
            idx <= out@.len(),
            out == old(out),
            forall|j: int| 0 <= j < idx ==> (#[trigger] sized_view(out@)[j]).1 <= e.1,
        decreases out@.len() - idx,
    {
        idx = idx + 1;
    }
    let ghost old_view = sized_view(out@);
    let ghost eview = (e.0@, e.1);
    let ghost at = idx as int;
    out.insert(idx, e);
    proof {
        let new_view = sized_view(out@);
        assert(new_view =~= old_view.insert(at, eview));
        assert forall|i: int, j: int| 0 <= i < j < new_view.len() implies (
        #[trigger] new_view[i]).1 <= (#[trigger] new_view[j]).1 by {
            let ii = if i < at {
                i
            } else {
                i - 1
            };
            let jj = if j < at {
                j
            } else {
                j - 1
            };
            if i != at && j != at {
                assert(new_view[i] == old_view[ii]);
                assert(new_view[j] == old_view[jj]);
                if ii == jj {
                    assert(old_view[ii].1 <= e.1);
                    assert(e.1 < old_view[jj].1);
                }
            } else if i == at {
                assert(new_view[i] == eview);
                assert(new_view[j] == old_view[jj]);
                assert(jj >= at);
                assert(e.1 < old_view[at].1);
                if jj > at {
                    assert(old_view[at].1 <= old_view[jj].1);
                }
            } else {
                assert(new_view[i] == old_view[ii]);
                assert(new_view[j] == eview);
                assert(ii < at);
                assert(old_view[ii].1 <= e.1);
            }
        }
    }
}

/// Sorts the list ascending by size.
fn sort_by_size(v: &mut Vec<(String, u64)>)
    ensures
        sorted_by_size(sized_view(final(v)@)),
        sized_view(final(v)@).to_multiset() == sized_view(old(v)@).to_multiset(),
        final(v)@.len() == old(v)@.len(),
    {
    let mut out: Vec<(String, u64)> = Vec::new();
    proof {
        assert(sized_view(out@) =~= Seq::<(Seq<char>, u64)>::empty());
    }
    while v.len() > 0
        invariant
            sorted_by_size(sized_view(out@)),
            sized_view(out@).to_multiset().add(sized_view(v@).to_multiset()) == sized_view(
                old(v)@,
            ).to_multiset(),
        decreases v@.len(),
    {
        let ghost pre = sized_view(v@);
        let x = match v.pop() {
            Some(x) => x,
            None => {
                return ;
            },
        };
        proof {
            assert(pre =~= sized_view(v@).push((x.0@, x.1)));
        }
        insert_by_size(&mut out, x);
    }
    proof {
        assert(sized_view(v@) =~= Seq::<(Seq<char>, u64)>::empty());
        assert(sized_view(out@).to_multiset() =~= sized_view(old(v)@).to_multiset());
        assert(sized_view(out@).to_multiset().len() == sized_view(old(v)@).to_multiset().len());
    }
    *v = out;
}

} // verus!
