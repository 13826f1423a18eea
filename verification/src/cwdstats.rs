//! The working directories of the threads, most used first: the spellings
//! that stored workspace paths are resolved to.
use vstd::prelude::*;
use crate::paths::{normalize_comparable_path, normalize_spec, CwdStat};
use crate::text::{chars_of, lemma_lex_transitive, lex_less, lex_lt};

verus! {

/// The value of a statistic.
pub open spec fn stat_value(s: CwdStat) -> (Seq<char>, Seq<char>, u64, i64) {
    (s.cwd@, s.normalized@, s.count, s.updated_at_ms)
}

pub open spec fn stat_values(s: Seq<CwdStat>) -> Seq<(Seq<char>, Seq<char>, u64, i64)> {
    s.map_values(|x: CwdStat| stat_value(x))
}

/// `a` ranks before `b`: more threads, then more recently updated, then
/// the directory first in text order.
pub open spec fn ranks_before(a: (Seq<char>, Seq<char>, u64, i64), b: (Seq<char>, Seq<char>, u64, i64)) -> bool {
    ||| a.2 > b.2
    ||| (a.2 == b.2 && a.3 > b.3)
    ||| (a.2 == b.2 && a.3 == b.3 && lex_lt(a.0, b.0))
}

/// No statistic ranks before an earlier one.
pub open spec fn ranked(s: Seq<(Seq<char>, Seq<char>, u64, i64)>) -> bool {
    forall|i: int, j: int| 0 <= i < j < s.len() ==> !ranks_before(s[j], s[i])
}

/// The statistics of the rows (directory, thread count, last update) whose
/// directory is not blank, in the rows' order; counts as `u64`.
pub open spec fn cwd_rows_spec(rows: Seq<(Seq<char>, i64, i64)>) -> Seq<(Seq<char>, Seq<char>, u64, i64)>
    decreases rows.len(),
{
    if rows.len() == 0 {
        Seq::empty()
    } else {
        let prev = cwd_rows_spec(rows.drop_last());
        let r = rows.last();
        match normalize_spec(r.0) {
            Some(n) => prev.push((r.0, n, r.1 as u64, r.2)),
            None => prev,
        }
    }
}

proof fn lemma_ranks_before_transitive(
    a: (Seq<char>, Seq<char>, u64, i64),
    b: (Seq<char>, Seq<char>, u64, i64),
    c: (Seq<char>, Seq<char>, u64, i64),
)
    requires
        ranks_before(a, b),
        ranks_before(b, c),
    ensures
        ranks_before(a, c),
{
    if a.2 == b.2 && b.2 == c.2 && a.3 == b.3 && b.3 == c.3 {
        lemma_lex_transitive(a.0, b.0, c.0);
    }
}

fn ranks_before_exec(a: &CwdStat, b: &CwdStat, ac: &Vec<char>, bc: &Vec<char>) -> (r: bool)
    requires
        ac@ == a.cwd@,
        bc@ == b.cwd@,
    ensures
        r == ranks_before(stat_value(*a), stat_value(*b)),
{
    a.count > b.count || (a.count == b.count && a.updated_at_ms > b.updated_at_ms) || (a.count
        == b.count && a.updated_at_ms == b.updated_at_ms && lex_less(ac.as_slice(), bc.as_slice()))
}

/// The statistics of the threads' working directories, given one row
/// (directory, thread count, last update in milliseconds) per directory:
/// blank directories left out, the others with their comparable form,
/// ranked (stably) by count, then last update, then directory.
pub fn read_thread_cwd_stats(rows: &Vec<(String, i64, i64)>) -> (r: Vec<CwdStat>)
    ensures
        ranked(stat_values(r@)),
        stat_values(r@).to_multiset() == cwd_rows_spec(
            rows@.map_values(|x: (String, i64, i64)| (x.0@, x.1, x.2)),
        ).to_multiset(),
{
    broadcast use vstd::seq_lib::group_to_multiset_ensures;

    let ghost rv = rows@.map_values(|x: (String, i64, i64)| (x.0@, x.1, x.2));
    let mut out: Vec<CwdStat> = Vec::new();
    let mut keys: Vec<Vec<char>> = Vec::new();
    let mut i: usize = 0;
    while i < rows.len()
        invariant
            i <= rows@.len(),
            rv == rows@.map_values(|x: (String, i64, i64)| (x.0@, x.1, x.2)),
            keys@.len() == out@.len(),
            forall|k: int| 0 <= k < out@.len() ==> (#[trigger] keys@[k])@ == out@[k].cwd@,
            ranked(stat_values(out@)),
            stat_values(out@).to_multiset() == cwd_rows_spec(rv.take(i as int)).to_multiset(),
        decreases rows@.len() - i,
    {
        assert(rv.take(i + 1).drop_last() =~= rv.take(i as int));
        assert(rv.take(i + 1).last() == (rows@[i as int].0@, rows@[i as int].1, rows@[i as int].2));
        match normalize_comparable_path(rows[i].0.as_str()) {
            Some(normalized) => {
                let stat = CwdStat {
                    cwd: rows[i].0.clone(),
                    normalized,
                    count: rows[i].1 as u64,
                    updated_at_ms: rows[i].2,
                };
                let sc = chars_of(stat.cwd.as_str());
                let ghost sv = stat_values(out@);
                let mut p: usize = 0;
                while p < out.len() && !ranks_before_exec(&stat, &out[p], &sc, &keys[p])
                    invariant
                        p <= out@.len(),
                        sv == stat_values(out@),
                        sc@ == stat.cwd@,
                        keys@.len() == out@.len(),
                        forall|k: int| 0 <= k < out@.len() ==> (#[trigger] keys@[k])@ == out@[k].cwd@,
                        forall|k: int| 0 <= k < p ==> !ranks_before(stat_value(stat), #[trigger] sv[k]),
                    decreases out@.len() - p,
                {
                    p = p + 1;
                }
                proof {
                    assert forall|k: int| p <= k < sv.len() implies !ranks_before(
                        #[trigger] sv[k],
                        stat_value(stat),
                    ) by {
                        if ranks_before(sv[k], stat_value(stat)) {
                            lemma_ranks_before_transitive(sv[k], stat_value(stat), sv[p as int]);
                            if k == p {
                                crate::text::lemma_lex_irreflexive(sv[k].0);
                            }
                        }
                    }
                }
                let ghost x = stat_value(stat);
                let ghost old_keys = keys@;
                out.insert(p, stat);
                keys.insert(p, sc);
                proof {
                    assert(stat_values(out@) =~= sv.insert(p as int, x));
                    assert forall|a: int, b: int|
                        0 <= a < b < stat_values(out@).len() implies !ranks_before(
                        stat_values(out@)[b],
                        stat_values(out@)[a],
                    ) by {
                        let t = stat_values(out@);
                        if b < p {
                            assert(t[a] == sv[a] && t[b] == sv[b]);
                        } else if b == p {
                            assert(t[a] == sv[a]);
                        } else if a < p {
                            assert(t[a] == sv[a] && t[b] == sv[b - 1]);
                        } else if a == p {
                            assert(t[b] == sv[b - 1]);
                        } else {
                            assert(t[a] == sv[a - 1] && t[b] == sv[b - 1]);
                        }
                    }
                    assert forall|k: int| 0 <= k < out@.len() implies (#[trigger] keys@[k])@
                        == out@[k].cwd@ by {
                        if k < p {
                            assert(keys@[k] == old_keys[k]);
                        } else if k > p {
                            assert(keys@[k] == old_keys[k - 1]);
                        }
                    }
                    assert(cwd_rows_spec(rv.take(i + 1)) == cwd_rows_spec(rv.take(i as int)).push(x));
                    vstd::seq_lib::to_multiset_insert(sv, p as int, x);
                    vstd::seq_lib::to_multiset_build(cwd_rows_spec(rv.take(i as int)), x);
                }
            },
            None => {
                assert(cwd_rows_spec(rv.take(i + 1)) == cwd_rows_spec(rv.take(i as int)));
            },
        }
        i = i + 1;
    }
    assert(rv.take(rows@.len() as int) =~= rv);
    out
}

} // verus!
