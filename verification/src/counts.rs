//! Per-provider counts of rollout files, kept in key order as a `BTreeMap`
//! would, and the statistics and warning built from them.
use vstd::prelude::*;
use crate::text::{
    chars_of, decimal, join, join_strings, lemma_insert_sorted, lemma_lex_irreflexive,
    lemma_lex_total, lemma_lex_transitive, lemma_sorted_unique, lex_less, lex_lt, push_decimal,
    sorted_unique, strictly_sorted, views,
};

verus! {

/// The keys of a list of entries.
pub open spec fn keys_of(e: Seq<(Seq<char>, u64)>) -> Seq<Seq<char>> {
    e.map_values(|x: (Seq<char>, u64)| x.0)
}

/// The count that a list of entries holds for `k`, or 0.
pub open spec fn count_in(e: Seq<(Seq<char>, u64)>, k: Seq<char>) -> nat {
    if exists|i: int| 0 <= i < e.len() && (#[trigger] e[i]).0 == k {
        e[choose|i: int| 0 <= i < e.len() && (#[trigger] e[i]).0 == k].1 as nat
    } else {
        0
    }
}

/// The sum of all counts.
pub open spec fn sum_counts(e: Seq<(Seq<char>, u64)>) -> nat
    decreases e.len(),
{
    if e.len() == 0 {
        0
    } else {
        sum_counts(e.drop_last()) + e.last().1 as nat
    }
}

/// A map from provider to count, its entries in increasing key order.
pub struct CountMap {
    entries: Vec<(String, u64)>,
}

impl View for CountMap {
    type V = Seq<(Seq<char>, u64)>;

    closed spec fn view(&self) -> Seq<(Seq<char>, u64)> {
        self.entries@.map_values(|x: (String, u64)| (x.0@, x.1))
    }
}

proof fn lemma_count_at(e: Seq<(Seq<char>, u64)>, i: int)
    requires
        strictly_sorted(keys_of(e)),
        0 <= i < e.len(),
    ensures
        count_in(e, e[i].0) == e[i].1,
{
    let j = choose|j: int| 0 <= j < e.len() && (#[trigger] e[j]).0 == e[i].0;
    if j != i {
        lemma_sorted_unique(keys_of(e), i, j);
    }
}

proof fn lemma_count_absent(e: Seq<(Seq<char>, u64)>, k: Seq<char>)
    requires
        !keys_of(e).contains(k),
    ensures
        count_in(e, k) == 0,
{
    if exists|i: int| 0 <= i < e.len() && (#[trigger] e[i]).0 == k {
        let i = choose|i: int| 0 <= i < e.len() && (#[trigger] e[i]).0 == k;
        assert(keys_of(e)[i] == k);
    }
}

proof fn lemma_sorted_same_elements(a: Seq<Seq<char>>, b: Seq<Seq<char>>)
    requires
        strictly_sorted(a),
        strictly_sorted(b),
        forall|x: Seq<char>| a.contains(x) <==> b.contains(x),
    ensures
        a == b,
    decreases a.len(),
{
    if a.len() == 0 {
        if b.len() > 0 {
            assert(b.contains(b[0]));
        }
        assert(a =~= b);
    } else {
        assert(a.contains(a[0]));
        assert(b.len() > 0);
        let x = a[0];
        let y = b[0];
        assert(b.contains(y));
        let j = choose|j: int| 0 <= j < b.len() && b[j] == x;
        let i = choose|i: int| 0 <= i < a.len() && a[i] == y;
        if x != y {
            assert(i > 0 && j > 0);
            assert(lex_lt(a[0], a[i]));
            assert(lex_lt(b[0], b[j]));
            lemma_lex_transitive(x, y, x);
            lemma_lex_irreflexive(x);
        }
        let a1 = a.drop_first();
        let b1 = b.drop_first();
        assert forall|z: Seq<char>| a1.contains(z) <==> b1.contains(z) by {
            if a1.contains(z) {
                let k = choose|k: int| 0 <= k < a1.len() && a1[k] == z;
                assert(a[k + 1] == z);
                lemma_sorted_unique(a, 0, k + 1);
                assert(a.contains(z));
                let m = choose|m: int| 0 <= m < b.len() && b[m] == z;
                if m == 0 {
                    assert(false);
                }
                assert(b1[m - 1] == z);
            }
            if b1.contains(z) {
                let k = choose|k: int| 0 <= k < b1.len() && b1[k] == z;
                assert(b[k + 1] == z);
                lemma_sorted_unique(b, 0, k + 1);
                assert(b.contains(z));
                let m = choose|m: int| 0 <= m < a.len() && a[m] == z;
                if m == 0 {
                    assert(false);
                }
                assert(a1[m - 1] == z);
            }
        }
        assert forall|p: int, q: int| 0 <= p < q < a1.len() implies lex_lt(a1[p], a1[q]) by {
            assert(a1[p] == a[p + 1] && a1[q] == a[q + 1]);
        }
        assert forall|p: int, q: int| 0 <= p < q < b1.len() implies lex_lt(b1[p], b1[q]) by {
            assert(b1[p] == b[p + 1] && b1[q] == b[q + 1]);
        }
        lemma_sorted_same_elements(a1, b1);
        assert(a =~= seq![x] + a1);
        assert(b =~= seq![y] + b1);
    }
}

/// Two maps with keys in order that hold the same keys, with the same count
/// for each, are the same map.
pub proof fn lemma_counts_determine_entries(e1: Seq<(Seq<char>, u64)>, e2: Seq<(Seq<char>, u64)>)
    requires
        strictly_sorted(keys_of(e1)),
        strictly_sorted(keys_of(e2)),
        forall|k: Seq<char>| keys_of(e1).contains(k) <==> keys_of(e2).contains(k),
        forall|k: Seq<char>| count_in(e1, k) == count_in(e2, k),
    ensures
        e1 == e2,
{
    lemma_sorted_same_elements(keys_of(e1), keys_of(e2));
    assert(keys_of(e1).len() == keys_of(e2).len());
    assert forall|i: int| 0 <= i < e1.len() implies e1[i] == e2[i] by {
        assert(keys_of(e1)[i] == keys_of(e2)[i]);
        lemma_count_at(e1, i);
        lemma_count_at(e2, i);
        assert(count_in(e1, e1[i].0) == count_in(e2, e2[i].0));
    }
    assert(e1 =~= e2);
}

impl CountMap {
    /// The keys are strictly increasing.
    pub open spec fn wf(&self) -> bool {
        strictly_sorted(keys_of(self@))
    }

    /// The count held for `k`, or 0.
    pub open spec fn count(&self, k: Seq<char>) -> nat {
        count_in(self@, k)
    }

    pub fn new() -> (r: CountMap)
        ensures
            r.wf(),
            r@ == Seq::<(Seq<char>, u64)>::empty(),
    {
        let r = CountMap { entries: Vec::new() };
        assert(r@ =~= Seq::<(Seq<char>, u64)>::empty());
        r
    }

    pub fn len(&self) -> (r: usize)
        ensures
            r == self@.len(),
    {
        self.entries.len()
    }

    /// The entry at position `i`.
    pub fn entry(&self, i: usize) -> (r: (String, u64))
        requires
            i < self@.len(),
        ensures
            r.0@ == self@[i as int].0,
            r.1 == self@[i as int].1,
    {
        (self.entries[i].0.clone(), self.entries[i].1)
    }

    /// The count held for `k`, or 0.
    pub fn get(&self, k: &str) -> (r: u64)
        requires
            self.wf(),
        ensures
            r == self.count(k@),
    {
        let ks = String::from_str(k);
        let mut i: usize = 0;
        while i < self.entries.len()
            invariant
                i <= self@.len(),
                ks@ == k@,
                self.wf(),
                self@.len() == self.entries@.len(),
                forall|j: int| 0 <= j < i ==> (#[trigger] self@[j]).0 != k@,
            decreases self@.len() - i,
        {
            assert(self@[i as int].0 == self.entries@[i as int].0@);
            if self.entries[i].0 == ks {
                assert(self@[i as int].0 == k@);
                proof {
                    lemma_count_at(self@, i as int);
                }
                return self.entries[i].1;
            }
            i = i + 1;
        }
        proof {
            assert forall|j: int| 0 <= j < self@.len() implies keys_of(self@)[j] != k@ by {
                assert(keys_of(self@)[j] == self@[j].0);
            }
            lemma_count_absent(self@, k@);
        }
        0
    }

    /// Adds one to the count of `k` (the `entry(k).or_insert(0) += 1` of a
    /// `BTreeMap`).
    pub fn increment(&mut self, k: &str)
        requires
            old(self).wf(),
            old(self).count(k@) < u64::MAX,
        ensures
            final(self).wf(),
            final(self).count(k@) == old(self).count(k@) + 1,
            forall|j: Seq<char>| j != k@ ==> final(self).count(j) == old(self).count(j),
            forall|j: Seq<char>|
                keys_of(final(self)@).contains(j) <==> (keys_of(old(self)@).contains(j) || j
                    == k@),
    {
        let kc = chars_of(k);
        let ks = String::from_str(k);
        let ghost old_view = self@;
        let mut p: usize = 0;
        while p < self.entries.len() && lex_less(
            chars_of(self.entries[p].0.as_str()).as_slice(),
            kc.as_slice(),
        )
            invariant
                p <= self@.len(),
                self@ == old_view,
                self@.len() == self.entries@.len(),
                kc@ == k@,
                forall|j: int| 0 <= j < p ==> lex_lt(#[trigger] keys_of(self@)[j], k@),
            decreases self@.len() - p,
        {
            assert(keys_of(self@)[p as int] == self@[p as int].0);
            assert(self@[p as int].0 == self.entries@[p as int].0@);
            p = p + 1;
        }
        let equal = p < self.entries.len() && self.entries[p].0 == ks;
        proof {
            if p < self@.len() {
                assert(keys_of(self@)[p as int] == self@[p as int].0);
                assert(self@[p as int].0 == self.entries@[p as int].0@);
            }
        }
        if equal {
            let ghost e = self@;
            proof {
                lemma_count_at(e, p as int);
            }
            let c = self.entries[p].1;
            let name = self.entries[p].0.clone();
            self.entries.set(p, (name, c + 1));
            proof {
                let n = self@;
                assert(n =~= e.update(p as int, (k@, (c + 1) as u64)));
                assert(keys_of(n) =~= keys_of(e));
                lemma_count_at(n, p as int);
                assert forall|j: Seq<char>| j != k@ implies count_in(n, j) == count_in(e, j) by {
                    if keys_of(e).contains(j) {
                        let i = choose|i: int| 0 <= i < keys_of(e).len() && keys_of(e)[i] == j;
                        lemma_count_at(e, i);
                        lemma_count_at(n, i);
                    } else {
                        lemma_count_absent(e, j);
                        lemma_count_absent(n, j);
                    }
                }
            }
        } else {
            let ghost e = self@;
            proof {
                if p < e.len() {
                    lemma_lex_total(keys_of(e)[p as int], k@);
                }
                assert forall|j: int| p <= j < keys_of(e).len() implies lex_lt(
                    k@,
                    #[trigger] keys_of(e)[j],
                ) by {
                    if j > p {
                        lemma_lex_transitive(k@, keys_of(e)[p as int], keys_of(e)[j]);
                    }
                }
                lemma_insert_sorted(keys_of(e), p as int, k@);
                assert forall|j: int| 0 <= j < keys_of(e).len() implies keys_of(e)[j] != k@ by {
                    if j < p {
                        lemma_lex_irreflexive(k@);
                    } else {
                        lemma_lex_irreflexive(k@);
                    }
                }
                lemma_count_absent(e, k@);
            }
            self.entries.insert(p, (String::from_str(k), 1));
            proof {
                let n = self@;
                assert(n =~= e.insert(p as int, (k@, 1u64)));
                assert(keys_of(n) =~= keys_of(e).insert(p as int, k@));
                lemma_count_at(n, p as int);
                assert forall|j: Seq<char>| j != k@ implies count_in(n, j) == count_in(e, j) by {
                    if keys_of(e).contains(j) {
                        let i = choose|i: int| 0 <= i < keys_of(e).len() && keys_of(e)[i] == j;
                        lemma_count_at(e, i);
                        if i < p {
                            assert(n[i] == e[i]);
                            lemma_count_at(n, i);
                        } else {
                            assert(n[i + 1] == e[i]);
                            lemma_count_at(n, i + 1);
                        }
                    } else {
                        lemma_count_absent(e, j);
                        assert forall|m: int| 0 <= m < keys_of(n).len() implies keys_of(n)[m]
                            != j by {
                            if m < p {
                                assert(keys_of(n)[m] == keys_of(e)[m]);
                            } else if m > p {
                                assert(keys_of(n)[m] == keys_of(e)[m - 1]);
                            }
                        }
                        lemma_count_absent(n, j);
                    }
                }
                assert forall|j: Seq<char>| keys_of(n).contains(j) <==> (keys_of(e).contains(j)
                    || j == k@) by {
                    crate::text::lemma_insert_contains(keys_of(e), p as int, k@, j);
                }
            }
        }
    }
}

/// Rollout counts per provider, for active and for archived sessions.
pub struct ProviderCounts {
    pub sessions: CountMap,
    pub archived_sessions: CountMap,
}

impl ProviderCounts {
    pub open spec fn wf(&self) -> bool {
        self.sessions.wf() && self.archived_sessions.wf()
    }

    pub fn new() -> (r: ProviderCounts)
        ensures
            r.wf(),
            r.sessions@.len() == 0,
            r.archived_sessions@.len() == 0,
    {
        ProviderCounts { sessions: CountMap::new(), archived_sessions: CountMap::new() }
    }
}

/// The scope name of archived sessions.
pub open spec fn archived_scope() -> Seq<char> {
    seq!['a', 'r', 'c', 'h', 'i', 'v', 'e', 'd', '_', 's', 'e', 's', 's', 'i', 'o', 'n', 's']
}

/// `after` is `before` with one more rollout of `provider` counted in the
/// given scope.
pub open spec fn counted(before: ProviderCounts, after: ProviderCounts, scope: Seq<char>, provider: Seq<char>) -> bool {
    &&& after.wf()
    &&& scope == archived_scope() ==> {
        &&& after.sessions@ == before.sessions@
        &&& after.archived_sessions.count(provider) == before.archived_sessions.count(provider) + 1
        &&& forall|j: Seq<char>|
            j != provider ==> after.archived_sessions.count(j) == before.archived_sessions.count(j)
        &&& forall|j: Seq<char>|
            keys_of(after.archived_sessions@).contains(j) <==> (keys_of(
                before.archived_sessions@,
            ).contains(j) || j == provider)
    }
    &&& scope != archived_scope() ==> {
        &&& after.archived_sessions@ == before.archived_sessions@
        &&& after.sessions.count(provider) == before.sessions.count(provider) + 1
        &&& forall|j: Seq<char>| j != provider ==> after.sessions.count(j) == before.sessions.count(j)
        &&& forall|j: Seq<char>|
            keys_of(after.sessions@).contains(j) <==> (keys_of(before.sessions@).contains(j) || j
                == provider)
    }
}

/// There is room to count one more rollout of `provider` in either scope.
pub open spec fn can_count(counts: ProviderCounts, provider: Seq<char>) -> bool {
    counts.sessions.count(provider) < u64::MAX && counts.archived_sessions.count(provider) < u64::MAX
}

/// Counts one rollout of `provider`: in the archived counts when the scope
/// is `archived_sessions`, else in the active ones.
pub fn increment_provider_count(counts: &mut ProviderCounts, scope: &str, provider: &str)
    requires
        old(counts).wf(),
        scope@ == archived_scope() ==> old(counts).archived_sessions.count(provider@) < u64::MAX,
        scope@ != archived_scope() ==> old(counts).sessions.count(provider@) < u64::MAX,
    ensures
        counted(*old(counts), *final(counts), scope@, provider@),
{
    let archived = String::from_str("archived_sessions");
    proof {
        reveal_strlit("archived_sessions");
        assert(archived@ =~= archived_scope());
    }
    if String::from_str(scope) == archived {
        counts.archived_sessions.increment(provider);
    } else {
        counts.sessions.increment(provider);
    }
}

/// One line of the provider statistics.
pub struct ProviderStat {
    pub provider: String,
    pub count: u64,
    pub source: String,
}

/// The statistics of a list of entries, all with one source.
pub open spec fn stats_of(e: Seq<(Seq<char>, u64)>, source: Seq<char>) -> Seq<
    (Seq<char>, u64, Seq<char>),
> {
    e.map_values(|x: (Seq<char>, u64)| (x.0, x.1, source))
}

pub open spec fn stat_views(s: Seq<ProviderStat>) -> Seq<(Seq<char>, u64, Seq<char>)> {
    s.map_values(|x: ProviderStat| (x.provider@, x.count, x.source@))
}

fn push_stats(out: &mut Vec<ProviderStat>, counts: &CountMap, source: &str)
    ensures
        stat_views(final(out)@) == stat_views(old(out)@) + stats_of(counts@, source@),
{
    let mut i: usize = 0;
    while i < counts.len()
        invariant
            i <= counts@.len(),
            stat_views(out@) == stat_views(old(out)@) + stats_of(counts@.take(i as int), source@),
        decreases counts@.len() - i,
    {
        let (provider, count) = counts.entry(i);
        let ghost before = out@;
        out.push(ProviderStat { provider, count, source: String::from_str(source) });
        proof {
            assert(counts@.take(i + 1) =~= counts@.take(i as int).push(counts@[i as int]));
            assert(stats_of(counts@.take(i + 1), source@) =~= stats_of(counts@.take(i as int), source@).push(
                (counts@[i as int].0, counts@[i as int].1, source@)));
            assert(stat_views(out@) =~= stat_views(before).push(
                (counts@[i as int].0, counts@[i as int].1, source@)));
        }
        i = i + 1;
        assert(stat_views(out@) =~= stat_views(old(out)@) + stats_of(
            counts@.take(i as int),
            source@,
        ));
    }
    assert(counts@.take(counts@.len() as int) =~= counts@);
}

/// The statistics of active sessions (in key order) and then of archived
/// ones, with the two given sources.
pub fn counts_to_stats(counts: &ProviderCounts, sessions_source: &str, archived_source: &str) -> (r:
    Vec<ProviderStat>)
    ensures
        stat_views(r@) == stats_of(counts.sessions@, sessions_source@) + stats_of(
            counts.archived_sessions@,
            archived_source@,
        ),
{
    let mut out: Vec<ProviderStat> = Vec::new();
    push_stats(&mut out, &counts.sessions, sessions_source);
    push_stats(&mut out, &counts.archived_sessions, archived_source);
    assert(stat_views(Seq::<ProviderStat>::empty()) =~= Seq::empty());
    out
}

/// Rollout statistics: sources `sessions` and `archived_sessions`.
pub fn provider_counts_to_stats(counts: &ProviderCounts) -> (r: Vec<ProviderStat>)
    ensures
        stat_views(r@) == stats_of(counts.sessions@, "sessions"@) + stats_of(
            counts.archived_sessions@,
            "archived_sessions"@,
        ),
{
    counts_to_stats(counts, "sessions", "archived_sessions")
}

/// Statistics of rollouts with encrypted content: sources
/// `encrypted:sessions` and `encrypted:archived_sessions`.
pub fn encrypted_counts_to_stats(counts: &ProviderCounts) -> (r: Vec<ProviderStat>)
    ensures
        stat_views(r@) == stats_of(counts.sessions@, "encrypted:sessions"@) + stats_of(
            counts.archived_sessions@,
            "encrypted:archived_sessions"@,
        ),
{
    counts_to_stats(counts, "encrypted:sessions", "encrypted:archived_sessions")
}

/// `p` is a provider other than the target with encrypted rollouts.
pub open spec fn is_risky(counts: ProviderCounts, target: Seq<char>, p: Seq<char>) -> bool {
    p != target && (exists|i: int|
        0 <= i < counts.sessions@.len() && (#[trigger] counts.sessions@[i]).0 == p
            && counts.sessions@[i].1 > 0 || exists|i: int|
        0 <= i < counts.archived_sessions@.len() && (#[trigger] counts.archived_sessions@[i]).0
            == p && counts.archived_sessions@[i].1 > 0)
}

/// The warning text for `total` encrypted rollouts from `providers`.
pub open spec fn warning_text(total: nat, providers: Seq<Seq<char>>, target: Seq<char>) -> Seq<
    char,
> {
    decimal(total) + " 个 rollout 文件含 encrypted_content，来自 provider: "@ + join(
        providers,
        ", "@,
    ) + "。可见性可以同步到 "@ + target + "，但继续对话或 compact 仍可能失败。"@
}

fn collect_risky(out: &mut Vec<String>, total: &mut u64, counts: &CountMap, target: &str)
    requires
        *old(total) + sum_counts(counts@) <= u64::MAX,
    ensures
        *final(total) == *old(total) + sum_counts(counts@),
        forall|p: Seq<char>|
            views(final(out)@).contains(p) <==> (views(old(out)@).contains(p) || (p != target@
                && exists|i: int|
                0 <= i < counts@.len() && (#[trigger] counts@[i]).0 == p && counts@[i].1 > 0)),
{
    let ts = String::from_str(target);
    let mut i: usize = 0;
    while i < counts.len()
        invariant
            i <= counts@.len(),
            ts@ == target@,
            *total == *old(total) + sum_counts(counts@.take(i as int)),
            *old(total) + sum_counts(counts@) <= u64::MAX,
            forall|p: Seq<char>|
                views(out@).contains(p) <==> (views(old(out)@).contains(p) || (p != target@
                    && exists|j: int|
                    0 <= j < i && (#[trigger] counts@[j]).0 == p && counts@[j].1 > 0)),
        decreases counts@.len() - i,
    {
        proof {
            assert(counts@.take(i + 1).drop_last() =~= counts@.take(i as int));
            lemma_sum_prefix(counts@, i as int + 1);
        }
        let (provider, count) = counts.entry(i);
        *total = *total + count;
        let ghost before = views(out@);
        if provider != ts && count > 0 {
            out.push(provider);
            proof {
                assert(views(out@) =~= before.push(counts@[i as int].0));
            }
        }
        proof {
            assert forall|p: Seq<char>| views(out@).contains(p) <==> (views(old(out)@).contains(p)
                || (p != target@ && exists|j: int|
                0 <= j < i + 1 && (#[trigger] counts@[j]).0 == p && counts@[j].1 > 0)) by {
                if views(out@).contains(p) && !before.contains(p) {
                    let m = choose|m: int| 0 <= m < views(out@).len() && views(out@)[m] == p;
                    assert(m == before.len());
                }
                if before.contains(p) {
                    let m = choose|m: int| 0 <= m < before.len() && before[m] == p;
                    assert(views(out@)[m] == p);
                }
                if p != target@ && p == counts@[i as int].0 && counts@[i as int].1 > 0 {
                    assert(views(out@)[before.len() as int] == p);
                }
            }
        }
        i = i + 1;
    }
    assert(counts@.take(counts@.len() as int) =~= counts@);
}

proof fn lemma_sum_prefix(e: Seq<(Seq<char>, u64)>, i: int)
    requires
        0 <= i <= e.len(),
    ensures
        sum_counts(e.take(i)) <= sum_counts(e),
    decreases e.len() - i,
{
    if i < e.len() {
        lemma_sum_prefix(e, i + 1);
        assert(e.take(i + 1).drop_last() =~= e.take(i));
    } else {
        assert(e.take(i) =~= e);
    }
}

/// The warning shown when rollouts of other providers hold encrypted
/// content: `None` when there is no such provider, else the text with the
/// total of encrypted rollouts and the providers in increasing order.
pub fn build_encrypted_content_warning(counts: &ProviderCounts, target_provider: &str) -> (r:
    Option<String>)
    requires
        sum_counts(counts.sessions@) + sum_counts(counts.archived_sessions@) <= u64::MAX,
    ensures
        r is None <==> !exists|p: Seq<char>| is_risky(*counts, target_provider@, p),
        r matches Some(t) ==> exists|providers: Seq<Seq<char>>|
            {
                &&& strictly_sorted(providers)
                &&& forall|p: Seq<char>|
                    providers.contains(p) <==> is_risky(*counts, target_provider@, p)
                &&& t@ == warning_text(
                    sum_counts(counts.sessions@) + sum_counts(counts.archived_sessions@),
                    providers,
                    target_provider@,
                )
            },
{
    let mut risky: Vec<String> = Vec::new();
    let mut total: u64 = 0;
    collect_risky(&mut risky, &mut total, &counts.sessions, target_provider);
    collect_risky(&mut risky, &mut total, &counts.archived_sessions, target_provider);
    assert(forall|p: Seq<char>| views(risky@).contains(p) <==> is_risky(*counts, target_provider@, p));
    if risky.len() == 0 {
        proof {
            assert forall|p: Seq<char>| !is_risky(*counts, target_provider@, p) by {
                if is_risky(*counts, target_provider@, p) {
                    assert(views(risky@).contains(p));
                }
            }
        }
        return None;
    }
    let providers = sorted_unique(&risky);
    proof {
        let p0 = views(risky@)[0];
        assert(views(risky@).contains(p0));
    }
    let mut text = String::new();
    push_decimal(&mut text, total);
    text.append(" 个 rollout 文件含 encrypted_content，来自 provider: ");
    let joined = join_strings(&providers, ", ");
    text.append(joined.as_str());
    text.append("。可见性可以同步到 ");
    text.append(target_provider);
    text.append("，但继续对话或 compact 仍可能失败。");
    proof {
        assert(text@ =~= warning_text(total as nat, views(providers@), target_provider@));
    }
    Some(text)
}

} // verus!
