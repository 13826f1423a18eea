//! What a scan of the rollout files gathers, one file at a time.
use vstd::prelude::*;
use crate::counts::{
    can_count, counted, increment_provider_count, ProviderCounts,
};
use crate::json::{jv, Json, JsonValue};
use crate::paths::{desktop_path, to_desktop_workspace_path};
use crate::records::{
    file_has_user_event, is_session_meta_record, record_provider, record_provider_spec,
    session_id_cwd_spec, session_id_spec, session_meta_id, session_meta_id_and_cwd,
    session_meta_spec, user_event_spec, with_model_provider, with_provider_spec,
};
use crate::rollout::RolloutChange;
use crate::text::{chars_of, contains_chars, contains_text, sorted_unique, strictly_sorted, views};

verus! {

/// A set of thread ids, in the order they were first added.
pub struct IdSet {
    items: Vec<String>,
}

impl View for IdSet {
    type V = Seq<Seq<char>>;

    closed spec fn view(&self) -> Seq<Seq<char>> {
        views(self.items@)
    }
}

/// No value twice.
pub open spec fn no_dups(s: Seq<Seq<char>>) -> bool {
    forall|i: int, j: int| 0 <= i < j < s.len() ==> s[i] != s[j]
}

/// `s` with `x` added at the end unless it holds it already.
pub open spec fn set_add(s: Seq<Seq<char>>, x: Seq<char>) -> Seq<Seq<char>> {
    if s.contains(x) {
        s
    } else {
        s.push(x)
    }
}

impl IdSet {
    pub open spec fn wf(&self) -> bool {
        no_dups(self@)
    }

    pub fn new() -> (r: IdSet)
        ensures
            r.wf(),
            r@.len() == 0,
    {
        let r = IdSet { items: Vec::new() };
        assert(r@ =~= Seq::<Seq<char>>::empty());
        r
    }

    pub fn len(&self) -> (r: usize)
        ensures
            r == self@.len(),
    {
        self.items.len()
    }

    /// The id at position `i`.
    pub fn item(&self, i: usize) -> (r: String)
        requires
            i < self@.len(),
        ensures
            r@ == self@[i as int],
    {
        self.items[i].clone()
    }

    pub fn contains(&self, x: &str) -> (r: bool)
        ensures
            r == self@.contains(x@),
    {
        let xs = String::from_str(x);
        let mut i: usize = 0;
        while i < self.items.len()
            invariant
                i <= self@.len(),
                xs@ == x@,
                self@.len() == self.items@.len(),
                forall|k: int| 0 <= k < i ==> self@[k] != x@,
            decreases self@.len() - i,
        {
            assert(self@[i as int] == self.items@[i as int]@);
            if self.items[i] == xs {
                return true;
            }
            i = i + 1;
        }
        false
    }

    /// Adds an id (`HashSet::insert`).
    pub fn insert(&mut self, x: String)
        requires
            old(self).wf(),
        ensures
            final(self).wf(),
            final(self)@ == set_add(old(self)@, x@),
    {
        if !self.contains(x.as_str()) {
            let ghost before = self@;
            self.items.push(x);
            assert(self@ =~= before.push(x@));
        }
    }
}

/// The keys of a list of pairs.
pub open spec fn pair_keys(e: Seq<(Seq<char>, Seq<char>)>) -> Seq<Seq<char>> {
    e.map_values(|p: (Seq<char>, Seq<char>)| p.0)
}

/// The pairs with `k` mapped to `v`: the value replaced where `k` is a key,
/// else the pair added at the end.
pub open spec fn map_put(e: Seq<(Seq<char>, Seq<char>)>, k: Seq<char>, v: Seq<char>) -> Seq<
    (Seq<char>, Seq<char>),
> {
    if exists|i: int| 0 <= i < e.len() && (#[trigger] e[i]).0 == k {
        e.update(choose|i: int| 0 <= i < e.len() && (#[trigger] e[i]).0 == k, (k, v))
    } else {
        e.push((k, v))
    }
}

/// Working directories by thread id (a `HashMap`), each id once, in the
/// order the ids were first added.
pub struct ThreadCwdMap {
    entries: Vec<(String, String)>,
}

impl View for ThreadCwdMap {
    type V = Seq<(Seq<char>, Seq<char>)>;

    closed spec fn view(&self) -> Seq<(Seq<char>, Seq<char>)> {
        self.entries@.map_values(|p: (String, String)| (p.0@, p.1@))
    }
}

impl ThreadCwdMap {
    pub open spec fn wf(&self) -> bool {
        no_dups(pair_keys(self@))
    }

    pub fn new() -> (r: ThreadCwdMap)
        ensures
            r.wf(),
            r@.len() == 0,
    {
        let r = ThreadCwdMap { entries: Vec::new() };
        assert(r@ =~= Seq::<(Seq<char>, Seq<char>)>::empty());
        r
    }

    pub fn len(&self) -> (r: usize)
        ensures
            r == self@.len(),
    {
        self.entries.len()
    }

    /// The pair at position `i`.
    pub fn entry(&self, i: usize) -> (r: (String, String))
        requires
            i < self@.len(),
        ensures
            r.0@ == self@[i as int].0,
            r.1@ == self@[i as int].1,
    {
        (self.entries[i].0.clone(), self.entries[i].1.clone())
    }

    /// Maps `k` to `v` (`HashMap::insert`).
    pub fn insert(&mut self, k: String, v: String)
        requires
            old(self).wf(),
        ensures
            final(self).wf(),
            final(self)@ == map_put(old(self)@, k@, v@),
    {
        let ghost e = self@;
        let mut i: usize = 0;
        while i < self.entries.len()
            invariant
                i <= e.len(),
                e == self@,
                e == old(self)@,
                no_dups(pair_keys(e)),
                self@.len() == self.entries@.len(),
                forall|j: int| 0 <= j < i ==> (#[trigger] e[j]).0 != k@,
            decreases e.len() - i,
        {
            assert(e[i as int].0 == self.entries@[i as int].0@);
            if self.entries[i].0 == k {
                proof {
                    let c = choose|c: int| 0 <= c < e.len() && (#[trigger] e[c]).0 == k@;
                    assert(pair_keys(e)[c] == e[c].0);
                    assert(pair_keys(e)[i as int] == e[i as int].0);
                    if c < i {
                        assert(pair_keys(e)[c] != pair_keys(e)[i as int]);
                    } else if c > i {
                        assert(pair_keys(e)[i as int] != pair_keys(e)[c]);
                    }
                }
                self.entries.set(i, (k, v));
                proof {
                    assert(self@ =~= map_put(e, k@, v@));
                    assert(pair_keys(self@) =~= pair_keys(e));
                }
                return;
            }
            i = i + 1;
        }
        self.entries.push((k, v));
        proof {
            assert(self@ =~= e.push((k@, v@)));
            assert forall|a: int, b: int|
                0 <= a < b < pair_keys(self@).len() implies pair_keys(self@)[a] != pair_keys(
                self@,
            )[b] by {
                if b == e.len() {
                    assert(pair_keys(self@)[a] == e[a].0);
                } else {
                    assert(pair_keys(self@)[a] == pair_keys(e)[a]);
                    assert(pair_keys(self@)[b] == pair_keys(e)[b]);
                }
            }
        }
    }
}

/// Everything a scan of the rollout files gathers.
pub struct RolloutCollection {
    /// The first-line rewrites that a synchronisation would make.
    pub changes: Vec<RolloutChange>,
    pub provider_counts: ProviderCounts,
    /// Counts of the rollouts that hold `encrypted_content`.
    pub encrypted_content_counts: ProviderCounts,
    /// Rollouts that could not be read because another program held them.
    pub locked_paths: Vec<String>,
    pub user_event_thread_ids: IdSet,
    pub thread_cwd_by_id: ThreadCwdMap,
}

impl RolloutCollection {
    pub open spec fn wf(&self) -> bool {
        &&& self.provider_counts.wf()
        &&& self.encrypted_content_counts.wf()
        &&& self.user_event_thread_ids.wf()
        &&& self.thread_cwd_by_id.wf()
    }

    pub fn new() -> (r: RolloutCollection)
        ensures
            r.wf(),
            r.changes@.len() == 0,
            r.locked_paths@.len() == 0,
            r.provider_counts.sessions@.len() == 0,
            r.provider_counts.archived_sessions@.len() == 0,
            r.encrypted_content_counts.sessions@.len() == 0,
            r.encrypted_content_counts.archived_sessions@.len() == 0,
            r.user_event_thread_ids@.len() == 0,
            r.thread_cwd_by_id@.len() == 0,
    {
        RolloutCollection {
            changes: Vec::new(),
            provider_counts: ProviderCounts::new(),
            encrypted_content_counts: ProviderCounts::new(),
            locked_paths: Vec::new(),
            user_event_thread_ids: IdSet::new(),
            thread_cwd_by_id: ThreadCwdMap::new(),
        }
    }

    /// Notes a rollout that another program held open.
    pub fn note_locked(&mut self, path: String)
        ensures
            final(self).locked_paths@ == old(self).locked_paths@.push(path),
            final(self).changes@ == old(self).changes@,
            final(self).provider_counts == old(self).provider_counts,
            final(self).encrypted_content_counts == old(self).encrypted_content_counts,
            final(self).user_event_thread_ids == old(self).user_event_thread_ids,
            final(self).thread_cwd_by_id == old(self).thread_cwd_by_id,
    {
        self.locked_paths.push(path);
    }

    /// Notes a planned first-line rewrite.
    pub fn push_change(&mut self, change: RolloutChange)
        ensures
            final(self).changes@ == old(self).changes@.push(change),
            final(self).locked_paths@ == old(self).locked_paths@,
            final(self).provider_counts == old(self).provider_counts,
            final(self).encrypted_content_counts == old(self).encrypted_content_counts,
            final(self).user_event_thread_ids == old(self).user_event_thread_ids,
            final(self).thread_cwd_by_id == old(self).thread_cwd_by_id,
    {
        self.changes.push(change);
    }

    /// Ends the scan: the locked paths sorted, each once.
    pub fn finish(&mut self)
        ensures
            strictly_sorted(views(final(self).locked_paths@)),
            forall|p: Seq<char>|
                views(final(self).locked_paths@).contains(p) <==> views(
                    old(self).locked_paths@,
                ).contains(p),
            final(self).changes@ == old(self).changes@,
            final(self).provider_counts == old(self).provider_counts,
            final(self).encrypted_content_counts == old(self).encrypted_content_counts,
            final(self).user_event_thread_ids == old(self).user_event_thread_ids,
            final(self).thread_cwd_by_id == old(self).thread_cwd_by_id,
    {
        self.locked_paths = sorted_unique(&self.locked_paths);
    }

    /// Takes in one rollout file of the given scope (`sessions` or
    /// `archived_sessions`): its text, the record parsed from its first line
    /// and the records parsed from its non-blank lines.  A file whose first
    /// record is not a `session_meta` record is passed over.  Otherwise the
    /// file is counted for its provider, its thread's working directory and
    /// user activity are noted, and, when a target provider is given and
    /// differs, the first record rewritten for that provider is returned.
    pub fn observe_rollout(
        &mut self,
        scope: &str,
        content: &str,
        first_record: &Json,
        records: &Vec<Json>,
        target: Option<&str>,
    ) -> (r: Option<Json>)
        requires
            old(self).wf(),
            first_record.wf(),
            can_count(old(self).provider_counts, record_provider_spec(jv(*first_record))),
            can_count(
                old(self).encrypted_content_counts,
                record_provider_spec(jv(*first_record)),
            ),
        ensures
            final(self).wf(),
            final(self).changes@ == old(self).changes@,
            final(self).locked_paths@ == old(self).locked_paths@,
            !session_meta_spec(jv(*first_record)) ==> {
                &&& r is None
                &&& final(self).provider_counts == old(self).provider_counts
                &&& final(self).encrypted_content_counts == old(self).encrypted_content_counts
                &&& final(self).user_event_thread_ids == old(self).user_event_thread_ids
                &&& final(self).thread_cwd_by_id == old(self).thread_cwd_by_id
            },
            session_meta_spec(jv(*first_record)) ==> {
                let p = record_provider_spec(jv(*first_record));
                &&& counted(old(self).provider_counts, final(self).provider_counts, scope@, p)
                &&& if contains_text(content@, "encrypted_content"@) {
                    counted(
                        old(self).encrypted_content_counts,
                        final(self).encrypted_content_counts,
                        scope@,
                        p,
                    )
                } else {
                    final(self).encrypted_content_counts == old(self).encrypted_content_counts
                }
                &&& final(self).thread_cwd_by_id@ == match session_id_cwd_spec(
                    jv(*first_record),
                ) {
                    Some((id, cwd)) => map_put(
                        old(self).thread_cwd_by_id@,
                        id,
                        desktop_path(cwd),
                    ),
                    None => old(self).thread_cwd_by_id@,
                }
                &&& final(self).user_event_thread_ids@ == match session_id_spec(
                    jv(*first_record),
                ) {
                    Some(id) => if exists|i: int|
                        0 <= i < records@.len() && user_event_spec(jv(#[trigger] records@[i])) {
                        set_add(old(self).user_event_thread_ids@, id)
                    } else {
                        old(self).user_event_thread_ids@
                    },
                    None => old(self).user_event_thread_ids@,
                }
                &&& match target {
                    Some(t) => if p != t@ {
                        match r {
                            Some(j) => with_provider_spec(jv(*first_record), t@) == Some(jv(j)),
                            None => with_provider_spec(jv(*first_record), t@) is None,
                        }
                    } else {
                        r is None
                    },
                    None => r is None,
                }
            },
    {
        if !is_session_meta_record(first_record) {
            return None;
        }
        let provider = record_provider(first_record);
        increment_provider_count(&mut self.provider_counts, scope, provider.as_str());
        match session_meta_id_and_cwd(first_record) {
            Some((thread_id, cwd)) => {
                let desktop = to_desktop_workspace_path(cwd.as_str());
                self.thread_cwd_by_id.insert(thread_id, desktop);
            },
            None => {},
        }
        let needle = chars_of("encrypted_content");
        if contains_chars(chars_of(content).as_slice(), needle.as_slice()) {
            increment_provider_count(&mut self.encrypted_content_counts, scope, provider.as_str());
        }
        match session_meta_id(first_record) {
            Some(thread_id) => {
                if file_has_user_event(records) {
                    self.user_event_thread_ids.insert(thread_id);
                }
            },
            None => {},
        }
        match target {
            Some(t) => {
                if provider != String::from_str(t) {
                    with_model_provider(first_record, t)
                } else {
                    None
                }
            },
            None => None,
        }
    }
}

} // verus!
