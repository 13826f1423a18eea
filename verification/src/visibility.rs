//! How visible each workspace root is in Codex Desktop: which of the
//! interactive threads (listed from the most recent) belong to it, at which
//! ranks, and with which providers.
use vstd::prelude::*;
use crate::counts::{keys_of, CountMap};
use crate::paths::{
    desktop_path, normalize_comparable_path, normalize_spec, to_desktop_workspace_path,
    verbatim_prefix,
};
use crate::text::{chars_of, decimal, has_prefix, join, join_strings, push_decimal, views};

verus! {

// ------------------------------------------------------------------
// Rank preview
// ------------------------------------------------------------------

/// The decimal texts of the ranks.
pub open spec fn rank_texts(ranks: Seq<u64>) -> Seq<Seq<char>> {
    ranks.map_values(|r: u64| decimal(r as nat))
}

/// The first twelve ranks joined by `, `, followed by ` (+N more)` when
/// `N` more ranks are left out.
pub open spec fn rank_preview_spec(ranks: Seq<u64>) -> Seq<char> {
    let shown = rank_texts(
        ranks.take(
            if ranks.len() < 12 {
                ranks.len() as int
            } else {
                12
            },
        ),
    );
    if ranks.len() > 12 {
        join(shown, ", "@) + " (+"@ + decimal((ranks.len() - 12) as nat) + " more)"@
    } else {
        join(shown, ", "@)
    }
}

pub fn format_rank_preview(ranks: &[u64]) -> (r: String)
    ensures
        r@ == rank_preview_spec(ranks@),
{
    let shown_len: usize = if ranks.len() < 12 {
        ranks.len()
    } else {
        12
    };
    let mut preview: Vec<String> = Vec::new();
    let mut i: usize = 0;
    while i < shown_len
        invariant
            i <= shown_len <= ranks@.len(),
            views(preview@) == rank_texts(ranks@.take(i as int)),
        decreases shown_len - i,
    {
        let mut t = String::new();
        push_decimal(&mut t, ranks[i]);
        let ghost before = views(preview@);
        preview.push(t);
        assert(views(preview@) =~= before.push(decimal(ranks@[i as int] as nat)));
        i = i + 1;
        assert(rank_texts(ranks@.take(i as int)) =~= rank_texts(ranks@.take(i - 1)).push(
            decimal(ranks@[i - 1] as nat),
        ));
    }
    let joined = join_strings(&preview, ", ");
    let remaining: usize = ranks.len() - shown_len;
    if remaining > 0 {
        let mut out = joined;
        out.append(" (+");
        push_decimal(&mut out, remaining as u64);
        out.append(" more)");
        out
    } else {
        joined
    }
}

// ------------------------------------------------------------------
// Visibility
// ------------------------------------------------------------------

/// One interactive thread, in rank order: its working directory and
/// provider (`None` when the column is null).
pub struct ThreadRow {
    pub cwd: String,
    pub provider: Option<String>,
}

/// The provider shown for a thread: `(missing)` when null or empty.
pub open spec fn row_provider(p: Option<String>) -> Seq<char> {
    match p {
        Some(s) => if s@.len() == 0 {
            "(missing)"@
        } else {
            s@
        },
        None => "(missing)"@,
    }
}

/// The comparable form of a thread's directory (empty when blank).
pub open spec fn row_key(cwd: Seq<char>) -> Seq<char> {
    match normalize_spec(cwd) {
        Some(n) => n,
        None => Seq::empty(),
    }
}

/// The ranks (1-based positions) of the threads among the first `k` whose
/// directory has the comparable form `n`.
pub open spec fn match_ranks(rows: Seq<ThreadRow>, n: Seq<char>, k: nat) -> Seq<u64>
    decreases k,
{
    if k == 0 {
        Seq::empty()
    } else {
        let prev = match_ranks(rows, n, (k - 1) as nat);
        if row_key(rows[k - 1].cwd@) == n {
            prev.push(k as u64)
        } else {
            prev
        }
    }
}

/// Among the first `k` threads of the root, those stored with exactly the
/// root's spelling (as stored or in desktop form).
pub open spec fn exact_matches(rows: Seq<ThreadRow>, n: Seq<char>, exact: Seq<char>, k: nat) -> nat
    decreases k,
{
    if k == 0 {
        0
    } else {
        exact_matches(rows, n, exact, (k - 1) as nat) + if row_key(rows[k - 1].cwd@) == n && (
        rows[k - 1].cwd@ == exact || desktop_path(rows[k - 1].cwd@) == exact) {
            1nat
        } else {
            0nat
        }
    }
}

/// Among the first `k` threads of the root, those stored with a verbatim
/// prefix.
pub open spec fn verbatim_matches(rows: Seq<ThreadRow>, n: Seq<char>, k: nat) -> nat
    decreases k,
{
    if k == 0 {
        0
    } else {
        verbatim_matches(rows, n, (k - 1) as nat) + if row_key(rows[k - 1].cwd@) == n
            && verbatim_prefix().is_prefix_of(rows[k - 1].cwd@) {
            1nat
        } else {
            0nat
        }
    }
}

/// Among the first `k` threads of the root, those of provider `p`.
pub open spec fn provider_tally(rows: Seq<ThreadRow>, n: Seq<char>, p: Seq<char>, k: nat) -> nat
    decreases k,
{
    if k == 0 {
        0
    } else {
        provider_tally(rows, n, p, (k - 1) as nat) + if row_key(rows[k - 1].cwd@) == n
            && row_provider(rows[k - 1].provider) == p {
            1nat
        } else {
            0nat
        }
    }
}

/// The number of ranks at most `limit`.
pub open spec fn count_at_most(ranks: Seq<u64>, limit: u64) -> nat
    decreases ranks.len(),
{
    if ranks.len() == 0 {
        0
    } else {
        count_at_most(ranks.drop_last(), limit) + if ranks.last() <= limit {
            1nat
        } else {
            0nat
        }
    }
}

/// The roots whose desktop form is not blank, in order.
pub open spec fn visible_roots(roots: Seq<Seq<char>>) -> Seq<Seq<char>>
    decreases roots.len(),
{
    if roots.len() == 0 {
        Seq::empty()
    } else {
        let prev = visible_roots(roots.drop_last());
        if normalize_spec(desktop_path(roots.last())) is Some {
            prev.push(roots.last())
        } else {
            prev
        }
    }
}

/// The visibility of one workspace root.
pub struct ProjectVisibility {
    pub root: String,
    pub interactive_threads: u64,
    /// Threads among the first fifty.
    pub first_page_threads: u64,
    pub exact_cwd_matches: u64,
    pub verbatim_cwd_rows: u64,
    pub top_rank: Option<u64>,
    pub rank_preview: String,
    pub provider_counts: CountMap,
}

/// `v` is the visibility of `root` (a root whose desktop form is not blank)
/// among the threads.
pub open spec fn visibility_of(v: ProjectVisibility, root: Seq<char>, rows: Seq<ThreadRow>) -> bool {
    let exact = desktop_path(root);
    let n = normalize_spec(exact)->Some_0;
    let ranks = match_ranks(rows, n, rows.len());
    &&& v.root@ == exact
    &&& v.interactive_threads == ranks.len()
    &&& v.first_page_threads == count_at_most(ranks, 50)
    &&& v.exact_cwd_matches == exact_matches(rows, n, exact, rows.len())
    &&& v.verbatim_cwd_rows == verbatim_matches(rows, n, rows.len())
    &&& v.top_rank == if ranks.len() > 0 {
        Some(ranks[0])
    } else {
        None
    }
    &&& v.rank_preview@ == rank_preview_spec(ranks)
    &&& v.provider_counts.wf()
    &&& forall|p: Seq<char>| v.provider_counts.count(p) == provider_tally(rows, n, p, rows.len())
    &&& forall|p: Seq<char>|
        keys_of(v.provider_counts@).contains(p) <==> provider_tally(rows, n, p, rows.len()) > 0
}

proof fn lemma_tally_le(rows: Seq<ThreadRow>, n: Seq<char>, p: Seq<char>, k: nat)
    ensures
        provider_tally(rows, n, p, k) <= k,
    decreases k,
{
    if k > 0 {
        lemma_tally_le(rows, n, p, (k - 1) as nat);
    }
}

fn row_provider_exec(p: &Option<String>) -> (r: String)
    ensures
        r@ == row_provider(*p),
{
    match p {
        Some(s) => {
            if s.as_str().is_empty() {
                String::from_str("(missing)")
            } else {
                s.clone()
            }
        },
        None => String::from_str("(missing)"),
    }
}

fn visibility_for(
    root: &String,
    rows: &Vec<ThreadRow>,
    keys: &Vec<String>,
    desktops: &Vec<String>,
) -> (r: Option<ProjectVisibility>)
    requires
        keys@.len() == rows@.len(),
        desktops@.len() == rows@.len(),
        forall|i: int| 0 <= i < rows@.len() ==> (#[trigger] keys@[i])@ == row_key(rows@[i].cwd@),
        forall|i: int|
            0 <= i < rows@.len() ==> (#[trigger] desktops@[i])@ == desktop_path(rows@[i].cwd@),
    ensures
        r is None <==> normalize_spec(desktop_path(root@)) is None,
        r matches Some(v) ==> visibility_of(v, root@, rows@),
{
    let exact_root = to_desktop_workspace_path(root.as_str());
    let normalized_root = match normalize_comparable_path(exact_root.as_str()) {
        Some(n) => n,
        None => {
            return None;
        },
    };
    let ghost n = normalized_root@;
    let verb: Vec<char> = vec!['\\', '\\', '?', '\\'];
    let mut ranks: Vec<u64> = Vec::new();
    let mut provider_counts = CountMap::new();
    let mut first_page: u64 = 0;
    let mut exact_count: u64 = 0;
    let mut verbatim_count: u64 = 0;
    let mut i: usize = 0;
    while i < rows.len()
        invariant
            i <= rows@.len(),
            keys@.len() == rows@.len(),
            desktops@.len() == rows@.len(),
            forall|k: int| 0 <= k < rows@.len() ==> (#[trigger] keys@[k])@ == row_key(rows@[k].cwd@),
            forall|k: int|
                0 <= k < rows@.len() ==> (#[trigger] desktops@[k])@ == desktop_path(rows@[k].cwd@),
            n == normalized_root@,
            exact_root@ == desktop_path(root@),
            verb@ == verbatim_prefix(),
            ranks@ == match_ranks(rows@, n, i as nat),
            first_page == count_at_most(ranks@, 50),
            first_page <= ranks@.len(),
            ranks@.len() <= i,
            exact_count == exact_matches(rows@, n, exact_root@, i as nat),
            exact_count <= i,
            verbatim_count == verbatim_matches(rows@, n, i as nat),
            verbatim_count <= i,
            provider_counts.wf(),
            forall|p: Seq<char>| provider_counts.count(p) == provider_tally(rows@, n, p, i as nat),
            forall|p: Seq<char>|
                keys_of(provider_counts@).contains(p) <==> provider_tally(rows@, n, p, i as nat)
                    > 0,
        decreases rows@.len() - i,
    {
        if keys[i] == normalized_root {
            let rank: u64 = (i as u64) + 1;
            let ghost before = ranks@;
            ranks.push(rank);
            assert(ranks@.drop_last() =~= before);
            if rank <= 50 {
                first_page = first_page + 1;
            }
            let provider = row_provider_exec(&rows[i].provider);
            proof {
                lemma_tally_le(rows@, n, provider@, i as nat);
            }
            provider_counts.increment(provider.as_str());
            proof {
                assert forall|p: Seq<char>| keys_of(provider_counts@).contains(p) <==> provider_tally(
                    rows@,
                    n,
                    p,
                    (i + 1) as nat,
                ) > 0 by {}
            }
            if rows[i].cwd == exact_root || desktops[i] == exact_root {
                exact_count = exact_count + 1;
            }
            if has_prefix(chars_of(rows[i].cwd.as_str()).as_slice(), verb.as_slice()) {
                verbatim_count = verbatim_count + 1;
            }
        }
        i = i + 1;
    }
    let top_rank = if ranks.len() > 0 {
        Some(ranks[0])
    } else {
        None
    };
    let rank_preview = format_rank_preview(ranks.as_slice());
    Some(
        ProjectVisibility {
            root: exact_root,
            interactive_threads: ranks.len() as u64,
            first_page_threads: first_page,
            exact_cwd_matches: exact_count,
            verbatim_cwd_rows: verbatim_count,
            top_rank,
            rank_preview,
            provider_counts,
        },
    )
}

/// The visibility of each workspace root whose desktop form is not blank,
/// given the interactive threads from the most recent.
pub fn read_project_visibility(roots: &Vec<String>, rows: &Vec<ThreadRow>) -> (r: Vec<
    ProjectVisibility,
>)
    ensures
        r@.len() == visible_roots(views(roots@)).len(),
        forall|i: int|
            0 <= i < r@.len() ==> visibility_of(
                #[trigger] r@[i],
                visible_roots(views(roots@))[i],
                rows@,
            ),
{
    let mut keys: Vec<String> = Vec::new();
    let mut desktops: Vec<String> = Vec::new();
    let mut j: usize = 0;
    while j < rows.len()
        invariant
            j <= rows@.len(),
            keys@.len() == j,
            desktops@.len() == j,
            forall|i: int| 0 <= i < j ==> (#[trigger] keys@[i])@ == row_key(rows@[i].cwd@),
            forall|i: int| 0 <= i < j ==> (#[trigger] desktops@[i])@ == desktop_path(rows@[i].cwd@),
        decreases rows@.len() - j,
    {
        let key = match normalize_comparable_path(rows[j].cwd.as_str()) {
            Some(k) => k,
            None => String::new(),
        };
        keys.push(key);
        desktops.push(to_desktop_workspace_path(rows[j].cwd.as_str()));
        j = j + 1;
    }
    let ghost rs = views(roots@);
    let mut out: Vec<ProjectVisibility> = Vec::new();
    let mut i: usize = 0;
    while i < roots.len()
        invariant
            i <= roots@.len(),
            rs == views(roots@),
            keys@.len() == rows@.len(),
            desktops@.len() == rows@.len(),
            forall|k: int| 0 <= k < rows@.len() ==> (#[trigger] keys@[k])@ == row_key(rows@[k].cwd@),
            forall|k: int|
                0 <= k < rows@.len() ==> (#[trigger] desktops@[k])@ == desktop_path(rows@[k].cwd@),
            out@.len() == visible_roots(rs.take(i as int)).len(),
            forall|k: int|
                0 <= k < out@.len() ==> visibility_of(
                    #[trigger] out@[k],
                    visible_roots(rs.take(i as int))[k],
                    rows@,
                ),
        decreases roots@.len() - i,
    {
        assert(rs.take(i + 1).drop_last() =~= rs.take(i as int));
        assert(rs.take(i + 1).last() == roots@[i as int]@);
        match visibility_for(&roots[i], rows, &keys, &desktops) {
            Some(v) => {
                out.push(v);
            },
            None => {},
        }
        i = i + 1;
    }
    assert(rs.take(roots@.len() as int) =~= rs);
    out
}

} // verus!
