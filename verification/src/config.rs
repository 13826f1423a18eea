//! What `config.toml` says about providers: the root-level `model_provider`
//! and the `[model_providers.<id>]` tables.
use vstd::prelude::*;
use crate::rollout::{content_lines, nonblank_lines};
use crate::text::{
    chars_of, has_prefix, slice_chars, sorted_unique, string_of, strictly_sorted,
    strip_char_end, strip_char_start, trim, trim_chars, trim_matches, views,
};

verus! {

/// `[model_providers.`
pub open spec fn provider_table_prefix() -> Seq<char> {
    seq!['[', 'm', 'o', 'd', 'e', 'l', '_', 'p', 'r', 'o', 'v', 'i', 'd', 'e', 'r', 's', '.']
}

/// The provider id of a `[model_providers.<id>]` header (quotes around it
/// removed); `None` when the header does not end with `]`.
pub open spec fn header_id(t: Seq<char>) -> Option<Seq<char>> {
    let rest = t.skip(provider_table_prefix().len() as int);
    if rest.len() > 0 && rest.last() == ']' {
        Some(trim_matches(rest.drop_last(), '"'))
    } else {
        None
    }
}

/// `i` is the position of the first `=` of `t`.
pub open spec fn is_first_eq(t: Seq<char>, i: int) -> bool {
    0 <= i < t.len() && t[i] == '=' && forall|j: int| 0 <= j < i ==> t[j] != '='
}

/// The provider a trimmed line assigns to `model_provider` (quotes removed),
/// if it is such an assignment; comments and table headers assign nothing.
pub open spec fn assigned_provider(t: Seq<char>) -> Option<Seq<char>> {
    if t.len() == 0 || t[0] == '#' || t[0] == '[' {
        None
    } else if exists|i: int| is_first_eq(t, i) {
        let e = choose|i: int| is_first_eq(t, i);
        if trim(t.take(e)) == "model_provider"@ {
            Some(trim_matches(trim_matches(trim(t.skip(e + 1)), '"'), '\''))
        } else {
            None
        }
    } else {
        None
    }
}

/// Some line among `lines` is a table header (it begins with `[` once
/// trimmed); the lines after it belong to that table, not to the root.
pub open spec fn header_seen(lines: Seq<Seq<char>>) -> bool {
    exists|i: int| 0 <= i < lines.len() && is_header_line(#[trigger] lines[i])
}

pub open spec fn is_header_line(line: Seq<char>) -> bool {
    trim(line).len() > 0 && trim(line)[0] == '['
}

/// The provider the last root-level assignment among the lines names (an
/// assignment before the first table header), or empty.
pub open spec fn config_current(lines: Seq<Seq<char>>) -> Seq<char>
    decreases lines.len(),
{
    if lines.len() == 0 {
        Seq::empty()
    } else if header_seen(lines.drop_last()) {
        config_current(lines.drop_last())
    } else {
        match assigned_provider(trim(lines.last())) {
            Some(v) => v,
            None => config_current(lines.drop_last()),
        }
    }
}

/// `id` is configured by a `[model_providers.<id>]` header among the lines.
pub open spec fn configured_id(lines: Seq<Seq<char>>, id: Seq<char>) -> bool {
    exists|i: int|
        0 <= i < lines.len() && provider_table_prefix().is_prefix_of(trim(#[trigger] lines[i]))
            && header_id(trim(lines[i])) == Some(id)
}

fn trim_matches_exec(v: &Vec<char>, c: char) -> (r: Vec<char>)
    ensures
        r@ == trim_matches(v@, c),
{
    let mut i: usize = 0;
    assert(v@.skip(0) =~= v@);
    while i < v.len() && v[i] == c
        invariant
            i <= v@.len(),
            strip_char_start(v@, c) == strip_char_start(v@.skip(i as int), c),
        decreases v@.len() - i,
    {
        assert(v@.skip(i as int).drop_first() =~= v@.skip(i + 1));
        i = i + 1;
    }
    let mut j: usize = v.len();
    assert(v@.subrange(i as int, j as int) =~= v@.skip(i as int));
    while j > i && v[j - 1] == c
        invariant
            i <= j <= v@.len(),
            strip_char_start(v@, c) == v@.skip(i as int),
            trim_matches(v@, c) == strip_char_end(v@.subrange(i as int, j as int), c),
        decreases j,
    {
        assert(v@.subrange(i as int, j as int).drop_last() =~= v@.subrange(i as int, j - 1));
        j = j - 1;
    }
    slice_chars(v.as_slice(), i, j)
}

fn first_eq(t: &Vec<char>) -> (r: Option<usize>)
    ensures
        r matches Some(i) ==> is_first_eq(t@, i as int),
        r is None ==> !exists|i: int| is_first_eq(t@, i),
{
    let mut i: usize = 0;
    while i < t.len()
        invariant
            i <= t@.len(),
            forall|j: int| 0 <= j < i ==> t@[j] != '=',
        decreases t@.len() - i,
    {
        if t[i] == '=' {
            return Some(i);
        }
        i = i + 1;
    }
    None
}

proof fn lemma_first_eq_unique(t: Seq<char>, i: int, j: int)
    requires
        is_first_eq(t, i),
        is_first_eq(t, j),
    ensures
        i == j,
{
    if i < j {
        assert(t[i] != '=');
    } else if j < i {
        assert(t[j] != '=');
    }
}

fn assigned_provider_exec(t: &Vec<char>) -> (r: Option<Vec<char>>)
    ensures
        r matches Some(v) ==> assigned_provider(t@) == Some(v@),
        r is None <==> assigned_provider(t@) is None,
{
    if t.len() == 0 || t[0] == '#' || t[0] == '[' {
        return None;
    }
    match first_eq(t) {
        Some(e) => {
            proof {
                let c = choose|i: int| is_first_eq(t@, i);
                lemma_first_eq_unique(t@, e as int, c);
            }
            let key = trim_chars(slice_chars(t.as_slice(), 0, e).as_slice());
            let mp = chars_of("model_provider");
            let same = key.len() == mp.len() && has_prefix(key.as_slice(), mp.as_slice());
            proof {
                if same {
                    assert(key@ =~= mp@);
                }
            }
            assert(t@.take(e as int) =~= t@.subrange(0, e as int));
            if same {
                let value = trim_chars(slice_chars(t.as_slice(), e + 1, t.len()).as_slice());
                assert(t@.subrange(e + 1, t@.len() as int) =~= t@.skip(e + 1));
                let v1 = trim_matches_exec(&value, '"');
                let v2 = trim_matches_exec(&v1, '\'');
                Some(v2)
            } else {
                None
            }
        },
        None => None,
    }
}

/// The root-level `model_provider` of a `config.toml` text (the last
/// assignment before the first table header; empty when there is none)
/// and the ids of its `[model_providers.<id>]` tables, sorted, each once.
pub fn read_config_info(text: &str) -> (r: (String, Vec<String>))
    ensures
        r.0@ == config_current(nonblank_lines(text@)),
        strictly_sorted(views(r.1@)),
        forall|id: Seq<char>|
            views(r.1@).contains(id) <==> configured_id(nonblank_lines(text@), id),
{
    let lines = content_lines(text);
    let ghost ls = views(lines@);
    let prefix: Vec<char> = vec![
        '[', 'm', 'o', 'd', 'e', 'l', '_', 'p', 'r', 'o', 'v', 'i', 'd', 'e', 'r', 's', '.',
    ];
    let mut current: Vec<char> = Vec::new();
    let mut configured: Vec<String> = Vec::new();
    let mut in_table = false;
    let mut i: usize = 0;
    assert(current@ =~= config_current(ls.take(0)));
    while i < lines.len()
        invariant
            i <= lines@.len(),
            ls == views(lines@),
            ls == nonblank_lines(text@),
            prefix@ == provider_table_prefix(),
            current@ == config_current(ls.take(i as int)),
            in_table == header_seen(ls.take(i as int)),
            forall|id: Seq<char>|
                views(configured@).contains(id) <==> configured_id(ls.take(i as int), id),
        decreases lines@.len() - i,
    {
        assert(ls.take(i + 1).drop_last() =~= ls.take(i as int));
        assert(ls.take(i + 1).last() == lines@[i as int]@);
        let t = trim_chars(chars_of(lines[i].as_str()).as_slice());
        let ghost before = views(configured@);
        let ghost mut added: Option<Seq<char>> = None;
        let is_header = t.len() > 0 && t[0] != '#' && has_prefix(t.as_slice(), prefix.as_slice());
        if is_header {
            let rest = slice_chars(t.as_slice(), prefix.len(), t.len());
            assert(rest@ =~= t@.skip(provider_table_prefix().len() as int));
            if rest.len() > 0 && rest[rest.len() - 1] == ']' {
                let inner = slice_chars(rest.as_slice(), 0, rest.len() - 1);
                assert(inner@ =~= rest@.drop_last());
                let id = trim_matches_exec(&inner, '"');
                configured.push(string_of(id.as_slice()));
                assert(views(configured@) =~= before.push(id@));
                proof {
                    added = Some(id@);
                }
            }
            proof {
                assert(t@[0] == '[');
                assert(assigned_provider(t@) is None);
            }
        } else {
            proof {
                if t@.len() > 0 && t@[0] == '#' {
                    assert(!provider_table_prefix().is_prefix_of(t@)) by {
                        if provider_table_prefix().is_prefix_of(t@) {
                            assert(t@[0] == provider_table_prefix()[0]);
                        }
                    }
                }
            }
            if !in_table {
                match assigned_provider_exec(&t) {
                    Some(v) => {
                        current = v;
                    },
                    None => {},
                }
            }
        }
        proof {
            let l2 = ls.take(i + 1);
            assert(l2.drop_last() =~= ls.take(i as int));
            assert(l2[i as int] == lines@[i as int]@);
            if header_seen(ls.take(i as int)) {
                let k = choose|k: int| 0 <= k < i && is_header_line(#[trigger] ls.take(i as int)[k]);
                assert(l2[k] == ls.take(i as int)[k]);
            }
            if header_seen(l2) {
                let k = choose|k: int| 0 <= k < l2.len() && is_header_line(#[trigger] l2[k]);
                if k < i {
                    assert(ls.take(i as int)[k] == l2[k]);
                }
            }
        }
        in_table = in_table || (t.len() > 0 && t[0] == '[');
        assert(views(configured@) == match added {
            Some(x) => before.push(x),
            None => before,
        });
        proof {
            let l2 = ls.take(i + 1);
            assert forall|id: Seq<char>| views(configured@).contains(id) <==> configured_id(l2, id) by {
                if configured_id(l2, id) {
                    let k = choose|k: int|
                        0 <= k < l2.len() && provider_table_prefix().is_prefix_of(trim(#[trigger] l2[k]))
                            && header_id(trim(l2[k])) == Some(id);
                    if k < i {
                        assert(ls.take(i as int)[k] == l2[k]);
                        assert(provider_table_prefix().is_prefix_of(trim(ls.take(i as int)[k])));
                        assert(header_id(trim(ls.take(i as int)[k])) == Some(id));
                        assert(configured_id(ls.take(i as int), id));
                        assert(before.contains(id));
                        let m = choose|m: int| 0 <= m < before.len() && before[m] == id;
                        assert(views(configured@)[m] == id);
                    } else {
                        assert(views(configured@)[before.len() as int] == id);
                    }
                }
                if views(configured@).contains(id) {
                    let m = choose|m: int| 0 <= m < views(configured@).len() && views(configured@)[m] == id;
                    if m < before.len() {
                        assert(before[m] == id);
                        assert(before.contains(id));
                        let k = choose|k: int|
                            0 <= k < ls.take(i as int).len() && provider_table_prefix().is_prefix_of(
                                trim(#[trigger] ls.take(i as int)[k]),
                            ) && header_id(trim(ls.take(i as int)[k])) == Some(id);
                        assert(l2[k] == ls.take(i as int)[k]);
                    } else {
                        assert(l2[i as int] == lines@[i as int]@);
                    }
                }
            }
        }
        i = i + 1;
    }
    assert(ls.take(lines@.len() as int) =~= ls);
    let sorted = sorted_unique(&configured);
    (string_of(current.as_slice()), sorted)
}

} // verus!
