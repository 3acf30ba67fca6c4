use vstd::prelude::*;
use vstd::string::*;
use crate::fuzzy::{entry_precedence, field_score, rank_entries, score_field, session_part, sessions_of};
use crate::session::{ScoredSession, Session};
use crate::sorting::{lemma_filter_count, lemma_map_count, lemma_stable_sort_permutes, lemma_stable_sort_preserves, stable_sort};
use crate::text::starts_with;

verus! {

/// The fields a search query is matched against.
#[derive(Debug, Clone, Copy, PartialEq, Eq)]
pub enum SearchScope {
    /// Title, last message and directory.
    All,
    /// The title only (`title:` prefix).
    Title,
    /// The last message only (`mes:` prefix).
    Message,
    /// The directory only (`dir:` prefix).
    Directory,
}

/// The scope a query's prefix selects.
pub open spec fn scope_of(query: Seq<char>) -> SearchScope {
    if "title:"@.is_prefix_of(query) {
        SearchScope::Title
    } else if "mes:"@.is_prefix_of(query) {
        SearchScope::Message
    } else if "dir:"@.is_prefix_of(query) {
        SearchScope::Directory
    } else {
        SearchScope::All
    }
}

/// The length of the prefix that selects a scope.
pub open spec fn prefix_len(scope: SearchScope) -> int {
    match scope {
        SearchScope::All => 0,
        SearchScope::Title => 6,
        SearchScope::Message => 4,
        SearchScope::Directory => 4,
    }
}

/// The fuzzy pattern of a query: what follows its scope prefix.
pub open spec fn search_pattern(query: Seq<char>) -> Seq<char> {
    query.skip(prefix_len(scope_of(query)))
}

/// The larger of two scores.
pub open spec fn better(a: i64, b: i64) -> i64 {
    if a >= b {
        a
    } else {
        b
    }
}

/// A session's score for a pattern within a scope: the best of the
/// searched fields' scores.
pub open spec fn scope_score(s: Session, scope: SearchScope, pattern: Seq<char>) -> i64 {
    match scope {
        SearchScope::All => better(
            better(field_score(s.title@, pattern, true), field_score(s.last_input@, pattern, true)),
            field_score(s.directory@, pattern, true),
        ),
        SearchScope::Title => field_score(s.title@, pattern, true),
        SearchScope::Message => field_score(s.last_input@, pattern, true),
        SearchScope::Directory => field_score(s.directory@, pattern, true),
    }
}

/// The entries a query shows, in session order: every session (scored 0)
/// for an empty pattern, else the sessions that score above 0.
pub open spec fn view_entries(sessions: Seq<Session>, query: Seq<char>) -> Seq<ScoredSession> {
    let scope = scope_of(query);
    let pattern = search_pattern(query);
    if pattern.len() == 0 {
        sessions.map_values(|s: Session| ScoredSession { session: s, score: 0 })
    } else {
        sessions.map_values(
            |s: Session| ScoredSession { session: s, score: scope_score(s, scope, pattern) },
        ).filter(|x: ScoredSession| x.score > 0)
    }
}

/// What the session list shows for a query: its entries, newest first if
/// `by_date`, else best match first; ties keep session order.
pub open spec fn view_ranking(sessions: Seq<Session>, query: Seq<char>, by_date: bool) -> Seq<ScoredSession> {
    stable_sort(view_entries(sessions, query), entry_precedence(by_date))
}

/// Splits a query into its scope and the pattern after the scope's prefix.
pub fn parse_query(query: &str) -> (r: (SearchScope, &str))
    ensures
        r.0 == scope_of(query@),
        r.1@ == search_pattern(query@),
{
    proof {
        reveal_strlit("title:");
        reveal_strlit("mes:");
        reveal_strlit("dir:");
    }
    let scope = if starts_with(query, "title:") {
        SearchScope::Title
    } else if starts_with(query, "mes:") {
        SearchScope::Message
    } else if starts_with(query, "dir:") {
        SearchScope::Directory
    } else {
        SearchScope::All
    };
    let skip: usize = match scope {
        SearchScope::All => 0,
        SearchScope::Title => 6,
        SearchScope::Message => 4,
        SearchScope::Directory => 4,
    };
    let n = query.unicode_len();
    let pattern = query.substring_char(skip, n);
    (scope, pattern)
}

/// A session's score for `pattern` within `scope`.
fn score_in_scope(s: &Session, scope: SearchScope, pattern: &str) -> (r: i64)
    ensures
        r == scope_score(*s, scope, pattern@),
{
    match scope {
        SearchScope::All => {
            let t = score_field(s.title.as_str(), pattern, true);
            let m = score_field(s.last_input.as_str(), pattern, true);
            let d = score_field(s.directory.as_str(), pattern, true);
            let tm = if t >= m {
                t
            } else {
                m
            };
            if tm >= d {
                tm
            } else {
                d
            }
        },
        SearchScope::Title => score_field(s.title.as_str(), pattern, true),
        SearchScope::Message => score_field(s.last_input.as_str(), pattern, true),
        SearchScope::Directory => score_field(s.directory.as_str(), pattern, true),
    }
}

/// The entries `query` shows, unsorted.
fn collect_entries(sessions: &Vec<Session>, query: &str) -> (r: Vec<ScoredSession>)
    ensures
        r@ == view_entries(sessions@, query@),
{
    let (scope, pattern) = parse_query(query);
    let everything = pattern.unicode_len() == 0;
    let ghost all = |s: Session| ScoredSession { session: s, score: 0 };
    let ghost scored = |s: Session|
        ScoredSession { session: s, score: scope_score(s, scope, pattern@) };
    let ghost positive = |x: ScoredSession| x.score > 0;
    let ghost want = if everything {
        sessions@.map_values(all)
    } else {
        sessions@.map_values(scored).filter(positive)
    };
    assert(want == view_entries(sessions@, query@));
    let mut out: Vec<ScoredSession> = Vec::new();
    assert(sessions@.take(0).map_values(scored).filter(positive) =~= Seq::<ScoredSession>::empty())
        by {
        reveal(Seq::filter);
    }
    assert(sessions@.take(0).map_values(all) =~= Seq::<ScoredSession>::empty());
    let mut i: usize = 0;
    while i < sessions.len()
        invariant
            i <= sessions.len(),
            all == (|s: Session| ScoredSession { session: s, score: 0 }),
            scored == (|s: Session| ScoredSession { session: s, score: scope_score(s, scope, pattern@) }),
            positive == (|x: ScoredSession| x.score > 0),
            everything == (pattern@.len() == 0),
            everything ==> out@ == sessions@.take(i as int).map_values(all),
            !everything ==> out@ == sessions@.take(i as int).map_values(scored).filter(positive),
        decreases sessions.len() - i,
    {
        let s = sessions[i].clone();
        proof {
            assert(sessions@.take(i + 1).map_values(all) =~= sessions@.take(i as int).map_values(
                all,
            ).push(all(s)));
            let prev = sessions@.take(i as int).map_values(scored);
            assert(sessions@.take(i + 1).map_values(scored) =~= prev.push(scored(s)));
            prev.lemma_filter_push(scored(s), positive);
        }
        if everything {
            out.push(ScoredSession { session: s, score: 0 });
        } else {
            let score = score_in_scope(&s, scope, pattern);
            if score > 0 {
                out.push(ScoredSession { session: s, score });
            }
        }
        i = i + 1;
    }
    assert(sessions@.take(i as int) =~= sessions@);
    out
}

/// The entries the session list shows for `query`, newest first if
/// `by_date`, else best match first.
pub fn rank_view(sessions: &Vec<Session>, query: &str, by_date: bool) -> (r: Vec<ScoredSession>)
    ensures
        r@ == view_ranking(sessions@, query@, by_date),
{
    let entries = collect_entries(sessions, query);
    rank_entries(entries, by_date)
}

/// Whether a field searched in `scope` matches `pattern` with a score
/// above 0: any of title, last message and directory for an unscoped
/// query, else the scope's own field.
pub open spec fn some_field_matches(s: Session, scope: SearchScope, pattern: Seq<char>) -> bool {
    let t = field_score(s.title@, pattern, true);
    let m = field_score(s.last_input@, pattern, true);
    let d = field_score(s.directory@, pattern, true);
    match scope {
        SearchScope::All => t > 0 || m > 0 || d > 0,
        SearchScope::Title => t > 0,
        SearchScope::Message => m > 0,
        SearchScope::Directory => d > 0,
    }
}

/// Law: what the session list shows for a query with a pattern. Each entry
/// is scored by its best searched field: for an unscoped query the score is
/// at least each of the title's, last message's and directory's scores and
/// equal to one of them; for a scoped query it is the scope's field's
/// score; and it is above 0. Every session of which a searched field
/// matches is shown, as often as it is loaded, and no other.
pub proof fn lemma_view_best_field(sessions: Seq<Session>, query: Seq<char>, by_date: bool)
    requires
        search_pattern(query).len() > 0,
    ensures
        forall|i: int|
            0 <= i < view_ranking(sessions, query, by_date).len() ==> {
                let e = #[trigger] view_ranking(sessions, query, by_date)[i];
                let p = search_pattern(query);
                let t = field_score(e.session.title@, p, true);
                let m = field_score(e.session.last_input@, p, true);
                let d = field_score(e.session.directory@, p, true);
                &&& e.score > 0
                &&& match scope_of(query) {
                    SearchScope::All => e.score >= t && e.score >= m && e.score >= d && (e.score == t
                        || e.score == m || e.score == d),
                    SearchScope::Title => e.score == t,
                    SearchScope::Message => e.score == m,
                    SearchScope::Directory => e.score == d,
                }
            },
        forall|x: Session|
            #![trigger sessions_of(view_ranking(sessions, query, by_date)).to_multiset().count(x)]
            sessions_of(view_ranking(sessions, query, by_date)).to_multiset().count(x) == if some_field_matches(
                x,
                scope_of(query),
                search_pattern(query),
            ) {
                sessions.to_multiset().count(x)
            } else {
                0
            },
{
    let scope = scope_of(query);
    let p = search_pattern(query);
    let scored = |s: Session| ScoredSession { session: s, score: scope_score(s, scope, p) };
    let positive = |x: ScoredSession| x.score > 0;
    let mapped = sessions.map_values(scored);
    let entries = view_entries(sessions, query);
    assert(entries == mapped.filter(positive));
    let r = view_ranking(sessions, query, by_date);
    let is_entry = |e: ScoredSession| e == scored(e.session) && e.score > 0;
    assert forall|i: int| 0 <= i < entries.len() implies #[trigger] is_entry(entries[i]) by {
        assert(entries.contains(entries[i]));
        mapped.lemma_filter_contains_rev(positive, entries[i]);
        let j = choose|j: int| 0 <= j < mapped.len() && mapped[j] == entries[i];
        assert(mapped[j] == scored(sessions[j]));
        mapped.lemma_filter_pred(positive, i);
    }
    lemma_stable_sort_preserves(entries, entry_precedence(by_date), is_entry);
    assert forall|i: int| 0 <= i < r.len() implies {
        let e = #[trigger] r[i];
        let t = field_score(e.session.title@, p, true);
        let m = field_score(e.session.last_input@, p, true);
        let d = field_score(e.session.directory@, p, true);
        &&& e.score > 0
        &&& match scope {
            SearchScope::All => e.score >= t && e.score >= m && e.score >= d && (e.score == t
                || e.score == m || e.score == d),
            SearchScope::Title => e.score == t,
            SearchScope::Message => e.score == m,
            SearchScope::Directory => e.score == d,
        }
    } by {
        assert(is_entry(r[i]));
    }
    assert forall|x: Session|
        #![trigger sessions_of(r).to_multiset().count(x)]
        sessions_of(r).to_multiset().count(x) == if some_field_matches(x, scope, p) {
            sessions.to_multiset().count(x)
        } else {
            0
        } by {
        assert forall|i: int|
            0 <= i < r.len() && session_part()(r[i]) == session_part()(scored(x)) implies #[trigger] r[i]
            == scored(x) by {
            assert(is_entry(r[i]));
        }
        lemma_map_count(r, session_part(), scored(x));
        lemma_stable_sort_permutes(entries, entry_precedence(by_date));
        lemma_filter_count(mapped, positive, scored(x));
        lemma_map_count(sessions, scored, x);
        assert(positive(scored(x)) == some_field_matches(x, scope, p));
    }
}

} // verus!
