use vstd::prelude::*;
use crate::display::opt_text;
use crate::fuzzy::{
    field_score, filter_sessions, higher_score_first, lemma_ranked_count, ranked_sessions,
    score_entry, scored_sessions, scores_above_zero, session_part, session_score, sessions_of,
};
use crate::session::{ScoredSession, Session};
use crate::sorting::{
    is_sorted_by, is_strict_weak_order, larger_key_first, lemma_stable_sort_map,
    lemma_stable_sort_preserves,
    lemma_stable_sort_permutes, lemma_stable_sort_sorted, lemma_stable_sort_stable,
    lemma_text_key_order, smaller_text_first, sort_by_key_desc, sort_by_text_asc, stable_sort,
    strip_keys, text_less, tied_with,
};
use crate::text::{chars_of, lowercase, same_text, to_lowercase};

verus! {

/// The field the listed sessions are ordered by.
#[derive(Debug, Clone, Copy, PartialEq, Eq)]
pub enum SortField {
    /// Newest first.
    Date,
    /// By lower-cased title, A to Z.
    Title,
    /// By lower-cased directory, A to Z.
    Dir,
}

/// The sort field a name selects: `title`, `dir`, and anything else the date.
pub open spec fn sort_field_for(name: Seq<char>) -> SortField {
    if name == "title"@ {
        SortField::Title
    } else if name == "dir"@ {
        SortField::Dir
    } else {
        SortField::Date
    }
}

/// The sort field that `name` selects.
pub fn sort_field_named(name: &str) -> (r: SortField)
    ensures
        r == sort_field_for(name@),
{
    if same_text(name, "title") {
        SortField::Title
    } else if same_text(name, "dir") {
        SortField::Dir
    } else {
        SortField::Date
    }
}

/// Precedence of sessions: newer first.
pub open spec fn newer_first() -> spec_fn(Session, Session) -> bool {
    |a: Session, b: Session| a.time_created > b.time_created
}

/// Precedence of sessions: lower-cased titles in increasing order.
pub open spec fn title_first() -> spec_fn(Session, Session) -> bool {
    |a: Session, b: Session| text_less(lowercase(a.title@), lowercase(b.title@))
}

/// Precedence of sessions: lower-cased directories in increasing order.
pub open spec fn directory_first() -> spec_fn(Session, Session) -> bool {
    |a: Session, b: Session| text_less(lowercase(a.directory@), lowercase(b.directory@))
}

/// The precedence a sort field stands for.
pub open spec fn precedence(field: SortField) -> spec_fn(Session, Session) -> bool {
    match field {
        SortField::Date => newer_first(),
        SortField::Title => title_first(),
        SortField::Dir => directory_first(),
    }
}

/// Sessions stably sorted by `field`.
pub open spec fn ordered(s: Seq<Session>, field: SortField) -> Seq<Session> {
    stable_sort(s, precedence(field))
}

/// Sessions narrowed by one optional fuzzy query: unchanged without a query,
/// else the matching sessions, best match first.
pub open spec fn narrowed(
    s: Seq<Session>,
    query: Option<Seq<char>>,
    match_title: bool,
    match_dir: bool,
) -> Seq<Session> {
    match query {
        Some(q) => ranked_sessions(s, q, match_title, match_dir).map_values(|x: ScoredSession| x.session),
        None => s,
    }
}

/// The sessions the command line lists: narrowed by the title query, then
/// the directory query, then the query on both; sorted by `field`; and cut
/// to the first `limit`.
pub open spec fn listed(
    s: Seq<Session>,
    query: Option<Seq<char>>,
    title: Option<Seq<char>>,
    dir: Option<Seq<char>>,
    limit: usize,
    field: SortField,
) -> Seq<Session> {
    let found = narrowed(narrowed(narrowed(s, title, true, false), dir, false, true), query, true, true);
    let sorted = ordered(found, field);
    if sorted.len() > limit {
        sorted.take(limit as int)
    } else {
        sorted
    }
}

/// Narrows `sessions` by an optional fuzzy query.
pub fn narrow(sessions: Vec<Session>, query: &Option<String>, match_title: bool, match_dir: bool) -> (r:
    Vec<Session>)
    ensures
        r@ == narrowed(sessions@, opt_text(*query), match_title, match_dir),
        r@.len() <= sessions@.len(),
        query matches Some(q) && q@.len() == 0 ==> r@.len() == 0,
{
    match query {
        Some(q) => {
            let scored = filter_sessions(sessions, q.as_str(), match_title, match_dir);
            let ghost sv = scored@;
            let mut rest = scored;
            let mut out: Vec<Session> = Vec::new();
            let ghost mut m: int = 0;
            while rest.len() > 0
                invariant
                    0 <= m <= sv.len(),
                    rest@ == sv.skip(m),
                    out@ == sv.take(m).map_values(|x: ScoredSession| x.session),
                decreases rest.len(),
            {
                let x = rest.remove(0);
                assert(x == sv[m]);
                out.push(x.session);
                proof {
                    assert(sv.take(m + 1).map_values(|x: ScoredSession| x.session) =~= sv.take(
                        m,
                    ).map_values(|x: ScoredSession| x.session).push(x.session));
                    assert(rest@ =~= sv.skip(m + 1));
                    m = m + 1;
                }
            }
            assert(sv.take(m) =~= sv);
            out
        },
        None => sessions,
    }
}

/// Sessions stably sorted newest first.
fn sort_newest_first(sessions: Vec<Session>) -> (r: Vec<Session>)
    ensures
        r@ == stable_sort(sessions@, newer_first()),
{
    let ghost orig = sessions@;
    let ghost keyed = |p: (i64, Session)| p.0 == p.1.time_created;
    let mut rest = sessions;
    let mut pairs: Vec<(i64, Session)> = Vec::new();
    let ghost mut m: int = 0;
    while rest.len() > 0
        invariant
            0 <= m <= orig.len(),
            rest@ == orig.skip(m),
            pairs@.len() == m,
            forall|i: int| 0 <= i < m ==> #[trigger] pairs@[i] == (orig[i].time_created, orig[i]),
        decreases rest.len(),
    {
        let s = rest.remove(0);
        assert(s == orig[m]);
        pairs.push((s.time_created, s));
        proof {
            assert(rest@ =~= orig.skip(m + 1));
            m = m + 1;
        }
    }
    let ghost pv = pairs@;
    let sorted = sort_by_key_desc(pairs);
    proof {
        assert forall|i: int| 0 <= i < pv.len() implies #[trigger] keyed(pv[i]) by {}
        lemma_stable_sort_map(pv, larger_key_first::<Session>(), |p: (i64, Session)| p.1, newer_first(), keyed);
        assert(pv.map_values(|p: (i64, Session)| p.1) =~= orig);
    }
    strip_keys(sorted)
}

/// Sessions stably sorted by lower-cased title (or directory), A to Z.
fn sort_by_text_field(sessions: Vec<Session>, by_title: bool) -> (r: Vec<Session>)
    ensures
        r@ == stable_sort(sessions@, if by_title { title_first() } else { directory_first() }),
{
    let ghost orig = sessions@;
    let ghost key_of = |s: Session| if by_title { lowercase(s.title@) } else { lowercase(s.directory@) };
    let ghost keyed = |p: (Vec<char>, Session)| p.0@ == key_of(p.1);
    let mut rest = sessions;
    let mut pairs: Vec<(Vec<char>, Session)> = Vec::new();
    let ghost mut m: int = 0;
    while rest.len() > 0
        invariant
            0 <= m <= orig.len(),
            rest@ == orig.skip(m),
            key_of == (|s: Session| if by_title { lowercase(s.title@) } else { lowercase(s.directory@) }),
            keyed == (|p: (Vec<char>, Session)| p.0@ == key_of(p.1)),
            pairs@.len() == m,
            forall|i: int| 0 <= i < m ==> #[trigger] keyed(pairs@[i]),
            forall|i: int| 0 <= i < m ==> (#[trigger] pairs@[i]).1 == orig[i],
        decreases rest.len(),
    {
        let s = rest.remove(0);
        assert(s == orig[m]);
        let lower = if by_title {
            to_lowercase(s.title.as_str())
        } else {
            to_lowercase(s.directory.as_str())
        };
        let key = chars_of(lower.as_str());
        pairs.push((key, s));
        proof {
            assert(rest@ =~= orig.skip(m + 1));
            m = m + 1;
        }
    }
    let ghost pv = pairs@;
    assert(m == orig.len());
    assert(forall|i: int| 0 <= i < m ==> pv[i].1 == orig[i]);
    let sorted = sort_by_text_asc(pairs);
    proof {
        let q = if by_title { title_first() } else { directory_first() };
        assert forall|i: int| 0 <= i < pv.len() implies #[trigger] keyed(pv[i]) by {}
        lemma_stable_sort_map(pv, smaller_text_first::<Session>(), |p: (Vec<char>, Session)| p.1, q, keyed);
        assert(pv.map_values(|p: (Vec<char>, Session)| p.1) =~= orig);
    }
    strip_keys(sorted)
}

/// Sessions stably sorted by `field`.
pub fn order_sessions(sessions: Vec<Session>, field: SortField) -> (r: Vec<Session>)
    ensures
        r@ == ordered(sessions@, field),
{
    match field {
        SortField::Date => sort_newest_first(sessions),
        SortField::Title => sort_by_text_field(sessions, true),
        SortField::Dir => sort_by_text_field(sessions, false),
    }
}

/// The sessions to list: narrowed by the `--title` query, the `--dir` query
/// and the query on both, in that order; sorted by `field`; then cut to
/// the first `limit`.
pub fn select_sessions(
    sessions: Vec<Session>,
    query: &Option<String>,
    title: &Option<String>,
    dir: &Option<String>,
    limit: usize,
    field: SortField,
) -> (r: Vec<Session>)
    ensures
        r@ == listed(sessions@, opt_text(*query), opt_text(*title), opt_text(*dir), limit, field),
        query matches Some(q) && q@.len() == 0 ==> r@.len() == 0,
        title matches Some(q) && q@.len() == 0 ==> r@.len() == 0,
        dir matches Some(q) && q@.len() == 0 ==> r@.len() == 0,
{
    let by_title = narrow(sessions, title, true, false);
    let by_dir = narrow(by_title, dir, false, true);
    let found = narrow(by_dir, query, true, true);
    let mut sorted = order_sessions(found, field);
    proof {
        lemma_stable_sort_preserves(found@, precedence(field), |x: Session| true);
    }
    sorted.truncate(limit);
    sorted
}


/// Each sort field orders sessions by a strict weak order.
pub proof fn lemma_precedence_order(field: SortField)
    ensures
        is_strict_weak_order(precedence(field)),
{
    match field {
        SortField::Date => {},
        SortField::Title => {
            let key = |s: Session| lowercase(s.title@);
            lemma_text_key_order(key);
            assert(title_first() =~= (|a: Session, b: Session| text_less(key(a), key(b))));
        },
        SortField::Dir => {
            let key = |s: Session| lowercase(s.directory@);
            lemma_text_key_order(key);
            assert(directory_first() =~= (|a: Session, b: Session| text_less(key(a), key(b))));
        },
    }
}

/// Law: ordering by a field lists exactly the given sessions, each as
/// often, and no session is listed after one that the field puts behind it.
pub proof fn lemma_ordered_sorted(s: Seq<Session>, field: SortField)
    ensures
        is_sorted_by(ordered(s, field), precedence(field)),
        ordered(s, field).to_multiset() == s.to_multiset(),
{
    lemma_precedence_order(field);
    lemma_stable_sort_sorted(s, precedence(field));
    lemma_stable_sort_permutes(s, precedence(field));
}

/// Law: sessions that tie on the sort field keep their order.
pub proof fn lemma_ordered_stable(s: Seq<Session>, field: SortField, x: Session)
    ensures
        ordered(s, field).filter(tied_with(precedence(field), x)) == s.filter(
            tied_with(precedence(field), x),
        ),
{
    lemma_precedence_order(field);
    lemma_stable_sort_stable(s, precedence(field), x);
}

/// Law: at most `limit` sessions are listed; without queries they are the
/// first `limit` of all sessions in the chosen order.
pub proof fn lemma_listed_limit(
    s: Seq<Session>,
    query: Option<Seq<char>>,
    title: Option<Seq<char>>,
    dir: Option<Seq<char>>,
    limit: usize,
    field: SortField,
)
    ensures
        listed(s, query, title, dir, limit, field).len() <= limit,
        query is None && title is None && dir is None ==> listed(s, query, title, dir, limit, field)
            == ordered(s, field).take(
            if s.len() > limit {
                limit as int
            } else {
                s.len() as int
            },
        ),
{
    lemma_precedence_order(field);
    lemma_stable_sort_permutes(s, precedence(field));
    assert(ordered(s, field).len() == s.len()) by {
        vstd::seq_lib::to_multiset_len(s);
        vstd::seq_lib::to_multiset_len(ordered(s, field));
    }
    if s.len() <= limit {
        assert(ordered(s, field).take(s.len() as int) =~= ordered(s, field));
    }
}


proof fn lemma_sorted_elements_from<T>(s: Seq<T>, before: spec_fn(T, T) -> bool)
    ensures
        forall|i: int|
            0 <= i < stable_sort(s, before).len() ==> s.contains(#[trigger] stable_sort(s, before)[i]),
{
    let o = stable_sort(s, before);
    lemma_stable_sort_permutes(s, before);
    assert forall|i: int| 0 <= i < o.len() implies s.contains(#[trigger] o[i]) by {
        vstd::seq_lib::to_multiset_contains(o, o[i]);
        vstd::seq_lib::to_multiset_contains(s, o[i]);
        assert(o.contains(o[i]));
    }
}

/// Law: narrowing by a query lists only sessions it was given.
pub proof fn lemma_narrowed_from(
    s: Seq<Session>,
    query: Option<Seq<char>>,
    match_title: bool,
    match_dir: bool,
)
    ensures
        forall|i: int|
            0 <= i < narrowed(s, query, match_title, match_dir).len() ==> s.contains(
                #[trigger] narrowed(s, query, match_title, match_dir)[i],
            ),
{
    if let Some(q) = query {
        let scored = scored_sessions(s, q, match_title, match_dir);
        let mapped = s.map_values(score_entry(q, match_title, match_dir));
        let ranked = ranked_sessions(s, q, match_title, match_dir);
        lemma_sorted_elements_from(scored, higher_score_first());
        let r = narrowed(s, query, match_title, match_dir);
        assert forall|i: int| 0 <= i < r.len() implies s.contains(#[trigger] r[i]) by {
            assert(r[i] == ranked[i].session);
            assert(scored.contains(ranked[i]));
            mapped.lemma_filter_contains_rev(scores_above_zero(), ranked[i]);
            let j = choose|j: int| 0 <= j < mapped.len() && mapped[j] == ranked[i];
            assert(mapped[j].session == s[j]);
        }
    }
}

/// Law: the command line lists only sessions it was given.
pub proof fn lemma_listed_from(
    s: Seq<Session>,
    query: Option<Seq<char>>,
    title: Option<Seq<char>>,
    dir: Option<Seq<char>>,
    limit: usize,
    field: SortField,
)
    ensures
        forall|i: int|
            0 <= i < listed(s, query, title, dir, limit, field).len() ==> s.contains(
                #[trigger] listed(s, query, title, dir, limit, field)[i],
            ),
{
    let a = narrowed(s, title, true, false);
    let b = narrowed(a, dir, false, true);
    let c = narrowed(b, query, true, true);
    lemma_narrowed_from(s, title, true, false);
    lemma_narrowed_from(a, dir, false, true);
    lemma_narrowed_from(b, query, true, true);
    lemma_sorted_elements_from(c, precedence(field));
    let r = listed(s, query, title, dir, limit, field);
    let o = ordered(c, field);
    assert forall|i: int| 0 <= i < r.len() implies s.contains(#[trigger] r[i]) by {
        assert(r[i] == o[i]);
        assert(c.contains(o[i]));
        let k = choose|k: int| 0 <= k < c.len() && c[k] == o[i];
        assert(b.contains(c[k]));
        let m = choose|m: int| 0 <= m < b.len() && b[m] == c[k];
        assert(a.contains(b[m]));
        let n = choose|n: int| 0 <= n < a.len() && a[n] == b[m];
        assert(s.contains(a[n]));
    }
}

/// How often narrowing lists a session: as often as it is given when
/// there is no query or the session scores above 0 on the matched fields,
/// else never; and never more sessions than it is given.
proof fn lemma_narrowed_count(
    s: Seq<Session>,
    query: Option<Seq<char>>,
    match_title: bool,
    match_dir: bool,
    x: Session,
)
    ensures
        narrowed(s, query, match_title, match_dir).to_multiset().count(x) == if query is None
            || session_score(x, query->0, match_title, match_dir) > 0 {
            s.to_multiset().count(x)
        } else {
            0
        },
        narrowed(s, query, match_title, match_dir).len() <= s.len(),
{
    if let Some(q) = query {
        let ranked = ranked_sessions(s, q, match_title, match_dir);
        let scored = scored_sessions(s, q, match_title, match_dir);
        assert(narrowed(s, query, match_title, match_dir) =~= sessions_of(ranked));
        lemma_ranked_count(s, q, match_title, match_dir, x);
        lemma_stable_sort_permutes(scored, higher_score_first());
        vstd::seq_lib::to_multiset_len(scored);
        vstd::seq_lib::to_multiset_len(ranked);
        s.map_values(score_entry(q, match_title, match_dir)).lemma_filter_len(scores_above_zero());
    }
}

/// `x` matches every query given on the command line: the title query on
/// its title, the directory query on its directory, and the plain query on
/// its title or its directory.
pub open spec fn matches_all(
    x: Session,
    query: Option<Seq<char>>,
    title: Option<Seq<char>>,
    dir: Option<Seq<char>>,
) -> bool {
    &&& title matches Some(t) ==> field_score(x.title@, t, true) > 0
    &&& dir matches Some(d) ==> field_score(x.directory@, d, true) > 0
    &&& query matches Some(q) ==> field_score(x.title@, q, true) > 0 || field_score(
        x.directory@,
        q,
        true,
    ) > 0
}

/// Law: the command line lists only given sessions that match every given
/// query on its own fields (`--title` on the title, `--dir` on the
/// directory, the plain query on either); and when the limit is at least
/// the number of sessions, it lists every such session, as often as it is
/// given.
pub proof fn lemma_listed_matches(
    s: Seq<Session>,
    query: Option<Seq<char>>,
    title: Option<Seq<char>>,
    dir: Option<Seq<char>>,
    limit: usize,
    field: SortField,
)
    ensures
        forall|i: int|
            0 <= i < listed(s, query, title, dir, limit, field).len() ==> {
                let x = #[trigger] listed(s, query, title, dir, limit, field)[i];
                s.contains(x) && matches_all(x, query, title, dir)
            },
        limit >= s.len() ==> forall|x: Session|
            #![trigger listed(s, query, title, dir, limit, field).to_multiset().count(x)]
            listed(s, query, title, dir, limit, field).to_multiset().count(x) == if matches_all(
                x,
                query,
                title,
                dir,
            ) {
                s.to_multiset().count(x)
            } else {
                0
            },
{
    broadcast use vstd::seq_lib::group_to_multiset_ensures;

    let a = narrowed(s, title, true, false);
    let b = narrowed(a, dir, false, true);
    let c = narrowed(b, query, true, true);
    let o = ordered(c, field);
    let r = listed(s, query, title, dir, limit, field);
    lemma_stable_sort_permutes(c, precedence(field));
    vstd::seq_lib::to_multiset_len(c);
    vstd::seq_lib::to_multiset_len(o);
    assert forall|x: Session|
        c.to_multiset().count(x) == if #[trigger] matches_all(x, query, title, dir) {
            s.to_multiset().count(x)
        } else {
            0
        } by {
        lemma_narrowed_count(s, title, true, false, x);
        lemma_narrowed_count(a, dir, false, true, x);
        lemma_narrowed_count(b, query, true, true, x);
    }
    let y: Session = arbitrary();
    lemma_narrowed_count(s, title, true, false, y);
    lemma_narrowed_count(a, dir, false, true, y);
    lemma_narrowed_count(b, query, true, true, y);
    assert forall|i: int| 0 <= i < r.len() implies {
        let x = #[trigger] r[i];
        s.contains(x) && matches_all(x, query, title, dir)
    } by {
        assert(r[i] == o[i]);
        assert(o.to_multiset().count(o[i]) > 0);
        assert(c.to_multiset().count(r[i]) > 0);
        if matches_all(r[i], query, title, dir) {
            assert(s.to_multiset().count(r[i]) > 0);
        }
    }
    if limit >= s.len() {
        assert(r == o);
    }
}

} // verus!
