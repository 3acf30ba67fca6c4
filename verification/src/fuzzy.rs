use vstd::prelude::*;
use crate::session::{ScoredSession, Session};
use crate::sorting::{
    is_sorted_by, larger_key_first, lemma_filter_agreeing, lemma_filter_count,
    lemma_filter_keeps_all, lemma_filter_map_values, lemma_map_count, lemma_sorted_is_fixed,
    lemma_stable_sort_map, lemma_stable_sort_permutes,
    lemma_stable_sort_preserves, lemma_stable_sort_sorted, lemma_stable_sort_stable, sort_by_key_desc,
    stable_sort, strip_keys, tied_with,
};
use fuzzy_matcher::skim::SkimMatcherV2;
use fuzzy_matcher::FuzzyMatcher;

verus! {

/// The score that skim's fuzzy matcher, in its default configuration, gives
/// `pattern` against `choice`; `None` when the pattern does not match.
pub uninterp spec fn skim_score(choice: Seq<char>, pattern: Seq<char>) -> Option<i64>;

/// `SkimMatcherV2::default().fuzzy_match(choice, pattern)`. The contract names
/// the score `skim_score` and states two facts its source shows: an empty
/// pattern scores `Some(0)`, and a pattern of more characters than the choice
/// does not match. How a match is scored is left unsaid.
#[verifier::external_body]
fn skim_fuzzy_match(choice: &str, pattern: &str) -> (r: Option<i64>)
    ensures
        r == skim_score(choice@, pattern@),
        pattern@.len() == 0 ==> r == Some(0i64),
        pattern@.len() > choice@.len() ==> r is None,
{
    SkimMatcherV2::default().fuzzy_match(choice, pattern)
}

/// The score of one field: the matcher's score, 0 where it does not match
/// or where the field is not searched.
pub open spec fn field_score(text: Seq<char>, query: Seq<char>, searched: bool) -> i64 {
    if searched {
        match skim_score(text, query) {
            Some(score) => score,
            None => 0,
        }
    } else {
        0
    }
}

/// A session's score: the better of its title's and its directory's.
pub open spec fn session_score(s: Session, query: Seq<char>, match_title: bool, match_dir: bool) -> i64 {
    let t = field_score(s.title@, query, match_title);
    let d = field_score(s.directory@, query, match_dir);
    if t >= d {
        t
    } else {
        d
    }
}

/// Each session with its score, in input order, keeping those that score above 0.
pub open spec fn scored_sessions(
    sessions: Seq<Session>,
    query: Seq<char>,
    match_title: bool,
    match_dir: bool,
) -> Seq<ScoredSession> {
    sessions.map_values(score_entry(query, match_title, match_dir)).filter(scores_above_zero())
}

/// Pairs a session with its score.
pub open spec fn score_entry(query: Seq<char>, match_title: bool, match_dir: bool) -> spec_fn(
    Session,
) -> ScoredSession {
    |s: Session| ScoredSession { session: s, score: session_score(s, query, match_title, match_dir) }
}

/// Whether a scored session scores above 0.
pub open spec fn scores_above_zero() -> spec_fn(ScoredSession) -> bool {
    |x: ScoredSession| x.score > 0
}

/// Precedence of scored sessions: higher scores first.
pub open spec fn higher_score_first() -> spec_fn(ScoredSession, ScoredSession) -> bool {
    |a: ScoredSession, b: ScoredSession| a.score > b.score
}

/// Scored sessions ordered by descending score; equal scores keep their order.
pub open spec fn rank_by_score(s: Seq<ScoredSession>) -> Seq<ScoredSession> {
    stable_sort(s, higher_score_first())
}

/// What `filter_sessions` returns.
pub open spec fn ranked_sessions(
    sessions: Seq<Session>,
    query: Seq<char>,
    match_title: bool,
    match_dir: bool,
) -> Seq<ScoredSession> {
    rank_by_score(scored_sessions(sessions, query, match_title, match_dir))
}

/// The score of one field, as `field_score` defines it.
pub(crate) fn score_field(text: &str, query: &str, searched: bool) -> (r: i64)
    ensures
        r == field_score(text@, query@, searched),
        query@.len() == 0 ==> r == 0,
        query@.len() > text@.len() ==> r == 0,
{
    if searched {
        match skim_fuzzy_match(text, query) {
            Some(score) => score,
            None => 0,
        }
    } else {
        0
    }
}

/// Precedence of scored sessions: newer sessions first.
pub open spec fn newer_entry_first() -> spec_fn(ScoredSession, ScoredSession) -> bool {
    |a: ScoredSession, b: ScoredSession| a.session.time_created > b.session.time_created
}

/// The precedence `rank_entries` sorts by.
pub open spec fn entry_precedence(by_date: bool) -> spec_fn(ScoredSession, ScoredSession) -> bool {
    if by_date {
        newer_entry_first()
    } else {
        higher_score_first()
    }
}

/// The pair a scored session is keyed as carries its date as key.
pub open spec fn key_is_date() -> spec_fn((i64, ScoredSession)) -> bool {
    |p: (i64, ScoredSession)| p.0 == p.1.session.time_created
}

/// Scored sessions stably sorted newest first if `by_date`, else best
/// score first.
pub fn rank_entries(entries: Vec<ScoredSession>, by_date: bool) -> (r: Vec<ScoredSession>)
    ensures
        r@ == stable_sort(entries@, entry_precedence(by_date)),
{
    let ghost orig = entries@;
    let ghost ok = if by_date {
        key_is_date()
    } else {
        key_is_score()
    };
    let mut rest = entries;
    let mut pairs: Vec<(i64, ScoredSession)> = Vec::new();
    let ghost mut m: int = 0;
    while rest.len() > 0
        invariant
            0 <= m <= orig.len(),
            rest@ == orig.skip(m),
            ok == if by_date {
                key_is_date()
            } else {
                key_is_score()
            },
            pairs@.len() == m,
            forall|i: int| 0 <= i < m ==> #[trigger] ok(pairs@[i]),
            forall|i: int| 0 <= i < m ==> (#[trigger] pairs@[i]).1 == orig[i],
        decreases rest.len(),
    {
        let x = rest.remove(0);
        assert(x == orig[m]);
        let key = if by_date {
            x.session.time_created
        } else {
            x.score
        };
        pairs.push((key, x));
        proof {
            assert(rest@ =~= orig.skip(m + 1));
            m = m + 1;
        }
    }
    let ghost pv = pairs@;
    assert(m == orig.len());
    assert(forall|i: int| 0 <= i < m ==> pv[i].1 == orig[i]);
    let sorted = sort_by_key_desc(pairs);
    proof {
        assert forall|i: int| 0 <= i < pv.len() implies #[trigger] ok(pv[i]) by {}
        lemma_stable_sort_map(
            pv,
            larger_key_first::<ScoredSession>(),
            |p: (i64, ScoredSession)| p.1,
            entry_precedence(by_date),
            ok,
        );
        assert(pv.map_values(|p: (i64, ScoredSession)| p.1) =~= orig);
    }
    strip_keys(sorted)
}

/// Filter and score sessions by fuzzy matching `query` on the chosen fields:
/// the title if `match_title`, the directory if `match_dir`. Sessions that
/// score 0 are dropped; the rest come best match first, and sessions with
/// equal scores keep their input order.
pub fn filter_sessions(sessions: Vec<Session>, query: &str, match_title: bool, match_dir: bool) -> (r: Vec<
    ScoredSession,
>)
    ensures
        r@ == ranked_sessions(sessions@, query@, match_title, match_dir),
        r@.len() <= sessions@.len(),
        query@.len() == 0 ==> r@.len() == 0,
{
    let ghost orig = sessions@;
    let ghost scored = score_entry(query@, match_title, match_dir);
    let ghost positive = scores_above_zero();
    let mut input = sessions;
    let mut entries: Vec<ScoredSession> = Vec::new();
    let ghost mut k: int = 0;
    assert(orig.take(0).map_values(scored).filter(positive) =~= Seq::<ScoredSession>::empty()) by {
        reveal(Seq::filter);
    }
    while input.len() > 0
        invariant
            0 <= k <= orig.len(),
            scored == score_entry(query@, match_title, match_dir),
            positive == scores_above_zero(),
            input@ == orig.skip(k),
            entries@ == orig.take(k).map_values(scored).filter(positive),
            query@.len() == 0 ==> entries@.len() == 0,
            entries@.len() <= k,
        decreases input.len(),
    {
        let session = input.remove(0);
        assert(session == orig[k]);
        let title_score = score_field(&session.title, query, match_title);
        let dir_score = score_field(&session.directory, query, match_dir);
        let score = if title_score >= dir_score {
            title_score
        } else {
            dir_score
        };
        assert(score == session_score(session, query@, match_title, match_dir));
        proof {
            let prev = orig.take(k).map_values(scored);
            assert(orig.take(k + 1).map_values(scored) =~= prev.push(scored(session)));
            prev.lemma_filter_push(scored(session), positive);
            assert(input@ =~= orig.skip(k + 1));
        }
        if score > 0 {
            let entry = ScoredSession { session, score };
            assert(entry == scored(orig[k]));
            entries.push(entry);
        }
        proof {
            k = k + 1;
        }
    }
    assert(orig.take(k) =~= orig);
    let r = rank_entries(entries, false);
    proof {
        lemma_stable_sort_preserves(entries@, higher_score_first(), |x: ScoredSession| true);
    }
    r
}

/// The scored sessions whose score is `k`.
pub open spec fn has_score(k: i64) -> spec_fn(ScoredSession) -> bool {
    |x: ScoredSession| x.score == k
}

/// The pair a scored session is keyed as carries its score as key.
pub open spec fn key_is_score() -> spec_fn((i64, ScoredSession)) -> bool {
    |p: (i64, ScoredSession)| p.0 == p.1.score
}

/// Law: ranking keeps every scored session and orders them by descending score.
pub proof fn lemma_rank_descending(s: Seq<ScoredSession>)
    ensures
        rank_by_score(s).len() == s.len(),
        forall|i: int, j: int|
            0 <= i < j < rank_by_score(s).len() ==> #[trigger] rank_by_score(s)[i].score
                >= #[trigger] rank_by_score(s)[j].score,
{
    lemma_stable_sort_sorted(s, higher_score_first());
    lemma_stable_sort_preserves(s, higher_score_first(), |x: ScoredSession| true);
}

/// Law: ranking is stable: the scored sessions of any one score come out in
/// the order they went in.
pub proof fn lemma_rank_stable(s: Seq<ScoredSession>, k: i64)
    ensures
        rank_by_score(s).filter(has_score(k)) == s.filter(has_score(k)),
{
    let anchor = ScoredSession { session: vstd::pervasive::arbitrary::<Session>(), score: k };
    let before = higher_score_first();
    let r = rank_by_score(s);
    lemma_stable_sort_stable(s, before, anchor);
    assert forall|i: int| 0 <= i < r.len() implies tied_with(before, anchor)(#[trigger] r[i])
        == has_score(k)(r[i]) by {}
    lemma_filter_agreeing(r, tied_with(before, anchor), has_score(k));
    assert forall|i: int| 0 <= i < s.len() implies tied_with(before, anchor)(#[trigger] s[i])
        == has_score(k)(s[i]) by {}
    lemma_filter_agreeing(s, tied_with(before, anchor), has_score(k));
}

/// Law: every session that filtering returns scored above 0, with the score
/// its fields give it.
pub proof fn lemma_ranked_scores(sessions: Seq<Session>, query: Seq<char>, match_title: bool, match_dir: bool)
    ensures
        forall|i: int|
            0 <= i < ranked_sessions(sessions, query, match_title, match_dir).len() ==> {
                let x = #[trigger] ranked_sessions(sessions, query, match_title, match_dir)[i];
                &&& x.score > 0
                &&& x.score == session_score(x.session, query, match_title, match_dir)
            },
{
    broadcast use vstd::seq_lib::group_filter_ensures;

    let scored = scored_sessions(sessions, query, match_title, match_dir);
    let mapped = sessions.map_values(score_entry(query, match_title, match_dir));
    let good = |x: ScoredSession|
        x.score > 0 && x.score == session_score(x.session, query, match_title, match_dir);
    assert forall|i: int| 0 <= i < scored.len() implies #[trigger] good(scored[i]) by {
        assert(scores_above_zero()(scored[i]));
        assert(scored.contains(scored[i]));
        mapped.lemma_filter_contains_rev(scores_above_zero(), scored[i]);
        let j = choose|j: int| 0 <= j < mapped.len() && mapped[j] == scored[i];
        assert(mapped[j] == score_entry(query, match_title, match_dir)(sessions[j]));
    }
    lemma_stable_sort_preserves(scored, higher_score_first(), good);
    let r = ranked_sessions(sessions, query, match_title, match_dir);
    assert forall|i: int| 0 <= i < r.len() implies #[trigger] r[i].score > 0 && r[i].score
        == session_score(r[i].session, query, match_title, match_dir) by {
        assert(good(r[i]));
    }
}


/// The session of a scored session.
pub open spec fn session_part() -> spec_fn(ScoredSession) -> Session {
    |e: ScoredSession| e.session
}

/// The sessions of scored sessions, in order.
pub open spec fn sessions_of(r: Seq<ScoredSession>) -> Seq<Session> {
    r.map_values(session_part())
}

proof fn lemma_scored_entries(s: Seq<Session>, query: Seq<char>, match_title: bool, match_dir: bool)
    ensures
        forall|i: int|
            0 <= i < scored_sessions(s, query, match_title, match_dir).len() ==> {
                let e = #[trigger] scored_sessions(s, query, match_title, match_dir)[i];
                e == score_entry(query, match_title, match_dir)(e.session)
            },
{
    let scored = scored_sessions(s, query, match_title, match_dir);
    let mapped = s.map_values(score_entry(query, match_title, match_dir));
    assert forall|i: int| 0 <= i < scored.len() implies #[trigger] scored[i] == score_entry(
        query,
        match_title,
        match_dir,
    )(scored[i].session) by {
        assert(scored.contains(scored[i]));
        mapped.lemma_filter_contains_rev(scores_above_zero(), scored[i]);
        let j = choose|j: int| 0 <= j < mapped.len() && mapped[j] == scored[i];
        assert(mapped[j] == score_entry(query, match_title, match_dir)(s[j]));
    }
}

/// Rankings of two session lists agree under a view `g` of scored sessions
/// that shows the score, when the lists' scored sessions agree under it
/// position by position.
proof fn lemma_ranked_views(
    s1: Seq<Session>,
    s2: Seq<Session>,
    query: Seq<char>,
    match_title: bool,
    match_dir: bool,
    g: spec_fn(ScoredSession) -> (Seq<char>, Seq<char>, i64),
)
    requires
        s1.len() == s2.len(),
        forall|i: int|
            0 <= i < s1.len() ==> g(score_entry(query, match_title, match_dir)(#[trigger] s1[i])) == g(
                score_entry(query, match_title, match_dir)(s2[i]),
            ),
        forall|x: ScoredSession| #[trigger] g(x).2 == x.score,
    ensures
        ranked_sessions(s1, query, match_title, match_dir).map_values(g) == ranked_sessions(
            s2,
            query,
            match_title,
            match_dir,
        ).map_values(g),
{
    let entry = score_entry(query, match_title, match_dir);
    let m1 = s1.map_values(entry);
    let m2 = s2.map_values(entry);
    let shown = |t: (Seq<char>, Seq<char>, i64)| t.2 > 0;
    let higher = |a: (Seq<char>, Seq<char>, i64), b: (Seq<char>, Seq<char>, i64)| a.2 > b.2;
    assert(m1.map_values(g) =~= m2.map_values(g)) by {
        assert forall|i: int| 0 <= i < m1.len() implies m1.map_values(g)[i] == m2.map_values(g)[i] by {
            assert(g(entry(s1[i])) == g(entry(s2[i])));
        }
    }
    lemma_filter_map_values(m1, g, shown);
    lemma_filter_map_values(m2, g, shown);
    assert forall|i: int| 0 <= i < m1.len() implies (|x: ScoredSession| shown(g(x)))(#[trigger] m1[i])
        == scores_above_zero()(m1[i]) by {
        assert(g(m1[i]).2 == m1[i].score);
    }
    lemma_filter_agreeing(m1, |x: ScoredSession| shown(g(x)), scores_above_zero());
    assert forall|i: int| 0 <= i < m2.len() implies (|x: ScoredSession| shown(g(x)))(#[trigger] m2[i])
        == scores_above_zero()(m2[i]) by {
        assert(g(m2[i]).2 == m2[i].score);
    }
    lemma_filter_agreeing(m2, |x: ScoredSession| shown(g(x)), scores_above_zero());
    let sc1 = scored_sessions(s1, query, match_title, match_dir);
    let sc2 = scored_sessions(s2, query, match_title, match_dir);
    assert(sc1.map_values(g) == sc2.map_values(g));
    assert forall|a: ScoredSession, b: ScoredSession|
        #![trigger higher_score_first()(a, b)]
        true && true implies higher_score_first()(a, b) == higher(g(a), g(b)) by {
        assert(g(a).2 == a.score && g(b).2 == b.score);
    }
    lemma_stable_sort_map(sc1, higher_score_first(), g, higher, |x: ScoredSession| true);
    lemma_stable_sort_map(sc2, higher_score_first(), g, higher, |x: ScoredSession| true);
}

/// Law: filtering without searching directories does not depend on them:
/// lists that agree on ids and titles give results that agree, position by
/// position, on ids, titles and scores.
pub proof fn lemma_filter_ignores_directory(
    s1: Seq<Session>,
    s2: Seq<Session>,
    query: Seq<char>,
    match_title: bool,
)
    requires
        s1.len() == s2.len(),
        forall|i: int|
            0 <= i < s1.len() ==> (#[trigger] s1[i]).id@ == s2[i].id@ && s1[i].title@ == s2[i].title@,
    ensures
        ranked_sessions(s1, query, match_title, false).len() == ranked_sessions(
            s2,
            query,
            match_title,
            false,
        ).len(),
        forall|i: int|
            0 <= i < ranked_sessions(s1, query, match_title, false).len() ==> {
                let a = #[trigger] ranked_sessions(s1, query, match_title, false)[i];
                let b = ranked_sessions(s2, query, match_title, false)[i];
                a.session.id@ == b.session.id@ && a.session.title@ == b.session.title@ && a.score
                    == b.score
            },
{
    let g = |x: ScoredSession| (x.session.id@, x.session.title@, x.score);
    lemma_ranked_views(s1, s2, query, match_title, false, g);
    let r1 = ranked_sessions(s1, query, match_title, false);
    let r2 = ranked_sessions(s2, query, match_title, false);
    assert(r1.len() == r1.map_values(g).len());
    assert(r2.len() == r2.map_values(g).len());
    assert forall|i: int| 0 <= i < r1.len() implies {
        let a = #[trigger] r1[i];
        let b = r2[i];
        a.session.id@ == b.session.id@ && a.session.title@ == b.session.title@ && a.score == b.score
    } by {
        assert(r1.map_values(g)[i] == r2.map_values(g)[i]);
        assert(r1.map_values(g)[i] == g(r1[i]));
        assert(r2.map_values(g)[i] == g(r2[i]));
    }
}

/// Law: filtering without searching titles does not depend on them: lists
/// that agree on ids and directories give results that agree, position by
/// position, on ids, directories and scores.
pub proof fn lemma_filter_ignores_title(
    s1: Seq<Session>,
    s2: Seq<Session>,
    query: Seq<char>,
    match_dir: bool,
)
    requires
        s1.len() == s2.len(),
        forall|i: int|
            0 <= i < s1.len() ==> (#[trigger] s1[i]).id@ == s2[i].id@ && s1[i].directory@
                == s2[i].directory@,
    ensures
        ranked_sessions(s1, query, false, match_dir).len() == ranked_sessions(
            s2,
            query,
            false,
            match_dir,
        ).len(),
        forall|i: int|
            0 <= i < ranked_sessions(s1, query, false, match_dir).len() ==> {
                let a = #[trigger] ranked_sessions(s1, query, false, match_dir)[i];
                let b = ranked_sessions(s2, query, false, match_dir)[i];
                a.session.id@ == b.session.id@ && a.session.directory@ == b.session.directory@
                    && a.score == b.score
            },
{
    let g = |x: ScoredSession| (x.session.id@, x.session.directory@, x.score);
    lemma_ranked_views(s1, s2, query, false, match_dir, g);
    let r1 = ranked_sessions(s1, query, false, match_dir);
    let r2 = ranked_sessions(s2, query, false, match_dir);
    assert(r1.len() == r1.map_values(g).len());
    assert(r2.len() == r2.map_values(g).len());
    assert forall|i: int| 0 <= i < r1.len() implies {
        let a = #[trigger] r1[i];
        let b = r2[i];
        a.session.id@ == b.session.id@ && a.session.directory@ == b.session.directory@ && a.score
            == b.score
    } by {
        assert(r1.map_values(g)[i] == r2.map_values(g)[i]);
        assert(r1.map_values(g)[i] == g(r1[i]));
        assert(r2.map_values(g)[i] == g(r2[i]));
    }
}

/// Law: filtering a filtered result again, with the same query and fields,
/// gives it back: the same sessions, scores and order.
pub proof fn lemma_filter_again(s: Seq<Session>, query: Seq<char>, match_title: bool, match_dir: bool)
    ensures
        ranked_sessions(
            sessions_of(ranked_sessions(s, query, match_title, match_dir)),
            query,
            match_title,
            match_dir,
        ) == ranked_sessions(s, query, match_title, match_dir),
{
    let r = ranked_sessions(s, query, match_title, match_dir);
    let again = sessions_of(r);
    let entry = score_entry(query, match_title, match_dir);
    lemma_ranked_scores(s, query, match_title, match_dir);
    assert(again.map_values(entry) =~= r) by {
        assert forall|i: int| 0 <= i < r.len() implies again.map_values(entry)[i] == r[i] by {
            assert(r[i].score == session_score(r[i].session, query, match_title, match_dir));
        }
    }
    assert forall|i: int| 0 <= i < r.len() implies #[trigger] scores_above_zero()(r[i]) by {
        assert(r[i].score > 0);
    }
    lemma_filter_keeps_all(r, scores_above_zero());
    lemma_stable_sort_sorted(scored_sessions(s, query, match_title, match_dir), higher_score_first());
    lemma_sorted_is_fixed(r, higher_score_first());
}

/// How often a session is listed by filtering: as often as it is given if
/// it scores above 0, else never.
pub proof fn lemma_ranked_count(
    s: Seq<Session>,
    query: Seq<char>,
    match_title: bool,
    match_dir: bool,
    x: Session,
)
    ensures
        sessions_of(ranked_sessions(s, query, match_title, match_dir)).to_multiset().count(x) == if session_score(
            x,
            query,
            match_title,
            match_dir,
        ) > 0 {
            s.to_multiset().count(x)
        } else {
            0
        },
{
    let entry = score_entry(query, match_title, match_dir);
    let scored = scored_sessions(s, query, match_title, match_dir);
    let r = ranked_sessions(s, query, match_title, match_dir);
    let is_entry = |e: ScoredSession| e == entry(e.session);
    lemma_scored_entries(s, query, match_title, match_dir);
    assert forall|i: int| 0 <= i < scored.len() implies #[trigger] is_entry(scored[i]) by {}
    lemma_stable_sort_preserves(scored, higher_score_first(), is_entry);
    assert forall|i: int|
        0 <= i < r.len() && session_part()(r[i]) == session_part()(entry(x)) implies #[trigger] r[i]
        == entry(x) by {
        assert(is_entry(r[i]));
    }
    lemma_map_count(r, session_part(), entry(x));
    lemma_stable_sort_permutes(scored, higher_score_first());
    lemma_filter_count(s.map_values(entry), scores_above_zero(), entry(x));
    lemma_map_count(s, entry, x);
}

/// Law: matching a query on both fields lists exactly the sessions that
/// matching it on the title or on the directory lists, each as often as
/// the more of the two, and scores each by the better of its two scores.
pub proof fn lemma_both_fields(s: Seq<Session>, query: Seq<char>)
    ensures
        forall|x: Session|
            #![trigger sessions_of(ranked_sessions(s, query, true, true)).to_multiset().count(x)]
            {
                let both = sessions_of(ranked_sessions(s, query, true, true)).to_multiset().count(x);
                let title = sessions_of(ranked_sessions(s, query, true, false)).to_multiset().count(x);
                let dir = sessions_of(ranked_sessions(s, query, false, true)).to_multiset().count(x);
                both == if title >= dir {
                    title
                } else {
                    dir
                }
            },
        forall|i: int|
            0 <= i < ranked_sessions(s, query, true, true).len() ==> {
                let e = #[trigger] ranked_sessions(s, query, true, true)[i];
                let t = session_score(e.session, query, true, false);
                let d = session_score(e.session, query, false, true);
                e.score == if t >= d {
                    t
                } else {
                    d
                }
            },
{
    assert forall|x: Session|
        #![trigger sessions_of(ranked_sessions(s, query, true, true)).to_multiset().count(x)]
        {
            let both = sessions_of(ranked_sessions(s, query, true, true)).to_multiset().count(x);
            let title = sessions_of(ranked_sessions(s, query, true, false)).to_multiset().count(x);
            let dir = sessions_of(ranked_sessions(s, query, false, true)).to_multiset().count(x);
            both == if title >= dir {
                title
            } else {
                dir
            }
        } by {
        lemma_ranked_count(s, query, true, true, x);
        lemma_ranked_count(s, query, true, false, x);
        lemma_ranked_count(s, query, false, true, x);
    }
    lemma_ranked_scores(s, query, true, true);
}
} // verus!
