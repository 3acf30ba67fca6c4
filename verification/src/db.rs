use vstd::prelude::*;

verus! {

/// The query that lists every session, newest first.
pub open spec fn all_sessions_query() -> Seq<char> {
    "SELECT id, title, directory, time_created, parent_id FROM session ORDER BY time_created DESC"@
}

/// The query that lists the top-level sessions (those without a parent), newest first.
pub open spec fn top_level_sessions_query() -> Seq<char> {
    "SELECT id, title, directory, time_created, parent_id FROM session WHERE parent_id IS NULL ORDER BY time_created DESC"@
}

/// The SQL that lists the sessions: subagent sessions (those with a parent)
/// are left out unless `include_subagents`.
pub fn sessions_query(include_subagents: bool) -> (r: &'static str)
    ensures
        r@ == if include_subagents {
            all_sessions_query()
        } else {
            top_level_sessions_query()
        },
{
    if include_subagents {
        "SELECT id, title, directory, time_created, parent_id FROM session ORDER BY time_created DESC"
    } else {
        "SELECT id, title, directory, time_created, parent_id FROM session WHERE parent_id IS NULL ORDER BY time_created DESC"
    }
}

} // verus!
