use vstd::prelude::*;

verus! {

/// One recorded session.
#[derive(Debug)]
pub struct Session {
    pub id: String,
    pub title: String,
    pub directory: String,
    /// Creation time in epoch milliseconds.
    pub time_created: i64,
    pub parent_id: Option<String>,
    /// The last message typed in the session; empty until it is known.
    pub last_input: String,
}

impl Clone for Session {
    fn clone(&self) -> (r: Self)
        ensures
            r == *self,
    {
        let parent_id = match &self.parent_id {
            Some(p) => Some(p.clone()),
            None => None,
        };
        Session {
            id: self.id.clone(),
            title: self.title.clone(),
            directory: self.directory.clone(),
            time_created: self.time_created,
            parent_id,
            last_input: self.last_input.clone(),
        }
    }
}

/// A session paired with its fuzzy match score.
#[derive(Debug)]
pub struct ScoredSession {
    pub session: Session,
    pub score: i64,
}

impl Clone for ScoredSession {
    fn clone(&self) -> (r: Self)
        ensures
            r == *self,
    {
        ScoredSession { session: self.session.clone(), score: self.score }
    }
}

} // verus!
