//! Records that the engine and its surroundings pass around.

use vstd::prelude::*;

verus! {

/// A login session.
pub struct Session {
    pub auth_token: String,
    pub expiration_time: i64,
    pub username: String,
    pub smartape_token: String,
}

/// A login session about to be stored.
pub struct NewSession {
    pub auth_token: String,
    pub expiration_time: i64,
    pub username: String,
    pub smartape_token: String,
}

/// A message for a user, such as the news of an unlocked achievement.
pub struct SystemMessage {
    pub id: i32,
    pub user: String,
    pub message_type: String,
    pub time: i64,
    pub content: String,
}

/// A user's character; each customizable slot is empty until chosen.
pub struct Character {
    pub username: String,
    pub body_color: Option<String>,
    pub hat_id: Option<String>,
    pub face_id: Option<String>,
    pub shirt_id: Option<String>,
    pub pants_id: Option<String>,
}

/// One graded submission of a user.
pub struct Submission {
    pub task_id: i64,
    pub source_code: String,
    /// The grader's verdict, such as "SUCCESS" or "COMPILE_ERROR".
    pub result_type: String,
}

} // verus!
