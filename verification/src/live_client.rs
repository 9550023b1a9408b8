//! The state of a client of a collaboration session.

use vstd::prelude::*;

verus! {

/// What a client shows and where its cursor stands.
#[derive(Debug)]
pub struct LiveClient {
    pub server_url: String,
    pub session_id: String,
    pub user_name: String,
    pub current_tab: usize,
    pub terminal_content: String,
    pub code_editor_content: String,
    pub participants: Vec<String>,
    pub compilation_status: String,
    pub cursor_line: u32,
    pub cursor_column: u32,
}

impl LiveClient {
    /// A client on its first tab, with empty buffers, the two standing
    /// participants, and the cursor at the origin.
    pub fn new(server_url: String, session_id: String, user_name: String) -> (client: LiveClient)
        ensures
            client.server_url == server_url,
            client.session_id == session_id,
            client.user_name == user_name,
            client.current_tab == 0,
            client.terminal_content@ == Seq::<char>::empty(),
            client.code_editor_content@ == Seq::<char>::empty(),
            client.participants@.len() == 2,
            client.participants@[0]@ == "Alice"@,
            client.participants@[1]@ == "Bob"@,
            client.compilation_status@ == "Ready"@,
            client.cursor_line == 0,
            client.cursor_column == 0,
    {
        let mut participants: Vec<String> = Vec::new();
        participants.push("Alice".to_owned());
        participants.push("Bob".to_owned());
        LiveClient {
            server_url,
            session_id,
            user_name,
            current_tab: 0,
            terminal_content: String::new(),
            code_editor_content: String::new(),
            participants,
            compilation_status: "Ready".to_owned(),
            cursor_line: 0,
            cursor_column: 0,
        }
    }
}

} // verus!
