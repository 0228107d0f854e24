//! The Kakoune session that files are opened in.
use vstd::prelude::*;

verus! {

/// A Kakoune session and the client in it that shows opened files.
pub struct KakClient {
    pub session: String,
    pub client: String,
}

/// The command that makes the client edit the file at `path`.
pub open spec fn open_command(client: Seq<char>, path: Seq<char>) -> Seq<char> {
    "evaluate-commands -client "@ + client + " edit '"@ + path + "'"@
}

impl KakClient {
    /// The command to send to the session so that the client edits `path`:
    /// `evaluate-commands -client <client> edit '<path>'`.
    pub fn open_file(&self, path: &str) -> (cmd: String)
        ensures
            cmd@ == open_command(self.client@, path@),
    {
        let mut cmd = String::from_str("evaluate-commands -client ");
        cmd.append(self.client.as_str());
        cmd.append(" edit '");
        cmd.append(path);
        cmd.append("'");
        cmd
    }
}

} // verus!
