//! The token that the bridge shows to Roomzin nodes.

use crate::text::joined;
use vstd::prelude::*;

verus! {

/// What reading the file that holds the token came to.
#[derive(Debug)]
pub enum AuthFile {
    /// The file could not be read; the text says why.
    Unreadable(String),
    /// Its contents are no token; the text says why.
    Unparsed(String),
    /// The token.
    Token(String),
}

/// The token in the file, or what is told of its absence.
pub fn load_auth_file(file: AuthFile) -> (outcome: Result<String, String>)
    ensures
        match file {
            AuthFile::Unreadable(why) => outcome matches Err(e) && e@
                == "Failed to read auth file: "@ + why@,
            AuthFile::Unparsed(why) => outcome matches Err(e) && e@
                == "Failed to parse auth file: "@ + why@,
            AuthFile::Token(token) => outcome == Ok::<String, String>(token),
        },
{
    match file {
        AuthFile::Unreadable(why) => Err(joined("Failed to read auth file: ", why.as_str())),
        AuthFile::Unparsed(why) => Err(joined("Failed to parse auth file: ", why.as_str())),
        AuthFile::Token(token) => Ok(token),
    }
}

/// The token, once it is loaded.
#[derive(Debug)]
pub struct TokenStore {
    token: Option<String>,
}

impl View for TokenStore {
    type V = Option<Seq<char>>;

    closed spec fn view(&self) -> Option<Seq<char>> {
        match self.token {
            Some(token) => Some(token@),
            None => None,
        }
    }
}

impl TokenStore {
    /// A store without a token.
    pub fn new() -> (store: Self)
        ensures
            store@ is None,
    {
        TokenStore { token: None }
    }

    /// Takes the first token; a second one is refused.
    pub fn init_token(&mut self, roomzin_token: String) -> (outcome: Result<(), String>)
        ensures
            outcome is Ok <==> old(self)@ is None,
            outcome is Ok ==> final(self)@ == Some(roomzin_token@),
            outcome matches Err(e) ==> e@ == "Token already loaded"@ && final(self)@ == old(self)@,
    {
        if self.token.is_some() {
            return Err("Token already loaded".to_owned());
        }
        self.token = Some(roomzin_token);
        Ok(())
    }

    /// Takes a new token in place of the first one.
    pub fn reload_token(&mut self, roomzin_token: String) -> (outcome: Result<(), String>)
        ensures
            outcome is Ok <==> old(self)@ is Some,
            outcome is Ok ==> final(self)@ == Some(roomzin_token@),
            outcome matches Err(e) ==> e@ == "Auth token not initialized"@ && final(self)@ == old(
                self,
            )@,
    {
        if self.token.is_none() {
            return Err("Auth token not initialized".to_owned());
        }
        self.token = Some(roomzin_token);
        Ok(())
    }

    /// The token.
    pub fn get_roomzin_token(&self) -> (token: String)
        requires
            self@ is Some,
        ensures
            self@ == Some(token@),
    {
        match &self.token {
            Some(token) => token.clone(),
            None => String::new(),
        }
    }

    /// The token as it is shown for debugging.
    pub fn debug_token(&self) -> (shown: Option<String>)
        ensures
            match self@ {
                Some(token) => shown matches Some(text) && text@ == "roomzin_token: "@ + token,
                None => shown is None,
            },
    {
        match &self.token {
            Some(token) => Some(joined("roomzin_token: ", token.as_str())),
            None => None,
        }
    }
}

/// Watches the file that holds the token, by the time of its last change.
#[derive(Debug, Clone, Copy)]
pub struct TokenWatcher {
    /// Change of the file that was taken in last, in nanoseconds since the epoch.
    pub last_modified: i128,
}

impl TokenWatcher {
    /// A watcher that has taken in the change at `modified`.
    pub fn new(modified: i128) -> (watcher: Self)
        ensures
            watcher.last_modified == modified,
    {
        TokenWatcher { last_modified: modified }
    }

    /// Whether the file has to be read: it changed since.
    pub fn is_stale(&self, modified: i128) -> (stale: bool)
        ensures
            stale == (modified > self.last_modified),
    {
        modified > self.last_modified
    }

    /// Takes note of an attempt to reload the file as changed at `modified`:
    /// where it failed, the file is read again next time.
    pub fn reloaded(&mut self, modified: i128, ok: bool)
        ensures
            final(self).last_modified == if ok {
                modified
            } else {
                old(self).last_modified
            },
    {
        if ok {
            self.last_modified = modified;
        }
    }
}

} // verus!
