//! Waking an Android device through Firebase Cloud Messaging.
//!
//! **What is sent is a poke and nothing else.** No filenames, no sizes, no
//! counts, not even which peer has something. A woken device syncs with the
//! peers it already knows, so there is nothing useful to put in the message and
//! every reason not to.

use vstd::prelude::*;

use crate::text;

verus! {

/// What is issued for a service account.
#[derive(Debug, Clone)]
pub struct ServiceAccount {
    pub project_id: String,
    pub client_email: String,
    pub private_key: String,
}

/// An access token and when it stops being usable, in nanoseconds.
struct Access {
    token: String,
    until: u128,
}

/// What is needed to send pokes: the account, and the access token held for it.
pub struct Fcm {
    account: ServiceAccount,
    access: Option<Access>,
}

/// How long before its end a token is no longer used, in nanoseconds: a token
/// about to expire mid-request is worse than an early refresh.
pub const MARGIN: u128 = 120_000_000_000;

/// Nanoseconds in a second.
pub const SECOND: u128 = 1_000_000_000;

/// The claim that buys an access token.
#[derive(Debug, Clone)]
pub struct Claims {
    pub iss: String,
    pub scope: String,
    pub aud: String,
    pub iat: u64,
    pub exp: u64,
}

/// `text` as a JSON string.
pub uninterp spec fn json_string(text: Seq<char>) -> Seq<char>;

/// `serde_json::Value::to_string` of a string: the text in double quotes with
/// what JSON asks for escaped, which depends on the text alone.
#[verifier::external_body]
fn json_string_of(text: &str) -> (json: String)
    ensures
        json@ == json_string(text@),
{
    serde_json::Value::String(text.to_owned()).to_string()
}

impl Fcm {
    pub closed spec fn project(&self) -> Seq<char> {
        self.account.project_id@
    }

    pub closed spec fn email(&self) -> Seq<char> {
        self.account.client_email@
    }

    /// The token held, and until when it can be used.
    pub closed spec fn held(&self) -> Option<(Seq<char>, u128)> {
        match self.access {
            Some(access) => Some((access.token@, access.until)),
            None => None,
        }
    }

    pub fn new(account: ServiceAccount) -> (fcm: Self)
        ensures
            fcm.project() == account.project_id@,
            fcm.email() == account.client_email@,
            fcm.held() is None,
    {
        Fcm { account, access: None }
    }

    /// The URL a message is posted to.
    pub fn endpoint(&self) -> (url: String)
        ensures
            url@ == "https://fcm.googleapis.com/v1/projects/"@ + self.project() + "/messages:send"@,
    {
        "https://fcm.googleapis.com/v1/projects/".to_owned().concat(
            &self.account.project_id,
        ).concat("/messages:send")
    }

    /// The access token held, if it can still be used at `now`. Otherwise
    /// another is to be asked for.
    ///
    /// Tokens last an hour. Asking for one per push would triple the round trips
    /// and rate-limit a busy service.
    pub fn access_token(&self, now: u128) -> (token: Option<String>)
        requires
            now + MARGIN <= u128::MAX,
        ensures
            match token {
                Some(t) => self.held() matches Some((held, until)) && until > now + MARGIN && t@
                    == held,
                None => self.held() matches Some((held, until)) ==> until <= now + MARGIN,
            },
    {
        match &self.access {
            Some(held) => {
                if held.until > now + MARGIN {
                    Some(held.token.clone())
                } else {
                    None
                }
            },
            None => None,
        }
    }

    /// A token was granted at `now`, for so many seconds.
    pub fn granted(&mut self, token: String, expires_in: u64, now: u128)
        requires
            now + expires_in * SECOND <= u128::MAX,
        ensures
            final(self).held() == Some((token@, (now + expires_in * SECOND) as u128)),
            final(self).project() == old(self).project(),
            final(self).email() == old(self).email(),
    {
        let until: u128 = now + expires_in as u128 * SECOND;
        self.access = Some(Access { token, until });
    }

    /// The claim that buys an access token, at `now` in unix seconds.
    pub fn assertion(&self, now: u64) -> (claims: Claims)
        requires
            now + 3600 <= u64::MAX,
        ensures
            claims.iss@ == self.email(),
            claims.scope@ == "https://www.googleapis.com/auth/firebase.messaging"@,
            claims.aud@ == "https://oauth2.googleapis.com/token"@,
            claims.iat == now,
            claims.exp == now + 3600,
    {
        Claims {
            iss: self.account.client_email.clone(),
            scope: "https://www.googleapis.com/auth/firebase.messaging".to_owned(),
            aud: "https://oauth2.googleapis.com/token".to_owned(),
            iat: now,
            exp: now + 3600,
        }
    }

    /// The message body for a poke.
    ///
    /// Data-only and high priority. Data-only because a notification message
    /// would put something on the person's screen, and this is housekeeping
    /// they did not ask to be told about. High priority because a normal one is
    /// held until the phone next wakes on its own.
    pub fn body(token: &str) -> (json: String)
        ensures
            json@ == poke(json_string(token@)),
    {
        Fcm::body_around(&json_string_of(token))
    }

    /// The message body for a poke, around the token as a JSON string.
    pub fn body_around(token_json: &str) -> (json: String)
        ensures
            json@ == poke(token_json@),
    {
        "{\"message\":{\"android\":{\"priority\":\"high\"},\"data\":{\"qurb\":\"sync\"},\"token\":".to_owned().concat(
            token_json,
        ).concat("}}")
    }

    /// What came of a poke, by whether the service took it.
    pub fn outcome(success: bool, status: &str, reply: &str) -> (result: Result<(), String>)
        ensures
            match result {
                Ok(_) => success,
                Err(why) => !success && why@ == "firebase refused it: "@ + status@ + " "@ + reply@,
            },
    {
        if success {
            Ok(())
        } else {
            Err("firebase refused it: ".to_owned().concat(status).concat(" ").concat(reply))
        }
    }
}

/// The message body for a poke: the token and nothing about anybody's files.
pub open spec fn poke(token_json: Seq<char>) -> Seq<char> {
    "{\"message\":{\"android\":{\"priority\":\"high\"},\"data\":{\"qurb\":\"sync\"},\"token\":"@
        + token_json + "}}"@
}

/// A token is used until two minutes before it runs out, and times are counted in
/// nanoseconds: one that is granted for some seconds runs out that many later.
pub proof fn law_a_token_is_given_up_in_time(now: u128, expires_in: u64)
    requires
        now + expires_in * 1_000_000_000 <= u128::MAX,
    ensures
        ({
            let until = now + expires_in * SECOND;
            forall|later: int|
                now <= later ==> (#[trigger] (later + MARGIN) < until <==> later - now
                    < expires_in * 1_000_000_000 - 120_000_000_000)
        }),
{
}

} // verus!
