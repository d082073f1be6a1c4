//! The account in whose name the remote service is asked.

use vstd::prelude::*;

verus! {

/// A service account: who asks, the key that proves it, and where the key
/// is exchanged for a token.
#[derive(Debug)]
pub struct Account {
    pub client_email: String,
    pub private_key: String,
    pub token_uri: String,
}

impl Clone for Account {
    fn clone(&self) -> (r: Self)
        ensures
            r == *self,
    {
        Account {
            client_email: self.client_email.clone(),
            private_key: self.private_key.clone(),
            token_uri: self.token_uri.clone(),
        }
    }
}

} // verus!
