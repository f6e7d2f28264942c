//! Where the embedding requests go.

use vstd::prelude::*;

use crate::text::{concat3, decimal, decimal_string};

verus! {

/// The OpenAI-compatible embeddings endpoint of the server on `port` of
/// the local machine.
pub open spec fn embeddings_url_for(port: u16) -> Seq<char> {
    "http://127.0.0.1:"@ + decimal(port as nat) + "/v1/embeddings"@
}

/// The embeddings endpoint for the server on the given port on localhost.
pub fn embeddings_url(port: u16) -> (res: String)
    ensures
        res@ == embeddings_url_for(port),
{
    let p = decimal_string(port as u64);
    concat3("http://127.0.0.1:", p.as_str(), "/v1/embeddings")
}

} // verus!
