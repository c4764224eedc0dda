use vstd::prelude::*;

use crate::response::{
    extract_identifier, fill_placeholder, fill_template, hex_lower, identifier_of,
    identifier_token, MalformedResponse,
};

verus! {

/// Where identifiers are delivered: a URL in which `{}` stands for the
/// identifier's hexadecimal token.
pub struct Config {
    pub endpoint: String,
}

/// The URL to which the identifier in raw response `raw` goes.
pub open spec fn delivery_url(endpoint: Seq<char>, raw: Seq<u8>) -> Seq<char> {
    fill_template(endpoint, hex_lower(identifier_of(raw)))
}

impl Config {
    /// The URL for a raw card response: the endpoint with each `{}` replaced
    /// by the lowercase hexadecimal identifier, trailer stripped. A response
    /// shorter than the trailer is malformed.
    pub fn url_for(&self, raw: &Vec<u8>) -> (r: Result<String, MalformedResponse>)
        ensures
            r is Ok <==> raw@.len() >= 2,
            r matches Ok(u) ==> u@ == delivery_url(self.endpoint@, raw@),
            r matches Err(e) ==> e.len == raw@.len(),
    {
        match extract_identifier(raw) {
            Ok(id) => {
                let token = identifier_token(&id);
                Ok(fill_placeholder(self.endpoint.as_str(), token.as_str()))
            },
            Err(e) => Err(e),
        }
    }
}

} // verus!
