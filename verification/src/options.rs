//! Where the two schemas are found.

use vstd::prelude::*;

verus! {

/// The two databases to compare: the original, which says what is wanted,
/// and the target, which is to be changed.
#[derive(Debug)]
pub struct DbConfig {
    pub original_user: String,
    pub original_password: String,
    pub original_host: String,
    pub original_port: String,
    pub original_schema: String,
    pub target_user: String,
    pub target_password: String,
    pub target_host: String,
    pub target_port: String,
    pub target_schema: String,
}

/// The address of a schema on a MySQL server.
pub open spec fn connection_url(
    user: Seq<char>,
    password: Seq<char>,
    host: Seq<char>,
    port: Seq<char>,
    schema: Seq<char>,
) -> Seq<char> {
    "mysql://"@ + user + ":"@ + password + "@"@ + host + ":"@ + port + "/"@ + schema
}

/// Writes the address of a schema on a MySQL server.
fn write_url(user: &String, password: &String, host: &String, port: &String, schema: &String) -> (url:
    String)
    ensures
        url@ == connection_url(user@, password@, host@, port@, schema@),
{
    let mut url = String::from_str("mysql://");
    url.append(user.as_str());
    url.append(":");
    url.append(password.as_str());
    url.append("@");
    url.append(host.as_str());
    url.append(":");
    url.append(port.as_str());
    url.append("/");
    url.append(schema.as_str());
    url
}

impl DbConfig {
    /// The address of the original schema.
    pub fn original_url(&self) -> (url: String)
        ensures
            url@ == connection_url(
                self.original_user@,
                self.original_password@,
                self.original_host@,
                self.original_port@,
                self.original_schema@,
            ),
    {
        write_url(
            &self.original_user,
            &self.original_password,
            &self.original_host,
            &self.original_port,
            &self.original_schema,
        )
    }

    /// The address of the target schema.
    pub fn target_url(&self) -> (url: String)
        ensures
            url@ == connection_url(
                self.target_user@,
                self.target_password@,
                self.target_host@,
                self.target_port@,
                self.target_schema@,
            ),
    {
        write_url(
            &self.target_user,
            &self.target_password,
            &self.target_host,
            &self.target_port,
            &self.target_schema,
        )
    }
}

} // verus!
