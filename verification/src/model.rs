//! Plain request/response carriers shared by the clients and servers
//! built around the engine.

use vstd::prelude::*;

verus! {

/// Options every server-facing command accepts.
pub struct CommonOptions {
    pub host: String,
}

/// Options for the peer-agent transport.
pub struct ZtmOptions {
    pub ztm_agent_port: u16,
    pub bootstrap_node: Option<String>,
}

/// The query parameters a transfer endpoint accepts.
pub struct GetParams {
    pub service: Option<String>,
    pub refspec: Option<String>,
    pub id: Option<String>,
    pub path: Option<String>,
    pub limit: Option<String>,
    pub cursor: Option<String>,
    pub identifier: Option<String>,
    pub port: Option<u16>,
}

/// A uniform result envelope for request handlers.
pub struct CommonResult<T> {
    pub req_result: bool,
    pub data: Option<T>,
    pub err_message: String,
}

impl<T> CommonResult<T> {
    /// Wraps a successful payload.
    pub fn success(data: Option<T>) -> (r: Self)
        ensures
            r.req_result == true,
            r.data == data,
            r.err_message@ == Seq::<char>::empty(),
    {
        CommonResult { req_result: true, data, err_message: String::new() }
    }

    /// Wraps a failure message.
    pub fn failed(err_message: &str) -> (r: Self)
        ensures
            r.req_result == false,
            r.data is None,
            r.err_message@ == err_message@,
    {
        CommonResult { req_result: false, data: None, err_message: err_message.to_string() }
    }
}

/// The arguments of a clone invocation.
pub struct CloneArgs {
    pub remote_repo: String,
    pub local_path: Option<String>,
}

} // verus!
