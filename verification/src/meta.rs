//! What the gdapi plugin records about a running editor in
//! `.godot/gdapi.json`, and the ports and token taken from it.

use vstd::prelude::*;

verus! {

/// The runtime record of the gdapi plugin.
pub struct GdApiMeta {
    /// Port of the plugin's HTTP server.
    pub http_port: u16,
    /// Port of the editor's language server, when recorded.
    pub lsp_port: Option<u16>,
    /// Process id of the editor.
    pub pid: Option<u32>,
    /// Version of the plugin.
    pub gdapi_version: Option<String>,
    /// Token requests must carry; none or empty means no check.
    pub token: Option<String>,
}

impl GdApiMeta {
    /// The recorded language server port.
    pub fn lsp_port(&self) -> (r: Option<u16>)
        ensures
            r == self.lsp_port,
    {
        self.lsp_port
    }

    /// The recorded token, if any.
    pub fn token(&self) -> (r: Option<&str>)
        ensures
            match self.token {
                Some(t) => r matches Some(s) && s@ == t@,
                None => r is None,
            },
    {
        match &self.token {
            Some(t) => Some(t.as_str()),
            None => None,
        }
    }
}

/// The language server port a record gives, when there is a record.
pub fn meta_lsp_port(meta: Option<&GdApiMeta>) -> (r: Option<u16>)
    ensures
        r == match meta { Some(m) => m.lsp_port, None => None },
{
    match meta {
        Some(m) => m.lsp_port,
        None => None,
    }
}

} // verus!
