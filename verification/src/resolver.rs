//! Facts about the node-style module resolver that the bundler core relies
//! on: the table of built-in modules.  A specifier naming a built-in is
//! resolved by the host to a synthetic custom identity instead of a file.

use vstd::prelude::*;
use crate::strutil::str_eq;

verus! {

/// The specifier names a node built-in module.
pub open spec fn spec_is_core_module(s: Seq<char>) -> bool {
    ||| s == "_http_agent"@
    ||| s == "_http_client"@
    ||| s == "_http_common"@
    ||| s == "_http_incoming"@
    ||| s == "_http_outgoing"@
    ||| s == "_http_server"@
    ||| s == "_stream_duplex"@
    ||| s == "_stream_passthrough"@
    ||| s == "_stream_readable"@
    ||| s == "_stream_transform"@
    ||| s == "_stream_wrap"@
    ||| s == "_stream_writable"@
    ||| s == "_tls_common"@
    ||| s == "_tls_wrap"@
    ||| s == "assert"@
    ||| s == "assert/strict"@
    ||| s == "async_hooks"@
    ||| s == "buffer"@
    ||| s == "child_process"@
    ||| s == "cluster"@
    ||| s == "console"@
    ||| s == "constants"@
    ||| s == "crypto"@
    ||| s == "dgram"@
    ||| s == "diagnostics_channel"@
    ||| s == "dns"@
    ||| s == "dns/promises"@
    ||| s == "domain"@
    ||| s == "events"@
    ||| s == "fs"@
    ||| s == "fs/promises"@
    ||| s == "http"@
    ||| s == "http2"@
    ||| s == "https"@
    ||| s == "inspector"@
    ||| s == "module"@
    ||| s == "net"@
    ||| s == "os"@
    ||| s == "path"@
    ||| s == "path/posix"@
    ||| s == "path/win32"@
    ||| s == "perf_hooks"@
    ||| s == "process"@
    ||| s == "punycode"@
    ||| s == "querystring"@
    ||| s == "readline"@
    ||| s == "repl"@
    ||| s == "stream"@
    ||| s == "stream/promises"@
    ||| s == "string_decoder"@
    ||| s == "sys"@
    ||| s == "timers"@
    ||| s == "timers/promises"@
    ||| s == "tls"@
    ||| s == "trace_events"@
    ||| s == "tty"@
    ||| s == "url"@
    ||| s == "util"@
    ||| s == "util/types"@
    ||| s == "v8"@
    ||| s == "vm"@
    ||| s == "wasi"@
    ||| s == "worker_threads"@
    ||| s == "zlib"@
}

/// Whether a specifier names a node built-in module.
#[verifier::rlimit(50)]
pub fn is_core_module(s: &str) -> (r: bool)
    ensures
        r == spec_is_core_module(s@),
{
    str_eq(s, "_http_agent")
    || str_eq(s, "_http_client")
    || str_eq(s, "_http_common")
    || str_eq(s, "_http_incoming")
    || str_eq(s, "_http_outgoing")
    || str_eq(s, "_http_server")
    || str_eq(s, "_stream_duplex")
    || str_eq(s, "_stream_passthrough")
    || str_eq(s, "_stream_readable")
    || str_eq(s, "_stream_transform")
    || str_eq(s, "_stream_wrap")
    || str_eq(s, "_stream_writable")
    || str_eq(s, "_tls_common")
    || str_eq(s, "_tls_wrap")
    || str_eq(s, "assert")
    || str_eq(s, "assert/strict")
    || str_eq(s, "async_hooks")
    || str_eq(s, "buffer")
    || str_eq(s, "child_process")
    || str_eq(s, "cluster")
    || str_eq(s, "console")
    || str_eq(s, "constants")
    || str_eq(s, "crypto")
    || str_eq(s, "dgram")
    || str_eq(s, "diagnostics_channel")
    || str_eq(s, "dns")
    || str_eq(s, "dns/promises")
    || str_eq(s, "domain")
    || str_eq(s, "events")
    || str_eq(s, "fs")
    || str_eq(s, "fs/promises")
    || str_eq(s, "http")
    || str_eq(s, "http2")
    || str_eq(s, "https")
    || str_eq(s, "inspector")
    || str_eq(s, "module")
    || str_eq(s, "net")
    || str_eq(s, "os")
    || str_eq(s, "path")
    || str_eq(s, "path/posix")
    || str_eq(s, "path/win32")
    || str_eq(s, "perf_hooks")
    || str_eq(s, "process")
    || str_eq(s, "punycode")
    || str_eq(s, "querystring")
    || str_eq(s, "readline")
    || str_eq(s, "repl")
    || str_eq(s, "stream")
    || str_eq(s, "stream/promises")
    || str_eq(s, "string_decoder")
    || str_eq(s, "sys")
    || str_eq(s, "timers")
    || str_eq(s, "timers/promises")
    || str_eq(s, "tls")
    || str_eq(s, "trace_events")
    || str_eq(s, "tty")
    || str_eq(s, "url")
    || str_eq(s, "util")
    || str_eq(s, "util/types")
    || str_eq(s, "v8")
    || str_eq(s, "vm")
    || str_eq(s, "wasi")
    || str_eq(s, "worker_threads")
    || str_eq(s, "zlib")
}

} // verus!
