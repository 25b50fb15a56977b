//! The commands of the client and the request method that each stands
//! for.
use vstd::prelude::*;

verus! {

/// What the client is asked to do: one request of a given method, the
/// download of one file, or the download of a site.
pub enum Commands {
    GET { url: String },
    POST { url: String },
    PUT { url: String },
    DELETE { url: String },
    OPTIONS { url: String },
    HEAD { url: String },
    CONNECT { url: String },
    PATCH { url: String },
    TRACE { url: String },
    Download { outpath: Option<String>, url: String },
    SiteDownload { url: String, outputdir: Option<String>, level: usize },
}

/// A request method.
#[derive(Clone, Copy, Debug, PartialEq, Eq, Structural)]
pub enum Method {
    GET,
    POST,
    PUT,
    DELETE,
    OPTIONS,
    HEAD,
    CONNECT,
    PATCH,
    TRACE,
}

/// The method of a command: its own for a request, `GET` for the two
/// downloads.
pub open spec fn method_of(cmd: Commands) -> Method {
    match cmd {
        Commands::GET { .. } => Method::GET,
        Commands::POST { .. } => Method::POST,
        Commands::PUT { .. } => Method::PUT,
        Commands::DELETE { .. } => Method::DELETE,
        Commands::OPTIONS { .. } => Method::OPTIONS,
        Commands::HEAD { .. } => Method::HEAD,
        Commands::CONNECT { .. } => Method::CONNECT,
        Commands::PATCH { .. } => Method::PATCH,
        Commands::TRACE { .. } => Method::TRACE,
        Commands::Download { .. } => Method::GET,
        Commands::SiteDownload { .. } => Method::GET,
    }
}

/// The request method of a command.
pub fn cmd_to_method(cmd: &Commands) -> (method: Method)
    ensures
        method == method_of(*cmd),
{
    match cmd {
        Commands::PUT { .. } => Method::PUT,
        Commands::POST { .. } => Method::POST,
        Commands::DELETE { .. } => Method::DELETE,
        Commands::OPTIONS { .. } => Method::OPTIONS,
        Commands::HEAD { .. } => Method::HEAD,
        Commands::CONNECT { .. } => Method::CONNECT,
        Commands::PATCH { .. } => Method::PATCH,
        Commands::TRACE { .. } => Method::TRACE,
        _ => Method::GET,
    }
}

/// Whether redirects are followed: always, unless the caller switched it
/// off.
pub fn follow_redirects(no_redirect: bool) -> (follow: bool)
    ensures
        follow == !no_redirect,
{
    !no_redirect
}

} // verus!
