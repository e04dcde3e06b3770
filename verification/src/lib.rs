//! Content rewriting for an intercepting HTTP proxy.
//!
//! Given the proxy's own origin and the upstream page's base URL, the
//! modules here transform HTML documents, CSS stylesheets, JavaScript
//! sources and Content-Security-Policy headers so that every URL-bearing
//! construct resolves back through the proxy.

pub mod chars;
pub mod pct;
pub mod urlcodec;
pub mod csp;
pub mod css;
pub mod dom;
pub mod html;
pub mod js;
