//! The part of the process configuration that the view generators read: the
//! public hostname and the feed's title and subtitle. Listen address, assets
//! root and cache endpoint are consumed outside the library.

use vstd::prelude::*;

verus! {

/// Configuration values that the generated views embed.
#[derive(Debug)]
pub struct Config {
    /// The public hostname, used to build absolute links.
    pub hostname: String,
    /// The feed's title.
    pub rss_title: String,
    /// The feed's optional subtitle.
    pub rss_subtitle: Option<String>,
}

impl Default for Config {
    fn default() -> (r: Config)
        ensures
            r.hostname@ == "blog.example.net"@,
            r.rss_title@ == "My blog"@,
            r.rss_subtitle is Some,
            r.rss_subtitle->0@ == "A collection of my thoughts"@,
    {
        Config {
            hostname: "blog.example.net".to_owned(),
            rss_title: "My blog".to_owned(),
            rss_subtitle: Some("A collection of my thoughts".to_owned()),
        }
    }
}

} // verus!
