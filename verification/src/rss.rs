//! The Atom feed: from a directory listing, one entry per `.md` file, in
//! listing order — deliberately not re-sorted, and deliberately without the
//! identity check the index applies: any `.md` file becomes an entry. The
//! document itself is serialized by the syndication crate.

use vstd::prelude::*;

use crate::config::Config;
use crate::index::file_views;
use crate::index::strip_md;
use crate::index::strip_md_str;
use crate::store::md_suffix;
use crate::store::FileEntry;
use crate::store::FileEntryView;
use crate::utils::detect_title_md;
use crate::utils::title_of;

verus! {

/// One feed entry: a title, the full raw body, and an absolute link.
pub struct FeedEntry {
    pub title: String,
    pub content: String,
    pub link_href: String,
}

/// The mathematical shadow of a feed entry.
pub ghost struct FeedEntryView {
    pub title: Seq<char>,
    pub content: Seq<char>,
    pub link_href: Seq<char>,
}

impl View for FeedEntry {
    type V = FeedEntryView;

    open spec fn view(&self) -> FeedEntryView {
        FeedEntryView { title: self.title@, content: self.content@, link_href: self.link_href@ }
    }
}

/// The views of a run of feed entries.
pub open spec fn feed_entry_views(s: Seq<FeedEntry>) -> Seq<FeedEntryView> {
    s.map_values(|x: FeedEntry| x@)
}

/// Whether a filename carries the `.md` extension: the suffix, after a
/// non-empty stem — a name that is nothing but `.md` is a hidden file with no
/// extension.
pub open spec fn has_md_extension(name: Seq<char>) -> bool {
    name.len() > 3 && name.subrange(name.len() - 3, name.len() as int) == md_suffix()
}

/// Tests a filename for the `.md` extension.
pub fn has_md_extension_str(name: &str) -> (r: bool)
    ensures
        r == has_md_extension(name@),
{
    let len = name.unicode_len();
    if len > 3 && name.get_char(len - 3) == '.' && name.get_char(len - 2) == 'm' && name.get_char(
        len - 1,
    ) == 'd' {
        proof {
            assert(name@.subrange(len - 3, len as int) =~= md_suffix());
        }
        true
    } else {
        proof {
            if name@.len() > 3 && name@.subrange(len - 3, len as int) == md_suffix() {
                assert(name@.subrange(len - 3, len as int)[0] == name@[len - 3]);
                assert(name@.subrange(len - 3, len as int)[1] == name@[len - 2]);
                assert(name@.subrange(len - 3, len as int)[2] == name@[len - 1]);
            }
        }
        false
    }
}

/// The absolute link of one post: `https://<hostname>/post/<stem>`.
pub open spec fn spec_post_href(hostname: Seq<char>, stem: Seq<char>) -> Seq<char> {
    seq!['h', 't', 't', 'p', 's', ':', '/', '/'] + hostname + seq!['/', 'p', 'o', 's', 't', '/']
        + stem
}

/// The feed's own link: `https://<hostname>/rss`.
pub open spec fn spec_feed_self_link(hostname: Seq<char>) -> Seq<char> {
    seq!['h', 't', 't', 'p', 's', ':', '/', '/'] + hostname + seq!['/', 'r', 's', 's']
}

/// The entry built for one `.md` file: the extracted title — or the stem when
/// the body has none — the raw body as content, and the post's link.
pub open spec fn spec_feed_entry(e: FileEntryView, hostname: Seq<char>) -> FeedEntryView {
    let stem = strip_md(e.name);
    FeedEntryView {
        title: match title_of(e.contents) {
            Some(t) => t,
            None => stem,
        },
        content: e.contents,
        link_href: spec_post_href(hostname, stem),
    }
}

/// The entries of the feed: one per `.md` file, in listing order.
pub open spec fn feed_entries_of(entries: Seq<FileEntryView>, hostname: Seq<char>) -> Seq<
    FeedEntryView,
>
    decreases entries.len(),
{
    if entries.len() == 0 {
        Seq::empty()
    } else {
        let rest = feed_entries_of(entries.drop_last(), hostname);
        if has_md_extension(entries.last().name) {
            rest.push(spec_feed_entry(entries.last(), hostname))
        } else {
            rest
        }
    }
}

/// What the syndication crate serializes a feed to, given the feed-level
/// metadata and the entries.
pub uninterp spec fn atom_xml_of(
    title: Seq<char>,
    subtitle: Seq<char>,
    self_href: Seq<char>,
    entries: Seq<FeedEntryView>,
) -> Seq<char>;

/// Relies on atom_syndication::Feed::to_string: the Atom XML document of the
/// feed with this title, subtitle, self link and these entries, a pure
/// function of those values.
#[verifier::external_body]
fn feed_to_xml(title: &str, subtitle: &str, self_href: &str, entries: &Vec<FeedEntry>) -> (r:
    String)
    ensures
        r@ == atom_xml_of(title@, subtitle@, self_href@, feed_entry_views(entries@)),
{
    let mut self_link = atom_syndication::Link::default();
    self_link.set_href(self_href);
    let es = entries.iter().map(|e| {
        let mut content = atom_syndication::Content::default();
        content.set_value(e.content.clone());
        let mut link = atom_syndication::Link::default();
        link.set_href(e.link_href.clone());
        atom_syndication::Entry { title: e.title.clone().into(), content: Some(content), links: vec![link], ..Default::default() }
    }).collect();
    let feed = atom_syndication::Feed {
        title: title.to_string().into(),
        subtitle: Some(atom_syndication::Text::from(subtitle.to_string())),
        links: vec![self_link], entries: es, ..Default::default()
    };
    feed.to_string()
}

/// The subtitle the feed shows: the configured one, or empty.
pub open spec fn spec_subtitle(config: Config) -> Seq<char> {
    match config.rss_subtitle {
        Some(s) => s@,
        None => Seq::empty(),
    }
}

/// The whole generated feed document.
pub open spec fn spec_generate_feed(entries: Seq<FileEntryView>, config: Config) -> Seq<char> {
    atom_xml_of(
        config.rss_title@,
        spec_subtitle(config),
        spec_feed_self_link(config.hostname@),
        feed_entries_of(entries, config.hostname@),
    )
}

/// The absolute link of the post with this stem.
fn post_href(hostname: &str, stem: &str) -> (r: String)
    ensures
        r@ == spec_post_href(hostname@, stem@),
{
    proof {
        reveal_strlit("https://");
        reveal_strlit("/post/");
        assert("https://"@ =~= seq!['h', 't', 't', 'p', 's', ':', '/', '/']);
        assert("/post/"@ =~= seq!['/', 'p', 'o', 's', 't', '/']);
    }
    let mut out = "https://".to_owned();
    out.append(hostname);
    out.append("/post/");
    out.append(stem);
    proof {
        assert(out@ =~= spec_post_href(hostname@, stem@));
    }
    out
}

/// Generates the Atom feed for one directory listing: feed metadata from the
/// configuration, one entry per `.md` file in listing order, each carrying
/// its title — or its stem when the body has none — and its full raw body.
pub fn generate_feed(entries: &Vec<FileEntry>, config: &Config) -> (r: String)
    ensures
        r@ == spec_generate_feed(file_views(entries@), *config),
{
    let ghost fv = file_views(entries@);
    let n = entries.len();
    let mut items: Vec<FeedEntry> = Vec::new();
    let mut i: usize = 0;
    proof {
        assert(feed_entry_views(items@) =~= feed_entries_of(
            fv.subrange(0, 0),
            config.hostname@,
        ));
    }
    while i < n
        invariant
            i <= n,
            n == entries.len(),
            fv == file_views(entries@),
            feed_entry_views(items@) == feed_entries_of(fv.subrange(0, i as int), config.hostname@),
        decreases n - i,
    {
        proof {
            assert(fv[i as int] == entries@[i as int]@);
            assert(fv.subrange(0, i + 1).drop_last() =~= fv.subrange(0, i as int));
            assert(fv.subrange(0, i + 1).last() == fv[i as int]);
        }
        let ghost pre = feed_entry_views(items@);
        if has_md_extension_str(entries[i].name.as_str()) {
            let stem = strip_md_str(entries[i].name.as_str());
            let title = match detect_title_md(entries[i].contents.as_str()) {
                Some(t) => t,
                None => stem.to_owned(),
            };
            let item = FeedEntry {
                title,
                content: entries[i].contents.clone(),
                link_href: post_href(config.hostname.as_str(), stem),
            };
            proof {
                assert(item@ == spec_feed_entry(fv[i as int], config.hostname@));
            }
            items.push(item);
            proof {
                assert(feed_entry_views(items@) =~= pre.push(
                    spec_feed_entry(fv[i as int], config.hostname@),
                ));
            }
        } else {
            proof {
                assert(feed_entry_views(items@) =~= feed_entries_of(
                    fv.subrange(0, i + 1),
                    config.hostname@,
                ));
            }
        }
        i = i + 1;
    }
    proof {
        assert(fv.subrange(0, n as int) =~= fv);
    }
    proof {
        reveal_strlit("https://");
        reveal_strlit("/rss");
        reveal_strlit("");
        assert("https://"@ =~= seq!['h', 't', 't', 'p', 's', ':', '/', '/']);
        assert("/rss"@ =~= seq!['/', 'r', 's', 's']);
        assert(""@ =~= Seq::<char>::empty());
    }
    let mut self_href = "https://".to_owned();
    self_href.append(config.hostname.as_str());
    self_href.append("/rss");
    proof {
        assert(self_href@ =~= spec_feed_self_link(config.hostname@));
    }
    let subtitle: &str = match &config.rss_subtitle {
        Some(s) => s.as_str(),
        None => "",
    };
    feed_to_xml(config.rss_title.as_str(), subtitle, self_href.as_str(), &items)
}

/// THE ONE-ENTRY-PER-FILE LAW of the feed: the entries handed to the
/// serializer are exactly the listing's `.md` files, in listing order, each
/// carrying its full raw body as content.
pub proof fn lemma_feed_entries_exact(entries: Seq<FileEntryView>, hostname: Seq<char>)
    ensures
        feed_entries_of(entries, hostname) == entries.filter(
            |e: FileEntryView| has_md_extension(e.name),
        ).map_values(|e: FileEntryView| spec_feed_entry(e, hostname)),
    decreases entries.len(),
{
    reveal(Seq::filter);
    let pred = |e: FileEntryView| has_md_extension(e.name);
    let f = |e: FileEntryView| spec_feed_entry(e, hostname);
    if entries.len() == 0 {
        assert(feed_entries_of(entries, hostname) =~= entries.filter(pred).map_values(f));
    } else {
        lemma_feed_entries_exact(entries.drop_last(), hostname);
        if pred(entries.last()) {
            assert(entries.filter(pred) == entries.drop_last().filter(pred).push(entries.last()));
            assert(entries.filter(pred).map_values(f) =~= entries.drop_last().filter(
                pred,
            ).map_values(f).push(f(entries.last())));
        } else {
            assert(entries.filter(pred) == entries.drop_last().filter(pred));
        }
    }
}

/// THE IDEMPOTENCE LAW of the feed: the generated document is a function of
/// the listing and the configuration alone, so two generations with no
/// intervening writes are byte-identical.
pub proof fn lemma_feed_deterministic(
    e1: Seq<FileEntryView>,
    e2: Seq<FileEntryView>,
    c1: Config,
    c2: Config,
)
    requires
        e1 == e2,
        c1.hostname@ == c2.hostname@,
        c1.rss_title@ == c2.rss_title@,
        match (c1.rss_subtitle, c2.rss_subtitle) {
            (Some(s1), Some(s2)) => s1@ == s2@,
            (None, None) => true,
            _ => false,
        },
    ensures
        spec_generate_feed(e1, c1) == spec_generate_feed(e2, c2),
{
}

} // verus!
