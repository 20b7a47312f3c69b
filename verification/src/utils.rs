//! Shared pieces of the two read models and of the write path: the title
//! extractor, the locale chooser for the index, and the plan of which cached
//! URLs a successful write makes stale.

use vstd::prelude::*;

use crate::post_id::canon_of;
use crate::post_id::PostId;
use crate::text::trim;
use crate::text::trim_str;

verus! {

/// The position of the end of the line that starts at `i`: the next newline,
/// or the end of the text.
pub open spec fn line_end(s: Seq<char>, i: int) -> int
    decreases s.len() - i,
{
    if i >= s.len() {
        s.len() as int
    } else if s[i] == '\n' {
        i
    } else {
        line_end(s, i + 1)
    }
}

/// The end of a line never lies before its start.
pub proof fn lemma_line_end_bounds(s: Seq<char>, i: int)
    requires
        0 <= i <= s.len(),
    ensures
        i <= line_end(s, i),
        line_end(s, i) <= s.len(),
    decreases s.len() - i,
{
    if i < s.len() && s[i] != '\n' {
        lemma_line_end_bounds(s, i + 1);
    }
}

/// The title found at or after position `i`: the trimmed remainder of the
/// first line that begins with the marker `"# "`.
pub open spec fn title_from(s: Seq<char>, i: int) -> Option<Seq<char>>
    decreases s.len() + 1 - i,
    when i >= 0
    via title_from_decreases
{
    if i >= s.len() {
        None
    } else {
        let e = line_end(s, i);
        let core = if e > i && s[e - 1] == '\r' {
            e - 1
        } else {
            e
        };
        if i + 2 <= core && s[i] == '#' && s[i + 1] == ' ' {
            Some(trim(s.subrange(i + 2, core)))
        } else {
            title_from(s, e + 1)
        }
    }
}

#[via_fn]
proof fn title_from_decreases(s: Seq<char>, i: int) {
    if 0 <= i && i < s.len() {
        lemma_line_end_bounds(s, i);
    }
}

/// The title of a post body: the trimmed remainder of its first Markdown
/// level-1 heading, absent when no line starts with `"# "`.
pub open spec fn title_of(s: Seq<char>) -> Option<Seq<char>> {
    title_from(s, 0)
}

/// A character scan that saw no newline in `[i, e)` pins the line end.
proof fn lemma_line_end_scan(s: Seq<char>, i: int, e: int)
    requires
        0 <= i <= e <= s.len(),
        forall|k: int| i <= k < e ==> s[k] != '\n',
        e == s.len() || s[e] == '\n',
    ensures
        line_end(s, i) == e,
    decreases e - i,
{
    if i < e {
        lemma_line_end_scan(s, i + 1, e);
    }
}

/// Extracts the title of a Markdown body: scans lines in order and returns
/// the trimmed remainder of the first one that begins with `"# "`.
pub fn detect_title_md(contents: &str) -> (r: Option<String>)
    ensures
        match r {
            Some(t) => title_of(contents@) == Some(t@),
            None => title_of(contents@) is None,
        },
{
    let len = contents.unicode_len();
    let mut i: usize = 0;
    while i < len
        invariant
            len == contents@.len(),
            title_of(contents@) == title_from(contents@, i as int),
        decreases len - i,
    {
        let mut e: usize = i;
        while e < len && contents.get_char(e) != '\n'
            invariant
                i <= e <= len,
                len == contents@.len(),
                forall|k: int| i <= k < e ==> contents@[k] != '\n',
            decreases len - e,
        {
            e = e + 1;
        }
        proof {
            lemma_line_end_scan(contents@, i as int, e as int);
        }
        let core: usize = if e > i && contents.get_char(e - 1) == '\r' {
            e - 1
        } else {
            e
        };
        if core - i >= 2 && contents.get_char(i) == '#' && contents.get_char(i + 1) == ' ' {
            let raw = contents.substring_char(i + 2, core);
            let trimmed = trim_str(raw);
            return Some(trimmed.to_owned());
        }
        if e >= len {
            proof {
                assert(title_from(contents@, i as int) == title_from(contents@, e + 1));
            }
            return None;
        }
        i = e + 1;
    }
    None
}

/// The header with its spaces removed, which is how `accept_language::parse`
/// reads it before splitting.
pub open spec fn strip_spaces(s: Seq<char>) -> Seq<char>
    decreases s.len(),
{
    if s.len() == 0 {
        s
    } else {
        let rest = strip_spaces(s.drop_last());
        if s.last() == ' ' {
            rest
        } else {
            rest.push(s.last())
        }
    }
}

/// The letters n, a, n standing consecutively at position `i`, in any case.
pub open spec fn nan_at(s: Seq<char>, i: int) -> bool {
    &&& 0 <= i
    &&& i + 3 <= s.len()
    &&& (s[i] == 'n' || s[i] == 'N')
    &&& (s[i + 1] == 'a' || s[i + 1] == 'A')
    &&& (s[i + 2] == 'n' || s[i + 2] == 'N')
}

/// The letters n, a, n standing at `i` in a quality position: right after an
/// equals sign, at most with a sign between. A quality parameter parses as a
/// NaN only when its whole text is an optional sign followed by "nan"
/// case-insensitively, and that text starts right after the `=` of its
/// parameter, so every NaN quality stands like this; a bare language tag
/// never does.
pub open spec fn nan_quality_at(s: Seq<char>, i: int) -> bool {
    &&& nan_at(s, i)
    &&& ((i >= 1 && s[i - 1] == '=') || (i >= 2 && (s[i - 1] == '+' || s[i - 1] == '-') && s[i
        - 2] == '='))
}

/// Whether the header, spaces ignored, carries "nan" in a quality position —
/// the only way a quality could parse as a NaN. A header without such an
/// occurrence carries only totally ordered qualities.
pub open spec fn has_nan_quality(header: Seq<char>) -> bool {
    exists|i: int| nan_quality_at(strip_spaces(header), i)
}

/// A longer prefix of the header keeps the stripped text of a shorter one as
/// its own prefix.
proof fn lemma_strip_spaces_prefix(s: Seq<char>, i: int, j: int)
    requires
        0 <= i <= j <= s.len(),
    ensures
        strip_spaces(s.subrange(0, i)).len() <= strip_spaces(s.subrange(0, j)).len(),
        forall|k: int|
            0 <= k < strip_spaces(s.subrange(0, i)).len() ==> #[trigger] strip_spaces(
                s.subrange(0, j),
            )[k] == strip_spaces(s.subrange(0, i))[k],
    decreases j - i,
{
    if i < j {
        lemma_strip_spaces_prefix(s, i, j - 1);
        assert(s.subrange(0, j).drop_last() =~= s.subrange(0, j - 1));
        assert(s.subrange(0, j).last() == s[j - 1]);
    }
}

/// Scans the header, spaces ignored as the parser ignores them, for "nan" in
/// a quality position.
fn header_has_nan_quality(header: &str) -> (r: bool)
    ensures
        r == has_nan_quality(header@),
{
    let len = header.unicode_len();
    let mut i: usize = 0;
    let mut kept: usize = 0;
    let mut prev4: char = ' ';
    let mut prev3: char = ' ';
    let mut prev2: char = ' ';
    let mut prev1: char = ' ';
    proof {
        assert(header@.subrange(0, 0) =~= Seq::<char>::empty());
    }
    while i < len
        invariant
            i <= len,
            kept <= i,
            len == header@.len(),
            ({
                let f = strip_spaces(header@.subrange(0, i as int));
                &&& kept == f.len()
                &&& (kept >= 1 ==> prev1 == f[f.len() - 1])
                &&& (kept >= 2 ==> prev2 == f[f.len() - 2])
                &&& (kept >= 3 ==> prev3 == f[f.len() - 3])
                &&& (kept >= 4 ==> prev4 == f[f.len() - 4])
                &&& !(exists|p: int| nan_quality_at(f, p))
            }),
        decreases len - i,
    {
        let ghost f = strip_spaces(header@.subrange(0, i as int));
        let c = header.get_char(i);
        proof {
            assert(header@.subrange(0, i + 1).drop_last() =~= header@.subrange(0, i as int));
            assert(header@.subrange(0, i + 1).last() == header@[i as int]);
        }
        let ghost f1 = strip_spaces(header@.subrange(0, i + 1));
        if c != ' ' {
            proof {
                assert(f1 == f.push(c));
            }
            let window = kept >= 2 && (prev2 == 'n' || prev2 == 'N') && (prev1 == 'a' || prev1
                == 'A') && (c == 'n' || c == 'N');
            let after_eq = kept >= 3 && prev3 == '=';
            let after_signed_eq = kept >= 4 && (prev3 == '+' || prev3 == '-') && prev4 == '=';
            if window && (after_eq || after_signed_eq) {
                proof {
                    assert(f1[f1.len() - 3] == prev2);
                    assert(f1[f1.len() - 2] == prev1);
                    assert(f1[f1.len() - 1] == c);
                    if kept >= 3 {
                        assert(f1[f1.len() - 4] == prev3);
                    }
                    if kept >= 4 {
                        assert(f1[f1.len() - 5] == prev4);
                    }
                    assert(nan_quality_at(f1, f1.len() - 3));
                    lemma_strip_spaces_prefix(header@, i + 1, len as int);
                    assert(header@.subrange(0, len as int) =~= header@);
                    let full = strip_spaces(header@);
                    assert(nan_quality_at(full, f1.len() - 3));
                }
                return true;
            }
            proof {
                assert forall|p: int| !nan_quality_at(f1, p) by {
                    if 0 <= p && p + 3 <= f1.len() {
                        if p + 3 <= f.len() {
                            assert(f1[p] == f[p] && f1[p + 1] == f[p + 1] && f1[p + 2] == f[p
                                + 2]);
                            if p >= 1 {
                                assert(f1[p - 1] == f[p - 1]);
                            }
                            if p >= 2 {
                                assert(f1[p - 2] == f[p - 2]);
                            }
                            assert(!nan_quality_at(f, p));
                        } else {
                            assert(p == f1.len() - 3);
                            assert(f1[p] == prev2 && f1[p + 1] == prev1 && f1[p + 2] == c);
                            if p >= 1 {
                                assert(f1[p - 1] == prev3);
                            }
                            if p >= 2 {
                                assert(f1[p - 2] == prev4);
                            }
                        }
                    }
                }
            }
            prev4 = prev3;
            prev3 = prev2;
            prev2 = prev1;
            prev1 = c;
            kept = kept + 1;
        } else {
            proof {
                assert(f1 == f);
            }
        }
        i = i + 1;
    }
    proof {
        assert(header@.subrange(0, len as int) =~= header@);
    }
    false
}

/// What `accept_language::parse` extracts from an `Accept-Language` header.
pub uninterp spec fn accept_language_prefs(header: Seq<char>) -> Seq<Seq<char>>;

/// Relies on accept_language::parse: the language tags of the header, best
/// quality first, a pure function of the header text. The call sorts by
/// quality under `f32`'s ordering, which is not total on NaN, so headers that
/// could carry a NaN quality are left out.
#[verifier::external_body]
fn parse_accept_language(header: &str) -> (r: Vec<String>)
    requires
        !has_nan_quality(header@),
    ensures
        r@.map_values(|t: String| t@) == accept_language_prefs(header@),
{
    accept_language::parse(header)
}

/// Whether `chrono` knows a locale of this name.
pub uninterp spec fn is_supported_locale(tag: Seq<char>) -> bool;

/// Relies on chrono::Locale::from_str: whether the tag names a locale of the
/// locale database compiled into chrono.
#[verifier::external_body]
fn locale_supported(tag: &str) -> (r: bool)
    ensures
        r == is_supported_locale(tag@),
{
    <chrono::Locale as core::str::FromStr>::from_str(tag).is_ok()
}

/// The fixed fallback locale, used when the header names no usable locale.
pub open spec fn fallback_locale() -> Seq<char> {
    seq!['e', 'n', '_', 'G', 'B']
}

/// The locale that an `Accept-Language` header value selects: the first
/// preference when it is a locale chrono supports, the fallback otherwise. A
/// header carrying "nan" as a quality is treated as invalid — such a quality
/// would be a NaN, which the parser's ordering cannot take — and falls back.
pub open spec fn spec_detect_language(header: Seq<char>) -> Seq<char> {
    if has_nan_quality(header) {
        fallback_locale()
    } else {
        let prefs = accept_language_prefs(header);
        if prefs.len() > 0 && is_supported_locale(prefs[0]) {
            prefs[0]
        } else {
            fallback_locale()
        }
    }
}

/// The fallback locale tag.
fn fallback_locale_string() -> (r: String)
    ensures
        r@ == fallback_locale(),
{
    proof {
        reveal_strlit("en_GB");
        assert("en_GB"@ =~= fallback_locale());
    }
    "en_GB".to_owned()
}

/// Chooses the locale for date rendering from an `Accept-Language` header,
/// best-effort: an absent, empty or unsupported preference falls back to a
/// fixed default.
pub fn detect_language(header: Option<&str>) -> (r: String)
    ensures
        header is Some ==> r@ == spec_detect_language(header->0@),
        header is None ==> r@ == fallback_locale(),
{
    match header {
        None => fallback_locale_string(),
        Some(h) => {
            if header_has_nan_quality(h) {
                return fallback_locale_string();
            }
            let prefs = parse_accept_language(h);
            if prefs.len() > 0 {
                proof {
                    assert(prefs@.map_values(|t: String| t@)[0] == prefs@[0]@);
                }
                if locale_supported(prefs[0].as_str()) {
                    prefs[0].clone()
                } else {
                    fallback_locale_string()
                }
            } else {
                fallback_locale_string()
            }
        },
    }
}

/// A successful write, as the cache invalidator sees it.
pub enum WriteOp {
    /// A post was created; the latest, feed and index URLs are stale.
    Create,
    /// The post with this identity was overwritten.
    Update(PostId),
    /// The post with this identity was removed.
    Delete(PostId),
}

/// The URL path of one post.
pub open spec fn spec_post_path(id: PostId) -> Seq<char> {
    seq!['/', 'p', 'o', 's', 't', '/'] + canon_of(id)
}

/// The paths a write makes stale: the write's own resource — the post for an
/// overwrite or a removal, the latest-post view for a creation — and the two
/// derived views.
pub open spec fn spec_invalidation_paths(op: WriteOp) -> Seq<Seq<char>> {
    match op {
        WriteOp::Create => seq![
            "/post/latest"@,
            "/rss"@,
            "/index"@,
        ],
        WriteOp::Update(id) => seq![spec_post_path(id), "/rss"@, "/index"@],
        WriteOp::Delete(id) => seq![spec_post_path(id), "/rss"@, "/index"@],
    }
}

/// The URL paths whose cached copies a completed write makes stale, in the
/// order they are to be invalidated.
pub fn invalidation_paths(op: &WriteOp) -> (r: Vec<String>)
    requires
        (op matches WriteOp::Update(id) ==> id.wf()) && (op matches WriteOp::Delete(id)
            ==> id.wf()),
    ensures
        r@.map_values(|p: String| p@) == spec_invalidation_paths(*op),
{
    let mut out: Vec<String> = Vec::new();
    match op {
        WriteOp::Create => {
            out.push("/post/latest".to_owned());
        },
        WriteOp::Update(id) => {
            out.push(post_path(id));
        },
        WriteOp::Delete(id) => {
            out.push(post_path(id));
        },
    }
    out.push("/rss".to_owned());
    out.push("/index".to_owned());
    proof {
        assert(out@.map_values(|p: String| p@) =~= spec_invalidation_paths(*op));
    }
    out
}

/// The URL path of the post with identity `id`.
pub fn post_path(id: &PostId) -> (r: String)
    requires
        id.wf(),
    ensures
        r@ == spec_post_path(*id),
{
    let mut out = "/post/".to_owned();
    let canon = id.canonical_string();
    out.append(canon.as_str());
    proof {
        reveal_strlit("/post/");
        assert("/post/"@ =~= seq!['/', 'p', 'o', 's', 't', '/']);
        assert(out@ =~= spec_post_path(*id));
    }
    out
}

} // verus!
