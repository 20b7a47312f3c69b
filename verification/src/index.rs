//! The reverse-chronological index: from a directory listing, the entries
//! whose filename stem parses as a post identity, newest first, one localized
//! line per post. Entries whose stem does not parse are skipped, never an
//! error.

use vstd::prelude::*;

use std::fmt::Write;

use crate::post_id::canon_of;
use crate::post_id::chron_lt;
use crate::post_id::lemma_canon_of_parse;
use crate::post_id::lemma_canon_preserves_order;
use crate::post_id::parse_canon;
use crate::post_id::parse_post_id;
use crate::post_id::PostId;
use crate::store::md_suffix;
use crate::store::FileEntry;
use crate::store::FileEntryView;
use crate::text::lemma_lex_lt_append;
use crate::text::lemma_lex_lt_total;
use crate::text::lemma_lex_lt_trans;
use crate::text::lex_lt;
use crate::text::str_lex_lt;
use crate::utils::detect_title_md;
use crate::utils::title_of;

verus! {

/// One included post, before rendering: the parsed identity, the filename it
/// came from, and the body the title is read from.
pub struct IndexEntry {
    pub id: PostId,
    pub name: String,
    pub contents: String,
}

/// The mathematical shadow of an included post.
pub ghost struct IndexEntryView {
    pub id: PostId,
    pub name: Seq<char>,
    pub contents: Seq<char>,
}

impl View for IndexEntry {
    type V = IndexEntryView;

    open spec fn view(&self) -> IndexEntryView {
        IndexEntryView { id: self.id, name: self.name@, contents: self.contents@ }
    }
}

/// The views of a sequence of included posts.
pub open spec fn entry_views(s: Seq<IndexEntry>) -> Seq<IndexEntryView> {
    s.map_values(|x: IndexEntry| x@)
}

/// The views of a directory listing.
pub open spec fn file_views(s: Seq<FileEntry>) -> Seq<FileEntryView> {
    s.map_values(|x: FileEntry| x@)
}

/// A filename with the `.md` suffix stripped; a name without the suffix is
/// kept whole.
pub open spec fn strip_md(name: Seq<char>) -> Seq<char> {
    if name.len() >= 3 && name.subrange(name.len() - 3, name.len() as int) == md_suffix() {
        name.subrange(0, name.len() - 3)
    } else {
        name
    }
}

/// Strips the `.md` suffix of a filename, if present.
pub fn strip_md_str<'a>(name: &'a str) -> (r: &'a str)
    ensures
        r@ == strip_md(name@),
{
    let len = name.unicode_len();
    if len >= 3 && name.get_char(len - 3) == '.' && name.get_char(len - 2) == 'm' && name.get_char(
        len - 1,
    ) == 'd' {
        proof {
            assert(name@.subrange(len - 3, len as int) =~= md_suffix());
        }
        name.substring_char(0, len - 3)
    } else {
        proof {
            if name@.len() >= 3 && name@.subrange(len - 3, len as int) == md_suffix() {
                assert(name@.subrange(len - 3, len as int)[0] == name@[len - 3]);
                assert(name@.subrange(len - 3, len as int)[1] == name@[len - 2]);
                assert(name@.subrange(len - 3, len as int)[2] == name@[len - 1]);
            }
        }
        name
    }
}

/// An included post is sound when its identity is exactly what its stem
/// parses to.
pub open spec fn entry_sound(e: IndexEntryView) -> bool {
    parse_canon(strip_md(e.name)) == Some(e.id)
}

/// The posts of a directory listing that the index includes, in listing
/// order: those whose stem parses as a post identity.
pub open spec fn index_candidates(entries: Seq<FileEntryView>) -> Seq<IndexEntryView>
    decreases entries.len(),
{
    if entries.len() == 0 {
        Seq::empty()
    } else {
        let rest = index_candidates(entries.drop_last());
        let e = entries.last();
        match parse_canon(strip_md(e.name)) {
            Some(id) => rest.push(IndexEntryView { id, name: e.name, contents: e.contents }),
            None => rest,
        }
    }
}

/// Every included post is sound, and its identity is well-formed.
pub proof fn lemma_candidates_sound(entries: Seq<FileEntryView>)
    ensures
        forall|k: int|
            0 <= k < index_candidates(entries).len() ==> {
                &&& entry_sound(#[trigger] index_candidates(entries)[k])
                &&& index_candidates(entries)[k].id.wf()
            },
    decreases entries.len(),
{
    if entries.len() > 0 {
        lemma_candidates_sound(entries.drop_last());
        let e = entries.last();
        let rest = index_candidates(entries.drop_last());
        if parse_canon(strip_md(e.name)) is Some {
            lemma_canon_of_parse(strip_md(e.name));
        }
        assert forall|k: int| 0 <= k < index_candidates(entries).len() implies {
            &&& entry_sound(#[trigger] index_candidates(entries)[k])
            &&& index_candidates(entries)[k].id.wf()
        } by {
            if k < rest.len() {
                assert(index_candidates(entries)[k] == rest[k]);
            }
        }
    }
}

/// Membership among the included posts: exactly the listing entries whose
/// stem parses, carried over unchanged.
pub proof fn lemma_candidates_membership(entries: Seq<FileEntryView>, x: IndexEntryView)
    ensures
        index_candidates(entries).contains(x) <==> exists|k: int|
            0 <= k < entries.len() && parse_canon(strip_md(#[trigger] entries[k].name)) == Some(
                x.id,
            ) && x.name == entries[k].name && x.contents == entries[k].contents,
    decreases entries.len(),
{
    if entries.len() > 0 {
        lemma_candidates_membership(entries.drop_last(), x);
        let e = entries.last();
        let rest = index_candidates(entries.drop_last());
        assert(forall|k: int|
            0 <= k < entries.len() - 1 ==> #[trigger] entries[k] == entries.drop_last()[k]);
        match parse_canon(strip_md(e.name)) {
            Some(id) => {
                let cand = IndexEntryView { id, name: e.name, contents: e.contents };
                assert(index_candidates(entries) == rest.push(cand));
                if x == cand {
                    assert(index_candidates(entries).contains(x)) by {
                        assert(index_candidates(entries).last() == x);
                    }
                } else {
                    assert(index_candidates(entries).contains(x) <==> rest.contains(x)) by {
                        if rest.contains(x) {
                            let k = choose|k: int|
                                0 <= k < rest.len() && rest[k] == x;
                            assert(rest.push(cand)[k] == x);
                        }
                        if rest.push(cand).contains(x) {
                            let k = choose|k: int|
                                0 <= k < rest.push(cand).len() && rest.push(cand)[k] == x;
                            assert(k < rest.len());
                            assert(rest[k] == x);
                        }
                    }
                }
            },
            None => {
                if index_candidates(entries).contains(x) {
                    assert(rest.contains(x));
                }
            },
        }
    }
}

/// Inserts an included post into a run of posts already ordered by
/// descending filename, after every post whose name is not smaller.
pub open spec fn insert_desc(e: IndexEntryView, s: Seq<IndexEntryView>) -> Seq<IndexEntryView>
    decreases s.len(),
{
    if s.len() == 0 {
        seq![e]
    } else if lex_lt(s[0].name, e.name) {
        seq![e] + s
    } else {
        seq![s[0]] + insert_desc(e, s.drop_first())
    }
}

/// The included posts ordered by descending filename — newest first, since
/// the canonical stem orders as the timestamp does.
pub open spec fn sort_desc(s: Seq<IndexEntryView>) -> Seq<IndexEntryView>
    decreases s.len(),
{
    if s.len() == 0 {
        Seq::empty()
    } else {
        insert_desc(s.last(), sort_desc(s.drop_last()))
    }
}

/// Ordered by descending filename.
pub open spec fn sorted_desc(s: Seq<IndexEntryView>) -> bool {
    forall|i: int, j: int| 0 <= i < j < s.len() ==> !lex_lt(s[i].name, s[j].name)
}

/// Inserting at the position the scan found is what `insert_desc` describes.
proof fn lemma_insert_desc_split(s: Seq<IndexEntryView>, e: IndexEntryView, j: int)
    requires
        0 <= j <= s.len(),
        forall|k: int| 0 <= k < j ==> !lex_lt(s[k].name, e.name),
        j < s.len() ==> lex_lt(s[j].name, e.name),
    ensures
        insert_desc(e, s) =~= s.insert(j, e),
    decreases j,
{
    if j == 0 {
        if s.len() > 0 {
            assert(insert_desc(e, s) == seq![e] + s);
        }
        assert(insert_desc(e, s) =~= s.insert(0, e));
    } else {
        assert(forall|k: int|
            0 <= k < j - 1 ==> s.drop_first()[k] == s[k + 1] && !lex_lt(
                #[trigger] s.drop_first()[k].name,
                e.name,
            ));
        lemma_insert_desc_split(s.drop_first(), e, j - 1);
        assert(insert_desc(e, s) == seq![s[0]] + insert_desc(e, s.drop_first()));
        assert(insert_desc(e, s) =~= s.insert(j, e));
    }
}

/// Inserting keeps the run ordered, lengthens it by one, and adds exactly the
/// inserted post to its members.
proof fn lemma_insert_desc_props(e: IndexEntryView, s: Seq<IndexEntryView>)
    requires
        sorted_desc(s),
    ensures
        sorted_desc(insert_desc(e, s)),
        insert_desc(e, s).len() == s.len() + 1,
        forall|x: IndexEntryView|
            #[trigger] insert_desc(e, s).contains(x) <==> (s.contains(x) || x == e),
    decreases s.len(),
{
    let r = insert_desc(e, s);
    if s.len() == 0 {
        assert(r == seq![e]);
        assert(r[0] == e);
        assert forall|x: IndexEntryView| r.contains(x) <==> (s.contains(x) || x == e) by {
            if r.contains(x) {
                let k = choose|k: int| 0 <= k < r.len() && r[k] == x;
                assert(x == e);
            }
        }
    } else if lex_lt(s[0].name, e.name) {
        assert(r == seq![e] + s);
        assert forall|i: int, j: int| 0 <= i < j < r.len() implies !lex_lt(r[i].name, r[j].name) by {
            if i == 0 {
                assert(r[0] == e);
                assert(r[j] == s[j - 1]);
                if j - 1 == 0 {
                    lemma_lex_lt_total(s[0].name, e.name);
                } else {
                    assert(!lex_lt(s[0].name, s[j - 1].name));
                    lemma_lex_lt_total(s[0].name, s[j - 1].name);
                    if lex_lt(s[j - 1].name, s[0].name) {
                        lemma_lex_lt_trans(s[j - 1].name, s[0].name, e.name);
                        lemma_lex_lt_total(s[j - 1].name, e.name);
                    } else {
                        assert(s[j - 1].name == s[0].name);
                        lemma_lex_lt_total(s[j - 1].name, e.name);
                    }
                }
            } else {
                assert(r[i] == s[i - 1] && r[j] == s[j - 1]);
                assert(!lex_lt(s[i - 1].name, s[j - 1].name));
            }
        }
        assert forall|x: IndexEntryView| r.contains(x) <==> (s.contains(x) || x == e) by {
            if r.contains(x) {
                let k = choose|k: int| 0 <= k < r.len() && r[k] == x;
                if k > 0 {
                    assert(s[k - 1] == x);
                }
            }
            if s.contains(x) {
                let k = choose|k: int| 0 <= k < s.len() && s[k] == x;
                assert(r[k + 1] == x);
            }
            if x == e {
                assert(r[0] == x);
            }
        }
    } else {
        let t = s.drop_first();
        assert(forall|k: int| 0 <= k < t.len() ==> #[trigger] t[k] == s[k + 1]);
        lemma_insert_desc_props(e, t);
        let rt = insert_desc(e, t);
        assert(r == seq![s[0]] + rt);
        assert forall|i: int, j: int| 0 <= i < j < r.len() implies !lex_lt(r[i].name, r[j].name) by {
            if i == 0 {
                assert(r[j] == rt[j - 1]);
                assert(rt.contains(rt[j - 1]));
                if rt[j - 1] == e {
                    assert(!lex_lt(s[0].name, e.name));
                } else {
                    assert(t.contains(rt[j - 1]));
                    let k = choose|k: int| 0 <= k < t.len() && t[k] == rt[j - 1];
                    assert(t[k] == s[k + 1]);
                    assert(!lex_lt(s[0].name, s[k + 1].name));
                }
            } else {
                assert(r[i] == rt[i - 1] && r[j] == rt[j - 1]);
            }
        }
        assert forall|x: IndexEntryView| r.contains(x) <==> (s.contains(x) || x == e) by {
            if r.contains(x) {
                let k = choose|k: int| 0 <= k < r.len() && r[k] == x;
                if k == 0 {
                    assert(s[0] == x);
                } else {
                    assert(rt[k - 1] == x);
                    assert(rt.contains(x));
                    if t.contains(x) {
                        let k2 = choose|k2: int| 0 <= k2 < t.len() && t[k2] == x;
                        assert(s[k2 + 1] == x);
                    }
                }
            }
            if s.contains(x) {
                let k = choose|k: int| 0 <= k < s.len() && s[k] == x;
                if k == 0 {
                    assert(r[0] == x);
                } else {
                    assert(t[k - 1] == x);
                    assert(t.contains(x));
                    assert(rt.contains(x));
                    let k2 = choose|k2: int| 0 <= k2 < rt.len() && rt[k2] == x;
                    assert(r[k2 + 1] == x);
                }
            }
            if x == e {
                assert(rt.contains(x));
                let k2 = choose|k2: int| 0 <= k2 < rt.len() && rt[k2] == x;
                assert(r[k2 + 1] == x);
            }
        }
    }
}

/// Sorting orders the included posts by descending filename and neither adds
/// nor drops a post.
pub proof fn lemma_sort_desc_props(s: Seq<IndexEntryView>)
    ensures
        sorted_desc(sort_desc(s)),
        sort_desc(s).len() == s.len(),
        forall|x: IndexEntryView| #[trigger] sort_desc(s).contains(x) <==> s.contains(x),
    decreases s.len(),
{
    if s.len() > 0 {
        let t = s.drop_last();
        lemma_sort_desc_props(t);
        lemma_insert_desc_props(s.last(), sort_desc(t));
        assert forall|x: IndexEntryView| sort_desc(s).contains(x) <==> s.contains(x) by {
            if sort_desc(s).contains(x) {
                if sort_desc(t).contains(x) {
                    assert(t.contains(x));
                    let k = choose|k: int| 0 <= k < t.len() && t[k] == x;
                    assert(s[k] == x);
                } else {
                    assert(x == s.last());
                }
            }
            if s.contains(x) {
                let k = choose|k: int| 0 <= k < s.len() && s[k] == x;
                if k < s.len() - 1 {
                    assert(t[k] == x);
                    assert(t.contains(x));
                } else {
                    assert(x == s.last());
                }
            }
        }
    }
}


/// What the localized rendering of a timestamp is, for a given locale tag.
pub uninterp spec fn localized_date_of(id: PostId, locale: Seq<char>) -> Seq<char>;

/// Relies on chrono's `format_with_items` with the locale's date format: the
/// rendering is a pure function of the timestamp and the locale tag, with an
/// unknown tag falling back to the fixed default locale. A locale whose date
/// format the formatter cannot render (it reports an error instead of
/// writing) falls back to the canonical date of the identity, so the call
/// returns normally on every well-formed identity.
#[verifier::external_body]
fn format_datetime(id: &PostId, locale: &str) -> (r: String)
    requires
        id.wf(),
    ensures
        r@ == localized_date_of(*id, locale@),
{
    let date = chrono::NaiveDate::from_ymd_opt(id.year as i32, id.month as u32, id.day as u32)
        .unwrap();
    let dt = date.and_hms_opt(id.hour as u32, id.minute as u32, id.second as u32).unwrap();
    let loc = <chrono::Locale as core::str::FromStr>::from_str(locale).unwrap_or(
        chrono::Locale::en_GB,
    );
    let fmt = dt.format_with_items(chrono::format::StrftimeItems::new_with_locale("%x", loc));
    let mut out = String::new();
    match write!(out, "{}", fmt) {
        Ok(()) => out,
        Err(_) => format!("{:04}-{:02}-{:02}", id.year, id.month, id.day),
    }
}

/// One line of the index: the title in bold when the post has one, then the
/// localized date linking to the post, as Markdown.
pub open spec fn spec_index_line(e: IndexEntryView, locale: Seq<char>) -> Seq<char> {
    let date = localized_date_of(e.id, locale);
    let link_tail = seq![']', '(', 'p', 'o', 's', 't', '/'] + strip_md(e.name) + seq![')', '\n'];
    match title_of(e.contents) {
        Some(t) => seq!['\n', '*', '*'] + t + seq!['*', '*', ' ', ' ', '\n', '['] + date
            + link_tail,
        None => seq!['\n', '['] + date + link_tail,
    }
}

/// Renders one included post as its index line.
fn render_index_line(e: &IndexEntry, locale: &str) -> (r: String)
    requires
        e.id.wf(),
    ensures
        r@ == spec_index_line(e@, locale@),
{
    proof {
        reveal_strlit("\n**");
        reveal_strlit("**  \n[");
        reveal_strlit("\n[");
        reveal_strlit("](post/");
        reveal_strlit(")\n");
    }
    let date = format_datetime(&e.id, locale);
    let stem = strip_md_str(e.name.as_str());
    let mut out = String::new();
    match detect_title_md(e.contents.as_str()) {
        Some(t) => {
            out.append("\n**");
            out.append(t.as_str());
            out.append("**  \n[");
        },
        None => {
            out.append("\n[");
        },
    }
    out.append(date.as_str());
    out.append("](post/");
    out.append(stem);
    out.append(")\n");
    proof {
        assert(out@ =~= spec_index_line(e@, locale@));
    }
    out
}

/// The index text: the lines of the given posts, in order, concatenated.
pub open spec fn concat_lines(s: Seq<IndexEntryView>, locale: Seq<char>) -> Seq<char>
    decreases s.len(),
{
    if s.len() == 0 {
        Seq::empty()
    } else {
        concat_lines(s.drop_last(), locale) + spec_index_line(s.last(), locale)
    }
}

/// The whole generated index: the listing's parsable entries, ordered by
/// descending filename — newest first — and rendered one line each.
pub open spec fn spec_generate_index(entries: Seq<FileEntryView>, locale: Seq<char>) -> Seq<char> {
    concat_lines(sort_desc(index_candidates(entries)), locale)
}

/// Generates the index for one directory listing and one locale tag. Entries
/// whose stem does not parse as a post identity are skipped; no input is an
/// error, and an empty result is the empty string.
pub fn generate_index(entries: &Vec<FileEntry>, locale: &str) -> (r: String)
    ensures
        r@ == spec_generate_index(file_views(entries@), locale@),
{
    let ghost fv = file_views(entries@);
    let n = entries.len();
    let mut cands: Vec<IndexEntry> = Vec::new();
    let mut i: usize = 0;
    proof {
        assert(entry_views(cands@) =~= index_candidates(fv.subrange(0, 0)));
    }
    while i < n
        invariant
            i <= n,
            n == entries.len(),
            fv == file_views(entries@),
            entry_views(cands@) == index_candidates(fv.subrange(0, i as int)),
        decreases n - i,
    {
        let stem = strip_md_str(entries[i].name.as_str());
        let ghost pre = entry_views(cands@);
        proof {
            assert(fv[i as int] == entries@[i as int]@);
            assert(fv.subrange(0, i + 1).drop_last() =~= fv.subrange(0, i as int));
            assert(fv.subrange(0, i + 1).last() == fv[i as int]);
        }
        match parse_post_id(stem) {
            Some(id) => {
                let e = IndexEntry {
                    id,
                    name: entries[i].name.clone(),
                    contents: entries[i].contents.clone(),
                };
                proof {
                    let ev = e@;
                    assert(ev.name == fv[i as int].name && ev.contents == fv[i as int].contents);
                }
                cands.push(e);
                proof {
                    assert(entry_views(cands@) =~= index_candidates(fv.subrange(0, i + 1)));
                }
            },
            None => {
                proof {
                    assert(entry_views(cands@) =~= index_candidates(fv.subrange(0, i + 1)));
                }
            },
        }
        i = i + 1;
    }
    proof {
        assert(fv.subrange(0, n as int) =~= fv);
    }
    let ghost cv = entry_views(cands@);
    let mut sorted: Vec<IndexEntry> = Vec::new();
    let mut j: usize = 0;
    proof {
        assert(cv.subrange(0, 0) =~= Seq::<IndexEntryView>::empty());
        assert(entry_views(sorted@) =~= sort_desc(cv.subrange(0, 0)));
    }
    let n_cands = cands.len();
    while j < n_cands
        invariant
            j <= n_cands,
            n_cands == cands@.len(),
            cv == entry_views(cands@),
            entry_views(sorted@) == sort_desc(cv.subrange(0, j as int)),
        decreases cands@.len() - j,
    {
        let e = IndexEntry {
            id: cands[j].id,
            name: cands[j].name.clone(),
            contents: cands[j].contents.clone(),
        };
        proof {
            assert(cv[j as int] == cands@[j as int]@);
            assert(e@ == cv[j as int]);
            assert(cv.subrange(0, j + 1).drop_last() =~= cv.subrange(0, j as int));
            assert(cv.subrange(0, j + 1).last() == cv[j as int]);
        }
        insert_sorted_desc(&mut sorted, e);
        j = j + 1;
    }
    proof {
        assert(cv.subrange(0, cv.len() as int) =~= cv);
    }
    let ghost sv = entry_views(sorted@);
    proof {
        lemma_candidates_sound(fv);
        lemma_sort_desc_props(index_candidates(fv));
        assert forall|p: int| 0 <= p < sv.len() implies (#[trigger] sv[p]).id.wf() by {
            assert(sv.contains(sv[p]));
            assert(index_candidates(fv).contains(sv[p]));
            let q = choose|q: int|
                0 <= q < index_candidates(fv).len() && index_candidates(fv)[q] == sv[p];
            assert(index_candidates(fv)[q].id.wf());
        }
    }
    let mut out = String::new();
    let mut k: usize = 0;
    let m = sorted.len();
    proof {
        assert(sv.subrange(0, 0) =~= Seq::<IndexEntryView>::empty());
        assert(out@ =~= concat_lines(sv.subrange(0, 0), locale@));
    }
    while k < m
        invariant
            k <= m,
            m == sorted.len(),
            sv == entry_views(sorted@),
            sv == sort_desc(index_candidates(fv)),
            fv == file_views(entries@),
            forall|p: int|
                0 <= p < sv.len() ==> (#[trigger] sv[p]).id.wf(),
            out@ == concat_lines(sv.subrange(0, k as int), locale@),
        decreases m - k,
    {
        proof {
            assert(sv[k as int] == sorted@[k as int]@);
            assert(sv.subrange(0, k + 1).drop_last() =~= sv.subrange(0, k as int));
            assert(sv.subrange(0, k + 1).last() == sv[k as int]);
        }
        let line = render_index_line(&sorted[k], locale);
        out.append(line.as_str());
        k = k + 1;
    }
    proof {
        assert(sv.subrange(0, m as int) =~= sv);
    }
    out
}

/// Inserts an included post into a run kept ordered by descending filename.
fn insert_sorted_desc(out: &mut Vec<IndexEntry>, e: IndexEntry)
    ensures
        entry_views(final(out)@) == insert_desc(e@, entry_views(old(out)@)),
{
    let ghost s0 = entry_views(old(out)@);
    let n = out.len();
    let mut j: usize = 0;
    while j < n && !str_lex_lt(out[j].name.as_str(), e.name.as_str())
        invariant
            j <= n,
            n == out.len(),
            out@ == old(out)@,
            forall|k: int| 0 <= k < j ==> !lex_lt((#[trigger] entry_views(out@)[k]).name, e@.name),
        decreases n - j,
    {
        proof {
            assert(entry_views(out@)[j as int] == out@[j as int]@);
        }
        j = j + 1;
    }
    proof {
        if j < n {
            assert(entry_views(out@)[j as int] == out@[j as int]@);
        }
    }
    out.insert(j, e);
    proof {
        lemma_insert_desc_split(s0, e@, j as int);
        assert(entry_views(out@) =~= s0.insert(j as int, e@));
    }
}


/// Chronological order on identities is a strict total order: two distinct
/// identities compare one way or the other.
proof fn lemma_chron_total(a: PostId, b: PostId)
    ensures
        chron_lt(a, b) || chron_lt(b, a) || a == b,
{
}

/// THE NEWEST-FIRST LAW of the index: in the generated sequence of
/// lines, a post with a later identity never stands after a post with an
/// earlier one — for any two included posts, the newer one's line precedes
/// the older one's.
#[verifier::rlimit(60)]
pub proof fn lemma_index_newest_first(entries: Seq<FileEntryView>, i: int, j: int)
    requires
        0 <= i < j < sort_desc(index_candidates(entries)).len(),
    ensures
        ({
            let lines = sort_desc(index_candidates(entries));
            lines[i].id == lines[j].id || chron_lt(lines[j].id, lines[i].id)
        }),
{
    let cands = index_candidates(entries);
    let lines = sort_desc(cands);
    lemma_candidates_sound(entries);
    lemma_sort_desc_props(cands);
    let a = lines[i];
    let b = lines[j];
    assert(lines.contains(a) && lines.contains(b));
    let ka = choose|k: int| 0 <= k < cands.len() && cands[k] == a;
    let kb = choose|k: int| 0 <= k < cands.len() && cands[k] == b;
    assert(entry_sound(cands[ka]) && cands[ka].id.wf());
    assert(entry_sound(cands[kb]) && cands[kb].id.wf());
    lemma_chron_total(a.id, b.id);
    if chron_lt(a.id, b.id) {
        // Then the names would order the other way round than the sort did.
        lemma_canon_of_parse(strip_md(a.name));
        lemma_canon_of_parse(strip_md(b.name));
        lemma_canon_preserves_order(a.id, b.id);
        assert(lex_lt(strip_md(a.name), strip_md(b.name)));
        assert(canon_of(a.id).len() == canon_of(b.id).len()) by {
            lemma_canon_len(a.id);
            lemma_canon_len(b.id);
        }
        lemma_lex_lt_append(
            strip_md(a.name),
            strip_md(b.name),
            md_rest(a.name),
            md_rest(b.name),
        );
        assert(a.name =~= strip_md(a.name) + md_rest(a.name));
        assert(b.name =~= strip_md(b.name) + md_rest(b.name));
        assert(lex_lt(a.name, b.name));
        assert(!lex_lt(lines[i].name, lines[j].name));
        assert(false);
    }
}

/// What `strip_md` removed: the `.md` suffix, or nothing.
pub open spec fn md_rest(name: Seq<char>) -> Seq<char> {
    if name.len() >= 3 && name.subrange(name.len() - 3, name.len() as int) == md_suffix() {
        md_suffix()
    } else {
        Seq::empty()
    }
}

/// The canonical form is always nineteen characters.
pub proof fn lemma_canon_len(id: PostId)
    ensures
        canon_of(id).len() == 19,
{
}

/// THE SKIPPING LAW of the index: the generated lines stand for exactly
/// those listing entries whose stem parses as a post identity — none is
/// dropped, none is invented, and no entry is an error.
pub proof fn lemma_index_includes_exactly(entries: Seq<FileEntryView>, x: IndexEntryView)
    ensures
        sort_desc(index_candidates(entries)).contains(x) <==> exists|k: int|
            0 <= k < entries.len() && parse_canon(strip_md(#[trigger] entries[k].name)) == Some(
                x.id,
            ) && x.name == entries[k].name && x.contents == entries[k].contents,
{
    lemma_sort_desc_props(index_candidates(entries));
    lemma_candidates_membership(entries, x);
}

/// THE IDEMPOTENCE LAW of the index: the generated text is a function of the
/// listing and the locale alone, so two generations with no intervening
/// writes are byte-identical.
pub proof fn lemma_index_deterministic(
    e1: Seq<FileEntryView>,
    e2: Seq<FileEntryView>,
    l1: Seq<char>,
    l2: Seq<char>,
)
    requires
        e1 == e2,
        l1 == l2,
    ensures
        spec_generate_index(e1, l1) == spec_generate_index(e2, l2),
{
}

} // verus!
