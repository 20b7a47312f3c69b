//! The post store: a directory of Markdown files keyed by the canonical
//! timestamp filename. The store models the directory as a sequence of
//! (name, contents) entries in enumeration order, with names unique, exactly
//! the guarantee a filesystem directory gives — no transactions and no locks.

use vstd::prelude::*;

use crate::error::AppError;
use crate::post_id::canon_of;
use crate::post_id::PostId;
use crate::text::lex_lt;

verus! {

/// One directory entry: a file name and the file's full contents.
#[derive(Debug)]
pub struct FileEntry {
    pub name: String,
    pub contents: String,
}

/// The mathematical shadow of a directory entry.
pub ghost struct FileEntryView {
    pub name: Seq<char>,
    pub contents: Seq<char>,
}

impl View for FileEntry {
    type V = FileEntryView;

    open spec fn view(&self) -> FileEntryView {
        FileEntryView { name: self.name@, contents: self.contents@ }
    }
}

/// The `.md` extension that post files carry.
pub open spec fn md_suffix() -> Seq<char> {
    seq!['.', 'm', 'd']
}

/// The on-disk filename of a post: its canonical identity plus `.md`.
pub open spec fn spec_md_name(id: PostId) -> Seq<char> {
    canon_of(id) + md_suffix()
}

/// The filename of the post with identity `id`.
pub fn md_name(id: &PostId) -> (r: String)
    requires
        id.wf(),
    ensures
        r@ == spec_md_name(*id),
{
    let mut out = id.canonical_string();
    out.append(".md");
    proof {
        reveal_strlit(".md");
        assert(".md"@ =~= md_suffix());
    }
    out
}

/// The full path of a post under the assets root.
pub open spec fn spec_path_markdown(root: Seq<char>, id: PostId) -> Seq<char> {
    root + seq!['/'] + spec_md_name(id)
}

/// Resolves a post identity to its path under the assets root.
pub fn path_markdown(assets_root: &str, id: &PostId) -> (r: String)
    requires
        id.wf(),
    ensures
        r@ == spec_path_markdown(assets_root@, *id),
{
    let mut out = assets_root.to_owned();
    out.append("/");
    let name = md_name(id);
    out.append(name.as_str());
    proof {
        reveal_strlit("/");
        assert(out@ =~= spec_path_markdown(assets_root@, *id));
    }
    out
}

/// The contents stored under `name`, if any.
pub open spec fn lookup(s: Seq<FileEntryView>, name: Seq<char>) -> Option<Seq<char>>
    decreases s.len(),
{
    if s.len() == 0 {
        None
    } else if s[0].name == name {
        Some(s[0].contents)
    } else {
        lookup(s.drop_first(), name)
    }
}

/// Writing `contents` under `name`: replaces the entry in place when the name
/// is present, appends a new entry otherwise.
pub open spec fn upsert(s: Seq<FileEntryView>, name: Seq<char>, contents: Seq<char>) -> Seq<
    FileEntryView,
>
    decreases s.len(),
{
    if s.len() == 0 {
        seq![FileEntryView { name, contents }]
    } else if s[0].name == name {
        seq![FileEntryView { name, contents }] + s.drop_first()
    } else {
        seq![s[0]] + upsert(s.drop_first(), name, contents)
    }
}

/// Removing the entry under `name`, if any; the other entries keep their
/// order.
pub open spec fn remove_name(s: Seq<FileEntryView>, name: Seq<char>) -> Seq<FileEntryView>
    decreases s.len(),
{
    if s.len() == 0 {
        s
    } else if s[0].name == name {
        s.drop_first()
    } else {
        seq![s[0]] + remove_name(s.drop_first(), name)
    }
}

/// No two entries share a name, as in a real directory.
pub open spec fn unique_names(s: Seq<FileEntryView>) -> bool {
    forall|i: int, j: int| 0 <= i < j < s.len() ==> s[i].name != s[j].name
}

/// The entry with the lexicographically largest name.
pub open spec fn latest_entry(s: Seq<FileEntryView>) -> Option<FileEntryView>
    decreases s.len(),
{
    if s.len() == 0 {
        None
    } else if s.len() == 1 {
        Some(s[0])
    } else {
        let prev = latest_entry(s.drop_last())->Some_0;
        if lex_lt(prev.name, s.last().name) {
            Some(s.last())
        } else {
            Some(prev)
        }
    }
}


/// When the first occurrence of `name` is at `i`, looking it up yields the
/// contents there.
proof fn lemma_lookup_at(s: Seq<FileEntryView>, name: Seq<char>, i: int)
    requires
        0 <= i < s.len(),
        s[i].name == name,
        forall|k: int| 0 <= k < i ==> s[k].name != name,
    ensures
        lookup(s, name) == Some(s[i].contents),
    decreases i,
{
    if i > 0 {
        lemma_lookup_at(s.drop_first(), name, i - 1);
    }
}

/// When no entry carries `name`, looking it up yields nothing.
proof fn lemma_lookup_absent(s: Seq<FileEntryView>, name: Seq<char>)
    requires
        forall|k: int| 0 <= k < s.len() ==> s[k].name != name,
    ensures
        lookup(s, name) is None,
    decreases s.len(),
{
    if s.len() > 0 {
        lemma_lookup_absent(s.drop_first(), name);
    }
}

/// When the first occurrence of `name` is at `i`, writing under `name`
/// replaces the entry there.
proof fn lemma_upsert_at(s: Seq<FileEntryView>, name: Seq<char>, contents: Seq<char>, i: int)
    requires
        0 <= i < s.len(),
        s[i].name == name,
        forall|k: int| 0 <= k < i ==> s[k].name != name,
    ensures
        upsert(s, name, contents) =~= s.update(i, FileEntryView { name, contents }),
    decreases i,
{
    if i == 0 {
    } else {
        lemma_upsert_at(s.drop_first(), name, contents, i - 1);
        assert(upsert(s, name, contents) =~= seq![s[0]] + s.drop_first().update(
            i - 1,
            FileEntryView { name, contents },
        ));
    }
}

/// When no entry carries `name`, writing under `name` appends a new entry.
proof fn lemma_upsert_absent(s: Seq<FileEntryView>, name: Seq<char>, contents: Seq<char>)
    requires
        forall|k: int| 0 <= k < s.len() ==> s[k].name != name,
    ensures
        upsert(s, name, contents) =~= s.push(FileEntryView { name, contents }),
    decreases s.len(),
{
    if s.len() > 0 {
        lemma_upsert_absent(s.drop_first(), name, contents);
    }
}

/// When the first occurrence of `name` is at `i`, deleting `name` removes the
/// entry there.
proof fn lemma_remove_at(s: Seq<FileEntryView>, name: Seq<char>, i: int)
    requires
        0 <= i < s.len(),
        s[i].name == name,
        forall|k: int| 0 <= k < i ==> s[k].name != name,
    ensures
        remove_name(s, name) =~= s.remove(i),
    decreases i,
{
    if i > 0 {
        lemma_remove_at(s.drop_first(), name, i - 1);
        assert(remove_name(s, name) =~= seq![s[0]] + s.drop_first().remove(i - 1));
    }
}

/// The post store: a handle on one directory of posts. Its state is the
/// directory's entries in enumeration order; the filesystem's own guarantee —
/// whole-file replacement, no transactions, no locks — is all this interface
/// promises.
#[derive(Debug)]
pub struct PostStore {
    files: Vec<FileEntry>,
}

impl View for PostStore {
    type V = Seq<FileEntryView>;

    closed spec fn view(&self) -> Seq<FileEntryView> {
        self.files@.map_values(|f: FileEntry| f@)
    }
}

impl PostStore {
    /// A store is well-formed when, as in a directory, no name repeats.
    pub open spec fn wf(self) -> bool {
        unique_names(self@)
    }

    /// An empty store.
    pub fn new() -> (r: PostStore)
        ensures
            r.wf(),
            r@ == Seq::<FileEntryView>::empty(),
    {
        let r = PostStore { files: Vec::new() };
        proof {
            assert(r@ =~= Seq::<FileEntryView>::empty());
        }
        r
    }

    /// The index of the entry named `name`, or nothing.
    fn position_of(&self, name: &String) -> (r: Option<usize>)
        ensures
            match r {
                Some(i) => i < self@.len() && self@[i as int].name == name@ && forall|k: int|
                    0 <= k < i ==> self@[k].name != name@,
                None => forall|k: int| 0 <= k < self@.len() ==> self@[k].name != name@,
            },
    {
        let n = self.files.len();
        let mut i: usize = 0;
        while i < n
            invariant
                i <= n,
                n == self.files.len(),
                forall|k: int| 0 <= k < i ==> self@[k].name != name@,
            decreases n - i,
        {
            if self.files[i].name == *name {
                proof {
                    assert(self@[i as int] == self.files@[i as int]@);
                }
                return Some(i);
            }
            proof {
                assert(self@[i as int] == self.files@[i as int]@);
            }
            i = i + 1;
        }
        None
    }

    /// Writes `body` as the full contents of the post named by `id`: the
    /// store's create. The identity comes from the clock; writing replaces
    /// whatever the name held, whole-file, and adds the file otherwise.
    pub fn create(&mut self, id: &PostId, body: String)
        requires
            old(self).wf(),
            id.wf(),
        ensures
            final(self).wf(),
            final(self)@ == upsert(old(self)@, spec_md_name(*id), body@),
    {
        let name = md_name(id);
        self.write_file(name, body);
    }

    /// Overwrites the post named by `id` with `body` in full, creating the
    /// file when it is absent: an idempotent upsert, exactly what writing the
    /// file does.
    pub fn update(&mut self, id: &PostId, body: String)
        requires
            old(self).wf(),
            id.wf(),
        ensures
            final(self).wf(),
            final(self)@ == upsert(old(self)@, spec_md_name(*id), body@),
    {
        let name = md_name(id);
        self.write_file(name, body);
    }

    /// Writes `contents` under `name`, replacing in place or appending.
    fn write_file(&mut self, name: String, contents: String)
        requires
            old(self).wf(),
        ensures
            final(self).wf(),
            final(self)@ == upsert(old(self)@, name@, contents@),
    {
        let ghost s0 = self@;
        match self.position_of(&name) {
            Some(i) => {
                self.files.set(i, FileEntry { name, contents });
                proof {
                    lemma_upsert_at(s0, name@, contents@, i as int);
                    assert(self@ =~= s0.update(i as int, FileEntryView { name: name@, contents: contents@ }));
                    assert forall|p: int, q: int|
                        0 <= p < q < self@.len() implies self@[p].name != self@[q].name by {
                        assert(s0[p].name != s0[q].name);
                    }
                }
            },
            None => {
                self.files.push(FileEntry { name, contents });
                proof {
                    lemma_upsert_absent(s0, name@, contents@);
                    assert(self@ =~= s0.push(FileEntryView { name: name@, contents: contents@ }));
                    assert forall|p: int, q: int|
                        0 <= p < q < self@.len() implies self@[p].name != self@[q].name by {
                        if q < s0.len() {
                            assert(s0[p].name != s0[q].name);
                        }
                    }
                }
            },
        }
    }

    /// Reads the full contents of the post named by `id`; a post that is not
    /// there is `NotFound`.
    pub fn read(&self, id: &PostId) -> (r: Result<String, AppError>)
        requires
            id.wf(),
        ensures
            match r {
                Ok(c) => lookup(self@, spec_md_name(*id)) == Some(c@),
                Err(e) => e == AppError::NotFound && lookup(self@, spec_md_name(*id)) is None,
            },
    {
        let name = md_name(id);
        match self.position_of(&name) {
            Some(i) => {
                proof {
                    lemma_lookup_at(self@, name@, i as int);
                }
                Ok(self.files[i].contents.clone())
            },
            None => {
                proof {
                    lemma_lookup_absent(self@, name@);
                }
                Err(AppError::NotFound)
            },
        }
    }

    /// Removes the post named by `id`; a post that is not there is
    /// `NotFound`.
    pub fn delete(&mut self, id: &PostId) -> (r: Result<(), AppError>)
        requires
            old(self).wf(),
            id.wf(),
        ensures
            final(self).wf(),
            match r {
                Ok(()) => {
                    &&& lookup(old(self)@, spec_md_name(*id)) is Some
                    &&& final(self)@ == remove_name(old(self)@, spec_md_name(*id))
                },
                Err(e) => {
                    &&& e == AppError::NotFound
                    &&& lookup(old(self)@, spec_md_name(*id)) is None
                    &&& final(self)@ == old(self)@
                },
            },
    {
        let ghost s0 = self@;
        let name = md_name(id);
        match self.position_of(&name) {
            Some(i) => {
                self.files.remove(i);
                proof {
                    lemma_lookup_at(s0, name@, i as int);
                    lemma_remove_at(s0, name@, i as int);
                    assert(self@ =~= s0.remove(i as int));
                    assert forall|p: int, q: int|
                        0 <= p < q < self@.len() implies self@[p].name != self@[q].name by {
                        let p0 = if p < i { p } else { p + 1 };
                        let q0 = if q < i { q } else { q + 1 };
                        assert(self@[p] == s0[p0]);
                        assert(self@[q] == s0[q0]);
                        assert(s0[p0].name != s0[q0].name);
                    }
                }
                Ok(())
            },
            None => {
                proof {
                    lemma_lookup_absent(self@, name@);
                }
                Err(AppError::NotFound)
            },
        }
    }

    /// The directory listing, in enumeration order.
    pub fn list(&self) -> (r: &Vec<FileEntry>)
        ensures
            r@.map_values(|f: FileEntry| f@) == self@,
    {
        &self.files
    }

    /// The contents of the entry whose name sorts lexicographically last,
    /// whether or not that entry is a post; `NotFound` when the directory is
    /// empty.
    pub fn latest(&self) -> (r: Result<String, AppError>)
        ensures
            match r {
                Ok(c) => latest_entry(self@) matches Some(e) && c@ == e.contents,
                Err(e) => e == AppError::NotFound && self@.len() == 0,
            },
    {
        let n = self.files.len();
        if n == 0 {
            return Err(AppError::NotFound);
        }
        let mut best: usize = 0;
        let mut i: usize = 1;
        while i < n
            invariant
                1 <= i <= n,
                best < i,
                n == self.files.len(),
                latest_entry(self@.subrange(0, i as int)) == Some(self@[best as int]),
            decreases n - i,
        {
            proof {
                assert(self@[best as int] == self.files@[best as int]@);
                assert(self@[i as int] == self.files@[i as int]@);
                assert(self@.subrange(0, i + 1).drop_last() =~= self@.subrange(0, i as int));
                assert(self@.subrange(0, i + 1).last() == self@[i as int]);
            }
            if crate::text::str_lex_lt(self.files[best].name.as_str(), self.files[i].name.as_str()) {
                best = i;
            }
            i = i + 1;
        }
        proof {
            assert(self@.subrange(0, n as int) =~= self@);
        }
        Ok(self.files[best].contents.clone())
    }
}


/// THE ROUND-TRIP LAW of the store: reading a name just written yields
/// exactly the body that was written.
pub proof fn lemma_read_after_write(s: Seq<FileEntryView>, name: Seq<char>, body: Seq<char>)
    ensures
        lookup(upsert(s, name, body), name) == Some(body),
    decreases s.len(),
{
    let w = FileEntryView { name, contents: body };
    if s.len() == 0 {
        assert(upsert(s, name, body)[0] == w);
    } else if s[0].name == name {
        assert(upsert(s, name, body)[0] == w);
    } else {
        lemma_read_after_write(s.drop_first(), name, body);
        assert(upsert(s, name, body)[0] == s[0]);
        assert(upsert(s, name, body).drop_first() =~= upsert(s.drop_first(), name, body));
    }
}

/// Writing under one name leaves what every other name holds unchanged.
pub proof fn lemma_write_preserves_others(
    s: Seq<FileEntryView>,
    name: Seq<char>,
    body: Seq<char>,
    other: Seq<char>,
)
    requires
        other != name,
    ensures
        lookup(upsert(s, name, body), other) == lookup(s, other),
    decreases s.len(),
{
    let w = FileEntryView { name, contents: body };
    let u = upsert(s, name, body);
    if s.len() == 0 {
        assert(u[0] == w);
        assert(u.drop_first() =~= Seq::<FileEntryView>::empty());
        assert(lookup(u, other) == lookup(u.drop_first(), other));
        assert(lookup(u.drop_first(), other) is None);
    } else if s[0].name == name {
        assert(u[0] == w);
        assert(u.drop_first() =~= s.drop_first());
        assert(lookup(u, other) == lookup(s.drop_first(), other));
        assert(lookup(s, other) == lookup(s.drop_first(), other));
    } else {
        assert(u[0] == s[0]);
        assert(u.drop_first() =~= upsert(s.drop_first(), name, body));
        if s[0].name == other {
            assert(lookup(u, other) == Some(s[0].contents));
            assert(lookup(s, other) == Some(s[0].contents));
        } else {
            lemma_write_preserves_others(s.drop_first(), name, body, other);
            assert(lookup(u, other) == lookup(upsert(s.drop_first(), name, body), other));
            assert(lookup(s, other) == lookup(s.drop_first(), other));
        }
    }
}

/// THE ABSENCE LAW: a name that no entry carries reads as nothing, so an
/// identity never created is `NotFound`, for reading and deleting alike.
pub proof fn lemma_absent_reads_none(s: Seq<FileEntryView>, name: Seq<char>)
    requires
        forall|k: int| 0 <= k < s.len() ==> s[k].name != name,
    ensures
        lookup(s, name) is None,
{
    lemma_lookup_absent(s, name);
}

/// THE LAST-WRITE-WINS LAW: after an overwrite with a second body following a
/// write with a first, a read returns the second body, never the first.
pub proof fn lemma_update_after_create(
    s: Seq<FileEntryView>,
    name: Seq<char>,
    body1: Seq<char>,
    body2: Seq<char>,
)
    ensures
        lookup(upsert(upsert(s, name, body1), name, body2), name) == Some(body2),
        body1 != body2 ==> lookup(upsert(upsert(s, name, body1), name, body2), name) != Some(
            body1,
        ),
{
    lemma_read_after_write(upsert(s, name, body1), name, body2);
}

/// THE DELETION LAW: after a delete, reading the deleted name yields nothing.
pub proof fn lemma_read_after_delete(s: Seq<FileEntryView>, name: Seq<char>)
    requires
        unique_names(s),
    ensures
        lookup(remove_name(s, name), name) is None,
    decreases s.len(),
{
    if s.len() == 0 {
    } else if s[0].name == name {
        assert forall|k: int|
            0 <= k < s.drop_first().len() implies s.drop_first()[k].name != name by {
            assert(s.drop_first()[k] == s[k + 1]);
            assert(s[0].name != s[k + 1].name);
        }
        lemma_lookup_absent(s.drop_first(), name);
    } else {
        assert forall|p: int, q: int|
            0 <= p < q < s.drop_first().len() implies s.drop_first()[p].name != s.drop_first()[q].name by {
            assert(s.drop_first()[p] == s[p + 1]);
            assert(s.drop_first()[q] == s[q + 1]);
        }
        lemma_read_after_delete(s.drop_first(), name);
        assert(remove_name(s, name)[0] == s[0]);
        assert(remove_name(s, name).drop_first() =~= remove_name(s.drop_first(), name));
    }
}


/// THE LATEST LAW: on a non-empty directory, the latest entry is one of the
/// entries, and no entry's name sorts after its name — it is what sorting by
/// filename and taking the last would give.
pub proof fn lemma_latest_is_max(s: Seq<FileEntryView>)
    requires
        s.len() > 0,
    ensures
        latest_entry(s) is Some,
        s.contains(latest_entry(s)->Some_0),
        forall|k: int|
            0 <= k < s.len() ==> !lex_lt(latest_entry(s)->Some_0.name, (#[trigger] s[k]).name),
    decreases s.len(),
{
    if s.len() == 1 {
        assert(s[0] == latest_entry(s)->Some_0);
        crate::text::lemma_lex_lt_total(s[0].name, s[0].name);
    } else {
        let t = s.drop_last();
        lemma_latest_is_max(t);
        let prev = latest_entry(t)->Some_0;
        let last = s.last();
        assert(forall|k: int| 0 <= k < t.len() ==> #[trigger] t[k] == s[k]);
        if lex_lt(prev.name, last.name) {
            assert(latest_entry(s)->Some_0 == last);
            assert(s.contains(last)) by {
                assert(s[s.len() - 1] == last);
            }
            assert forall|k: int| 0 <= k < s.len() implies !lex_lt(last.name, (#[trigger] s[k]).name) by {
                if k < s.len() - 1 {
                    assert(t[k] == s[k]);
                    assert(!lex_lt(prev.name, t[k].name));
                    crate::text::lemma_lex_lt_total(s[k].name, prev.name);
                    if lex_lt(s[k].name, prev.name) {
                        crate::text::lemma_lex_lt_trans(s[k].name, prev.name, last.name);
                        crate::text::lemma_lex_lt_total(s[k].name, last.name);
                    } else {
                        assert(s[k].name == prev.name);
                        crate::text::lemma_lex_lt_total(s[k].name, last.name);
                    }
                } else {
                    crate::text::lemma_lex_lt_total(last.name, last.name);
                }
            }
        } else {
            assert(latest_entry(s)->Some_0 == prev);
            assert(t.contains(prev));
            let k0 = choose|k0: int| 0 <= k0 < t.len() && t[k0] == prev;
            assert(s.contains(prev)) by {
                assert(s[k0] == prev);
            }
            assert forall|k: int| 0 <= k < s.len() implies !lex_lt(prev.name, (#[trigger] s[k]).name) by {
                if k < s.len() - 1 {
                    assert(t[k] == s[k]);
                    assert(!lex_lt(prev.name, t[k].name));
                } else {
                    assert(s[k] == last);
                }
            }
        }
    }
}


/// The lexicographically largest of a run of names.
pub open spec fn latest_name_of(names: Seq<Seq<char>>) -> Option<Seq<char>>
    decreases names.len(),
{
    if names.len() == 0 {
        None
    } else if names.len() == 1 {
        Some(names[0])
    } else {
        let prev = latest_name_of(names.drop_last())->Some_0;
        if lex_lt(prev, names.last()) {
            Some(names.last())
        } else {
            Some(prev)
        }
    }
}

/// Picks the position of the name that sorts lexicographically last: the
/// choice the latest-post endpoint makes before it reads one file.
pub fn latest_name(names: &Vec<String>) -> (r: Option<usize>)
    ensures
        match r {
            Some(i) => i < names@.len() && Some(names@[i as int]@) == latest_name_of(
                names@.map_values(|n: String| n@),
            ),
            None => names@.len() == 0,
        },
{
    let ghost nv = names@.map_values(|n: String| n@);
    let n = names.len();
    if n == 0 {
        return None;
    }
    let mut best: usize = 0;
    let mut i: usize = 1;
    while i < n
        invariant
            1 <= i <= n,
            best < i,
            n == names.len(),
            nv == names@.map_values(|m: String| m@),
            latest_name_of(nv.subrange(0, i as int)) == Some(nv[best as int]),
        decreases n - i,
    {
        proof {
            assert(nv[best as int] == names@[best as int]@);
            assert(nv[i as int] == names@[i as int]@);
            assert(nv.subrange(0, i + 1).drop_last() =~= nv.subrange(0, i as int));
            assert(nv.subrange(0, i + 1).last() == nv[i as int]);
        }
        if crate::text::str_lex_lt(names[best].as_str(), names[i].as_str()) {
            best = i;
        }
        i = i + 1;
    }
    proof {
        assert(nv.subrange(0, n as int) =~= nv);
        assert(nv[best as int] == names@[best as int]@);
    }
    Some(best)
}

} // verus!
