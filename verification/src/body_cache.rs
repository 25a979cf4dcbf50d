//! The bodies on disk: where each one is kept, and which ones have to go.

use crate::text;
use vstd::prelude::*;

verus! {

// ---------------------------------------------------------------------------
// File names
// ---------------------------------------------------------------------------

/// The characters that `char::is_alphanumeric` accepts.
pub uninterp spec fn alphanumeric(c: char) -> bool;

/// The ASCII letters and digits.
pub open spec fn ascii_alphanumeric(c: char) -> bool {
    '0' <= c <= '9' || 'A' <= c <= 'Z' || 'a' <= c <= 'z'
}

/// Calls `char::is_alphanumeric`, which goes by the Unicode tables. The result is a function of
/// the character; of the ASCII characters it accepts the letters and the digits.
#[verifier::external_body]
fn is_alphanumeric(c: char) -> (yes: bool)
    ensures
        yes == alphanumeric(c),
        c <= '\u{7f}' ==> yes == ascii_alphanumeric(c),
{
    c.is_alphanumeric()
}

/// `s` with an underscore for every character that is neither a letter nor a digit.
pub open spec fn sanitized(s: Seq<char>) -> Seq<char> {
    s.map_values(
        |c: char|
            if alphanumeric(c) {
                c
            } else {
                '_'
            },
    )
}

/// A text that can be a part of a file name: it holds no separator, no dot, and no ASCII
/// character but letters, digits and underscores.
pub open spec fn plain_name(s: Seq<char>) -> bool {
    forall|i: int|
        0 <= i < s.len() && (#[trigger] s[i]) <= '\u{7f}' ==> s[i] == '_' || ascii_alphanumeric(
            s[i],
        )
}

/// `s` with an underscore for every character that is neither a letter nor a digit, as a part
/// of a file name.
pub fn sanitize_component(s: &str) -> (out: String)
    ensures
        out@ == sanitized(s@),
        plain_name(out@),
{
    let v = text::to_chars(s);
    let mut out: Vec<char> = Vec::new();
    let mut i: usize = 0;
    while i < v.len()
        invariant
            i <= v.len(),
            v@ == s@,
            out@ == sanitized(s@).take(i as int),
            plain_name(out@),
        decreases v.len() - i,
    {
        let ghost before = out@;
        let c = if is_alphanumeric(v[i]) {
            v[i]
        } else {
            '_'
        };
        out.push(c);
        assert(sanitized(s@).take(i + 1) =~= before.push(sanitized(s@)[i as int]));
        assert forall|k: int| 0 <= k < out@.len() && (#[trigger] out@[k]) <= '\u{7f}' implies
            out@[k] == '_' || ascii_alphanumeric(out@[k]) by {
            if k < before.len() {
                assert(out@[k] == before[k]);
            }
        }
        i += 1;
    }
    assert(sanitized(s@).take(i as int) =~= sanitized(s@));
    text::from_chars(&out)
}

/// The file of a body: by account, folder and uid under the directory of the bodies.
pub open spec fn body_file(
    cache_dir: Seq<char>,
    account: Seq<char>,
    folder: Seq<char>,
    uid: Seq<char>,
) -> Seq<char> {
    text::path_under(
        text::path_under(text::path_under(cache_dir, sanitized(account)), sanitized(folder)),
        uid + ".v3.json"@,
    )
}

/// The file of a body: by account, folder and uid under the directory of the bodies. It lies
/// there whatever the account and the folder are called, as long as the uid is no absolute path
/// itself.
pub fn body_cache_path(cache_dir: &str, account: &str, folder: &str, uid: &str) -> (path: String)
    ensures
        path@ == body_file(cache_dir@, account@, folder@, uid@),
        cache_dir@.len() > 0 && (uid@.len() == 0 || uid@[0] != '/') ==> text::starts_at(
            path@,
            0,
            cache_dir@,
        ),
{
    let account = sanitize_component(account);
    let folder = sanitize_component(folder);
    let base = text::to_chars(cache_dir);
    let part = text::to_chars(account.as_str());
    let base = text::path_join(&base, &part);
    let part = text::to_chars(folder.as_str());
    let base = text::path_join(&base, &part);
    let mut file = text::to_chars(uid);
    text::push_text(&mut file, ".v3.json");
    let path = text::path_join(&base, &file);
    proof {
        reveal_strlit(".v3.json");
        if cache_dir@.len() > 0 && (uid@.len() == 0 || uid@[0] != '/') {
            lemma_path_stays_inside(cache_dir@, account@, folder@, file@);
        }
    }
    text::from_chars(&path)
}

proof fn lemma_path_stays_inside(dir: Seq<char>, a: Seq<char>, f: Seq<char>, file: Seq<char>)
    requires
        dir.len() > 0,
        plain_name(a),
        plain_name(f),
        file.len() > 0 && file[0] != '/',
    ensures
        text::starts_at(
            text::path_under(text::path_under(text::path_under(dir, a), f), file),
            0,
            dir,
        ),
{
    let n = dir.len() as int;
    assert(!(a.len() > 0 && a[0] == '/'));
    assert(!(f.len() > 0 && f[0] == '/'));
    let one = text::path_under(dir, a);
    let two = text::path_under(one, f);
    let all = text::path_under(two, file);
    assert(one.subrange(0, n) =~= dir);
    assert(two.subrange(0, n) =~= one.subrange(0, n));
    assert(all.subrange(0, n) =~= two.subrange(0, n));
}

/// The name of a file that holds a body: its extension is `json`.
pub open spec fn body_name(name: Seq<char>) -> bool {
    name.len() > 5 && text::starts_at(name, name.len() - 5, ".json"@)
}

/// Whether a file of this name holds a body: its extension is `json`.
pub fn is_body_name(name: &str) -> (yes: bool)
    ensures
        yes == body_name(name@),
{
    let v = text::to_chars(name);
    let ext = text::to_chars(".json");
    v.len() > 5 && text::is_at(&v, v.len() - 5, &ext)
}

// ---------------------------------------------------------------------------
// What has to go
// ---------------------------------------------------------------------------

/// A file with a body, and when it was last written, in nanoseconds since 1970.
#[derive(Debug, Clone)]
pub struct CachedFile {
    pub path: String,
    pub modified: i128,
}

/// What a [`CachedFile`] holds.
pub struct CachedFileView {
    pub path: Seq<char>,
    pub modified: int,
}

impl View for CachedFile {
    type V = CachedFileView;

    open spec fn view(&self) -> CachedFileView {
        CachedFileView { path: self.path@, modified: self.modified as int }
    }
}

/// The views of a list of files.
pub open spec fn file_views(files: Seq<CachedFile>) -> Seq<CachedFileView> {
    files.map_values(|f: CachedFile| f@)
}

/// `f` put into a list with the oldest file first, behind all files that are not newer.
pub open spec fn filed(list: Seq<CachedFileView>, f: CachedFileView) -> Seq<CachedFileView>
    decreases list.len(),
{
    if list.len() > 0 && list.last().modified > f.modified {
        filed(list.drop_last(), f).push(list.last())
    } else {
        list.push(f)
    }
}

/// The files by age, the oldest first; files of one age stay in the order they have.
pub open spec fn by_age(files: Seq<CachedFileView>) -> Seq<CachedFileView>
    decreases files.len(),
{
    if files.len() == 0 {
        files
    } else {
        filed(by_age(files.drop_last()), files.last())
    }
}

/// The files that have to go so that no more than `limit` are left: the oldest ones.
pub open spec fn surplus(files: Seq<CachedFileView>, limit: nat) -> Seq<CachedFileView> {
    if files.len() <= limit {
        Seq::<CachedFileView>::empty()
    } else {
        by_age(files).take(files.len() - limit)
    }
}

fn file_in(list: &mut Vec<CachedFile>, f: CachedFile)
    ensures
        file_views(final(list)@) == filed(file_views(old(list)@), f@),
        final(list)@.len() == old(list)@.len() + 1,
{
    let ghost all = file_views(list@);
    let mut at: usize = list.len();
    assert(all.take(at as int) =~= all);
    assert(filed(all, f@) =~= filed(all.take(at as int), f@) + all.skip(at as int));
    while at > 0 && list[at - 1].modified > f.modified
        invariant
            at <= list.len(),
            all == file_views(list@),
            filed(all, f@) == filed(all.take(at as int), f@) + all.skip(at as int),
        decreases at,
    {
        let ghost head = all.take(at as int);
        assert(head.drop_last() =~= all.take(at - 1));
        assert(head.last() == all[at - 1]);
        assert(filed(head.drop_last(), f@).push(head.last()) + all.skip(at as int) =~= filed(
            all.take(at - 1),
            f@,
        ) + all.skip(at - 1));
        at -= 1;
    }
    let ghost head = all.take(at as int);
    assert(head.push(f@) + all.skip(at as int) =~= all.insert(at as int, f@));
    list.insert(at, f);
    assert(file_views(list@) =~= all.insert(at as int, f@));
}

/// The files that have to go so that no more than `limit` are left: the oldest ones, the oldest
/// first.
pub fn prune_body_cache(files: Vec<CachedFile>, limit: usize) -> (gone: Vec<CachedFile>)
    ensures
        file_views(gone@) == surplus(file_views(files@), limit as nat),
{
    let ghost all = file_views(files@);
    let total: usize = files.len();
    let mut list: Vec<CachedFile> = Vec::new();
    if total <= limit {
        assert(file_views(list@) =~= Seq::<CachedFileView>::empty());
        return list;
    }
    assert(file_views(list@) =~= by_age(all.take(0)));
    for f in it: files.into_iter()
        invariant
            it.seq() == files@,
            all == file_views(files@),
            list@.len() == it.index(),
            file_views(list@) == by_age(all.take(it.index() as int)),
    {
        let ghost i = it.index() as int;
        assert(all.take(i + 1).drop_last() =~= all.take(i));
        assert(all.take(i + 1).last() == f@);
        file_in(&mut list, f);
    }
    assert(all.take(all.len() as int) =~= all);
    let ghost ordered = file_views(list@);
    list.truncate(total - limit);
    assert(file_views(list@) =~= ordered.take(total - limit));
    list
}

/// No file of the list is newer than one behind it.
pub open spec fn oldest_first(list: Seq<CachedFileView>) -> bool {
    forall|i: int, j: int|
        0 <= i < j < list.len() ==> (#[trigger] list[i]).modified <= (#[trigger] list[j]).modified
}

proof fn lemma_filed(list: Seq<CachedFileView>, f: CachedFileView)
    requires
        oldest_first(list),
    ensures
        oldest_first(filed(list, f)),
        filed(list, f).len() == list.len() + 1,
        filed(list, f).to_multiset() == list.to_multiset().insert(f),
        forall|i: int|
            0 <= i < filed(list, f).len() ==> (#[trigger] filed(list, f)[i] == f || list.contains(
                filed(list, f)[i],
            )),
    decreases list.len(),
{
    broadcast use vstd::seq_lib::group_to_multiset_ensures;

    let out = filed(list, f);
    if list.len() > 0 && list.last().modified > f.modified {
        let head = list.drop_last();
        let last = list.last();
        lemma_filed(head, f);
        let rest = filed(head, f);
        assert(list =~= head.push(last));
        assert forall|i: int| 0 <= i < out.len() implies (#[trigger] out[i] == f || list.contains(
            out[i],
        )) by {
            if i < rest.len() {
                assert(out[i] == rest[i]);
                if rest[i] != f {
                    let j = choose|j: int| 0 <= j < head.len() && head[j] == rest[i];
                    assert(list[j] == out[i]);
                }
            } else {
                assert(list[list.len() - 1] == out[i]);
            }
        }
        assert forall|i: int, j: int| 0 <= i < j < out.len() implies (#[trigger] out[i]).modified
            <= (#[trigger] out[j]).modified by {
            assert(out[i] == rest[i]);
            if j < rest.len() {
                assert(out[j] == rest[j]);
            } else if rest[i] != f {
                let k = choose|k: int| 0 <= k < head.len() && head[k] == rest[i];
                assert(list[k].modified <= list[list.len() - 1].modified);
            }
        }
        assert(out.to_multiset() =~= list.to_multiset().insert(f));
    } else {
        assert forall|i: int| 0 <= i < out.len() implies (#[trigger] out[i] == f || list.contains(
            out[i],
        )) by {
            if i < list.len() {
                assert(list[i] == out[i]);
            }
        }
        assert forall|i: int, j: int| 0 <= i < j < out.len() implies (#[trigger] out[i]).modified
            <= (#[trigger] out[j]).modified by {
            if j == list.len() && i < list.len() - 1 {
                assert(list[i].modified <= list[list.len() - 1].modified);
            }
        }
    }
}

/// The files by age are the same files, the oldest first.
pub proof fn lemma_by_age(files: Seq<CachedFileView>)
    ensures
        oldest_first(by_age(files)),
        by_age(files).to_multiset() == files.to_multiset(),
        by_age(files).len() == files.len(),
    decreases files.len(),
{
    broadcast use vstd::seq_lib::group_to_multiset_ensures;

    if files.len() > 0 {
        let head = files.drop_last();
        lemma_by_age(head);
        lemma_filed(by_age(head), files.last());
        assert(files =~= head.push(files.last()));
    }
}

/// Exactly as many files go as there are too many, and none that goes is newer than one that
/// stays.
pub proof fn lemma_oldest_go(files: Seq<CachedFileView>, limit: nat)
    ensures
        files.len() > limit ==> surplus(files, limit).len() == files.len() - limit,
        files.len() <= limit ==> surplus(files, limit).len() == 0,
        forall|i: int, j: int|
            0 <= i < surplus(files, limit).len() <= j < by_age(files).len() ==> (
            #[trigger] surplus(files, limit)[i]).modified <= (#[trigger] by_age(
                files,
            )[j]).modified,
{
    lemma_by_age(files);
    let gone = surplus(files, limit);
    let all = by_age(files);
    assert forall|i: int, j: int| 0 <= i < gone.len() <= j < all.len() implies (
    #[trigger] gone[i]).modified <= (#[trigger] all[j]).modified by {
        assert(gone[i] == all[i]);
    }
}

/// A name is made safe character by character: letters and digits stay, and all else becomes an
/// underscore.
pub proof fn lemma_names_are_made_safe(s: Seq<char>, i: int)
    requires
        0 <= i < s.len(),
    ensures
        sanitized(s).len() == s.len(),
        alphanumeric(s[i]) ==> sanitized(s)[i] == s[i],
        !alphanumeric(s[i]) ==> sanitized(s)[i] == '_',
{
}

proof fn lemma_part_under(base: Seq<char>, part: Seq<char>)
    requires
        base.len() > 0 && base[base.len() - 1] != '/',
        part.len() > 0 && part[0] != '/' && part[part.len() - 1] != '/',
    ensures
        text::path_under(base, part) == base + seq!['/'] + part,
        text::path_under(base, part).len() > 0,
        text::path_under(base, part)[text::path_under(base, part).len() - 1] != '/',
{
    text::lemma_paths_have_one_slash_between(base, part);
    let p = base + seq!['/'] + part;
    assert(p[p.len() - 1] == part[part.len() - 1]);
}

/// The file of a body lies under the directory of the bodies, in a directory for its account and
/// one in that for its folder, and is called by its uid. So mails with other uids have other
/// files.
pub proof fn lemma_bodies_lie_by_account_and_folder(
    dir: Seq<char>,
    account: Seq<char>,
    folder: Seq<char>,
    uid: Seq<char>,
    other: Seq<char>,
)
    requires
        dir.len() > 0 && dir[dir.len() - 1] != '/',
        account.len() > 0 && plain_name(sanitized(account)),
        folder.len() > 0 && plain_name(sanitized(folder)),
        uid.len() > 0 && uid[0] != '/',
        other.len() > 0 && other[0] != '/',
    ensures
        body_file(dir, account, folder, uid) == dir + seq!['/'] + sanitized(account) + seq!['/']
            + sanitized(folder) + seq!['/'] + (uid + ".v3.json"@),
        uid != other ==> body_file(dir, account, folder, uid) != body_file(
            dir,
            account,
            folder,
            other,
        ),
{
    let a = sanitized(account);
    let f = sanitized(folder);
    assert(a.len() == account.len() && f.len() == folder.len());
    assert(a[0] != '/' && a[a.len() - 1] != '/') by {
        assert(a[0] <= '\u{7f}' ==> a[0] == '_' || ascii_alphanumeric(a[0]));
        let l = a.len() - 1;
        assert(a[l] <= '\u{7f}' ==> a[l] == '_' || ascii_alphanumeric(a[l]));
    }
    assert(f[0] != '/' && f[f.len() - 1] != '/') by {
        assert(f[0] <= '\u{7f}' ==> f[0] == '_' || ascii_alphanumeric(f[0]));
        let l = f.len() - 1;
        assert(f[l] <= '\u{7f}' ==> f[l] == '_' || ascii_alphanumeric(f[l]));
    }
    lemma_part_under(dir, a);
    lemma_part_under(dir + seq!['/'] + a, f);
    reveal_strlit(".v3.json");
    let base = dir + seq!['/'] + a + seq!['/'] + f;
    let x = uid + ".v3.json"@;
    let y = other + ".v3.json"@;
    assert(x[0] == uid[0] && y[0] == other[0]);
    lemma_part_under(base, x);
    lemma_part_under(base, y);
    if uid != other {
        let p = base + seq!['/'] + x;
        let q = base + seq!['/'] + y;
        if p == q {
            assert(p.skip((base.len() + 1) as int) =~= x);
            assert(q.skip((base.len() + 1) as int) =~= y);
            assert(x.len() == y.len());
            assert(x.take(uid.len() as int) =~= uid);
            assert(y.take(other.len() as int) =~= other);
        }
    }
}

/// A file holds a body if its name is something and `.json` behind it.
pub proof fn lemma_body_names_end_in_json(stem: Seq<char>, name: Seq<char>)
    ensures
        stem.len() > 0 ==> body_name(stem + ".json"@),
        !body_name(".json"@),
        body_name(name) ==> name == name.take(name.len() - 5) + ".json"@,
{
    reveal_strlit(".json");
    let s = stem + ".json"@;
    assert(s.subrange(s.len() - 5, s.len() as int) =~= ".json"@);
    if body_name(name) {
        assert(name =~= name.take(name.len() - 5) + name.subrange(
            name.len() - 5,
            name.len() as int,
        ));
    }
}

/// The files that go are the first ones of all files by age, in that order.
pub proof fn lemma_oldest_go_first(files: Seq<CachedFileView>, limit: nat, i: int)
    requires
        0 <= i < surplus(files, limit).len(),
    ensures
        surplus(files, limit)[i] == by_age(files)[i],
        files.contains(surplus(files, limit)[i]),
        forall|k: int|
            i <= k < by_age(files).len() ==> surplus(files, limit)[i].modified <= (
            #[trigger] by_age(files)[k]).modified,
{
    broadcast use vstd::seq_lib::group_to_multiset_ensures;

    lemma_by_age(files);
    let f = by_age(files)[i];
    assert(by_age(files).contains(f));
    by_age(files).to_multiset_ensures();
    files.to_multiset_ensures();
    assert(by_age(files).to_multiset().count(f) > 0);
    assert(files.to_multiset().count(f) > 0);
}

} // verus!
