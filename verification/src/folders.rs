//! The folders of an account that are watched: the inbox, and the folder for junk mail.

use crate::text;
use vstd::prelude::*;

verus! {

/// A folder as the server lists it: its name, and the attributes that IMAP itself does not
/// define.
#[derive(Debug, Clone)]
pub struct ListedFolder {
    pub name: String,
    pub attributes: Vec<String>,
}

/// What a [`ListedFolder`] holds.
pub struct ListedFolderView {
    pub name: Seq<char>,
    pub attributes: Seq<Seq<char>>,
}

impl View for ListedFolder {
    type V = ListedFolderView;

    open spec fn view(&self) -> ListedFolderView {
        ListedFolderView { name: self.name@, attributes: text::texts(self.attributes@) }
    }
}

/// The views of a listing.
pub open spec fn listing(listed: Seq<ListedFolder>) -> Seq<ListedFolderView> {
    listed.map_values(|f: ListedFolder| f@)
}

/// The server marks the folder as the one for junk mail.
pub open spec fn junk(f: ListedFolderView) -> bool {
    exists|i: int|
        0 <= i < f.attributes.len() && text::same_but_ascii_case(
            #[trigger] f.attributes[i],
            "\\Junk"@,
        )
}

/// The inbox, and behind it the folders of a listing that are marked for junk mail, each once.
pub open spec fn marked_folders(listed: Seq<ListedFolderView>) -> Seq<Seq<char>>
    decreases listed.len(),
{
    if listed.len() == 0 {
        seq!["INBOX"@]
    } else {
        let head = marked_folders(listed.drop_last());
        let f = listed.last();
        if junk(f) && !head.contains(f.name) {
            head.push(f.name)
        } else {
            head
        }
    }
}

/// The names that folders for junk mail often have.
pub open spec fn junk_names() -> Seq<Seq<char>> {
    seq![
        "[Gmail]/Spam"@,
        "[Google Mail]/Spam"@,
        "Junk"@,
        "Junk E-mail"@,
        "Junk Email"@,
        "Spam"@,
        "垃圾邮件"@,
        "Bulk Mail"@,
    ]
}

/// What a [`FolderSearch`] holds: the folders that were found, and the names still to try.
pub struct FolderSearchView {
    pub found: Seq<Seq<char>>,
    pub untried: Seq<Seq<char>>,
}

/// The search for the folders to watch. Where the server marks no folder for junk mail, the
/// usual names are tried, until one of them can be opened.
pub struct FolderSearch {
    found: Vec<String>,
    untried: Vec<String>,
    at: usize,
}

impl View for FolderSearch {
    type V = FolderSearchView;

    closed spec fn view(&self) -> FolderSearchView {
        FolderSearchView {
            found: text::texts(self.found@),
            untried: if self.at < self.untried@.len() {
                text::texts(self.untried@).skip(self.at as int)
            } else {
                Seq::<Seq<char>>::empty()
            },
        }
    }
}

fn is_junk(f: &ListedFolder) -> (yes: bool)
    ensures
        yes == junk(f@),
{
    let ghost all = f@.attributes;
    let mut i: usize = 0;
    while i < f.attributes.len()
        invariant
            i <= f.attributes.len(),
            all == text::texts(f.attributes@),
            all == f@.attributes,
            forall|j: int|
                0 <= j < i ==> !text::same_but_ascii_case(#[trigger] all[j], "\\Junk"@),
        decreases f.attributes.len() - i,
    {
        if text::same_ignoring_ascii_case(f.attributes[i].as_str(), "\\Junk") {
            assert(text::same_but_ascii_case(f@.attributes[i as int], "\\Junk"@));
            return true;
        }
        i += 1;
    }
    false
}

fn is_among(names: &[String], name: &str) -> (yes: bool)
    ensures
        yes == text::texts(names@).contains(name@),
{
    let ghost all = text::texts(names@);
    let mut i: usize = 0;
    while i < names.len()
        invariant
            i <= names.len(),
            all == text::texts(names@),
            forall|j: int| 0 <= j < i ==> #[trigger] all[j] != name@,
        decreases names.len() - i,
    {
        if text::same_text(names[i].as_str(), name) {
            assert(all[i as int] == name@);
            return true;
        }
        assert(all[i as int] != name@);
        i += 1;
    }
    false
}

fn list_junk_names() -> (names: Vec<String>)
    ensures
        text::texts(names@) == junk_names(),
{
    let mut names: Vec<String> = Vec::new();
    names.push("[Gmail]/Spam".to_owned());
    names.push("[Google Mail]/Spam".to_owned());
    names.push("Junk".to_owned());
    names.push("Junk E-mail".to_owned());
    names.push("Junk Email".to_owned());
    names.push("Spam".to_owned());
    names.push("垃圾邮件".to_owned());
    names.push("Bulk Mail".to_owned());
    assert(text::texts(names@) =~= junk_names());
    names
}

impl FolderSearch {
    /// The search after the server listed its folders. Where it did not, the listing is empty.
    pub fn new(listed: &[ListedFolder]) -> (search: FolderSearch)
        ensures
            search@ == (FolderSearchView {
                found: marked_folders(listing(listed@)),
                untried: if marked_folders(listing(listed@)).len() == 1 {
                    junk_names()
                } else {
                    Seq::<Seq<char>>::empty()
                },
            }),
    {
        let ghost all = listing(listed@);
        let mut found: Vec<String> = Vec::new();
        found.push("INBOX".to_owned());
        let mut i: usize = 0;
        assert(text::texts(found@) =~= marked_folders(all.take(0)));
        while i < listed.len()
            invariant
                i <= listed.len(),
                all == listing(listed@),
                text::texts(found@) == marked_folders(all.take(i as int)),
            decreases listed.len() - i,
        {
            let ghost before = text::texts(found@);
            assert(all.take(i + 1).drop_last() =~= all.take(i as int));
            assert(all.take(i + 1).last() == listed@[i as int]@);
            if is_junk(&listed[i]) && !is_among(&found, listed[i].name.as_str()) {
                let name = listed[i].name.clone();
                found.push(name);
                assert(text::texts(found@) =~= before.push(name@));
            }
            i += 1;
        }
        assert(all.take(i as int) =~= all);
        let untried = if found.len() == 1 {
            list_junk_names()
        } else {
            Vec::new()
        };
        let search = FolderSearch { found, untried, at: 0 };
        assert(search@.untried =~= text::texts(untried@));
        assert(found@.len() != 1 ==> search@.untried =~= Seq::<Seq<char>>::empty());
        search
    }

    /// The folder to try to open next; nothing when the search is over.
    pub fn next(&self) -> (name: Option<String>)
        ensures
            text::opt(name) == (if self@.untried.len() > 0 {
                Some(self@.untried[0])
            } else {
                None
            }),
    {
        if self.at < self.untried.len() {
            let name = self.untried[self.at].clone();
            assert(name@ == text::texts(self.untried@)[self.at as int]);
            Some(name)
        } else {
            None
        }
    }

    /// Takes in whether the folder that was tried could be opened: the first one that could is
    /// watched, and the search is over.
    pub fn step(&mut self, opened: bool)
        requires
            old(self)@.untried.len() > 0,
        ensures
            final(self)@ == (if opened {
                FolderSearchView {
                    found: old(self)@.found.push(old(self)@.untried[0]),
                    untried: Seq::<Seq<char>>::empty(),
                }
            } else {
                FolderSearchView {
                    found: old(self)@.found,
                    untried: old(self)@.untried.drop_first(),
                }
            }),
    {
        let ghost was = self@;
        assert(self.at < self.untried.len());
        if opened {
            let name = self.untried[self.at].clone();
            assert(name@ == text::texts(self.untried@)[self.at as int]);
            self.found.push(name);
            assert(text::texts(self.found@) =~= was.found.push(name@));
            self.at = self.untried.len();
            assert(self@.untried =~= Seq::<Seq<char>>::empty());
        } else {
            self.at = self.at + 1;
            assert(self@.untried =~= was.untried.drop_first());
        }
    }

    /// The folders that were found.
    pub fn folders(self) -> (found: Vec<String>)
        ensures
            text::texts(found@) == self@.found,
    {
        self.found
    }
}

/// The inbox is always watched, first of all, and no folder twice.
pub proof fn lemma_inbox_first(listed: Seq<ListedFolderView>)
    ensures
        marked_folders(listed).len() >= 1,
        marked_folders(listed)[0] == "INBOX"@,
        marked_folders(listed).no_duplicates(),
    decreases listed.len(),
{
    if listed.len() > 0 {
        lemma_inbox_first(listed.drop_last());
        let head = marked_folders(listed.drop_last());
        let name = listed.last().name;
        if !head.contains(name) {
            assert forall|i: int, j: int|
                0 <= i < head.push(name).len() && 0 <= j < head.push(name).len() && i
                    != j implies head.push(name)[i] != head.push(name)[j] by {
                if i < head.len() {
                    assert(head.contains(head[i]));
                }
                if j < head.len() {
                    assert(head.contains(head[j]));
                }
            }
        }
    }
}

/// Every folder that the server marks for junk mail is watched, and no other but the inbox.
pub proof fn lemma_junk_is_watched(listed: Seq<ListedFolderView>, name: Seq<char>)
    ensures
        marked_folders(listed).contains(name) <==> name == "INBOX"@ || exists|i: int|
            0 <= i < listed.len() && junk(#[trigger] listed[i]) && listed[i].name == name,
    decreases listed.len(),
{
    let out = marked_folders(listed);
    if listed.len() == 0 {
        assert(out[0] == "INBOX"@);
    } else {
        let rest = listed.drop_last();
        let head = marked_folders(rest);
        lemma_junk_is_watched(rest, name);
        let last = listed[listed.len() - 1];
        if out.contains(name) {
            let k = choose|k: int| 0 <= k < out.len() && out[k] == name;
            if k < head.len() {
                assert(head[k] == name);
                if name != "INBOX"@ {
                    let i = choose|i: int|
                        0 <= i < rest.len() && junk(#[trigger] rest[i]) && rest[i].name == name;
                    assert(listed[i] == rest[i]);
                }
            } else {
                assert(junk(last) && last.name == name);
            }
        }
        if name == "INBOX"@ || exists|i: int|
            0 <= i < listed.len() && junk(#[trigger] listed[i]) && listed[i].name == name {
            if name != "INBOX"@ {
                let i = choose|i: int|
                    0 <= i < listed.len() && junk(#[trigger] listed[i]) && listed[i].name == name;
                if i < rest.len() {
                    assert(rest[i] == listed[i]);
                }
            }
            if head.contains(name) {
                let k = choose|k: int| 0 <= k < head.len() && head[k] == name;
                assert(out[k] == name);
            } else {
                assert(out[out.len() - 1] == name);
            }
        }
    }
}

/// The words for a folder in a notice.
pub open spec fn label_of(folder: Seq<char>) -> Seq<char> {
    if folder == "INBOX"@ {
        "收件箱"@
    } else {
        "垃圾邮件"@
    }
}

/// The words for a folder in a notice.
pub fn folder_label(folder: &str) -> (label: &'static str)
    ensures
        label@ == label_of(folder@),
{
    if text::same_text(folder, "INBOX") {
        "收件箱"
    } else {
        "垃圾邮件"
    }
}

/// A folder is for junk mail if one of its attributes is `\\Junk`, in whatever case.
pub proof fn lemma_junk_is_marked(f: ListedFolderView, i: int)
    ensures
        0 <= i < f.attributes.len() && f.attributes[i].map_values(|c: char| text::ascii_lower(c))
            == "\\junk"@ ==> junk(f),
        junk(f) ==> exists|k: int|
            0 <= k < f.attributes.len() && (#[trigger] f.attributes[k]).map_values(
                |c: char| text::ascii_lower(c),
            ) == "\\junk"@,
{
    reveal_strlit("\\Junk");
    reveal_strlit("\\junk");
    let low = |c: char| text::ascii_lower(c);
    assert("\\Junk"@.map_values(low) =~= "\\junk"@);
    if 0 <= i < f.attributes.len() && f.attributes[i].map_values(low) == "\\junk"@ {
        text::lemma_case_is_that_of_the_alphabet(0, 'a', f.attributes[i], "\\Junk"@);
    }
    if junk(f) {
        let k = choose|k: int|
            0 <= k < f.attributes.len() && text::same_but_ascii_case(
                #[trigger] f.attributes[k],
                "\\Junk"@,
            );
        text::lemma_case_is_that_of_the_alphabet(0, 'a', f.attributes[k], "\\Junk"@);
        assert(f.attributes[k].map_values(low) == "\\junk"@);
    }
}

/// Folders are watched in the order in which they are listed: more of a listing only adds folders
/// behind those that are there.
pub proof fn lemma_watched_in_listed_order(a: Seq<ListedFolderView>, b: Seq<ListedFolderView>)
    ensures
        marked_folders(a).len() <= marked_folders(a + b).len(),
        marked_folders(a + b).take(marked_folders(a).len() as int) == marked_folders(a),
    decreases b.len(),
{
    let x = marked_folders(a);
    if b.len() == 0 {
        assert(a + b =~= a);
        assert(x.take(x.len() as int) =~= x);
    } else {
        lemma_watched_in_listed_order(a, b.drop_last());
        assert((a + b).drop_last() =~= a + b.drop_last());
        let y = marked_folders(a + b.drop_last());
        let z = marked_folders(a + b);
        assert(z.take(x.len() as int) =~= y.take(x.len() as int));
    }
}

/// The usual names of a folder for junk mail, in the order in which they are tried.
pub proof fn lemma_usual_junk_names()
    ensures
        junk_names().len() == 8,
        junk_names()[0] == "[Gmail]/Spam"@,
        junk_names()[1] == "[Google Mail]/Spam"@,
        junk_names()[2] == "Junk"@,
        junk_names()[3] == "Junk E-mail"@,
        junk_names()[4] == "Junk Email"@,
        junk_names()[5] == "Spam"@,
        junk_names()[6] == "垃圾邮件"@,
        junk_names()[7] == "Bulk Mail"@,
{
}

/// The inbox has its own word; every other folder that is watched is for junk mail.
pub proof fn lemma_folders_have_words(folder: Seq<char>)
    ensures
        label_of("INBOX"@) == "收件箱"@,
        folder != "INBOX"@ ==> label_of(folder) == "垃圾邮件"@,
{
}

} // verus!
