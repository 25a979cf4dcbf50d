//! The offline translation model: which files it is made of, how they are fetched, and when
//! the loaded model is given up.

use crate::text;
use vstd::prelude::*;

verus! {

// ---------------------------------------------------------------------------
// The files of the model
// ---------------------------------------------------------------------------

/// The files that the model and its tokenizer are made of.
pub open spec fn model_file_names() -> Seq<Seq<char>> {
    seq![
        "config.json"@,
        "model.bin"@,
        "sentencepiece.bpe.model"@,
        "shared_vocabulary.txt"@,
        "special_tokens_map.json"@,
        "tokenizer_config.json"@,
        "tokenizer.json"@,
    ]
}

/// How many files the model is made of.
pub const MODEL_FILES: usize = 7;

/// How often the fetch of one file is tried.
pub const MAX_TRIES: usize = 3;

/// The files that the model and its tokenizer are made of.
pub fn model_files() -> (names: Vec<String>)
    ensures
        text::texts(names@) == model_file_names(),
        names@.len() == MODEL_FILES,
{
    let mut names: Vec<String> = Vec::new();
    names.push("config.json".to_owned());
    names.push("model.bin".to_owned());
    names.push("sentencepiece.bpe.model".to_owned());
    names.push("shared_vocabulary.txt".to_owned());
    names.push("special_tokens_map.json".to_owned());
    names.push("tokenizer_config.json".to_owned());
    names.push("tokenizer.json".to_owned());
    assert(text::texts(names@) =~= model_file_names());
    names
}

/// The directory of the model under a user's data directory, or under the current directory
/// where there is none.
pub open spec fn model_dir_under(data_dir: Option<Seq<char>>) -> Seq<char> {
    text::path_under(
        text::opt_or(data_dir, "."@),
        "dms-email-client/models/nllb-200-distilled-600M"@,
    )
}

/// The directory of the model under a user's data directory, or under the current directory
/// where there is none.
pub fn model_dir(data_dir: &Option<String>) -> (dir: String)
    ensures
        dir@ == model_dir_under(text::opt(*data_dir)),
{
    let base = match data_dir {
        Some(d) => text::to_chars(d.as_str()),
        None => text::to_chars("."),
    };
    let rest = text::to_chars("dms-email-client/models/nllb-200-distilled-600M");
    let path = text::path_join(&base, &rest);
    text::from_chars(&path)
}

/// A file of this size is there and is not empty.
pub open spec fn complete(size: Option<u64>) -> bool {
    size is Some && size->0 > 0
}

/// Every file of the model is there and is not empty.
pub open spec fn ready(sizes: Seq<Option<u64>>) -> bool {
    forall|i: int| 0 <= i < sizes.len() ==> complete(#[trigger] sizes[i])
}

/// The files that are missing or empty, where `sizes` are the sizes of `names`.
pub open spec fn incomplete(names: Seq<Seq<char>>, sizes: Seq<Option<u64>>) -> Seq<Seq<char>>
    decreases sizes.len(),
{
    if sizes.len() == 0 {
        Seq::<Seq<char>>::empty()
    } else {
        let head = incomplete(names, sizes.drop_last());
        if complete(sizes.last()) {
            head
        } else {
            head.push(names[sizes.len() - 1])
        }
    }
}

/// What is asked for next while the model is fetched.
pub enum FetchView {
    /// The file that comes next, how often it has failed, and the files behind it.
    Fetching { pending: Seq<Seq<char>>, failures: nat },
    /// All files are there.
    Done,
}

/// The fetch of the files of the model that are missing or empty: one after the other, each
/// with a limited number of tries. Files that are complete are not fetched again.
pub struct ModelFetch {
    pending: Vec<String>,
    at: usize,
    failures: usize,
}

impl View for ModelFetch {
    type V = FetchView;

    closed spec fn view(&self) -> FetchView {
        if self.at < self.pending@.len() {
            FetchView::Fetching {
                pending: text::texts(self.pending@).skip(self.at as int),
                failures: self.failures as nat,
            }
        } else {
            FetchView::Done
        }
    }
}

/// The fetch of `pending`, from its start.
pub open spec fn fetch_of(pending: Seq<Seq<char>>) -> FetchView {
    if pending.len() == 0 {
        FetchView::Done
    } else {
        FetchView::Fetching { pending, failures: 0 }
    }
}

/// The error for a file that could not be fetched.
pub open spec fn fetch_error(file: Seq<char>, cause: Seq<char>) -> Seq<char> {
    "下载 "@ + file + " 失败: "@ + cause
}

impl ModelFetch {
    /// The fetch of what is missing, where `sizes` are the sizes of the model's files.
    pub fn new(sizes: &[Option<u64>]) -> (fetch: ModelFetch)
        requires
            sizes@.len() == MODEL_FILES,
        ensures
            fetch@ == fetch_of(incomplete(model_file_names(), sizes@)),
            fetch@ is Done <==> ready(sizes@),
    {
        let names = model_files();
        let mut pending: Vec<String> = Vec::new();
        let mut i: usize = 0;
        assert(text::texts(pending@) =~= incomplete(model_file_names(), sizes@.take(0)));
        while i < sizes.len()
            invariant
                i <= sizes.len(),
                sizes@.len() == MODEL_FILES,
                names@.len() == MODEL_FILES,
                text::texts(names@) == model_file_names(),
                text::texts(pending@) == incomplete(model_file_names(), sizes@.take(i as int)),
            decreases sizes.len() - i,
        {
            let ghost before = text::texts(pending@);
            assert(sizes@.take(i + 1).drop_last() =~= sizes@.take(i as int));
            let whole = match sizes[i] {
                Some(n) => n > 0,
                None => false,
            };
            if !whole {
                let name = names[i].clone();
                assert(name@ == text::texts(names@)[i as int]);
                pending.push(name);
                assert(text::texts(pending@) =~= before.push(name@));
            }
            i += 1;
        }
        assert(sizes@.take(i as int) =~= sizes@);
        proof {
            lemma_ready_if_nothing_incomplete(sizes@);
        }
        let fetch = ModelFetch { pending, at: 0, failures: 0 };
        assert(text::texts(pending@).skip(0) =~= text::texts(pending@));
        fetch
    }

    /// The file to fetch next; nothing when all are there.
    pub fn next(&self) -> (file: Option<String>)
        ensures
            text::opt(file) == match self@ {
                FetchView::Fetching { pending, .. } => Some(pending[0]),
                FetchView::Done => None,
            },
    {
        if self.at < self.pending.len() {
            let file = self.pending[self.at].clone();
            assert(file@ == text::texts(self.pending@)[self.at as int]);
            Some(file)
        } else {
            None
        }
    }

    /// Takes in how the fetch of the next file went. A file that was fetched makes way for the
    /// one behind it; one that failed is tried again, until its tries are used up: then the
    /// error says so.
    pub fn step(&mut self, outcome: Result<(), String>) -> (go_on: Result<(), String>)
        requires
            old(self)@ is Fetching,
        ensures
            ({
                let was = old(self)@;
                match outcome {
                    Ok(()) => go_on is Ok && final(self)@ == fetch_of(was->pending.drop_first()),
                    Err(e) => if was->failures + 1 < MAX_TRIES {
                        &&& go_on is Ok
                        &&& final(self)@ == (FetchView::Fetching {
                            pending: was->pending,
                            failures: was->failures + 1,
                        })
                    } else {
                        &&& final(self)@ == was
                        &&& go_on is Err
                        &&& go_on->Err_0@ == fetch_error(was->pending[0], e@)
                    },
                }
            }),
    {
        let ghost was = self@;
        match outcome {
            Ok(()) => {
                assert(self.at < self.pending.len());
                self.at = self.at + 1;
                self.failures = 0;
                proof {
                    let all = text::texts(self.pending@);
                    assert(was->pending.drop_first() =~= all.skip(self.at as int));
                }
                Ok(())
            },
            Err(e) => {
                if self.failures < MAX_TRIES - 1 {
                    self.failures = self.failures + 1;
                    Ok(())
                } else {
                    let mut said = text::to_chars("下载 ");
                    text::push_text(&mut said, self.pending[self.at].as_str());
                    assert(self.pending@[self.at as int]@ == text::texts(
                        self.pending@,
                    )[self.at as int]);
                    text::push_text(&mut said, " 失败: ");
                    text::push_text(&mut said, e.as_str());
                    Err(text::from_chars(&said))
                }
            },
        }
    }
}

/// The model is ready exactly when none of its files is missing or empty.
pub proof fn lemma_ready_if_nothing_incomplete(sizes: Seq<Option<u64>>)
    ensures
        ready(sizes) <==> incomplete(model_file_names(), sizes).len() == 0,
    decreases sizes.len(),
{
    if sizes.len() > 0 {
        let head = sizes.drop_last();
        lemma_ready_if_nothing_incomplete(head);
        if ready(sizes) {
            assert forall|i: int| 0 <= i < head.len() implies complete(#[trigger] head[i]) by {
                assert(complete(sizes[i]));
            }
            assert(complete(sizes[sizes.len() - 1]));
        } else if ready(head) && complete(sizes.last()) {
            assert forall|i: int| 0 <= i < sizes.len() implies complete(#[trigger] sizes[i]) by {
                if i < head.len() {
                    assert(complete(head[i]));
                }
            }
        }
    }
}

/// The first file that is missing or empty, where `sizes` are the sizes of the model's files.
pub open spec fn first_incomplete(sizes: Seq<Option<u64>>) -> Seq<char> {
    incomplete(model_file_names(), sizes)[0]
}

/// Whether the model can be used, where `sizes` are the sizes of its files: every one of them has
/// to be there and must not be empty. This holds before a fetch, which is then not needed, and
/// has to hold after it.
pub fn ensure_model(sizes: &[Option<u64>]) -> (usable: Result<(), String>)
    requires
        sizes@.len() == MODEL_FILES,
    ensures
        usable is Ok <==> ready(sizes@),
        usable is Err ==> usable->Err_0@ == "模型文件不完整: "@ + first_incomplete(sizes@),
{
    let fetch = ModelFetch::new(sizes);
    match fetch.next() {
        None => Ok(()),
        Some(file) => {
            let mut said = text::to_chars("模型文件不完整: ");
            text::push_text(&mut said, file.as_str());
            Err(text::from_chars(&said))
        },
    }
}

// ---------------------------------------------------------------------------
// The loaded model
// ---------------------------------------------------------------------------

/// How many nanoseconds a loaded model is kept after its last use: five minutes.
pub const IDLE_NANOS: u64 = 300_000_000_000;

/// What a [`ModelManager`] holds: the model, if it is loaded, and when it was last used.
pub struct ModelManagerView<M> {
    pub slot: Option<M>,
    pub last_used: u64,
}

/// A model that is loaded when it is first needed, and unloaded when it has been idle.
pub struct ModelManager<M> {
    slot: Option<M>,
    last_used: u64,
}

impl<M> View for ModelManager<M> {
    type V = ModelManagerView<M>;

    closed spec fn view(&self) -> ModelManagerView<M> {
        ModelManagerView { slot: self.slot, last_used: self.last_used }
    }
}

/// The model has been idle for too long at `now`.
pub open spec fn idle(last_used: u64, now: u64) -> bool {
    now - last_used > IDLE_NANOS
}

impl<M> ModelManager<M> {
    /// A manager without a loaded model. Times are in nanoseconds.
    pub fn new(now: u64) -> (manager: ModelManager<M>)
        ensures
            manager@ == (ModelManagerView::<M> { slot: None, last_used: now }),
    {
        ModelManager { slot: None, last_used: now }
    }

    /// Runs `f` on the model, which `load` brings first where it is not loaded. Where loading
    /// fails, nothing changes; else the time that `clock` shows is the time of the last use.
    pub fn with_translator<
        R,
        L: FnOnce() -> Result<M, String>,
        C: FnOnce() -> u64,
        F: FnOnce(&M) -> R,
    >(&mut self, load: L, clock: C, f: F) -> (out: Result<R, String>)
        requires
            load.requires(()),
            clock.requires(()),
            forall|m: &M| f.requires((m,)),
        ensures
            old(self)@.slot is Some ==> out is Ok && final(self)@.slot == old(self)@.slot,
            match out {
                Ok(r) => {
                    &&& final(self)@.slot is Some
                    &&& old(self)@.slot is None ==> load.ensures((), Ok(final(self)@.slot->0))
                    &&& clock.ensures((), final(self)@.last_used)
                    &&& f.ensures((&final(self)@.slot->0,), r)
                },
                Err(e) => load.ensures((), Err(e)) && final(self)@ == old(self)@,
            },
    {
        if self.slot.is_none() {
            match load() {
                Ok(m) => {
                    self.slot = Some(m);
                },
                Err(e) => {
                    return Err(e);
                },
            }
        }
        self.last_used = clock();
        match &self.slot {
            Some(m) => Ok(f(m)),
            None => Err(String::new()),
        }
    }

    /// Unloads the model if it has been idle for too long, and says whether it did.
    pub fn unload_idle(&mut self, now: u64) -> (unloaded: bool)
        ensures
            unloaded == (old(self)@.slot is Some && idle(old(self)@.last_used, now)),
            final(self)@ == (ModelManagerView {
                slot: if unloaded {
                    None
                } else {
                    old(self)@.slot
                },
                last_used: old(self)@.last_used,
            }),
    {
        if self.slot.is_some() && now > self.last_used && now - self.last_used > IDLE_NANOS {
            self.slot = None;
            true
        } else {
            false
        }
    }
}

/// What is to be fetched of the model are its files, in order, that are missing or empty.
pub proof fn lemma_missing_files_are_fetched(sizes: Seq<Option<u64>>, i: int)
    requires
        sizes.len() <= MODEL_FILES,
        0 <= i < sizes.len(),
    ensures
        incomplete(model_file_names(), sizes).contains(model_file_names()[i]) <== sizes[i] is None
            || sizes[i] == Some(0u64),
        incomplete(model_file_names(), sizes).len() == sizes.filter(
            |s: Option<u64>| s is None || s == Some(0u64),
        ).len(),
    decreases sizes.len(),
{
    reveal(Seq::filter);
    let names = model_file_names();
    let head = sizes.drop_last();
    let rest = incomplete(names, head);
    let all = incomplete(names, sizes);
    if head.len() > 0 {
        lemma_missing_files_are_fetched(
            head,
            if i < head.len() {
                i
            } else {
                0
            },
        );
    } else {
        assert(rest =~= Seq::<Seq<char>>::empty());
        assert(head.filter(|s: Option<u64>| s is None || s == Some(0u64)) =~= head);
    }
    if sizes[i] is None || sizes[i] == Some(0u64) {
        if i < head.len() {
            assert(head[i] == sizes[i]);
            let k = choose|k: int| 0 <= k < rest.len() && rest[k] == names[i];
            assert(all[k] == names[i]);
        } else {
            assert(all[all.len() - 1] == names[i]);
        }
    }
}

/// The files of the model, how often each is tried, and how long the model is kept.
pub proof fn lemma_model_is_made_of()
    ensures
        model_file_names() == seq![
            "config.json"@,
            "model.bin"@,
            "sentencepiece.bpe.model"@,
            "shared_vocabulary.txt"@,
            "special_tokens_map.json"@,
            "tokenizer_config.json"@,
            "tokenizer.json"@,
        ],
        model_file_names().len() == MODEL_FILES,
        MAX_TRIES == 3,
        IDLE_NANOS == 300 * 1_000_000_000,
{
}

/// A model that was used at most five minutes ago is not idle; from then on it is.
pub proof fn lemma_idle_after_five_minutes(last_used: u64, now: u64)
    ensures
        idle(last_used, now) <==> now > last_used + 300 * 1_000_000_000,
{
}

/// What is fetched one after the other: from the first file on, each with no failure yet, until
/// none is left. The error names the file and the cause.
pub proof fn lemma_files_are_fetched_in_turn(
    file: Seq<char>,
    rest: Seq<Seq<char>>,
    cause: Seq<char>,
)
    ensures
        fetch_of(Seq::<Seq<char>>::empty()) is Done,
        fetch_of(seq![file] + rest) == (FetchView::Fetching {
            pending: seq![file] + rest,
            failures: 0,
        }),
        fetch_error(file, cause) == "下载 "@ + file + " 失败: "@ + cause,
{
}

/// The model lies in a directory of its own under the user's data directory, or under the current
/// one.
pub proof fn lemma_model_dir(dir: Seq<char>)
    requires
        dir.len() > 0 && dir[dir.len() - 1] != '/',
    ensures
        model_dir_under(Some(dir)) == dir + "/dms-email-client/models/nllb-200-distilled-600M"@,
        model_dir_under(None) == "./dms-email-client/models/nllb-200-distilled-600M"@,
{
    reveal_strlit("dms-email-client/models/nllb-200-distilled-600M");
    reveal_strlit("/dms-email-client/models/nllb-200-distilled-600M");
    reveal_strlit("./dms-email-client/models/nllb-200-distilled-600M");
    reveal_strlit(".");
    let part = "dms-email-client/models/nllb-200-distilled-600M"@;
    text::lemma_paths_have_one_slash_between(dir, part);
    text::lemma_paths_have_one_slash_between("."@, part);
    assert(dir + seq!['/'] + part =~= dir + "/dms-email-client/models/nllb-200-distilled-600M"@);
    assert("."@ + seq!['/'] + part =~= "./dms-email-client/models/nllb-200-distilled-600M"@);
}

/// The model is there exactly if every file of it is, and is not empty.
pub proof fn lemma_model_is_ready(sizes: Seq<Option<u64>>)
    ensures
        ready(sizes) <==> forall|i: int|
            0 <= i < sizes.len() ==> (#[trigger] sizes[i]) is Some && sizes[i] != Some(0u64),
{
    if ready(sizes) {
        assert forall|i: int| 0 <= i < sizes.len() implies (#[trigger] sizes[i]) is Some && sizes[i]
            != Some(0u64) by {
            assert(complete(sizes[i]));
        }
    }
}

} // verus!
