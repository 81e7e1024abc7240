use vstd::prelude::*;
use crate::counting::{count_chinese_words, counted_words, is_tally_of, total, WordCounts};
use crate::segment::jieba_words;
use vstd::string::StringExecFns;

verus! {

/// What the "generate word cloud" command should do in a given state.
pub enum GeneratePlan {
    /// No file has been opened: ask the user to choose one first.
    NeedFile,
    /// The opened file yielded no words: there is nothing to show.
    NothingToShow,
    /// Write the page to `output_path`.
    Write { output_path: String },
}

/// The path of the page written for the text file at `path`.
pub open spec fn page_path(path: Seq<char>) -> Seq<char> {
    path + seq!['.', 'h', 't', 'm', 'l']
}

/// The plan that the state `(path, counts)` calls for.
pub open spec fn plan_for(path: Seq<char>, counts: Seq<(Seq<char>, int)>, plan: GeneratePlan) -> bool {
    if path.len() == 0 {
        plan is NeedFile
    } else if counts.len() == 0 {
        plan is NothingToShow
    } else {
        plan matches GeneratePlan::Write { output_path } && output_path@ == page_path(path)
    }
}

/// The path of the page written for the text file at `path`: `path`
/// followed by `.html`.
pub fn output_path_for(path: &str) -> (res: String)
    ensures
        res@ == page_path(path@),
{
    let mut out = String::from_str(path);
    out.append(".html");
    proof {
        reveal_strlit(".html");
        assert(out@ =~= page_path(path@));
    }
    out
}

/// The analyser's state: the file last opened and the words counted in it.
pub struct AppState {
    current_path: String,
    word_count: WordCounts,
    last_text: Ghost<Seq<char>>,
}

impl AppState {
    /// Path of the file last opened (empty when none is).
    pub closed spec fn path(&self) -> Seq<char> {
        self.current_path@
    }

    /// Text of the file last opened.
    pub closed spec fn text(&self) -> Seq<char> {
        self.last_text@
    }

    /// Word counts of the file last opened.
    pub closed spec fn counts(&self) -> Seq<(Seq<char>, int)> {
        self.word_count@
    }

    /// No file open means no counts.
    #[verifier::type_invariant]
    spec fn inv(self) -> bool {
        &&& self.current_path@.len() == 0 ==> self.word_count@.len() == 0
        &&& self.current_path@.len() > 0 ==> is_tally_of(
            self.word_count@,
            counted_words(jieba_words(self.last_text@)),
        )
    }

    /// The state before any file is opened.
    pub fn new() -> (res: AppState)
        ensures
            res.path() == Seq::<char>::empty(),
            res.counts() == Seq::<(Seq<char>, int)>::empty(),
    {
        AppState {
            current_path: String::new(),
            word_count: WordCounts::new(),
            last_text: Ghost(Seq::empty()),
        }
    }

    /// Records that the file at `path` was opened and read as `text`: counts
    /// the words of `text` (see `count_chinese_words`) and keeps them.
    /// Returns the number of distinct words. The path comes from a chosen
    /// file, so it is never empty.
    pub fn open_text(&mut self, path: String, text: &str) -> (res: usize)
        requires
            path@.len() > 0,
        ensures
            final(self).path() == path@,
            final(self).text() == text@,
            is_tally_of(final(self).counts(), counted_words(jieba_words(text@))),
            total(final(self).counts()) == counted_words(jieba_words(text@)).len(),
            res == final(self).counts().len(),
    {
        let counts = count_chinese_words(text);
        let n = counts.len();
        *self = AppState { current_path: path, word_count: counts, last_text: Ghost(text@) };
        n
    }

    /// Forgets the opened file and its counts.
    pub fn clear(&mut self)
        ensures
            final(self).path() == Seq::<char>::empty(),
            final(self).counts() == Seq::<(Seq<char>, int)>::empty(),
    {
        *self = AppState::new();
    }

    /// Path of the file last opened.
    pub fn current_path(&self) -> (res: &str)
        ensures
            res@ == self.path(),
    {
        self.current_path.as_str()
    }

    /// Word counts of the file last opened.
    pub fn word_count(&self) -> (res: &WordCounts)
        ensures
            res@ == self.counts(),
            self.path().len() == 0 ==> res@.len() == 0,
            self.path().len() > 0 ==> is_tally_of(res@, counted_words(jieba_words(self.text()))),
    {
        proof {
            use_type_invariant(self);
        }
        &self.word_count
    }

    /// What "generate word cloud" should do now: ask for a file when none is
    /// open, report that there is nothing to show when no word was counted,
    /// and otherwise write the page next to the file, at its path followed
    /// by `.html`.
    pub fn plan_generate(&self) -> (res: GeneratePlan)
        ensures
            plan_for(self.path(), self.counts(), res),
            self.path().len() == 0 ==> self.counts().len() == 0,
            self.path().len() > 0 ==> is_tally_of(self.counts(), counted_words(jieba_words(self.text()))),
    {
        proof {
            use_type_invariant(self);
        }
        if self.current_path.as_str().is_empty() {
            GeneratePlan::NeedFile
        } else if self.word_count.is_empty() {
            GeneratePlan::NothingToShow
        } else {
            GeneratePlan::Write { output_path: output_path_for(self.current_path.as_str()) }
        }
    }
}

/// What "generate" does follows from the state alone: it asks for a file
/// exactly when none is open; it reports that there is nothing to show
/// exactly when a file is open but yielded no word, whatever its path; and
/// otherwise it writes the page at the file's path followed by `.html`.
pub proof fn law_plan_follows_state(path: Seq<char>, counts: Seq<(Seq<char>, int)>, plan: GeneratePlan)
    requires
        plan_for(path, counts, plan),
    ensures
        plan is NeedFile <==> path.len() == 0,
        plan is NothingToShow <==> (path.len() > 0 && counts.len() == 0),
        plan is Write <==> (path.len() > 0 && counts.len() > 0),
        plan matches GeneratePlan::Write { output_path } ==> output_path@ == path + seq!['.', 'h', 't', 'm', 'l'],
{
}

/// Once the state is cleared (no file), generating asks for a file,
/// whatever counts remain.
pub proof fn law_no_file_means_ask_for_file(counts: Seq<(Seq<char>, int)>, plan: GeneratePlan)
    requires
        plan_for(Seq::<char>::empty(), counts, plan),
    ensures
        plan is NeedFile,
{
}

/// With a file opened that yielded at least one word, generating writes the
/// page next to the file, at the file's path followed by `.html`.
pub proof fn law_loaded_words_are_written_next_to_file(
    path: Seq<char>,
    counts: Seq<(Seq<char>, int)>,
    plan: GeneratePlan,
)
    requires
        path.len() > 0,
        counts.len() > 0,
        plan_for(path, counts, plan),
    ensures
        plan matches GeneratePlan::Write { output_path } && output_path@ == path + seq!['.', 'h', 't', 'm', 'l'],
{
}

} // verus!
