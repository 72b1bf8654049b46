//! Memory items, their card content and their review history.
use vstd::prelude::*;

use crate::clock::{clock_instant, now_millis};

verus! {

/// Consecutive failed reviews at which an item counts as a leech.
pub const LEECH_THRESHOLD: u32 = 8;

/// A single completed review of a `MemoryItem`, kept for history and analytics.
#[derive(Clone, Copy, Debug)]
pub struct ReviewLogEntry {
    /// When the review happened, in milliseconds since the Unix epoch.
    pub reviewed_at: i64,
    /// The quality score given, 0-5.
    pub score: u8,
    pub interval_before_days: u32,
    pub interval_after_days: u32,
    /// The SM-2 ease factor after the review, in hundredths (250 is 2.5).
    pub ease_after: u32,
    /// The FSRS difficulty after the review (IEEE-754 binary64 bits), if FSRS scheduled it.
    pub difficulty_after: Option<u64>,
    /// The FSRS stability after the review (IEEE-754 binary64 bits), if FSRS scheduled it.
    pub stability_after: Option<u64>,
}

/// What a card shows and asks for.
#[derive(Clone, Debug)]
pub enum CardContent {
    /// A plain prompt/answer card.
    Basic { answer: String },
    /// A cloze deletion, with Anki-style `{{c1::answer::hint}}` markup.
    Cloze { text: String },
    /// A code snippet in the given language.
    Code { language: String, code: String },
    /// An image stored in the vault, by its path relative to the app data directory.
    Image { path: String },
}

/// The mathematical model of `CardContent`: its texts as character sequences.
pub enum CardContentView {
    Basic { answer: Seq<char> },
    Cloze { text: Seq<char> },
    Code { language: Seq<char>, code: Seq<char> },
    Image { path: Seq<char> },
}

impl View for CardContent {
    type V = CardContentView;

    open spec fn view(&self) -> CardContentView {
        match self {
            CardContent::Basic { answer } => CardContentView::Basic { answer: answer@ },
            CardContent::Cloze { text } => CardContentView::Cloze { text: text@ },
            CardContent::Code { language, code } => CardContentView::Code {
                language: language@,
                code: code@,
            },
            CardContent::Image { path } => CardContentView::Image { path: path@ },
        }
    }
}

impl CardContent {
    /// A basic card with the given answer.
    pub fn basic(answer: &str) -> (c: CardContent)
        ensures
            c@ == (CardContentView::Basic { answer: answer@ }),
    {
        CardContent::Basic { answer: answer.to_owned() }
    }

    /// A cloze-deletion card over the given text.
    pub fn cloze(text: &str) -> (c: CardContent)
        ensures
            c@ == (CardContentView::Cloze { text: text@ }),
    {
        CardContent::Cloze { text: text.to_owned() }
    }

    /// A code card.
    pub fn code(language: &str, code: &str) -> (c: CardContent)
        ensures
            c@ == (CardContentView::Code { language: language@, code: code@ }),
    {
        CardContent::Code { language: language.to_owned(), code: code.to_owned() }
    }

    /// An image card for an image stored at `path` in the vault.
    pub fn image(path: &str) -> (c: CardContent)
        ensures
            c@ == (CardContentView::Image { path: path@ }),
    {
        CardContent::Image { path: path.to_owned() }
    }

    /// A copy of this content.
    pub fn duplicate(&self) -> (c: CardContent)
        ensures
            c@ == self@,
    {
        match self {
            CardContent::Basic { answer } => CardContent::Basic { answer: answer.clone() },
            CardContent::Cloze { text } => CardContent::Cloze { text: text.clone() },
            CardContent::Code { language, code } => CardContent::Code {
                language: language.clone(),
                code: code.clone(),
            },
            CardContent::Image { path } => CardContent::Image { path: path.clone() },
        }
    }
}

/// One thing to remember, with its scheduling state and history.
#[derive(Clone, Debug)]
pub struct MemoryItem {
    pub id: String,
    /// e.g. "Rust Programming", "Deep Learning".
    pub training_track: String,
    /// What triggers the recall.
    pub prompt: String,
    /// The knowledge to recall.
    pub content: CardContent,
    /// Successful reviews in a row.
    pub repetitions: u32,
    /// SM-2 ease factor in hundredths (250 is 2.5).
    pub ease: u32,
    /// Days until the next review.
    pub interval_days: u32,
    /// When the item is due next, in milliseconds since the Unix epoch.
    pub next_review: i64,
    pub created_at: i64,
    pub review_log: Vec<ReviewLogEntry>,
    /// Failed reviews in a row.
    pub lapses: u32,
    /// Failed reviews over the item's lifetime.
    pub total_lapses: u32,
    /// Ids of linked memories in the knowledge graph.
    pub related_ids: Vec<String>,
    /// FSRS difficulty (IEEE-754 binary64 bits), once FSRS has scheduled the item.
    pub difficulty: Option<u64>,
    /// FSRS stability in days (IEEE-754 binary64 bits), once FSRS has scheduled the item.
    pub stability: Option<u64>,
}

/// The mathematical model of a `MemoryItem`.
pub struct MemoryItemView {
    pub id: Seq<char>,
    pub training_track: Seq<char>,
    pub prompt: Seq<char>,
    pub content: CardContentView,
    pub repetitions: u32,
    pub ease: u32,
    pub interval_days: u32,
    pub next_review: i64,
    pub created_at: i64,
    pub review_log: Seq<ReviewLogEntry>,
    pub lapses: u32,
    pub total_lapses: u32,
    pub related_ids: Seq<Seq<char>>,
    pub difficulty: Option<u64>,
    pub stability: Option<u64>,
}

/// The texts of a sequence of strings.
pub open spec fn texts(s: Seq<String>) -> Seq<Seq<char>> {
    s.map_values(|t: String| t@)
}

impl View for MemoryItem {
    type V = MemoryItemView;

    open spec fn view(&self) -> MemoryItemView {
        MemoryItemView {
            id: self.id@,
            training_track: self.training_track@,
            prompt: self.prompt@,
            content: self.content@,
            repetitions: self.repetitions,
            ease: self.ease,
            interval_days: self.interval_days,
            next_review: self.next_review,
            created_at: self.created_at,
            review_log: self.review_log@,
            lapses: self.lapses,
            total_lapses: self.total_lapses,
            related_ids: texts(self.related_ids@),
            difficulty: self.difficulty,
            stability: self.stability,
        }
    }
}

/// The models of a sequence of items.
pub open spec fn items_view(s: Seq<MemoryItem>) -> Seq<MemoryItemView> {
    s.map_values(|m: MemoryItem| m@)
}

/// A freshly created item: never reviewed, ease 2.5, due at once.
pub open spec fn fresh_item(
    id: Seq<char>,
    training_track: Seq<char>,
    prompt: Seq<char>,
    content: CardContentView,
    now: i64,
) -> MemoryItemView {
    MemoryItemView {
        id,
        training_track,
        prompt,
        content,
        repetitions: 0,
        ease: 250,
        interval_days: 0,
        next_review: now,
        created_at: now,
        review_log: Seq::empty(),
        lapses: 0,
        total_lapses: 0,
        related_ids: Seq::empty(),
        difficulty: None,
        stability: None,
    }
}

/// Whether an item is due for review at instant `now`.
pub open spec fn due_at(m: MemoryItemView, now: int) -> bool {
    now >= m.next_review
}

/// Whether an item has failed so often in a row that it needs attention.
pub open spec fn leech(m: MemoryItemView) -> bool {
    m.lapses >= LEECH_THRESHOLD
}

/// Law: a new item is due for review from the instant it was created on,
/// and it is not a leech.
pub proof fn lemma_new_item_is_due(
    id: Seq<char>,
    training_track: Seq<char>,
    prompt: Seq<char>,
    content: CardContentView,
    created: i64,
    t: int,
)
    requires
        t >= created,
    ensures
        due_at(fresh_item(id, training_track, prompt, content, created), t),
        !leech(fresh_item(id, training_track, prompt, content, created)),
{
}

/// A lower-case hexadecimal digit.
pub open spec fn lower_hex_digit(c: char) -> bool {
    (48 <= (c as int) <= 57) || (97 <= (c as int) <= 102)
}

/// The text of a random (version 4, RFC 4122 variant) UUID in hyphenated
/// lower-case form: 36 characters, hyphens at positions 8, 13, 18 and 23,
/// lower-case hex digits elsewhere, the version digit `4` at position 14 and
/// one of `8`, `9`, `a`, `b` at position 19.
pub open spec fn uuid_text(s: Seq<char>) -> bool {
    &&& s.len() == 36
    &&& forall|i: int|
        0 <= i < 36 ==> if i == 8 || i == 13 || i == 18 || i == 23 {
            #[trigger] s[i] == '-'
        } else {
            lower_hex_digit(s[i])
        }
    &&& s[14] == '4'
    &&& (s[19] == '8' || s[19] == '9' || s[19] == 'a' || s[19] == 'b')
}

/// A fresh random identifier for a new item.
///
/// Calls `uuid::Uuid::new_v4` and formats it with `to_string`. `new_v4` masks
/// random bits so the version nibble is 4 and the variant bits are `10`, and
/// `Display` writes the hyphenated lower-case form; the contract claims that
/// form. Which of the possible values comes back is random and not stated.
#[verifier::external_body]
pub(crate) fn fresh_id() -> (id: String)
    ensures
        uuid_text(id@),
{
    uuid::Uuid::new_v4().to_string()
}

/// Copies a review history.
pub fn copy_log(log: &Vec<ReviewLogEntry>) -> (r: Vec<ReviewLogEntry>)
    ensures
        r@ == log@,
{
    let mut r: Vec<ReviewLogEntry> = Vec::new();
    let n = log.len();
    for i in 0..n
        invariant
            n == log@.len(),
            r@ =~= log@.take(i as int),
    {
        r.push(log[i]);
        proof {
            assert(log@.take(i + 1) =~= log@.take(i as int).push(log@[i as int]));
        }
    }
    proof {
        assert(log@.take(n as int) =~= log@);
    }
    r
}

/// Copies a list of strings.
pub fn copy_strings(v: &Vec<String>) -> (r: Vec<String>)
    ensures
        r@ == v@,
{
    let mut r: Vec<String> = Vec::new();
    let n = v.len();
    for i in 0..n
        invariant
            n == v@.len(),
            r@ =~= v@.take(i as int),
    {
        r.push(v[i].clone());
        proof {
            assert(v@.take(i + 1) =~= v@.take(i as int).push(v@[i as int]));
        }
    }
    proof {
        assert(v@.take(n as int) =~= v@);
    }
    r
}

impl MemoryItem {
    /// A new item, due immediately, with a fresh random id and the current time.
    pub fn new(training_track: &str, prompt: &str, content: CardContent) -> (m: MemoryItem)
        ensures
            m@.training_track == training_track@,
            m@.prompt == prompt@,
            m@.content == content@,
            uuid_text(m@.id),
            clock_instant(m.created_at as int),
            m@ == fresh_item(m@.id, training_track@, prompt@, content@, m.created_at),
    {
        let id = fresh_id();
        let now = now_millis();
        MemoryItem::new_at(id, training_track, prompt, content, now)
    }

    /// A new item with the given id, created and due at instant `now`.
    pub fn new_at(
        id: String,
        training_track: &str,
        prompt: &str,
        content: CardContent,
        now: i64,
    ) -> (m: MemoryItem)
        ensures
            m@ == fresh_item(id@, training_track@, prompt@, content@, now),
    {
        let m = MemoryItem {
            id,
            training_track: training_track.to_owned(),
            prompt: prompt.to_owned(),
            content,
            repetitions: 0,
            ease: 250,
            interval_days: 0,
            next_review: now,
            created_at: now,
            review_log: Vec::new(),
            lapses: 0,
            total_lapses: 0,
            related_ids: Vec::new(),
            difficulty: None,
            stability: None,
        };
        proof {
            assert(texts(m.related_ids@) =~= Seq::<Seq<char>>::empty());
        }
        m
    }

    /// Whether this item is ready to be reviewed right now.
    pub fn is_due(&self) -> (due: bool)
        ensures
            exists|now: int| clock_instant(now) && due == due_at(self@, now),
    {
        let now = now_millis();
        self.is_due_at(now)
    }

    /// Whether this item is ready to be reviewed at instant `now`.
    pub fn is_due_at(&self, now: i64) -> (due: bool)
        ensures
            due == due_at(self@, now as int),
    {
        now >= self.next_review
    }

    /// Whether this item keeps being failed (a leech).
    pub fn is_leech(&self) -> (l: bool)
        ensures
            l == leech(self@),
    {
        self.lapses >= LEECH_THRESHOLD
    }

    /// A copy of this item.
    pub fn duplicate(&self) -> (m: MemoryItem)
        ensures
            m@ == self@,
    {
        MemoryItem {
            id: self.id.clone(),
            training_track: self.training_track.clone(),
            prompt: self.prompt.clone(),
            content: self.content.duplicate(),
            repetitions: self.repetitions,
            ease: self.ease,
            interval_days: self.interval_days,
            next_review: self.next_review,
            created_at: self.created_at,
            review_log: copy_log(&self.review_log),
            lapses: self.lapses,
            total_lapses: self.total_lapses,
            related_ids: copy_strings(&self.related_ids),
            difficulty: self.difficulty,
            stability: self.stability,
        }
    }
}

/// Copies a list of items.
pub fn copy_items(items: &[MemoryItem]) -> (r: Vec<MemoryItem>)
    ensures
        items_view(r@) == items_view(items@),
{
    let mut r: Vec<MemoryItem> = Vec::new();
    let n = items.len();
    for i in 0..n
        invariant
            n == items@.len(),
            items_view(r@) =~= items_view(items@.take(i as int)),
    {
        let m = items[i].duplicate();
        let ghost before = r@;
        r.push(m);
        proof {
            assert(items@.take(i + 1) =~= items@.take(i as int).push(items@[i as int]));
            assert(items_view(r@) =~= items_view(before).push(items@[i as int]@));
            assert(items_view(items@.take(i + 1)) =~= items_view(items@.take(i as int)).push(
                items@[i as int]@,
            ));
        }
    }
    proof {
        assert(items@.take(n as int) =~= items@);
    }
    r
}

} // verus!
