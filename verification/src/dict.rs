//! Per-guild pronunciation dictionary: word -> reading, with
//! insert-if-absent and remove semantics matching a conditional
//! set-field / delete-field key-value store.

use vstd::prelude::*;
use vstd::string::*;

verus! {

/// Arguments for [`insert`].
#[derive(Debug, Clone)]
pub struct InsertOption {
    pub guild_id: String,
    pub word: String,
    pub read_as: String,
}

/// Outcome of [`insert`]: the word was newly added, or it was already present.
#[derive(Debug, Clone, PartialEq, Eq, Structural)]
pub enum InsertResponse {
    Success,
    WordAlreadyExists,
}

/// Arguments for [`remove`].
#[derive(Debug, Clone)]
pub struct RemoveOption {
    pub guild_id: String,
    pub word: String,
}

/// Outcome of [`remove`]: the word was present and removed, or absent.
#[derive(Debug, Clone, PartialEq, Eq, Structural)]
pub enum RemoveResponse {
    Success,
    WordDoesNotExist,
}

/// Arguments for [`get_all`].
#[derive(Debug, Clone)]
pub struct GetAllOption {
    pub guild_id: String,
}

/// A store operation failed: the transport failed, or the store answered
/// with a response code outside its documented set, which is an
/// unrecoverable protocol invariant violation and never coerced into a
/// normal response.
#[derive(Debug, Clone, Copy, PartialEq, Eq, Structural)]
pub enum StoreError {
    TransportError,
    ProtocolInvariantViolation,
}

/// Interpret the store's response to a conditional set-field request:
/// code 1 means the field was newly set, code 0 that it already existed
/// and was left unchanged; every other code is a protocol violation.
pub fn interpret_insert_response(code: u64) -> (r: Result<InsertResponse, StoreError>)
    ensures
        code == 0 ==> r == Ok::<InsertResponse, StoreError>(InsertResponse::WordAlreadyExists),
        code == 1 ==> r == Ok::<InsertResponse, StoreError>(InsertResponse::Success),
        code != 0 && code != 1 ==> r == Err::<InsertResponse, StoreError>(
            StoreError::ProtocolInvariantViolation,
        ),
{
    if code == 0 {
        Ok(InsertResponse::WordAlreadyExists)
    } else if code == 1 {
        Ok(InsertResponse::Success)
    } else {
        Err(StoreError::ProtocolInvariantViolation)
    }
}

/// Interpret the store's response to a delete-field request: code 1 means
/// the field existed and was removed, code 0 that it did not exist; every
/// other code is a protocol violation.
pub fn interpret_remove_response(code: u64) -> (r: Result<RemoveResponse, StoreError>)
    ensures
        code == 0 ==> r == Ok::<RemoveResponse, StoreError>(RemoveResponse::WordDoesNotExist),
        code == 1 ==> r == Ok::<RemoveResponse, StoreError>(RemoveResponse::Success),
        code != 0 && code != 1 ==> r == Err::<RemoveResponse, StoreError>(
            StoreError::ProtocolInvariantViolation,
        ),
{
    if code == 0 {
        Ok(RemoveResponse::WordDoesNotExist)
    } else if code == 1 {
        Ok(RemoveResponse::Success)
    } else {
        Err(StoreError::ProtocolInvariantViolation)
    }
}

/// Key under which a guild's dictionary hash lives in the key-value store.
pub fn dict_key(guild_id: &str) -> (r: String)
    ensures
        r@ == "guild:"@ + guild_id@ + ":dict"@,
{
    let r = String::from_str("guild:").concat(guild_id).concat(":dict");
    r
}

/// The view of one stored pair: the character sequences of word and reading.
pub open spec fn pair_view(e: (String, String)) -> (Seq<char>, Seq<char>) {
    (e.0@, e.1@)
}

/// The views of a sequence of stored pairs.
pub open spec fn pairs_of(es: Seq<(String, String)>) -> Seq<(Seq<char>, Seq<char>)> {
    es.map_values(|e: (String, String)| pair_view(e))
}

/// The words of `s` are pairwise distinct.
pub open spec fn distinct_words(s: Seq<(Seq<char>, Seq<char>)>) -> bool {
    forall|i: int, j: int| 0 <= i < j < s.len() ==> (#[trigger] s[i]).0 != (#[trigger] s[j]).0
}

/// Some pair of `s` carries the word `w`.
pub open spec fn word_in(s: Seq<(Seq<char>, Seq<char>)>, w: Seq<char>) -> bool {
    exists|k: int| 0 <= k < s.len() && (#[trigger] s[k]).0 == w
}

/// The reading paired with the word `w` in `s`.
pub open spec fn read_in(s: Seq<(Seq<char>, Seq<char>)>, w: Seq<char>) -> Seq<char> {
    s[choose|k: int| 0 <= k < s.len() && (#[trigger] s[k]).0 == w].1
}

/// The word -> reading mapping that a pair sequence denotes.
pub open spec fn dict_map(s: Seq<(Seq<char>, Seq<char>)>) -> Map<Seq<char>, Seq<char>> {
    Map::new(|w: Seq<char>| word_in(s, w), |w: Seq<char>| read_in(s, w))
}

/// With distinct words, every pair of `s` is the one its word selects.
pub proof fn lemma_read_at(s: Seq<(Seq<char>, Seq<char>)>, k: int)
    requires
        distinct_words(s),
        0 <= k < s.len(),
    ensures
        word_in(s, s[k].0),
        read_in(s, s[k].0) == s[k].1,
{
    assert(word_in(s, s[k].0));
    let j = choose|j: int| 0 <= j < s.len() && (#[trigger] s[j]).0 == s[k].0;
    if j < k {
        assert(s[j].0 != s[k].0);
    } else if k < j {
        assert(s[k].0 != s[j].0);
    }
}

/// Appending a fresh word adds exactly that word to the mapping.
proof fn lemma_push_map(s: Seq<(Seq<char>, Seq<char>)>, w: Seq<char>, r: Seq<char>)
    requires
        distinct_words(s),
        !word_in(s, w),
    ensures
        distinct_words(s.push((w, r))),
        dict_map(s.push((w, r))) == dict_map(s).insert(w, r),
{
    let t = s.push((w, r));
    assert forall|i: int, j: int| 0 <= i < j < t.len() implies (#[trigger] t[i]).0 != (
    #[trigger] t[j]).0 by {
        if j < s.len() {
            assert(t[i] == s[i] && t[j] == s[j]);
        } else {
            assert(t[j] == (w, r) && t[i] == s[i]);
            if s[i].0 == w {
                assert(word_in(s, w));
            }
        }
    }
    assert forall|x: Seq<char>| #[trigger] word_in(t, x) implies word_in(s, x) || x == w by {
        let k = choose|k: int| 0 <= k < t.len() && (#[trigger] t[k]).0 == x;
        if k < s.len() {
            assert(s[k].0 == x);
        }
    }
    assert forall|x: Seq<char>| word_in(s, x) || x == w implies #[trigger] word_in(t, x) by {
        if word_in(s, x) {
            let k = choose|k: int| 0 <= k < s.len() && (#[trigger] s[k]).0 == x;
            assert(t[k].0 == x);
        } else {
            assert(t[s.len() as int].0 == x);
        }
    }
    assert forall|x: Seq<char>| #[trigger] word_in(t, x) implies read_in(t, x) == dict_map(
        s,
    ).insert(w, r)[x] by {
        if x == w {
            lemma_read_at(t, s.len() as int);
        } else {
            let k = choose|k: int| 0 <= k < s.len() && (#[trigger] s[k]).0 == x;
            assert(t[k].0 == x && t[k].1 == s[k].1);
            lemma_read_at(t, k);
            lemma_read_at(s, k);
        }
    }
    assert(dict_map(t) =~= dict_map(s).insert(w, r));
}

/// Removing the pair at `k` removes exactly its word from the mapping.
proof fn lemma_remove_map(s: Seq<(Seq<char>, Seq<char>)>, k: int)
    requires
        distinct_words(s),
        0 <= k < s.len(),
    ensures
        distinct_words(s.remove(k)),
        dict_map(s.remove(k)) == dict_map(s).remove(s[k].0),
{
    let t = s.remove(k);
    s.remove_ensures(k);
    assert forall|i: int, j: int| 0 <= i < j < t.len() implies (#[trigger] t[i]).0 != (
    #[trigger] t[j]).0 by {
        let i2: int = if i < k {
            i
        } else {
            i + 1
        };
        let j2: int = if j < k {
            j
        } else {
            j + 1
        };
        assert(t[i] == s[i2] && t[j] == s[j2]);
    }
    assert forall|x: Seq<char>| #[trigger] word_in(t, x) implies word_in(s, x) && x != s[k].0 by {
        let i = choose|i: int| 0 <= i < t.len() && (#[trigger] t[i]).0 == x;
        let i2: int = if i < k {
            i
        } else {
            i + 1
        };
        assert(t[i] == s[i2]);
        assert(s[i2].0 == x);
        if i2 < k {
            assert(s[i2].0 != s[k].0);
        } else {
            assert(s[k].0 != s[i2].0);
        }
    }
    assert forall|x: Seq<char>| word_in(s, x) && x != s[k].0 implies #[trigger] word_in(t, x) by {
        let j = choose|j: int| 0 <= j < s.len() && (#[trigger] s[j]).0 == x;
        if j < k {
            assert(t[j].0 == x);
        } else {
            assert(j != k);
            assert(t[j - 1] == s[j]);
            assert(t[j - 1].0 == x);
        }
    }
    assert forall|x: Seq<char>| #[trigger] word_in(t, x) implies read_in(t, x) == read_in(s, x) by {
        let i = choose|i: int| 0 <= i < t.len() && (#[trigger] t[i]).0 == x;
        let i2: int = if i < k {
            i
        } else {
            i + 1
        };
        assert(t[i] == s[i2]);
        lemma_read_at(t, i);
        lemma_read_at(s, i2);
    }
    assert(dict_map(t) =~= dict_map(s).remove(s[k].0));
}

/// One guild's dictionary: a list of (word, reading) pairs whose words are
/// pairwise distinct. It models the per-guild hash of the external store,
/// whose conditional set-field and delete-field operations give exactly the
/// insert-if-absent and remove semantics proved here.
pub struct Dictionary {
    entries: Vec<(String, String)>,
}

impl View for Dictionary {
    type V = Map<Seq<char>, Seq<char>>;

    closed spec fn view(&self) -> Map<Seq<char>, Seq<char>> {
        dict_map(self.pairs())
    }
}

impl Dictionary {
    /// The pair sequence underlying this dictionary.
    pub closed spec fn pairs(&self) -> Seq<(Seq<char>, Seq<char>)> {
        pairs_of(self.entries@)
    }

    /// Well-formed: no word occurs twice.
    pub closed spec fn wf(&self) -> bool {
        distinct_words(self.pairs())
    }

    /// An empty dictionary, as a guild has before its first insert.
    pub fn new() -> (d: Dictionary)
        ensures
            d.wf(),
            d@ == Map::<Seq<char>, Seq<char>>::empty(),
    {
        let d = Dictionary { entries: Vec::new() };
        proof {
            assert forall|x: Seq<char>| !word_in(d.pairs(), x) by {}
            assert(d@ =~= Map::<Seq<char>, Seq<char>>::empty());
        }
        d
    }
}

impl Dictionary {
    /// Borrow of the stored pairs, for the substitution engine.
    pub fn word_pairs(&self) -> (r: &Vec<(String, String)>)
        ensures
            pairs_of(r@) == self.pairs(),
            self.wf() ==> distinct_words(pairs_of(r@)),
            dict_map(pairs_of(r@)) == self@,
    {
        &self.entries
    }
}

/// Response of inserting the word `w` into the mapping `m`.
pub open spec fn spec_insert_result(m: Map<Seq<char>, Seq<char>>, w: Seq<char>) -> InsertResponse {
    if m.contains_key(w) {
        InsertResponse::WordAlreadyExists
    } else {
        InsertResponse::Success
    }
}

/// Mapping after inserting the word `w` with reading `r` into `m`:
/// an existing mapping for `w` is never overwritten.
pub open spec fn spec_insert_map(
    m: Map<Seq<char>, Seq<char>>,
    w: Seq<char>,
    r: Seq<char>,
) -> Map<Seq<char>, Seq<char>> {
    if m.contains_key(w) {
        m
    } else {
        m.insert(w, r)
    }
}

/// Response of removing the word `w` from the mapping `m`.
pub open spec fn spec_remove_result(m: Map<Seq<char>, Seq<char>>, w: Seq<char>) -> RemoveResponse {
    if m.contains_key(w) {
        RemoveResponse::Success
    } else {
        RemoveResponse::WordDoesNotExist
    }
}

/// Mapping after removing the word `w` from `m`.
pub open spec fn spec_remove_map(m: Map<Seq<char>, Seq<char>>, w: Seq<char>) -> Map<
    Seq<char>,
    Seq<char>,
> {
    if m.contains_key(w) {
        m.remove(w)
    } else {
        m
    }
}

/// Index of the entry carrying `word`, if any.
fn find_word(entries: &Vec<(String, String)>, word: &String) -> (r: Option<usize>)
    ensures
        match r {
            Some(k) => k < entries@.len() && entries@[k as int].0@ == word@,
            None => !word_in(pairs_of(entries@), word@),
        },
{
    let mut i: usize = 0;
    while i < entries.len()
        invariant
            i <= entries@.len(),
            forall|k: int| 0 <= k < i ==> (#[trigger] entries@[k]).0@ != word@,
        decreases entries@.len() - i,
    {
        if entries[i].0 == *word {
            return Some(i);
        }
        i += 1;
    }
    proof {
        assert forall|k: int| 0 <= k < pairs_of(entries@).len() implies (#[trigger] pairs_of(
            entries@,
        )[k]).0 != word@ by {
            assert(pairs_of(entries@)[k] == pair_view(entries@[k]));
        }
    }
    None
}

/// Add a word to the dictionary. The word is set only if it is absent;
/// an existing mapping is never overwritten.
pub fn insert(dict: &mut Dictionary, option: InsertOption) -> (r: InsertResponse)
    requires
        old(dict).wf(),
    ensures
        final (dict).wf(),
        r == spec_insert_result(old(dict)@, option.word@),
        final (dict)@ == spec_insert_map(old(dict)@, option.word@, option.read_as@),
{
    match find_word(&dict.entries, &option.word) {
        Some(k) => {
            proof {
                assert(dict.pairs()[k as int].0 == option.word@);
                assert(word_in(dict.pairs(), option.word@));
            }
            InsertResponse::WordAlreadyExists
        },
        None => {
            let ghost oldpairs = dict.pairs();
            dict.entries.push((option.word, option.read_as));
            proof {
                assert(dict.pairs() =~= oldpairs.push((option.word@, option.read_as@)));
                lemma_push_map(oldpairs, option.word@, option.read_as@);
            }
            InsertResponse::Success
        },
    }
}

/// Remove a word from the dictionary. Removing an absent word is a no-op.
pub fn remove(dict: &mut Dictionary, option: RemoveOption) -> (r: RemoveResponse)
    requires
        old(dict).wf(),
    ensures
        final (dict).wf(),
        r == spec_remove_result(old(dict)@, option.word@),
        final (dict)@ == spec_remove_map(old(dict)@, option.word@),
{
    match find_word(&dict.entries, &option.word) {
        Some(k) => {
            let ghost oldpairs = dict.pairs();
            proof {
                assert(oldpairs[k as int].0 == option.word@);
                assert(word_in(oldpairs, option.word@));
                lemma_remove_map(oldpairs, k as int);
            }
            let _ = dict.entries.remove(k);
            proof {
                assert(dict.pairs() =~= oldpairs.remove(k as int));
            }
            RemoveResponse::Success
        },
        None => RemoveResponse::WordDoesNotExist,
    }
}

/// The full contents of the dictionary, as (word, reading) pairs.
/// An empty dictionary yields an empty list, never an error.
pub fn get_all(dict: &Dictionary, option: GetAllOption) -> (r: Vec<(String, String)>)
    requires
        dict.wf(),
    ensures
        distinct_words(pairs_of(r@)),
        dict_map(pairs_of(r@)) == dict@,
        dict@ == Map::<Seq<char>, Seq<char>>::empty() ==> r@.len() == 0,
{
    let mut r: Vec<(String, String)> = Vec::new();
    let mut i: usize = 0;
    while i < dict.entries.len()
        invariant
            i <= dict.entries@.len(),
            pairs_of(r@) =~= dict.pairs().take(i as int),
        decreases dict.entries@.len() - i,
    {
        let ghost prev = pairs_of(r@);
        let w = dict.entries[i].0.clone();
        let a = dict.entries[i].1.clone();
        r.push((w, a));
        proof {
            assert(pairs_of(r@) =~= prev.push((w@, a@)));
            assert(pairs_of(r@) =~= dict.pairs().take(i + 1));
        }
        i += 1;
    }
    proof {
        assert(pairs_of(r@) =~= dict.pairs());
        assert(pairs_of(r@) == dict.pairs());
        if r@.len() > 0 {
            assert(pairs_of(r@)[0].0 == pairs_of(r@)[0].0);
            assert(word_in(pairs_of(r@), pairs_of(r@)[0].0));
            assert(dict@.contains_key(pairs_of(r@)[0].0));
        }
    }
    r
}

/// For any mapping and any word not yet present: a first insert succeeds
/// and stores its reading; a second insert of the same word, with any
/// reading, reports that the word exists and leaves the mapping unchanged.
pub proof fn lemma_insert_uniqueness(
    m: Map<Seq<char>, Seq<char>>,
    w: Seq<char>,
    r1: Seq<char>,
    r2: Seq<char>,
)
    requires
        !m.contains_key(w),
    ensures
        spec_insert_result(m, w) == InsertResponse::Success,
        spec_insert_map(m, w, r1).contains_key(w),
        spec_insert_map(m, w, r1)[w] == r1,
        spec_insert_result(spec_insert_map(m, w, r1), w) == InsertResponse::WordAlreadyExists,
        spec_insert_map(spec_insert_map(m, w, r1), w, r2) == spec_insert_map(m, w, r1),
{
}

/// Removing an existing word succeeds and leaves the word absent while
/// keeping every other mapping; removing an absent word reports so and
/// changes nothing.
pub proof fn lemma_remove_correctness(m: Map<Seq<char>, Seq<char>>, w: Seq<char>)
    ensures
        m.contains_key(w) ==> spec_remove_result(m, w) == RemoveResponse::Success,
        m.contains_key(w) ==> !spec_remove_map(m, w).contains_key(w),
        m.contains_key(w) ==> forall|x: Seq<char>|
            x != w ==> (#[trigger] spec_remove_map(m, w).contains_key(x) <==> m.contains_key(x)),
        m.contains_key(w) ==> forall|x: Seq<char>|
            x != w && m.contains_key(x) ==> #[trigger] spec_remove_map(m, w)[x] == m[x],
        !m.contains_key(w) ==> spec_remove_result(m, w) == RemoveResponse::WordDoesNotExist,
        !m.contains_key(w) ==> spec_remove_map(m, w) == m,
{
}

} // verus!
