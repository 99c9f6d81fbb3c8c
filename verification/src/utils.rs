use crate::data_structures::custom_hashmap::CustomHashMap;
use crate::error::StorageError;
use vstd::prelude::*;

verus! {

/// What `intern` does to the list of registered strings: a registered string
/// leaves it unchanged, and a new one is appended.
pub open spec fn interned(strings: Seq<Seq<char>>, s: Seq<char>) -> Seq<Seq<char>> {
    if strings.contains(s) {
        strings
    } else {
        strings.push(s)
    }
}

/// The list of registered strings after each of `texts` was interned, first
/// to last.
#[verifier::opaque]
pub open spec fn interned_all(strings: Seq<Seq<char>>, texts: Seq<Seq<char>>) -> Seq<Seq<char>>
    decreases texts.len(),
{
    if texts.len() == 0 {
        strings
    } else {
        interned(interned_all(strings, texts.drop_last()), texts.last())
    }
}

/// The id that `intern` returns for `s`: its place in the list of registered
/// strings, or, for a new string, the place it is appended at.
pub open spec fn id_of(strings: Seq<Seq<char>>, s: Seq<char>) -> int {
    if strings.contains(s) {
        strings.index_of(s)
    } else {
        strings.len() as int
    }
}

/// The string that `resolve` returns for `id`, if `id` was ever given out.
pub open spec fn resolved(strings: Seq<Seq<char>>, id: int) -> Option<Seq<char>> {
    if 0 <= id < strings.len() {
        Some(strings[id])
    } else {
        None
    }
}

/// Stores one copy of each distinct string and names it by a dense id: the
/// number of distinct strings registered before it.
///
/// The model of an interner is the list of its strings in the order of their
/// ids. No string occurs twice in it.
pub struct StringInterner {
    strings: Vec<String>,
    lookup: CustomHashMap<String, u32>,
}

impl View for StringInterner {
    type V = Seq<Seq<char>>;

    closed spec fn view(&self) -> Seq<Seq<char>> {
        Seq::new(self.strings@.len(), |i: int| self.strings@[i]@)
    }
}

impl StringInterner {
    /// The invariant of the interner: every id fits in 32 bits, and the
    /// lookup table binds exactly the registered strings, each to its id.
    pub closed spec fn wf(&self) -> bool {
        &&& self.lookup.wf()
        &&& self.strings@.len() <= u32::MAX
        &&& self.lookup@.len() == self.strings@.len()
        &&& forall|i: int|
            0 <= i < self.strings@.len() ==> self.lookup@.contains_key(
                (#[trigger] self.strings@[i])@,
            ) && self.lookup@[self.strings@[i]@] == i
        &&& forall|s: Seq<char>| #[trigger]
            self.lookup@.contains_key(s) ==> self.lookup@[s] < self.strings@.len()
                && self.strings@[self.lookup@[s] as int]@ == s
    }

    /// In a well-formed interner no string is registered twice, and the ids
    /// fit in 32 bits.
    pub proof fn lemma_wf_model(&self)
        requires
            self.wf(),
        ensures
            self@.no_duplicates(),
            self@.len() <= u32::MAX,
    {
    }

    /// An interner without strings.
    pub fn new() -> (interner: Self)
        ensures
            interner.wf(),
            interner@ == Seq::<Seq<char>>::empty(),
    {
        StringInterner { strings: Vec::new(), lookup: CustomHashMap::new() }
    }

    /// The number of distinct strings registered.
    pub fn len(&self) -> (count: usize)
        requires
            self.wf(),
        ensures
            count == self@.len(),
    {
        self.strings.len()
    }

    /// Registers `s` and returns its id. A string that is registered already
    /// keeps its id; a new one gets the number of strings registered so far.
    pub fn intern(&mut self, s: String) -> (id: u32)
        requires
            old(self).wf(),
            old(self)@.len() < u32::MAX,
        ensures
            final(self).wf(),
            final(self)@ == interned(old(self)@, s@),
            id == id_of(old(self)@, s@),
            resolved(final(self)@, id as int) == Some(s@),
            old(self)@.len() <= final(self)@.len() <= old(self)@.len() + 1,
            forall|earlier: int|
                0 <= earlier < old(self)@.len() ==> #[trigger] final(self)@[earlier] == old(
                    self,
                )@[earlier],
    {
        proof {
            self.lookup.lemma_wf_finite();
        }
        if let Some(id) = self.lookup.get(s.clone()) {
            return id;
        }
        let id: u32 = self.strings.len() as u32;
        self.lookup.insert(s.clone(), id);
        self.strings.push(s);
        id
    }

    /// The string that `id` names. An id that `intern` never returned names
    /// nothing.
    pub fn resolve(&self, id: u32) -> (result: Result<&str, StorageError>)
        requires
            self.wf(),
        ensures
            match result {
                Ok(s) => resolved(self@, id as int) == Some(s@),
                Err(e) => e == StorageError::InvalidId && resolved(self@, id as int) is None,
            },
    {
        if (id as usize) < self.strings.len() {
            Ok(self.strings[id as usize].as_str())
        } else {
            Err(StorageError::InvalidId)
        }
    }
}

/// Interning no text changes nothing.
pub proof fn lemma_interned_all_none(strings: Seq<Seq<char>>)
    ensures
        interned_all(strings, Seq::empty()) == strings,
{
    reveal(interned_all);
}

/// Interning one more text after the first `n` of `texts`.
pub proof fn lemma_interned_all_step(strings: Seq<Seq<char>>, texts: Seq<Seq<char>>, n: int)
    requires
        0 <= n < texts.len(),
    ensures
        interned_all(strings, texts.take(n + 1)) == interned(
            interned_all(strings, texts.take(n)),
            texts[n],
        ),
{
    reveal(interned_all);
    assert(texts.take(n + 1).drop_last() =~= texts.take(n));
}

/// Interning `first` and then `rest` is interning all of them in a row.
pub proof fn lemma_interned_all_split(
    strings: Seq<Seq<char>>,
    first: Seq<Seq<char>>,
    rest: Seq<Seq<char>>,
)
    ensures
        interned_all(interned_all(strings, first), rest) == interned_all(strings, first + rest),
    decreases rest.len(),
{
    reveal(interned_all);
    if rest.len() != 0 {
        lemma_interned_all_split(strings, first, rest.drop_last());
        assert((first + rest).drop_last() =~= first + rest.drop_last());
    }
}

/// Interning the same string twice gives the same id both times, and the
/// second call registers nothing.
pub proof fn lemma_intern_is_idempotent(strings: Seq<Seq<char>>, s: Seq<char>)
    requires
        strings.no_duplicates(),
    ensures
        id_of(interned(strings, s), s) == id_of(strings, s),
        interned(interned(strings, s), s) == interned(strings, s),
{
    let once = interned(strings, s);
    if !strings.contains(s) {
        assert(once[strings.len() as int] == s);
    }
}

/// Two different strings never share an id, in whichever order they are
/// interned.
pub proof fn lemma_distinct_strings_distinct_ids(
    strings: Seq<Seq<char>>,
    a: Seq<char>,
    b: Seq<char>,
)
    requires
        strings.no_duplicates(),
        a != b,
    ensures
        id_of(strings, a) != id_of(interned(strings, a), b),
        id_of(interned(interned(strings, a), b), a) != id_of(interned(interned(strings, a), b), b),
{
    let first = interned(strings, a);
    let second = interned(first, b);
    assert(second.contains(a)) by {
        assert(second[id_of(strings, a)] == a);
    }
    assert(second.contains(b)) by {
        assert(second[id_of(first, b)] == b);
    }
}

/// Resolving the id that interning a string gave returns that string.
pub proof fn lemma_resolve_inverts_intern(strings: Seq<Seq<char>>, s: Seq<char>)
    ensures
        resolved(interned(strings, s), id_of(strings, s)) == Some(s),
{
}

/// Interning keeps the list free of repetitions and keeps what earlier ids
/// name.
pub proof fn lemma_interned_distinct(strings: Seq<Seq<char>>, s: Seq<char>)
    requires
        strings.no_duplicates(),
    ensures
        interned(strings, s).no_duplicates(),
        strings.len() <= interned(strings, s).len() <= strings.len() + 1,
        forall|i: int| 0 <= i < strings.len() ==> #[trigger] interned(strings, s)[i] == strings[i],
{
}

/// The lower-case form of `text`, as the standard library computes it from
/// the Unicode tables it was built with.
pub uninterp spec fn lowercase_of(text: Seq<char>) -> Seq<char>;

/// `str::to_lowercase`. The contract only names the result: what the
/// lower-case form of a string is, is the standard library's matter.
#[verifier::external_body]
pub(crate) fn to_lowercase(text: &str) -> (lowered: String)
    ensures
        lowered@ == lowercase_of(text@),
{
    text.to_lowercase()
}

} // verus!
