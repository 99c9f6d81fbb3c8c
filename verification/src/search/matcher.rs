use crate::utils::lowercase_of;
use closestmatch::ClosestMatch;
use vstd::prelude::*;
use vstd::string::StringSliceAdditionalSpecFns;
use vstd::utf8::is_ascii_chars;

verus! {

/// `closestmatch::ClosestMatch`, the matcher of the `closestmatch` crate. The
/// proofs see nothing inside it; `dictionary_of` names what it holds.
#[verifier::external_type_specification]
#[verifier::external_body]
pub struct ExClosestMatch(ClosestMatch);

/// The words that a matcher chooses from: the lower-case forms of the words
/// it was built with.
pub uninterp spec fn dictionary_of(matcher: ClosestMatch) -> Set<Seq<char>>;

/// The lower-case forms of `words`, as a set.
pub open spec fn lowered_set(words: Seq<Seq<char>>) -> Set<Seq<char>> {
    Set::new(|w: Seq<char>| exists|i: int| 0 <= i < words.len() && w == lowercase_of(words[i]))
}

/// Every word of `words` is made of ASCII characters only.
pub open spec fn all_ascii(words: Seq<Seq<char>>) -> bool {
    forall|i: int| 0 <= i < words.len() ==> is_ascii_chars(#[trigger] words[i])
}

/// The length of `word` in bytes, as the machine counts it.
pub open spec fn byte_length(word: Seq<char>) -> usize {
    vstd::utf8::encode_utf8(word).len() as usize
}

/// The length in bytes of the shortest of `words`, and 0 where there is none.
pub open spec fn min_length(words: Seq<Seq<char>>) -> usize
    decreases words.len(),
{
    if words.len() == 0 {
        0
    } else if words.len() == 1 {
        byte_length(words[0])
    } else {
        let rest = min_length(words.drop_last());
        let last = byte_length(words.last());
        if last < rest {
            last
        } else {
            rest
        }
    }
}

/// `closestmatch::ClosestMatch::new`. The matcher keeps the lower-case form
/// of every word of `dictionary`, together with all its substrings of the
/// lengths in `sizes`. It cuts the words at byte offsets, which is in order
/// for ASCII words and may fail for others: those are left out.
#[verifier::external_body]
fn new_matcher(dictionary: Vec<String>, sizes: Vec<usize>) -> (matcher: ClosestMatch)
    requires
        all_ascii(dictionary.deep_view()),
    ensures
        dictionary_of(matcher) == lowered_set(dictionary.deep_view()),
{
    ClosestMatch::new(dictionary, sizes)
}

/// `closestmatch::ClosestMatch::get_closest`. It scores every word of the
/// dictionary against `word` by the substrings they share and returns the
/// lower-case form of one with the best score; which one, where several
/// score alike, is not fixed. It returns nothing only where the dictionary
/// is empty. It cuts `word` at byte offsets, so `word` has to be ASCII.
#[verifier::external_body]
fn closest_word(matcher: &ClosestMatch, word: String) -> (closest: Option<String>)
    requires
        is_ascii_chars(word@),
    ensures
        closest is None <==> dictionary_of(*matcher).is_empty(),
        closest matches Some(found) ==> exists|entry: Seq<char>|
            dictionary_of(*matcher).contains(entry) && found@ == lowercase_of(entry),
{
    matcher.get_closest(word)
}

/// The length in bytes of the shortest of `words`, and 0 where there is none.
pub fn shortest_length(words: &Vec<String>) -> (shortest: usize)
    ensures
        shortest == min_length(words.deep_view()),
{
    if words.len() == 0 {
        return 0;
    }
    let mut shortest: usize = words[0].as_str().len();
    let mut i: usize = 1;
    while i < words.len()
        invariant
            1 <= i <= words.len(),
            shortest == min_length(words.deep_view().take(i as int)),
        decreases words.len() - i,
    {
        let length = words[i].as_str().len();
        proof {
            let upto = words.deep_view().take(i + 1);
            assert(upto.drop_last() =~= words.deep_view().take(i as int));
        }
        if length < shortest {
            shortest = length;
        }
        i += 1;
    }
    assert(words.deep_view().take(words.len() as int) =~= words.deep_view());
    shortest
}

/// Every length from `shortest` to `longest`, in rising order.
pub fn bag_sizes_from(shortest: usize, longest: usize) -> (sizes: Vec<usize>)
    ensures
        sizes@.len() == (if shortest <= longest {
            longest - shortest + 1
        } else {
            0
        }),
        forall|i: int| 0 <= i < sizes@.len() ==> sizes@[i] == shortest + i,
{
    let mut sizes: Vec<usize> = Vec::new();
    if shortest > longest {
        return sizes;
    }
    let mut size: usize = shortest;
    while size < longest
        invariant
            shortest <= size <= longest,
            sizes@.len() == size - shortest,
            forall|i: int| 0 <= i < sizes@.len() ==> sizes@[i] == shortest + i,
        decreases longest - size,
    {
        sizes.push(size);
        size += 1;
    }
    sizes.push(longest);
    sizes
}

/// The substring lengths that a matcher works with by default: every length
/// from 1 to `longest`.
pub fn bag_sizes(longest: usize) -> (sizes: Vec<usize>)
    ensures
        sizes@.len() == longest,
        forall|i: int| 0 <= i < longest ==> sizes@[i] == i + 1,
{
    bag_sizes_from(1, longest)
}

/// The word of `words` that is closest to `input`, in lower case, where
/// words are compared by their substrings of the lengths in `sizes`. Nothing
/// is returned only where `words` is empty.
pub fn closest_with_sizes(words: Vec<String>, sizes: Vec<usize>, input: &str) -> (closest: Option<
    String,
>)
    requires
        all_ascii(words.deep_view()),
        is_ascii_chars(input@),
    ensures
        closest is None <==> words@.len() == 0,
        closest matches Some(found) ==> exists|i: int|
            0 <= i < words@.len() && found@ == lowercase_of(
                lowercase_of(#[trigger] words.deep_view()[i]),
            ),
{
    let ghost listed = words.deep_view();
    let matcher = new_matcher(words, sizes);
    let closest = closest_word(&matcher, input.to_owned());
    proof {
        lemma_closest_is_listed(listed, dictionary_of(matcher), closest);
    }
    closest
}

/// The word of `words` that is closest to `input`, in lower case: words are
/// compared by their substrings of every length from 1 to that of the
/// shortest word. Nothing is returned only where `words` is empty.
pub fn closest_in(words: Vec<String>, input: &str) -> (closest: Option<String>)
    requires
        all_ascii(words.deep_view()),
        is_ascii_chars(input@),
    ensures
        closest is None <==> words@.len() == 0,
        closest matches Some(found) ==> exists|i: int|
            0 <= i < words@.len() && found@ == lowercase_of(
                lowercase_of(#[trigger] words.deep_view()[i]),
            ),
{
    let longest = shortest_length(&words);
    let sizes = bag_sizes(longest);
    closest_with_sizes(words, sizes, input)
}

/// What a matcher for `words` returns is the lower-case form of one of its
/// entries, which are the lower-case forms of `words`.
proof fn lemma_closest_is_listed(
    words: Seq<Seq<char>>,
    dictionary: Set<Seq<char>>,
    closest: Option<String>,
)
    requires
        dictionary == lowered_set(words),
        closest is None <==> dictionary.is_empty(),
        closest matches Some(found) ==> exists|entry: Seq<char>|
            dictionary.contains(entry) && found@ == lowercase_of(entry),
    ensures
        closest is None <==> words.len() == 0,
        closest matches Some(found) ==> exists|i: int|
            0 <= i < words.len() && found@ == lowercase_of(lowercase_of(#[trigger] words[i])),
{
    if words.len() > 0 {
        assert(lowered_set(words).contains(lowercase_of(words[0])));
    }
}

/// Finds the word of a fixed list that is closest to an input.
pub struct StringMatcher {
    words: Vec<String>,
    matcher: ClosestMatch,
}

impl StringMatcher {
    /// The matcher chooses from the lower-case forms of the words.
    #[verifier::type_invariant]
    spec fn agrees(&self) -> bool {
        dictionary_of(self.matcher) == lowered_set(self.words.deep_view())
    }

    /// The words that the matcher was built with.
    pub closed spec fn spec_words(&self) -> Seq<Seq<char>> {
        self.words.deep_view()
    }

    /// A matcher for `words`. It compares substrings of every length from 1
    /// to that of the shortest word.
    pub fn new(words: Vec<String>) -> (matcher: Self)
        requires
            all_ascii(words.deep_view()),
        ensures
            matcher.spec_words() == words.deep_view(),
    {
        let longest = shortest_length(&words);
        let sizes = bag_sizes(longest);
        let dictionary = copy_words(&words);
        StringMatcher { matcher: new_matcher(dictionary, sizes), words }
    }

    /// The words that the matcher was built with.
    pub fn words(&self) -> (words: &Vec<String>)
        ensures
            words.deep_view() == self.spec_words(),
    {
        &self.words
    }

    /// The word of the list that is closest to `input`, in lower case.
    /// Nothing is returned only where the list is empty.
    pub fn find_closest(&self, input: &str) -> (closest: Option<String>)
        requires
            is_ascii_chars(input@),
        ensures
            closest is None <==> self.spec_words().len() == 0,
            closest matches Some(found) ==> exists|i: int|
                0 <= i < self.spec_words().len() && found@ == lowercase_of(
                    lowercase_of(#[trigger] self.spec_words()[i]),
                ),
    {
        proof {
            use_type_invariant(self);
        }
        let closest = closest_word(&self.matcher, input.to_owned());
        proof {
            lemma_closest_is_listed(self.words.deep_view(), dictionary_of(self.matcher), closest);
        }
        closest
    }
}

/// A copy of `words`.
pub fn copy_words(words: &Vec<String>) -> (copy: Vec<String>)
    ensures
        copy.deep_view() == words.deep_view(),
{
    let mut copy: Vec<String> = Vec::new();
    let mut i: usize = 0;
    while i < words.len()
        invariant
            i <= words.len(),
            copy@.len() == i,
            forall|j: int| 0 <= j < i ==> copy@[j]@ == words@[j]@,
        decreases words.len() - i,
    {
        copy.push(words[i].clone());
        i += 1;
    }
    copy
}

} // verus!
