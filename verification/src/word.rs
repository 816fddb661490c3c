//! Words of fixed length over the lowercase alphabet, with a bitmask that
//! records which letters occur in them.
use vstd::prelude::*;
use vstd::string::StringSliceAdditionalSpecFns;
use vstd::utf8::encode_utf8;

verus! {

/// Number of letters in every word.
pub const WORD_SIZE: usize = 5;

/// The first letter of the alphabet, `a`.
pub const FIRST_LETTER: u8 = 97;

/// The last letter of the alphabet, `z`.
pub const LAST_LETTER: u8 = 122;

/// Whether a byte is a letter of the alphabet, `a` to `z`.
pub open spec fn is_letter(c: u8) -> bool {
    FIRST_LETTER <= c <= LAST_LETTER
}

/// Whether every byte of a sequence is a letter of the alphabet.
pub open spec fn all_letters(letters: Seq<u8>) -> bool {
    forall|i: int| 0 <= i < letters.len() ==> is_letter(#[trigger] letters[i])
}

/// The mask with the single bit of one letter: `a` has bit 25, `z` has bit 0.
pub open spec fn letter_bit(c: u8) -> u32
    recommends
        is_letter(c),
{
    1u32 << ((LAST_LETTER - c) as u32)
}

/// The presence mask of a sequence of letters: the union of the bits of its
/// letters. How often a letter occurs is not recorded.
pub open spec fn letter_mask(letters: Seq<u8>) -> u32
    decreases letters.len(),
{
    if letters.len() == 0 {
        0
    } else {
        letter_mask(letters.drop_last()) | letter_bit(letters.last())
    }
}

/// Whether a presence mask has the bit of the letter `c`.
pub open spec fn mask_has(mask: u32, c: u8) -> bool {
    mask & letter_bit(c) != 0
}

proof fn lemma_bit_union(a: u32, b: u32, m: u32)
    by (bit_vector)
    ensures
        ((a | b) & m != 0) <==> (a & m != 0 || b & m != 0),
{
}

proof fn lemma_bit_distinct(j: u32, k: u32)
    by (bit_vector)
    requires
        j < 32,
        k < 32,
    ensures
        ((1u32 << j) & (1u32 << k) != 0) <==> j == k,
{
}

proof fn lemma_bit_empty(m: u32)
    by (bit_vector)
    ensures
        0u32 & m == 0,
{
}

proof fn lemma_bit_shared(a: u32, b: u32, k: u32)
    by (bit_vector)
    requires
        k < 32,
    ensures
        ((a & b) & (1u32 << k) != 0) <==> (a & (1u32 << k) != 0 && b & (1u32 << k) != 0),
{
}

/// A presence mask has the bit of a letter exactly when the letter occurs in
/// the sequence it was made from.
pub proof fn lemma_mask_has(letters: Seq<u8>, c: u8)
    requires
        all_letters(letters),
        is_letter(c),
    ensures
        mask_has(letter_mask(letters), c) <==> letters.contains(c),
    decreases letters.len(),
{
    if letters.len() == 0 {
        lemma_bit_empty(letter_bit(c));
    } else {
        let front = letters.drop_last();
        let last = letters.last();
        lemma_mask_has(front, c);
        lemma_bit_union(letter_mask(front), letter_bit(last), letter_bit(c));
        lemma_bit_distinct((LAST_LETTER - last) as u32, (LAST_LETTER - c) as u32);
        if letters.contains(c) {
            let i = choose|i: int| 0 <= i < letters.len() && letters[i] == c;
            if i < letters.len() - 1 {
                assert(front[i] == c);
            }
        }
        if front.contains(c) {
            let i = choose|i: int| 0 <= i < front.len() && front[i] == c;
            assert(letters[i] == c);
        }
        if last == c {
            assert(letters[letters.len() - 1] == c);
        }
    }
}

/// The letter that two masks share is in both of them.
pub proof fn lemma_mask_shared(a: u32, b: u32, c: u8)
    requires
        is_letter(c),
    ensures
        mask_has(a & b, c) <==> mask_has(a, c) && mask_has(b, c),
{
    lemma_bit_shared(a, b, (LAST_LETTER - c) as u32);
}

/// Computes the presence mask of a text made of letters of the alphabet.
pub fn get_wordmask(word: &str) -> (wordmask: u32)
    requires
        all_letters(word.spec_bytes()),
    ensures
        wordmask == letter_mask(word.spec_bytes()),
{
    let letters = word.as_bytes();
    let mut wordmask: u32 = 0;
    let mut i: usize = 0;
    while i < letters.len()
        invariant
            i <= letters.len(),
            all_letters(letters@),
            wordmask == letter_mask(letters@.take(i as int)),
        decreases letters.len() - i,
    {
        let letter_offset: u32 = (letters[i] - FIRST_LETTER) as u32;
        wordmask |= 1u32 << (25 - letter_offset);
        proof {
            let upto = letters@.take(i + 1);
            assert(upto.drop_last() =~= letters@.take(i as int));
            assert(upto.last() == letters@[i as int]);
        }
        i += 1;
    }
    proof {
        assert(letters@.take(i as int) =~= letters@);
    }
    wordmask
}

/// Why a text was refused as a word.
#[derive(Clone, Copy, Debug, PartialEq, Eq, Structural)]
pub enum WordError {
    /// The text is not `WORD_SIZE` bytes long.
    InputLengthMismatch,
    /// The text has the right length but holds a byte outside `a` to `z`.
    UnsupportedLetter,
}

/// Whether a byte sequence is the text of a word: `WORD_SIZE` letters.
pub open spec fn is_word_text(bytes: Seq<u8>) -> bool {
    bytes.len() == WORD_SIZE && all_letters(bytes)
}

/// A word of the game: its text, its letters by position, and the presence
/// mask of its letters. A word never changes once it is made.
pub struct Word {
    string: String,
    bytes: [u8; WORD_SIZE],
    mask: u32,
}

impl View for Word {
    type V = Seq<u8>;

    /// The letters of the word, by position.
    closed spec fn view(&self) -> Seq<u8> {
        self.bytes@
    }
}

impl Word {
    /// The text of the word, as characters.
    pub closed spec fn text(&self) -> Seq<char> {
        self.string@
    }

    /// The presence mask stored with the word.
    pub closed spec fn mask(&self) -> u32 {
        self.mask
    }

    #[verifier::type_invariant]
    pub closed spec fn well_formed(&self) -> bool {
        &&& all_letters(self.bytes@)
        &&& self.mask == letter_mask(self.bytes@)
        &&& encode_utf8(self.string@) == self.bytes@
    }

    /// What holds of every well-formed word: it has `WORD_SIZE` letters of the
    /// alphabet, they are the bytes of its text, and its mask is theirs.
    pub proof fn lemma_well_formed(&self)
        requires
            self.well_formed(),
        ensures
            is_word_text(self@),
            self.mask() == letter_mask(self@),
            encode_utf8(self.text()) == self@,
    {
    }

    /// Makes a word from its text. The text must be `WORD_SIZE` bytes long and
    /// made of the letters `a` to `z`.
    pub fn from_str(str_val: &str) -> (made: Result<Word, WordError>)
        ensures
            match made {
                Ok(word) => {
                    &&& is_word_text(str_val.spec_bytes())
                    &&& word@ == str_val.spec_bytes()
                    &&& word.text() == str_val@
                    &&& word.well_formed()
                },
                Err(WordError::InputLengthMismatch) => str_val.spec_bytes().len() != WORD_SIZE,
                Err(WordError::UnsupportedLetter) => {
                    &&& str_val.spec_bytes().len() == WORD_SIZE
                    &&& !all_letters(str_val.spec_bytes())
                },
            },
    {
        let letters = str_val.as_bytes();
        if letters.len() != WORD_SIZE {
            return Err(WordError::InputLengthMismatch);
        }
        let mut bytes: [u8; WORD_SIZE] = [0; WORD_SIZE];
        let mut i: usize = 0;
        while i < WORD_SIZE
            invariant
                i <= WORD_SIZE,
                letters@.len() == WORD_SIZE,
                letters@ == str_val.spec_bytes(),
                forall|j: int| 0 <= j < i ==> is_letter(#[trigger] letters@[j]),
                forall|j: int| 0 <= j < i ==> bytes@[j] == letters@[j],
            decreases WORD_SIZE - i,
        {
            let c: u8 = letters[i];
            if c < FIRST_LETTER || c > LAST_LETTER {
                assert(!is_letter(letters@[i as int]));
                return Err(WordError::UnsupportedLetter);
            }
            bytes[i] = c;
            i += 1;
        }
        assert(bytes@ =~= letters@);
        let mask = get_wordmask(str_val);
        Ok(Word { string: str_val.to_string(), bytes, mask })
    }

    /// The text of the word.
    pub fn as_str(&self) -> (text: &str)
        ensures
            text@ == self.text(),
    {
        self.string.as_str()
    }

    /// The letter at one position.
    pub fn letter(&self, i: usize) -> (c: u8)
        requires
            i < WORD_SIZE,
        ensures
            c == self@[i as int],
            is_letter(c),
    {
        proof {
            use_type_invariant(self);
        }
        self.bytes[i]
    }

    /// The presence mask of the word's letters.
    pub fn letters_present(&self) -> (mask: u32)
        ensures
            mask == letter_mask(self@),
    {
        proof {
            use_type_invariant(self);
        }
        self.mask
    }
}

impl Clone for Word {
    fn clone(&self) -> (copy: Self)
        ensures
            copy == *self,
    {
        proof {
            use_type_invariant(self);
        }
        Word { string: self.string.clone(), bytes: self.bytes, mask: self.mask }
    }
}

} // verus!
