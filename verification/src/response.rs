//! The feedback that a guess receives against a secret, packed into one
//! integer: a field of exact matches above a field of letters that occur
//! elsewhere in the secret.
use crate::word::{
    is_word_text, lemma_mask_has, lemma_mask_shared, letter_mask, Word, FIRST_LETTER, WORD_SIZE,
};
use vstd::arithmetic::power2::{lemma2_to64, lemma_pow2_unfold, pow2};
use vstd::prelude::*;

verus! {

/// A packed feedback code: the green field in the upper `WORD_SIZE` bits, the
/// yellow field in the lower `WORD_SIZE` bits.
pub type WordleResponse = usize;

/// Number of values that one field can take: two to the power `WORD_SIZE`.
pub const FIELD_SPAN: usize = 32;

/// Number of feedback codes: `FIELD_SPAN` squared.
pub const RESPONSE_SPAN: usize = 1024;

/// The field in which every position is marked.
pub const FULL_FIELD: usize = 31;

/// The number written by a row of binary digits, the first digit being the
/// most significant.
pub open spec fn pack_bits(bits: Seq<bool>) -> nat
    decreases bits.len(),
{
    if bits.len() == 0 {
        0
    } else {
        2 * pack_bits(bits.drop_last()) + if bits.last() {
            1nat
        } else {
            0nat
        }
    }
}

/// Whether the guess and the secret have the same letter at position `i`.
pub open spec fn is_green(guess: Seq<u8>, secret: Seq<u8>, i: int) -> bool {
    guess[i] == secret[i]
}

/// Whether the guess's letter at position `i` differs from the secret's
/// letter there and occurs somewhere in the secret. How often the letter
/// occurs in either word plays no part.
pub open spec fn is_yellow(guess: Seq<u8>, secret: Seq<u8>, i: int) -> bool {
    guess[i] != secret[i] && secret.contains(guess[i])
}

/// The exact matches of a guess, position by position.
pub open spec fn green_marks(guess: Seq<u8>, secret: Seq<u8>) -> Seq<bool> {
    Seq::new(WORD_SIZE as nat, |i: int| is_green(guess, secret, i))
}

/// The letters of a guess that occur elsewhere in the secret, position by
/// position.
pub open spec fn yellow_marks(guess: Seq<u8>, secret: Seq<u8>) -> Seq<bool> {
    Seq::new(WORD_SIZE as nat, |i: int| is_yellow(guess, secret, i))
}

/// The green field: position `i` of the words is bit `WORD_SIZE - 1 - i`.
pub open spec fn green_field(guess: Seq<u8>, secret: Seq<u8>) -> nat {
    pack_bits(green_marks(guess, secret))
}

/// The yellow field: position `i` of the words is bit `WORD_SIZE - 1 - i`.
pub open spec fn yellow_field(guess: Seq<u8>, secret: Seq<u8>) -> nat {
    pack_bits(yellow_marks(guess, secret))
}

/// The feedback code of a guess against a secret: the green field shifted
/// above the yellow field.
pub open spec fn response_code(guess: Seq<u8>, secret: Seq<u8>) -> nat {
    green_field(guess, secret) * FIELD_SPAN as nat + yellow_field(guess, secret)
}

/// Whether a feedback code says that the guess is the secret: its green field
/// is full.
pub open spec fn is_win(response: nat) -> bool {
    response / FIELD_SPAN as nat == FULL_FIELD
}

/// The code under construction when the fields of the first `i` positions
/// are `g` and `y`: both stand shifted to leave room for the positions that
/// follow.
spec fn partial_code(g: usize, y: usize, i: usize) -> usize {
    (g << ((10 - i) as usize)) | (y << ((5 - i) as usize))
}

/// Marking position `i` green, yellow or not at all extends both fields by
/// one digit.
proof fn lemma_next_position(g: usize, y: usize, i: usize)
    by (bit_vector)
    requires
        i < 5,
        g < (1usize << i),
        y < (1usize << i),
    ensures
        partial_code(g, y, i) | (1usize << ((9 - i) as usize)) == partial_code(
            (2 * g + 1) as usize,
            (2 * y) as usize,
            (i + 1) as usize,
        ),
        partial_code(g, y, i) | (1usize << ((4 - i) as usize)) == partial_code(
            (2 * g) as usize,
            (2 * y + 1) as usize,
            (i + 1) as usize,
        ),
        partial_code(g, y, i) == partial_code((2 * g) as usize, (2 * y) as usize, (i + 1) as usize),
        2 * g + 1 < (1usize << ((i + 1) as usize)),
        2 * y + 1 < (1usize << ((i + 1) as usize)),
{
}

/// The construction starts at zero.
proof fn lemma_partial_code_starts()
    by (bit_vector)
    ensures
        partial_code(0, 0, 0) == 0,
        0usize < (1usize << 0usize),
{
}

/// The construction ends with the green field above the yellow field.
proof fn lemma_partial_code_ends(g: usize, y: usize)
    by (bit_vector)
    requires
        g < (1usize << 5usize),
        y < (1usize << 5usize),
    ensures
        partial_code(g, y, 5) == g * 32 + y,
        g < 32,
        y < 32,
{
}

impl Word {
    /// The feedback code that this word receives as a guess against `other`
    /// as the secret.
    pub fn compare(&self, other: &Word) -> (response: WordleResponse)
        ensures
            response == response_code(self@, other@),
            response < RESPONSE_SPAN,
    {
        proof {
            use_type_invariant(self);
            use_type_invariant(other);
            self.lemma_well_formed();
            other.lemma_well_formed();
            lemma_partial_code_starts();
        }
        let letters_shared: u32 = other.letters_present() & self.letters_present();
        let mut response: usize = 0;
        let ghost greens = green_marks(self@, other@);
        let ghost yellows = yellow_marks(self@, other@);
        let ghost mut g: usize = 0;
        let ghost mut y: usize = 0;
        let mut i: usize = 0;
        while i < WORD_SIZE
            invariant
                i <= WORD_SIZE,
                is_word_text(self@),
                is_word_text(other@),
                letters_shared == letter_mask(other@) & letter_mask(self@),
                greens == green_marks(self@, other@),
                yellows == yellow_marks(self@, other@),
                g == pack_bits(greens.take(i as int)),
                y == pack_bits(yellows.take(i as int)),
                g < (1usize << i),
                y < (1usize << i),
                response == partial_code(g, y, i),
            decreases WORD_SIZE - i,
        {
            let c: u8 = self.letter(i);
            proof {
                assert(greens.take(i + 1).drop_last() =~= greens.take(i as int));
                assert(yellows.take(i + 1).drop_last() =~= yellows.take(i as int));
                assert(greens.take(i + 1).last() == is_green(self@, other@, i as int));
                assert(yellows.take(i + 1).last() == is_yellow(self@, other@, i as int));
                lemma_next_position(g, y, i);
                lemma_mask_shared(letter_mask(other@), letter_mask(self@), c);
                lemma_mask_has(other@, c);
                lemma_mask_has(self@, c);
                assert(self@.contains(c));
            }
            if c == other.letter(i) {
                proof {
                    g = (2 * g + 1) as usize;
                    y = (2 * y) as usize;
                }
                response |= 1 << (WORD_SIZE - 1 - i + WORD_SIZE);
            } else if letters_shared & (1u32 << ((25 - (c - FIRST_LETTER)) as u32)) != 0 {
                proof {
                    g = (2 * g) as usize;
                    y = (2 * y + 1) as usize;
                }
                response |= 1 << (WORD_SIZE - 1 - i);
            } else {
                proof {
                    g = (2 * g) as usize;
                    y = (2 * y) as usize;
                }
            }
            i += 1;
        }
        proof {
            assert(greens.take(WORD_SIZE as int) =~= greens);
            assert(yellows.take(WORD_SIZE as int) =~= yellows);
            lemma_partial_code_ends(g, y);
        }
        response
    }
}

/// A packed row of digits is below two to the power of its length, reaches
/// the last number below it exactly when every digit is set, and is zero
/// exactly when none is.
pub proof fn lemma_pack_bits(bits: Seq<bool>)
    ensures
        pack_bits(bits) < pow2(bits.len()),
        pack_bits(bits) + 1 == pow2(bits.len()) <==> forall|i: int| 0 <= i < bits.len() ==> bits[i],
        pack_bits(bits) == 0 <==> forall|i: int| 0 <= i < bits.len() ==> !bits[i],
    decreases bits.len(),
{
    if bits.len() == 0 {
        lemma2_to64();
    } else {
        let front = bits.drop_last();
        lemma_pack_bits(front);
        lemma_pow2_unfold(bits.len());
        assert(forall|i: int| 0 <= i < front.len() ==> front[i] == bits[i]);
        if forall|i: int| 0 <= i < bits.len() ==> bits[i] {
            assert(forall|i: int| 0 <= i < front.len() ==> front[i]);
        }
        if forall|i: int| 0 <= i < bits.len() ==> !bits[i] {
            assert(forall|i: int| 0 <= i < front.len() ==> !front[i]);
        }
        if pack_bits(bits) + 1 == pow2(bits.len()) {
            assert(bits.last());
            assert forall|i: int| 0 <= i < bits.len() implies bits[i] by {
                if i < front.len() {
                    assert(front[i]);
                }
            }
        }
        if pack_bits(bits) == 0 {
            assert forall|i: int| 0 <= i < bits.len() implies !bits[i] by {
                if i < front.len() {
                    assert(!front[i]);
                }
            }
        }
    }
}

/// Both fields of a feedback code are below `FIELD_SPAN`, so the code is
/// below `RESPONSE_SPAN` and splits back into its fields.
pub proof fn lemma_response_fields(guess: Seq<u8>, secret: Seq<u8>)
    ensures
        green_field(guess, secret) < FIELD_SPAN,
        yellow_field(guess, secret) < FIELD_SPAN,
        response_code(guess, secret) < RESPONSE_SPAN,
        response_code(guess, secret) / FIELD_SPAN as nat == green_field(guess, secret),
        response_code(guess, secret) % FIELD_SPAN as nat == yellow_field(guess, secret),
{
    lemma_pack_bits(green_marks(guess, secret));
    lemma_pack_bits(yellow_marks(guess, secret));
    lemma2_to64();
}

/// A feedback code is a win exactly when the guess matches the secret at
/// every position.
pub proof fn lemma_win_iff_all_green(guess: Seq<u8>, secret: Seq<u8>)
    ensures
        is_win(response_code(guess, secret)) <==> forall|i: int|
            0 <= i < WORD_SIZE ==> guess[i] == secret[i],
{
    let greens = green_marks(guess, secret);
    lemma_response_fields(guess, secret);
    lemma_pack_bits(greens);
    lemma2_to64();
    if is_win(response_code(guess, secret)) {
        assert forall|i: int| 0 <= i < WORD_SIZE implies guess[i] == secret[i] by {
            assert(greens[i]);
        }
    }
    if forall|i: int| 0 <= i < WORD_SIZE ==> guess[i] == secret[i] {
        assert forall|i: int| 0 <= i < greens.len() implies greens[i] by {
            assert(guess[i] == secret[i]);
        }
    }
}

/// Every word wins against itself.
pub proof fn law_compare_reflexive(word: Word)
    ensures
        is_win(response_code(word@, word@)),
{
    lemma_win_iff_all_green(word@, word@);
}

/// A guess wins against a secret exactly when the two words have the same
/// letters.
pub proof fn law_win_iff_same_letters(guess: Word, secret: Word)
    requires
        guess.well_formed(),
        secret.well_formed(),
    ensures
        is_win(response_code(guess@, secret@)) <==> guess@ == secret@,
{
    guess.lemma_well_formed();
    secret.lemma_well_formed();
    lemma_win_iff_all_green(guess@, secret@);
    if forall|i: int| 0 <= i < WORD_SIZE ==> guess@[i] == secret@[i] {
        assert(guess@ =~= secret@);
    }
}

/// A guess none of whose letters occurs in the secret receives the code zero.
pub proof fn law_no_shared_letter(guess: Seq<u8>, secret: Seq<u8>)
    requires
        guess.len() == WORD_SIZE,
        secret.len() == WORD_SIZE,
        forall|i: int| 0 <= i < WORD_SIZE ==> !secret.contains(#[trigger] guess[i]),
    ensures
        response_code(guess, secret) == 0,
{
    let greens = green_marks(guess, secret);
    let yellows = yellow_marks(guess, secret);
    lemma_pack_bits(greens);
    lemma_pack_bits(yellows);
    assert forall|i: int| 0 <= i < greens.len() implies !greens[i] by {
        assert(!secret.contains(guess[i]));
        if guess[i] == secret[i] {
            assert(secret[i] == guess[i]);
        }
    }
    assert forall|i: int| 0 <= i < yellows.len() implies !yellows[i] by {
        assert(!secret.contains(guess[i]));
    }
}

proof fn lemma_split_fields(r: usize)
    by (bit_vector)
    ensures
        r >> 5usize == r / 32,
        r & 0b11111usize == r % 32,
{
}

/// The green field of a feedback code.
pub fn green(response: WordleResponse) -> (field: usize)
    ensures
        field == response / FIELD_SPAN,
{
    proof {
        lemma_split_fields(response);
    }
    response >> WORD_SIZE
}

/// The yellow field of a feedback code.
pub fn yellow(response: WordleResponse) -> (field: usize)
    ensures
        field == response % FIELD_SPAN,
{
    proof {
        lemma_split_fields(response);
    }
    response & 0b11111
}

/// Whether a feedback code says that the guess is the secret.
pub fn wins(response: WordleResponse) -> (won: bool)
    ensures
        won == is_win(response as nat),
{
    green(response) == FULL_FIELD
}

/// What the feedback says of one position of a guess.
#[derive(Clone, Copy, Debug, PartialEq, Eq, Structural)]
pub enum Tile {
    /// The letter stands at this position in the secret.
    Green,
    /// The letter occurs in the secret, but not at this position.
    Yellow,
    /// The letter does not occur in the secret.
    Absent,
}

/// What a guess deserves at position `i` against a secret.
pub open spec fn tile_of(guess: Seq<u8>, secret: Seq<u8>, i: int) -> Tile {
    if is_green(guess, secret, i) {
        Tile::Green
    } else if is_yellow(guess, secret, i) {
        Tile::Yellow
    } else {
        Tile::Absent
    }
}

/// Whether bit `k` of a number is set.
pub open spec fn bit_set(field: usize, k: usize) -> bool {
    (field >> k) & 1 == 1
}

/// What a feedback code shows at position `i`: green where the bit of the
/// position is set in the green field, else yellow where it is set in the
/// yellow field.
pub open spec fn tile_at(response: usize, i: int) -> Tile {
    if bit_set(response, (2 * WORD_SIZE - 1 - i) as usize) {
        Tile::Green
    } else if bit_set(response, (WORD_SIZE - 1 - i) as usize) {
        Tile::Yellow
    } else {
        Tile::Absent
    }
}

proof fn lemma_field_bit(response: usize, i: usize)
    by (bit_vector)
    requires
        i < 5,
    ensures
        (((response >> 5usize) >> i) & 1 != 0) == ((response >> ((5 + i) as usize)) & 1 == 1),
        (((response & 0b11111usize) >> i) & 1 != 0) == ((response >> i) & 1 == 1),
{
}

/// The tiles that a feedback code shows, from the first position of the
/// guess to the last.
pub fn tiles(response: WordleResponse) -> (row: Vec<Tile>)
    ensures
        row@.len() == WORD_SIZE,
        forall|i: int| 0 <= i < WORD_SIZE ==> #[trigger] row@[i] == tile_at(response, i),
{
    let yellow = yellow(response);
    let green = green(response);
    proof {
        lemma_split_fields(response);
    }
    let mut row: Vec<Tile> = Vec::new();
    let mut i: usize = WORD_SIZE;
    while i > 0
        invariant
            i <= WORD_SIZE,
            green == response >> 5usize,
            yellow == response & 0b11111usize,
            row@.len() == WORD_SIZE - i,
            forall|j: int| 0 <= j < row@.len() ==> #[trigger] row@[j] == tile_at(response, j),
        decreases i,
    {
        i -= 1;
        proof {
            lemma_field_bit(response, i);
        }
        if (green >> i) & 1 != 0 {
            row.push(Tile::Green);
        } else if (yellow >> i) & 1 != 0 {
            row.push(Tile::Yellow);
        } else {
            row.push(Tile::Absent);
        }
    }
    row
}

proof fn lemma_pack_five(bits: Seq<bool>) -> (digits: Seq<nat>)
    requires
        bits.len() == 5,
    ensures
        digits.len() == 5,
        forall|i: int| 0 <= i < 5 ==> #[trigger] digits[i] == if bits[i] { 1nat } else { 0nat },
        pack_bits(bits) == 16 * digits[0] + 8 * digits[1] + 4 * digits[2] + 2 * digits[3]
            + digits[4],
{
    let digits = Seq::new(5, |i: int| if bits[i] { 1nat } else { 0nat });
    let four = bits.drop_last();
    let three = four.drop_last();
    let two = three.drop_last();
    let one = two.drop_last();
    assert(pack_bits(one.drop_last()) == 0);
    assert(pack_bits(one) == digits[0]);
    assert(pack_bits(two) == 2 * pack_bits(one) + digits[1]);
    assert(pack_bits(three) == 2 * pack_bits(two) + digits[2]);
    assert(pack_bits(four) == 2 * pack_bits(three) + digits[3]);
    assert(pack_bits(bits) == 2 * pack_bits(four) + digits[4]);
    digits
}

proof fn lemma_code_bits(
    r: usize,
    g0: usize,
    g1: usize,
    g2: usize,
    g3: usize,
    g4: usize,
    y0: usize,
    y1: usize,
    y2: usize,
    y3: usize,
    y4: usize,
)
    by (bit_vector)
    requires
        g0 <= 1 && g1 <= 1 && g2 <= 1 && g3 <= 1 && g4 <= 1,
        y0 <= 1 && y1 <= 1 && y2 <= 1 && y3 <= 1 && y4 <= 1,
        r == (16 * g0 + 8 * g1 + 4 * g2 + 2 * g3 + g4) * 32 + (16 * y0 + 8 * y1 + 4 * y2 + 2 * y3
            + y4),
    ensures
        ((r >> 9usize) & 1 == 1) == (g0 == 1),
        ((r >> 8usize) & 1 == 1) == (g1 == 1),
        ((r >> 7usize) & 1 == 1) == (g2 == 1),
        ((r >> 6usize) & 1 == 1) == (g3 == 1),
        ((r >> 5usize) & 1 == 1) == (g4 == 1),
        ((r >> 4usize) & 1 == 1) == (y0 == 1),
        ((r >> 3usize) & 1 == 1) == (y1 == 1),
        ((r >> 2usize) & 1 == 1) == (y2 == 1),
        ((r >> 1usize) & 1 == 1) == (y3 == 1),
        ((r >> 0usize) & 1 == 1) == (y4 == 1),
{
}

/// The tiles of a feedback code show, at each position, what the guess
/// deserves there against the secret.
pub proof fn law_tiles_show_feedback(guess: Seq<u8>, secret: Seq<u8>, i: int)
    requires
        0 <= i < WORD_SIZE,
    ensures
        tile_at(response_code(guess, secret) as usize, i) == tile_of(guess, secret, i),
{
    let greens = green_marks(guess, secret);
    let yellows = yellow_marks(guess, secret);
    let g = lemma_pack_five(greens);
    let y = lemma_pack_five(yellows);
    lemma_response_fields(guess, secret);
    let r = response_code(guess, secret) as usize;
    lemma_code_bits(
        r,
        g[0] as usize,
        g[1] as usize,
        g[2] as usize,
        g[3] as usize,
        g[4] as usize,
        y[0] as usize,
        y[1] as usize,
        y[2] as usize,
        y[3] as usize,
        y[4] as usize,
    );
    assert(greens[i] == is_green(guess, secret, i));
    assert(yellows[i] == is_yellow(guess, secret, i));
}

} // verus!
