//! The keypad: which button carries which letter, and the digit sequence that
//! spells a word.
use vstd::prelude::*;
use vstd::std_specs::cmp::PartialEqSpecImpl;
use vstd::std_specs::convert::FromSpecImpl;
use vstd::string::StringExecFns;

verus! {

/// One of the ten buttons of a telephone keypad.
#[derive(Copy, Clone, PartialEq, Eq, Hash, Debug, Structural)]
pub enum Digit {
    /// Button 1; carries no letter.
    One,
    /// Button 2: a, b, c.
    Two,
    /// Button 3: d, e, f.
    Three,
    /// Button 4: g, h, i.
    Four,
    /// Button 5: j, k, l.
    Five,
    /// Button 6: m, n, o.
    Six,
    /// Button 7: p, q, r, s.
    Seven,
    /// Button 8: t, u, v.
    Eight,
    /// Button 9: w, x, y, z.
    Nine,
    /// Button 0; carries no letter, and stands for every character that no
    /// button carries.
    Zero,
}

/// Whether `c` is one of the 52 ASCII letters.
pub open spec fn is_letter(c: char) -> bool {
    ('a' <= c && c <= 'z') || ('A' <= c && c <= 'Z')
}

/// The lower-case form of an ASCII upper-case letter; every other character
/// is left as it is.
pub open spec fn lower(c: char) -> char {
    if 'A' <= c && c <= 'Z' {
        ((c as u32) + 32) as char
    } else {
        c
    }
}

/// The other case of an ASCII letter; every other character is left as it is.
pub open spec fn toggle_case(c: char) -> char {
    if 'A' <= c && c <= 'Z' {
        ((c as u32) + 32) as char
    } else if 'a' <= c && c <= 'z' {
        ((c as u32) - 32) as char
    } else {
        c
    }
}

/// The button that carries `c`: letters are grouped three or four to a button
/// from 2 to 9, without regard to case, and anything else falls to `Zero`.
pub open spec fn digit_of(c: char) -> Digit {
    let l = lower(c);
    if 'a' <= l && l <= 'c' {
        Digit::Two
    } else if 'd' <= l && l <= 'f' {
        Digit::Three
    } else if 'g' <= l && l <= 'i' {
        Digit::Four
    } else if 'j' <= l && l <= 'l' {
        Digit::Five
    } else if 'm' <= l && l <= 'o' {
        Digit::Six
    } else if 'p' <= l && l <= 's' {
        Digit::Seven
    } else if 't' <= l && l <= 'v' {
        Digit::Eight
    } else if 'w' <= l && l <= 'z' {
        Digit::Nine
    } else {
        Digit::Zero
    }
}

/// Classifies one character by the button that carries it.
pub fn digit_for(character: char) -> (digit: Digit)
    ensures
        digit == digit_of(character),
        is_letter(character) <==> digit != Digit::Zero,
{
    match character {
        'a' | 'b' | 'c' | 'A' | 'B' | 'C' => Digit::Two,
        'd' | 'e' | 'f' | 'D' | 'E' | 'F' => Digit::Three,
        'g' | 'h' | 'i' | 'G' | 'H' | 'I' => Digit::Four,
        'j' | 'k' | 'l' | 'J' | 'K' | 'L' => Digit::Five,
        'm' | 'n' | 'o' | 'M' | 'N' | 'O' => Digit::Six,
        'p' | 'q' | 'r' | 's' | 'P' | 'Q' | 'R' | 'S' => Digit::Seven,
        't' | 'u' | 'v' | 'T' | 'U' | 'V' => Digit::Eight,
        'w' | 'x' | 'y' | 'z' | 'W' | 'X' | 'Y' | 'Z' => Digit::Nine,
        _ => Digit::Zero,
    }
}

impl From<char> for Digit {
    /// Classifies a character as `digit_for` does: a letter gives the button
    /// that carries it, anything else `Zero`.
    fn from(character: char) -> (digit: Digit) {
        digit_for(character)
    }
}

impl FromSpecImpl<char> for Digit {
    open spec fn obeys_from_spec() -> bool {
        true
    }

    open spec fn from_spec(character: char) -> Digit {
        digit_of(character)
    }
}

impl Digit {
    /// The character that shows this button: its numeral, and an underscore
    /// for `Zero`, so that an unmapped character never reads as a digit.
    pub open spec fn glyph(self) -> char {
        match self {
            Digit::One => '1',
            Digit::Two => '2',
            Digit::Three => '3',
            Digit::Four => '4',
            Digit::Five => '5',
            Digit::Six => '6',
            Digit::Seven => '7',
            Digit::Eight => '8',
            Digit::Nine => '9',
            Digit::Zero => '_',
        }
    }

    /// The glyph of this button as text.
    pub fn as_str(&self) -> (text: &'static str)
        ensures
            text@ == seq![self.glyph()],
    {
        proof {
            reveal_strlit("1");
            reveal_strlit("2");
            reveal_strlit("3");
            reveal_strlit("4");
            reveal_strlit("5");
            reveal_strlit("6");
            reveal_strlit("7");
            reveal_strlit("8");
            reveal_strlit("9");
            reveal_strlit("_");
        }
        match self {
            Digit::One => "1",
            Digit::Two => "2",
            Digit::Three => "3",
            Digit::Four => "4",
            Digit::Five => "5",
            Digit::Six => "6",
            Digit::Seven => "7",
            Digit::Eight => "8",
            Digit::Nine => "9",
            Digit::Zero => "_",
        }
    }

    /// Renders this button as a one-character string.
    pub fn to_string(&self) -> (text: String)
        ensures
            text@ == seq![self.glyph()],
    {
        self.as_str().to_owned()
    }
}

/// An ordered sequence of keypad digits: the encoding of a word, or a key to
/// look words up by.
#[derive(Debug)]
pub struct Digits {
    digits: Vec<Digit>,
}

impl View for Digits {
    type V = Seq<Digit>;

    closed spec fn view(&self) -> Seq<Digit> {
        self.digits@
    }
}

impl PartialEq for Digits {
    /// Two sequences are equal when they hold the same digits in the same
    /// order.
    fn eq(&self, other: &Digits) -> (equal: bool) {
        if self.digits.len() != other.digits.len() {
            return false;
        }
        let mut at: usize = 0;
        while at < self.digits.len()
            invariant
                self.digits.len() == other.digits.len(),
                at <= self.digits.len(),
                self.digits@.take(at as int) == other.digits@.take(at as int),
            decreases self.digits.len() - at,
        {
            if self.digits[at] != other.digits[at] {
                return false;
            }
            at += 1;
        }
        assert(self.digits@ =~= self.digits@.take(at as int));
        assert(other.digits@ =~= other.digits@.take(at as int));
        true
    }
}

impl PartialEqSpecImpl for Digits {
    open spec fn obeys_eq_spec() -> bool {
        true
    }

    open spec fn eq_spec(&self, other: &Digits) -> bool {
        self@ == other@
    }
}

impl From<Vec<Digit>> for Digits {
    /// Wraps the digits as they stand.
    fn from(digits: Vec<Digit>) -> (sequence: Digits)
        ensures
            sequence@ == digits@,
    {
        Digits { digits }
    }
}

impl FromSpecImpl<Vec<Digit>> for Digits {
    open spec fn obeys_from_spec() -> bool {
        true
    }

    closed spec fn from_spec(digits: Vec<Digit>) -> Digits {
        Digits { digits }
    }
}

impl<const N: usize> From<[Digit; N]> for Digits {
    /// Takes the digits of a literal list, in order.
    fn from(digits: [Digit; N]) -> (sequence: Digits)
        ensures
            sequence@ == digits@,
    {
        let mut copied: Vec<Digit> = Vec::new();
        let mut at: usize = 0;
        while at < N
            invariant
                at <= N,
                copied@ == digits@.take(at as int),
            decreases N - at,
        {
            copied.push(digits[at]);
            at += 1;
        }
        Digits { digits: copied }
    }
}

impl<const N: usize> FromSpecImpl<[Digit; N]> for Digits {
    /// No spec-level value names the sequence built from an array: what
    /// `from` returns is fixed by its own postcondition, over the view.
    open spec fn obeys_from_spec() -> bool {
        false
    }

    closed spec fn from_spec(digits: [Digit; N]) -> Digits {
        arbitrary()
    }
}

impl Digits {
    /// The first digit, or `None` for the empty sequence.
    pub fn head(&self) -> (first: Option<&Digit>)
        ensures
            self@.len() == 0 ==> first is None,
            self@.len() > 0 ==> first == Some(&self@[0]),
    {
        if self.digits.len() > 0 {
            Some(&self.digits[0])
        } else {
            None
        }
    }

    /// The digits as a slice, for walking them in place.
    pub fn as_slice(&self) -> (digits: &[Digit])
        ensures
            digits@ == self@,
    {
        self.digits.as_slice()
    }

    /// Everything after the first digit. The empty sequence has an empty
    /// tail.
    pub fn tail(&self) -> (rest: Digits)
        ensures
            self@.len() == 0 ==> rest@ == Seq::<Digit>::empty(),
            self@.len() > 0 ==> rest@ == self@.drop_first(),
    {
        let mut rest: Vec<Digit> = Vec::new();
        let count = self.digits.len();
        if count == 0 {
            return Digits { digits: rest };
        }
        let mut at: usize = 1;
        while at < count
            invariant
                count == self.digits.len(),
                1 <= at <= count,
                rest@ == self.digits@.subrange(1, at as int),
            decreases count - at,
        {
            rest.push(self.digits[at]);
            at += 1;
        }
        Digits { digits: rest }
    }

    /// Renders the sequence as text: the glyph of each digit, left to right,
    /// with nothing in between.
    pub fn to_string(&self) -> (text: String)
        ensures
            text@ == render(self@),
    {
        let mut text = String::new();
        let mut at: usize = 0;
        while at < self.digits.len()
            invariant
                at <= self.digits.len(),
                text@ == render(self.digits@.take(at as int)),
            decreases self.digits.len() - at,
        {
            text.append(self.digits[at].as_str());
            at += 1;
        }
        text
    }
}

/// The letters of `word`, in order, with every other character left out.
pub open spec fn letters(word: Seq<char>) -> Seq<char> {
    word.filter(|c: char| is_letter(c))
}

/// The digit sequence that spells `word`: one digit for each of its letters.
pub open spec fn encode(word: Seq<char>) -> Seq<Digit> {
    letters(word).map_values(|c: char| digit_of(c))
}

/// The glyphs of `digits`, one for each digit, in order.
pub open spec fn render(digits: Seq<Digit>) -> Seq<char> {
    digits.map_values(|d: Digit| d.glyph())
}

/// A word without characters has no letters and no digits.
pub proof fn lemma_encode_empty()
    ensures
        letters(Seq::<char>::empty()) == Seq::<char>::empty(),
        encode(Seq::<char>::empty()) == Seq::<Digit>::empty(),
{
    reveal(Seq::filter);
}

/// Filtering and encoding go character by character: a further character
/// adds itself and its digit if it is a letter, and nothing otherwise.
pub proof fn lemma_encode_push(word: Seq<char>, c: char)
    ensures
        letters(word.push(c)) == if is_letter(c) {
            letters(word).push(c)
        } else {
            letters(word)
        },
        encode(word.push(c)) == if is_letter(c) {
            encode(word).push(digit_of(c))
        } else {
            encode(word)
        },
{
    word.lemma_filter_push(c, |c: char| is_letter(c));
}

/// The keypad does not tell the two cases of a letter apart.
pub proof fn lemma_digit_ignores_case(c: char)
    ensures
        digit_of(toggle_case(c)) == digit_of(c),
        is_letter(toggle_case(c)) == is_letter(c),
{
}

/// Only letters have a button from 2 to 9: `digit_of` gives `Zero` exactly
/// for the characters that are no letters, and never `One`.
pub proof fn lemma_digit_zero_iff_no_letter(c: char)
    ensures
        digit_of(c) == Digit::Zero <==> !is_letter(c),
        digit_of(c) != Digit::One,
{
}

/// What is kept by the filter are letters, and no more characters than the
/// word has.
pub proof fn lemma_letters_are_letters(word: Seq<char>)
    ensures
        letters(word).len() <= word.len(),
        encode(word).len() == letters(word).len(),
        forall|i: int| 0 <= i < letters(word).len() ==> is_letter(#[trigger] letters(word)[i]),
        forall|i: int| 0 <= i < encode(word).len() ==> #[trigger] encode(word)[i] != Digit::Zero,
{
    assert forall|i: int| 0 <= i < encode(word).len() implies #[trigger] encode(word)[i]
        != Digit::Zero by {
        lemma_digit_zero_iff_no_letter(letters(word)[i]);
    }
}

/// A word made of letters alone passes the filter unchanged, so its encoding
/// has one digit for each of its characters.
pub proof fn lemma_all_letters_keep_length(word: Seq<char>)
    requires
        forall|i: int| 0 <= i < word.len() ==> is_letter(#[trigger] word[i]),
    ensures
        letters(word) == word,
        encode(word).len() == word.len(),
        forall|i: int| 0 <= i < word.len() ==> #[trigger] encode(word)[i] == digit_of(word[i]),
    decreases word.len(),
{
    if word.len() > 0 {
        lemma_all_letters_keep_length(word.drop_last());
        lemma_encode_push(word.drop_last(), word.last());
        assert(word.drop_last().push(word.last()) =~= word);
    }
}

/// The encoding is empty exactly when the word holds no letter.
pub proof fn lemma_encode_empty_iff_no_letter(word: Seq<char>)
    ensures
        encode(word).len() == 0 <==> forall|i: int|
            0 <= i < word.len() ==> !is_letter(#[trigger] word[i]),
    decreases word.len(),
{
    if word.len() > 0 {
        let front = word.drop_last();
        lemma_encode_empty_iff_no_letter(front);
        lemma_encode_push(front, word.last());
        assert(front.push(word.last()) =~= word);
        if encode(word).len() == 0 {
            assert forall|i: int| 0 <= i < word.len() implies !is_letter(#[trigger] word[i]) by {
                assert(i < front.len() ==> front[i] == word[i]);
            }
        } else if !is_letter(word.last()) {
            let i = choose|i: int| 0 <= i < front.len() && is_letter(#[trigger] front[i]);
            assert(is_letter(word[i]));
        }
    }
}

/// Characters that are no letters leave no trace: a word and its letters
/// alone have the same encoding.
pub proof fn lemma_non_letters_are_dropped(word: Seq<char>)
    ensures
        letters(letters(word)) == letters(word),
        encode(letters(word)) == encode(word),
{
    lemma_letters_are_letters(word);
    lemma_all_letters_keep_length(letters(word));
}

/// Encodes a word as the keypad digits that spell it. Only the ASCII letters
/// of `input` count: every other character is passed over.
pub fn digits_for(input: &str) -> (digits: Digits)
    ensures
        digits@ == encode(input@),
        digits@.len() <= input@.len(),
{
    let mut found: Vec<Digit> = Vec::new();
    let chars = input.chars();
    for character in it: chars
        invariant
            it.seq() == input@,
            found@ == encode(input@.take(it.index() as int)),
    {
        proof {
            lemma_encode_push(input@.take(it.index() as int), character);
            assert(input@.take(it.index() + 1) =~= input@.take(it.index() as int).push(character));
        }
        let digit = digit_for(character);
        if digit != Digit::Zero {
            found.push(digit);
        }
    }
    assert(input@.take(input@.len() as int) =~= input@);
    Digits { digits: found }
}

} // verus!
