//! The order in which configuration names are listed: names are cut into
//! runs of letters, runs of digits and single other characters, and compared
//! run by run.
use vstd::prelude::*;
use std::cmp::Ordering;
use crate::parse::{digit_value, digits_value, is_digit, lemma_digits_value_nonneg};
use crate::text::{alphabetic, is_alphabetic, push_char};

verus! {

/// The class of a character: a digit, a letter, or anything else.
#[derive(Clone, Copy, PartialEq, Eq, Structural)]
pub enum CharClass {
    Text,
    Number,
    Special,
}

pub open spec fn class_of(c: char) -> CharClass {
    if is_digit(c) {
        CharClass::Number
    } else if alphabetic(c) {
        CharClass::Text
    } else {
        CharClass::Special
    }
}

/// The pieces of a name read so far: the pieces already closed, and the
/// class and characters of the piece being read. A letter extends a run of
/// letters, a digit a run of digits; any other character is a piece alone.
pub open spec fn lex_state(s: Seq<char>) -> (Seq<(CharClass, Seq<char>)>, CharClass, Seq<char>)
    decreases s.len(),
{
    if s.len() <= 1 {
        (Seq::empty(), class_of(s[0]), s)
    } else {
        let st = lex_state(s.drop_last());
        let c = s.last();
        if st.1 == class_of(c) && st.1 != CharClass::Special {
            (st.0, st.1, st.2.push(c))
        } else {
            (st.0.push((st.1, st.2)), class_of(c), seq![c])
        }
    }
}

/// The pieces of a name, each with its class.
pub open spec fn lexemes_of(s: Seq<char>) -> Seq<(CharClass, Seq<char>)> {
    if s.len() == 0 {
        Seq::empty()
    } else {
        let st = lex_state(s);
        st.0.push((st.1, st.2))
    }
}

/// The run being read is not a run of digits whose value is above `i32::MAX`.
pub open spec fn run_fits(st: (Seq<(CharClass, Seq<char>)>, CharClass, Seq<char>)) -> bool {
    st.1 == CharClass::Number ==> digits_value(st.2) <= i32::MAX
}

/// Every run of digits of the name writes a number of at most `i32::MAX`.
pub open spec fn numbers_fit(s: Seq<char>) -> bool {
    forall|k: int| 1 <= k <= s.len() ==> #[trigger] run_fits(lex_state(s.take(k)))
}

/// A piece of a name.
enum Lexeme {
    String(String),
    Number(i32),
    Special(String),
}

/// The piece `l` is the piece `t`: its class, and its text or its value.
spec fn lexeme_is(l: Lexeme, t: (CharClass, Seq<char>)) -> bool {
    match l {
        Lexeme::String(s) => t.0 == CharClass::Text && s@ == t.1,
        Lexeme::Number(n) => t.0 == CharClass::Number && n == digits_value(t.1),
        Lexeme::Special(s) => t.0 == CharClass::Special && s@ == t.1,
    }
}

fn char_class(c: char) -> (r: CharClass)
    ensures
        r == class_of(c),
{
    if '0' <= c && c <= '9' {
        CharClass::Number
    } else if is_alphabetic(c) {
        CharClass::Text
    } else {
        CharClass::Special
    }
}

fn digit_of(c: char) -> (r: i32)
    requires
        is_digit(c),
    ensures
        r == digit_value(c),
{
    (c as u32 - '0' as u32) as i32
}

fn close_run(cls: CharClass, letters: &String, num: i32) -> (r: Lexeme)
    requires
        cls == CharClass::Number ==> num == digits_value(letters@),
    ensures
        lexeme_is(r, (cls, letters@)),
{
    match cls {
        CharClass::Text => Lexeme::String(letters.clone()),
        CharClass::Number => Lexeme::Number(num),
        CharClass::Special => Lexeme::Special(letters.clone()),
    }
}

/// The run being read holds characters of its class.
proof fn lemma_run_digits(s: Seq<char>, j: int)
    requires
        s.len() >= 1,
        lex_state(s).1 == CharClass::Number,
        0 <= j < lex_state(s).2.len(),
    ensures
        is_digit(lex_state(s).2[j]),
    decreases s.len(),
{
    if s.len() > 1 {
        let st = lex_state(s.drop_last());
        if st.1 == class_of(s.last()) && st.1 != CharClass::Special {
            if j < st.2.len() {
                lemma_run_digits(s.drop_last(), j);
            }
        }
    }
}

/// Cuts a name into its pieces.
fn parse_to_lexemes(name: &str) -> (r: Vec<Lexeme>)
    requires
        numbers_fit(name@),
    ensures
        r@.len() == lexemes_of(name@).len(),
        forall|i: int| 0 <= i < r@.len() ==> lexeme_is(r@[i], #[trigger] lexemes_of(name@)[i]),
{
    let mut lexemes: Vec<Lexeme> = Vec::new();
    let len = name.unicode_len();
    if len == 0 {
        return lexemes;
    }
    let first = name.get_char(0);
    let mut previous = char_class(first);
    let mut letters = String::new();
    push_char(&mut letters, first);
    let mut num: i32 = if previous == CharClass::Number {
        digit_of(first)
    } else {
        0
    };
    proof {
        assert(name@.take(1) =~= seq![first]);
        assert(letters@ =~= seq![first]);
        assert(digits_value(seq![first]) == digit_value(first)) by {
            assert(seq![first].drop_last() =~= Seq::<char>::empty());
            assert(digits_value(Seq::<char>::empty()) == 0);
        }
    }
    let mut i: usize = 1;
    while i < len
        invariant
            1 <= i <= len,
            len == name@.len(),
            numbers_fit(name@),
            lex_state(name@.take(i as int)).1 == previous,
            lex_state(name@.take(i as int)).2 == letters@,
            previous == CharClass::Number ==> num == digits_value(letters@),
            lexemes@.len() == lex_state(name@.take(i as int)).0.len(),
            forall|j: int| 0 <= j < lexemes@.len() ==> lexeme_is(lexemes@[j], #[trigger] lex_state(name@.take(i as int)).0[j]),
        decreases len - i,
    {
        let c = name.get_char(i);
        let current = char_class(c);
        let ghost st = lex_state(name@.take(i as int));
        proof {
            assert(name@.take(i + 1).drop_last() =~= name@.take(i as int));
            assert(name@.take(i + 1).last() == c);
        }
        if previous == current && previous != CharClass::Special {
            proof {
                assert(run_fits(lex_state(name@.take(i + 1))));
                assert(letters@.push(c).drop_last() =~= letters@);
                if current == CharClass::Number {
                    assert(digits_value(letters@.push(c)) == digits_value(letters@) * 10 + digit_value(c));
                    assert forall|j: int| 0 <= j < letters@.len() implies is_digit(letters@[j]) by {
                        lemma_run_digits(name@.take(i as int), j);
                    }
                    lemma_digits_value_nonneg(letters@);
                }
            }
            if current == CharClass::Number {
                num = num * 10 + digit_of(c);
            }
            push_char(&mut letters, c);
        } else {
            let lexeme = close_run(previous, &letters, num);
            lexemes.push(lexeme);
            letters = String::new();
            push_char(&mut letters, c);
            previous = current;
            num = if current == CharClass::Number {
                digit_of(c)
            } else {
                0
            };
            proof {
                assert(letters@ =~= seq![c]);
                assert(digits_value(seq![c]) == digit_value(c)) by {
                    assert(seq![c].drop_last() =~= Seq::<char>::empty());
                    assert(digits_value(Seq::<char>::empty()) == 0);
                }
            }
        }
        i = i + 1;
    }
    proof {
        assert(name@.take(len as int) =~= name@);
    }
    let lexeme = close_run(previous, &letters, num);
    lexemes.push(lexeme);
    lexemes
}

/// The code of a character with an ASCII capital letter made small.
pub open spec fn lower_code(c: char) -> int {
    let v = c as int;
    if 65 <= v <= 90 {
        v + 32
    } else {
        v
    }
}

pub open spec fn is_ascii_lower(c: char) -> bool {
    97 <= (c as int) <= 122
}

pub open spec fn is_ascii_upper(c: char) -> bool {
    65 <= (c as int) <= 90
}

/// The sign of `x`: -1, 0 or 1.
pub open spec fn sign(x: int) -> int {
    if x < 0 {
        -1
    } else if x > 0 {
        1
    } else {
        0
    }
}

/// The order of two runs of letters: character by character over their
/// common length, ignoring ASCII case, and at the first letters that differ
/// only in case the capital one first. Runs equal over their common length
/// are equal.
pub open spec fn text_order(a: Seq<char>, b: Seq<char>) -> int
    decreases a.len(),
{
    if a.len() == 0 || b.len() == 0 {
        0
    } else {
        let x = a[0];
        let y = b[0];
        if lower_code(x) < lower_code(y) {
            -1
        } else if lower_code(x) > lower_code(y) {
            1
        } else if is_ascii_lower(x) != is_ascii_lower(y) {
            if is_ascii_upper(x) {
                -1
            } else {
                1
            }
        } else {
            text_order(a.drop_first(), b.drop_first())
        }
    }
}

/// The lexicographic order of two sequences of characters by their codes,
/// a proper prefix first.
pub open spec fn chars_order(a: Seq<char>, b: Seq<char>) -> int
    decreases a.len(),
{
    if a.len() == 0 || b.len() == 0 {
        sign(a.len() - b.len())
    } else if (a[0] as int) != (b[0] as int) {
        sign(a[0] as int - b[0] as int)
    } else {
        chars_order(a.drop_first(), b.drop_first())
    }
}

/// The order of two pieces: numbers before letters; other characters before
/// both; two pieces of one class compared as their class is.
pub open spec fn piece_order(a: (CharClass, Seq<char>), b: (CharClass, Seq<char>)) -> int {
    match (a.0, b.0) {
        (CharClass::Text, CharClass::Text) => text_order(a.1, b.1),
        (CharClass::Number, CharClass::Number) => sign(digits_value(a.1) - digits_value(b.1)),
        (CharClass::Special, CharClass::Special) => chars_order(a.1, b.1),
        (CharClass::Text, _) => 1,
        (CharClass::Number, CharClass::Text) => -1,
        (CharClass::Number, CharClass::Special) => 1,
        (CharClass::Special, _) => -1,
    }
}

/// The order of two names cut into pieces: the first pieces that differ
/// decide; if none does over the common length, the name with fewer pieces
/// comes first.
pub open spec fn pieces_order(a: Seq<(CharClass, Seq<char>)>, b: Seq<(CharClass, Seq<char>)>) -> int
    decreases a.len(),
{
    if a.len() == 0 || b.len() == 0 {
        sign(a.len() - b.len())
    } else if piece_order(a[0], b[0]) != 0 {
        piece_order(a[0], b[0])
    } else {
        pieces_order(a.drop_first(), b.drop_first())
    }
}

/// The order of two names, -1, 0 or 1.
pub open spec fn name_order(a: Seq<char>, b: Seq<char>) -> int {
    pieces_order(lexemes_of(a), lexemes_of(b))
}

/// The number that an `Ordering` stands for.
pub open spec fn order_sign(o: Ordering) -> int {
    match o {
        Ordering::Less => -1,
        Ordering::Equal => 0,
        Ordering::Greater => 1,
    }
}

fn char_code(c: char) -> (r: u32)
    ensures
        r == c as int,
{
    c as u32
}

fn lower_of(c: char) -> (r: u32)
    ensures
        r == lower_code(c),
{
    let v = char_code(c);
    if 65 <= v && v <= 90 {
        v + 32
    } else {
        v
    }
}

fn text_order_of(a: &str, b: &str) -> (r: i8)
    ensures
        r == text_order(a@, b@),
{
    let la = a.unicode_len();
    let lb = b.unicode_len();
    let mut i: usize = 0;
    proof {
        assert(a@.skip(0) =~= a@);
        assert(b@.skip(0) =~= b@);
    }
    while i < la && i < lb
        invariant
            la == a@.len(),
            lb == b@.len(),
            i <= la,
            i <= lb,
            text_order(a@, b@) == text_order(a@.skip(i as int), b@.skip(i as int)),
        decreases la - i,
    {
        let x = a.get_char(i);
        let y = b.get_char(i);
        proof {
            assert(a@.skip(i as int)[0] == x);
            assert(b@.skip(i as int)[0] == y);
            assert(a@.skip(i as int).drop_first() =~= a@.skip(i + 1));
            assert(b@.skip(i as int).drop_first() =~= b@.skip(i + 1));
        }
        let lx = lower_of(x);
        let ly = lower_of(y);
        if lx < ly {
            return -1;
        } else if lx > ly {
            return 1;
        }
        let cx = char_code(x);
        let cy = char_code(y);
        let x_lower = 97 <= cx && cx <= 122;
        let y_lower = 97 <= cy && cy <= 122;
        if x_lower != y_lower {
            if 65 <= cx && cx <= 90 {
                return -1;
            } else {
                return 1;
            }
        }
        i = i + 1;
    }
    0
}

fn chars_order_of(a: &str, b: &str) -> (r: i8)
    ensures
        r == chars_order(a@, b@),
{
    let la = a.unicode_len();
    let lb = b.unicode_len();
    let mut i: usize = 0;
    proof {
        assert(a@.skip(0) =~= a@);
        assert(b@.skip(0) =~= b@);
    }
    while i < la && i < lb
        invariant
            la == a@.len(),
            lb == b@.len(),
            i <= la,
            i <= lb,
            chars_order(a@, b@) == chars_order(a@.skip(i as int), b@.skip(i as int)),
        decreases la - i,
    {
        let x = char_code(a.get_char(i));
        let y = char_code(b.get_char(i));
        proof {
            assert(a@.skip(i as int).drop_first() =~= a@.skip(i + 1));
            assert(b@.skip(i as int).drop_first() =~= b@.skip(i + 1));
        }
        if x < y {
            return -1;
        } else if x > y {
            return 1;
        }
        i = i + 1;
    }
    if la < lb {
        -1
    } else if la > lb {
        1
    } else {
        0
    }
}

fn piece_order_of(a: &Lexeme, b: &Lexeme) -> (r: i8)
    ensures
        forall|ta: (CharClass, Seq<char>), tb: (CharClass, Seq<char>)|
            lexeme_is(*a, ta) && lexeme_is(*b, tb) ==> r == piece_order(ta, tb),
{
    match (a, b) {
        (Lexeme::String(x), Lexeme::String(y)) => text_order_of(x.as_str(), y.as_str()),
        (Lexeme::Number(x), Lexeme::Number(y)) => {
            if *x < *y {
                -1
            } else if *x > *y {
                1
            } else {
                0
            }
        },
        (Lexeme::Special(x), Lexeme::Special(y)) => chars_order_of(x.as_str(), y.as_str()),
        (Lexeme::String(_), _) => 1,
        (Lexeme::Number(_), Lexeme::String(_)) => -1,
        (Lexeme::Number(_), Lexeme::Special(_)) => 1,
        (Lexeme::Special(_), _) => -1,
    }
}

/// The order of two names, as -1, 0 or 1.
fn names_order(name1: &str, name2: &str) -> (r: i8)
    requires
        numbers_fit(name1@),
        numbers_fit(name2@),
    ensures
        r == name_order(name1@, name2@),
{
    let a = parse_to_lexemes(name1);
    let b = parse_to_lexemes(name2);
    let ghost ta = lexemes_of(name1@);
    let ghost tb = lexemes_of(name2@);
    let mut i: usize = 0;
    proof {
        assert(ta.skip(0) =~= ta);
        assert(tb.skip(0) =~= tb);
    }
    while i < a.len() && i < b.len()
        invariant
            a@.len() == ta.len(),
            b@.len() == tb.len(),
            forall|j: int| 0 <= j < a@.len() ==> lexeme_is(a@[j], #[trigger] ta[j]),
            forall|j: int| 0 <= j < b@.len() ==> lexeme_is(b@[j], #[trigger] tb[j]),
            i <= a@.len(),
            i <= b@.len(),
            pieces_order(ta, tb) == pieces_order(ta.skip(i as int), tb.skip(i as int)),
            ta == lexemes_of(name1@),
            tb == lexemes_of(name2@),
        decreases a@.len() - i,
    {
        let c = piece_order_of(&a[i], &b[i]);
        proof {
            assert(lexeme_is(a@[i as int], ta[i as int]));
            assert(lexeme_is(b@[i as int], tb[i as int]));
            assert(ta.skip(i as int)[0] == ta[i as int]);
            assert(tb.skip(i as int)[0] == tb[i as int]);
            assert(ta.skip(i as int).drop_first() =~= ta.skip(i + 1));
            assert(tb.skip(i as int).drop_first() =~= tb.skip(i + 1));
        }
        if c != 0 {
            return c;
        }
        i = i + 1;
    }
    if a.len() < b.len() {
        -1
    } else if a.len() > b.len() {
        1
    } else {
        0
    }
}

proof fn lemma_text_order_sign(a: Seq<char>, b: Seq<char>)
    ensures
        -1 <= text_order(a, b) <= 1,
    decreases a.len(),
{
    if a.len() > 0 && b.len() > 0 {
        lemma_text_order_sign(a.drop_first(), b.drop_first());
    }
}

proof fn lemma_chars_order_sign(a: Seq<char>, b: Seq<char>)
    ensures
        -1 <= chars_order(a, b) <= 1,
    decreases a.len(),
{
    if a.len() > 0 && b.len() > 0 {
        lemma_chars_order_sign(a.drop_first(), b.drop_first());
    }
}

proof fn lemma_pieces_order_sign(a: Seq<(CharClass, Seq<char>)>, b: Seq<(CharClass, Seq<char>)>)
    ensures
        -1 <= pieces_order(a, b) <= 1,
    decreases a.len(),
{
    if a.len() > 0 && b.len() > 0 {
        lemma_text_order_sign(a[0].1, b[0].1);
        lemma_chars_order_sign(a[0].1, b[0].1);
        lemma_pieces_order_sign(a.drop_first(), b.drop_first());
    }
}

/// Compares two names: the pieces of the names in turn, numbers by value and
/// runs of letters ignoring case (capital first on a tie), then the number
/// of pieces. Every run of digits must fit an `i32`.
pub fn compare_names(name1: &str, name2: &str) -> (r: Ordering)
    requires
        numbers_fit(name1@),
        numbers_fit(name2@),
    ensures
        order_sign(r) == name_order(name1@, name2@),
{
    let c = names_order(name1, name2);
    proof {
        lemma_pieces_order_sign(lexemes_of(name1@), lexemes_of(name2@));
    }
    if c < 0 {
        Ordering::Less
    } else if c == 0 {
        Ordering::Equal
    } else {
        Ordering::Greater
    }
}

/// Inserts `name` where a binary search of `sorted_vec` for it stops, the
/// search being led by `compare_names(name, e)` for each element `e` looked
/// at, and returns that position. When that comparison does not decrease
/// along the vector, every element before the position compares at least
/// equal to `name` in it and every element after at most equal.
pub fn add_sorted(sorted_vec: &mut Vec<String>, name: String) -> (r: usize)
    requires
        numbers_fit(name@),
        forall|i: int| 0 <= i < old(sorted_vec)@.len() ==> numbers_fit(#[trigger] old(sorted_vec)@[i]@),
    ensures
        r <= old(sorted_vec)@.len(),
        final(sorted_vec)@ == old(sorted_vec)@.insert(r as int, name),
        search_sorted(name@, old(sorted_vec)@) ==> (forall|i: int| 0 <= i < r ==> name_order(
            name@,
            #[trigger] old(sorted_vec)@[i]@,
        ) <= 0) && (forall|i: int| r <= i < old(sorted_vec)@.len() ==> name_order(
            name@,
            #[trigger] old(sorted_vec)@[i]@,
        ) >= 0),
{
    let mut left: usize = 0;
    let mut right: usize = sorted_vec.len();
    let ghost v = sorted_vec@;
    while left < right
        invariant
            left <= right <= v.len(),
            sorted_vec@ == v,
            v == old(sorted_vec)@,
            numbers_fit(name@),
            forall|i: int| 0 <= i < v.len() ==> numbers_fit(#[trigger] v[i]@),
            search_sorted(name@, v) ==> forall|i: int| 0 <= i < left ==> name_order(name@, #[trigger] v[i]@) < 0,
            search_sorted(name@, v) ==> forall|i: int| right <= i < v.len() ==> name_order(name@, #[trigger] v[i]@) > 0,
        decreases right - left,
    {
        let mid = left + (right - left) / 2;
        let c = names_order(name.as_str(), sorted_vec[mid].as_str());
        if c < 0 {
            proof {
                if search_sorted(name@, v) {
                    assert forall|i: int| 0 <= i < mid + 1 implies name_order(name@, #[trigger] v[i]@) < 0 by {
                        if i < mid {
                            assert(name_order(name@, v[i]@) <= name_order(name@, v[mid as int]@));
                        }
                    }
                }
            }
            left = mid + 1;
        } else if c > 0 {
            proof {
                if search_sorted(name@, v) {
                    assert forall|i: int| mid <= i < v.len() implies name_order(name@, #[trigger] v[i]@) > 0 by {
                        if i > mid {
                            assert(name_order(name@, v[mid as int]@) <= name_order(name@, v[i]@));
                        }
                    }
                }
            }
            right = mid;
        } else {
            proof {
                if search_sorted(name@, v) {
                    assert forall|i: int| 0 <= i < mid implies name_order(name@, #[trigger] v[i]@) <= 0 by {
                        assert(name_order(name@, v[i]@) <= name_order(name@, v[mid as int]@));
                    }
                    assert forall|i: int| mid <= i < v.len() implies name_order(name@, #[trigger] v[i]@) >= 0 by {
                        assert(name_order(name@, v[mid as int]@) <= name_order(name@, v[i]@));
                    }
                }
            }
            sorted_vec.insert(mid, name);
            return mid;
        }
    }
    sorted_vec.insert(left, name);
    left
}

/// The comparison of `name` with the elements of `v` does not decrease along `v`.
pub open spec fn search_sorted(name: Seq<char>, v: Seq<String>) -> bool {
    forall|i: int, j: int| 0 <= i <= j < v.len() ==> name_order(name, #[trigger] v[i]@) <= name_order(name, #[trigger] v[j]@)
}

proof fn lemma_text_order_antisym(a: Seq<char>, b: Seq<char>)
    ensures
        text_order(a, b) == -text_order(b, a),
    decreases a.len(),
{
    if a.len() > 0 && b.len() > 0 {
        lemma_text_order_antisym(a.drop_first(), b.drop_first());
    }
}

proof fn lemma_chars_order_antisym(a: Seq<char>, b: Seq<char>)
    ensures
        chars_order(a, b) == -chars_order(b, a),
    decreases a.len(),
{
    if a.len() > 0 && b.len() > 0 {
        lemma_chars_order_antisym(a.drop_first(), b.drop_first());
    }
}

proof fn lemma_pieces_order_antisym(a: Seq<(CharClass, Seq<char>)>, b: Seq<(CharClass, Seq<char>)>)
    ensures
        pieces_order(a, b) == -pieces_order(b, a),
    decreases a.len(),
{
    if a.len() > 0 && b.len() > 0 {
        lemma_text_order_antisym(a[0].1, b[0].1);
        lemma_chars_order_antisym(a[0].1, b[0].1);
        lemma_pieces_order_antisym(a.drop_first(), b.drop_first());
    }
}

proof fn lemma_pieces_order_refl(a: Seq<(CharClass, Seq<char>)>)
    ensures
        pieces_order(a, a) == 0,
    decreases a.len(),
{
    if a.len() > 0 {
        lemma_text_order_antisym(a[0].1, a[0].1);
        lemma_chars_order_antisym(a[0].1, a[0].1);
        lemma_pieces_order_refl(a.drop_first());
    }
}

/// Swapping two names reverses their order, and a name is equal to itself.
pub proof fn lemma_name_order_antisymmetric(a: Seq<char>, b: Seq<char>)
    ensures
        name_order(a, b) == -name_order(b, a),
        name_order(a, a) == 0,
{
    lemma_pieces_order_antisym(lexemes_of(a), lexemes_of(b));
    lemma_pieces_order_refl(lexemes_of(a));
}

/// Two runs of letters are ordered at the first position where they
/// differ, by the letters made small: the run whose letter there comes first
/// ignoring ASCII case comes first, whatever the case of either letter.
pub proof fn lemma_text_order_ignores_case(a: Seq<char>, b: Seq<char>, k: int)
    requires
        0 <= k < a.len(),
        k < b.len(),
        forall|j: int| 0 <= j < k ==> a[j] == b[j],
        lower_code(a[k]) < lower_code(b[k]),
    ensures
        text_order(a, b) == -1,
        text_order(b, a) == 1,
    decreases k,
{
    if k > 0 {
        assert(a[0] == b[0]);
        let a1 = a.drop_first();
        let b1 = b.drop_first();
        assert forall|j: int| 0 <= j < k - 1 implies a1[j] == b1[j] by {
            assert(a[j + 1] == b[j + 1]);
        }
        lemma_text_order_ignores_case(a1, b1, k - 1);
    }
}

/// Where two runs of letters first differ only by the case of one letter,
/// the run with the capital letter comes first.
pub proof fn lemma_text_order_capital_first(a: Seq<char>, b: Seq<char>, k: int)
    requires
        0 <= k < a.len(),
        k < b.len(),
        forall|j: int| 0 <= j < k ==> a[j] == b[j],
        lower_code(a[k]) == lower_code(b[k]),
        is_ascii_upper(a[k]),
        is_ascii_lower(b[k]),
    ensures
        text_order(a, b) == -1,
        text_order(b, a) == 1,
    decreases k,
{
    if k > 0 {
        assert(a[0] == b[0]);
        let a1 = a.drop_first();
        let b1 = b.drop_first();
        assert forall|j: int| 0 <= j < k - 1 implies a1[j] == b1[j] by {
            assert(a[j + 1] == b[j + 1]);
        }
        lemma_text_order_capital_first(a1, b1, k - 1);
    }
}

/// Two names that start with runs of letters, ordered ignoring case as
/// `lemma_text_order_ignores_case` says, are ordered as those runs are.
pub proof fn lemma_name_order_first_letters(a: Seq<char>, b: Seq<char>, k: int)
    requires
        lexemes_of(a).len() > 0,
        lexemes_of(b).len() > 0,
        lexemes_of(a)[0].0 == CharClass::Text,
        lexemes_of(b)[0].0 == CharClass::Text,
        0 <= k < lexemes_of(a)[0].1.len(),
        k < lexemes_of(b)[0].1.len(),
        forall|j: int| 0 <= j < k ==> lexemes_of(a)[0].1[j] == lexemes_of(b)[0].1[j],
        lower_code(lexemes_of(a)[0].1[k]) < lower_code(lexemes_of(b)[0].1[k]),
    ensures
        name_order(a, b) == -1,
        name_order(b, a) == 1,
{
    lemma_text_order_ignores_case(lexemes_of(a)[0].1, lexemes_of(b)[0].1, k);
}

/// Two names that start with runs of digits of different values are ordered
/// by those values: `fan2` before `fan10` once the letters agree, `2` before
/// `10` here.
pub proof fn lemma_name_order_first_numbers(a: Seq<char>, b: Seq<char>)
    requires
        lexemes_of(a).len() > 0,
        lexemes_of(b).len() > 0,
        lexemes_of(a)[0].0 == CharClass::Number,
        lexemes_of(b)[0].0 == CharClass::Number,
        digits_value(lexemes_of(a)[0].1) < digits_value(lexemes_of(b)[0].1),
    ensures
        name_order(a, b) == -1,
        name_order(b, a) == 1,
{
}

/// Names whose first pieces are equal are ordered as the rest of their
/// pieces are.
pub proof fn lemma_name_order_same_start(a: Seq<char>, b: Seq<char>)
    requires
        lexemes_of(a).len() > 0,
        lexemes_of(b).len() > 0,
        lexemes_of(a)[0] == lexemes_of(b)[0],
    ensures
        name_order(a, b) == pieces_order(lexemes_of(a).drop_first(), lexemes_of(b).drop_first()),
{
    lemma_pieces_order_refl(seq![lexemes_of(a)[0]]);
}

} // verus!
