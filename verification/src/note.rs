//! Note names and pitches.
//!
//! A pitch is a number of half steps above A4. A note name is a letter
//! `A` to `G`, then an optional accidental, then an optional octave digit
//! `0` to `8`; without a digit the octave is the fourth.

use crate::error::TunerError;
use crate::matcher::{holds_value, sort_unique, strictly_ascending, Scalar};
use vstd::prelude::*;
use vstd::string::*;

verus! {

/// Half steps above A4.
pub type Pitch = isize;

/// The sharp sign of musical notation.
pub const SHARP: char = '\u{266f}';

/// The natural sign of musical notation.
pub const NATURAL: char = '\u{266e}';

/// The flat sign of musical notation.
pub const FLAT: char = '\u{266d}';

/// Half steps from A to the letter `c`, within the octave that starts at C.
pub open spec fn note_value(c: char) -> Option<int> {
    if c == 'C' {
        Some(-9)
    } else if c == 'D' {
        Some(-7)
    } else if c == 'E' {
        Some(-5)
    } else if c == 'F' {
        Some(-4)
    } else if c == 'G' {
        Some(-2)
    } else if c == 'A' {
        Some(0)
    } else if c == 'B' {
        Some(2)
    } else {
        None
    }
}

/// Octaves above the fourth that the digit `c` stands for.
pub open spec fn octave_value(c: char) -> Option<int> {
    if '0' <= c && c <= '8' {
        Some((c as u32) as int - ('4' as u32) as int)
    } else {
        None
    }
}

/// Half steps that the accidental `c` adds.
pub open spec fn alteration_value(c: char) -> Option<int> {
    if c == '#' || c == SHARP {
        Some(1)
    } else if c == NATURAL {
        Some(0)
    } else if c == 'b' || c == FLAT {
        Some(-1)
    } else {
        None
    }
}

/// The pitch that the note name `s` stands for, if it is one.
pub open spec fn pitch_of(s: Seq<char>) -> Option<int> {
    if s.len() == 1 {
        note_value(s[0])
    } else if s.len() == 2 {
        match (note_value(s[0]), alteration_value(s[1]), octave_value(s[1])) {
            (Some(n), Some(a), _) => Some(n + a),
            (Some(n), None, Some(o)) => Some(n + 12 * o),
            _ => None,
        }
    } else if s.len() == 3 {
        match (note_value(s[0]), alteration_value(s[1]), octave_value(s[2])) {
            (Some(n), Some(a), Some(o)) => Some(n + 12 * o + a),
            _ => None,
        }
    } else {
        None
    }
}

/// Whether `r` is the exec form of the spec value `v`.
pub open spec fn same_value(r: Option<isize>, v: Option<int>) -> bool {
    match r {
        Some(x) => v == Some(x as int),
        None => v is None,
    }
}

/// The half steps from A to a letter from `A` to `G`.
pub fn parse_note(c: char) -> (r: Option<isize>)
    ensures
        same_value(r, note_value(c)),
{
    match c {
        'C' => Some(-9),
        'D' => Some(-7),
        'E' => Some(-5),
        'F' => Some(-4),
        'G' => Some(-2),
        'A' => Some(0),
        'B' => Some(2),
        _ => None,
    }
}

/// The octaves above the fourth that a digit from `0` to `8` stands for.
pub fn parse_octave(c: char) -> (r: Option<isize>)
    ensures
        same_value(r, octave_value(c)),
{
    match c {
        '0' => Some(-4),
        '1' => Some(-3),
        '2' => Some(-2),
        '3' => Some(-1),
        '4' => Some(0),
        '5' => Some(1),
        '6' => Some(2),
        '7' => Some(3),
        '8' => Some(4),
        _ => None,
    }
}

/// The half steps that a sharp, natural or flat sign adds.
pub fn parse_alteration(c: char) -> (r: Option<isize>)
    ensures
        same_value(r, alteration_value(c)),
{
    match c {
        '\u{266f}' => Some(1),
        '#' => Some(1),
        '\u{266e}' => Some(0),
        'b' => Some(-1),
        '\u{266d}' => Some(-1),
        _ => None,
    }
}

/// Reads a note name. Anything that is not one is an `InvalidNote`.
pub fn parse_pitch(string: &str) -> (r: Result<Pitch, TunerError>)
    ensures
        match r {
            Ok(p) => pitch_of(string@) == Some(p as int),
            Err(e) => pitch_of(string@) is None && e == TunerError::InvalidNote,
        },
{
    let n: usize = string.unicode_len();
    if n == 0 || n > 3 {
        return Err(TunerError::InvalidNote);
    }
    let note: isize = match parse_note(string.get_char(0)) {
        Some(v) => v,
        None => {
            return Err(TunerError::InvalidNote);
        },
    };
    if n == 1 {
        return Ok(note);
    }
    let second = string.get_char(1);
    match parse_alteration(second) {
        Some(alt) => {
            if n == 2 {
                Ok(note + alt)
            } else {
                match parse_octave(string.get_char(2)) {
                    Some(oct) => Ok(note + oct * 12 + alt),
                    None => Err(TunerError::InvalidNote),
                }
            }
        },
        None => match parse_octave(second) {
            Some(oct) => if n == 2 {
                Ok(note + oct * 12)
            } else {
                Err(TunerError::InvalidNote)
            },
            None => Err(TunerError::InvalidNote),
        },
    }
}

/// The pitches that have a name: from C in octave 0 to B in octave 8.
pub open spec fn printable(p: int) -> bool {
    -57 <= p < 51
}

/// The name of the `i`-th note of the chromatic scale that starts at C.
pub open spec fn note_name(i: int) -> Seq<char> {
    if i == 0 {
        seq!['C']
    } else if i == 1 {
        seq!['C', SHARP]
    } else if i == 2 {
        seq!['D']
    } else if i == 3 {
        seq!['D', SHARP]
    } else if i == 4 {
        seq!['E']
    } else if i == 5 {
        seq!['F']
    } else if i == 6 {
        seq!['F', SHARP]
    } else if i == 7 {
        seq!['G']
    } else if i == 8 {
        seq!['G', SHARP]
    } else if i == 9 {
        seq!['A']
    } else if i == 10 {
        seq!['A', SHARP]
    } else {
        seq!['B']
    }
}

/// What is printed for octave `i`: its digit, and nothing for the fourth.
pub open spec fn octave_suffix(i: int) -> Seq<char> {
    if i == 0 {
        seq!['0']
    } else if i == 1 {
        seq!['1']
    } else if i == 2 {
        seq!['2']
    } else if i == 3 {
        seq!['3']
    } else if i == 4 {
        Seq::empty()
    } else if i == 5 {
        seq!['5']
    } else if i == 6 {
        seq!['6']
    } else if i == 7 {
        seq!['7']
    } else {
        seq!['8']
    }
}

/// The name of the pitch `p`: the note, then the octave.
pub open spec fn name_of(p: int) -> Seq<char> {
    note_name((p + 57) % 12) + octave_suffix((p + 57) / 12)
}

fn note_text(i: usize) -> (s: &'static str)
    requires
        i < 12,
    ensures
        s@ == note_name(i as int),
{
    proof {
        reveal_strlit("C");
        reveal_strlit("C\u{266f}");
        reveal_strlit("D");
        reveal_strlit("D\u{266f}");
        reveal_strlit("E");
        reveal_strlit("F");
        reveal_strlit("F\u{266f}");
        reveal_strlit("G");
        reveal_strlit("G\u{266f}");
        reveal_strlit("A");
        reveal_strlit("A\u{266f}");
        reveal_strlit("B");
    }
    let s = if i == 0 {
        "C"
    } else if i == 1 {
        "C\u{266f}"
    } else if i == 2 {
        "D"
    } else if i == 3 {
        "D\u{266f}"
    } else if i == 4 {
        "E"
    } else if i == 5 {
        "F"
    } else if i == 6 {
        "F\u{266f}"
    } else if i == 7 {
        "G"
    } else if i == 8 {
        "G\u{266f}"
    } else if i == 9 {
        "A"
    } else if i == 10 {
        "A\u{266f}"
    } else {
        "B"
    };
    assert(s@ =~= note_name(i as int));
    s
}

fn octave_text(i: usize) -> (s: &'static str)
    requires
        i < 9,
    ensures
        s@ == octave_suffix(i as int),
{
    proof {
        reveal_strlit("0");
        reveal_strlit("1");
        reveal_strlit("2");
        reveal_strlit("3");
        reveal_strlit("");
        reveal_strlit("5");
        reveal_strlit("6");
        reveal_strlit("7");
        reveal_strlit("8");
    }
    let s = if i == 0 {
        "0"
    } else if i == 1 {
        "1"
    } else if i == 2 {
        "2"
    } else if i == 3 {
        "3"
    } else if i == 4 {
        ""
    } else if i == 5 {
        "5"
    } else if i == 6 {
        "6"
    } else if i == 7 {
        "7"
    } else {
        "8"
    };
    assert(s@ =~= octave_suffix(i as int));
    s
}

/// Prints a pitch as a note name. A pitch below C in octave 0 or above B
/// in octave 8 is `OutOfRange`.
pub fn pprint_pitch(pitch: Pitch) -> (r: Result<String, TunerError>)
    ensures
        match r {
            Ok(s) => printable(pitch as int) && s@ == name_of(pitch as int),
            Err(e) => !printable(pitch as int) && e == TunerError::OutOfRange,
        },
{
    if pitch < -57 || pitch >= 51 {
        return Err(TunerError::OutOfRange);
    }
    let index: usize = (pitch + 57) as usize;
    let text = String::from_str(note_text(index % 12)).concat(octave_text(index / 12));
    Ok(text)
}

/// Reading a printed pitch gives the pitch back.
pub proof fn lemma_parse_inverts_print(p: int)
    requires
        printable(p),
    ensures
        pitch_of(name_of(p)) == Some(p),
{
    let i = p + 57;
    let n = note_name(i % 12);
    let o = octave_suffix(i / 12);
    let s = name_of(p);
    assert(s.len() == n.len() + o.len());
    if n.len() == 1 {
        assert(s[0] == n[0]);
        if o.len() == 1 {
            assert(s[1] == o[0]);
        }
    } else {
        assert(s[0] == n[0]);
        assert(s[1] == n[1]);
        if o.len() == 1 {
            assert(s[2] == o[0]);
        }
    }
}

/// The characters that part one note name from the next.
pub open spec fn is_blank(c: char) -> bool {
    c == ' ' || c == '\t' || c == '\n' || c == '\r'
}

/// The words of a text: its longest runs of characters that are not
/// blank, in their order. Read from the left: a blank adds nothing, a
/// character behind a blank or at the start opens a word, and any other
/// character goes to the end of the last word.
pub open spec fn words(s: Seq<char>) -> Seq<Seq<char>>
    decreases s.len(),
{
    if s.len() == 0 {
        Seq::empty()
    } else {
        let before = words(s.drop_last());
        if is_blank(s.last()) {
            before
        } else if s.len() > 1 && !is_blank(s[s.len() - 2]) {
            before.drop_last().push(before.last().push(s.last()))
        } else {
            before.push(seq![s.last()])
        }
    }
}

/// Whether no character of `s` is a blank.
pub open spec fn has_no_blank(s: Seq<char>) -> bool {
    forall|j: int| 0 <= j < s.len() ==> !is_blank(#[trigger] s[j])
}

/// No word is empty and no word holds a blank; a text that ends in
/// another character than a blank has a word.
pub proof fn lemma_words_are_runs(s: Seq<char>)
    ensures
        forall|k: int|
            0 <= k < words(s).len() ==> (#[trigger] words(s)[k]).len() > 0 && has_no_blank(
                words(s)[k],
            ),
        s.len() > 0 && !is_blank(s.last()) ==> words(s).len() > 0,
    decreases s.len(),
{
    if s.len() > 0 {
        let front = s.drop_last();
        let before = words(front);
        let c = s.last();
        lemma_words_are_runs(front);
        if is_blank(c) {
        } else if s.len() > 1 && !is_blank(s[s.len() - 2]) {
            assert(front.last() == s[s.len() - 2]);
            let grown = before.last().push(c);
            assert(has_no_blank(grown)) by {
                assert forall|j: int| 0 <= j < grown.len() implies !is_blank(
                    #[trigger] grown[j],
                ) by {
                    if j < before.last().len() {
                        assert(grown[j] == before.last()[j]);
                    }
                }
            }
            assert forall|k: int| 0 <= k < words(s).len() implies (#[trigger] words(s)[k]).len()
                > 0 && has_no_blank(words(s)[k]) by {
                if k < before.len() - 1 {
                    assert(words(s)[k] == before[k]);
                } else {
                    assert(words(s)[k] == grown);
                }
            }
        } else {
            assert(has_no_blank(seq![c]));
            assert forall|k: int| 0 <= k < words(s).len() implies (#[trigger] words(s)[k]).len()
                > 0 && has_no_blank(words(s)[k]) by {
                if k < before.len() {
                    assert(words(s)[k] == before[k]);
                } else {
                    assert(words(s)[k] == seq![c]);
                }
            }
        }
    }
}

/// A text without a blank that is not empty is one word.
pub proof fn lemma_one_word(s: Seq<char>)
    requires
        s.len() > 0,
        has_no_blank(s),
    ensures
        words(s) == seq![s],
    decreases s.len(),
{
    let front = s.drop_last();
    if s.len() == 1 {
        assert(words(front) =~= Seq::<Seq<char>>::empty());
        assert(seq![s.last()] =~= s);
        assert(words(front).push(s) =~= seq![s]);
    } else {
        assert(has_no_blank(front)) by {
            assert forall|j: int| 0 <= j < front.len() implies !is_blank(#[trigger] front[j]) by {
                assert(front[j] == s[j]);
            }
        }
        lemma_one_word(front);
        assert(seq![front].drop_last() =~= Seq::<Seq<char>>::empty());
        assert(seq![front].last() == front);
        assert(front.push(s.last()) =~= s);
        assert(Seq::<Seq<char>>::empty().push(s) =~= seq![s]);
    }
}

/// A blank parts the words on its left from those on its right.
pub proof fn lemma_words_split(a: Seq<char>, c: char, b: Seq<char>)
    requires
        is_blank(c),
    ensures
        words(a.push(c) + b) == words(a) + words(b),
    decreases b.len(),
{
    let s = a.push(c) + b;
    if b.len() == 0 {
        assert(s =~= a.push(c));
        assert(s.drop_last() =~= a);
        assert(words(a) + words(b) =~= words(a));
    } else {
        let front = b.drop_last();
        lemma_words_split(a, c, front);
        lemma_words_are_runs(front);
        assert(s.drop_last() =~= a.push(c) + front);
        assert(s.last() == b.last());
        let left = words(a);
        let right = words(front);
        if b.len() > 1 {
            assert(s[s.len() - 2] == b[b.len() - 2]);
            assert(front.last() == b[b.len() - 2]);
        } else {
            assert(s[s.len() - 2] == c);
        }
        if is_blank(b.last()) {
        } else if b.len() > 1 && !is_blank(b[b.len() - 2]) {
            assert((left + right).drop_last() =~= left + right.drop_last());
            assert((left + right).last() == right.last());
            assert((left + right.drop_last()).push(right.last().push(b.last())) =~= left
                + right.drop_last().push(right.last().push(b.last())));
        } else {
            assert((left + right).push(seq![b.last()]) =~= left + right.push(seq![b.last()]));
        }
    }
}

/// Whether each of the words is a note name.
pub open spec fn all_notes(ws: Seq<Seq<char>>) -> bool {
    forall|k: int| 0 <= k < ws.len() ==> (#[trigger] pitch_of(ws[k])) is Some
}

/// The pitches of the note names `ws`, in their order.
pub open spec fn pitches_of(ws: Seq<Seq<char>>) -> Seq<Pitch> {
    Seq::new(ws.len(), |k: int| pitch_of(ws[k]).unwrap() as isize)
}

fn blank(c: char) -> (r: bool)
    ensures
        r == is_blank(c),
{
    c == ' ' || c == '\t' || c == '\n' || c == '\r'
}

/// Reads a list of note names, parted by blanks, and gives their pitches
/// in ascending order, each once however often it is named. A text
/// without a note name is a
/// `PrecondViolation`; a word that is not a note name is an
/// `InvalidNote`.
pub fn parse_pitches(s: &str) -> (r: Result<Vec<Pitch>, TunerError>)
    ensures
        match r {
            Ok(v) => {
                &&& words(s@).len() > 0
                &&& all_notes(words(s@))
                &&& strictly_ascending(v@)
                &&& forall|i: int|
                    0 <= i < v@.len() ==> pitches_of(words(s@)).contains(#[trigger] v@[i])
                &&& forall|k: int|
                    0 <= k < words(s@).len() ==> v@.contains(
                        #[trigger] pitches_of(words(s@))[k],
                    )
            },
            Err(e) => if words(s@).len() == 0 {
                e == TunerError::PrecondViolation
            } else {
                !all_notes(words(s@)) && e == TunerError::InvalidNote
            },
        },
{
    let n: usize = s.unicode_len();
    let mut found: Vec<Pitch> = Vec::new();
    let mut valid: bool = true;
    let mut start: usize = 0;
    let mut i: usize = 0;
    let ghost mut done: Seq<Seq<char>> = Seq::empty();
    proof {
        assert(s@.take(0) =~= Seq::<char>::empty());
    }
    while i < n
        invariant
            n == s@.len(),
            start <= i <= n,
            forall|j: int| start <= j < i ==> !is_blank(#[trigger] s@[j]),
            start > 0 ==> is_blank(s@[start - 1]),
            words(s@.take(i as int)) == if start < i {
                done.push(s@.subrange(start as int, i as int))
            } else {
                done
            },
            valid == all_notes(done),
            valid ==> found@ == pitches_of(done),
        decreases n - i,
    {
        let c = s.get_char(i);
        proof {
            let now = s@.take(i + 1);
            let word = s@.subrange(start as int, i as int);
            assert(now.drop_last() =~= s@.take(i as int));
            assert(now.last() == c);
            if i > 0 {
                assert(now[now.len() - 2] == s@[i - 1]);
            }
            if !is_blank(c) {
                if start < i {
                    assert(done.push(word).drop_last() =~= done);
                    assert(done.push(word).last() == word);
                    assert(word.push(c) =~= s@.subrange(start as int, i + 1));
                } else {
                    assert(seq![c] =~= s@.subrange(start as int, i + 1));
                }
            }
        }
        if blank(c) {
            if start < i {
                let word = s.substring_char(start, i);
                let parsed = parse_pitch(word);
                proof {
                    lemma_one_more_word(done, word@, valid, found@, parsed);
                    done = done.push(word@);
                }
                match parsed {
                    Ok(p) => {
                        if valid {
                            found.push(p);
                        }
                    },
                    Err(_) => {
                        valid = false;
                    },
                }
            }
            start = i + 1;
        }
        i = i + 1;
    }
    proof {
        assert(s@.take(n as int) =~= s@);
    }
    if start < n {
        let word = s.substring_char(start, n);
        let parsed = parse_pitch(word);
        proof {
            lemma_one_more_word(done, word@, valid, found@, parsed);
            done = done.push(word@);
        }
        match parsed {
            Ok(p) => {
                if valid {
                    found.push(p);
                }
            },
            Err(_) => {
                valid = false;
            },
        }
    }
    if !valid {
        return Err(TunerError::InvalidNote);
    }
    if found.len() == 0 {
        return Err(TunerError::PrecondViolation);
    }
    let unique: Vec<Pitch> = sort_unique(found.as_slice());
    proof {
        assert forall|k: int| 0 <= k < found@.len() implies unique@.contains(
            #[trigger] found@[k],
        ) by {
            assert(holds_value(found@, found@[k].value()));
            assert(holds_value(unique@, found@[k].value()));
            let j = choose|j: int|
                0 <= j < unique@.len() && (#[trigger] unique@[j]).value() == found@[k].value();
            assert(unique@[j] == found@[k]);
        }
    }
    Ok(unique)
}

/// What one more word does to the pitches read so far.
proof fn lemma_one_more_word(
    done: Seq<Seq<char>>,
    word: Seq<char>,
    valid: bool,
    found: Seq<Pitch>,
    parsed: Result<Pitch, TunerError>,
)
    requires
        valid == all_notes(done),
        valid ==> found == pitches_of(done),
        match parsed {
            Ok(p) => pitch_of(word) == Some(p as int),
            Err(e) => pitch_of(word) is None,
        },
    ensures
        (valid && parsed is Ok) == all_notes(done.push(word)),
        valid && parsed is Ok ==> found.push(parsed->Ok_0) == pitches_of(done.push(word)),
{
    let next = done.push(word);
    assert(next[done.len() as int] == word);
    if valid && parsed is Ok {
        assert forall|k: int| 0 <= k < next.len() implies (#[trigger] pitch_of(next[k])) is Some by {
            if k < done.len() {
                assert(next[k] == done[k]);
            }
        }
        assert(found.push(parsed->Ok_0) =~= pitches_of(next)) by {
            assert forall|k: int| 0 <= k < next.len() implies found.push(parsed->Ok_0)[k]
                == pitches_of(next)[k] by {
                if k < done.len() {
                    assert(next[k] == done[k]);
                    assert(found[k] == pitches_of(done)[k]);
                }
            }
        }
    } else if !valid {
        let k = choose|k: int| 0 <= k < done.len() && !(#[trigger] pitch_of(done[k]) is Some);
        assert(next[k] == done[k]);
        assert(!(pitch_of(next[k]) is Some));
    } else {
        assert(!(pitch_of(next[done.len() as int]) is Some));
    }
}

} // verus!
