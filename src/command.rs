use vstd::prelude::*;

verus! {

/// What a turn asks for.
#[derive(Clone, Copy, Debug, PartialEq, Eq, Structural)]
pub enum Action {
    Reveal,
    Flag,
}

/// One turn's request: an action at a position.
#[derive(Clone, Copy, Debug, PartialEq, Eq, Structural)]
pub struct Command {
    pub action: Action,
    pub x: usize,
    pub y: usize,
}

/// Why a line was not taken as a command.
#[derive(Clone, Copy, Debug, PartialEq, Eq, Structural)]
pub enum InputError {
    /// Not a word followed by `x,y`.
    Malformed,
    /// A coordinate is not a decimal number that fits a `usize`.
    InvalidCoordinates,
    /// The position lies off the board.
    OutOfBounds,
    /// The word is neither a reveal nor a flag.
    UnknownCommand,
}

impl InputError {
    /// The message shown to the player.
    pub fn message(&self) -> (r: &'static str)
        ensures
            *self == InputError::Malformed ==> r@
                == "Please enter a command followed by coordinates in the format cmd x,y!"@,
            *self == InputError::InvalidCoordinates ==> r@ == "Invalid coordinates!"@,
            *self == InputError::OutOfBounds ==> r@ == "Coordinates are out of bounds!"@,
            *self == InputError::UnknownCommand ==> r@ == "Unknown command! Use 'r' to reveal or 'f' to flag."@,
    {
        let r = match self {
            InputError::Malformed => "Please enter a command followed by coordinates in the format cmd x,y!",
            InputError::InvalidCoordinates => "Invalid coordinates!",
            InputError::OutOfBounds => "Coordinates are out of bounds!",
            InputError::UnknownCommand => "Unknown command! Use 'r' to reveal or 'f' to flag.",
        };
        r
    }
}

pub open spec fn is_space(c: char) -> bool {
    c == ' ' || c == '\t' || c == '\n' || c == '\r'
}

/// The words of a line: its maximal runs of characters that are not spaces, in order.
pub open spec fn words(s: Seq<char>) -> Seq<Seq<char>>
    decreases s.len(),
{
    if s.len() == 0 {
        seq![]
    } else {
        let before = words(s.drop_last());
        let c = s.last();
        if is_space(c) {
            before
        } else if s.len() >= 2 && !is_space(s[s.len() - 2]) {
            before.update(before.len() - 1, before.last().push(c))
        } else {
            before.push(seq![c])
        }
    }
}

pub open spec fn is_digit(c: char) -> bool {
    '0' <= c && c <= '9'
}

pub open spec fn digit_value(c: char) -> nat {
    (c as u32 - '0' as u32) as nat
}

/// The value of a string of decimal digits.
pub open spec fn number_value(s: Seq<char>) -> nat
    decreases s.len(),
{
    if s.len() == 0 {
        0
    } else {
        number_value(s.drop_last()) * 10 + digit_value(s.last())
    }
}

/// A non-empty string of decimal digits whose value fits a `usize`.
pub open spec fn is_number(s: Seq<char>) -> bool {
    &&& s.len() > 0
    &&& forall|i: int| 0 <= i < s.len() ==> is_digit(#[trigger] s[i])
    &&& number_value(s) <= usize::MAX
}

/// `k` is the position of the only comma in `t`.
pub open spec fn sole_comma(t: Seq<char>, k: int) -> bool {
    &&& 0 <= k < t.len()
    &&& t[k] == ','
    &&& forall|i: int| 0 <= i < t.len() && i != k ==> #[trigger] t[i] != ','
}

pub open spec fn action_of(word: Seq<char>) -> Option<Action> {
    if word == seq!['r'] || word == seq!['r', 'e', 'v', 'e', 'a', 'l'] {
        Some(Action::Reveal)
    } else if word == seq!['f'] || word == seq!['f', 'l', 'a', 'g'] {
        Some(Action::Flag)
    } else {
        None
    }
}

/// What a line of input asks of a `w` x `h` board: a word, then `x,y`. The checks come in this
/// order: the shape of the line, the numbers, the bounds, the word.
pub open spec fn command_of(line: Seq<char>, w: int, h: int) -> Result<Command, InputError> {
    let ws = words(line);
    if ws.len() != 2 || !(exists|k: int| sole_comma(ws[1], k)) {
        Err(InputError::Malformed)
    } else {
        let k = choose|k: int| sole_comma(ws[1], k);
        let xs = ws[1].take(k);
        let ys = ws[1].skip(k + 1);
        if !is_number(xs) || !is_number(ys) {
            Err(InputError::InvalidCoordinates)
        } else if !(number_value(xs) < w && number_value(ys) < h) {
            Err(InputError::OutOfBounds)
        } else {
            match action_of(ws[0]) {
                Some(action) => Ok(
                    Command { action, x: number_value(xs) as usize, y: number_value(ys) as usize },
                ),
                None => Err(InputError::UnknownCommand),
            }
        }
    }
}

pub proof fn lemma_value_prefix(s: Seq<char>, j: int)
    requires
        0 <= j <= s.len(),
    ensures
        number_value(s.take(j)) <= number_value(s),
    decreases s.len(),
{
    if j < s.len() {
        lemma_value_prefix(s.drop_last(), j);
        assert(s.drop_last().take(j) =~= s.take(j));
    } else {
        assert(s.take(j) =~= s);
    }
}

pub proof fn lemma_words_nonempty(s: Seq<char>)
    requires
        s.len() > 0,
        !is_space(s.last()),
    ensures
        words(s).len() > 0,
    decreases s.len(),
{
    if s.len() >= 2 && !is_space(s[s.len() - 2]) {
        lemma_words_nonempty(s.drop_last());
    }
}

fn chars_of(line: &str) -> (r: Vec<char>)
    ensures
        r@ == line@,
{
    let mut out: Vec<char> = Vec::new();
    for c in it: line.chars()
        invariant
            out@ == it.seq().take(it.index() as int),
            it.seq() == line@,
    {
        out.push(c);
    }
    out
}

/// Splits characters into words.
fn split_words(s: &Vec<char>) -> (r: Vec<Vec<char>>)
    ensures
        r@.map_values(|v: Vec<char>| v@) == words(s@),
{
    let mut out: Vec<Vec<char>> = Vec::new();
    let mut i: usize = 0;
    while i < s.len()
        invariant
            i <= s@.len(),
            out@.map_values(|v: Vec<char>| v@) == words(s@.take(i as int)),
        decreases s@.len() - i,
    {
        let c = s[i];
        let ghost before = out@.map_values(|v: Vec<char>| v@);
        proof {
            assert(s@.take(i + 1).drop_last() =~= s@.take(i as int));
            assert(s@.take(i + 1).last() == c);
        }
        if is_space_exec(c) {
        } else if i >= 1 && !is_space_exec(s[i - 1]) {
            assert(s@.take(i + 1)[i - 1] == s@[i - 1]);
            proof {
                assert(s@.take(i as int).last() == s@[i - 1]);
                lemma_words_nonempty(s@.take(i as int));
            }
            let n = out.len();
            let mut last = out.pop().unwrap();
            last.push(c);
            out.push(last);
            assert(out@.map_values(|v: Vec<char>| v@) =~= before.update(n - 1, before.last().push(c)));
        } else {
            let mut word: Vec<char> = Vec::new();
            word.push(c);
            out.push(word);
            assert(out@.map_values(|v: Vec<char>| v@) =~= before.push(seq![c]));
        }
        i += 1;
    }
    assert(s@.take(s@.len() as int) =~= s@);
    out
}

fn is_space_exec(c: char) -> (r: bool)
    ensures
        r == is_space(c),
{
    c == ' ' || c == '\t' || c == '\n' || c == '\r'
}

/// Reads `t[lo..hi]` as a decimal number.
fn parse_number(t: &Vec<char>, lo: usize, hi: usize) -> (r: Option<usize>)
    requires
        lo <= hi <= t@.len(),
    ensures
        r == (if is_number(t@.subrange(lo as int, hi as int)) {
            Some(number_value(t@.subrange(lo as int, hi as int)) as usize)
        } else {
            None::<usize>
        }),
{
    let ghost s = t@.subrange(lo as int, hi as int);
    if lo == hi {
        return None;
    }
    let mut acc: usize = 0;
    let mut i: usize = lo;
    while i < hi
        invariant
            lo <= i <= hi <= t@.len(),
            s == t@.subrange(lo as int, hi as int),
            s.len() > 0,
            acc == number_value(s.take(i - lo)),
            forall|j: int| 0 <= j < i - lo ==> is_digit(#[trigger] s[j]),
        decreases hi - i,
    {
        let c = t[i];
        assert(s[i - lo] == c);
        if !('0' <= c && c <= '9') {
            return None;
        }
        let d = (c as u32 - '0' as u32) as usize;
        proof {
            assert(s.take(i - lo + 1).drop_last() =~= s.take(i - lo));
        }
        if acc > (usize::MAX - d) / 10 {
            proof {
                assert(number_value(s.take(i - lo + 1)) == acc * 10 + d);
                assert(acc * 10 + d > usize::MAX) by (nonlinear_arith)
                    requires
                        acc > (usize::MAX - d) / 10,
                        d <= 9,
                ;
                lemma_value_prefix(s, i - lo + 1);
            }
            return None;
        }
        assert(acc * 10 + d <= usize::MAX) by (nonlinear_arith)
            requires
                acc <= (usize::MAX - d) / 10,
                d <= 9,
        ;
        acc = acc * 10 + d;
        i += 1;
    }
    assert(s.take(s.len() as int) =~= s);
    Some(acc)
}

/// The action that a word names, if any.
fn action_of_word(word: &Vec<char>) -> (r: Option<Action>)
    ensures
        r == action_of(word@),
{
    let n = word.len();
    if n == 1 && word[0] == 'r' {
        assert(word@ =~= seq!['r']);
        Some(Action::Reveal)
    } else if n == 6 && word[0] == 'r' && word[1] == 'e' && word[2] == 'v' && word[3] == 'e' && word[4]
        == 'a' && word[5] == 'l' {
        assert(word@ =~= seq!['r', 'e', 'v', 'e', 'a', 'l']);
        Some(Action::Reveal)
    } else if n == 1 && word[0] == 'f' {
        assert(word@ =~= seq!['f']);
        Some(Action::Flag)
    } else if n == 4 && word[0] == 'f' && word[1] == 'l' && word[2] == 'a' && word[3] == 'g' {
        assert(word@ =~= seq!['f', 'l', 'a', 'g']);
        Some(Action::Flag)
    } else {
        assert(word@ != seq!['r'] ==> word@.len() != 1 || word@[0] != 'r');
        assert(word@ != seq!['f'] ==> word@.len() != 1 || word@[0] != 'f');
        None
    }
}

/// Reads one line of input as a command on a `width` x `height` board.
pub fn parse_command(line: &str, width: usize, height: usize) -> (r: Result<Command, InputError>)
    ensures
        r == command_of(line@, width as int, height as int),
{
    let chars = chars_of(line);
    let ws = split_words(&chars);
    let ghost wv = ws@.map_values(|v: Vec<char>| v@);
    if ws.len() != 2 {
        return Err(InputError::Malformed);
    }
    assert(wv[1] == ws@[1]@);
    assert(wv[0] == ws@[0]@);
    let coords = &ws[1];
    let mut comma: usize = 0;
    let mut commas: usize = 0;
    let mut i: usize = 0;
    while i < coords.len()
        invariant
            coords@ == wv[1],
            i <= coords@.len(),
            commas <= i,
            commas == 0 ==> forall|j: int| 0 <= j < i ==> #[trigger] coords@[j] != ',',
            commas == 1 ==> sole_comma(coords@.take(i as int), comma as int),
            commas >= 2 ==> !(exists|k: int| sole_comma(coords@, k)),
        decreases coords@.len() - i,
    {
        if coords[i] == ',' {
            if commas == 0 {
                comma = i;
                commas = 1;
            } else if commas == 1 {
                proof {
                    assert forall|k: int| !sole_comma(coords@, k) by {
                        if sole_comma(coords@, k) {
                            assert(coords@[comma as int] == ',');
                            assert(coords@.take(i as int)[comma as int] == ',');
                        }
                    }
                }
                commas = 2;
            }
        }
        i += 1;
    }
    assert(coords@.take(coords@.len() as int) =~= coords@);
    if commas != 1 {
        if commas == 0 {
            assert forall|k: int| !sole_comma(coords@, k) by {
                if 0 <= k < coords@.len() {
                    assert(coords@[k] != ',');
                }
            }
        }
        return Err(InputError::Malformed);
    }
    let ghost k = choose|k: int| sole_comma(wv[1], k);
    assert(k == comma) by {
        if k != comma {
            assert(coords@[comma as int] == ',');
        }
    }
    assert(coords@.subrange(0, comma as int) =~= wv[1].take(k));
    assert(coords@.subrange(comma + 1, coords@.len() as int) =~= wv[1].skip(k + 1));
    let x = parse_number(coords, 0, comma);
    let y = parse_number(coords, comma + 1, coords.len());
    match (x, y) {
        (Some(x), Some(y)) => {
            if x >= width || y >= height {
                return Err(InputError::OutOfBounds);
            }
            match action_of_word(&ws[0]) {
                Some(action) => Ok(Command { action, x, y }),
                None => Err(InputError::UnknownCommand),
            }
        },
        _ => Err(InputError::InvalidCoordinates),
    }
}

} // verus!
