//! Text: decimal numerals, name components and word search.

use vstd::prelude::*;

verus! {

/// The decimal digit for `d`.
pub open spec fn digit(d: nat) -> char {
    ('0' as u32 + d) as char
}

/// `n` written in decimal.
pub open spec fn decimal(n: nat) -> Seq<char>
    decreases n,
{
    if n < 10 {
        seq![digit(n)]
    } else {
        decimal(n / 10).push(digit(n % 10))
    }
}

/// The one-digit numeral for `d`.
fn digit_text(d: usize) -> (r: &'static str)
    requires
        d < 10,
    ensures
        r@ =~= seq![digit(d as nat)],
{
    proof {
        reveal_strlit("0");
        reveal_strlit("1");
        reveal_strlit("2");
        reveal_strlit("3");
        reveal_strlit("4");
        reveal_strlit("5");
        reveal_strlit("6");
        reveal_strlit("7");
        reveal_strlit("8");
        reveal_strlit("9");
    }
    match d {
        0 => "0",
        1 => "1",
        2 => "2",
        3 => "3",
        4 => "4",
        5 => "5",
        6 => "6",
        7 => "7",
        8 => "8",
        _ => "9",
    }
}

/// Appends `n` in decimal to `out`.
pub fn push_decimal(out: &mut String, n: usize)
    ensures
        final(out)@ =~= old(out)@ + decimal(n as nat),
    decreases n,
{
    if n < 10 {
        out.append(digit_text(n));
    } else {
        push_decimal(out, n / 10);
        out.append(digit_text(n % 10));
    }
}

/// A text of two parts.
pub fn join(a: &str, b: &str) -> (r: String)
    ensures
        r@ =~= a@ + b@,
{
    let mut out = String::from_str(a);
    out.append(b);
    out
}

/// A text, a number, and the text after it.
pub fn with_number(before: &str, n: usize, after: &str) -> (r: String)
    ensures
        r@ =~= before@ + decimal(n as nat) + after@,
{
    let mut out = String::from_str(before);
    push_decimal(&mut out, n);
    out.append(after);
    out
}

/// The lower-case form of an ASCII capital; any other character as it is.
pub open spec fn lower(c: char) -> char {
    if 'A' <= c && c <= 'Z' {
        (c as u32 + 32) as char
    } else {
        c
    }
}

/// A text with its ASCII capitals lowered.
pub open spec fn lowered(s: Seq<char>) -> Seq<char> {
    s.map_values(|c: char| lower(c))
}

/// The parts of a text between its dots, in order.
pub open spec fn components(s: Seq<char>) -> Seq<Seq<char>>
    decreases s.len(),
{
    if s.len() == 0 {
        seq![Seq::<char>::empty()]
    } else {
        let before = components(s.drop_last());
        if s.last() == '.' {
            before.push(Seq::<char>::empty())
        } else {
            before.drop_last().push(before.last().push(s.last()))
        }
    }
}

/// `word` stands at position `at` of `s`.
pub open spec fn occurs_at(s: Seq<char>, word: Seq<char>, at: int) -> bool {
    &&& 0 <= at
    &&& at + word.len() <= s.len()
    &&& s.subrange(at, at + word.len()) == word
}

/// `word` stands somewhere in `s`.
pub open spec fn occurs(s: Seq<char>, word: Seq<char>) -> bool {
    exists|at: int| occurs_at(s, word, at)
}

/// The lower-case form of an ASCII capital; any other character as it is.
fn lower_char(c: char) -> (r: char)
    ensures
        r == lower(c),
{
    match c {
        'A' => 'a',
        'B' => 'b',
        'C' => 'c',
        'D' => 'd',
        'E' => 'e',
        'F' => 'f',
        'G' => 'g',
        'H' => 'h',
        'I' => 'i',
        'J' => 'j',
        'K' => 'k',
        'L' => 'l',
        'M' => 'm',
        'N' => 'n',
        'O' => 'o',
        'P' => 'p',
        'Q' => 'q',
        'R' => 'r',
        'S' => 's',
        'T' => 't',
        'U' => 'u',
        'V' => 'v',
        'W' => 'w',
        'X' => 'x',
        'Y' => 'y',
        'Z' => 'z',
        _ => c,
    }
}

/// Every text has a component, and none of them holds a dot.
pub proof fn law_components(s: Seq<char>)
    ensures
        components(s).len() >= 1,
        forall|i: int, j: int|
            0 <= i < components(s).len() && 0 <= j < components(s)[i].len() ==> #[trigger] components(
                s,
            )[i][j] != '.',
    decreases s.len(),
{
    if s.len() > 0 {
        law_components(s.drop_last());
    }
}

/// The characters of a text.
pub fn characters(s: &str) -> (r: Vec<char>)
    ensures
        r@ == s@,
{
    let mut out: Vec<char> = Vec::new();
    for c in it: s.chars()
        invariant
            out@ =~= s@.take(it.index() as int),
            it.seq() == s@,
    {
        out.push(c);
    }
    assert(s@.take(s@.len() as int) =~= s@);
    out
}

/// The dot-separated components of a text, its ASCII capitals lowered.
pub fn lowered_components(s: &str) -> (r: Vec<Vec<char>>)
    ensures
        r@.len() == components(lowered(s@)).len(),
        forall|i: int| 0 <= i < r@.len() ==> (#[trigger] r@[i])@ == components(lowered(s@))[i],
{
    let chars = characters(s);
    let mut parts: Vec<Vec<char>> = Vec::new();
    let mut current: Vec<char> = Vec::new();
    let ghost low = lowered(s@);
    let mut i: usize = 0;
    proof {
        assert(low.take(0) =~= Seq::<char>::empty());
    }
    while i < chars.len()
        invariant
            i <= chars@.len(),
            chars@ == s@,
            low == lowered(s@),
            components(low.take(i as int)).len() == parts@.len() + 1,
            current@ == components(low.take(i as int)).last(),
            forall|k: int|
                0 <= k < parts@.len() ==> (#[trigger] parts@[k])@ == components(
                    low.take(i as int),
                )[k],
        decreases chars@.len() - i,
    {
        let c = lower_char(chars[i]);
        proof {
            assert(low.take(i + 1).drop_last() =~= low.take(i as int));
            assert(low.take(i + 1).last() == c);
        }
        if c == '.' {
            parts.push(current);
            current = Vec::new();
        } else {
            current.push(c);
        }
        i = i + 1;
    }
    proof {
        assert(low.take(low.len() as int) =~= low);
    }
    parts.push(current);
    parts
}

/// Whether `word` stands at position `at` of `s`.
fn stands_at(s: &Vec<char>, word: &Vec<char>, at: usize) -> (r: bool)
    requires
        at + word@.len() <= s@.len(),
    ensures
        r == occurs_at(s@, word@, at as int),
{
    let len: usize = s.len();
    let mut i: usize = 0;
    while i < word.len()
        invariant
            i <= word@.len(),
            at + word@.len() <= len,
            len == s@.len(),
            forall|k: int| 0 <= k < i ==> s@[at + k] == #[trigger] word@[k],
        decreases word@.len() - i,
    {
        if s[at + i] != word[i] {
            proof {
                assert(s@.subrange(at as int, at + word@.len())[i as int] != word@[i as int]);
            }
            return false;
        }
        i = i + 1;
    }
    assert(s@.subrange(at as int, at + word@.len()) =~= word@);
    true
}

/// Whether `word` stands somewhere in `s`.
pub fn contains_word(s: &Vec<char>, word: &str) -> (r: bool)
    ensures
        r == occurs(s@, word@),
{
    let w = characters(word);
    if w.len() > s.len() {
        return false;
    }
    let last: usize = s.len() - w.len();
    let mut at: usize = 0;
    loop
        invariant
            w@ == word@,
            last == s@.len() - w@.len(),
            at <= last,
            forall|k: int| 0 <= k < at ==> !occurs_at(s@, w@, k),
        decreases last - at,
    {
        if stands_at(s, &w, at) {
            return true;
        }
        if at == last {
            return false;
        }
        at = at + 1;
    }
}

/// Whether `s` begins with `word`.
pub fn starts_with_word(s: &Vec<char>, word: &str) -> (r: bool)
    ensures
        r == occurs_at(s@, word@, 0),
{
    let w = characters(word);
    w.len() <= s.len() && stands_at(s, &w, 0)
}

/// Whether `s` is `word`.
pub fn is_word(s: &Vec<char>, word: &str) -> (r: bool)
    ensures
        r == (s@ == word@),
{
    let w = characters(word);
    if w.len() != s.len() {
        return false;
    }
    let r = stands_at(s, &w, 0);
    assert(s@.subrange(0, s@.len() as int) =~= s@);
    r
}

/// The number that a decimal numeral stands for.
pub open spec fn numeral_value(s: Seq<char>) -> int {
    s.fold_left(0int, |value: int, c: char| 10 * value + (c as int - '0' as int))
}

/// A numeral reads back as its number. It has digits only, and no zero in front
/// unless it is zero itself.
pub proof fn law_decimal_reads_back(n: nat)
    ensures
        numeral_value(decimal(n)) == n,
        decimal(n).len() > 0,
        forall|i: int| 0 <= i < decimal(n).len() ==> '0' <= #[trigger] decimal(n)[i] <= '9',
        decimal(n)[0] == '0' ==> n == 0 && decimal(n).len() == 1,
    decreases n,
{
    let f = |value: int, c: char| 10 * value + (c as int - '0' as int);
    if n < 10 {
        let none = seq![digit(n)].drop_last();
        assert(none.fold_left(0int, f) == 0);
        assert(seq![digit(n)].last() == digit(n));
    } else {
        law_decimal_reads_back(n / 10);
        let front = decimal(n / 10);
        assert(front.push(digit(n % 10)).drop_last() =~= front);
        assert(decimal(n).last() == digit(n % 10));
        assert(numeral_value(decimal(n)) == f(front.fold_left(0int, f), digit(n % 10)));
        assert(decimal(n)[0] == front[0]);
        assert forall|i: int| 0 <= i < decimal(n).len() implies '0' <= #[trigger] decimal(n)[i]
            <= '9' by {
            if i < front.len() {
                assert(decimal(n)[i] == front[i]);
            }
        }
    }
}

/// Lowering a text moves its ASCII capitals to the letters of their own, which
/// lie behind them at a fixed distance, and leaves every other character.
pub proof fn law_lowered(s: Seq<char>, i: int)
    requires
        0 <= i < s.len(),
    ensures
        lowered(s).len() == s.len(),
        'A' <= s[i] <= 'Z' ==> lowered(s)[i] as int == s[i] as int + ('a' as int - 'A' as int),
        !('A' <= s[i] <= 'Z') ==> lowered(s)[i] == s[i],
{
}

/// The components of a text, joined by dots, are the text.
pub proof fn law_components_join(s: Seq<char>)
    ensures
        components(s).len() > 0,
        s == components(s).drop_first().fold_left(
            components(s)[0],
            |joined: Seq<char>, part: Seq<char>| joined.push('.') + part,
        ),
    decreases s.len(),
{
    let f = |joined: Seq<char>, part: Seq<char>| joined.push('.') + part;
    law_components(s);
    let parts = components(s);
    if s.len() == 0 {
        assert(parts.drop_first() =~= Seq::<Seq<char>>::empty());
        assert(s =~= parts[0]);
    } else {
        let front = s.drop_last();
        let before = components(front);
        law_components(front);
        law_components_join(front);
        assert(s =~= front.push(s.last()));
        if s.last() == '.' {
            assert(parts.drop_first().drop_last() =~= before.drop_first());
            assert(front.push('.') + Seq::<char>::empty() =~= s);
        } else if before.len() == 1 {
            assert(before.drop_first() =~= Seq::<Seq<char>>::empty());
            assert(parts.drop_first() =~= Seq::<Seq<char>>::empty());
        } else {
            assert(parts.drop_first().drop_last() =~= before.drop_first().drop_last());
            assert(before.drop_first().last() == before.last());
            assert(parts.drop_first().last() == parts.last());
            let so_far = before.drop_first().drop_last().fold_left(before[0], f);
            assert(front == so_far.push('.') + before.last());
            assert(so_far.push('.') + before.last().push(s.last()) =~= s);
        }
    }
}

/// A word occurs in a text exactly where its characters stand there side by
/// side.
pub proof fn law_occurs(s: Seq<char>, word: Seq<char>, at: int)
    ensures
        occurs_at(s, word, at) <==> 0 <= at <= s.len() - word.len() && forall|k: int|
            0 <= k < word.len() ==> s[at + k] == #[trigger] word[k],
        occurs_at(s, word, at) ==> occurs(s, word),
{
    if 0 <= at <= s.len() - word.len() && forall|k: int|
        0 <= k < word.len() ==> s[at + k] == #[trigger] word[k] {
        assert(s.subrange(at, at + word.len()) =~= word);
    }
    if occurs_at(s, word, at) {
        assert forall|k: int| 0 <= k < word.len() implies s[at + k] == #[trigger] word[k] by {
            assert(s.subrange(at, at + word.len())[k] == word[k]);
        }
    }
}

} // verus!
