//! Character-level helpers: whitespace, tokens, keywords and decimal numbers.
//!
//! Text is modelled as `Seq<char>`, the view of `str` and `String`. A line is
//! cut into tokens at runs of whitespace; keywords are compared without regard
//! to ASCII case; numbers are unsigned decimals.

use vstd::prelude::*;

verus! {

/// Whether `c` separates tokens: the characters with the Unicode
/// `White_Space` property.
pub open spec fn is_space(c: char) -> bool {
    let n = c as u32;
    ||| 0x09 <= n <= 0x0D
    ||| n == 0x20
    ||| n == 0x85
    ||| n == 0xA0
    ||| n == 0x1680
    ||| 0x2000 <= n <= 0x200A
    ||| n == 0x2028
    ||| n == 0x2029
    ||| n == 0x202F
    ||| n == 0x205F
    ||| n == 0x3000
}

/// Index at which the run of characters that starts at `i` ends, where the
/// run holds whitespace only (`space`) or no whitespace at all (`!space`).
pub open spec fn run_end(s: Seq<char>, i: int, space: bool) -> int
    decreases s.len() - i,
{
    if 0 <= i < s.len() && is_space(s[i]) == space {
        run_end(s, i + 1, space)
    } else {
        i
    }
}

/// The tokens of `s` that start at or after index `i`.
pub open spec fn words_from(s: Seq<char>, i: int) -> Seq<Seq<char>>
    decreases s.len() - i,
{
    let a = run_end(s, i, true);
    let b = run_end(s, a, false);
    if i <= a && a < b && b <= s.len() {
        seq![s.subrange(a, b)] + words_from(s, b)
    } else {
        Seq::empty()
    }
}

/// The tokens of `s`: its maximal runs of non-whitespace characters, in order.
pub open spec fn split_whitespace(s: Seq<char>) -> Seq<Seq<char>> {
    words_from(s, 0)
}

/// A token: not empty, and free of whitespace.
pub open spec fn is_word(w: Seq<char>) -> bool {
    &&& w.len() > 0
    &&& forall|k: int| 0 <= k < w.len() ==> !is_space(#[trigger] w[k])
}

/// The code of `c` after folding the ASCII letters `a` to `z` to upper case.
pub open spec fn upper_code(c: char) -> int {
    let n = c as u32 as int;
    if 97 <= n <= 122 {
        n - 32
    } else {
        n
    }
}

/// Whether `word`, with its ASCII letters in upper case, reads `keyword`.
pub open spec fn is_keyword(word: Seq<char>, keyword: Seq<char>) -> bool {
    &&& word.len() == keyword.len()
    &&& forall|k: int| 0 <= k < word.len() ==> upper_code(#[trigger] word[k]) == keyword[k] as u32
}

/// Whether `c` is one of the decimal digits `0` to `9`.
pub open spec fn is_digit(c: char) -> bool {
    48 <= c as u32 <= 57
}

/// Whether `s` holds decimal digits only.
pub open spec fn all_digits(s: Seq<char>) -> bool {
    forall|k: int| 0 <= k < s.len() ==> is_digit(#[trigger] s[k])
}

/// The number that the digit string `s` denotes; leading zeros count for nothing.
pub open spec fn decimal_value(s: Seq<char>) -> nat
    decreases s.len(),
{
    if s.len() == 0 {
        0
    } else {
        (decimal_value(s.drop_last()) * 10 + (s.last() as u32 - 48)) as nat
    }
}

/// The digits of a number after an optional leading `+`.
pub open spec fn unsigned_part(s: Seq<char>) -> Seq<char> {
    if s.len() > 0 && s[0] == '+' {
        s.subrange(1, s.len() as int)
    } else {
        s
    }
}

/// The `u64` that `s` denotes: an optional `+`, then at least one decimal
/// digit, with a value that fits. `None` for every other text.
pub open spec fn decimal_u64(s: Seq<char>) -> Option<u64> {
    let d = unsigned_part(s);
    if d.len() > 0 && all_digits(d) && decimal_value(d) <= u64::MAX {
        Some(decimal_value(d) as u64)
    } else {
        None
    }
}

/// The character of the digit `d`.
pub open spec fn digit_char(d: nat) -> char {
    ((48 + d) as u8) as char
}

/// The decimal digits of `n`, without leading zeros.
pub open spec fn decimal_digits(n: nat) -> Seq<char>
    decreases n,
{
    if n < 10 {
        seq![digit_char(n)]
    } else {
        decimal_digits(n / 10).push(digit_char(n % 10))
    }
}

/// The words of `ws`, each followed by one space.
pub open spec fn spaced(ws: Seq<Seq<char>>) -> Seq<char>
    decreases ws.len(),
{
    if ws.len() == 0 {
        Seq::empty()
    } else {
        ws[0] + seq![' '] + spaced(ws.subrange(1, ws.len() as int))
    }
}

/// The words of `ws` on one line, with one space between neighbours.
pub open spec fn join_words(ws: Seq<Seq<char>>) -> Seq<char> {
    if ws.len() == 0 {
        Seq::empty()
    } else {
        spaced(ws.drop_last()) + ws.last()
    }
}

/// A run stays inside the text, holds only characters of its kind, and stops
/// at the first character of the other kind.
pub proof fn lemma_run_end(s: Seq<char>, i: int, space: bool)
    requires
        0 <= i <= s.len(),
    ensures
        i <= run_end(s, i, space) <= s.len(),
        forall|k: int| i <= k < run_end(s, i, space) ==> is_space(#[trigger] s[k]) == space,
        run_end(s, i, space) < s.len() ==> is_space(s[run_end(s, i, space)]) != space,
    decreases s.len() - i,
{
    if i < s.len() && is_space(s[i]) == space {
        lemma_run_end(s, i + 1, space);
    }
}

/// Every token is a word.
pub proof fn lemma_tokens_are_words(s: Seq<char>, i: int)
    requires
        0 <= i <= s.len(),
    ensures
        forall|k: int| 0 <= k < words_from(s, i).len() ==> is_word(#[trigger] words_from(s, i)[k]),
    decreases s.len() - i,
{
    let a = run_end(s, i, true);
    let b = run_end(s, a, false);
    lemma_run_end(s, i, true);
    lemma_run_end(s, a, false);
    if a < b {
        lemma_tokens_are_words(s, b);
        let w = s.subrange(a, b);
        assert forall|k: int| 0 <= k < w.len() implies !is_space(#[trigger] w[k]) by {
            assert(w[k] == s[a + k]);
        }
        assert(is_word(w));
        let rest = words_from(s, b);
        assert forall|k: int| 0 <= k < words_from(s, i).len() implies is_word(
            #[trigger] words_from(s, i)[k],
        ) by {
            if k > 0 {
                assert(words_from(s, i)[k] == rest[k - 1]);
            }
        }
    }
}

/// A text has no token exactly when it holds whitespace only.
pub proof fn lemma_no_tokens_iff_blank(s: Seq<char>)
    ensures
        split_whitespace(s).len() == 0 <==> forall|k: int|
            0 <= k < s.len() ==> is_space(#[trigger] s[k]),
{
    let a = run_end(s, 0, true);
    lemma_run_end(s, 0, true);
    lemma_run_end(s, a, false);
    if a < s.len() {
        assert(!is_space(s[a]));
        assert(run_end(s, a, false) == run_end(s, a + 1, false));
        lemma_run_end(s, a + 1, false);
    }
}

/// Executable form of [`is_space`].
pub fn char_is_space(c: char) -> (b: bool)
    ensures
        b == is_space(c),
{
    let n: u32 = c as u32;
    (0x09 <= n && n <= 0x0D) || n == 0x20 || n == 0x85 || n == 0xA0 || n == 0x1680 || (0x2000 <= n
        && n <= 0x200A) || n == 0x2028 || n == 0x2029 || n == 0x202F || n == 0x205F || n == 0x3000
}

/// The characters of `s`, in order.
pub fn chars_of(s: &str) -> (v: Vec<char>)
    ensures
        v@ == s@,
{
    let mut v: Vec<char> = Vec::new();
    for c in it: s.chars()
        invariant
            v@ == it.seq().take(it.index() as int),
            it.seq() == s@,
    {
        v.push(c);
    }
    v
}

/// Cuts `line` into its tokens.
pub fn tokenize(line: &str) -> (tokens: Vec<String>)
    ensures
        tokens.deep_view() == split_whitespace(line@),
{
    let chars = chars_of(line);
    let n: usize = chars.len();
    let mut tokens: Vec<String> = Vec::new();
    let mut i: usize = 0;
    assert(tokens.deep_view() + words_from(line@, 0) =~= split_whitespace(line@));
    while i < n
        invariant
            i <= n,
            n == chars.len(),
            chars@ == line@,
            tokens.deep_view() + words_from(line@, i as int) == split_whitespace(line@),
        decreases n - i,
    {
        let mut a: usize = i;
        while a < n && char_is_space(chars[a])
            invariant
                i <= a <= n,
                n == chars.len(),
                chars@ == line@,
                run_end(line@, a as int, true) == run_end(line@, i as int, true),
            decreases n - a,
        {
            a += 1;
        }
        let mut b: usize = a;
        while b < n && !char_is_space(chars[b])
            invariant
                a <= b <= n,
                n == chars.len(),
                chars@ == line@,
                run_end(line@, b as int, false) == run_end(line@, a as int, false),
            decreases n - b,
        {
            b += 1;
        }
        assert(run_end(line@, i as int, true) == a);
        assert(run_end(line@, a as int, false) == b);
        if a < b {
            let word = line.substring_char(a, b).to_owned();
            proof {
                let before = tokens.deep_view();
                assert(words_from(line@, i as int) == seq![word@] + words_from(line@, b as int));
                assert(before.push(word@) + words_from(line@, b as int) =~= before + words_from(
                    line@,
                    i as int,
                ));
            }
            let ghost before = tokens.deep_view();
            tokens.push(word);
            assert(tokens.deep_view() =~= before.push(word@));
            i = b;
        } else {
            assert(words_from(line@, i as int) =~= Seq::<Seq<char>>::empty());
            assert(words_from(line@, n as int) =~= Seq::<Seq<char>>::empty());
            i = n;
        }
    }
    assert(words_from(line@, n as int) =~= Seq::<Seq<char>>::empty());
    assert(tokens.deep_view() =~= tokens.deep_view() + words_from(line@, n as int));
    tokens
}

/// Executable form of [`is_keyword`]: whether `word` reads `keyword` once its
/// ASCII letters are in upper case.
pub fn word_is(word: &str, keyword: &str) -> (b: bool)
    ensures
        b == is_keyword(word@, keyword@),
{
    let w = chars_of(word);
    let k = chars_of(keyword);
    if w.len() != k.len() {
        return false;
    }
    let n: usize = w.len();
    let mut i: usize = 0;
    while i < n
        invariant
            i <= n,
            n == w.len(),
            n == k.len(),
            w@ == word@,
            k@ == keyword@,
            forall|j: int| 0 <= j < i ==> upper_code(#[trigger] w@[j]) == k@[j] as u32,
        decreases n - i,
    {
        let c: u32 = w[i] as u32;
        let folded: u32 = if 97 <= c && c <= 122 {
            c - 32
        } else {
            c
        };
        if folded != k[i] as u32 {
            assert(upper_code(word@[i as int]) != keyword@[i as int] as u32);
            return false;
        }
        i += 1;
    }
    true
}

/// The value of a digit string is at least that of each of its prefixes.
pub proof fn lemma_decimal_value_grows(s: Seq<char>, k: int)
    requires
        0 <= k <= s.len(),
        all_digits(s),
    ensures
        decimal_value(s.take(k)) <= decimal_value(s),
    decreases s.len(),
{
    if k == s.len() {
        assert(s.take(k) =~= s);
    } else {
        let t = s.drop_last();
        assert(all_digits(t)) by {
            assert forall|j: int| 0 <= j < t.len() implies is_digit(#[trigger] t[j]) by {
                assert(t[j] == s[j]);
            }
        }
        lemma_decimal_value_grows(t, k);
        assert(t.take(k) =~= s.take(k));
        assert(is_digit(s[s.len() - 1]));
    }
}

/// Reads an unsigned decimal number.
pub fn parse_u64(word: &str) -> (r: Option<u64>)
    ensures
        r == decimal_u64(word@),
{
    let w = chars_of(word);
    let n: usize = w.len();
    let start: usize = if n > 0 && w[0] == '+' {
        1
    } else {
        0
    };
    let ghost d = unsigned_part(word@);
    assert(d =~= word@.subrange(start as int, n as int));
    if start == n {
        return None;
    }
    let mut acc: u64 = 0;
    let mut i: usize = start;
    assert(d.take(0) =~= Seq::<char>::empty());
    while i < n
        invariant
            start <= i <= n,
            n == w.len(),
            w@ == word@,
            d == unsigned_part(word@),
            d == word@.subrange(start as int, n as int),
            all_digits(d.take(i - start)),
            acc == decimal_value(d.take(i - start)),
        decreases n - i,
    {
        let c: u32 = w[i] as u32;
        let ghost prefix = d.take(i - start + 1);
        assert(prefix.drop_last() =~= d.take(i - start));
        assert(prefix.last() == word@[i as int]);
        if c < 48 || c > 57 {
            assert(!is_digit(d[i - start]));
            return None;
        }
        assert(all_digits(prefix)) by {
            assert forall|j: int| 0 <= j < prefix.len() implies is_digit(#[trigger] prefix[j]) by {
                if j < i - start {
                    assert(prefix[j] == d.take(i - start)[j]);
                }
            }
        }
        let digit: u64 = (c - 48) as u64;
        if acc > (u64::MAX - digit) / 10 {
            proof {
                assert(decimal_value(prefix) > u64::MAX);
                if all_digits(d) {
                    lemma_decimal_value_grows(d, i - start + 1);
                }
            }
            return None;
        }
        acc = acc * 10 + digit;
        i += 1;
    }
    assert(d.take(n - start) =~= d);
    Some(acc)
}

/// The one-character text of the digit `d`.
fn digit_text(d: u64) -> (s: &'static str)
    requires
        d < 10,
    ensures
        s@ == seq![digit_char(d as nat)],
{
    proof {
        reveal_strlit("0");
        reveal_strlit("1");
        reveal_strlit("2");
        reveal_strlit("3");
        reveal_strlit("4");
        reveal_strlit("5");
        reveal_strlit("6");
        reveal_strlit("7");
        reveal_strlit("8");
        reveal_strlit("9");
    }
    let s = if d == 0 {
        "0"
    } else if d == 1 {
        "1"
    } else if d == 2 {
        "2"
    } else if d == 3 {
        "3"
    } else if d == 4 {
        "4"
    } else if d == 5 {
        "5"
    } else if d == 6 {
        "6"
    } else if d == 7 {
        "7"
    } else if d == 8 {
        "8"
    } else {
        "9"
    };
    assert(s@ =~= seq![digit_char(d as nat)]);
    s
}

/// Writes `n` in decimal.
pub fn render_u64(n: u64) -> (s: String)
    ensures
        s@ == decimal_digits(n as nat),
    decreases n,
{
    if n < 10 {
        digit_text(n).to_owned()
    } else {
        let head = render_u64(n / 10);
        head.concat(digit_text(n % 10))
    }
}


/// Every text of `ws` is a word.
pub open spec fn all_words(ws: Seq<Seq<char>>) -> bool {
    forall|i: int| 0 <= i < ws.len() ==> is_word(#[trigger] ws[i])
}

/// A run in `t` ends where it ends when `p` stands before `t`.
pub proof fn lemma_run_end_shift(p: Seq<char>, t: Seq<char>, i: int, space: bool)
    requires
        0 <= i <= t.len(),
    ensures
        run_end(p + t, p.len() + i, space) == p.len() + run_end(t, i, space),
    decreases t.len() - i,
{
    if i < t.len() {
        assert((p + t)[p.len() + i] == t[i]);
        if is_space(t[i]) == space {
            lemma_run_end_shift(p, t, i + 1, space);
        }
    }
}

/// The tokens of `t` are its tokens when `p` stands before it.
pub proof fn lemma_words_shift(p: Seq<char>, t: Seq<char>, i: int)
    requires
        0 <= i <= t.len(),
    ensures
        words_from(p + t, p.len() + i) == words_from(t, i),
    decreases t.len() - i,
{
    let a = run_end(t, i, true);
    lemma_run_end(t, i, true);
    let b = run_end(t, a, false);
    lemma_run_end(t, a, false);
    lemma_run_end_shift(p, t, i, true);
    lemma_run_end_shift(p, t, a, false);
    if a < b {
        lemma_words_shift(p, t, b);
        assert((p + t).subrange(p.len() + a, p.len() + b) =~= t.subrange(a, b));
    }
}

/// A word that stands before the end of a text, or before whitespace, runs
/// to its own end.
proof fn lemma_word_run(w: Seq<char>, t: Seq<char>, i: int)
    requires
        is_word(w),
        t.len() == 0 || is_space(t[0]),
        0 <= i <= w.len(),
    ensures
        run_end(w + t, i, false) == w.len(),
    decreases w.len() - i,
{
    if i < w.len() {
        assert((w + t)[i] == w[i]);
        lemma_word_run(w, t, i + 1);
    } else if t.len() > 0 {
        assert((w + t)[w.len() as int] == t[0]);
    }
}

/// A word at the start of a text, followed by nothing or by whitespace, is
/// the text's first token.
pub proof fn lemma_leading_word(w: Seq<char>, t: Seq<char>)
    requires
        is_word(w),
        t.len() == 0 || is_space(t[0]),
    ensures
        split_whitespace(w + t) == seq![w] + split_whitespace(t),
{
    let s = w + t;
    assert(s[0] == w[0]);
    assert(run_end(s, 0, true) == 0);
    lemma_word_run(w, t, 0);
    assert(s.subrange(0, w.len() as int) =~= w);
    lemma_words_shift(w, t, 0);
}

/// A space at the start of a text adds no token.
pub proof fn lemma_leading_space(t: Seq<char>)
    ensures
        split_whitespace(seq![' '] + t) == split_whitespace(t),
{
    let u = seq![' '] + t;
    assert(is_space(u[0]));
    lemma_run_end(u, 1, true);
    assert(run_end(u, 0, true) == run_end(u, 1, true));
    assert(words_from(u, 0) == words_from(u, 1));
    lemma_words_shift(seq![' '], t, 0);
}

/// Words that are each followed by a space, and then one more word or
/// nothing, are cut into just those words.
pub proof fn lemma_spaced_then(ws: Seq<Seq<char>>, t: Seq<char>)
    requires
        all_words(ws),
        t.len() == 0 || is_word(t),
    ensures
        split_whitespace(spaced(ws) + t) == if t.len() == 0 {
            ws
        } else {
            ws.push(t)
        },
    decreases ws.len(),
{
    let nothing = Seq::<char>::empty();
    assert(words_from(nothing, 0) =~= Seq::<Seq<char>>::empty());
    if ws.len() == 0 {
        assert(spaced(ws) + t =~= t);
        if t.len() > 0 {
            lemma_leading_word(t, nothing);
            assert(t + nothing =~= t);
            assert(seq![t] + Seq::<Seq<char>>::empty() =~= ws.push(t));
        } else {
            assert(ws =~= Seq::<Seq<char>>::empty());
        }
    } else {
        let rest = ws.subrange(1, ws.len() as int);
        let v = spaced(rest) + t;
        let u = seq![' '] + v;
        assert(spaced(ws) + t =~= ws[0] + u);
        assert(all_words(rest)) by {
            assert forall|i: int| 0 <= i < rest.len() implies is_word(#[trigger] rest[i]) by {
                assert(rest[i] == ws[i + 1]);
            }
        }
        lemma_spaced_then(rest, t);
        lemma_leading_space(v);
        assert(is_space(u[0]));
        lemma_leading_word(ws[0], u);
        assert(seq![ws[0]] + rest =~= ws);
        assert(seq![ws[0]] + rest.push(t) =~= ws.push(t));
    }
}

/// A line made of words cuts back into those words.
pub proof fn lemma_split_join(ws: Seq<Seq<char>>)
    requires
        all_words(ws),
    ensures
        split_whitespace(join_words(ws)) == ws,
{
    if ws.len() == 0 {
        assert(words_from(Seq::<char>::empty(), 0) =~= Seq::<Seq<char>>::empty());
    } else {
        let init = ws.drop_last();
        assert(all_words(init)) by {
            assert forall|i: int| 0 <= i < init.len() implies is_word(#[trigger] init[i]) by {
                assert(init[i] == ws[i]);
            }
        }
        assert(is_word(ws[ws.len() - 1]));
        lemma_spaced_then(init, ws.last());
        assert(init.push(ws.last()) =~= ws);
    }
}

/// The digits of a number are digits, and denote that number.
pub proof fn lemma_decimal_digits(n: nat)
    ensures
        decimal_digits(n).len() > 0,
        all_digits(decimal_digits(n)),
        decimal_value(decimal_digits(n)) == n,
    decreases n,
{
    let d = decimal_digits(n);
    if n < 10 {
        assert(d.drop_last() =~= Seq::<char>::empty());
        assert(d.last() as u32 == 48 + n);
        assert(decimal_value(d.drop_last()) == 0);
        assert(decimal_value(d) == n);
    } else {
        lemma_decimal_digits(n / 10);
        let head = decimal_digits(n / 10);
        assert(d.drop_last() =~= head);
        assert(d.last() as u32 == 48 + n % 10);
        assert(decimal_value(d) == decimal_value(head) * 10 + n % 10);
        assert forall|k: int| 0 <= k < d.len() implies is_digit(#[trigger] d[k]) by {
            if k < head.len() {
                assert(d[k] == head[k]);
            }
        }
    }
}

/// A number written in decimal is one word, and reads back as itself.
pub proof fn lemma_decimal_round_trip(n: u64)
    ensures
        is_word(decimal_digits(n as nat)),
        decimal_u64(decimal_digits(n as nat)) == Some(n),
{
    let d = decimal_digits(n as nat);
    lemma_decimal_digits(n as nat);
    assert(is_digit(d[0]));
    assert forall|k: int| 0 <= k < d.len() implies !is_space(#[trigger] d[k]) by {
        assert(is_digit(d[k]));
    }
}

} // verus!
