//! Small verified text utilities: character classes, prefix tests, string
//! equality, decimal rendering of entity ids, and the article helper used by
//! the room-description renderer.

use vstd::prelude::*;
use vstd::string::*;

verus! {

// ---------------------------------------------------------------------------
// Character classes
// ---------------------------------------------------------------------------

/// The vowels that select the article "an" instead of "a".
pub open spec fn is_vowel(c: char) -> bool {
    c == 'a' || c == 'e' || c == 'i' || c == 'o' || c == 'u'
}

/// ASCII whitespace: what the tokenizer and the trimmer treat as blank.
pub open spec fn is_blank(c: char) -> bool {
    c == ' ' || c == '\t' || c == '\n' || c == '\r'
}

pub fn vowel(c: char) -> (r: bool)
    ensures
        r == is_vowel(c),
{
    c == 'a' || c == 'e' || c == 'i' || c == 'o' || c == 'u'
}

pub fn blank(c: char) -> (r: bool)
    ensures
        r == is_blank(c),
{
    c == ' ' || c == '\t' || c == '\n' || c == '\r'
}

// ---------------------------------------------------------------------------
// Prefix test and equality on strings
// ---------------------------------------------------------------------------

/// `p` is a prefix of `s`.
pub open spec fn starts_with(s: Seq<char>, p: Seq<char>) -> bool {
    p.len() <= s.len() && s.subrange(0, p.len() as int) == p
}

/// Case-sensitive prefix test, the matching rule for glance tokens.
pub fn str_starts_with(s: &str, p: &str) -> (r: bool)
    ensures
        r == starts_with(s@, p@),
{
    let sl = s.unicode_len();
    let pl = p.unicode_len();
    if pl > sl {
        return false;
    }
    let mut i: usize = 0;
    while i < pl
        invariant
            i <= pl,
            pl == p@.len(),
            pl <= sl == s@.len(),
            forall|j: int| 0 <= j < i ==> s@[j] == p@[j],
        decreases pl - i,
    {
        if s.get_char(i) != p.get_char(i) {
            proof {
                assert(s@.subrange(0, pl as int)[i as int] != p@[i as int]);
            }
            return false;
        }
        i += 1;
    }
    proof {
        assert(s@.subrange(0, pl as int) =~= p@);
    }
    true
}

/// Exact string equality, used for command keywords.
pub fn str_eq(a: &str, b: &str) -> (r: bool)
    ensures
        r == (a@ == b@),
{
    let al = a.unicode_len();
    let bl = b.unicode_len();
    if al != bl {
        return false;
    }
    let mut i: usize = 0;
    while i < al
        invariant
            i <= al,
            al == a@.len() == b@.len(),
            forall|j: int| 0 <= j < i ==> a@[j] == b@[j],
        decreases al - i,
    {
        if a.get_char(i) != b.get_char(i) {
            return false;
        }
        i += 1;
    }
    proof {
        assert(a@ =~= b@);
    }
    true
}

// ---------------------------------------------------------------------------
// Decimal rendering
// ---------------------------------------------------------------------------

/// The decimal digit character for `d` (`d < 10`).
pub open spec fn dec_digit(d: nat) -> char {
    if d == 0 {
        '0'
    } else if d == 1 {
        '1'
    } else if d == 2 {
        '2'
    } else if d == 3 {
        '3'
    } else if d == 4 {
        '4'
    } else if d == 5 {
        '5'
    } else if d == 6 {
        '6'
    } else if d == 7 {
        '7'
    } else if d == 8 {
        '8'
    } else {
        '9'
    }
}

/// The usual decimal rendering of `n`, most significant digit first.
pub open spec fn dec_str(n: nat) -> Seq<char>
    decreases n,
{
    if n < 10 {
        seq![dec_digit(n)]
    } else {
        dec_str(n / 10).push(dec_digit(n % 10))
    }
}

fn digit_str(d: usize) -> (s: String)
    requires
        d < 10,
    ensures
        s@ =~= seq![dec_digit(d as nat)],
{
    proof {
        reveal_strlit("0");
        reveal_strlit("1");
        reveal_strlit("2");
        reveal_strlit("3");
        reveal_strlit("4");
        reveal_strlit("5");
        reveal_strlit("6");
        reveal_strlit("7");
        reveal_strlit("8");
        reveal_strlit("9");
    }
    if d == 0 {
        String::from_str("0")
    } else if d == 1 {
        String::from_str("1")
    } else if d == 2 {
        String::from_str("2")
    } else if d == 3 {
        String::from_str("3")
    } else if d == 4 {
        String::from_str("4")
    } else if d == 5 {
        String::from_str("5")
    } else if d == 6 {
        String::from_str("6")
    } else if d == 7 {
        String::from_str("7")
    } else if d == 8 {
        String::from_str("8")
    } else {
        String::from_str("9")
    }
}

/// Renders `n` in decimal; entity ids appear in resolver error messages.
pub fn usize_to_string(n: usize) -> (s: String)
    ensures
        s@ == dec_str(n as nat),
    decreases n,
{
    if n < 10 {
        digit_str(n)
    } else {
        let mut s = usize_to_string(n / 10);
        let tail = digit_str(n % 10);
        s.append(tail.as_str());
        proof {
            assert(s@ =~= dec_str(n as nat));
        }
        s
    }
}

// ---------------------------------------------------------------------------
// Trimming
// ---------------------------------------------------------------------------

/// The first index at or after `i` holding a non-blank character, or the
/// length if the rest is blank.
pub open spec fn first_nonblank(s: Seq<char>, i: int) -> int
    decreases s.len() - i,
{
    if i < 0 || i >= s.len() {
        s.len() as int
    } else if !is_blank(s[i]) {
        i
    } else {
        first_nonblank(s, i + 1)
    }
}

/// One past the last non-blank character strictly below `i`, or 0 if all of
/// `s[..i]` is blank.
pub open spec fn last_nonblank_end(s: Seq<char>, i: int) -> int
    decreases i,
{
    if i <= 0 {
        0
    } else if is_blank(s[i - 1]) {
        last_nonblank_end(s, i - 1)
    } else {
        i
    }
}

/// `s` with blank characters removed from both ends.
pub open spec fn trim_spec(s: Seq<char>) -> Seq<char> {
    let a = first_nonblank(s, 0);
    if a == s.len() {
        Seq::<char>::empty()
    } else {
        s.subrange(a, last_nonblank_end(s, s.len() as int))
    }
}

pub proof fn lemma_first_nonblank(s: Seq<char>, i: int)
    requires
        0 <= i <= s.len(),
    ensures
        i <= first_nonblank(s, i) <= s.len(),
        first_nonblank(s, i) < s.len() ==> !is_blank(s[first_nonblank(s, i)]),
        forall|k: int| i <= k < first_nonblank(s, i) ==> is_blank(s[k]),
    decreases s.len() - i,
{
    if i < s.len() && is_blank(s[i]) {
        lemma_first_nonblank(s, i + 1);
    }
}

pub proof fn lemma_last_nonblank_end(s: Seq<char>, i: int)
    requires
        0 <= i <= s.len(),
    ensures
        0 <= last_nonblank_end(s, i) <= i,
        last_nonblank_end(s, i) > 0 ==> !is_blank(s[last_nonblank_end(s, i) - 1]),
        forall|k: int| last_nonblank_end(s, i) <= k < i ==> is_blank(s[k]),
    decreases i,
{
    if i > 0 && is_blank(s[i - 1]) {
        lemma_last_nonblank_end(s, i - 1);
    }
}

/// Removes leading and trailing blanks.
pub fn trim_str(s: &str) -> (r: String)
    ensures
        r@ == trim_spec(s@),
{
    let len = s.unicode_len();
    let mut a: usize = 0;
    while a < len && blank(s.get_char(a))
        invariant
            a <= len,
            len == s@.len(),
            first_nonblank(s@, 0) == first_nonblank(s@, a as int),
        decreases len - a,
    {
        a += 1;
    }
    proof {
        lemma_first_nonblank(s@, a as int);
        assert(first_nonblank(s@, a as int) == a as int);
    }
    if a == len {
        let r = String::new();
        proof {
            assert(r@ =~= trim_spec(s@));
        }
        return r;
    }
    let mut b: usize = len;
    while b > a && blank(s.get_char(b - 1))
        invariant
            a < b <= len,
            len == s@.len(),
            a < len,
            !is_blank(s@[a as int]),
            last_nonblank_end(s@, len as int) == last_nonblank_end(s@, b as int),
        decreases b,
    {
        b -= 1;
    }
    proof {
        assert(!is_blank(s@[b - 1]));
        assert(last_nonblank_end(s@, len as int) == b as int);
    }
    let piece = s.substring_char(a, b);
    let r = String::from_str(piece);
    proof {
        assert(r@ =~= trim_spec(s@));
    }
    r
}

// ---------------------------------------------------------------------------
// Article selection
// ---------------------------------------------------------------------------

/// "a "/"an " prefixed to a glance, by a vowel test on its first character;
/// an empty glance stays empty.
pub open spec fn aan_spec(s: Seq<char>) -> Seq<char> {
    if s.len() == 0 {
        Seq::<char>::empty()
    } else if is_vowel(s[0]) {
        "an "@ + s
    } else {
        "a "@ + s
    }
}

/// Prefixes a noun with its indefinite article.
pub fn aan(s: &str) -> (r: String)
    ensures
        r@ == aan_spec(s@),
{
    let len = s.unicode_len();
    if len == 0 {
        let r = String::new();
        proof {
            assert(r@ =~= aan_spec(s@));
        }
        r
    } else {
        let c = s.get_char(0);
        let mut r = if vowel(c) {
            String::from_str("an ")
        } else {
            String::from_str("a ")
        };
        r.append(s);
        r
    }
}

} // verus!
