use vstd::prelude::*;
use vstd::string::StrSliceExecFns;

use crate::models::Token;
use crate::models::TokenModel;

verus! {

// ---------------------------------------------------------------------------
// Character classes
// ---------------------------------------------------------------------------

/// Membership of a character in the Unicode alphabetic or numeric classes.
/// The scanner extends identifier, number and reserved-word runs by this
/// class; it is decided by `char::is_alphanumeric` below.
pub uninterp spec fn is_alnum_char(c: char) -> bool;

/// Relies on char::is_alphanumeric: whether a character belongs to the
/// Unicode alphabetic or numeric classes depends on the character alone.
pub assume_specification[ char::is_alphanumeric ](c: char) -> (r: bool)
    ensures
        r == is_alnum_char(c),
;

/// A blank inside a run of spaces: a space or a tab.
pub open spec fn is_blank_char(c: char) -> bool {
    c == ' ' || c == '\t'
}

/// An ASCII letter, the only characters that may begin an identifier.
pub open spec fn is_letter_char(c: char) -> bool {
    ('a' as u32 <= c as u32 && c as u32 <= 'z' as u32) || ('A' as u32 <= c as u32 && c as u32
        <= 'Z' as u32)
}

/// An ASCII decimal digit.
pub open spec fn is_digit_char(c: char) -> bool {
    '0' as u32 <= c as u32 && c as u32 <= '9' as u32
}

fn is_blank(c: char) -> (r: bool)
    ensures
        r == is_blank_char(c),
{
    c == ' ' || c == '\t'
}

fn is_letter(c: char) -> (r: bool)
    ensures
        r == is_letter_char(c),
{
    let u = c as u32;
    (97 <= u && u <= 122) || (65 <= u && u <= 90)
}

fn is_digit(c: char) -> (r: bool)
    ensures
        r == is_digit_char(c),
{
    let u = c as u32;
    48 <= u && u <= 57
}

// ---------------------------------------------------------------------------
// Maximal runs of characters
// ---------------------------------------------------------------------------

/// Length of the maximal run of blanks beginning at `j`.
pub open spec fn blank_run(s: Seq<char>, j: int) -> nat
    decreases s.len() - j,
{
    if j < 0 || j >= s.len() || !is_blank_char(s[j]) {
        0
    } else {
        1 + blank_run(s, j + 1)
    }
}

/// Length of the maximal run of alphanumeric characters beginning at `j`.
pub open spec fn alnum_run(s: Seq<char>, j: int) -> nat
    decreases s.len() - j,
{
    if j < 0 || j >= s.len() || !is_alnum_char(s[j]) {
        0
    } else {
        1 + alnum_run(s, j + 1)
    }
}

/// Length of the maximal run of characters other than a double quote
/// beginning at `j`: the body of a string literal.
pub open spec fn string_run(s: Seq<char>, j: int) -> nat
    decreases s.len() - j,
{
    if j < 0 || j >= s.len() || s[j] == '"' {
        0
    } else {
        1 + string_run(s, j + 1)
    }
}

pub proof fn lemma_blank_run_le(s: Seq<char>, j: int)
    requires
        0 <= j <= s.len(),
    ensures
        j + blank_run(s, j) <= s.len(),
    decreases s.len() - j,
{
    if j < s.len() && is_blank_char(s[j]) {
        lemma_blank_run_le(s, j + 1);
    }
}

pub proof fn lemma_alnum_run_le(s: Seq<char>, j: int)
    requires
        0 <= j <= s.len(),
    ensures
        j + alnum_run(s, j) <= s.len(),
    decreases s.len() - j,
{
    if j < s.len() && is_alnum_char(s[j]) {
        lemma_alnum_run_le(s, j + 1);
    }
}

pub proof fn lemma_string_run_le(s: Seq<char>, j: int)
    requires
        0 <= j <= s.len(),
    ensures
        j + string_run(s, j) <= s.len(),
    decreases s.len() - j,
{
    if j < s.len() && s[j] != '"' {
        lemma_string_run_le(s, j + 1);
    }
}

// ---------------------------------------------------------------------------
// Numbers
// ---------------------------------------------------------------------------

/// Every character of `s` is an ASCII decimal digit.
pub open spec fn all_digit_chars(s: Seq<char>) -> bool {
    forall|k: int| 0 <= k < s.len() ==> is_digit_char(#[trigger] s[k])
}

/// The value of `s` read as a decimal numeral.
pub open spec fn digits_value(s: Seq<char>) -> int
    decreases s.len(),
{
    if s.len() == 0 {
        0
    } else {
        digits_value(s.drop_last()) * 10 + (s.last() as u32 - '0' as u32)
    }
}

/// What a digit-led run of text denotes as a number token: its decimal value
/// when the whole run is made of digits and the value fits in an `i32`;
/// otherwise nothing, and the run is dropped.
pub open spec fn number_token_value(s: Seq<char>) -> Option<int> {
    if s.len() > 0 && all_digit_chars(s) && digits_value(s) <= i32::MAX as int {
        Some(digits_value(s))
    } else {
        None
    }
}

pub proof fn lemma_digits_value_nonneg(s: Seq<char>)
    requires
        all_digit_chars(s),
    ensures
        digits_value(s) >= 0,
    decreases s.len(),
{
    if s.len() > 0 {
        assert(all_digit_chars(s.drop_last())) by {
            assert(forall|k: int|
                0 <= k < s.len() - 1 ==> #[trigger] s.drop_last()[k] == s[k]);
        }
        lemma_digits_value_nonneg(s.drop_last());
    }
}

/// A decimal numeral is no smaller than any of its prefixes.
pub proof fn lemma_digits_value_prefix(s: Seq<char>, p: int)
    requires
        all_digit_chars(s),
        0 <= p <= s.len(),
    ensures
        digits_value(s.subrange(0, p)) <= digits_value(s),
    decreases s.len() - p,
{
    if p < s.len() {
        lemma_digits_value_prefix(s, p + 1);
        let shorter = s.subrange(0, p);
        let longer = s.subrange(0, p + 1);
        assert(longer.drop_last() =~= shorter);
        assert(longer.last() == s[p]);
        assert(all_digit_chars(shorter)) by {
            assert(forall|k: int| 0 <= k < p ==> #[trigger] shorter[k] == s[k]);
        }
        lemma_digits_value_nonneg(shorter);
    } else {
        assert(s.subrange(0, p) =~= s);
    }
}

/// Reads the text `[a, b)` of `source` as a decimal `i32`, exactly as
/// `number_token_value` describes it.
fn parse_number(source: &str, a: usize, b: usize) -> (r: Option<i32>)
    requires
        a < b <= source@.len(),
    ensures
        match r {
            Some(x) => number_token_value(source@.subrange(a as int, b as int)) == Some(
                x as int,
            ),
            None => number_token_value(source@.subrange(a as int, b as int)) is None,
        },
{
    let ghost text = source@.subrange(a as int, b as int);
    let mut acc: i64 = 0;
    let mut k = a;
    while k < b
        invariant
            a <= k <= b <= source@.len(),
            text == source@.subrange(a as int, b as int),
            all_digit_chars(source@.subrange(a as int, k as int)),
            acc == digits_value(source@.subrange(a as int, k as int)),
            0 <= acc <= i32::MAX,
        decreases b - k,
    {
        let c = source.get_char(k);
        if !is_digit(c) {
            proof {
                assert(text[k - a] == source@[k as int]);
                assert(!all_digit_chars(text));
            }
            return None;
        }
        let d = (c as u32 - 48) as i64;
        let next = acc * 10 + d;
        proof {
            let shorter = source@.subrange(a as int, k as int);
            let longer = source@.subrange(a as int, k + 1);
            assert(longer.drop_last() =~= shorter);
            assert(longer.last() == source@[k as int]);
            assert(digits_value(longer) == next);
            assert(all_digit_chars(longer)) by {
                assert(forall|kk: int|
                    0 <= kk < longer.len() - 1 ==> #[trigger] longer[kk] == shorter[kk]);
            }
        }
        if next > 0x7fff_ffffi64 {
            proof {
                let longer = source@.subrange(a as int, k + 1);
                if all_digit_chars(text) {
                    assert(longer =~= text.subrange(0, k + 1 - a));
                    lemma_digits_value_prefix(text, k + 1 - a);
                }
            }
            return None;
        }
        acc = next;
        k = k + 1;
    }
    proof {
        assert(source@.subrange(a as int, k as int) =~= text);
    }
    Some(acc as i32)
}

// ---------------------------------------------------------------------------
// Reserved words
// ---------------------------------------------------------------------------

pub open spec fn kw_for() -> Seq<char> {
    seq!['f', 'o', 'r']
}

pub open spec fn kw_if() -> Seq<char> {
    seq!['i', 'f']
}

pub open spec fn kw_else() -> Seq<char> {
    seq!['e', 'l', 's', 'e']
}

/// Whether the text `[a, b)` of `source` is exactly the word `for`.
fn run_is_for(source: &str, a: usize, b: usize) -> (r: bool)
    requires
        a <= b <= source@.len(),
    ensures
        r == (source@.subrange(a as int, b as int) == kw_for()),
{
    let ghost w = source@.subrange(a as int, b as int);
    if b - a == 3 {
        let r = source.get_char(a) == 'f' && source.get_char(a + 1) == 'o' && source.get_char(
            a + 2,
        ) == 'r';
        proof {
            if r {
                assert(w =~= kw_for());
            } else {
                assert(w[0] == source@[a as int]);
                assert(w[1] == source@[a + 1]);
                assert(w[2] == source@[a + 2]);
            }
        }
        r
    } else {
        proof {
            assert(w.len() != 3);
        }
        false
    }
}

/// Whether the text `[a, b)` of `source` is exactly the word `if`.
fn run_is_if(source: &str, a: usize, b: usize) -> (r: bool)
    requires
        a <= b <= source@.len(),
    ensures
        r == (source@.subrange(a as int, b as int) == kw_if()),
{
    let ghost w = source@.subrange(a as int, b as int);
    if b - a == 2 {
        let r = source.get_char(a) == 'i' && source.get_char(a + 1) == 'f';
        proof {
            if r {
                assert(w =~= kw_if());
            } else {
                assert(w[0] == source@[a as int]);
                assert(w[1] == source@[a + 1]);
            }
        }
        r
    } else {
        proof {
            assert(w.len() != 2);
        }
        false
    }
}

/// Whether the text `[a, b)` of `source` is exactly the word `else`.
fn run_is_else(source: &str, a: usize, b: usize) -> (r: bool)
    requires
        a <= b <= source@.len(),
    ensures
        r == (source@.subrange(a as int, b as int) == kw_else()),
{
    let ghost w = source@.subrange(a as int, b as int);
    if b - a == 4 {
        let r = source.get_char(a) == 'e' && source.get_char(a + 1) == 'l' && source.get_char(
            a + 2,
        ) == 's' && source.get_char(a + 3) == 'e';
        proof {
            if r {
                assert(w =~= kw_else());
            } else {
                assert(w[0] == source@[a as int]);
                assert(w[1] == source@[a + 1]);
                assert(w[2] == source@[a + 2]);
                assert(w[3] == source@[a + 3]);
            }
        }
        r
    } else {
        proof {
            assert(w.len() != 4);
        }
        false
    }
}

// ---------------------------------------------------------------------------
// Exec helpers that find the end of a run
// ---------------------------------------------------------------------------

/// First position at or after `from` that does not continue a run of blanks.
fn scan_blank_run(source: &str, from: usize) -> (end: usize)
    requires
        from <= source@.len(),
    ensures
        end as int == from + blank_run(source@, from as int),
        from <= end <= source@.len(),
{
    proof {
        lemma_blank_run_le(source@, from as int);
    }
    let len = source.unicode_len();
    let mut end = from;
    loop
        invariant
            from <= end <= len,
            len == source@.len(),
            blank_run(source@, from as int) == end - from + blank_run(source@, end as int),
        ensures
            from <= end <= len,
            blank_run(source@, from as int) == end - from + blank_run(source@, end as int),
            end == len || !is_blank_char(source@[end as int]),
        decreases len - end,
    {
        if end >= len {
            break ;
        }
        let c = source.get_char(end);
        if !is_blank(c) {
            break ;
        }
        proof {
            lemma_blank_run_le(source@, from as int);
            assert(blank_run(source@, end as int) == 1 + blank_run(source@, end + 1));
        }
        end = end + 1;
    }
    end
}

/// First position at or after `from` that does not continue an
/// alphanumeric run.
fn scan_alnum_run(source: &str, from: usize) -> (end: usize)
    requires
        from <= source@.len(),
    ensures
        end as int == from + alnum_run(source@, from as int),
        from <= end <= source@.len(),
{
    proof {
        lemma_alnum_run_le(source@, from as int);
    }
    let len = source.unicode_len();
    let mut end = from;
    loop
        invariant
            from <= end <= len,
            len == source@.len(),
            alnum_run(source@, from as int) == end - from + alnum_run(source@, end as int),
        ensures
            from <= end <= len,
            alnum_run(source@, from as int) == end - from + alnum_run(source@, end as int),
            end == len || !is_alnum_char(source@[end as int]),
        decreases len - end,
    {
        if end >= len {
            break ;
        }
        let c = source.get_char(end);
        if !c.is_alphanumeric() {
            break ;
        }
        proof {
            lemma_alnum_run_le(source@, from as int);
            assert(alnum_run(source@, end as int) == 1 + alnum_run(source@, end + 1));
        }
        end = end + 1;
    }
    end
}

/// First position at or after `from` that ends a string-literal body.
fn scan_string_run(source: &str, from: usize) -> (end: usize)
    requires
        from <= source@.len(),
    ensures
        end as int == from + string_run(source@, from as int),
        from <= end <= source@.len(),
{
    proof {
        lemma_string_run_le(source@, from as int);
    }
    let len = source.unicode_len();
    let mut end = from;
    loop
        invariant
            from <= end <= len,
            len == source@.len(),
            string_run(source@, from as int) == end - from + string_run(source@, end as int),
        ensures
            from <= end <= len,
            string_run(source@, from as int) == end - from + string_run(source@, end as int),
            end == len || source@[end as int] == '"',
        decreases len - end,
    {
        if end >= len {
            break ;
        }
        let c = source.get_char(end);
        if c == '"' {
            break ;
        }
        proof {
            lemma_string_run_le(source@, from as int);
            assert(string_run(source@, end as int) == 1 + string_run(source@, end + 1));
        }
        end = end + 1;
    }
    end
}

// ---------------------------------------------------------------------------
// One tag-mode tokenization step
// ---------------------------------------------------------------------------

/// The maximal alphanumeric run that follows a reserved-word marker at `j`.
pub open spec fn reserved_word(s: Seq<char>, j: int) -> Seq<char> {
    s.subrange(j, j + alnum_run(s, j))
}

/// The position after a reserved-word run at `j`: the run itself and, when
/// input remains, the one character that ended the run, which the scanner
/// also consumes and discards.
pub open spec fn reserved_end(s: Seq<char>, j: int) -> int {
    if j + alnum_run(s, j) < s.len() {
        j + alnum_run(s, j) + 1
    } else {
        j + alnum_run(s, j)
    }
}

/// One step of tag-mode tokenization at position `j`: the token produced,
/// if any, and the position of the first unread character. A lone `=`, a
/// digit-led run that is not a numeral in range, and any unclassified
/// character produce no token and are dropped.
pub open spec fn consume_at(s: Seq<char>, j: int) -> (Option<TokenModel>, int)
    recommends
        0 <= j < s.len(),
{
    let c = s[j];
    if c == '.' {
        (Some(TokenModel::Dot), j + 1)
    } else if c == '+' {
        (Some(TokenModel::Plus), j + 1)
    } else if c == '-' {
        (Some(TokenModel::Minus), j + 1)
    } else if c == '*' {
        (Some(TokenModel::Star), j + 1)
    } else if c == '!' {
        if j + 1 < s.len() && s[j + 1] == '=' {
            (Some(TokenModel::BangEqual), j + 2)
        } else {
            (Some(TokenModel::Bang), j + 1)
        }
    } else if c == '=' {
        if j + 1 < s.len() && s[j + 1] == '=' {
            (Some(TokenModel::Equal), j + 2)
        } else {
            (None, j + 1)
        }
    } else if c == '>' {
        if j + 1 < s.len() && s[j + 1] == '=' {
            (Some(TokenModel::GreaterEqual), j + 2)
        } else {
            (Some(TokenModel::Greater), j + 1)
        }
    } else if c == '<' {
        if j + 1 < s.len() && s[j + 1] == '=' {
            (Some(TokenModel::LessEqual), j + 2)
        } else {
            (Some(TokenModel::Less), j + 1)
        }
    } else if c == '/' {
        let w = reserved_word(s, j + 1);
        let t = if w == kw_for() {
            TokenModel::ForClose
        } else if w == kw_if() {
            TokenModel::IfClose
        } else {
            TokenModel::Slash
        };
        (Some(t), reserved_end(s, j + 1))
    } else if c == '#' {
        let w = reserved_word(s, j + 1);
        let t = if w == kw_for() {
            TokenModel::ForOpen
        } else if w == kw_if() {
            TokenModel::IfOpen
        } else {
            TokenModel::Hash
        };
        (Some(t), reserved_end(s, j + 1))
    } else if c == ':' {
        let w = reserved_word(s, j + 1);
        let t = if w == kw_else() {
            TokenModel::Else
        } else {
            TokenModel::Colon
        };
        (Some(t), reserved_end(s, j + 1))
    } else if c == '"' {
        let q = string_run(s, j + 1);
        let close = if j + 1 + q < s.len() {
            1int
        } else {
            0int
        };
        (Some(TokenModel::String(s.subrange(j + 1, j + 1 + q))), j + 1 + q + close)
    } else if is_letter_char(c) {
        let r = alnum_run(s, j + 1);
        (Some(TokenModel::Identifier(s.subrange(j, j + 1 + r))), j + 1 + r)
    } else if is_digit_char(c) {
        let r = alnum_run(s, j + 1);
        let t = match number_token_value(s.subrange(j, j + 1 + r)) {
            Some(v) => Some(TokenModel::Number(v)),
            None => None,
        };
        (t, j + 1 + r)
    } else {
        (None, j + 1)
    }
}

/// A tag-mode step always advances and never runs past the end.
pub proof fn lemma_consume_at_bounds(s: Seq<char>, j: int)
    requires
        0 <= j < s.len(),
    ensures
        j < consume_at(s, j).1 <= s.len(),
{
    lemma_alnum_run_le(s, j + 1);
    lemma_string_run_le(s, j + 1);
}

/// Classifies the characters of `source` from position `j` on as one
/// tag-mode token, exactly as `consume_at` describes it.
fn consume(source: &str, j: usize) -> (r: (Option<Token>, usize))
    requires
        j < source@.len(),
    ensures
        ({
            let (t, k) = consume_at(source@, j as int);
            r.1 as int == k && r.0.deep_view() == t
        }),
        j < r.1 <= source@.len(),
{
    proof {
        lemma_consume_at_bounds(source@, j as int);
    }
    let len = source.unicode_len();
    let c = source.get_char(j);
    if c == '.' {
        (Some(Token::Dot), j + 1)
    } else if c == '+' {
        (Some(Token::Plus), j + 1)
    } else if c == '-' {
        (Some(Token::Minus), j + 1)
    } else if c == '*' {
        (Some(Token::Star), j + 1)
    } else if c == '!' {
        if j + 1 < len && source.get_char(j + 1) == '=' {
            (Some(Token::BangEqual), j + 2)
        } else {
            (Some(Token::Bang), j + 1)
        }
    } else if c == '=' {
        if j + 1 < len && source.get_char(j + 1) == '=' {
            (Some(Token::Equal), j + 2)
        } else {
            (None, j + 1)
        }
    } else if c == '>' {
        if j + 1 < len && source.get_char(j + 1) == '=' {
            (Some(Token::GreaterEqual), j + 2)
        } else {
            (Some(Token::Greater), j + 1)
        }
    } else if c == '<' {
        if j + 1 < len && source.get_char(j + 1) == '=' {
            (Some(Token::LessEqual), j + 2)
        } else {
            (Some(Token::Less), j + 1)
        }
    } else if c == '/' {
        let e = scan_alnum_run(source, j + 1);
        let t = if run_is_for(source, j + 1, e) {
            Token::ForClose
        } else if run_is_if(source, j + 1, e) {
            Token::IfClose
        } else {
            Token::Slash
        };
        let k = if e < len {
            e + 1
        } else {
            e
        };
        (Some(t), k)
    } else if c == '#' {
        let e = scan_alnum_run(source, j + 1);
        let t = if run_is_for(source, j + 1, e) {
            Token::ForOpen
        } else if run_is_if(source, j + 1, e) {
            Token::IfOpen
        } else {
            Token::Hash
        };
        let k = if e < len {
            e + 1
        } else {
            e
        };
        (Some(t), k)
    } else if c == ':' {
        let e = scan_alnum_run(source, j + 1);
        let t = if run_is_else(source, j + 1, e) {
            Token::Else
        } else {
            Token::Colon
        };
        let k = if e < len {
            e + 1
        } else {
            e
        };
        (Some(t), k)
    } else if c == '"' {
        let e = scan_string_run(source, j + 1);
        let t = Token::String(source.substring_char(j + 1, e).to_owned());
        let k = if e < len {
            e + 1
        } else {
            e
        };
        (Some(t), k)
    } else if is_letter(c) {
        let e = scan_alnum_run(source, j + 1);
        (Some(Token::Identifier(source.substring_char(j, e).to_owned())), e)
    } else if is_digit(c) {
        let e = scan_alnum_run(source, j + 1);
        match parse_number(source, j, e) {
            Some(v) => (Some(Token::Number(v)), e),
            None => (None, e),
        }
    } else {
        (None, j + 1)
    }
}

// ---------------------------------------------------------------------------
// The scanner
// ---------------------------------------------------------------------------

/// The pending literal-text span `[start, end)`, flushed as one `Text`
/// token when it is not empty.
pub open spec fn pending_text(s: Seq<char>, start: int, end: int) -> Seq<TokenModel> {
    if start < end {
        seq![TokenModel::Text(s.subrange(start, end))]
    } else {
        Seq::empty()
    }
}

/// The scanner in literal-text mode at position `i`, with unflushed text
/// beginning at `start`: a newline flushes the pending text and becomes a
/// token of its own; a run of blanks beginning with a space becomes a
/// `Space` token when it is longer than one blank or begins at `start`,
/// and is otherwise left inside the surrounding text; two consecutive
/// colons open a tag; every other character is passed over.
pub open spec fn scan_text_from(s: Seq<char>, i: int, start: int) -> Seq<TokenModel>
    recommends
        0 <= start <= i <= s.len(),
    decreases s.len() - i
        when 0 <= i <= s.len()
{
    if i >= s.len() {
        pending_text(s, start, s.len() as int)
    } else if s[i] == '\n' {
        pending_text(s, start, i) + seq![TokenModel::NewLine] + scan_text_from(s, i + 1, i + 1)
    } else if s[i] == ' ' {
        let n = 1 + blank_run(s, i + 1);
        proof {
            lemma_blank_run_le(s, i + 1);
        }
        if n > 1 || start == i {
            pending_text(s, start, i) + seq![TokenModel::Space(n as int)] + scan_text_from(
                s,
                i + n,
                i + n,
            )
        } else {
            scan_text_from(s, i + 1, start)
        }
    } else if s[i] == ':' && i + 1 < s.len() && s[i + 1] == ':' {
        pending_text(s, start, i) + seq![TokenModel::DelimiterLeft] + scan_tag_from(
            s,
            i + 2,
            i + 1,
        )
    } else {
        scan_text_from(s, i + 1, start)
    }
}

/// The scanner in tag mode at position `j`: two consecutive colons close
/// the tag and return to literal-text mode just past them; any other
/// character is classified by `consume_at`. Input that ends inside a tag
/// leaves the pending-text marker where the opening delimiter put it: on
/// the second colon of the opening `::`.
pub open spec fn scan_tag_from(s: Seq<char>, j: int, start: int) -> Seq<TokenModel>
    recommends
        0 <= j <= s.len(),
    decreases s.len() - j
        when 0 <= j <= s.len()
{
    if j >= s.len() {
        pending_text(s, start, s.len() as int)
    } else if s[j] == ':' && j + 1 < s.len() && s[j + 1] == ':' {
        seq![TokenModel::DelimiterRight] + scan_text_from(s, j + 2, j + 2)
    } else {
        let step = consume_at(s, j);
        proof {
            lemma_consume_at_bounds(s, j);
        }
        match step.0 {
            Some(t) => seq![t] + scan_tag_from(s, step.1, start),
            None => scan_tag_from(s, step.1, start),
        }
    }
}

/// The token sequence of the whole source text.
pub open spec fn scan_model(s: Seq<char>) -> Seq<TokenModel> {
    scan_text_from(s, 0, 0)
}

/// Scans the source text and returns its tokens, exactly the sequence
/// that `scan_model` describes. The length bound keeps the recorded
/// length of a run of blanks inside the `i32` that a `Space` token holds.
pub fn scan(source: &str) -> (tokens: Vec<Token>)
    requires
        source@.len() <= i32::MAX as int,
    ensures
        tokens.deep_view() == scan_model(source@),
{
    let len = source.unicode_len();
    let mut tokens: Vec<Token> = Vec::new();
    let mut i: usize = 0;
    let mut start: usize = 0;
    proof {
        assert(tokens.deep_view() =~= Seq::<TokenModel>::empty());
        assert(Seq::<TokenModel>::empty() + scan_text_from(source@, 0, 0) =~= scan_text_from(
            source@,
            0,
            0,
        ));
    }
    while i < len
        invariant
            len == source@.len(),
            source@.len() <= i32::MAX as int,
            start <= i <= len,
            scan_model(source@) == tokens.deep_view() + scan_text_from(
                source@,
                i as int,
                start as int,
            ),
        decreases len - i,
    {
        let ghost pre = tokens.deep_view();
        let ghost ibody = i as int;
        let c = source.get_char(i);
        if c == '\n' {
            if start < i {
                tokens.push(Token::Text(source.substring_char(start, i).to_owned()));
            }
            tokens.push(Token::NewLine);
            proof {
                let p = pending_text(source@, start as int, i as int);
                let rest = scan_text_from(source@, i + 1, i + 1);
                assert(tokens.deep_view() =~= pre + p + seq![TokenModel::NewLine]);
                assert(scan_text_from(source@, i as int, start as int) == p + seq![
                    TokenModel::NewLine,
                ] + rest);
                assert(pre + (p + seq![TokenModel::NewLine] + rest) =~= (pre + p + seq![
                    TokenModel::NewLine,
                ]) + rest);
            }
            i = i + 1;
            start = i;
        } else if c == ' ' {
            let e = scan_blank_run(source, i + 1);
            let n = e - i;
            if n > 1 || start == i {
                if start < i {
                    tokens.push(Token::Text(source.substring_char(start, i).to_owned()));
                }
                tokens.push(Token::Space(n as i32));
                proof {
                    let p = pending_text(source@, start as int, i as int);
                    let rest = scan_text_from(source@, i + n, i + n);
                    assert(tokens.deep_view() =~= pre + p + seq![TokenModel::Space(n as int)]);
                    assert(scan_text_from(source@, i as int, start as int) == p + seq![
                        TokenModel::Space(n as int),
                    ] + rest);
                    assert(pre + (p + seq![TokenModel::Space(n as int)] + rest) =~= (pre + p
                        + seq![TokenModel::Space(n as int)]) + rest);
                }
                i = e;
                start = e;
            } else {
                proof {
                    assert(scan_text_from(source@, i as int, start as int) == scan_text_from(
                        source@,
                        i + 1,
                        start as int,
                    ));
                }
                i = i + 1;
            }
        } else {
            let mut plain = true;
            if c == ':' {
                if i + 1 < len {
                    if source.get_char(i + 1) == ':' {
                        plain = false;
                        if start < i {
                            tokens.push(Token::Text(source.substring_char(start, i).to_owned()));
                        }
                        tokens.push(Token::DelimiterLeft);
                        proof {
                            let p = pending_text(source@, start as int, i as int);
                            let rest = scan_tag_from(source@, i + 2, i + 1);
                            assert(tokens.deep_view() =~= pre + p + seq![
                                TokenModel::DelimiterLeft,
                            ]);
                            assert(scan_text_from(source@, i as int, start as int) == p + seq![
                                TokenModel::DelimiterLeft,
                            ] + rest);
                            assert(pre + (p + seq![TokenModel::DelimiterLeft] + rest) =~= (pre + p
                                + seq![TokenModel::DelimiterLeft]) + rest);
                        }
                        start = i + 1;
                        i = i + 2;
                        let mut in_tag = true;
                        while in_tag && i < len
                            invariant
                                len == source@.len(),
                                source@.len() <= i32::MAX as int,
                                ibody < i <= len,
                                in_tag ==> start <= len && scan_model(source@)
                                    == tokens.deep_view() + scan_tag_from(
                                    source@,
                                    i as int,
                                    start as int,
                                ),
                                !in_tag ==> start <= i && scan_model(source@)
                                    == tokens.deep_view() + scan_text_from(
                                    source@,
                                    i as int,
                                    start as int,
                                ),
                            decreases len - i,
                        {
                            let ghost pre2 = tokens.deep_view();
                            let cc = source.get_char(i);
                            let mut closed = false;
                            if cc == ':' {
                                if i + 1 < len {
                                    if source.get_char(i + 1) == ':' {
                                        closed = true;
                                        tokens.push(Token::DelimiterRight);
                                        proof {
                                            let rest = scan_text_from(source@, i + 2, i + 2);
                                            assert(tokens.deep_view() =~= pre2 + seq![
                                                TokenModel::DelimiterRight,
                                            ]);
                                            assert(scan_tag_from(source@, i as int, start as int)
                                                == seq![TokenModel::DelimiterRight] + rest);
                                            assert(pre2 + (seq![TokenModel::DelimiterRight] + rest)
                                                =~= (pre2 + seq![TokenModel::DelimiterRight])
                                                + rest);
                                        }
                                        i = i + 2;
                                        start = i;
                                        in_tag = false;
                                    }
                                }
                            }
                            if !closed {
                                let r = consume(source, i);
                                proof {
                                    let step = consume_at(source@, i as int);
                                    lemma_consume_at_bounds(source@, i as int);
                                    let rest = scan_tag_from(source@, step.1, start as int);
                                    match step.0 {
                                        Some(t) => {
                                            assert(scan_tag_from(source@, i as int, start as int)
                                                == seq![t] + rest);
                                        },
                                        None => {
                                            assert(scan_tag_from(source@, i as int, start as int)
                                                == rest);
                                        },
                                    }
                                }
                                match r.0 {
                                    Some(tok) => {
                                        let ghost tv = tok.deep_view();
                                        tokens.push(tok);
                                        proof {
                                            let rest = scan_tag_from(
                                                source@,
                                                r.1 as int,
                                                start as int,
                                            );
                                            assert(tokens.deep_view() =~= pre2 + seq![tv]);
                                            assert(pre2 + (seq![tv] + rest) =~= (pre2 + seq![tv])
                                                + rest);
                                        }
                                    },
                                    None => {
                                    },
                                }
                                i = r.1;
                            }
                        }
                        proof {
                            if in_tag {
                                assert(scan_tag_from(source@, i as int, start as int)
                                    == pending_text(source@, start as int, len as int));
                                assert(scan_text_from(source@, i as int, start as int)
                                    == pending_text(source@, start as int, len as int));
                            }
                        }
                    }
                }
            }
            if plain {
                proof {
                    assert(scan_text_from(source@, i as int, start as int) == scan_text_from(
                        source@,
                        i + 1,
                        start as int,
                    ));
                }
                i = i + 1;
            }
        }
    }
    proof {
        assert(scan_text_from(source@, i as int, start as int) == pending_text(
            source@,
            start as int,
            len as int,
        ));
    }
    let ghost pre3 = tokens.deep_view();
    if start < len {
        tokens.push(Token::Text(source.substring_char(start, len).to_owned()));
        proof {
            assert(tokens.deep_view() =~= pre3 + pending_text(
                source@,
                start as int,
                len as int,
            ));
        }
    } else {
        proof {
            assert(pre3 + pending_text(source@, start as int, len as int) =~= pre3);
        }
    }
    tokens
}


} // verus!
