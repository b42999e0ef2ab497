use vstd::prelude::*;

use crate::models::TokenModel;
use crate::scanner::blank_run;
use crate::scanner::is_blank_char;
use crate::scanner::lemma_blank_run_le;
use crate::scanner::pending_text;
use crate::scanner::scan_model;
use crate::scanner::scan_text_from;
use crate::spaces;

verus! {

// ---------------------------------------------------------------------------
// Scanning literal text loses nothing
// ---------------------------------------------------------------------------

/// The literal text a token contributes when the fragment grammar expands
/// it: its own text for `Text`, a run of spaces for `Space`, a newline for
/// `NewLine`, and nothing for every other token.
pub open spec fn token_text(t: TokenModel) -> Seq<char> {
    match t {
        TokenModel::Text(x) => x,
        TokenModel::Space(n) => spaces(n),
        TokenModel::NewLine => seq!['\n'],
        _ => Seq::empty(),
    }
}

/// The concatenated literal text of a token sequence.
pub open spec fn tokens_text(ts: Seq<TokenModel>) -> Seq<char>
    decreases ts.len(),
{
    if ts.len() == 0 {
        Seq::empty()
    } else {
        token_text(ts.first()) + tokens_text(ts.drop_first())
    }
}

/// The text holds no two consecutive colons, so the scanner never leaves
/// literal-text mode on it.
pub open spec fn no_delimiter(s: Seq<char>) -> bool {
    forall|k: int| 0 <= k && k + 1 < s.len() ==> !((#[trigger] s[k]) == ':' && s[k + 1] == ':')
}

/// The text holds no tab. A tab inside a run of blanks is counted into the
/// run's length but expanded back as a space, so reconstruction is exact
/// only without tabs.
pub open spec fn no_tab(s: Seq<char>) -> bool {
    forall|k: int| 0 <= k < s.len() ==> (#[trigger] s[k]) != '\t'
}

proof fn lemma_tokens_text_concat(a: Seq<TokenModel>, b: Seq<TokenModel>)
    ensures
        tokens_text(a + b) == tokens_text(a) + tokens_text(b),
    decreases a.len(),
{
    if a.len() == 0 {
        assert(a + b =~= b);
        assert(tokens_text(a) + tokens_text(b) =~= tokens_text(b));
    } else {
        assert((a + b).len() > 0);
        assert((a + b).first() == a.first());
        assert((a + b).drop_first() =~= a.drop_first() + b);
        lemma_tokens_text_concat(a.drop_first(), b);
        assert(token_text(a.first()) + (tokens_text(a.drop_first()) + tokens_text(b)) =~= (
        token_text(a.first()) + tokens_text(a.drop_first())) + tokens_text(b));
    }
}

proof fn lemma_tokens_text_single(t: TokenModel)
    ensures
        tokens_text(seq![t]) == token_text(t),
{
    let one = seq![t];
    assert(one.len() == 1);
    assert(one.first() == t);
    assert(one.drop_first() =~= Seq::<TokenModel>::empty());
    assert(tokens_text(one.drop_first()) == Seq::<char>::empty());
    assert(tokens_text(one) == token_text(t) + Seq::<char>::empty());
    assert(token_text(t) + Seq::<char>::empty() =~= token_text(t));
}

proof fn lemma_pending_text_content(s: Seq<char>, a: int, b: int)
    requires
        0 <= a <= b <= s.len(),
    ensures
        tokens_text(pending_text(s, a, b)) == s.subrange(a, b),
{
    if a < b {
        lemma_tokens_text_single(TokenModel::Text(s.subrange(a, b)));
    } else {
        assert(s.subrange(a, b) =~= Seq::<char>::empty());
    }
}

proof fn lemma_blank_run_chars(s: Seq<char>, j: int)
    requires
        0 <= j <= s.len(),
    ensures
        forall|k: int| j <= k < j + blank_run(s, j) ==> is_blank_char(#[trigger] s[k]),
    decreases s.len() - j,
{
    if j < s.len() && is_blank_char(s[j]) {
        lemma_blank_run_chars(s, j + 1);
    }
}

proof fn lemma_spaces_subrange(s: Seq<char>, a: int, n: int)
    requires
        0 <= a,
        0 <= n,
        a + n <= s.len(),
        forall|k: int| a <= k < a + n ==> (#[trigger] s[k]) == ' ',
    ensures
        s.subrange(a, a + n) =~= spaces(n),
    decreases n,
{
    if n > 0 {
        lemma_spaces_subrange(s, a, n - 1);
        assert(s.subrange(a, a + n) =~= s.subrange(a, a + n - 1).push(s[a + n - 1]));
    }
}

proof fn lemma_scan_text_reconstructs(s: Seq<char>, i: int, start: int)
    requires
        0 <= start <= i <= s.len(),
        no_delimiter(s),
        no_tab(s),
    ensures
        tokens_text(scan_text_from(s, i, start)) == s.subrange(start, s.len() as int),
    decreases s.len() - i,
{
    let len = s.len() as int;
    if i >= len {
        lemma_pending_text_content(s, start, len);
    } else if s[i] == '\n' {
        lemma_scan_text_reconstructs(s, i + 1, i + 1);
        let p = pending_text(s, start, i);
        let rest = scan_text_from(s, i + 1, i + 1);
        lemma_pending_text_content(s, start, i);
        lemma_tokens_text_single(TokenModel::NewLine);
        lemma_tokens_text_concat(p + seq![TokenModel::NewLine], rest);
        lemma_tokens_text_concat(p, seq![TokenModel::NewLine]);
        assert(s.subrange(start, i) + seq!['\n'] + s.subrange(i + 1, len) =~= s.subrange(
            start,
            len,
        ));
    } else if s[i] == ' ' {
        let n = 1 + blank_run(s, i + 1);
        lemma_blank_run_le(s, i + 1);
        if n > 1 || start == i {
            lemma_scan_text_reconstructs(s, i + n, i + n);
            let p = pending_text(s, start, i);
            let sp = seq![TokenModel::Space(n as int)];
            let rest = scan_text_from(s, i + n, i + n);
            lemma_pending_text_content(s, start, i);
            lemma_tokens_text_single(TokenModel::Space(n as int));
            lemma_tokens_text_concat(p + sp, rest);
            lemma_tokens_text_concat(p, sp);
            lemma_blank_run_chars(s, i + 1);
            assert(forall|k: int| i <= k < i + n ==> (#[trigger] s[k]) == ' ');
            lemma_spaces_subrange(s, i, n as int);
            assert(s.subrange(start, i) + spaces(n as int) + s.subrange(i + n, len)
                =~= s.subrange(start, len));
        } else {
            lemma_scan_text_reconstructs(s, i + 1, start);
        }
    } else {
        assert(!(s[i] == ':' && i + 1 < s.len() && s[i + 1] == ':'));
        lemma_scan_text_reconstructs(s, i + 1, start);
    }
}

/// For source text with no `::` and no tab, the scan loses nothing: the
/// literal text of its tokens, expanded the way the fragment grammar
/// expands them, concatenates back to exactly the original text.
pub proof fn lemma_scan_reconstructs_source(s: Seq<char>)
    requires
        no_delimiter(s),
        no_tab(s),
    ensures
        tokens_text(scan_model(s)) == s,
{
    lemma_scan_text_reconstructs(s, 0, 0);
    assert(s.subrange(0, s.len() as int) =~= s);
}

// ---------------------------------------------------------------------------
// Single inline spaces stay literal; longer runs become Space tokens
// ---------------------------------------------------------------------------

/// A character that continues an ordinary word: no blank, no newline, no
/// colon.
pub open spec fn plain_word_char(c: char) -> bool {
    c != ' ' && c != '\t' && c != '\n' && c != ':'
}

/// Every character of `w` continues an ordinary word.
pub open spec fn all_plain(w: Seq<char>) -> bool {
    forall|k: int| 0 <= k < w.len() ==> plain_word_char(#[trigger] w[k])
}

proof fn lemma_plain_skip(s: Seq<char>, i: int, j: int, start: int)
    requires
        0 <= start <= i <= j <= s.len(),
        forall|k: int| i <= k < j ==> plain_word_char(#[trigger] s[k]),
    ensures
        scan_text_from(s, i, start) == scan_text_from(s, j, start),
    decreases j - i,
{
    if i < j {
        lemma_plain_skip(s, i + 1, j, start);
    }
}

proof fn lemma_blank_run_exact(s: Seq<char>, j: int, m: int)
    requires
        0 <= j,
        0 <= m,
        j + m <= s.len(),
        forall|k: int| j <= k < j + m ==> (#[trigger] s[k]) == ' ',
        j + m == s.len() || !is_blank_char(s[j + m]),
    ensures
        blank_run(s, j) == m,
    decreases m,
{
    if m > 0 {
        lemma_blank_run_exact(s, j + 1, m - 1);
    }
}

proof fn lemma_quiet_region(s: Seq<char>, i: int, start: int)
    requires
        0 <= start < i <= s.len(),
        forall|k: int| i <= k < s.len() ==> (#[trigger] s[k]) != '\n' && s[k] != '\t',
        forall|k: int|
            i <= k < s.len() ==> !((#[trigger] s[k]) == ':' && k + 1 < s.len() && s[k + 1] == ':'),
        forall|k: int|
            i <= k < s.len() && (#[trigger] s[k]) == ' ' ==> (k + 1 == s.len() || !is_blank_char(
                s[k + 1],
            )),
    ensures
        scan_text_from(s, i, start) == seq![TokenModel::Text(s.subrange(start, s.len() as int))],
    decreases s.len() - i,
{
    if i < s.len() {
        if s[i] == ' ' {
            assert(blank_run(s, i + 1) == 0);
            lemma_quiet_region(s, i + 1, start);
        } else {
            lemma_quiet_region(s, i + 1, start);
        }
    }
}

/// A single space between two words is not tokenized on its own: the two
/// words and the space between them stay one literal `Text` token, with no
/// `Space` token anywhere.
pub proof fn lemma_single_inline_space(w1: Seq<char>, w2: Seq<char>)
    requires
        w1.len() > 0,
        all_plain(w1),
        all_plain(w2),
    ensures
        scan_model(w1 + seq![' '] + w2) == seq![TokenModel::Text(w1 + seq![' '] + w2)],
{
    let s = w1 + seq![' '] + w2;
    let p = w1.len() as int;
    let len = s.len() as int;
    assert(len == p + 1 + w2.len());
    assert(forall|k: int| 0 <= k < p ==> (#[trigger] s[k]) == w1[k]);
    assert(s[p] == ' ');
    assert(forall|k: int| p + 1 <= k < len ==> (#[trigger] s[k]) == w2[k - p - 1]);
    lemma_plain_skip(s, 0, 1, 0);
    lemma_quiet_region(s, 1, 0);
    assert(s.subrange(0, len) =~= s);
}

proof fn lemma_spaces_chars(n: int)
    requires
        0 <= n,
    ensures
        spaces(n).len() == n,
        forall|k: int| 0 <= k < n ==> (#[trigger] spaces(n)[k]) == ' ',
    decreases n,
{
    if n > 0 {
        lemma_spaces_chars(n - 1);
    }
}

/// A run of two or more spaces between two words is tokenized: the text
/// falls apart into the first word, a `Space` token holding the run's
/// length, and the second word.
pub proof fn lemma_multi_space_run(w1: Seq<char>, n: int, w2: Seq<char>)
    requires
        w1.len() > 0,
        w2.len() > 0,
        n >= 2,
        all_plain(w1),
        all_plain(w2),
    ensures
        scan_model(w1 + spaces(n) + w2) == seq![
            TokenModel::Text(w1),
            TokenModel::Space(n),
            TokenModel::Text(w2),
        ],
{
    lemma_spaces_chars(n);
    let s = w1 + spaces(n) + w2;
    let p = w1.len() as int;
    let len = s.len() as int;
    assert(len == p + n + w2.len());
    assert(forall|k: int| 0 <= k < p ==> (#[trigger] s[k]) == w1[k]);
    assert(forall|k: int| p <= k < p + n ==> (#[trigger] s[k]) == ' ');
    assert(forall|k: int| p + n <= k < len ==> (#[trigger] s[k]) == w2[k - p - n]);
    lemma_plain_skip(s, 0, p, 0);
    assert(s[p] == ' ');
    lemma_blank_run_exact(s, p + 1, n - 1);
    assert(scan_text_from(s, p, 0) == pending_text(s, 0, p) + seq![TokenModel::Space(n)]
        + scan_text_from(s, p + n, p + n));
    lemma_plain_skip(s, p + n, len, p + n);
    assert(scan_text_from(s, len, p + n) == pending_text(s, p + n, len));
    assert(s.subrange(0, p) =~= w1);
    assert(s.subrange(p + n, len) =~= w2);
    assert(pending_text(s, 0, p) + seq![TokenModel::Space(n)] + pending_text(s, p + n, len) =~= seq![
        TokenModel::Text(w1),
        TokenModel::Space(n),
        TokenModel::Text(w2),
    ]);
}

} // verus!
