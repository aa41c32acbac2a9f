//! Normalization of raw chat text into the clean form the Markov data set
//! stores. An ordered rule set strips links, mention markup and punctuation,
//! collapses residual raw ids, line feeds and runs of spaces, and folds
//! capitalized words to lower case; the rules are repeated to a fixed point
//! and the result is trimmed.

use vstd::prelude::*;

use crate::textprocessing::{chars_to_string, is_ws_char, lemma_word_len, str_to_chars, word_len, ws_char};

verus! {

// ---------------------------------------------------------------------------
// Character classes
// ---------------------------------------------------------------------------

pub open spec fn is_digit_char(ch: char) -> bool {
    '0' <= ch && ch <= '9'
}

pub open spec fn is_lower_char(ch: char) -> bool {
    'a' <= ch && ch <= 'z'
}

pub open spec fn is_upper_char(ch: char) -> bool {
    'A' <= ch && ch <= 'Z'
}

/// Characters a bare domain may start with.
pub open spec fn is_domain_char(ch: char) -> bool {
    is_lower_char(ch) || is_digit_char(ch)
}

/// Characters that may continue a capitalized word.
pub open spec fn is_word_tail_char(ch: char) -> bool {
    is_lower_char(ch) || is_digit_char(ch) || ch == '_' || ch == '-'
}

/// Characters an emote name may consist of.
pub open spec fn is_name_char(ch: char) -> bool {
    is_lower_char(ch) || is_upper_char(ch) || is_digit_char(ch) || ch == '_'
}

/// The punctuation and symbol characters that are stripped.
pub open spec fn is_punct_char(ch: char) -> bool {
    ch == ',' || ch == '.' || ch == '!' || ch == '"' || ch == '#' || ch == '$' || ch == '(' || ch
        == ')' || ch == '=' || ch == '?' || ch == '*' || ch == '<' || ch == '>' || ch == '{' || ch
        == '}' || ch == '[' || ch == ']' || ch == '\\' || ch == '|' || ch == '@' || ch == ';' || ch
        == ':' || ch == '+' || ch == '~' || ch == '^' || ch == '`' || ch == '\u{141}' || ch
        == '\u{142}' || ch == '\u{2c7}' || ch == '\u{2d8}' || ch == '\u{b0}' || ch == '\u{2db}'
        || ch == '\u{b4}' || ch == '\u{2dd}'
}

/// The lower-case form of an upper-case ASCII letter; other characters keep
/// their shape.
pub open spec fn lower_char(ch: char) -> char {
    match ch {
        'A' => 'a',
        'B' => 'b',
        'C' => 'c',
        'D' => 'd',
        'E' => 'e',
        'F' => 'f',
        'G' => 'g',
        'H' => 'h',
        'I' => 'i',
        'J' => 'j',
        'K' => 'k',
        'L' => 'l',
        'M' => 'm',
        'N' => 'n',
        'O' => 'o',
        'P' => 'p',
        'Q' => 'q',
        'R' => 'r',
        'S' => 's',
        'T' => 't',
        'U' => 'u',
        'V' => 'v',
        'W' => 'w',
        'X' => 'x',
        'Y' => 'y',
        'Z' => 'z',
        _ => ch,
    }
}

// ---------------------------------------------------------------------------
// Rule 1: strip links
// ---------------------------------------------------------------------------

/// The word starts with a link scheme.
pub open spec fn is_scheme_word(w: Seq<char>) -> bool {
    (w.len() >= 7 && w[0] == 'h' && w[1] == 't' && w[2] == 't' && w[3] == 'p' && w[4] == ':'
        && w[5] == '/' && w[6] == '/') || (w.len() >= 8 && w[0] == 'h' && w[1] == 't' && w[2]
        == 't' && w[3] == 'p' && w[4] == 's' && w[5] == ':' && w[6] == '/' && w[7] == '/') || (
    w.len() >= 6 && w[0] == 'f' && w[1] == 't' && w[2] == 'p' && w[3] == ':' && w[4] == '/' && w[5]
        == '/')
}

/// The length of the leading run of domain characters.
pub open spec fn domain_run(s: Seq<char>) -> nat
    decreases s.len(),
{
    if s.len() == 0 || !is_domain_char(s[0]) {
        0
    } else {
        (1 + domain_run(s.drop_first())) as nat
    }
}

/// `domain_run` is the first non-domain position, or the whole length.
pub proof fn lemma_domain_run(s: Seq<char>)
    ensures
        domain_run(s) <= s.len(),
        forall|i: int| 0 <= i < domain_run(s) ==> is_domain_char(s[i]),
        domain_run(s) < s.len() ==> !is_domain_char(s[domain_run(s) as int]),
    decreases s.len(),
{
    if s.len() == 0 || !is_domain_char(s[0]) {
    } else {
        lemma_domain_run(s.drop_first());
        assert forall|i: int| 0 <= i < domain_run(s) implies is_domain_char(s[i]) by {
            if i >= 1 {
                assert(s.drop_first()[i - 1] == s[i]);
            }
        }
        if domain_run(s) < s.len() {
            assert(s.drop_first()[domain_run(s.drop_first()) as int] == s[domain_run(s) as int]);
        }
    }
}

/// The word starts with one or more domain characters and then a dot.
pub open spec fn is_bare_domain(w: Seq<char>) -> bool {
    domain_run(w) >= 1 && domain_run(w) < w.len() && w[domain_run(w) as int] == '.'
}

/// A whitespace-free word that is stripped as a link.
pub open spec fn is_link_word(w: Seq<char>) -> bool {
    is_scheme_word(w) || is_bare_domain(w)
}

/// Replaces every maximal whitespace-free word that is a link with one
/// space.
pub open spec fn rule_links(s: Seq<char>) -> Seq<char>
    decreases s.len(),
    via rule_links_decreases
{
    if s.len() == 0 {
        s
    } else if is_ws_char(s[0]) {
        seq![s[0]] + rule_links(s.drop_first())
    } else {
        let k = word_len(s) as int;
        (if is_link_word(s.take(k)) {
            seq![' ']
        } else {
            s.take(k)
        }) + rule_links(s.skip(k))
    }
}

#[via_fn]
proof fn rule_links_decreases(s: Seq<char>) {
    if s.len() > 0 && !is_ws_char(s[0]) {
        lemma_word_len(s);
    }
}

// ---------------------------------------------------------------------------
// Rule 2: strip mention markup
// ---------------------------------------------------------------------------

/// One or more digits, nothing else.
pub open spec fn digits1(b: Seq<char>) -> bool {
    b.len() >= 1 && forall|i: int| 0 <= i < b.len() ==> is_digit_char(b[i])
}

/// The length of the leading run of name characters.
pub open spec fn name_run(s: Seq<char>) -> nat
    decreases s.len(),
{
    if s.len() == 0 || !is_name_char(s[0]) {
        0
    } else {
        (1 + name_run(s.drop_first())) as nat
    }
}

/// `name_run` is the first non-name position, or the whole length.
pub proof fn lemma_name_run(s: Seq<char>)
    ensures
        name_run(s) <= s.len(),
        forall|i: int| 0 <= i < name_run(s) ==> is_name_char(s[i]),
        name_run(s) < s.len() ==> !is_name_char(s[name_run(s) as int]),
    decreases s.len(),
{
    if s.len() == 0 || !is_name_char(s[0]) {
    } else {
        lemma_name_run(s.drop_first());
        assert forall|i: int| 0 <= i < name_run(s) implies is_name_char(s[i]) by {
            if i >= 1 {
                assert(s.drop_first()[i - 1] == s[i]);
            }
        }
        if name_run(s) < s.len() {
            assert(s.drop_first()[name_run(s.drop_first()) as int] == s[name_run(s) as int]);
        }
    }
}

/// A name, a colon, and digits: the tail of an emote reference.
pub open spec fn name_colon_digits(b: Seq<char>) -> bool {
    name_run(b) >= 1 && name_run(b) < b.len() && b[name_run(b) as int] == ':' && digits1(
        b.skip(name_run(b) as int + 1),
    )
}

/// The inside of an emote or animated-emote reference.
pub open spec fn emote_body(b: Seq<char>) -> bool {
    name_colon_digits(b) || (b.len() >= 1 && b[0] == ':' && name_colon_digits(b.drop_first())) || (
    b.len() >= 2 && b[0] == 'a' && b[1] == ':' && name_colon_digits(b.skip(2)))
}

/// The inside of a user or role reference: an at sign, an optional marker,
/// and digits.
pub open spec fn idref_body(b: Seq<char>) -> bool {
    (b.len() >= 2 && b[0] == '@' && digits1(b.drop_first())) || (b.len() >= 3 && b[0] == '@' && (
    b[1] == '&' || b[1] == '!') && digits1(b.skip(2)))
}

/// The inside of any bracketed id-bearing mention.
pub open spec fn mention_body(b: Seq<char>) -> bool {
    emote_body(b) || idref_body(b)
}

/// The distance to the first closing angle bracket, or the whole length.
pub open spec fn gt_run(s: Seq<char>) -> nat
    decreases s.len(),
{
    if s.len() == 0 || s[0] == '>' {
        0
    } else {
        (1 + gt_run(s.drop_first())) as nat
    }
}

/// `gt_run` is the first closing-bracket position, or the whole length.
pub proof fn lemma_gt_run(s: Seq<char>)
    ensures
        gt_run(s) <= s.len(),
        forall|i: int| 0 <= i < gt_run(s) ==> s[i] != '>',
        gt_run(s) < s.len() ==> s[gt_run(s) as int] == '>',
    decreases s.len(),
{
    if s.len() == 0 || s[0] == '>' {
    } else {
        lemma_gt_run(s.drop_first());
        assert forall|i: int| 0 <= i < gt_run(s) implies s[i] != '>' by {
            if i >= 1 {
                assert(s.drop_first()[i - 1] == s[i]);
            }
        }
        if gt_run(s) < s.len() {
            assert(s.drop_first()[gt_run(s.drop_first()) as int] == s[gt_run(s) as int]);
        }
    }
}

/// Replaces every mention — an opening bracket whose nearest closing
/// bracket encloses a mention body — with one space.
pub open spec fn rule_mentions(s: Seq<char>) -> Seq<char>
    decreases s.len(),
{
    if s.len() == 0 {
        s
    } else if s[0] != '<' {
        seq![s[0]] + rule_mentions(s.drop_first())
    } else {
        let g = 1 + gt_run(s.drop_first()) as int;
        if g < s.len() && mention_body(s.subrange(1, g)) {
            seq![' '] + rule_mentions(s.skip(g + 1))
        } else {
            seq![s[0]] + rule_mentions(s.drop_first())
        }
    }
}

// ---------------------------------------------------------------------------
// Rules 3 to 7: pointwise and local rewrites
// ---------------------------------------------------------------------------

/// Replaces every punctuation or symbol character with a space.
pub open spec fn rule_punct(s: Seq<char>) -> Seq<char> {
    Seq::new(s.len(), |i: int| if is_punct_char(s[i]) { ' ' } else { s[i] })
}

pub open spec fn all_digits(s: Seq<char>) -> bool {
    forall|i: int| 0 <= i < s.len() ==> is_digit_char(s[i])
}

/// A string consisting solely of an eighteen-digit numeral: a residual raw
/// user id.
pub open spec fn is_raw_id(s: Seq<char>) -> bool {
    s.len() == 18 && all_digits(s)
}

/// Collapses a residual raw user id to nothing.
pub open spec fn rule_raw_id(s: Seq<char>) -> Seq<char> {
    if is_raw_id(s) {
        Seq::empty()
    } else {
        s
    }
}

/// Replaces every line feed with a space.
pub open spec fn rule_line_feeds(s: Seq<char>) -> Seq<char> {
    Seq::new(s.len(), |i: int| if s[i] == '\n' { ' ' } else { s[i] })
}

/// Collapses every run of consecutive spaces to a single space.
pub open spec fn rule_spaces(s: Seq<char>) -> Seq<char>
    decreases s.len(),
{
    if s.len() == 0 {
        s
    } else if s[0] == ' ' && s.len() >= 2 && s[1] == ' ' {
        rule_spaces(s.drop_first())
    } else {
        seq![s[0]] + rule_spaces(s.drop_first())
    }
}

/// An upper-case letter that a word-tail character follows.
pub open spec fn caps_at(s: Seq<char>, i: int) -> bool {
    0 <= i < s.len() && is_upper_char(s[i]) && i + 1 < s.len() && is_word_tail_char(s[i + 1])
}

/// Folds the leading letter of every capitalized word to lower case.
pub open spec fn rule_caps(s: Seq<char>) -> Seq<char> {
    Seq::new(s.len(), |i: int| if caps_at(s, i) { lower_char(s[i]) } else { s[i] })
}

// ---------------------------------------------------------------------------
// One pass, the fixed point, and the trim
// ---------------------------------------------------------------------------

/// One pass: every rule applied once, in order.
pub open spec fn pass(s: Seq<char>) -> Seq<char> {
    rule_caps(rule_spaces(rule_line_feeds(rule_raw_id(rule_punct(rule_mentions(rule_links(s)))))))
}

/// A character that some rule still wants to rewrite in place.
pub open spec fn bad_char(ch: char) -> bool {
    is_punct_char(ch) || ch == '\n' || is_upper_char(ch)
}

pub open spec fn bad_count(s: Seq<char>) -> nat
    decreases s.len(),
{
    if s.len() == 0 {
        0
    } else {
        bad_count(s.drop_last()) + (if bad_char(s.last()) {
            1nat
        } else {
            0
        })
    }
}

/// The termination measure of the rewriting: every substitution of every
/// rule makes it strictly smaller.
pub open spec fn text_weight(s: Seq<char>) -> nat {
    s.len() + bad_count(s)
}

/// Repeats passes until one changes nothing, within the given fuel.
pub open spec fn stabilize(s: Seq<char>, fuel: nat) -> Seq<char>
    decreases fuel,
{
    if fuel == 0 {
        s
    } else {
        let p = pass(s);
        if p == s {
            s
        } else {
            stabilize(p, (fuel - 1) as nat)
        }
    }
}

/// The length of the leading whitespace run.
pub open spec fn lws(s: Seq<char>) -> nat
    decreases s.len(),
{
    if s.len() == 0 || !is_ws_char(s[0]) {
        0
    } else {
        (1 + lws(s.drop_first())) as nat
    }
}

/// The length of the trailing whitespace run.
pub open spec fn rws(s: Seq<char>) -> nat
    decreases s.len(),
{
    if s.len() == 0 || !is_ws_char(s.last()) {
        0
    } else {
        (1 + rws(s.drop_last())) as nat
    }
}

/// The text without leading and trailing whitespace.
pub open spec fn trim_spec(s: Seq<char>) -> Seq<char> {
    if lws(s) == s.len() {
        Seq::empty()
    } else {
        s.subrange(lws(s) as int, s.len() - rws(s))
    }
}

/// What normalization computes: the fixed point of the passes, trimmed.
/// The fuel suffices because every changing pass shrinks the weight.
pub open spec fn normalize_spec(s: Seq<char>) -> Seq<char> {
    trim_spec(stabilize(s, text_weight(s) + 1))
}

// ---------------------------------------------------------------------------
// What a finished text looks like
// ---------------------------------------------------------------------------

/// A maximal whitespace-free word stands at `[i, j)`.
pub open spec fn is_word_at(s: Seq<char>, i: int, j: int) -> bool {
    0 <= i < j <= s.len() && (i == 0 || is_ws_char(s[i - 1])) && (j == s.len() || is_ws_char(s[j]))
        && (forall|k: int| i <= k < j ==> !is_ws_char(s[k]))
}

/// No maximal word is a link.
pub open spec fn no_links(s: Seq<char>) -> bool {
    forall|i: int, j: int| is_word_at(s, i, j) ==> !is_link_word(s.subrange(i, j))
}

/// A mention stands between the brackets at `i` and `j`.
pub open spec fn mention_at(s: Seq<char>, i: int, j: int) -> bool {
    0 <= i < j < s.len() && s[i] == '<' && s[j] == '>' && mention_body(s.subrange(i + 1, j))
}

pub open spec fn no_mentions(s: Seq<char>) -> bool {
    forall|i: int, j: int| !mention_at(s, i, j)
}

pub open spec fn no_punct(s: Seq<char>) -> bool {
    forall|i: int| 0 <= i < s.len() ==> !is_punct_char(s[i])
}

pub open spec fn no_line_feeds(s: Seq<char>) -> bool {
    forall|i: int| 0 <= i < s.len() ==> s[i] != '\n'
}

pub open spec fn no_double_spaces(s: Seq<char>) -> bool {
    forall|i: int| 0 <= i < s.len() - 1 ==> !((#[trigger] s[i]) == ' ' && s[i + 1] == ' ')
}

pub open spec fn no_caps(s: Seq<char>) -> bool {
    forall|i: int| !caps_at(s, i)
}

/// No rule finds anything left to rewrite.
pub open spec fn is_clean(s: Seq<char>) -> bool {
    no_links(s) && no_mentions(s) && no_punct(s) && !is_raw_id(s) && no_line_feeds(s)
        && no_double_spaces(s) && no_caps(s)
}

// ---------------------------------------------------------------------------
// The weight shrinks
// ---------------------------------------------------------------------------

proof fn lemma_bad_count_concat(a: Seq<char>, b: Seq<char>)
    ensures
        bad_count(a + b) == bad_count(a) + bad_count(b),
    decreases b.len(),
{
    if b.len() == 0 {
        assert(a + b =~= a);
    } else {
        lemma_bad_count_concat(a, b.drop_last());
        assert((a + b).drop_last() =~= a + b.drop_last());
        assert((a + b).last() == b.last());
    }
}

proof fn lemma_weight_concat(a: Seq<char>, b: Seq<char>)
    ensures
        text_weight(a + b) == text_weight(a) + text_weight(b),
{
    lemma_bad_count_concat(a, b);
}

proof fn lemma_weight_single(ch: char)
    ensures
        text_weight(seq![ch]) == 1 + (if bad_char(ch) {
            1nat
        } else {
            0
        }),
{
    assert(seq![ch].drop_last() =~= Seq::<char>::empty());
    assert(seq![ch].last() == ch);
    assert(bad_count(Seq::<char>::empty()) == 0);
}

proof fn lemma_bad_count_map_le(a: Seq<char>, b: Seq<char>)
    requires
        a.len() == b.len(),
        forall|i: int| 0 <= i < b.len() ==> (bad_char(#[trigger] b[i]) ==> bad_char(a[i])),
    ensures
        bad_count(b) <= bad_count(a),
    decreases a.len(),
{
    if a.len() > 0 {
        assert(forall|i: int| 0 <= i < a.len() - 1 ==> a.drop_last()[i] == a[i]);
        assert(forall|i: int| 0 <= i < b.len() - 1 ==> b.drop_last()[i] == b[i]);
        lemma_bad_count_map_le(a.drop_last(), b.drop_last());
        assert(a.last() == a[a.len() - 1]);
        assert(b.last() == b[b.len() - 1]);
    }
}

proof fn lemma_bad_count_map_lt(a: Seq<char>, b: Seq<char>, w: int)
    requires
        a.len() == b.len(),
        forall|i: int| 0 <= i < b.len() ==> (bad_char(#[trigger] b[i]) ==> bad_char(a[i])),
        0 <= w < a.len(),
        bad_char(a[w]),
        !bad_char(b[w]),
    ensures
        bad_count(b) < bad_count(a),
    decreases a.len(),
{
    assert(forall|i: int| 0 <= i < a.len() - 1 ==> a.drop_last()[i] == a[i]);
    assert(forall|i: int| 0 <= i < b.len() - 1 ==> b.drop_last()[i] == b[i]);
    assert(a.last() == a[a.len() - 1]);
    assert(b.last() == b[b.len() - 1]);
    if w == a.len() - 1 {
        lemma_bad_count_map_le(a.drop_last(), b.drop_last());
    } else {
        lemma_bad_count_map_lt(a.drop_last(), b.drop_last(), w);
    }
}

proof fn lemma_rule_punct_facts(s: Seq<char>)
    ensures
        rule_punct(s).len() == s.len(),
        text_weight(rule_punct(s)) <= text_weight(s),
        no_punct(s) ==> rule_punct(s) == s,
        !no_punct(s) ==> text_weight(rule_punct(s)) < text_weight(s),
{
    let b = rule_punct(s);
    if no_punct(s) {
        assert(b =~= s);
    }
    assert forall|i: int| 0 <= i < b.len() implies (bad_char(#[trigger] b[i]) ==> bad_char(
        s[i],
    )) by {
        if is_punct_char(s[i]) {
            assert(b[i] == ' ');
            assert(!bad_char(' '));
        } else {
            assert(b[i] == s[i]);
        }
    }
    lemma_bad_count_map_le(s, b);
    if !no_punct(s) {
        let w = choose|w: int| 0 <= w < s.len() && is_punct_char(s[w]);
        assert(bad_char(s[w]));
        assert(b[w] == ' ');
        assert(!bad_char(b[w]));
        lemma_bad_count_map_lt(s, b, w);
    }
}

proof fn lemma_rule_line_feeds_facts(s: Seq<char>)
    ensures
        rule_line_feeds(s).len() == s.len(),
        text_weight(rule_line_feeds(s)) <= text_weight(s),
        no_line_feeds(s) ==> rule_line_feeds(s) == s,
        !no_line_feeds(s) ==> text_weight(rule_line_feeds(s)) < text_weight(s),
{
    let b = rule_line_feeds(s);
    if no_line_feeds(s) {
        assert(b =~= s);
    }
    assert forall|i: int| 0 <= i < b.len() implies (bad_char(#[trigger] b[i]) ==> bad_char(
        s[i],
    )) by {
        if s[i] == '\n' {
            assert(b[i] == ' ');
            assert(!bad_char(' '));
        } else {
            assert(b[i] == s[i]);
        }
    }
    lemma_bad_count_map_le(s, b);
    if !no_line_feeds(s) {
        let w = choose|w: int| 0 <= w < s.len() && s[w] == '\n';
        assert(bad_char(s[w]));
        assert(b[w] == ' ');
        assert(!bad_char(b[w]));
        lemma_bad_count_map_lt(s, b, w);
    }
}

proof fn lemma_lower_char_not_bad(ch: char)
    requires
        is_upper_char(ch),
    ensures
        !bad_char(lower_char(ch)),
        is_lower_char(lower_char(ch)),
{
}

proof fn lemma_rule_caps_facts(s: Seq<char>)
    ensures
        rule_caps(s).len() == s.len(),
        text_weight(rule_caps(s)) <= text_weight(s),
        no_caps(s) ==> rule_caps(s) == s,
        !no_caps(s) ==> text_weight(rule_caps(s)) < text_weight(s),
{
    let b = rule_caps(s);
    if no_caps(s) {
        assert(b =~= s);
    }
    assert forall|i: int| 0 <= i < b.len() implies (bad_char(#[trigger] b[i]) ==> bad_char(
        s[i],
    )) by {
        if caps_at(s, i) {
            lemma_lower_char_not_bad(s[i]);
            assert(b[i] == lower_char(s[i]));
        } else {
            assert(b[i] == s[i]);
        }
    }
    lemma_bad_count_map_le(s, b);
    if !no_caps(s) {
        let w = choose|w: int| caps_at(s, w);
        assert(bad_char(s[w]));
        lemma_lower_char_not_bad(s[w]);
        assert(b[w] == lower_char(s[w]));
        lemma_bad_count_map_lt(s, b, w);
    }
}

proof fn lemma_rule_raw_id_facts(s: Seq<char>)
    ensures
        text_weight(rule_raw_id(s)) <= text_weight(s),
        !is_raw_id(s) ==> rule_raw_id(s) == s,
        is_raw_id(s) ==> text_weight(rule_raw_id(s)) < text_weight(s),
{
    if is_raw_id(s) {
        assert(text_weight(Seq::<char>::empty()) == 0);
        assert(text_weight(s) >= 18);
    }
}

proof fn lemma_rule_spaces_facts(s: Seq<char>)
    ensures
        text_weight(rule_spaces(s)) <= text_weight(s),
        no_double_spaces(s) ==> rule_spaces(s) == s,
        !no_double_spaces(s) ==> text_weight(rule_spaces(s)) < text_weight(s),
    decreases s.len(),
{
    if s.len() == 0 {
    } else {
        let df = s.drop_first();
        lemma_rule_spaces_facts(df);
        assert(s =~= seq![s[0]] + df);
        lemma_weight_concat(seq![s[0]], df);
        lemma_weight_single(s[0]);
        assert(forall|i: int| 0 <= i < df.len() ==> df[i] == s[i + 1]);
        if s[0] == ' ' && s.len() >= 2 && s[1] == ' ' {
            assert(!no_double_spaces(s));
        } else {
            lemma_weight_concat(seq![s[0]], rule_spaces(df));
            if no_double_spaces(s) {
                assert forall|i: int|
                    0 <= i < df.len() - 1 implies !((#[trigger] df[i]) == ' ' && df[i + 1]
                    == ' ') by {
                    assert(df[i] == s[i + 1]);
                    assert(df[i + 1] == s[i + 2]);
                }
                assert(no_double_spaces(df));
                assert(rule_spaces(s) =~= s);
            }
            if !no_double_spaces(s) {
                let w = choose|w: int|
                    0 <= w < s.len() - 1 && (#[trigger] s[w]) == ' ' && s[w + 1] == ' ';
                assert(w >= 1);
                assert(df[w - 1] == ' ' && df[w] == ' ');
                assert(!no_double_spaces(df));
            }
        }
    }
}

#[verifier::rlimit(60)]
proof fn lemma_rule_links_facts(s: Seq<char>)
    ensures
        text_weight(rule_links(s)) <= text_weight(s),
        no_links(s) ==> rule_links(s) == s,
        !no_links(s) ==> text_weight(rule_links(s)) < text_weight(s),
    decreases s.len(),
{
    if s.len() == 0 {
        assert(no_links(s));
    } else if is_ws_char(s[0]) {
        let df = s.drop_first();
        lemma_rule_links_facts(df);
        assert(s =~= seq![s[0]] + df);
        lemma_weight_concat(seq![s[0]], df);
        lemma_weight_single(s[0]);
        lemma_weight_concat(seq![s[0]], rule_links(df));
        assert(forall|i: int| 0 <= i < df.len() ==> df[i] == s[i + 1]);
        if no_links(s) {
            assert forall|i: int, j: int| is_word_at(df, i, j) implies !is_link_word(
                df.subrange(i, j),
            ) by {
                assert(is_word_at(s, i + 1, j + 1)) by {
                    assert forall|k: int| i + 1 <= k < j + 1 implies !is_ws_char(s[k]) by {
                        assert(df[k - 1] == s[k]);
                    }
                }
                assert(df.subrange(i, j) =~= s.subrange(i + 1, j + 1));
            }
            assert(no_links(df));
            assert(rule_links(s) =~= s);
        }
        if !no_links(s) {
            let (wi, wj) = choose|wi: int, wj: int|
                is_word_at(s, wi, wj) && is_link_word(s.subrange(wi, wj));
            assert(wi >= 1) by {
                if wi == 0 {
                    assert(!is_ws_char(s[0]));
                }
            }
            assert(is_word_at(df, wi - 1, wj - 1)) by {
                assert forall|k: int| wi - 1 <= k < wj - 1 implies !is_ws_char(df[k]) by {
                    assert(df[k] == s[k + 1]);
                }
                if wi - 1 > 0 {
                    assert(df[wi - 2] == s[wi - 1]);
                }
                if wj - 1 < df.len() {
                    assert(df[wj - 1] == s[wj]);
                }
            }
            assert(df.subrange(wi - 1, wj - 1) =~= s.subrange(wi, wj));
            assert(!no_links(df));
        }
    } else {
        lemma_word_len(s);
        let k = word_len(s) as int;
        let w = s.take(k);
        let rest = s.skip(k);
        lemma_rule_links_facts(rest);
        assert(s =~= w + rest);
        lemma_weight_concat(w, rest);
        assert(forall|i: int| 0 <= i < rest.len() ==> rest[i] == s[k + i]);
        assert(forall|i: int| 0 <= i < k ==> w[i] == s[i]);
        assert(is_word_at(s, 0, k)) by {
            assert(k >= 1);
        }
        assert(w =~= s.subrange(0, k));
        if is_link_word(w) {
            assert(w.len() >= 2) by {
                if is_bare_domain(w) {
                    assert(domain_run(w) >= 1 && domain_run(w) < w.len());
                }
            }
            lemma_weight_concat(seq![' '], rule_links(rest));
            lemma_weight_single(' ');
            assert(text_weight(w) >= w.len());
            assert(!no_links(s));
        } else {
            lemma_weight_concat(w, rule_links(rest));
            if no_links(s) {
                assert forall|i: int, j: int| is_word_at(rest, i, j) implies !is_link_word(
                    rest.subrange(i, j),
                ) by {
                    assert(i >= 1) by {
                        if i == 0 {
                            assert(k < s.len());
                            assert(is_ws_char(s[k]));
                            assert(rest[0] == s[k]);
                            assert(!is_ws_char(rest[i]));
                        }
                    }
                    assert(is_word_at(s, i + k, j + k)) by {
                        assert forall|x: int| i + k <= x < j + k implies !is_ws_char(s[x]) by {
                            assert(rest[x - k] == s[x]);
                        }
                        assert(s[i + k - 1] == rest[i - 1]);
                        if j + k < s.len() {
                            assert(s[j + k] == rest[j]);
                        }
                    }
                    assert(rest.subrange(i, j) =~= s.subrange(i + k, j + k));
                }
                assert(no_links(rest));
                assert(rule_links(s) =~= s);
            }
            if !no_links(s) {
                let (wi, wj) = choose|wi: int, wj: int|
                    is_word_at(s, wi, wj) && is_link_word(s.subrange(wi, wj));
                if wi == 0 {
                    assert(wj == k) by {
                        if wj < k {
                            assert(!is_ws_char(s[wj]));
                        }
                        if wj > k {
                            assert(k < s.len());
                            assert(is_ws_char(s[k]));
                        }
                    }
                    assert(s.subrange(0, k) =~= w);
                    assert(false);
                }
                assert(wi >= k + 1) by {
                    assert(is_ws_char(s[wi - 1]));
                    if wi - 1 < k {
                        assert(!is_ws_char(s[wi - 1]));
                    }
                    if wi - 1 == k {
                    }
                }
                assert(is_word_at(rest, wi - k, wj - k)) by {
                    assert forall|x: int| wi - k <= x < wj - k implies !is_ws_char(rest[x]) by {
                        assert(rest[x] == s[x + k]);
                    }
                    assert(rest[wi - k - 1] == s[wi - 1]);
                    if wj - k < rest.len() {
                        assert(rest[wj - k] == s[wj]);
                    }
                }
                assert(rest.subrange(wi - k, wj - k) =~= s.subrange(wi, wj));
                assert(!no_links(rest));
            }
        }
    }
}

proof fn lemma_ncd_chars(b: Seq<char>, i: int)
    requires
        name_colon_digits(b),
        0 <= i < b.len(),
    ensures
        b[i] != '<' && b[i] != '>' && !is_ws_char(b[i]),
{
    let r = name_run(b) as int;
    lemma_name_run(b);
    if i < r {
        assert(is_name_char(b[i]));
    } else if i == r {
        assert(b[i] == ':');
    } else {
        assert(b.skip(r + 1)[i - r - 1] == b[i]);
        assert(is_digit_char(b[i]));
    }
}

proof fn lemma_mention_body_facts(b: Seq<char>)
    requires
        mention_body(b),
    ensures
        b.len() >= 2,
        forall|i: int|
            0 <= i < b.len() ==> (#[trigger] b[i]) != '<' && b[i] != '>' && !is_ws_char(b[i]),
{
    if name_colon_digits(b) {
        lemma_name_run(b);
        assert(digits1(b.skip(name_run(b) as int + 1)));
        assert(b.skip(name_run(b) as int + 1).len() >= 1);
        assert forall|i: int|
            0 <= i < b.len() implies (#[trigger] b[i]) != '<' && b[i] != '>' && !is_ws_char(
            b[i],
        ) by {
            lemma_ncd_chars(b, i);
        }
    } else if b.len() >= 1 && b[0] == ':' && name_colon_digits(b.drop_first()) {
        let t = b.drop_first();
        assert(t.len() >= 1);
        assert forall|i: int|
            0 <= i < b.len() implies (#[trigger] b[i]) != '<' && b[i] != '>' && !is_ws_char(
            b[i],
        ) by {
            if i >= 1 {
                assert(t[i - 1] == b[i]);
                lemma_ncd_chars(t, i - 1);
            }
        }
        lemma_name_run(t);
        assert(name_run(t) >= 1);
    } else if b.len() >= 2 && b[0] == 'a' && b[1] == ':' && name_colon_digits(b.skip(2)) {
        let t = b.skip(2);
        assert forall|i: int|
            0 <= i < b.len() implies (#[trigger] b[i]) != '<' && b[i] != '>' && !is_ws_char(
            b[i],
        ) by {
            if i >= 2 {
                assert(t[i - 2] == b[i]);
                lemma_ncd_chars(t, i - 2);
            }
        }
    } else if b.len() >= 2 && b[0] == '@' && digits1(b.drop_first()) {
        assert forall|i: int|
            0 <= i < b.len() implies (#[trigger] b[i]) != '<' && b[i] != '>' && !is_ws_char(
            b[i],
        ) by {
            if i >= 1 {
                assert(b.drop_first()[i - 1] == b[i]);
                assert(is_digit_char(b[i]));
            }
        }
    } else {
        assert(b.len() >= 3 && b[0] == '@' && (b[1] == '&' || b[1] == '!') && digits1(b.skip(2)));
        assert forall|i: int|
            0 <= i < b.len() implies (#[trigger] b[i]) != '<' && b[i] != '>' && !is_ws_char(
            b[i],
        ) by {
            if i >= 2 {
                assert(b.skip(2)[i - 2] == b[i]);
                assert(is_digit_char(b[i]));
            }
        }
    }
}

#[verifier::rlimit(60)]
proof fn lemma_rule_mentions_facts(s: Seq<char>)
    ensures
        text_weight(rule_mentions(s)) <= text_weight(s),
        no_mentions(s) ==> rule_mentions(s) == s,
        !no_mentions(s) ==> text_weight(rule_mentions(s)) < text_weight(s),
    decreases s.len(),
{
    if s.len() == 0 {
        assert(no_mentions(s));
    } else {
        let df = s.drop_first();
        assert(forall|i: int| 0 <= i < df.len() ==> df[i] == s[i + 1]);
        let g = 1 + gt_run(df) as int;
        lemma_gt_run(df);
        if s[0] == '<' && g < s.len() && mention_body(s.subrange(1, g)) {
            // the match is replaced; the weight strictly shrinks
            let body = s.subrange(1, g);
            lemma_mention_body_facts(body);
            assert(s[g] == '>') by {
                assert(df[g - 1] == s[g]);
            }
            assert(mention_at(s, 0, g));
            assert(!no_mentions(s));
            let tail = s.skip(g + 1);
            lemma_rule_mentions_facts(tail);
            assert(s =~= s.take(g + 1) + tail);
            lemma_weight_concat(s.take(g + 1), tail);
            lemma_weight_concat(seq![' '], rule_mentions(tail));
            lemma_weight_single(' ');
            assert(text_weight(s.take(g + 1)) >= s.take(g + 1).len());
            assert(s.take(g + 1).len() == g + 1);
            assert(g + 1 >= 4);
        } else {
            // the head is kept
            lemma_rule_mentions_facts(df);
            assert(s =~= seq![s[0]] + df);
            lemma_weight_concat(seq![s[0]], df);
            lemma_weight_single(s[0]);
            lemma_weight_concat(seq![s[0]], rule_mentions(df));
            if no_mentions(s) {
                assert forall|i: int, j: int| !mention_at(df, i, j) by {
                    if mention_at(df, i, j) {
                        assert(df[i] == s[i + 1]);
                        assert(df[j] == s[j + 1]);
                        assert(df.subrange(i + 1, j) =~= s.subrange(i + 2, j + 1));
                        assert(mention_at(s, i + 1, j + 1));
                    }
                }
                assert(no_mentions(df));
                assert(rule_mentions(s) =~= s);
            }
            if !no_mentions(s) {
                let (mi, mj) = choose|mi: int, mj: int| mention_at(s, mi, mj);
                assert(mi >= 1) by {
                    if mi == 0 {
                        // a mention at the head would have matched
                        let body = s.subrange(1, mj);
                        lemma_mention_body_facts(body);
                        assert(gt_run(df) == mj - 1) by {
                            if gt_run(df) < mj - 1 {
                                assert(df[gt_run(df) as int] == '>');
                                assert(body[gt_run(df) as int] == df[gt_run(df) as int]);
                            }
                            if gt_run(df) > mj - 1 {
                                assert(df[mj - 1] == s[mj]);
                            }
                        }
                        assert(g == mj);
                        assert(false);
                    }
                }
                assert(mention_at(df, mi - 1, mj - 1)) by {
                    assert(df[mi - 1] == s[mi]);
                    assert(df[mj - 1] == s[mj]);
                    assert(df.subrange(mi, mj - 1) =~= s.subrange(mi + 1, mj));
                }
                assert(!no_mentions(df));
            }
        }
    }
}

/// One pass never grows the weight; a changing pass shrinks it strictly;
/// and a pass changes nothing exactly on clean text.
proof fn lemma_pass_facts(s: Seq<char>)
    ensures
        text_weight(pass(s)) <= text_weight(s),
        pass(s) != s ==> text_weight(pass(s)) < text_weight(s),
        is_clean(s) ==> pass(s) == s,
        pass(s) == s ==> is_clean(s),
{
    let x1 = rule_links(s);
    let x2 = rule_mentions(x1);
    let x3 = rule_punct(x2);
    let x4 = rule_raw_id(x3);
    let x5 = rule_line_feeds(x4);
    let x6 = rule_spaces(x5);
    lemma_rule_links_facts(s);
    lemma_rule_mentions_facts(x1);
    lemma_rule_punct_facts(x2);
    lemma_rule_raw_id_facts(x3);
    lemma_rule_line_feeds_facts(x4);
    lemma_rule_spaces_facts(x5);
    lemma_rule_caps_facts(x6);
    if is_clean(s) {
        assert(x1 == s);
        assert(x2 == s);
        assert(x3 == s);
        assert(x4 == s);
        assert(x5 == s);
        assert(x6 == s);
        assert(pass(s) == s);
    }
    if !is_clean(s) {
        if !no_links(s) {
            assert(text_weight(x1) < text_weight(s));
        } else {
            assert(x1 == s);
            if !no_mentions(s) {
                assert(text_weight(x2) < text_weight(s));
            } else {
                assert(x2 == s);
                if !no_punct(s) {
                    assert(text_weight(x3) < text_weight(s));
                } else {
                    assert(x3 == s);
                    if is_raw_id(s) {
                        assert(text_weight(x4) < text_weight(s));
                    } else {
                        assert(x4 == s);
                        if !no_line_feeds(s) {
                            assert(text_weight(x5) < text_weight(s));
                        } else {
                            assert(x5 == s);
                            if !no_double_spaces(s) {
                                assert(text_weight(x6) < text_weight(s));
                            } else {
                                assert(x6 == s);
                                assert(!no_caps(s));
                                assert(text_weight(pass(s)) < text_weight(s));
                            }
                        }
                    }
                }
            }
        }
        assert(text_weight(pass(s)) < text_weight(s));
    }
}

/// Enough fuel carries the passes all the way to a fixed point.
proof fn lemma_stabilize_fixpoint(s: Seq<char>, fuel: nat)
    requires
        fuel >= text_weight(s) + 1,
    ensures
        pass(stabilize(s, fuel)) == stabilize(s, fuel),
    decreases fuel,
{
    let p = pass(s);
    if p == s {
    } else {
        lemma_pass_facts(s);
        lemma_stabilize_fixpoint(p, (fuel - 1) as nat);
    }
}

/// Above the weight, the amount of fuel does not matter.
proof fn lemma_stabilize_fuel(s: Seq<char>, f1: nat, f2: nat)
    requires
        f1 >= text_weight(s) + 1,
        f2 >= text_weight(s) + 1,
    ensures
        stabilize(s, f1) == stabilize(s, f2),
    decreases f1,
{
    let p = pass(s);
    if p == s {
    } else {
        lemma_pass_facts(s);
        lemma_stabilize_fuel(p, (f1 - 1) as nat, (f2 - 1) as nat);
    }
}

/// Text that a pass already fixes stays put under any fuel.
proof fn lemma_stabilize_fixed(s: Seq<char>, fuel: nat)
    requires
        pass(s) == s,
    ensures
        stabilize(s, fuel) == s,
{
    if fuel == 0 {
    } else {
    }
}

proof fn lemma_lws(s: Seq<char>)
    ensures
        lws(s) <= s.len(),
        forall|i: int| 0 <= i < lws(s) ==> is_ws_char(s[i]),
        lws(s) < s.len() ==> !is_ws_char(s[lws(s) as int]),
    decreases s.len(),
{
    if s.len() == 0 || !is_ws_char(s[0]) {
    } else {
        lemma_lws(s.drop_first());
        assert forall|i: int| 0 <= i < lws(s) implies is_ws_char(s[i]) by {
            if i >= 1 {
                assert(s.drop_first()[i - 1] == s[i]);
            }
        }
        if lws(s) < s.len() {
            assert(s.drop_first()[lws(s.drop_first()) as int] == s[lws(s) as int]);
        }
    }
}

proof fn lemma_rws(s: Seq<char>)
    ensures
        rws(s) <= s.len(),
        forall|i: int| s.len() - rws(s) <= i < s.len() ==> is_ws_char(s[i]),
        rws(s) < s.len() ==> !is_ws_char(s[s.len() - rws(s) - 1]),
    decreases s.len(),
{
    if s.len() == 0 || !is_ws_char(s.last()) {
    } else {
        lemma_rws(s.drop_last());
        assert(forall|i: int| 0 <= i < s.len() - 1 ==> s.drop_last()[i] == s[i]);
        assert(s.last() == s[s.len() - 1]);
    }
}

/// The shape of a trimmed text: the middle of the original, with
/// whitespace-free ends.
proof fn lemma_trim(s: Seq<char>)
    ensures
        lws(s) == s.len() ==> trim_spec(s) == Seq::<char>::empty(),
        lws(s) < s.len() ==> {
            let lo = lws(s) as int;
            let hi = s.len() - rws(s);
            &&& lo < hi <= s.len()
            &&& trim_spec(s).len() == hi - lo
            &&& forall|k: int| 0 <= k < hi - lo ==> trim_spec(s)[k] == s[lo + k]
            &&& !is_ws_char(trim_spec(s)[0])
            &&& !is_ws_char(trim_spec(s).last())
        },
{
    lemma_lws(s);
    lemma_rws(s);
    if lws(s) < s.len() {
        let lo = lws(s) as int;
        let hi = s.len() - rws(s) as int;
        assert(lo < hi) by {
            if lo >= hi {
                assert(s.len() - rws(s) <= lo < s.len());
                assert(is_ws_char(s[lo]));
            }
        }
        assert(rws(s) < s.len());
        assert(!is_ws_char(s[hi - 1]));
    }
}

/// Trimming text whose ends are already whitespace-free changes nothing.
proof fn lemma_trim_of_trimmed(t: Seq<char>)
    requires
        t.len() == 0 || (!is_ws_char(t[0]) && !is_ws_char(t.last())),
    ensures
        trim_spec(t) == t,
{
    if t.len() == 0 {
        assert(trim_spec(t) =~= t);
    } else {
        assert(lws(t) == 0);
        assert(rws(t) == 0);
        assert(t.subrange(0, t.len() as int) =~= t);
    }
}

/// Cleanliness survives the final trim, except that the trimmed text may
/// newly consist of a raw id.
#[verifier::rlimit(60)]
proof fn lemma_clean_trim(u: Seq<char>)
    requires
        no_links(u),
        no_mentions(u),
        no_punct(u),
        no_line_feeds(u),
        no_double_spaces(u),
        no_caps(u),
    ensures
        no_links(trim_spec(u)),
        no_mentions(trim_spec(u)),
        no_punct(trim_spec(u)),
        no_line_feeds(trim_spec(u)),
        no_double_spaces(trim_spec(u)),
        no_caps(trim_spec(u)),
{
    lemma_lws(u);
    lemma_rws(u);
    lemma_trim(u);
    lemma_lws(u);
    lemma_rws(u);
    let t = trim_spec(u);
    if lws(u) == u.len() {
        assert(t.len() == 0);
        assert(no_links(t)) by {
            assert(forall|i: int, j: int| !is_word_at(t, i, j));
        }
        assert(no_mentions(t)) by {
            assert(forall|i: int, j: int| !mention_at(t, i, j));
        }
    } else {
        let lo = lws(u) as int;
        let hi = u.len() - rws(u);
        assert(forall|k: int| 0 <= k < t.len() ==> t[k] == u[lo + k]);
        assert(no_punct(t));
        assert(no_line_feeds(t));
        assert(no_double_spaces(t));
        assert forall|i: int| !caps_at(t, i) by {
            if caps_at(t, i) {
                assert(t[i] == u[lo + i]);
                assert(t[i + 1] == u[lo + i + 1]);
                assert(caps_at(u, lo + i));
            }
        }
        assert(no_caps(t));
        assert forall|i: int, j: int| !mention_at(t, i, j) by {
            if mention_at(t, i, j) {
                assert(t[i] == u[lo + i]);
                assert(t[j] == u[lo + j]);
                assert(t.subrange(i + 1, j) =~= u.subrange(lo + i + 1, lo + j));
                assert(mention_at(u, lo + i, lo + j));
            }
        }
        assert(no_mentions(t));
        assert forall|i: int, j: int| is_word_at(t, i, j) implies !is_link_word(
            t.subrange(i, j),
        ) by {
            assert(is_word_at(u, lo + i, lo + j)) by {
                assert forall|k: int| lo + i <= k < lo + j implies !is_ws_char(u[k]) by {
                    assert(t[k - lo] == u[k]);
                }
                if i == 0 {
                    if lo > 0 {
                        assert(is_ws_char(u[lo - 1]));
                    }
                } else {
                    assert(u[lo + i - 1] == t[i - 1]);
                }
                if j == t.len() {
                    if hi < u.len() {
                        assert(is_ws_char(u[hi]));
                    }
                } else {
                    assert(u[lo + j] == t[j]);
                }
            }
            assert(t.subrange(i, j) =~= u.subrange(lo + i, lo + j));
        }
        assert(no_links(t));
    }
}

/// What normalization guarantees of its output: no rule finds anything to
/// rewrite, and the ends are free of whitespace. Only a text consisting
/// solely of an eighteen-digit numeral can remain for the raw-id rule,
/// exposed by the final trim.
pub proof fn lemma_normalize_clean(s: Seq<char>)
    ensures
        no_links(normalize_spec(s)),
        no_mentions(normalize_spec(s)),
        no_punct(normalize_spec(s)),
        no_line_feeds(normalize_spec(s)),
        no_double_spaces(normalize_spec(s)),
        no_caps(normalize_spec(s)),
        normalize_spec(s).len() == 0 || (!is_ws_char(normalize_spec(s)[0]) && !is_ws_char(
            normalize_spec(s).last(),
        )),
{
    let u = stabilize(s, text_weight(s) + 1);
    assert(normalize_spec(s) == trim_spec(u));
    lemma_stabilize_fixpoint(s, text_weight(s) + 1);
    lemma_pass_facts(u);
    lemma_clean_trim(u);
    lemma_trim(u);
    lemma_lws(u);
    lemma_rws(u);
    if lws(u) == u.len() {
        assert(trim_spec(u).len() == 0);
    } else {
        assert(trim_spec(u).len() > 0);
        assert(!is_ws_char(trim_spec(u)[0]));
        assert(!is_ws_char(trim_spec(u).last()));
    }
}

/// Law: normalization is idempotent. Normalizing an already normalized
/// text changes nothing — except when the normalized text consists solely
/// of an eighteen-digit numeral, which the raw-id rule, unblocked by the
/// final trim, would still collapse; that case is left out.
pub proof fn lemma_normalize_idempotent(s: Seq<char>)
    requires
        !is_raw_id(normalize_spec(s)),
    ensures
        normalize_spec(normalize_spec(s)) == normalize_spec(s),
{
    let u = stabilize(s, text_weight(s) + 1);
    assert(normalize_spec(s) == trim_spec(u));
    lemma_stabilize_fixpoint(s, text_weight(s) + 1);
    lemma_pass_facts(u);
    lemma_clean_trim(u);
    lemma_trim(u);
    lemma_lws(u);
    lemma_rws(u);
    let t = trim_spec(u);
    if lws(u) == u.len() {
        assert(t.len() == 0);
    } else {
        assert(!is_ws_char(t[0]) && !is_ws_char(t.last()));
    }
    assert(is_clean(t));
    lemma_pass_facts(t);
    assert(pass(t) == t);
    lemma_stabilize_fixed(t, text_weight(t) + 1);
    lemma_trim_of_trimmed(t);
}

// ---------------------------------------------------------------------------
// The executable normalizer
// ---------------------------------------------------------------------------

fn digit_char(ch: char) -> (r: bool)
    ensures
        r == is_digit_char(ch),
{
    '0' <= ch && ch <= '9'
}

fn domain_char(ch: char) -> (r: bool)
    ensures
        r == is_domain_char(ch),
{
    ('a' <= ch && ch <= 'z') || ('0' <= ch && ch <= '9')
}

fn upper_char(ch: char) -> (r: bool)
    ensures
        r == is_upper_char(ch),
{
    'A' <= ch && ch <= 'Z'
}

fn word_tail_char(ch: char) -> (r: bool)
    ensures
        r == is_word_tail_char(ch),
{
    ('a' <= ch && ch <= 'z') || ('0' <= ch && ch <= '9') || ch == '_' || ch == '-'
}

fn name_char(ch: char) -> (r: bool)
    ensures
        r == is_name_char(ch),
{
    ('a' <= ch && ch <= 'z') || ('A' <= ch && ch <= 'Z') || ('0' <= ch && ch <= '9') || ch == '_'
}

fn punct_char(ch: char) -> (r: bool)
    ensures
        r == is_punct_char(ch),
{
    ch == ',' || ch == '.' || ch == '!' || ch == '"' || ch == '#' || ch == '$' || ch == '(' || ch
        == ')' || ch == '=' || ch == '?' || ch == '*' || ch == '<' || ch == '>' || ch == '{' || ch
        == '}' || ch == '[' || ch == ']' || ch == '\\' || ch == '|' || ch == '@' || ch == ';' || ch
        == ':' || ch == '+' || ch == '~' || ch == '^' || ch == '`' || ch == '\u{141}' || ch
        == '\u{142}' || ch == '\u{2c7}' || ch == '\u{2d8}' || ch == '\u{b0}' || ch == '\u{2db}'
        || ch == '\u{b4}' || ch == '\u{2dd}'
}

fn to_lower(ch: char) -> (r: char)
    ensures
        r == lower_char(ch),
{
    match ch {
        'A' => 'a',
        'B' => 'b',
        'C' => 'c',
        'D' => 'd',
        'E' => 'e',
        'F' => 'f',
        'G' => 'g',
        'H' => 'h',
        'I' => 'i',
        'J' => 'j',
        'K' => 'k',
        'L' => 'l',
        'M' => 'm',
        'N' => 'n',
        'O' => 'o',
        'P' => 'p',
        'Q' => 'q',
        'R' => 'r',
        'S' => 's',
        'T' => 't',
        'U' => 'u',
        'V' => 'v',
        'W' => 'w',
        'X' => 'x',
        'Y' => 'y',
        'Z' => 'z',
        _ => ch,
    }
}

/// Whether `[start, end)` of `v` is a link word.
fn link_word_at(v: &Vec<char>, start: usize, end: usize) -> (r: bool)
    requires
        start <= end <= v@.len(),
    ensures
        r == is_link_word(v@.subrange(start as int, end as int)),
{
    let ghost w = v@.subrange(start as int, end as int);
    let m = end - start;
    proof {
        assert(forall|j: int| 0 <= j < m ==> w[j] == v@[start + j]);
    }
    let scheme = (m >= 7 && v[start] == 'h' && v[start + 1] == 't' && v[start + 2] == 't'
        && v[start + 3] == 'p' && v[start + 4] == ':' && v[start + 5] == '/' && v[start + 6]
        == '/') || (m >= 8 && v[start] == 'h' && v[start + 1] == 't' && v[start + 2] == 't'
        && v[start + 3] == 'p' && v[start + 4] == 's' && v[start + 5] == ':' && v[start + 6] == '/'
        && v[start + 7] == '/') || (m >= 6 && v[start] == 'f' && v[start + 1] == 't' && v[start
        + 2] == 'p' && v[start + 3] == ':' && v[start + 4] == '/' && v[start + 5] == '/');
    proof {
        assert(scheme == is_scheme_word(w));
    }
    if scheme {
        return true;
    }
    // the leading domain-character run
    let mut d: usize = start;
    while d < end && domain_char(v[d])
        invariant
            start <= d <= end,
            end <= v@.len(),
            forall|j: int| start <= j < d ==> is_domain_char(v@[j]),
        decreases end - d,
    {
        d = d + 1;
    }
    proof {
        lemma_domain_run(w);
        let dr = domain_run(w) as int;
        let dd = d as int - start as int;
        assert(dr == dd) by {
            if dr < dd {
                assert(!is_domain_char(w[dr]));
                assert(is_domain_char(v@[start + dr]));
            }
            if dr > dd {
                assert(dd < w.len());
                assert(is_domain_char(w[dd]));
                assert(d < end ==> !is_domain_char(v@[d as int]));
            }
        }
    }
    d > start && d < end && v[d] == '.'
}

fn rule_links_exec(v: &Vec<char>) -> (r: Vec<char>)
    ensures
        r@ == rule_links(v@),
    decreases v@.len(),
{
    let n = v.len();
    let mut out: Vec<char> = Vec::new();
    proof {
        assert(v@.skip(0) =~= v@);
        assert(out@ + rule_links(v@) =~= rule_links(v@));
    }
    let mut i: usize = 0;
    while i < n
        invariant
            n == v@.len(),
            i <= n,
            rule_links(v@) == out@ + rule_links(v@.skip(i as int)),
        decreases n - i,
    {
        let ghost rest = v@.skip(i as int);
        proof {
            assert(forall|j: int| 0 <= j < rest.len() ==> rest[j] == v@[i + j]);
            assert(rest.drop_first() =~= v@.skip(i + 1));
        }
        if ws_char(v[i]) {
            out.push(v[i]);
            proof {
                assert(rule_links(rest) == seq![v@[i as int]] + rule_links(v@.skip(i + 1)));
                assert(out@ + rule_links(v@.skip(i + 1)) =~= rule_links(v@));
            }
            i = i + 1;
        } else {
            let start = i;
            let mut k = i;
            while k < n && !ws_char(v[k])
                invariant
                    n == v@.len(),
                    start <= k <= n,
                    forall|j: int| start <= j < k ==> !is_ws_char(v@[j]),
                decreases n - k,
            {
                k = k + 1;
            }
            proof {
                lemma_word_len(rest);
                let wl = word_len(rest) as int;
                let kk = k as int - start as int;
                assert(wl == kk) by {
                    if wl < kk {
                        assert(is_ws_char(rest[wl]));
                        assert(!is_ws_char(v@[start + wl]));
                    }
                    if wl > kk {
                        assert(kk < rest.len());
                        assert(!is_ws_char(rest[kk]));
                        assert(k < n ==> is_ws_char(v@[k as int]));
                        assert(k as int == n ==> kk == rest.len());
                    }
                }
                assert(rest.take(kk) =~= v@.subrange(start as int, k as int));
                assert(rest.skip(kk) =~= v@.skip(k as int));
            }
            if link_word_at(v, start, k) {
                out.push(' ');
                proof {
                    assert(rule_links(rest) == seq![' '] + rule_links(v@.skip(k as int)));
                    assert(out@ + rule_links(v@.skip(k as int)) =~= rule_links(v@));
                }
            } else {
                let ghost mid = out@;
                let mut j = start;
                while j < k
                    invariant
                        start <= j <= k,
                        k <= n,
                        n == v@.len(),
                        out@ == mid + v@.subrange(start as int, j as int),
                    decreases k - j,
                {
                    out.push(v[j]);
                    proof {
                        assert(v@.subrange(start as int, j + 1) =~= v@.subrange(
                            start as int,
                            j as int,
                        ).push(v@[j as int]));
                        assert(out@ =~= mid + v@.subrange(start as int, j + 1));
                    }
                    j = j + 1;
                }
                proof {
                    assert(rule_links(rest) == v@.subrange(start as int, k as int) + rule_links(
                        v@.skip(k as int),
                    ));
                    assert(out@ + rule_links(v@.skip(k as int)) =~= rule_links(v@));
                }
            }
            i = k;
        }
    }
    proof {
        assert(v@.skip(n as int) =~= Seq::<char>::empty());
        assert(rule_links(Seq::<char>::empty()) =~= Seq::<char>::empty());
        assert(out@ =~= rule_links(v@));
    }
    out
}

/// Whether `[lo, hi)` of `v` is a name, a colon, and digits.
fn ncd_at(v: &Vec<char>, lo: usize, hi: usize) -> (r: bool)
    requires
        lo <= hi <= v@.len(),
    ensures
        r == name_colon_digits(v@.subrange(lo as int, hi as int)),
{
    let ghost b = v@.subrange(lo as int, hi as int);
    proof {
        assert(forall|j: int| 0 <= j < b.len() ==> b[j] == v@[lo + j]);
        lemma_name_run(b);
    }
    let mut m: usize = lo;
    while m < hi && name_char(v[m])
        invariant
            lo <= m <= hi,
            hi <= v@.len(),
            forall|j: int| lo <= j < m ==> is_name_char(v@[j]),
        decreases hi - m,
    {
        m = m + 1;
    }
    proof {
        let nr = name_run(b) as int;
        let mm = m as int - lo as int;
        assert(nr == mm) by {
            if nr < mm {
                assert(!is_name_char(b[nr]));
                assert(is_name_char(v@[lo + nr]));
            }
            if nr > mm {
                assert(mm < b.len());
                assert(is_name_char(b[mm]));
                assert(m < hi ==> !is_name_char(v@[m as int]));
                assert(m as int == hi ==> mm == b.len());
            }
        }
    }
    if m == lo || m >= hi || v[m] != ':' {
        return false;
    }
    // digits after the colon
    let ghost tail = b.skip(m as int - lo as int + 1);
    proof {
        assert(forall|j: int| 0 <= j < tail.len() ==> tail[j] == v@[m + 1 + j]);
    }
    if m + 1 >= hi {
        return false;
    }
    let mut j = m + 1;
    while j < hi
        invariant
            m + 1 <= j <= hi,
            hi <= v@.len(),
            forall|x: int| m + 1 <= x < j ==> is_digit_char(v@[x]),
        ensures
            j <= hi,
            forall|x: int| m + 1 <= x < j ==> is_digit_char(v@[x]),
            j < hi ==> !is_digit_char(v@[j as int]),
        decreases hi - j,
    {
        if !digit_char(v[j]) {
            break;
        }
        j = j + 1;
    }
    if j == hi {
        proof {
            assert(digits1(tail));
        }
        true
    } else {
        proof {
            assert(tail[j - m - 1] == v@[j as int]);
            assert(!digits1(tail));
        }
        false
    }
}

/// Whether `[lo, hi)` of `v` has only digits, at least one.
fn digits_at(v: &Vec<char>, lo: usize, hi: usize) -> (r: bool)
    requires
        lo <= hi <= v@.len(),
    ensures
        r == digits1(v@.subrange(lo as int, hi as int)),
{
    let ghost b = v@.subrange(lo as int, hi as int);
    proof {
        assert(forall|j: int| 0 <= j < b.len() ==> b[j] == v@[lo + j]);
    }
    if lo == hi {
        return false;
    }
    let mut j = lo;
    while j < hi
        invariant
            lo <= j <= hi,
            hi <= v@.len(),
            forall|x: int| lo <= x < j ==> is_digit_char(v@[x]),
        ensures
            j <= hi,
            forall|x: int| lo <= x < j ==> is_digit_char(v@[x]),
            j < hi ==> !is_digit_char(v@[j as int]),
        decreases hi - j,
    {
        if !digit_char(v[j]) {
            break;
        }
        j = j + 1;
    }
    if j == hi {
        proof {
            assert(digits1(b));
        }
        true
    } else {
        proof {
            assert(b[j - lo] == v@[j as int]);
        }
        false
    }
}

/// Whether `[lo, hi)` of `v` is a mention body.
fn mention_body_at(v: &Vec<char>, lo: usize, hi: usize) -> (r: bool)
    requires
        lo <= hi <= v@.len(),
    ensures
        r == mention_body(v@.subrange(lo as int, hi as int)),
{
    let ghost b = v@.subrange(lo as int, hi as int);
    proof {
        assert(forall|j: int| 0 <= j < b.len() ==> b[j] == v@[lo + j]);
        if b.len() >= 1 {
            assert(b.drop_first() =~= v@.subrange(lo + 1, hi as int));
        }
        if b.len() >= 2 {
            assert(b.skip(2) =~= v@.subrange(lo + 2, hi as int));
        }
    }
    let m = hi - lo;
    if ncd_at(v, lo, hi) {
        return true;
    }
    if m >= 1 && v[lo] == ':' && ncd_at(v, lo + 1, hi) {
        return true;
    }
    if m >= 2 && v[lo] == 'a' && v[lo + 1] == ':' && ncd_at(v, lo + 2, hi) {
        return true;
    }
    if m >= 2 && v[lo] == '@' && digits_at(v, lo + 1, hi) {
        return true;
    }
    if m >= 3 && v[lo] == '@' && (v[lo + 1] == '&' || v[lo + 1] == '!') && digits_at(v, lo + 2, hi)
    {
        return true;
    }
    false
}

fn rule_mentions_exec(v: &Vec<char>) -> (r: Vec<char>)
    ensures
        r@ == rule_mentions(v@),
{
    let n = v.len();
    let mut out: Vec<char> = Vec::new();
    proof {
        assert(v@.skip(0) =~= v@);
        assert(out@ + rule_mentions(v@) =~= rule_mentions(v@));
    }
    let mut i: usize = 0;
    while i < n
        invariant
            n == v@.len(),
            i <= n,
            rule_mentions(v@) == out@ + rule_mentions(v@.skip(i as int)),
        decreases n - i,
    {
        let ghost rest = v@.skip(i as int);
        proof {
            assert(forall|j: int| 0 <= j < rest.len() ==> rest[j] == v@[i + j]);
            assert(rest.drop_first() =~= v@.skip(i + 1));
        }
        if v[i] != '<' {
            out.push(v[i]);
            proof {
                assert(rule_mentions(rest) == seq![v@[i as int]] + rule_mentions(v@.skip(i + 1)));
                assert(out@ + rule_mentions(v@.skip(i + 1)) =~= rule_mentions(v@));
            }
            i = i + 1;
        } else {
            // the nearest closing bracket
            let mut g = i + 1;
            while g < n && v[g] != '>'
                invariant
                    i + 1 <= g <= n,
                    n == v@.len(),
                    forall|x: int| i + 1 <= x < g ==> v@[x] != '>',
                decreases n - g,
            {
                g = g + 1;
            }
            proof {
                let dfr = rest.drop_first();
                lemma_gt_run(dfr);
                assert(forall|j: int| 0 <= j < dfr.len() ==> dfr[j] == v@[i + 1 + j]);
                let gr = gt_run(dfr) as int;
                let gg = g as int - i as int - 1;
                assert(gr == gg) by {
                    if gr < gg {
                        assert(dfr[gr] == '>');
                        assert(v@[i + 1 + gr] != '>');
                    }
                    if gr > gg {
                        assert(gg < dfr.len());
                        assert(dfr[gg] != '>');
                        assert(g < n ==> v@[g as int] == '>');
                        assert(g as int == n ==> gg == dfr.len());
                    }
                }
                assert(rest.subrange(1, 1 + gr) =~= v@.subrange(i + 1, g as int));
            }
            let matched = g < n && mention_body_at(v, i + 1, g);
            if matched {
                out.push(' ');
                proof {
                    assert(rest.skip(g as int - i as int + 1) =~= v@.skip(g + 1));
                    assert(rule_mentions(rest) == seq![' '] + rule_mentions(v@.skip(g + 1)));
                    assert(out@ + rule_mentions(v@.skip(g + 1)) =~= rule_mentions(v@));
                }
                i = g + 1;
            } else {
                out.push(v[i]);
                proof {
                    assert(rule_mentions(rest) == seq![v@[i as int]] + rule_mentions(
                        v@.skip(i + 1),
                    ));
                    assert(out@ + rule_mentions(v@.skip(i + 1)) =~= rule_mentions(v@));
                }
                i = i + 1;
            }
        }
    }
    proof {
        assert(v@.skip(n as int) =~= Seq::<char>::empty());
        assert(rule_mentions(Seq::<char>::empty()) =~= Seq::<char>::empty());
        assert(out@ =~= rule_mentions(v@));
    }
    out
}

fn rule_punct_exec(v: &Vec<char>) -> (r: Vec<char>)
    ensures
        r@ == rule_punct(v@),
{
    let n = v.len();
    let mut out: Vec<char> = Vec::new();
    let mut i: usize = 0;
    while i < n
        invariant
            n == v@.len(),
            i <= n,
            out@.len() == i,
            forall|j: int| 0 <= j < i ==> out@[j] == rule_punct(v@)[j],
        decreases n - i,
    {
        if punct_char(v[i]) {
            out.push(' ');
        } else {
            out.push(v[i]);
        }
        i = i + 1;
    }
    proof {
        assert(out@ =~= rule_punct(v@));
    }
    out
}

fn rule_raw_id_exec(v: &Vec<char>) -> (r: Vec<char>)
    ensures
        r@ == rule_raw_id(v@),
{
    let n = v.len();
    if n == 18 {
        let mut all = true;
        let mut i: usize = 0;
        while i < n
            invariant
                n == v@.len(),
                i <= n,
                all == (forall|j: int| 0 <= j < i ==> is_digit_char(v@[j])),
            decreases n - i,
        {
            if !digit_char(v[i]) {
                all = false;
            }
            i = i + 1;
        }
        if all {
            let out: Vec<char> = Vec::new();
            proof {
                assert(out@ =~= rule_raw_id(v@));
            }
            return out;
        }
    }
    let mut out: Vec<char> = Vec::new();
    let mut i: usize = 0;
    while i < n
        invariant
            n == v@.len(),
            i <= n,
            out@ == v@.take(i as int),
        decreases n - i,
    {
        out.push(v[i]);
        proof {
            assert(v@.take(i + 1) =~= v@.take(i as int).push(v@[i as int]));
        }
        i = i + 1;
    }
    proof {
        assert(v@.take(n as int) =~= v@);
        assert(!is_raw_id(v@));
    }
    out
}

fn rule_line_feeds_exec(v: &Vec<char>) -> (r: Vec<char>)
    ensures
        r@ == rule_line_feeds(v@),
{
    let n = v.len();
    let mut out: Vec<char> = Vec::new();
    let mut i: usize = 0;
    while i < n
        invariant
            n == v@.len(),
            i <= n,
            out@.len() == i,
            forall|j: int| 0 <= j < i ==> out@[j] == rule_line_feeds(v@)[j],
        decreases n - i,
    {
        if v[i] == '\n' {
            out.push(' ');
        } else {
            out.push(v[i]);
        }
        i = i + 1;
    }
    proof {
        assert(out@ =~= rule_line_feeds(v@));
    }
    out
}

fn rule_spaces_exec(v: &Vec<char>) -> (r: Vec<char>)
    ensures
        r@ == rule_spaces(v@),
{
    let n = v.len();
    let mut out: Vec<char> = Vec::new();
    proof {
        assert(v@.skip(0) =~= v@);
        assert(out@ + rule_spaces(v@) =~= rule_spaces(v@));
    }
    let mut i: usize = 0;
    while i < n
        invariant
            n == v@.len(),
            i <= n,
            rule_spaces(v@) == out@ + rule_spaces(v@.skip(i as int)),
        decreases n - i,
    {
        let ghost rest = v@.skip(i as int);
        proof {
            assert(forall|j: int| 0 <= j < rest.len() ==> rest[j] == v@[i + j]);
            assert(rest.drop_first() =~= v@.skip(i + 1));
        }
        if v[i] == ' ' && i + 1 < n && v[i + 1] == ' ' {
            proof {
                assert(rule_spaces(rest) == rule_spaces(v@.skip(i + 1)));
            }
        } else {
            out.push(v[i]);
            proof {
                assert(rule_spaces(rest) == seq![v@[i as int]] + rule_spaces(v@.skip(i + 1)));
                assert(out@ + rule_spaces(v@.skip(i + 1)) =~= rule_spaces(v@));
            }
        }
        i = i + 1;
    }
    proof {
        assert(v@.skip(n as int) =~= Seq::<char>::empty());
        assert(rule_spaces(Seq::<char>::empty()) =~= Seq::<char>::empty());
        assert(out@ =~= rule_spaces(v@));
    }
    out
}

fn rule_caps_exec(v: &Vec<char>) -> (r: Vec<char>)
    ensures
        r@ == rule_caps(v@),
{
    let n = v.len();
    let mut out: Vec<char> = Vec::new();
    let mut i: usize = 0;
    while i < n
        invariant
            n == v@.len(),
            i <= n,
            out@.len() == i,
            forall|j: int| 0 <= j < i ==> out@[j] == rule_caps(v@)[j],
        decreases n - i,
    {
        if upper_char(v[i]) && i + 1 < n && word_tail_char(v[i + 1]) {
            out.push(to_lower(v[i]));
        } else {
            out.push(v[i]);
        }
        i = i + 1;
    }
    proof {
        assert(out@ =~= rule_caps(v@));
    }
    out
}

fn pass_exec(v: &Vec<char>) -> (r: Vec<char>)
    ensures
        r@ == pass(v@),
{
    let x1 = rule_links_exec(v);
    let x2 = rule_mentions_exec(&x1);
    let x3 = rule_punct_exec(&x2);
    let x4 = rule_raw_id_exec(&x3);
    let x5 = rule_line_feeds_exec(&x4);
    let x6 = rule_spaces_exec(&x5);
    rule_caps_exec(&x6)
}

fn chars_eq(a: &Vec<char>, b: &Vec<char>) -> (r: bool)
    ensures
        r == (a@ == b@),
{
    let n = a.len();
    if n != b.len() {
        return false;
    }
    let mut i: usize = 0;
    while i < n
        invariant
            n == a@.len(),
            n == b@.len(),
            i <= n,
            forall|j: int| 0 <= j < i ==> a@[j] == b@[j],
        decreases n - i,
    {
        if a[i] != b[i] {
            return false;
        }
        i = i + 1;
    }
    proof {
        assert(a@ =~= b@);
    }
    true
}

fn trim_exec(v: &Vec<char>) -> (r: Vec<char>)
    ensures
        r@ == trim_spec(v@),
{
    let n = v.len();
    let mut lo: usize = 0;
    while lo < n && ws_char(v[lo])
        invariant
            lo <= n,
            n == v@.len(),
            forall|j: int| 0 <= j < lo ==> is_ws_char(v@[j]),
        decreases n - lo,
    {
        lo = lo + 1;
    }
    proof {
        lemma_lws(v@);
        assert(lws(v@) == lo) by {
            if lws(v@) < lo {
                assert(!is_ws_char(v@[lws(v@) as int]));
            }
            if lws(v@) > lo {
                assert(is_ws_char(v@[lo as int]));
                assert(lo < n ==> !is_ws_char(v@[lo as int]));
            }
        }
    }
    if lo == n {
        let out: Vec<char> = Vec::new();
        proof {
            assert(out@ =~= trim_spec(v@));
        }
        return out;
    }
    let mut hi: usize = n;
    while hi > lo && ws_char(v[hi - 1])
        invariant
            lo <= hi <= n,
            n == v@.len(),
            forall|j: int| hi <= j < n ==> is_ws_char(v@[j]),
        decreases hi,
    {
        hi = hi - 1;
    }
    proof {
        lemma_rws(v@);
        lemma_lws(v@);
        assert(!is_ws_char(v@[lo as int]));
        let hr = v@.len() - rws(v@) as int;
        assert(hi == hr) by {
            if hr < hi {
                assert(hi - 1 >= hr);
                assert(hi - 1 < n);
                assert(is_ws_char(v@[hi - 1]));
                assert(hi > lo ==> !is_ws_char(v@[hi - 1]));
                assert(hi == lo ==> is_ws_char(v@[lo as int]));
            }
            if hr > hi {
                assert(rws(v@) < v@.len());
                assert(hi <= hr - 1 < n);
                assert(is_ws_char(v@[hr - 1]));
                assert(!is_ws_char(v@[v@.len() - rws(v@) - 1]));
            }
        }
    }
    let mut out: Vec<char> = Vec::new();
    let mut j = lo;
    while j < hi
        invariant
            lo <= j <= hi <= n,
            n == v@.len(),
            out@ == v@.subrange(lo as int, j as int),
        decreases hi - j,
    {
        out.push(v[j]);
        proof {
            assert(v@.subrange(lo as int, j + 1) =~= v@.subrange(lo as int, j as int).push(
                v@[j as int],
            ));
        }
        j = j + 1;
    }
    proof {
        assert(out@ =~= trim_spec(v@));
    }
    out
}

/// Filters a string so it can enter the Markov data set: strips links,
/// mention markup, punctuation and residual raw ids, replaces line feeds,
/// collapses runs of spaces, folds capitalized words to lower case — all
/// repeated until a whole pass changes nothing — and trims the ends.
pub fn filter_string_pre_processing(msg: &str) -> (r: String)
    ensures
        r@ == normalize_spec(msg@),
{
    let mut cur = str_to_chars(msg);
    let ghost orig = msg@;
    proof {
        assert(trim_spec(stabilize(cur@, text_weight(cur@) + 1)) == normalize_spec(orig));
    }
    loop
        invariant
            trim_spec(stabilize(cur@, text_weight(cur@) + 1)) == normalize_spec(orig),
        ensures
            pass(cur@) == cur@,
            trim_spec(stabilize(cur@, text_weight(cur@) + 1)) == normalize_spec(orig),
        decreases text_weight(cur@),
    {
        let next = pass_exec(&cur);
        if chars_eq(&next, &cur) {
            break;
        }
        proof {
            lemma_pass_facts(cur@);
            lemma_stabilize_fuel(
                pass(cur@),
                text_weight(cur@) as nat,
                text_weight(pass(cur@)) + 1,
            );
            assert(stabilize(cur@, text_weight(cur@) + 1) == stabilize(
                pass(cur@),
                text_weight(pass(cur@)) + 1,
            ));
        }
        cur = next;
    }
    proof {
        lemma_stabilize_fixed(cur@, text_weight(cur@) + 1);
        assert(trim_spec(cur@) == normalize_spec(orig));
    }
    let trimmed = trim_exec(&cur);
    chars_to_string(&trimmed)
}

} // verus!
