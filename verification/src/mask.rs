//! Masking strategies.
//!
//! Every strategy reduces to one shared character rewriter: walk the text by
//! character and, from a computed boundary index on, replace each character
//! with the mask string. Carriage returns and line feeds pass through
//! unchanged at every position, whatever the strategy.

use vstd::prelude::*;

verus! {

use vstd::string::StrSliceExecFns;
use vstd::string::StringExecFns;

/// What the rewriter emits for the character `c` standing at index `i`:
/// carriage returns and line feeds pass through, any other character at or
/// past the boundary `from` becomes the whole mask string, and characters
/// before the boundary are kept.
pub open spec fn emit(c: char, i: int, from: int, mask_char: Seq<char>) -> Seq<char> {
    if c == '\r' {
        seq!['\r']
    } else if c == '\n' {
        seq!['\n']
    } else if i >= from {
        mask_char
    } else {
        seq![c]
    }
}

/// The rewriter's output for the first `i` characters of `text`: the
/// concatenation, in order, of the emission of each position.
pub open spec fn rewrite_upto(text: Seq<char>, i: int, from: int, mask_char: Seq<char>) -> Seq<
    char,
>
    decreases i,
{
    if i <= 0 {
        Seq::<char>::empty()
    } else {
        rewrite_upto(text, i - 1, from, mask_char) + emit(text[i - 1], i - 1, from, mask_char)
    }
}

/// The rewriter's output for the whole of `text` with boundary `from`.
pub open spec fn rewrite_spec(text: Seq<char>, from: int, mask_char: Seq<char>) -> Seq<char> {
    rewrite_upto(text, text.len() as int, from, mask_char)
}

/// The shared character rewriter over a borrowed text.
fn rewrite(text: &str, from: usize, mask_char: &str) -> (r: String)
    ensures
        r@ == rewrite_spec(text@, from as int, mask_char@),
{
    let n: usize = text.unicode_len();
    let mut out: String = String::new();
    let mut i: usize = 0;
    while i < n
        invariant
            n == text@.len(),
            i <= n,
            out@ == rewrite_upto(text@, i as int, from as int, mask_char@),
        decreases n - i,
    {
        let c: char = text.get_char(i);
        if c == '\r' || c == '\n' || i < from {
            let piece: &str = text.substring_char(i, i + 1);
            proof {
                assert(piece@ =~= seq![text@[i as int]]);
                assert(emit(text@[i as int], i as int, from as int, mask_char@) == piece@);
            }
            out.append(piece);
        } else {
            out.append(mask_char);
        }
        i += 1;
    }
    out
}

/// Mask every character of `text` at or past the character index `from` with
/// `mask_char`, keeping carriage returns and line feeds as they are.
pub fn mask(text: String, from: usize, mask_char: String) -> (r: String)
    ensures
        r@ == rewrite_spec(text@, from as int, mask_char@),
{
    rewrite(text.as_str(), from, mask_char.as_str())
}

/// The boundary the percentage strategy masks from: a text at or under
/// `min_chars` characters is masked whole, any other text keeps its leading
/// `len - floor(percentage * len / 100)` characters.
pub open spec fn percentage_boundary(len: int, percentage: int, min_chars: int) -> int {
    if len <= min_chars {
        0
    } else {
        len - (percentage * len) / 100
    }
}

/// Mask the trailing `percentage` percent of the characters of `text` with
/// `mask_char`, rounding the masked amount down; a text at or under
/// `min_chars` characters is masked whole, whatever the percentage.
pub fn with_percentage(text: String, percentage: u8, min_chars: usize, mask_char: String) -> (r:
    String)
    requires
        percentage <= 100,
    ensures
        r@ == rewrite_spec(
            text@,
            percentage_boundary(text@.len() as int, percentage as int, min_chars as int),
            mask_char@,
        ),
{
    let n: usize = text.as_str().unicode_len();
    let from: usize = if n > min_chars {
        proof {
            vstd::arithmetic::mul::lemma_mul_inequality(percentage as int, 100, n as int);
            vstd::arithmetic::div_mod::lemma_div_is_ordered(
                (percentage as int) * (n as int),
                100 * (n as int),
                100,
            );
            vstd::arithmetic::div_mod::lemma_div_multiples_vanish(n as int, 100);
        }
        let cut: u128 = (percentage as u128) * (n as u128) / 100;
        n - (cut as usize)
    } else {
        0
    };
    mask(text, from, mask_char)
}

/// The boundary the prefix strategy masks from: `until` where it falls inside
/// the text, and 0 (mask everything) where it is at or past the end.
pub open spec fn prefix_boundary(len: int, until: int) -> int {
    if until >= len {
        0
    } else {
        until
    }
}

/// Leave the first `until` characters of `text` unmasked and mask the rest
/// with `mask_char`; an `until` at or past the text's length masks the whole
/// text.
pub fn with_prefix(text: String, until: usize, mask_char: String) -> (r: String)
    ensures
        r@ == rewrite_spec(
            text@,
            prefix_boundary(text@.len() as int, until as int),
            mask_char@,
        ),
{
    let n: usize = text.as_str().unicode_len();
    let from: usize = if until >= n {
        0
    } else {
        until
    };
    mask(text, from, mask_char)
}

/// Mask every character of `text` with `mask_char`.
pub fn all(text: String, mask_char: String) -> (r: String)
    ensures
        r@ == rewrite_spec(text@, 0, mask_char@),
{
    mask(text, 0, mask_char)
}

#[verifier::external_type_specification]
#[verifier::external_body]
pub struct ExRegex(regex::Regex);

/// The character index of the first occurrence of `target` in `text` at or
/// after index `i`, if any; an empty `target` occurs at every index.
pub open spec fn find_from(text: Seq<char>, target: Seq<char>, i: int) -> Option<int>
    decreases text.len() - i,
{
    if i + target.len() > text.len() {
        None
    } else if target.len() == 0 {
        Some(i)
    } else if text.subrange(i, i + target.len()) == target {
        Some(i)
    } else {
        find_from(text, target, i + 1)
    }
}

/// `text` with its first occurrence of `target`, if there is one, replaced by
/// `repl`; a `text` without an occurrence is left as it is.
pub open spec fn replace_first(text: Seq<char>, target: Seq<char>, repl: Seq<char>) -> Seq<char> {
    match find_from(text, target, 0) {
        Some(i) => text.subrange(0, i) + repl + text.subrange(i + target.len(), text.len() as int),
        None => text,
    }
}

/// What the regex strategy produces once the captured text is known: the
/// first occurrence of the capture in `text` replaced by its fully masked
/// rewriting.
pub open spec fn regex_masked(text: Seq<char>, target: Seq<char>, mask_char: Seq<char>) -> Seq<
    char,
> {
    replace_first(text, target, rewrite_spec(target, 0, mask_char))
}

/// An occurrence that `find_from` reports lies inside the text and carries
/// the target's characters.
proof fn lemma_find_from_some(text: Seq<char>, target: Seq<char>, i: int, j: int)
    requires
        0 <= i,
        find_from(text, target, i) == Some(j),
    ensures
        i <= j,
        j + target.len() <= text.len(),
        text.subrange(j, j + target.len()) =~= target,
    decreases text.len() - i,
{
    if i + target.len() > text.len() {
    } else if target.len() == 0 {
    } else if text.subrange(i, i + target.len()) == target {
    } else {
        lemma_find_from_some(text, target, i + 1, j);
    }
}

/// The character index of the first occurrence of `target` in `text`, if
/// there is one.
fn find_first(text: &str, target: &str) -> (r: Option<usize>)
    ensures
        (match r {
            Some(i) => find_from(text@, target@, 0) == Some(i as int),
            None => find_from(text@, target@, 0) is None,
        }),
{
    let n: usize = text.unicode_len();
    let m: usize = target.unicode_len();
    if m > n {
        return None;
    }
    let target_string: String = target.to_owned();
    let mut i: usize = 0;
    while i <= n - m
        invariant
            n == text@.len(),
            m == target@.len(),
            m <= n,
            i <= n - m + 1,
            target_string@ == target@,
            find_from(text@, target@, 0) == find_from(text@, target@, i as int),
        decreases n - i,
    {
        let piece: &str = text.substring_char(i, i + m);
        let piece_string: String = piece.to_owned();
        if piece_string.eq(&target_string) {
            return Some(i);
        }
        proof {
            if m == 0 {
                assert(text@.subrange(i as int, i as int + m as int) =~= target@);
                assert(false);
            }
        }
        i += 1;
    }
    proof {
        assert(i as int + target@.len() > text@.len());
    }
    None
}

/// `text` with its first occurrence of `target`, if there is one, replaced by
/// `repl`.
fn replace_first_exec(text: &str, target: &str, repl: &str) -> (r: String)
    ensures
        r@ == replace_first(text@, target@, repl@),
{
    let n: usize = text.unicode_len();
    let m: usize = target.unicode_len();
    match find_first(text, target) {
        Some(i) => {
            proof {
                lemma_find_from_some(text@, target@, 0, i as int);
            }
            let mut out: String = text.substring_char(0, i).to_owned();
            out.append(repl);
            out.append(text.substring_char(i + m, n));
            proof {
                assert(out@ =~= replace_first(text@, target@, repl@));
            }
            out
        },
        None => text.to_owned(),
    }
}

// The text that capture group `group` of the pattern's first match singles
// out of `text`, where the match exists and the group participated in it.
pub uninterp spec fn capture_of(re: regex::Regex, text: Seq<char>, group: int) -> Option<Seq<char>>;

/// Relies on `regex::Regex::captures`, `regex::Captures::get` and
/// `regex::Match::as_str`: the first match's capture group `group`, where the
/// match exists and the group participated in it, is handed out as its text,
/// which `Match::as_str` takes as a slice of the haystack — a contiguous run
/// of the haystack's characters. The capture depends on the compiled pattern,
/// the haystack and the group index alone, so it is named by `capture_of`.
#[verifier::external_body]
fn capture_group(re: &regex::Regex, text: &str, group: usize) -> (r: Option<String>)
    ensures
        (match r {
            Some(s) => capture_of(*re, text@, group as int) == Some(s@) && exists|i: int, j: int|
                0 <= i <= j <= text@.len() && s@ == text@.subrange(i, j),
            None => capture_of(*re, text@, group as int) is None,
        }),
{
    re.captures(text).and_then(|c| c.get(group)).map(|m| m.as_str().to_string())
}

/// A whole text replaced by its own full masking is the full masking: the
/// safe default of the regex strategy masks every character.
pub proof fn lemma_whole_text_masked(text: Seq<char>, mask_char: Seq<char>)
    ensures
        regex_masked(text, text, mask_char) == rewrite_spec(text, 0, mask_char),
{
    if text.len() == 0 {
        assert(find_from(text, text, 0) == Some(0int));
    } else {
        assert(text.subrange(0, text.len() as int) =~= text);
        assert(find_from(text, text, 0) == Some(0int));
    }
    assert(text.subrange(0, 0) + rewrite_spec(text, 0, mask_char) + text.subrange(
        text.len() as int,
        text.len() as int,
    ) =~= rewrite_spec(text, 0, mask_char));
}

/// Mask the part of `text` that a regex capture singled out: the first
/// occurrence of the captured text is replaced by its fully masked form. A
/// missing capture (no match, or a group that did not participate) masks the
/// whole text.
pub fn mask_captured(text: String, captured: Option<String>, mask_char: String) -> (r: String)
    ensures
        (match captured {
            Some(t) => r@ == regex_masked(text@, t@, mask_char@),
            None => r@ == rewrite_spec(text@, 0, mask_char@),
        }),
{
    match captured {
        Some(t) => {
            let masked: String = rewrite(t.as_str(), 0, mask_char.as_str());
            replace_first_exec(text.as_str(), t.as_str(), masked.as_str())
        },
        None => mask(text, 0, mask_char),
    }
}

/// Mask the text that the first match's capture group `group` singles out of
/// `text`, replacing its first occurrence by a fully masked form; where the
/// pattern does not match, or the group did not participate, the whole text
/// is masked.
///
/// Known limitation, kept for compatibility: the replacement goes by the
/// capture's literal text, not by the match's offset, so when the same text
/// also occurs before the match, that earlier occurrence is the one masked.
pub fn with_regex(text: String, re: regex::Regex, group: usize, mask_char: String) -> (r: String)
    ensures
        r@ == (match capture_of(re, text@, group as int) {
            Some(t) => regex_masked(text@, t, mask_char@),
            None => rewrite_spec(text@, 0, mask_char@),
        }),
        exists|i: int, j: int|
            0 <= i <= j <= text@.len() && r@ == regex_masked(
                text@,
                text@.subrange(i, j),
                mask_char@,
            ),
{
    let captured: Option<String> = capture_group(&re, text.as_str(), group);
    let ghost cap: Option<String> = captured;
    let ghost text_view: Seq<char> = text@;
    let ghost mc_view: Seq<char> = mask_char@;
    let r: String = mask_captured(text, captured, mask_char);
    proof {
        if cap is None {
            lemma_whole_text_masked(text_view, mc_view);
            assert(text_view.subrange(0, text_view.len() as int) =~= text_view);
            assert(0 <= 0 <= text_view.len() <= text_view.len() && r@ == regex_masked(
                text_view,
                text_view.subrange(0, text_view.len() as int),
                mc_view,
            ));
        }
    }
    r
}

/// A masking request: the text to mask, the strategy's own parameters, and
/// the mask string that stands in for each masked character.
pub enum Kind {
    /// Mask the trailing percentage of the text, or all of it when the text
    /// is at or under the minimum character count.
    Percentage(String, u8, usize, String),
    /// Mask the text a capture group of the pattern's first match singles
    /// out, or the whole text when there is no such capture.
    Regex(String, regex::Regex, usize, String),
    /// Keep a prefix of the given character count and mask the rest.
    Prefix(String, usize, String),
    /// Mask the whole text.
    All(String, String),
}

/// What `Kind::mask` returns for each request: the rewriter's output at the
/// strategy's boundary; for a regex request, the capture that `capture_of`
/// names masked in place, a contiguous run of the text, or the whole text
/// masked where there is no capture.
pub open spec fn masks_to(k: Kind, out: Seq<char>) -> bool {
    match k {
        Kind::Percentage(t, p, min_chars, c) => out == rewrite_spec(
            t@,
            percentage_boundary(t@.len() as int, p as int, min_chars as int),
            c@,
        ),
        Kind::Regex(t, re, group, c) => out == (match capture_of(re, t@, group as int) {
            Some(s) => regex_masked(t@, s, c@),
            None => rewrite_spec(t@, 0, c@),
        }) && exists|i: int, j: int|
            0 <= i <= j <= t@.len() && out == regex_masked(t@, t@.subrange(i, j), c@),
        Kind::Prefix(t, until, c) => out == rewrite_spec(
            t@,
            prefix_boundary(t@.len() as int, until as int),
            c@,
        ),
        Kind::All(t, c) => out == rewrite_spec(t@, 0, c@),
    }
}

impl Kind {
    /// A percentage request carries a percentage of at most 100.
    pub open spec fn wf(self) -> bool {
        match self {
            Kind::Percentage(_t, p, _min_chars, _c) => p <= 100,
            _ => true,
        }
    }

    /// Mask the request's text by its strategy.
    pub fn mask(self) -> (r: String)
        requires
            self.wf(),
        ensures
            masks_to(self, r@),
    {
        match self {
            Kind::Percentage(text, percentage, min_chars, mask_char) => with_percentage(
                text,
                percentage,
                min_chars,
                mask_char,
            ),
            Kind::Regex(text, re, group, mask_char) => with_regex(text, re, group, mask_char),
            Kind::Prefix(text, until, mask_char) => with_prefix(text, until, mask_char),
            Kind::All(text, mask_char) => all(text, mask_char),
        }
    }
}

/// How many of the first `i` characters of `text` the rewriter masks: those
/// at or past the boundary `from` that are neither carriage return nor line
/// feed.
pub open spec fn masked_count(text: Seq<char>, i: int, from: int) -> int
    decreases i,
{
    if i <= 0 {
        0
    } else {
        masked_count(text, i - 1, from) + (if text[i - 1] != '\r' && text[i - 1] != '\n' && i - 1
            >= from {
            1int
        } else {
            0int
        })
    }
}

proof fn lemma_rewrite_upto_len(text: Seq<char>, i: int, from: int, mask_char: Seq<char>)
    requires
        0 <= i <= text.len(),
    ensures
        masked_count(text, i, from) >= 0,
        rewrite_upto(text, i, from, mask_char).len() == i - masked_count(text, i, from)
            + masked_count(text, i, from) * mask_char.len(),
    decreases i,
{
    if i > 0 {
        lemma_rewrite_upto_len(text, i - 1, from, mask_char);
        let c: int = masked_count(text, i - 1, from);
        assert((c + 1) * mask_char.len() == c * mask_char.len() + mask_char.len())
            by (nonlinear_arith);
    }
}

/// Every masked character position contributes the mask string's length to
/// the output, every other position one character: the output's length is
/// the input's, with each masked character traded for one copy of the mask
/// string.
pub proof fn lemma_rewrite_len(text: Seq<char>, from: int, mask_char: Seq<char>)
    ensures
        masked_count(text, text.len() as int, from) >= 0,
        rewrite_spec(text, from, mask_char).len() == text.len() - masked_count(
            text,
            text.len() as int,
            from,
        ) + masked_count(text, text.len() as int, from) * mask_char.len(),
{
    lemma_rewrite_upto_len(text, text.len() as int, from, mask_char);
}

/// With a single-character mask string, every strategy's output has exactly
/// as many characters as its input, whatever the boundary.
pub proof fn lemma_len_preserved(text: Seq<char>, from: int, mask_char: Seq<char>)
    requires
        mask_char.len() == 1,
    ensures
        rewrite_spec(text, from, mask_char).len() == text.len(),
{
    lemma_rewrite_len(text, from, mask_char);
}

proof fn lemma_rewrite_upto_char_at(text: Seq<char>, i: int, from: int, mask_char: Seq<char>)
    requires
        mask_char.len() == 1,
        0 <= i <= text.len(),
    ensures
        rewrite_upto(text, i, from, mask_char).len() == i,
        forall|j: int|
            0 <= j < i ==> rewrite_upto(text, i, from, mask_char)[j] == emit(
                text[j],
                j,
                from,
                mask_char,
            )[0],
    decreases i,
{
    if i > 0 {
        lemma_rewrite_upto_char_at(text, i - 1, from, mask_char);
    }
}

/// With a single-character mask string the output is pinned down character by
/// character: carriage returns and line feeds stay where they were, every
/// other character at or past the boundary becomes the mask character, and
/// every character before the boundary is kept.
pub proof fn lemma_rewrite_char_at(text: Seq<char>, from: int, mask_char: Seq<char>)
    requires
        mask_char.len() == 1,
    ensures
        rewrite_spec(text, from, mask_char).len() == text.len(),
        forall|j: int|
            0 <= j < text.len() ==> #[trigger] rewrite_spec(text, from, mask_char)[j] == (if text[j]
                == '\r' || text[j] == '\n' {
                text[j]
            } else if j >= from {
                mask_char[0]
            } else {
                text[j]
            }),
{
    lemma_rewrite_upto_char_at(text, text.len() as int, from, mask_char);
}

/// Carriage returns and line feeds are preserved identically at their
/// positions, whatever the boundary, for a single-character mask string.
pub proof fn lemma_crlf_preserved(text: Seq<char>, from: int, mask_char: Seq<char>)
    requires
        mask_char.len() == 1,
    ensures
        rewrite_spec(text, from, mask_char).len() == text.len(),
        forall|j: int|
            0 <= j < text.len() && (text[j] == '\r' || text[j] == '\n') ==> #[trigger] rewrite_spec(
                text,
                from,
                mask_char,
            )[j] == text[j],
{
    lemma_rewrite_char_at(text, from, mask_char);
}

proof fn lemma_rewrite_upto_no_mask(text: Seq<char>, i: int, from: int, mask_char: Seq<char>)
    requires
        0 <= i <= text.len(),
        from >= i,
    ensures
        rewrite_upto(text, i, from, mask_char) == text.subrange(0, i),
    decreases i,
{
    if i > 0 {
        lemma_rewrite_upto_no_mask(text, i - 1, from, mask_char);
        assert(text.subrange(0, i - 1) + seq![text[i - 1]] =~= text.subrange(0, i));
    } else {
        assert(Seq::<char>::empty() =~= text.subrange(0, 0));
    }
}

/// A boundary at or past the end of the text masks nothing: the output is
/// the input.
pub proof fn lemma_rewrite_no_mask(text: Seq<char>, from: int, mask_char: Seq<char>)
    requires
        from >= text.len(),
    ensures
        rewrite_spec(text, from, mask_char) == text,
{
    lemma_rewrite_upto_no_mask(text, text.len() as int, from, mask_char);
    assert(text.subrange(0, text.len() as int) =~= text);
}

/// A percentage of zero, on a text longer than the minimum character count,
/// leaves the text unchanged.
pub proof fn lemma_percentage_zero(text: Seq<char>, min_chars: int, mask_char: Seq<char>)
    requires
        min_chars < text.len(),
    ensures
        percentage_boundary(text.len() as int, 0, min_chars) == text.len(),
        rewrite_spec(
            text,
            percentage_boundary(text.len() as int, 0, min_chars),
            mask_char,
        ) == text,
{
    lemma_rewrite_no_mask(text, text.len() as int, mask_char);
}

/// A percentage of one hundred masks from the start: every character but a
/// carriage return or line feed becomes the mask character.
pub proof fn lemma_percentage_hundred(text: Seq<char>, min_chars: int, mask_char: Seq<char>)
    requires
        mask_char.len() == 1,
    ensures
        percentage_boundary(text.len() as int, 100, min_chars) == 0,
        rewrite_spec(text, 0, mask_char).len() == text.len(),
        forall|j: int|
            0 <= j < text.len() ==> #[trigger] rewrite_spec(text, 0, mask_char)[j] == (if text[j]
                == '\r' || text[j] == '\n' {
                text[j]
            } else {
                mask_char[0]
            }),
{
    vstd::arithmetic::div_mod::lemma_div_multiples_vanish(text.len() as int, 100);
    lemma_rewrite_char_at(text, 0, mask_char);
}

/// A text at or under the minimum character count is masked whole, whatever
/// the percentage: every character but a carriage return or line feed
/// becomes the mask character.
pub proof fn lemma_percentage_min_chars(
    text: Seq<char>,
    percentage: int,
    min_chars: int,
    mask_char: Seq<char>,
)
    requires
        text.len() <= min_chars,
        mask_char.len() == 1,
    ensures
        percentage_boundary(text.len() as int, percentage, min_chars) == 0,
        rewrite_spec(text, 0, mask_char).len() == text.len(),
        forall|j: int|
            0 <= j < text.len() ==> #[trigger] rewrite_spec(text, 0, mask_char)[j] == (if text[j]
                == '\r' || text[j] == '\n' {
                text[j]
            } else {
                mask_char[0]
            }),
{
    lemma_rewrite_char_at(text, 0, mask_char);
}

/// The regex strategy pinned down character by character, for a
/// single-character mask string, once the capture's first occurrence `i` is
/// known: characters outside the occurrence are kept, and inside it carriage
/// returns and line feeds stay while every other character becomes the mask
/// character.
pub proof fn lemma_regex_char_at(text: Seq<char>, target: Seq<char>, mask_char: Seq<char>, i: int)
    requires
        mask_char.len() == 1,
        find_from(text, target, 0) == Some(i),
    ensures
        0 <= i,
        i + target.len() <= text.len(),
        regex_masked(text, target, mask_char).len() == text.len(),
        forall|j: int|
            0 <= j < i ==> #[trigger] regex_masked(text, target, mask_char)[j] == text[j],
        forall|j: int|
            i <= j < i + target.len() ==> #[trigger] regex_masked(text, target, mask_char)[j] == (
            if target[j - i] == '\r' || target[j - i] == '\n' {
                target[j - i]
            } else {
                mask_char[0]
            }),
        forall|j: int|
            i + target.len() <= j < text.len() ==> #[trigger] regex_masked(
                text,
                target,
                mask_char,
            )[j] == text[j],
{
    lemma_find_from_some(text, target, 0, i);
    lemma_rewrite_char_at(target, 0, mask_char);
}

/// With a single-character mask string the regex strategy's output has
/// exactly as many characters as its input.
pub proof fn lemma_regex_len_preserved(text: Seq<char>, target: Seq<char>, mask_char: Seq<char>)
    requires
        mask_char.len() == 1,
    ensures
        regex_masked(text, target, mask_char).len() == text.len(),
{
    match find_from(text, target, 0) {
        Some(i) => {
            lemma_find_from_some(text, target, 0, i);
            lemma_len_preserved(target, 0, mask_char);
        },
        None => {},
    }
}

/// The prefix strategy: an `until` at or past the text's length, and an
/// `until` of zero, mask the whole text; an `until` inside the text keeps
/// the first `until` characters and masks the rest, carriage returns and
/// line feeds excepted.
pub proof fn lemma_prefix(text: Seq<char>, until: int, mask_char: Seq<char>)
    requires
        0 <= until,
        mask_char.len() == 1,
    ensures
        until >= text.len() ==> prefix_boundary(text.len() as int, until) == 0,
        until == 0 ==> prefix_boundary(text.len() as int, until) == 0,
        rewrite_spec(text, prefix_boundary(text.len() as int, until), mask_char).len()
            == text.len(),
        forall|j: int|
            0 <= j < prefix_boundary(text.len() as int, until) ==> #[trigger] rewrite_spec(
                text,
                prefix_boundary(text.len() as int, until),
                mask_char,
            )[j] == text[j],
        forall|j: int|
            prefix_boundary(text.len() as int, until) <= j < text.len() ==> #[trigger] rewrite_spec(
                text,
                prefix_boundary(text.len() as int, until),
                mask_char,
            )[j] == (if text[j] == '\r' || text[j] == '\n' {
                text[j]
            } else {
                mask_char[0]
            }),
{
    lemma_rewrite_char_at(text, prefix_boundary(text.len() as int, until), mask_char);
}

} // verus!
