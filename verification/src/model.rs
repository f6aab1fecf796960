//! The mathematical model of the pipeline: which token starts at each
//! character position, how the vocabulary upgrades its kind, and how
//! adjacent text tokens coalesce. The executable pipeline in `part` is
//! verified against these functions.

use vstd::prelude::*;

verus! {

/// The classification of one segment of a message.
#[derive(Debug, PartialEq, Eq, Structural, Clone, Copy)]
pub enum PartKind {
    Url,
    Emote,
    Code,
    Mention,
    Text,
}

/// A segment at the specification level: a kind together with a half-open
/// range of character positions into the source.
pub ghost struct SpecPart {
    pub kind: PartKind,
    pub start: int,
    pub end: int,
}

/// Characters the generic text pattern accepts: printable ASCII, no space.
pub open spec fn is_printable(c: char) -> bool {
    '!' <= c <= '~'
}

/// Characters that may appear in a mention name.
pub open spec fn is_word(c: char) -> bool {
    ('a' <= c <= 'z') || ('A' <= c <= 'Z') || ('0' <= c <= '9') || c == '_'
}

/// Length of the run of printable characters starting at position `i`.
pub open spec fn printable_run(s: Seq<char>, i: int) -> int
    decreases s.len() - i,
    when 0 <= i <= s.len()
{
    if i < s.len() && is_printable(s[i]) {
        1 + printable_run(s, i + 1)
    } else {
        0
    }
}

/// Length of the run of word characters starting at position `i`.
pub open spec fn word_run(s: Seq<char>, i: int) -> int
    decreases s.len() - i,
    when 0 <= i <= s.len()
{
    if i < s.len() && is_word(s[i]) {
        1 + word_run(s, i + 1)
    } else {
        0
    }
}

/// Length of the run of non-backtick characters starting at position `i`.
pub open spec fn plain_run(s: Seq<char>, i: int) -> int
    decreases s.len() - i,
    when 0 <= i <= s.len()
{
    if i < s.len() && s[i] != '`' {
        1 + plain_run(s, i + 1)
    } else {
        0
    }
}

pub proof fn lemma_printable_run_bounds(s: Seq<char>, i: int)
    requires
        0 <= i <= s.len(),
    ensures
        0 <= printable_run(s, i) <= s.len() - i,
    decreases s.len() - i,
{
    if i < s.len() && is_printable(s[i]) {
        lemma_printable_run_bounds(s, i + 1);
    }
}

pub proof fn lemma_word_run_bounds(s: Seq<char>, i: int)
    requires
        0 <= i <= s.len(),
    ensures
        0 <= word_run(s, i) <= s.len() - i,
    decreases s.len() - i,
{
    if i < s.len() && is_word(s[i]) {
        lemma_word_run_bounds(s, i + 1);
    }
}

pub proof fn lemma_plain_run_bounds(s: Seq<char>, i: int)
    requires
        0 <= i <= s.len(),
    ensures
        0 <= plain_run(s, i) <= s.len() - i,
    decreases s.len() - i,
{
    if i < s.len() && s[i] != '`' {
        lemma_plain_run_bounds(s, i + 1);
    }
}

/// Length of a fenced-code match at position `i`: a triple backtick, one or
/// more non-backtick characters, and a closing triple backtick. Zero when no
/// such pattern starts at `i`.
pub open spec fn fenced_len(s: Seq<char>, i: int) -> int {
    if 0 <= i && i + 3 <= s.len() && s[i] == '`' && s[i + 1] == '`' && s[i + 2] == '`' {
        let r = plain_run(s, i + 3);
        if r >= 1 && i + 3 + r + 3 <= s.len() && s[i + 3 + r] == '`' && s[i + 3 + r + 1] == '`'
            && s[i + 3 + r + 2] == '`' {
            3 + r + 3
        } else {
            0
        }
    } else {
        0
    }
}

/// Length of an inline-code match at position `i`: a backtick, one or more
/// non-backtick characters, and a closing backtick. Zero when no such
/// pattern starts at `i`.
pub open spec fn inline_len(s: Seq<char>, i: int) -> int {
    if 0 <= i && i < s.len() && s[i] == '`' {
        let r = plain_run(s, i + 1);
        if r >= 1 && i + 1 + r < s.len() && s[i + 1 + r] == '`' {
            1 + r + 1
        } else {
            0
        }
    } else {
        0
    }
}

/// Length of a mention candidate at position `i`: the marker `@` followed by
/// one or more word characters. Zero when no such pattern starts at `i`.
pub open spec fn mention_len(s: Seq<char>, i: int) -> int {
    if 0 <= i && i < s.len() && s[i] == '@' {
        let r = word_run(s, i + 1);
        if r >= 1 {
            1 + r
        } else {
            0
        }
    } else {
        0
    }
}

/// Length of the raw token starting at position `i`: the longest of the four
/// patterns wins, ties go to the earlier-listed pattern, and a character that
/// matches no pattern is consumed on its own.
pub open spec fn token_len(s: Seq<char>, i: int) -> int {
    let f = fenced_len(s, i);
    let c = inline_len(s, i);
    let m = mention_len(s, i);
    let t = printable_run(s, i);
    if f > 0 && f >= c && f >= m && f >= t {
        f
    } else if c > 0 && c >= m && c >= t {
        c
    } else if m > 0 && m >= t {
        m
    } else if t > 0 {
        t
    } else {
        1
    }
}

/// Membership of a string in a vocabulary list.
pub open spec fn contains_str(words: Seq<Seq<char>>, s: Seq<char>) -> bool {
    exists|k: int| 0 <= k < words.len() && words[k] == s
}

/// The kind the scanner itself gives the token at position `i`, including
/// mention acceptance: a mention candidate whose name is not a known name
/// keeps its span but degrades to text.
pub open spec fn raw_kind(s: Seq<char>, names: Seq<Seq<char>>, i: int) -> PartKind {
    let f = fenced_len(s, i);
    let c = inline_len(s, i);
    let m = mention_len(s, i);
    let t = printable_run(s, i);
    if f > 0 && f >= c && f >= m && f >= t {
        PartKind::Code
    } else if c > 0 && c >= m && c >= t {
        PartKind::Code
    } else if m > 0 && m >= t {
        if contains_str(names, s.subrange(i + 1, i + m)) {
            PartKind::Mention
        } else {
            PartKind::Text
        }
    } else {
        PartKind::Text
    }
}

/// What `url::Url::parse` accepts; the result depends on the characters of
/// the input alone. Stated by the trusted wrapper in `part`.
pub uninterp spec fn url_accepted(s: Seq<char>) -> bool;

/// A text segment is upgraded to a URL when its content parses as an
/// absolute URL. An absolute URL always carries the scheme separator `:`,
/// so content without one is never a candidate.
pub open spec fn url_upgrade(s: Seq<char>) -> bool {
    s.contains(':') && url_accepted(s)
}

/// The kind of the token at position `i` after the emote layer alone:
/// content that is a known emote becomes an emote whatever its raw kind.
pub open spec fn emote_kind(
    s: Seq<char>,
    emotes: Seq<Seq<char>>,
    names: Seq<Seq<char>>,
    i: int,
) -> PartKind {
    let n = token_len(s, i);
    if contains_str(emotes, s.subrange(i, i + n)) {
        PartKind::Emote
    } else {
        raw_kind(s, names, i)
    }
}

/// The kind of the token at position `i` after both reclassification
/// layers: content that is a known emote becomes an emote whatever its raw
/// kind, and remaining text that parses as an absolute URL becomes a URL.
pub open spec fn classified_kind(
    s: Seq<char>,
    emotes: Seq<Seq<char>>,
    names: Seq<Seq<char>>,
    i: int,
) -> PartKind {
    let n = token_len(s, i);
    let content = s.subrange(i, i + n);
    let raw = raw_kind(s, names, i);
    if contains_str(emotes, content) {
        PartKind::Emote
    } else if raw == PartKind::Text && url_upgrade(content) {
        PartKind::Url
    } else {
        raw
    }
}

/// The fully classified segment whose span starts at position `i`.
pub open spec fn part_at(s: Seq<char>, emotes: Seq<Seq<char>>, names: Seq<Seq<char>>, i: int)
    -> SpecPart {
    SpecPart {
        kind: classified_kind(s, emotes, names, i),
        start: i,
        end: i + token_len(s, i),
    }
}

pub proof fn lemma_token_len_bounds(s: Seq<char>, i: int)
    requires
        0 <= i < s.len(),
    ensures
        1 <= token_len(s, i) <= s.len() - i,
{
    lemma_printable_run_bounds(s, i);
    if i + 3 <= s.len() {
        lemma_plain_run_bounds(s, i + 3);
    }
    if i + 1 <= s.len() {
        lemma_plain_run_bounds(s, i + 1);
        lemma_word_run_bounds(s, i + 1);
    }
}

/// The classified segments of the source from position `i` on, before
/// coalescing: one segment per raw token, in order.
pub open spec fn raw_parts(s: Seq<char>, emotes: Seq<Seq<char>>, names: Seq<Seq<char>>, i: int)
    -> Seq<SpecPart>
    decreases s.len() - i,
    when 0 <= i <= s.len()
    via raw_parts_dec
{
    if i >= s.len() {
        Seq::empty()
    } else {
        seq![part_at(s, emotes, names, i)] + raw_parts(s, emotes, names, i + token_len(s, i))
    }
}

#[via_fn]
proof fn raw_parts_dec(s: Seq<char>, emotes: Seq<Seq<char>>, names: Seq<Seq<char>>, i: int) {
    if 0 <= i < s.len() {
        lemma_token_len_bounds(s, i);
    }
}

/// How many segments at the front of `ps` are text.
pub open spec fn leading_text(ps: Seq<SpecPart>) -> int
    decreases ps.len(),
{
    if ps.len() > 0 && ps[0].kind == PartKind::Text {
        1 + leading_text(ps.skip(1))
    } else {
        0
    }
}

pub proof fn lemma_leading_text(ps: Seq<SpecPart>)
    ensures
        0 <= leading_text(ps) <= ps.len(),
        forall|k: int| 0 <= k < leading_text(ps) ==> ps[k].kind == PartKind::Text,
        leading_text(ps) < ps.len() ==> ps[leading_text(ps)].kind != PartKind::Text,
    decreases ps.len(),
{
    if ps.len() > 0 && ps[0].kind == PartKind::Text {
        lemma_leading_text(ps.skip(1));
        assert forall|k: int| 0 <= k < leading_text(ps) implies ps[k].kind == PartKind::Text by {
            if k > 0 {
                assert(ps.skip(1)[k - 1].kind == PartKind::Text);
            }
        }
    }
}

/// The coalescing pass: each maximal run of adjacent text segments becomes
/// one text segment from the first one's start to the last one's end; any
/// other segment passes through unchanged.
pub open spec fn merged(ps: Seq<SpecPart>) -> Seq<SpecPart>
    decreases ps.len(),
    via merged_dec
{
    if ps.len() == 0 {
        Seq::empty()
    } else if ps[0].kind != PartKind::Text {
        seq![ps[0]] + merged(ps.skip(1))
    } else {
        let g = leading_text(ps);
        seq![SpecPart { kind: PartKind::Text, start: ps[0].start, end: ps[g - 1].end }]
            + merged(ps.skip(g))
    }
}

#[via_fn]
proof fn merged_dec(ps: Seq<SpecPart>) {
    lemma_leading_text(ps);
}

/// Two adjacent text segments at the head of a stream coalesce into the
/// single text segment that spans both.
pub proof fn lemma_merged_absorb(a: SpecPart, b: SpecPart, rest: Seq<SpecPart>)
    requires
        a.kind == PartKind::Text,
        b.kind == PartKind::Text,
    ensures
        merged(seq![a, b] + rest) == merged(
            seq![SpecPart { kind: PartKind::Text, start: a.start, end: b.end }] + rest,
        ),
{
    let ps = seq![a, b] + rest;
    let qs = seq![SpecPart { kind: PartKind::Text, start: a.start, end: b.end }] + rest;
    lemma_leading_text(rest);
    let lr = leading_text(rest);
    assert(ps[0] == a);
    assert(qs[0].kind == PartKind::Text);
    assert(ps.skip(1) =~= seq![b] + rest);
    assert((seq![b] + rest)[0] == b);
    assert((seq![b] + rest).skip(1) =~= rest);
    assert(qs.skip(1) =~= rest);
    assert(leading_text(seq![b] + rest) == 1 + lr);
    assert(leading_text(ps) == 1 + leading_text(seq![b] + rest));
    assert(leading_text(ps) == 2 + lr);
    assert(leading_text(qs) == 1 + lr);
    assert(ps.skip(2 + lr) =~= rest.skip(lr));
    assert(qs.skip(1 + lr) =~= rest.skip(lr));
    if lr == 0 {
        assert(ps[1] == b);
    } else {
        assert(ps[2 + lr - 1] == rest[lr - 1]);
        assert(qs[1 + lr - 1] == rest[lr - 1]);
    }
}

/// A stream whose head does not begin a pair of adjacent text segments
/// starts its coalesced form with the head itself.
pub proof fn lemma_merged_head(ps: Seq<SpecPart>)
    requires
        ps.len() > 0,
        ps[0].kind == PartKind::Text ==> ps.len() == 1 || ps[1].kind != PartKind::Text,
    ensures
        merged(ps) == seq![ps[0]] + merged(ps.skip(1)),
{
    if ps[0].kind == PartKind::Text {
        assert(leading_text(ps.skip(1)) == 0);
        assert(leading_text(ps) == 1);
        assert(SpecPart { kind: PartKind::Text, start: ps[0].start, end: ps[0].end } == ps[0]);
    }
}

/// What parsing a whole message produces: the classified token sequence of
/// the source, coalesced.
pub open spec fn message_parts(s: Seq<char>, emotes: Seq<Seq<char>>, names: Seq<Seq<char>>)
    -> Seq<SpecPart> {
    merged(raw_parts(s, emotes, names, 0))
}

} // verus!
