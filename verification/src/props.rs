//! Properties of the pipeline as a whole, proved over the model: the
//! emitted spans tile the entire source, no two adjacent text segments
//! survive coalescing, and the vocabulary alone decides emotes and
//! mentions parsed in isolation.

use vstd::prelude::*;

verus! {

use crate::model::PartKind;
use crate::model::SpecPart;
use crate::model::contains_str;
use crate::model::is_printable;
use crate::model::is_word;
use crate::model::printable_run;
use crate::model::word_run;
use crate::model::plain_run;
use crate::model::fenced_len;
use crate::model::inline_len;
use crate::model::mention_len;
use crate::model::token_len;
use crate::model::raw_kind;
use crate::model::classified_kind;
use crate::model::part_at;
use crate::model::raw_parts;
use crate::model::leading_text;
use crate::model::merged;
use crate::model::message_parts;
use crate::model::url_upgrade;
use crate::model::lemma_printable_run_bounds;
use crate::model::lemma_word_run_bounds;
use crate::model::lemma_plain_run_bounds;
use crate::model::lemma_token_len_bounds;
use crate::model::lemma_leading_text;

/// The spans of `ps` tile `[from, to)`: each is nonempty, each starts where
/// the previous one ends, the first starts at `from` and the last ends at
/// `to`; so there is no gap, no overlap and no byte loss.
pub open spec fn spans_tile(ps: Seq<SpecPart>, from: int, to: int) -> bool {
    &&& forall|k: int| 0 <= k < ps.len() ==> #[trigger] ps[k].start < ps[k].end
    &&& forall|k: int|
        0 <= k < ps.len() ==> #[trigger] ps[k].start == (if k == 0 {
            from
        } else {
            ps[k - 1].end
        })
    &&& if ps.len() == 0 {
        from == to
    } else {
        ps[ps.len() - 1].end == to
    }
}

/// The contents of the segments of `ps`, cut from `s` and laid end to end.
pub open spec fn concat_slices(s: Seq<char>, ps: Seq<SpecPart>) -> Seq<char>
    decreases ps.len(),
{
    if ps.len() == 0 {
        Seq::empty()
    } else {
        s.subrange(ps[0].start, ps[0].end) + concat_slices(s, ps.skip(1))
    }
}

/// No two consecutive segments are both text.
pub open spec fn no_adjacent_text(ps: Seq<SpecPart>) -> bool {
    forall|k: int|
        0 <= k && k + 1 < ps.len() ==> !(#[trigger] ps[k].kind == PartKind::Text && ps[k
            + 1].kind == PartKind::Text)
}

proof fn lemma_tile_skip(ps: Seq<SpecPart>, from: int, to: int, g: int)
    requires
        spans_tile(ps, from, to),
        1 <= g <= ps.len(),
    ensures
        spans_tile(ps.skip(g), ps[g - 1].end, to),
{
    let qs = ps.skip(g);
    assert forall|k: int| 0 <= k < qs.len() implies #[trigger] qs[k].start == (if k == 0 {
        ps[g - 1].end
    } else {
        qs[k - 1].end
    }) by {
        assert(qs[k] == ps[k + g]);
        assert(ps[k + g].start == ps[k + g - 1].end);
        if k > 0 {
            assert(qs[k - 1] == ps[k + g - 1]);
        }
    }
    assert forall|k: int| 0 <= k < qs.len() implies #[trigger] qs[k].start < qs[k].end by {
        assert(qs[k] == ps[k + g]);
    }
    if qs.len() > 0 {
        assert(qs[qs.len() - 1] == ps[ps.len() - 1]);
    }
}

proof fn lemma_tile_bounds(ps: Seq<SpecPart>, from: int, to: int)
    requires
        spans_tile(ps, from, to),
    ensures
        forall|k: int|
            0 <= k < ps.len() ==> from <= #[trigger] ps[k].start && ps[k].start < ps[k].end
                && ps[k].end <= to,
    decreases ps.len(),
{
    if ps.len() > 0 {
        lemma_tile_skip(ps, from, to, 1);
        let qs = ps.skip(1);
        lemma_tile_bounds(qs, ps[0].end, to);
        assert forall|k: int|
            0 <= k < ps.len() implies from <= #[trigger] ps[k].start && ps[k].start < ps[k].end
            && ps[k].end <= to by {
            assert(ps[0].start == from);
            if k > 0 {
                assert(ps[k] == qs[k - 1]);
                assert(ps[0].end <= qs[k - 1].start && qs[k - 1].start < qs[k - 1].end && qs[k
                    - 1].end <= to);
            } else {
                if ps.len() == 1 {
                    assert(ps[ps.len() - 1].end == to);
                } else {
                    assert(ps[1] == qs[0]);
                    assert(ps[1].start == ps[0].end);
                    assert(ps[0].end <= qs[0].start && qs[0].start < qs[0].end && qs[0].end <= to);
                }
            }
        }
    }
}

proof fn lemma_tile_prepend(x: SpecPart, qs: Seq<SpecPart>, to: int)
    requires
        x.start < x.end,
        spans_tile(qs, x.end, to),
    ensures
        spans_tile(seq![x] + qs, x.start, to),
{
    let ps = seq![x] + qs;
    assert forall|k: int| 0 <= k < ps.len() implies #[trigger] ps[k].start == (if k == 0 {
        x.start
    } else {
        ps[k - 1].end
    }) by {
        if k > 0 {
            assert(ps[k] == qs[k - 1]);
            if k > 1 {
                assert(ps[k - 1] == qs[k - 2]);
            }
        }
    }
    assert forall|k: int| 0 <= k < ps.len() implies #[trigger] ps[k].start < ps[k].end by {
        if k > 0 {
            assert(ps[k] == qs[k - 1]);
        }
    }
    if qs.len() > 0 {
        assert(ps[ps.len() - 1] == qs[qs.len() - 1]);
    }
}

proof fn lemma_raw_parts_tile(s: Seq<char>, em: Seq<Seq<char>>, nm: Seq<Seq<char>>, i: int)
    requires
        0 <= i <= s.len(),
    ensures
        spans_tile(raw_parts(s, em, nm, i), i, s.len() as int),
    decreases s.len() - i,
{
    if i < s.len() {
        lemma_token_len_bounds(s, i);
        let n = token_len(s, i);
        lemma_raw_parts_tile(s, em, nm, i + n);
        lemma_tile_prepend(part_at(s, em, nm, i), raw_parts(s, em, nm, i + n), s.len() as int);
        assert(raw_parts(s, em, nm, i) == seq![part_at(s, em, nm, i)] + raw_parts(s, em, nm, i + n));
    }
}

proof fn lemma_merged_tile(ps: Seq<SpecPart>, from: int, to: int)
    requires
        spans_tile(ps, from, to),
    ensures
        spans_tile(merged(ps), from, to),
    decreases ps.len(),
{
    if ps.len() == 0 {
    } else if ps[0].kind != PartKind::Text {
        lemma_tile_skip(ps, from, to, 1);
        lemma_merged_tile(ps.skip(1), ps[0].end, to);
        lemma_tile_prepend(ps[0], merged(ps.skip(1)), to);
    } else {
        lemma_leading_text(ps);
        let g = leading_text(ps);
        lemma_tile_bounds(ps, from, to);
        lemma_tile_skip(ps, from, to, g);
        lemma_merged_tile(ps.skip(g), ps[g - 1].end, to);
        let x = SpecPart { kind: PartKind::Text, start: ps[0].start, end: ps[g - 1].end };
        assert(from <= ps[g - 1].start);
        assert(ps[g - 1].start < ps[g - 1].end);
        assert(ps[0].start == from);
        assert(x.start < x.end);
        lemma_tile_prepend(x, merged(ps.skip(g)), to);
    }
}

proof fn lemma_tile_concat(s: Seq<char>, ps: Seq<SpecPart>, from: int, to: int)
    requires
        spans_tile(ps, from, to),
        0 <= from <= to <= s.len(),
    ensures
        concat_slices(s, ps) == s.subrange(from, to),
    decreases ps.len(),
{
    if ps.len() == 0 {
        assert(s.subrange(from, to) =~= Seq::empty());
    } else {
        lemma_tile_bounds(ps, from, to);
        assert(from <= ps[0].start);
        assert(ps[0].start < ps[0].end);
        assert(ps[0].end <= to);
        lemma_tile_skip(ps, from, to, 1);
        lemma_tile_concat(s, ps.skip(1), ps[0].end, to);
        assert(s.subrange(from, to) =~= s.subrange(from, ps[0].end) + s.subrange(ps[0].end, to));
    }
}

/// Coverage: the spans of the segments of any parse tile the whole source,
/// in order, with no gaps and no overlaps, and concatenating the content
/// slices they stand for reconstructs the source exactly.
pub proof fn lemma_parse_covers(s: Seq<char>, em: Seq<Seq<char>>, nm: Seq<Seq<char>>)
    ensures
        spans_tile(message_parts(s, em, nm), 0, s.len() as int),
        concat_slices(s, message_parts(s, em, nm)) == s,
{
    lemma_raw_parts_tile(s, em, nm, 0);
    lemma_merged_tile(raw_parts(s, em, nm, 0), 0, s.len() as int);
    lemma_tile_concat(s, message_parts(s, em, nm), 0, s.len() as int);
    assert(s.subrange(0, s.len() as int) =~= s);
}

proof fn lemma_merged_head_kind(ps: Seq<SpecPart>)
    requires
        ps.len() > 0,
    ensures
        merged(ps).len() > 0,
        (merged(ps)[0].kind == PartKind::Text) == (ps[0].kind == PartKind::Text),
{
    if ps[0].kind != PartKind::Text {
        assert(merged(ps)[0] == ps[0]);
    } else {
        lemma_leading_text(ps);
    }
}

#[verifier::rlimit(100)]
proof fn lemma_merged_no_adjacent(ps: Seq<SpecPart>)
    ensures
        no_adjacent_text(merged(ps)),
    decreases ps.len(),
{
    if ps.len() == 0 {
    } else if ps[0].kind != PartKind::Text {
        lemma_merged_no_adjacent(ps.skip(1));
        let qs = seq![ps[0]] + merged(ps.skip(1));
        assert forall|k: int|
            0 <= k && k + 1 < qs.len() implies !(#[trigger] qs[k].kind == PartKind::Text && qs[k
            + 1].kind == PartKind::Text) by {
            if k > 0 {
                assert(qs[k] == merged(ps.skip(1))[k - 1]);
                assert(qs[k + 1] == merged(ps.skip(1))[k]);
            }
        }
    } else {
        lemma_leading_text(ps);
        let g = leading_text(ps);
        lemma_merged_no_adjacent(ps.skip(g));
        let x = SpecPart { kind: PartKind::Text, start: ps[0].start, end: ps[g - 1].end };
        let qs = seq![x] + merged(ps.skip(g));
        assert forall|k: int|
            0 <= k && k + 1 < qs.len() implies !(#[trigger] qs[k].kind == PartKind::Text && qs[k
            + 1].kind == PartKind::Text) by {
            if k == 0 {
                assert(ps.skip(g).len() > 0);
                lemma_merged_head_kind(ps.skip(g));
                assert(ps.skip(g)[0] == ps[g]);
                assert(qs[1] == merged(ps.skip(g))[0]);
            } else {
                assert(qs[k] == merged(ps.skip(g))[k - 1]);
                assert(qs[k + 1] == merged(ps.skip(g))[k]);
            }
        }
    }
}

/// No two consecutive emitted segments are both text: coalescing is
/// exhaustive, for every input and every vocabulary.
pub proof fn lemma_parse_no_adjacent_text(s: Seq<char>, em: Seq<Seq<char>>, nm: Seq<Seq<char>>)
    ensures
        no_adjacent_text(message_parts(s, em, nm)),
{
    lemma_merged_no_adjacent(raw_parts(s, em, nm, 0));
}

proof fn lemma_printable_run_all(s: Seq<char>, i: int)
    requires
        0 <= i <= s.len(),
        forall|j: int| i <= j < s.len() ==> is_printable(#[trigger] s[j]),
    ensures
        printable_run(s, i) == s.len() - i,
    decreases s.len() - i,
{
    if i < s.len() {
        lemma_printable_run_all(s, i + 1);
    }
}

proof fn lemma_word_run_all(s: Seq<char>, i: int)
    requires
        0 <= i <= s.len(),
        forall|j: int| i <= j < s.len() ==> is_word(#[trigger] s[j]),
    ensures
        word_run(s, i) == s.len() - i,
    decreases s.len() - i,
{
    if i < s.len() {
        lemma_word_run_all(s, i + 1);
    }
}

/// The whole of a one-token source is one segment: when the token at
/// position zero spans the full input, the parse is that single classified
/// segment.
proof fn lemma_single_token(s: Seq<char>, em: Seq<Seq<char>>, nm: Seq<Seq<char>>)
    requires
        s.len() >= 1,
        token_len(s, 0) == s.len(),
    ensures
        message_parts(s, em, nm) == seq![part_at(s, em, nm, 0)],
{
    let x = part_at(s, em, nm, 0);
    assert(raw_parts(s, em, nm, s.len() as int) =~= Seq::empty());
    assert(raw_parts(s, em, nm, 0) =~= seq![x]);
    assert(seq![x][0] == x);
    assert(seq![x].skip(1) =~= Seq::<SpecPart>::empty());
    assert(merged(Seq::<SpecPart>::empty()) =~= Seq::<SpecPart>::empty());
    assert(leading_text(Seq::<SpecPart>::empty()) == 0);
    if x.kind != PartKind::Text {
        assert(merged(seq![x]) =~= seq![x]);
    } else {
        assert(leading_text(seq![x]) == 1);
        assert(merged(seq![x]) =~= seq![x]);
    }
}

/// Vocabulary fidelity: parsing a known emote on its own yields exactly one
/// segment, an emote covering the whole input. It holds for any emote made
/// of printable characters, and for any emote of a single character.
pub proof fn lemma_emote_fidelity(s: Seq<char>, em: Seq<Seq<char>>, nm: Seq<Seq<char>>)
    requires
        s.len() >= 1,
        s.len() == 1 || forall|j: int| 0 <= j < s.len() ==> is_printable(#[trigger] s[j]),
        contains_str(em, s),
    ensures
        message_parts(s, em, nm) == seq![
            SpecPart { kind: PartKind::Emote, start: 0, end: s.len() as int },
        ],
{
    let len = s.len() as int;
    lemma_printable_run_bounds(s, 0);
    if 3 <= s.len() {
        lemma_plain_run_bounds(s, 3);
    }
    if 1 <= s.len() {
        lemma_plain_run_bounds(s, 1);
        lemma_word_run_bounds(s, 1);
    }
    if s.len() == 1 && !is_printable(s[0]) {
        assert(s[0] != '`' && s[0] != '@');
        assert(token_len(s, 0) == 1);
    } else {
        lemma_printable_run_all(s, 0);
        assert(token_len(s, 0) == len);
    }
    lemma_single_token(s, em, nm);
    assert(s.subrange(0, len) =~= s);
    assert(classified_kind(s, em, nm, 0) == PartKind::Emote);
}

/// Mention fidelity: parsing `@name` on its own yields exactly one segment
/// spanning the whole input; it is a mention exactly when the name is in
/// the name vocabulary, and otherwise the unchanged text. The name must be
/// made of word characters, and `@name` itself must not be a known emote.
pub proof fn lemma_mention_fidelity(name: Seq<char>, em: Seq<Seq<char>>, nm: Seq<Seq<char>>)
    requires
        name.len() >= 1,
        forall|j: int| 0 <= j < name.len() ==> is_word(#[trigger] name[j]),
        !contains_str(em, seq!['@'] + name),
    ensures
        message_parts(seq!['@'] + name, em, nm) == seq![
            SpecPart {
                kind: if contains_str(nm, name) {
                    PartKind::Mention
                } else {
                    PartKind::Text
                },
                start: 0,
                end: name.len() + 1 as int,
            },
        ],
{
    let s = seq!['@'] + name;
    let len = s.len() as int;
    assert(s[0] == '@');
    assert forall|j: int| 1 <= j < len implies is_word(#[trigger] s[j]) by {
        assert(s[j] == name[j - 1]);
    }
    assert forall|j: int| 0 <= j < len implies is_printable(#[trigger] s[j]) by {
        if j >= 1 {
            assert(is_word(s[j]));
        }
    }
    lemma_printable_run_all(s, 0);
    lemma_word_run_all(s, 1);
    assert(mention_len(s, 0) == len);
    assert(fenced_len(s, 0) == 0);
    assert(inline_len(s, 0) == 0);
    assert(token_len(s, 0) == len);
    lemma_single_token(s, em, nm);
    assert(s.subrange(1, len) =~= name);
    assert(s.subrange(0, len) =~= s);
    assert(raw_kind(s, nm, 0) == (if contains_str(nm, name) {
        PartKind::Mention
    } else {
        PartKind::Text
    }));
    assert forall|j: int| 0 <= j < len implies s[j] != ':' by {
        if j >= 1 {
            assert(is_word(s[j]));
        }
    }
    assert(!s.contains(':'));
    assert(!url_upgrade(s));
}

proof fn lemma_printable_run_subrange(s: Seq<char>, a: int, b: int, i: int)
    requires
        0 <= a <= i <= b <= s.len(),
    ensures
        printable_run(s.subrange(a, b), i - a) == (if i + printable_run(s, i) <= b {
            printable_run(s, i)
        } else {
            b - i
        }),
    decreases b - i,
{
    let t = s.subrange(a, b);
    lemma_printable_run_bounds(s, i);
    if i < b {
        assert(t[i - a] == s[i]);
        if is_printable(s[i]) {
            lemma_printable_run_subrange(s, a, b, i + 1);
        }
    }
}

proof fn lemma_word_run_subrange(s: Seq<char>, a: int, b: int, i: int)
    requires
        0 <= a <= i <= b <= s.len(),
    ensures
        word_run(s.subrange(a, b), i - a) == (if i + word_run(s, i) <= b {
            word_run(s, i)
        } else {
            b - i
        }),
    decreases b - i,
{
    let t = s.subrange(a, b);
    lemma_word_run_bounds(s, i);
    if i < b {
        assert(t[i - a] == s[i]);
        if is_word(s[i]) {
            lemma_word_run_subrange(s, a, b, i + 1);
        }
    }
}

proof fn lemma_plain_run_subrange(s: Seq<char>, a: int, b: int, i: int)
    requires
        0 <= a <= i <= b <= s.len(),
    ensures
        plain_run(s.subrange(a, b), i - a) == (if i + plain_run(s, i) <= b {
            plain_run(s, i)
        } else {
            b - i
        }),
    decreases b - i,
{
    let t = s.subrange(a, b);
    lemma_plain_run_bounds(s, i);
    if i < b {
        assert(t[i - a] == s[i]);
        if s[i] != '`' {
            lemma_plain_run_subrange(s, a, b, i + 1);
        }
    }
}

/// A fenced-code match found in a slice of the source is a fenced-code
/// match of the source itself, of the same length.
proof fn lemma_fenced_truncate(s: Seq<char>, a: int, b: int, i: int)
    requires
        0 <= a <= i < b <= s.len(),
    ensures
        fenced_len(s.subrange(a, b), i - a) == 0 || fenced_len(s.subrange(a, b), i - a)
            == fenced_len(s, i),
{
    let t = s.subrange(a, b);
    if fenced_len(t, i - a) > 0 {
        assert(t[i - a] == s[i]);
        assert(t[i - a + 1] == s[i + 1]);
        assert(t[i - a + 2] == s[i + 2]);
        lemma_plain_run_subrange(s, a, b, i + 3);
        lemma_plain_run_bounds(s, i + 3);
        let r = plain_run(t, i - a + 3);
        assert(r == plain_run(s, i + 3));
        assert(t[i - a + 3 + r] == s[i + 3 + r]);
        assert(t[i - a + 3 + r + 1] == s[i + 3 + r + 1]);
        assert(t[i - a + 3 + r + 2] == s[i + 3 + r + 2]);
    }
}

/// An inline-code match found in a slice of the source is an inline-code
/// match of the source itself, of the same length.
proof fn lemma_inline_truncate(s: Seq<char>, a: int, b: int, i: int)
    requires
        0 <= a <= i < b <= s.len(),
    ensures
        inline_len(s.subrange(a, b), i - a) == 0 || inline_len(s.subrange(a, b), i - a)
            == inline_len(s, i),
{
    let t = s.subrange(a, b);
    if inline_len(t, i - a) > 0 {
        assert(t[i - a] == s[i]);
        lemma_plain_run_subrange(s, a, b, i + 1);
        lemma_plain_run_bounds(s, i + 1);
        let r = plain_run(t, i - a + 1);
        assert(r == plain_run(s, i + 1));
        assert(t[i - a + 1 + r] == s[i + 1 + r]);
    }
}

/// A raw token the scanner classifies as text keeps its length and its
/// classification when the containing slice of the source is scanned on its
/// own with an empty name vocabulary.
proof fn lemma_token_truncate(
    s: Seq<char>,
    nm: Seq<Seq<char>>,
    a: int,
    b: int,
    i: int,
)
    requires
        0 <= a <= i < b <= s.len(),
        i + token_len(s, i) <= b,
        raw_kind(s, nm, i) == PartKind::Text,
    ensures
        token_len(s.subrange(a, b), i - a) == token_len(s, i),
        raw_kind(s.subrange(a, b), Seq::<Seq<char>>::empty(), i - a) == PartKind::Text,
{
    let t = s.subrange(a, b);
    let f = fenced_len(s, i);
    let c = inline_len(s, i);
    let m = mention_len(s, i);
    let t0 = printable_run(s, i);
    lemma_token_len_bounds(s, i);
    lemma_printable_run_bounds(s, i);
    lemma_fenced_truncate(s, a, b, i);
    lemma_inline_truncate(s, a, b, i);
    lemma_printable_run_subrange(s, a, b, i);
    assert(t[i - a] == s[i]);
    if s[i] == '@' {
        lemma_word_run_subrange(s, a, b, i + 1);
        lemma_word_run_bounds(s, i + 1);
    }
    if m > 0 && m >= t0 {
        // the rejected-mention case: the mention pattern wins again
        assert(token_len(s, i) == m);
        assert(mention_len(t, i - a) == m);
        assert(printable_run(t, i - a) == t0);
        if f > 0 {
            assert(f < m);
        }
        if c > 0 {
            assert(c < m);
        }
        assert(token_len(t, i - a) == m);
        assert(t.subrange(i - a + 1, i - a + m) =~= s.subrange(i + 1, i + m));
        assert(!contains_str(Seq::<Seq<char>>::empty(), t.subrange(i - a + 1, i - a + m)));
    } else if t0 > 0 {
        // the generic text run wins again
        assert(token_len(s, i) == t0);
        assert(printable_run(t, i - a) == t0);
        if f > 0 {
            assert(f < t0);
        }
        if c > 0 {
            assert(c < t0);
        }
        assert(mention_len(t, i - a) == m);
        assert(token_len(t, i - a) == t0);
    } else {
        // a character no pattern matches is consumed on its own again
        assert(f == 0 && c == 0 && m == 0 && t0 == 0);
        assert(token_len(s, i) == 1);
        assert(printable_run(t, i - a) == 0);
        assert(mention_len(t, i - a) == 0);
        assert(fenced_len(t, i - a) == 0);
        assert(inline_len(t, i - a) == 0);
        assert(token_len(t, i - a) == 1);
    }
}

/// The range `[i, e)` of the source is filled exactly by raw tokens that
/// all come out of the classification layers as text.
spec fn text_block(s: Seq<char>, em: Seq<Seq<char>>, nm: Seq<Seq<char>>, i: int, e: int) -> bool
    decreases e - i,
    when 0 <= i && e <= s.len()
    via text_block_dec
{
    if i >= e {
        i == e
    } else {
        &&& classified_kind(s, em, nm, i) == PartKind::Text
        &&& i + token_len(s, i) <= e
        &&& text_block(s, em, nm, i + token_len(s, i), e)
    }
}

#[via_fn]
proof fn text_block_dec(s: Seq<char>, em: Seq<Seq<char>>, nm: Seq<Seq<char>>, i: int, e: int) {
    if 0 <= i < e <= s.len() {
        lemma_token_len_bounds(s, i);
    }
}

spec fn all_text(ps: Seq<SpecPart>) -> bool {
    forall|k: int| 0 <= k < ps.len() ==> #[trigger] ps[k].kind == PartKind::Text
}

proof fn lemma_leading_text_all(ps: Seq<SpecPart>)
    requires
        all_text(ps),
    ensures
        leading_text(ps) == ps.len(),
    decreases ps.len(),
{
    if ps.len() > 0 {
        assert(ps[0].kind == PartKind::Text);
        assert forall|k: int| 0 <= k < ps.skip(1).len() implies #[trigger] ps.skip(1)[k].kind
            == PartKind::Text by {
            assert(ps.skip(1)[k] == ps[k + 1]);
        }
        lemma_leading_text_all(ps.skip(1));
    }
}

proof fn lemma_merged_all_text(ps: Seq<SpecPart>, from: int, to: int)
    requires
        spans_tile(ps, from, to),
        ps.len() > 0,
        all_text(ps),
    ensures
        merged(ps) == seq![SpecPart { kind: PartKind::Text, start: from, end: to }],
{
    lemma_leading_text_all(ps);
    assert(ps[0].kind == PartKind::Text);
    assert(ps[0].start == from);
    assert(ps[ps.len() - 1].end == to);
    assert(ps.skip(ps.len() as int) =~= Seq::<SpecPart>::empty());
    assert(merged(Seq::<SpecPart>::empty()) =~= Seq::<SpecPart>::empty());
    assert(merged(ps) =~= seq![SpecPart { kind: PartKind::Text, start: from, end: to }]);
}

/// A text block, cut from the source and scanned on its own with an empty
/// vocabulary, again becomes raw tokens that are all text.
proof fn lemma_block_reparse(
    s: Seq<char>,
    em: Seq<Seq<char>>,
    nm: Seq<Seq<char>>,
    start: int,
    end: int,
    j: int,
)
    requires
        0 <= start <= j <= end <= s.len(),
        text_block(s, em, nm, j, end),
    ensures
        all_text(
            raw_parts(
                s.subrange(start, end),
                Seq::<Seq<char>>::empty(),
                Seq::<Seq<char>>::empty(),
                j - start,
            ),
        ),
    decreases end - j,
{
    let t = s.subrange(start, end);
    let e0 = Seq::<Seq<char>>::empty();
    if j == end {
        assert(raw_parts(t, e0, e0, j - start) =~= Seq::<SpecPart>::empty());
    } else {
        lemma_token_len_bounds(s, j);
        let n = token_len(s, j);
        assert(raw_kind(s, nm, j) == PartKind::Text);
        lemma_token_truncate(s, nm, start, end, j);
        assert(token_len(t, j - start) == n);
        assert(t.subrange(j - start, j - start + n) =~= s.subrange(j, j + n));
        assert(!url_upgrade(s.subrange(j, j + n)));
        assert(classified_kind(t, e0, e0, j - start) == PartKind::Text);
        lemma_block_reparse(s, em, nm, start, end, j + n);
        let ps = raw_parts(t, e0, e0, j - start);
        let rest = raw_parts(t, e0, e0, j - start + n);
        assert(ps == seq![part_at(t, e0, e0, j - start)] + rest);
        assert forall|k: int| 0 <= k < ps.len() implies #[trigger] ps[k].kind == PartKind::Text by {
            if k > 0 {
                assert(ps[k] == rest[k - 1]);
            }
        }
    }
}

/// Walks the leading run of text tokens at `i`: it forms a text block, and
/// the raw segment stream continues at the block's end.
proof fn lemma_leading_block(s: Seq<char>, em: Seq<Seq<char>>, nm: Seq<Seq<char>>, i: int)
    requires
        0 <= i < s.len(),
        classified_kind(s, em, nm, i) == PartKind::Text,
    ensures
        ({
            let ps = raw_parts(s, em, nm, i);
            let g = leading_text(ps);
            &&& 1 <= g <= ps.len()
            &&& i < ps[g - 1].end <= s.len()
            &&& text_block(s, em, nm, i, ps[g - 1].end)
            &&& ps.skip(g) == raw_parts(s, em, nm, ps[g - 1].end)
        }),
    decreases s.len() - i,
{
    lemma_token_len_bounds(s, i);
    let n = token_len(s, i);
    let next = i + n;
    let ps = raw_parts(s, em, nm, i);
    let rest = raw_parts(s, em, nm, next);
    assert(ps == seq![part_at(s, em, nm, i)] + rest);
    assert(ps[0] == part_at(s, em, nm, i));
    assert(ps.skip(1) =~= rest);
    assert(leading_text(ps) == 1 + leading_text(rest));
    if next >= s.len() || classified_kind(s, em, nm, next) != PartKind::Text {
        if next < s.len() {
            lemma_token_len_bounds(s, next);
            assert(rest == seq![part_at(s, em, nm, next)] + raw_parts(
                s,
                em,
                nm,
                next + token_len(s, next),
            ));
            assert(rest[0].kind != PartKind::Text);
        } else {
            assert(rest =~= Seq::<SpecPart>::empty());
        }
        assert(leading_text(rest) == 0);
        assert(ps[0].end == next);
        assert(text_block(s, em, nm, next, next));
        assert(text_block(s, em, nm, i, next));
    } else {
        lemma_leading_block(s, em, nm, next);
        let g2 = leading_text(rest);
        let e2 = rest[g2 - 1].end;
        lemma_raw_parts_tile(s, em, nm, next);
        lemma_tile_bounds(rest, next, s.len() as int);
        assert(next <= rest[g2 - 1].start);
        assert(ps[1 + g2 - 1] == rest[g2 - 1]);
        assert(ps.skip(1 + g2) =~= rest.skip(g2));
        assert(text_block(s, em, nm, i, e2));
    }
}

/// Every text segment the whole parse emits covers a text block of the
/// source.
proof fn lemma_merged_text_blocks(s: Seq<char>, em: Seq<Seq<char>>, nm: Seq<Seq<char>>, i: int)
    requires
        0 <= i <= s.len(),
    ensures
        ({
            let qs = merged(raw_parts(s, em, nm, i));
            forall|k: int|
                0 <= k < qs.len() && #[trigger] qs[k].kind == PartKind::Text ==> text_block(
                    s,
                    em,
                    nm,
                    qs[k].start,
                    qs[k].end,
                )
        }),
    decreases s.len() - i,
{
    if i < s.len() {
        lemma_token_len_bounds(s, i);
        let n = token_len(s, i);
        let p0 = part_at(s, em, nm, i);
        let ps = raw_parts(s, em, nm, i);
        let qs = merged(ps);
        assert(ps == seq![p0] + raw_parts(s, em, nm, i + n));
        assert(ps[0] == p0);
        if p0.kind != PartKind::Text {
            assert(ps.skip(1) =~= raw_parts(s, em, nm, i + n));
            lemma_merged_text_blocks(s, em, nm, i + n);
            let inner = merged(raw_parts(s, em, nm, i + n));
            assert(qs == seq![p0] + inner);
            assert forall|k: int|
                0 <= k < qs.len() && #[trigger] qs[k].kind == PartKind::Text implies text_block(
                s,
                em,
                nm,
                qs[k].start,
                qs[k].end,
            ) by {
                if k > 0 {
                    assert(qs[k] == inner[k - 1]);
                }
            }
        } else {
            lemma_leading_block(s, em, nm, i);
            let g = leading_text(ps);
            let e = ps[g - 1].end;
            assert(qs == seq![SpecPart { kind: PartKind::Text, start: i, end: e }] + merged(
                raw_parts(s, em, nm, e),
            ));
            lemma_merged_text_blocks(s, em, nm, e);
            let inner = merged(raw_parts(s, em, nm, e));
            assert forall|k: int|
                0 <= k < qs.len() && #[trigger] qs[k].kind == PartKind::Text implies text_block(
                s,
                em,
                nm,
                qs[k].start,
                qs[k].end,
            ) by {
                if k > 0 {
                    assert(qs[k] == inner[k - 1]);
                }
            }
        }
    }
}

/// Idempotent merge: the content of any text segment a parse emits, parsed
/// again on its own with an empty vocabulary, is exactly one text segment
/// covering that whole content.
pub proof fn lemma_text_reparse(s: Seq<char>, em: Seq<Seq<char>>, nm: Seq<Seq<char>>, k: int)
    requires
        0 <= k < message_parts(s, em, nm).len(),
        message_parts(s, em, nm)[k].kind == PartKind::Text,
    ensures
        ({
            let q = message_parts(s, em, nm)[k];
            message_parts(
                s.subrange(q.start, q.end),
                Seq::<Seq<char>>::empty(),
                Seq::<Seq<char>>::empty(),
            ) == seq![SpecPart { kind: PartKind::Text, start: 0, end: q.end - q.start }]
        }),
{
    let q = message_parts(s, em, nm)[k];
    let e0 = Seq::<Seq<char>>::empty();
    lemma_raw_parts_tile(s, em, nm, 0);
    lemma_merged_tile(raw_parts(s, em, nm, 0), 0, s.len() as int);
    lemma_tile_bounds(message_parts(s, em, nm), 0, s.len() as int);
    assert(0 <= q.start);
    assert(q.start < q.end);
    assert(q.end <= s.len());
    lemma_merged_text_blocks(s, em, nm, 0);
    assert(text_block(s, em, nm, q.start, q.end));
    let t = s.subrange(q.start, q.end);
    lemma_block_reparse(s, em, nm, q.start, q.end, q.start);
    lemma_raw_parts_tile(t, e0, e0, 0);
    assert(raw_parts(t, e0, e0, 0).len() > 0) by {
        lemma_token_len_bounds(t, 0);
        assert(raw_parts(t, e0, e0, 0) == seq![part_at(t, e0, e0, 0)] + raw_parts(
            t,
            e0,
            e0,
            token_len(t, 0),
        ));
    }
    lemma_merged_all_text(raw_parts(t, e0, e0, 0), 0, t.len() as int);
}

} // verus!

