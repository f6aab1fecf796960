//! The executable pipeline: the scanner, the emote and URL reclassification
//! layers, and the coalescing parser, each verified against the model in
//! `model`.

use vstd::prelude::*;

verus! {

pub use crate::model::PartKind;

use crate::model::SpecPart;
use crate::model::contains_str;
use crate::model::printable_run;
use crate::model::word_run;
use crate::model::plain_run;
use crate::model::fenced_len;
use crate::model::inline_len;
use crate::model::mention_len;
use crate::model::token_len;
use crate::model::raw_kind;
use crate::model::part_at;
use crate::model::raw_parts;
use crate::model::merged;
use crate::model::message_parts;
use crate::model::url_accepted;
use crate::model::emote_kind;
use crate::model::lemma_token_len_bounds;
use crate::model::lemma_word_run_bounds;
use crate::model::lemma_plain_run_bounds;
use crate::model::lemma_merged_head;
use crate::model::lemma_merged_absorb;

/// The caller-supplied vocabulary: the known emote names and the known
/// mentionable names, read-only for the duration of one parse.
#[derive(Clone, Default)]
pub struct Extras {
    pub emotes: Vec<String>,
    pub names: Vec<String>,
}

impl Extras {
    /// The emote vocabulary as a set of character sequences.
    pub open spec fn emotes_view(&self) -> Seq<Seq<char>> {
        self.emotes.deep_view()
    }

    /// The name vocabulary as a set of character sequences.
    pub open spec fn names_view(&self) -> Seq<Seq<char>> {
        self.names.deep_view()
    }
}

/// One classified, contiguous slice of the input message: its content, its
/// half-open span of character positions into the source, and its kind.
#[derive(Debug)]
pub struct Part<'src> {
    pub str: &'src str,
    pub span: (usize, usize),
    pub kind: PartKind,
}

impl<'src> View for Part<'src> {
    type V = SpecPart;

    open spec fn view(&self) -> SpecPart {
        SpecPart { kind: self.kind, start: self.span.0 as int, end: self.span.1 as int }
    }
}

impl<'src> DeepView for Part<'src> {
    type V = SpecPart;

    open spec fn deep_view(&self) -> SpecPart {
        self@
    }
}

/// Character-by-character string equality.
fn str_eq(a: &str, b: &str) -> (r: bool)
    ensures
        r == (a@ == b@),
{
    let n = a.unicode_len();
    if n != b.unicode_len() {
        proof {
            assert(a@ != b@) by {
                if a@ == b@ {
                    assert(a@.len() == b@.len());
                }
            }
        }
        return false;
    }
    let mut i: usize = 0;
    while i < n
        invariant
            n == a@.len() == b@.len(),
            0 <= i <= n,
            forall|j: int| 0 <= j < i ==> a@[j] == b@[j],
        decreases n - i,
    {
        if a.get_char(i) != b.get_char(i) {
            return false;
        }
        i += 1;
    }
    proof {
        assert(a@ =~= b@);
    }
    true
}

/// Whether `s` is one of the words of a vocabulary list.
fn contains_word(words: &Vec<String>, s: &str) -> (r: bool)
    ensures
        r == contains_str(words.deep_view(), s@),
{
    let mut i: usize = 0;
    while i < words.len()
        invariant
            0 <= i <= words.len(),
            forall|j: int| 0 <= j < i ==> words.deep_view()[j] != s@,
        decreases words.len() - i,
    {
        if str_eq(words[i].as_str(), s) {
            assert(words.deep_view()[i as int] == s@);
            return true;
        }
        i += 1;
    }
    false
}

/// The source as an indexable character sequence.
fn to_chars(s: &str) -> (v: Vec<char>)
    ensures
        v@ == s@,
{
    let n = s.unicode_len();
    let mut v: Vec<char> = Vec::new();
    let mut i: usize = 0;
    while i < n
        invariant
            n == s@.len(),
            0 <= i <= n,
            v@ =~= s@.subrange(0, i as int),
        decreases n - i,
    {
        v.push(s.get_char(i));
        proof {
            assert(v@ =~= s@.subrange(0, i + 1));
        }
        i += 1;
    }
    proof {
        assert(v@ =~= s@);
    }
    v
}

/// Relies on `url::Url::parse`: whether it succeeds depends on the
/// characters of the input alone, and the wrapper reports only that
/// success or failure.
#[verifier::external_body]
fn parses_as_url(s: &str) -> (r: bool)
    ensures
        r == url_accepted(s@),
{
    url::Url::parse(s).is_ok()
}

/// Whether the content carries the scheme separator an absolute URL needs.
fn has_colon(s: &str) -> (r: bool)
    ensures
        r == s@.contains(':'),
{
    let n = s.unicode_len();
    let mut i: usize = 0;
    while i < n
        invariant
            n == s@.len(),
            0 <= i <= n,
            forall|j: int| 0 <= j < i ==> s@[j] != ':',
        decreases n - i,
    {
        if s.get_char(i) == ':' {
            return true;
        }
        i += 1;
    }
    false
}

/// Length of the run of printable characters starting at `i`.
fn run_printable(chars: &Vec<char>, i: usize) -> (n: usize)
    requires
        i <= chars@.len(),
    ensures
        n == printable_run(chars@, i as int),
{
    let mut j: usize = i;
    while j < chars.len() && '!' <= chars[j] && chars[j] <= '~'
        invariant
            i <= j <= chars@.len(),
            printable_run(chars@, i as int) == (j - i) + printable_run(chars@, j as int),
        decreases chars@.len() - j,
    {
        assert(printable_run(chars@, j as int) == 1 + printable_run(chars@, j + 1));
        j += 1;
    }
    assert(printable_run(chars@, j as int) == 0);
    j - i
}

/// Length of the run of word characters starting at `i`.
fn run_word(chars: &Vec<char>, i: usize) -> (n: usize)
    requires
        i <= chars@.len(),
    ensures
        n == word_run(chars@, i as int),
{
    let mut j: usize = i;
    while j < chars.len() && (('a' <= chars[j] && chars[j] <= 'z') || ('A' <= chars[j]
        && chars[j] <= 'Z') || ('0' <= chars[j] && chars[j] <= '9') || chars[j] == '_')
        invariant
            i <= j <= chars@.len(),
            word_run(chars@, i as int) == (j - i) + word_run(chars@, j as int),
        decreases chars@.len() - j,
    {
        assert(word_run(chars@, j as int) == 1 + word_run(chars@, j + 1));
        j += 1;
    }
    assert(word_run(chars@, j as int) == 0);
    j - i
}

/// Length of the run of non-backtick characters starting at `i`.
fn run_plain(chars: &Vec<char>, i: usize) -> (n: usize)
    requires
        i <= chars@.len(),
    ensures
        n == plain_run(chars@, i as int),
{
    let mut j: usize = i;
    while j < chars.len() && chars[j] != '`'
        invariant
            i <= j <= chars@.len(),
            plain_run(chars@, i as int) == (j - i) + plain_run(chars@, j as int),
        decreases chars@.len() - j,
    {
        assert(plain_run(chars@, j as int) == 1 + plain_run(chars@, j + 1));
        j += 1;
    }
    assert(plain_run(chars@, j as int) == 0);
    j - i
}

/// Length of a fenced-code match at `i`, zero when there is none.
fn fenced_at(chars: &Vec<char>, i: usize) -> (n: usize)
    requires
        i <= chars@.len(),
    ensures
        n == fenced_len(chars@, i as int),
{
    let len = chars.len();
    if len - i >= 3 && chars[i] == '`' && chars[i + 1] == '`' && chars[i + 2] == '`' {
        let r = run_plain(chars, i + 3);
        proof {
            lemma_plain_run_bounds(chars@, i + 3);
        }
        if r >= 1 && len - (i + 3) - r >= 3 && chars[i + 3 + r] == '`' && chars[i + 3 + r + 1]
            == '`' && chars[i + 3 + r + 2] == '`' {
            3 + r + 3
        } else {
            0
        }
    } else {
        0
    }
}

/// Length of an inline-code match at `i`, zero when there is none.
fn inline_at(chars: &Vec<char>, i: usize) -> (n: usize)
    requires
        i <= chars@.len(),
    ensures
        n == inline_len(chars@, i as int),
{
    let len = chars.len();
    if i < len && chars[i] == '`' {
        let r = run_plain(chars, i + 1);
        proof {
            lemma_plain_run_bounds(chars@, i + 1);
        }
        if r >= 1 && len - (i + 1) - r >= 1 && chars[i + 1 + r] == '`' {
            1 + r + 1
        } else {
            0
        }
    } else {
        0
    }
}

/// Length of a mention candidate at `i`, zero when there is none.
fn mention_at(chars: &Vec<char>, i: usize) -> (n: usize)
    requires
        i <= chars@.len(),
    ensures
        n == mention_len(chars@, i as int),
{
    let len = chars.len();
    if i < len && chars[i] == '@' {
        let r = run_word(chars, i + 1);
        proof {
            lemma_word_run_bounds(chars@, i + 1);
        }
        if r >= 1 {
            1 + r
        } else {
            0
        }
    } else {
        0
    }
}

/// The scanner: one raw candidate segment per call, by fixed-priority
/// pattern alternation over the source, with mention acceptance applied at
/// scan time.
struct Parts<'src> {
    src: &'src str,
    chars: Vec<char>,
    pos: usize,
    extras: Extras,
}

impl<'src> Parts<'src> {
    spec fn wf(&self) -> bool {
        &&& self.chars@ == self.src@
        &&& self.pos <= self.src@.len()
    }

    fn next(&mut self) -> (r: Option<Part<'src>>)
        requires
            old(self).wf(),
        ensures
            final(self).wf(),
            final(self).src == old(self).src,
            final(self).extras == old(self).extras,
            match r {
                None => {
                    &&& old(self).pos == old(self).src@.len()
                    &&& final(self).pos == old(self).pos
                },
                Some(p) => {
                    &&& old(self).pos < old(self).src@.len()
                    &&& p.span.0 == old(self).pos
                    &&& p.span.1 == old(self).pos + token_len(old(self).src@, old(self).pos as int)
                    &&& final(self).pos == p.span.1
                    &&& p.kind == raw_kind(
                        old(self).src@,
                        old(self).extras.names_view(),
                        old(self).pos as int,
                    )
                    &&& p.str@ == old(self).src@.subrange(p.span.0 as int, p.span.1 as int)
                },
            },
    {
        if self.pos >= self.chars.len() {
            return None;
        }
        let i = self.pos;
        proof {
            lemma_token_len_bounds(self.src@, i as int);
        }
        let f = fenced_at(&self.chars, i);
        let c = inline_at(&self.chars, i);
        let m = mention_at(&self.chars, i);
        let t = run_printable(&self.chars, i);
        let (n, kind): (usize, PartKind) = if f > 0 && f >= c && f >= m && f >= t {
            (f, PartKind::Code)
        } else if c > 0 && c >= m && c >= t {
            (c, PartKind::Code)
        } else if m > 0 && m >= t {
            proof {
                lemma_word_run_bounds(self.src@, i + 1);
            }
            let name = self.src.substring_char(i + 1, i + m);
            if contains_word(&self.extras.names, name) {
                (m, PartKind::Mention)
            } else {
                (m, PartKind::Text)
            }
        } else if t > 0 {
            (t, PartKind::Text)
        } else {
            (1, PartKind::Text)
        };
        let content = self.src.substring_char(i, i + n);
        self.pos = i + n;
        Some(Part { str: content, span: (i, i + n), kind: kind })
    }
}

/// The emote layer: any segment whose exact content is a known emote name
/// is upgraded to an emote, whatever its raw kind.
struct Emotes<'src> {
    inner: Parts<'src>,
}

impl<'src> Emotes<'src> {
    fn next(&mut self) -> (r: Option<Part<'src>>)
        requires
            old(self).inner.wf(),
        ensures
            final(self).inner.wf(),
            final(self).inner.src == old(self).inner.src,
            final(self).inner.extras == old(self).inner.extras,
            match r {
                None => {
                    &&& old(self).inner.pos == old(self).inner.src@.len()
                    &&& final(self).inner.pos == old(self).inner.pos
                },
                Some(p) => {
                    &&& old(self).inner.pos < old(self).inner.src@.len()
                    &&& p.span.0 == old(self).inner.pos
                    &&& p.span.1 == old(self).inner.pos + token_len(
                        old(self).inner.src@,
                        old(self).inner.pos as int,
                    )
                    &&& final(self).inner.pos == p.span.1
                    &&& p.kind == emote_kind(
                        old(self).inner.src@,
                        old(self).inner.extras.emotes_view(),
                        old(self).inner.extras.names_view(),
                        old(self).inner.pos as int,
                    )
                    &&& p.str@ == old(self).inner.src@.subrange(p.span.0 as int, p.span.1 as int)
                },
            },
    {
        match self.inner.next() {
            None => None,
            Some(part) => {
                if contains_word(&self.inner.extras.emotes, part.str) {
                    Some(Part { str: part.str, span: part.span, kind: PartKind::Emote })
                } else {
                    Some(part)
                }
            },
        }
    }
}

/// The URL layer: a segment still classified as text whose content parses
/// as an absolute URL is upgraded to a URL.
struct Urls<'src> {
    inner: Emotes<'src>,
}

impl<'src> Urls<'src> {
    spec fn wf(&self) -> bool {
        self.inner.inner.wf()
    }

    spec fn src_view(&self) -> Seq<char> {
        self.inner.inner.src@
    }

    spec fn cursor(&self) -> int {
        self.inner.inner.pos as int
    }

    spec fn emotes_view(&self) -> Seq<Seq<char>> {
        self.inner.inner.extras.emotes_view()
    }

    spec fn names_view(&self) -> Seq<Seq<char>> {
        self.inner.inner.extras.names_view()
    }

    fn next(&mut self) -> (r: Option<Part<'src>>)
        requires
            old(self).wf(),
        ensures
            final(self).wf(),
            final(self).inner.inner.src == old(self).inner.inner.src,
            final(self).inner.inner.extras == old(self).inner.inner.extras,
            match r {
                None => {
                    &&& old(self).cursor() == old(self).src_view().len()
                    &&& final(self).cursor() == old(self).cursor()
                },
                Some(p) => {
                    &&& old(self).cursor() < old(self).src_view().len()
                    &&& p@ == part_at(
                        old(self).src_view(),
                        old(self).emotes_view(),
                        old(self).names_view(),
                        old(self).cursor(),
                    )
                    &&& final(self).cursor() == p@.end
                    &&& p.str@ == old(self).src_view().subrange(p@.start, p@.end)
                },
            },
    {
        match self.inner.next() {
            None => None,
            Some(part) => {
                if part.kind == PartKind::Text && has_colon(part.str) && parses_as_url(part.str) {
                    Some(Part { str: part.str, span: part.span, kind: PartKind::Url })
                } else {
                    Some(part)
                }
            },
        }
    }
}

/// The whole pipeline with the coalescing pass: scan, reclassify, and merge
/// adjacent text runs, one segment per call.
pub struct Parser<'src> {
    src: &'src str,
    inner: Urls<'src>,
    peeked: Option<Part<'src>>,
}

impl<'src> Parser<'src> {
    /// The pipeline's state is consistent: the scanner cursor is inside the
    /// source, and a buffered lookahead segment is the classified segment
    /// that ends exactly at the cursor.
    pub closed spec fn wf(&self) -> bool {
        &&& self.inner.wf()
        &&& self.inner.inner.inner.src == self.src
        &&& match self.peeked {
            Some(p) => {
                &&& p@.start < p@.end
                &&& p@ == part_at(self.src@, self.emotes_view(), self.names_view(), p@.start)
                &&& p@.end == self.inner.cursor()
                &&& p.str@ == self.src@.subrange(p@.start, p@.end)
            },
            None => true,
        }
    }

    /// The source being parsed, as a character sequence.
    pub closed spec fn src_view(&self) -> Seq<char> {
        self.src@
    }

    /// The emote vocabulary in force for this parse.
    pub closed spec fn emotes_view(&self) -> Seq<Seq<char>> {
        self.inner.emotes_view()
    }

    /// The name vocabulary in force for this parse.
    pub closed spec fn names_view(&self) -> Seq<Seq<char>> {
        self.inner.names_view()
    }

    /// The position of the first character not yet emitted.
    pub closed spec fn cursor(&self) -> int {
        match self.peeked {
            Some(p) => p@.start,
            None => self.inner.cursor(),
        }
    }

    /// The segments this parser has yet to emit.
    pub closed spec fn remaining(&self) -> Seq<SpecPart> {
        merged(raw_parts(self.src@, self.emotes_view(), self.names_view(), self.cursor()))
    }

    /// Builds a parser over one source buffer with one vocabulary.
    pub fn new(src: &'src str, extras: Extras) -> (p: Self)
        ensures
            p.wf(),
            p.src_view() == src@,
            p.emotes_view() == extras.emotes_view(),
            p.names_view() == extras.names_view(),
            p.remaining() == message_parts(src@, extras.emotes_view(), extras.names_view()),
    {
        let chars = to_chars(src);
        let inner = Parts { src, chars, pos: 0, extras };
        let inner = Emotes { inner };
        let inner = Urls { inner };
        Parser { src, inner, peeked: None }
    }

    /// Hands out the buffered lookahead segment, or pulls the next one from
    /// the classification layers.
    fn pull(&mut self) -> (r: Option<Part<'src>>)
        requires
            old(self).wf(),
        ensures
            final(self).wf(),
            final(self).src == old(self).src,
            final(self).src_view() == old(self).src_view(),
            final(self).emotes_view() == old(self).emotes_view(),
            final(self).names_view() == old(self).names_view(),
            match r {
                None => {
                    &&& old(self).cursor() == old(self).src_view().len()
                    &&& final(self).cursor() == old(self).cursor()
                    &&& final(self).peeked is None
                },
                Some(p) => {
                    &&& old(self).cursor() < old(self).src_view().len()
                    &&& p@ == part_at(
                        old(self).src_view(),
                        old(self).emotes_view(),
                        old(self).names_view(),
                        old(self).cursor(),
                    )
                    &&& final(self).cursor() == p@.end
                    &&& final(self).peeked is None
                    &&& p.str@ == old(self).src_view().subrange(p@.start, p@.end)
                },
            },
    {
        let mut took: Option<Part<'src>> = None;
        core::mem::swap(&mut took, &mut self.peeked);
        match took {
            Some(p) => Some(p),
            None => self.inner.next(),
        }
    }

    /// Fills the one-segment lookahead buffer if the stream is not done.
    fn fill_peek(&mut self)
        requires
            old(self).wf(),
        ensures
            final(self).wf(),
            final(self).src == old(self).src,
            final(self).src_view() == old(self).src_view(),
            final(self).emotes_view() == old(self).emotes_view(),
            final(self).names_view() == old(self).names_view(),
            final(self).cursor() == old(self).cursor(),
            final(self).peeked is Some <==> old(self).cursor() < old(self).src_view().len(),
    {
        if self.peeked.is_none() {
            self.peeked = self.inner.next();
        }
    }

    /// Reports whether the next segment to come is classified as text,
    /// buffering it as the lookahead.
    fn peek_is_text(&mut self) -> (r: bool)
        requires
            old(self).wf(),
        ensures
            final(self).wf(),
            final(self).src == old(self).src,
            final(self).src_view() == old(self).src_view(),
            final(self).emotes_view() == old(self).emotes_view(),
            final(self).names_view() == old(self).names_view(),
            final(self).cursor() == old(self).cursor(),
            r == (old(self).cursor() < old(self).src_view().len() && part_at(
                old(self).src_view(),
                old(self).emotes_view(),
                old(self).names_view(),
                old(self).cursor(),
            ).kind == PartKind::Text),
            r ==> final(self).peeked is Some,
    {
        self.fill_peek();
        match &self.peeked {
            Some(p) => p.kind == PartKind::Text,
            None => false,
        }
    }

    /// Emits the next segment: a lone segment passes through unchanged, and
    /// a run of adjacent text segments is merged into one segment re-sliced
    /// from the original source over the combined span.
    pub fn next(&mut self) -> (r: Option<Part<'src>>)
        requires
            old(self).wf(),
        ensures
            final(self).wf(),
            final(self).src_view() == old(self).src_view(),
            final(self).emotes_view() == old(self).emotes_view(),
            final(self).names_view() == old(self).names_view(),
            match r {
                None => {
                    &&& old(self).remaining().len() == 0
                    &&& final(self).remaining() == old(self).remaining()
                },
                Some(p) => {
                    &&& old(self).remaining().len() > 0
                    &&& p@ == old(self).remaining()[0]
                    &&& p.str@ == old(self).src_view().subrange(p@.start, p@.end)
                    &&& final(self).remaining() == old(self).remaining().skip(1)
                },
            },
    {
        let ghost s = old(self).src_view();
        let ghost em = old(self).emotes_view();
        let ghost nm = old(self).names_view();
        let ghost c0 = old(self).cursor();
        match self.pull() {
            None => {
                proof {
                    assert(raw_parts(s, em, nm, c0) =~= Seq::empty());
                }
                None
            },
            Some(mut next) => {
                let ghost first = next@;
                proof {
                    lemma_token_len_bounds(s, c0);
                    assert(raw_parts(s, em, nm, c0) == seq![first] + raw_parts(s, em, nm, first.end));
                }
                try_combine_text(self, &mut next);
                proof {
                    let tail = raw_parts(s, em, nm, self.cursor());
                    if self.cursor() < s.len() {
                        lemma_token_len_bounds(s, self.cursor());
                        assert(tail == seq![part_at(s, em, nm, self.cursor())] + raw_parts(
                            s,
                            em,
                            nm,
                            self.cursor() + token_len(s, self.cursor()),
                        ));
                        assert((seq![next@] + tail)[1] == part_at(s, em, nm, self.cursor()));
                    } else {
                        assert(tail =~= Seq::empty());
                    }
                    lemma_merged_head(seq![next@] + tail);
                    assert((seq![next@] + tail)[0] == next@);
                    assert((seq![next@] + tail).skip(1) =~= tail);
                    assert(old(self).remaining() == seq![next@] + merged(tail));
                    assert(old(self).remaining().skip(1) =~= merged(tail));
                }
                Some(next)
            },
        }
    }
}

/// Parses a whole message in one call: the classified segments of the
/// source, in order, with adjacent text runs already coalesced.
pub fn parse<'src>(src: &'src str, extras: Extras) -> (parts: Vec<Part<'src>>)
    ensures
        parts.deep_view() == message_parts(src@, extras.emotes_view(), extras.names_view()),
        forall|k: int|
            0 <= k < parts@.len() ==> parts@[k].str@ == src@.subrange(
                parts@[k]@.start,
                parts@[k]@.end,
            ),
{
    let ghost gem = extras.emotes_view();
    let ghost gnm = extras.names_view();
    let ghost all = message_parts(src@, gem, gnm);
    let mut parser = Parser::new(src, extras);
    let mut parts: Vec<Part<'src>> = Vec::new();
    loop
        invariant
            parser.wf(),
            parser.src_view() == src@,
            all == message_parts(src@, gem, gnm),
            gem == extras.emotes_view(),
            gnm == extras.names_view(),
            parts.deep_view() + parser.remaining() =~= all,
            forall|k: int|
                0 <= k < parts@.len() ==> parts@[k].str@ == src@.subrange(
                    parts@[k]@.start,
                    parts@[k]@.end,
                ),
        decreases parser.remaining().len(),
    {
        let ghost before = parts.deep_view();
        let ghost rem = parser.remaining();
        match parser.next() {
            None => {
                proof {
                    assert(parts.deep_view() =~= all);
                }
                return parts;
            },
            Some(part) => {
                parts.push(part);
                proof {
                    assert(rem =~= seq![rem[0]] + rem.skip(1));
                    assert(parts.deep_view() =~= before + seq![part@]);
                    assert(before + (seq![part@] + parser.remaining()) =~= all);
                }
            },
        }
    }
}

/// The coalescing step: while the segment in hand and the lookahead are
/// both text, extend the span in hand over the lookahead; afterwards the
/// extended span is re-sliced once from the original source.
fn try_combine_text<'src>(p: &mut Parser<'src>, next: &mut Part<'src>)
    requires
        old(p).wf(),
        old(next)@.start < old(next)@.end,
        old(next)@ == part_at(
            old(p).src_view(),
            old(p).emotes_view(),
            old(p).names_view(),
            old(next)@.start,
        ),
        old(next)@.end == old(p).cursor(),
        old(next).str@ == old(p).src_view().subrange(old(next)@.start, old(next)@.end),
    ensures
        final(p).wf(),
        final(p).src == old(p).src,
        final(p).src_view() == old(p).src_view(),
        final(p).emotes_view() == old(p).emotes_view(),
        final(p).names_view() == old(p).names_view(),
        final(next)@.kind == old(next)@.kind,
        final(next)@.start == old(next)@.start,
        final(next)@.start < final(next)@.end,
        final(next)@.end == final(p).cursor(),
        final(next).str@ == old(p).src_view().subrange(final(next)@.start, final(next)@.end),
        merged(
            seq![final(next)@] + raw_parts(
                old(p).src_view(),
                old(p).emotes_view(),
                old(p).names_view(),
                final(p).cursor(),
            ),
        ) == merged(
            seq![old(next)@] + raw_parts(
                old(p).src_view(),
                old(p).emotes_view(),
                old(p).names_view(),
                old(p).cursor(),
            ),
        ),
        final(next)@.kind == PartKind::Text ==> final(p).cursor() >= old(p).src_view().len()
            || part_at(
            old(p).src_view(),
            old(p).emotes_view(),
            old(p).names_view(),
            final(p).cursor(),
        ).kind != PartKind::Text,
{
    let ghost s = old(p).src_view();
    let ghost em = old(p).emotes_view();
    let ghost nm = old(p).names_view();
    if next.kind == PartKind::Text {
        let mut go = p.peek_is_text();
        if go {
            let st = next.span.0;
            let mut end: usize = next.span.1;
            while go
                invariant
                    p.wf(),
                    p.src == old(p).src,
                    p.src_view() == s,
                    p.emotes_view() == em,
                    p.names_view() == nm,
                    st == old(next)@.start,
                    st < end <= s.len(),
                    end == p.cursor(),
                    go == (p.cursor() < s.len() && part_at(s, em, nm, p.cursor()).kind
                        == PartKind::Text),
                    go ==> p.peeked is Some,
                    merged(
                        seq![SpecPart { kind: PartKind::Text, start: st as int, end: end as int }]
                            + raw_parts(s, em, nm, end as int),
                    ) == merged(seq![old(next)@] + raw_parts(s, em, nm, old(p).cursor())),
                decreases s.len() - end,
            {
                let t = p.pull().unwrap();
                proof {
                    lemma_token_len_bounds(s, t@.start);
                    let a = SpecPart { kind: PartKind::Text, start: st as int, end: end as int };
                    let rest = raw_parts(s, em, nm, t@.end);
                    lemma_merged_absorb(a, t@, rest);
                    assert(seq![a] + raw_parts(s, em, nm, end as int) =~= seq![a, t@] + rest);
                }
                end = t.span.1;
                go = p.peek_is_text();
            }
            next.span = (st, end);
            next.str = p.src.substring_char(st, end);
            next.kind = PartKind::Text;
        }
    }
}

} // verus!
