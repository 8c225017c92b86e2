//! Identifiers: sequences of labels that spell sequences of 16-bit values,
//! written with a `-` between consecutive labels.
use vstd::prelude::*;

use crate::alphabet::{consonant_at, vowel_at};
use crate::error::ProquintError;
use crate::label::{
    decode_label, decode_label_bytes, label_of, label_value, lemma_label_round_trip,
    quint_to_ascii, LABEL_LEN,
};
use vstd::slice::slice_subrange;
use vstd::string::StringSliceAdditionalSpecFns;

verus! {

/// The byte that separates labels in text (`-`).
pub const SEPARATOR: u8 = 45;

/// The labels of `ws`, one after the other, without separators.
pub open spec fn labels_of(ws: Seq<u16>) -> Seq<u8>
    decreases ws.len(),
{
    if ws.len() == 0 {
        Seq::empty()
    } else {
        label_of(ws[0]) + labels_of(ws.drop_first())
    }
}

/// The canonical text of `ws`, as bytes: its labels joined by `-`.
pub open spec fn text_bytes(ws: Seq<u16>) -> Seq<u8>
    decreases ws.len(),
{
    if ws.len() == 0 {
        Seq::empty()
    } else if ws.len() == 1 {
        label_of(ws[0])
    } else {
        label_of(ws[0]) + seq![SEPARATOR] + text_bytes(ws.drop_first())
    }
}

/// The canonical text of `ws`, as characters.
pub open spec fn text_chars(ws: Seq<u16>) -> Seq<char> {
    text_bytes(ws).map_values(|b: u8| b as char)
}

/// The values spelled by consecutive five-byte groups of `b`.
pub open spec fn words_of(b: Seq<u8>) -> Seq<u16> {
    Seq::new(
        b.len() / 5,
        |i: int| label_value(b.subrange(5 * i, 5 * i + 5)) as u16,
    )
}

/// `r` with `acc` put in front of the values it carries.
pub open spec fn prefixed(acc: Seq<u16>, r: Result<Seq<u16>, ProquintError>) -> Result<
    Seq<u16>,
    ProquintError,
> {
    match r {
        Ok(vs) => Ok(acc + vs),
        Err(e) => Err(e),
    }
}

/// Reading text without separators: consecutive groups of five bytes, each a
/// label; a shorter group at the end is a label of the wrong length.
pub open spec fn parse_chunks(b: Seq<u8>) -> Result<Seq<u16>, ProquintError>
    decreases b.len(),
{
    if b.len() == 0 {
        Ok(Seq::empty())
    } else if b.len() < LABEL_LEN {
        Err(ProquintError::InvalidLabelLength)
    } else {
        match decode_label_bytes(b.subrange(0, 5)) {
            Ok(v) => prefixed(seq![v], parse_chunks(b.subrange(5, b.len() as int))),
            Err(e) => Err(e),
        }
    }
}

/// Whether the segment of `b` before the first separator (or all of `b`) has
/// the length of a label.
pub open spec fn first_segment_fits(b: Seq<u8>) -> bool {
    &&& b.len() >= LABEL_LEN
    &&& forall|i: int| 0 <= i < LABEL_LEN ==> b[i] != SEPARATOR
    &&& (b.len() == LABEL_LEN || b[5] == SEPARATOR)
}

/// Reading text with separators: each segment between separators must be a
/// label; segments are read from left to right and the first fault is
/// reported.
pub open spec fn parse_dashed(b: Seq<u8>) -> Result<Seq<u16>, ProquintError>
    decreases b.len(),
{
    if !first_segment_fits(b) {
        Err(ProquintError::InvalidLabelLength)
    } else {
        match decode_label_bytes(b.subrange(0, 5)) {
            Ok(v) => if b.len() == LABEL_LEN {
                Ok(seq![v])
            } else {
                prefixed(seq![v], parse_dashed(b.subrange(6, b.len() as int)))
            },
            Err(e) => Err(e),
        }
    }
}

/// Reading proquint text: with separators if it holds any, else in groups of
/// five.
pub open spec fn parse_text(b: Seq<u8>) -> Result<Seq<u16>, ProquintError> {
    if b.contains(SEPARATOR) {
        parse_dashed(b)
    } else {
        parse_chunks(b)
    }
}

proof fn lemma_label_bytes(v: u16)
    ensures
        label_of(v).len() == 5,
        forall|i: int| 0 <= i < 5 ==> 97 <= #[trigger] label_of(v)[i] <= 122,
{
    let c0 = (v >> 12u16) & 0xfu16;
    let v1 = (v >> 10u16) & 0x3u16;
    let c2 = (v >> 6u16) & 0xfu16;
    let v3 = (v >> 4u16) & 0x3u16;
    let c4 = v & 0xfu16;
    assert(97 <= consonant_at(c0 as int) <= 122);
    assert(97 <= vowel_at(v1 as int) <= 122);
    assert(97 <= consonant_at(c2 as int) <= 122);
    assert(97 <= vowel_at(v3 as int) <= 122);
    assert(97 <= consonant_at(c4 as int) <= 122);
}

proof fn lemma_labels_len(ws: Seq<u16>)
    ensures
        labels_of(ws).len() == 5 * ws.len(),
    decreases ws.len(),
{
    if ws.len() > 0 {
        lemma_label_bytes(ws[0]);
        lemma_labels_len(ws.drop_first());
    }
}

/// Appending one value appends its label.
pub proof fn lemma_labels_push(ws: Seq<u16>, v: u16)
    ensures
        labels_of(ws.push(v)) == labels_of(ws) + label_of(v),
    decreases ws.len(),
{
    if ws.len() == 0 {
        assert(ws.push(v).drop_first() =~= Seq::<u16>::empty());
        assert(ws.push(v)[0] == v);
        assert(labels_of(Seq::<u16>::empty()) == Seq::<u8>::empty());
        assert(labels_of(ws.push(v)) =~= labels_of(ws) + label_of(v));
    } else {
        lemma_labels_push(ws.drop_first(), v);
        assert(ws.push(v).drop_first() =~= ws.drop_first().push(v));
        assert(ws.push(v)[0] == ws[0]);
        assert(labels_of(ws.push(v)) == label_of(ws[0]) + (labels_of(ws.drop_first()) + label_of(
            v,
        )));
        assert(labels_of(ws.push(v)) =~= labels_of(ws) + label_of(v));
    }
}

/// The `i`-th group of five bytes of `labels_of(ws)` is the label of `ws[i]`.
proof fn lemma_labels_group(ws: Seq<u16>, i: int)
    requires
        0 <= i < ws.len(),
    ensures
        labels_of(ws).subrange(5 * i, 5 * i + 5) == label_of(ws[i]),
    decreases ws.len(),
{
    lemma_label_bytes(ws[0]);
    lemma_labels_len(ws.drop_first());
    if i == 0 {
        assert(labels_of(ws).subrange(0, 5) =~= label_of(ws[0]));
    } else {
        lemma_labels_group(ws.drop_first(), i - 1);
        assert(labels_of(ws).subrange(5 * i, 5 * i + 5) =~= labels_of(ws.drop_first()).subrange(
            5 * (i - 1),
            5 * (i - 1) + 5,
        ));
    }
}

/// Grouping the labels of `ws` in fives and reading each gives `ws` back.
pub proof fn lemma_words_of_labels(ws: Seq<u16>)
    ensures
        words_of(labels_of(ws)) == ws,
{
    lemma_labels_len(ws);
    assert forall|i: int| 0 <= i < ws.len() implies #[trigger] words_of(labels_of(ws))[i]
        == ws[i] by {
        lemma_labels_group(ws, i);
        lemma_label_round_trip(ws[i]);
    }
    assert(words_of(labels_of(ws)) =~= ws);
}

/// Appending one value to a sequence extends its text by a separator (unless
/// the sequence was empty) and the value's label.
pub proof fn lemma_text_push(ws: Seq<u16>, v: u16)
    ensures
        text_bytes(ws.push(v)) == if ws.len() == 0 {
            label_of(v)
        } else {
            text_bytes(ws) + seq![SEPARATOR] + label_of(v)
        },
    decreases ws.len(),
{
    assert(ws.push(v)[0] == if ws.len() == 0 { v } else { ws[0] });
    if ws.len() > 0 {
        assert(ws.push(v).drop_first() =~= ws.drop_first().push(v));
    }
    if ws.len() == 1 {
        assert(ws.drop_first() =~= Seq::<u16>::empty());
        assert(ws.push(v).drop_first() =~= seq![v]);
        assert(text_bytes(seq![v]) == label_of(v));
    } else if ws.len() > 1 {
        lemma_text_push(ws.drop_first(), v);
        assert(text_bytes(ws.push(v)) =~= text_bytes(ws) + seq![SEPARATOR] + label_of(v));
    }
}

proof fn lemma_prefixed_prefixed(a: Seq<u16>, b: Seq<u16>, r: Result<Seq<u16>, ProquintError>)
    ensures
        prefixed(a, prefixed(b, r)) == prefixed(a + b, r),
{
    if let Ok(vs) = r {
        assert(a + (b + vs) =~= (a + b) + vs);
    }
}

/// Whether `b` holds a separator.
fn contains_separator(b: &[u8]) -> (r: bool)
    ensures
        r == b@.contains(SEPARATOR),
{
    let mut i: usize = 0;
    while i < b.len()
        invariant
            i <= b@.len(),
            forall|j: int| 0 <= j < i ==> b@[j] != SEPARATOR,
        decreases b@.len() - i,
    {
        if b[i] == SEPARATOR {
            assert(b@[i as int] == SEPARATOR);
            return true;
        }
        i = i + 1;
    }
    false
}

proof fn lemma_text_shape(ws: Seq<u16>)
    requires
        ws.len() > 0,
    ensures
        text_bytes(ws).len() == 6 * ws.len() - 1,
        text_bytes(ws).subrange(0, 5) == label_of(ws[0]),
        ws.len() > 1 ==> text_bytes(ws)[5] == SEPARATOR,
        ws.len() > 1 ==> text_bytes(ws).subrange(6, text_bytes(ws).len() as int) == text_bytes(
            ws.drop_first(),
        ),
        forall|i: int|
            0 <= i < text_bytes(ws).len() ==> #[trigger] text_bytes(ws)[i] == SEPARATOR || 97
                <= text_bytes(ws)[i] <= 122,
    decreases ws.len(),
{
    lemma_label_bytes(ws[0]);
    if ws.len() > 1 {
        let rest = ws.drop_first();
        lemma_text_shape(rest);
        let b = text_bytes(ws);
        assert(b == label_of(ws[0]) + seq![SEPARATOR] + text_bytes(rest));
        assert(b.subrange(0, 5) =~= label_of(ws[0]));
        assert(b.subrange(6, b.len() as int) =~= text_bytes(rest));
        assert forall|i: int| 0 <= i < b.len() implies #[trigger] b[i] == SEPARATOR || 97 <= b[i]
            <= 122 by {
            if i >= 6 {
                assert(b[i] == text_bytes(rest)[i - 6]);
            }
        }
    } else {
        assert(text_bytes(ws).subrange(0, 5) =~= label_of(ws[0]));
    }
}

proof fn lemma_parse_dashed_text(ws: Seq<u16>)
    requires
        ws.len() > 0,
    ensures
        parse_dashed(text_bytes(ws)) == Ok::<Seq<u16>, ProquintError>(ws),
    decreases ws.len(),
{
    let b = text_bytes(ws);
    lemma_text_shape(ws);
    lemma_label_round_trip(ws[0]);
    assert(forall|i: int| 0 <= i < 5 ==> b[i] == #[trigger] b.subrange(0, 5)[i]);
    assert(first_segment_fits(b));
    if ws.len() == 1 {
        assert(seq![ws[0]] =~= ws);
    } else {
        lemma_parse_dashed_text(ws.drop_first());
        assert(seq![ws[0]] + ws.drop_first() =~= ws);
    }
}

proof fn lemma_parse_chunks_labels(ws: Seq<u16>)
    ensures
        parse_chunks(labels_of(ws)) == Ok::<Seq<u16>, ProquintError>(ws),
        !labels_of(ws).contains(SEPARATOR),
    decreases ws.len(),
{
    if ws.len() == 0 {
        assert(ws =~= Seq::<u16>::empty());
    } else {
        let b = labels_of(ws);
        let rest = ws.drop_first();
        lemma_label_bytes(ws[0]);
        lemma_label_round_trip(ws[0]);
        lemma_labels_len(ws);
        lemma_parse_chunks_labels(rest);
        assert(b.subrange(0, 5) =~= label_of(ws[0]));
        assert(b.subrange(5, b.len() as int) =~= labels_of(rest));
        assert(seq![ws[0]] + rest =~= ws);
        if b.contains(SEPARATOR) {
            let i = choose|i: int| 0 <= i < b.len() && b[i] == SEPARATOR;
            if i >= 5 {
                assert(labels_of(rest)[i - 5] == SEPARATOR);
            }
        }
    }
}

/// Reading the canonical text of a non-empty sequence of values gives the
/// sequence back: for `t` the text that `to_string` returns for `ws`,
/// `parse(t)` succeeds and spells `ws`.
pub proof fn lemma_text_round_trip(ws: Seq<u16>, t: &str)
    requires
        ws.len() > 0,
        t@ == text_chars(ws),
    ensures
        parse_text(t.spec_bytes()) == Ok::<Seq<u16>, ProquintError>(ws),
{
    broadcast use vstd::string::is_ascii_spec_bytes;

    let b = text_bytes(ws);
    lemma_text_shape(ws);
    assert forall|i: int| 0 <= i < t@.len() implies '\0' <= #[trigger] t@[i] <= '\u{7f}' by {
        assert(t@[i] == b[i] as char);
    }
    assert(vstd::string::is_ascii(t));
    assert(t.spec_bytes() =~= b);
    lemma_separators_optional(ws);
}

/// Separators are optional: the canonical text of a non-empty sequence of
/// values and the same text with every `-` left out both read as that
/// sequence.
pub proof fn lemma_separators_optional(ws: Seq<u16>)
    requires
        ws.len() > 0,
    ensures
        parse_text(labels_of(ws)) == parse_text(text_bytes(ws)),
        parse_text(text_bytes(ws)) == Ok::<Seq<u16>, ProquintError>(ws),
{
    lemma_parse_chunks_labels(ws);
    let b = text_bytes(ws);
    lemma_text_shape(ws);
    if ws.len() == 1 {
        assert(labels_of(ws) =~= label_of(ws[0]) + labels_of(ws.drop_first()));
        assert(ws.drop_first() =~= Seq::<u16>::empty());
        assert(labels_of(ws) =~= b);
    } else {
        assert(b.contains(SEPARATOR));
        lemma_parse_dashed_text(ws);
    }
}

/// Relies on std's `String::push`: appends one character at the end.
#[verifier::external_body]
fn push_char(s: &mut String, c: char)
    ensures
        final(s)@ == old(s)@.push(c),
{
    s.push(c)
}

/// A proquint: a sequence of 16-bit values, held as the bytes of their
/// labels.
#[derive(Debug, PartialEq)]
pub struct Proquint {
    inner: Vec<u8>,
}

impl View for Proquint {
    type V = Seq<u16>;

    /// The values that the proquint spells, in order.
    closed spec fn view(&self) -> Seq<u16> {
        words_of(self.inner@)
    }
}

impl Proquint {
    /// The bytes held are exactly the labels of the values.
    pub closed spec fn wf(&self) -> bool {
        self.inner@ == labels_of(self@)
    }

    proof fn lemma_from_labels(p: &Proquint, ws: Seq<u16>)
        requires
            p.inner@ == labels_of(ws),
        ensures
            p.wf(),
            p@ == ws,
    {
        lemma_words_of_labels(ws);
    }

    /// The proquint that spells `ints`, in order.
    pub fn from_slice(ints: &[u16]) -> (r: Proquint)
        ensures
            r.wf(),
            r@ == ints@,
    {
        let mut v: Vec<u8> = Vec::new();
        let mut i: usize = 0;
        while i < ints.len()
            invariant
                i <= ints@.len(),
                v@ == labels_of(ints@.take(i as int)),
            decreases ints@.len() - i,
        {
            proof {
                lemma_labels_push(ints@.take(i as int), ints@[i as int]);
                assert(ints@.take(i as int).push(ints@[i as int]) =~= ints@.take(i + 1));
            }
            quint_to_ascii(ints[i], &mut v);
            i = i + 1;
        }
        assert(ints@.take(i as int) =~= ints@);
        let r = Proquint { inner: v };
        proof {
            Proquint::lemma_from_labels(&r, ints@);
        }
        r
    }

    /// The proquint that spells `ints`, in order.
    pub fn from_vec(ints: Vec<u16>) -> (r: Proquint)
        ensures
            r.wf(),
            r@ == ints@,
    {
        Proquint::from_slice(ints.as_slice())
    }

    /// Adds the label of `u` at the end.
    pub fn append(&mut self, u: u16)
        requires
            old(self).wf(),
        ensures
            final(self).wf(),
            final(self)@ == old(self)@.push(u),
    {
        proof {
            lemma_labels_push(self@, u);
        }
        let ghost ws = self@.push(u);
        quint_to_ascii(u, &mut self.inner);
        proof {
            Proquint::lemma_from_labels(self, ws);
        }
    }

    /// Reads `label` and, where it is a valid label, adds the value it spells
    /// at the end; otherwise reports the first fault and leaves `self` as it
    /// was.
    pub fn append_label(&mut self, label: &[u8]) -> (r: Result<(), ProquintError>)
        requires
            old(self).wf(),
        ensures
            final(self).wf(),
            match decode_label_bytes(label@) {
                Ok(v) => r is Ok && final(self)@ == old(self)@.push(v),
                Err(e) => r == Err::<(), ProquintError>(e) && final(self)@ == old(self)@,
            },
    {
        match decode_label(label) {
            Ok(v) => {
                self.append(v);
                Ok(())
            },
            Err(e) => Err(e),
        }
    }

    /// The proquint that spells no value.
    fn empty() -> (r: Proquint)
        ensures
            r.wf(),
            r@ == Seq::<u16>::empty(),
    {
        let r = Proquint { inner: Vec::new() };
        proof {
            assert(r.inner@ =~= labels_of(Seq::<u16>::empty()));
            Proquint::lemma_from_labels(&r, Seq::<u16>::empty());
        }
        r
    }

    /// Reads text without separators, five bytes at a time.
    fn parse_chunked(b: &[u8]) -> (r: Result<Proquint, ProquintError>)
        ensures
            match r {
                Ok(p) => p.wf() && parse_chunks(b@) == Ok::<Seq<u16>, ProquintError>(p@),
                Err(e) => parse_chunks(b@) == Err::<Seq<u16>, ProquintError>(e),
            },
    {
        let mut p = Proquint::empty();
        let mut pos: usize = 0;
        assert(b@.subrange(0, b@.len() as int) =~= b@);
        assert(p@ + Seq::<u16>::empty() =~= Seq::<u16>::empty());
        while pos < b.len()
            invariant
                pos <= b@.len(),
                p.wf(),
                parse_chunks(b@) == prefixed(p@, parse_chunks(b@.subrange(pos as int, b@.len() as int))),
            decreases b@.len() - pos,
        {
            let ghost rest = b@.subrange(pos as int, b@.len() as int);
            if b.len() - pos < 5 {
                return Err(ProquintError::InvalidLabelLength);
            }
            let label = slice_subrange(b, pos, pos + 5);
            let ghost before = p@;
            assert(rest.subrange(0, 5) =~= label@);
            assert(rest.subrange(5, rest.len() as int) =~= b@.subrange(pos + 5, b@.len() as int));
            match p.append_label(label) {
                Ok(()) => {},
                Err(e) => {
                    return Err(e);
                },
            }
            proof {
                let v = p@.last();
                let next = b@.subrange(pos + 5, b@.len() as int);
                assert(decode_label_bytes(rest.subrange(0, 5)) == Ok::<u16, ProquintError>(v));
                assert(parse_chunks(rest) == prefixed(seq![v], parse_chunks(next)));
                lemma_prefixed_prefixed(before, seq![v], parse_chunks(next));
                assert(before + seq![v] =~= p@);
            }
            pos = pos + 5;
        }
        assert(b@.subrange(pos as int, b@.len() as int) =~= Seq::<u8>::empty());
        assert(p@ + Seq::<u16>::empty() =~= p@);
        Ok(p)
    }

    /// Reads text with separators, one segment at a time.
    fn parse_separated(b: &[u8]) -> (r: Result<Proquint, ProquintError>)
        ensures
            match r {
                Ok(p) => p.wf() && parse_dashed(b@) == Ok::<Seq<u16>, ProquintError>(p@),
                Err(e) => parse_dashed(b@) == Err::<Seq<u16>, ProquintError>(e),
            },
    {
        let mut p = Proquint::empty();
        let mut pos: usize = 0;
        assert(b@.subrange(0, b@.len() as int) =~= b@);
        assert(p@ + Seq::<u16>::empty() =~= Seq::<u16>::empty());
        loop
            invariant
                pos <= b@.len(),
                p.wf(),
                parse_dashed(b@) == prefixed(p@, parse_dashed(b@.subrange(pos as int, b@.len() as int))),
            decreases b@.len() - pos,
        {
            let ghost rest = b@.subrange(pos as int, b@.len() as int);
            let mut end: usize = pos;
            while end < b.len() && b[end] != SEPARATOR
                invariant
                    pos <= end <= b@.len(),
                    forall|i: int| pos <= i < end ==> b@[i] != SEPARATOR,
                decreases b@.len() - end,
            {
                end = end + 1;
            }
            if end - pos != 5 {
                proof {
                    if end - pos < 5 && end < b@.len() {
                        assert(rest[end - pos] == SEPARATOR);
                    } else if end - pos > 5 {
                        assert(rest[5] != SEPARATOR);
                    }
                }
                return Err(ProquintError::InvalidLabelLength);
            }
            assert(first_segment_fits(rest));
            let label = slice_subrange(b, pos, end);
            let ghost before = p@;
            assert(rest.subrange(0, 5) =~= label@);
            match p.append_label(label) {
                Ok(()) => {},
                Err(e) => {
                    return Err(e);
                },
            }
            let ghost v = p@.last();
            assert(decode_label_bytes(rest.subrange(0, 5)) == Ok::<u16, ProquintError>(v));
            assert(before + seq![v] =~= p@);
            if end == b.len() {
                assert(parse_dashed(rest) == Ok::<Seq<u16>, ProquintError>(seq![v]));
                return Ok(p);
            }
            proof {
                let next = b@.subrange(end + 1, b@.len() as int);
                assert(rest.subrange(6, rest.len() as int) =~= next);
                assert(parse_dashed(rest) == prefixed(seq![v], parse_dashed(next)));
                lemma_prefixed_prefixed(before, seq![v], parse_dashed(next));
            }
            pos = end + 1;
        }
    }

    /// Reads proquint text.  Text that holds a `-` is split at each `-` and
    /// every segment must be a label; other text is read in groups of five
    /// bytes.  The first fault found, from left to right, is reported.
    pub fn parse(s: &str) -> (r: Result<Proquint, ProquintError>)
        ensures
            match r {
                Ok(p) => p.wf() && parse_text(s.spec_bytes()) == Ok::<Seq<u16>, ProquintError>(p@),
                Err(e) => parse_text(s.spec_bytes()) == Err::<Seq<u16>, ProquintError>(e),
            },
    {
        let b = s.as_bytes();
        if contains_separator(b) {
            Proquint::parse_separated(b)
        } else {
            Proquint::parse_chunked(b)
        }
    }

    /// The values that the proquint spells, in order.
    pub fn to_ints(&self) -> (r: Vec<u16>)
        requires
            self.wf(),
        ensures
            r@ == self@,
    {
        proof {
            lemma_labels_len(self@);
        }
        let n: usize = self.inner.len() / 5;
        let mut out: Vec<u16> = Vec::new();
        let mut k: usize = 0;
        while k < n
            invariant
                self.wf(),
                n == self@.len(),
                self.inner@.len() == 5 * n,
                5 * n <= usize::MAX,
                k <= n,
                out@ == self@.take(k as int),
            decreases n - k,
        {
            let label = slice_subrange(self.inner.as_slice(), 5 * k, 5 * k + 5);
            proof {
                lemma_labels_group(self@, k as int);
                lemma_label_round_trip(self@[k as int]);
            }
            let v = match decode_label(label) {
                Ok(v) => v,
                Err(_) => {
                    proof {
                        assert(false);
                    }
                    0
                },
            };
            out.push(v);
            k = k + 1;
            assert(out@ =~= self@.take(k as int));
        }
        assert(self@.take(n as int) =~= self@);
        out
    }

    /// The canonical text: the labels joined by `-`.
    pub fn to_string(&self) -> (r: String)
        requires
            self.wf(),
        ensures
            r@ == text_chars(self@),
    {
        proof {
            lemma_labels_len(self@);
        }
        let n: usize = self.inner.len() / 5;
        let mut s = String::new();
        let mut k: usize = 0;
        while k < n
            invariant
                self.wf(),
                n == self@.len(),
                self.inner@.len() == 5 * n,
                5 * n <= usize::MAX,
                k <= n,
                s@ == text_chars(self@.take(k as int)),
            decreases n - k,
        {
            if k > 0 {
                push_char(&mut s, '-');
            }
            let ghost mid = s@;
            let mut j: usize = 0;
            while j < 5
                invariant
                    self.wf(),
                    self.inner@.len() == 5 * n,
                    5 * n <= usize::MAX,
                    k < n,
                    j <= 5,
                    s@ == mid + self.inner@.subrange(5 * k, 5 * k + j).map_values(
                        |b: u8| b as char,
                    ),
                decreases 5 - j,
            {
                push_char(&mut s, self.inner[5 * k + j] as char);
                j = j + 1;
                assert(self.inner@.subrange(5 * k, 5 * k + j).map_values(|b: u8| b as char)
                    =~= self.inner@.subrange(5 * k, 5 * k + j - 1).map_values(|b: u8| b as char).push(
                    self.inner@[5 * k + j - 1] as char,
                ));
            }
            proof {
                let ws = self@.take(k as int);
                let v = self@[k as int];
                lemma_labels_group(self@, k as int);
                lemma_text_push(ws, v);
                assert(ws.push(v) =~= self@.take(k + 1));
                assert(s@ =~= text_chars(self@.take(k + 1)));
            }
            k = k + 1;
        }
        assert(self@.take(n as int) =~= self@);
        s
    }
}

impl std::str::FromStr for Proquint {
    type Err = ProquintError;

    fn from_str(s: &str) -> Result<Proquint, ProquintError> {
        Proquint::parse(s)
    }
}

} // verus!
