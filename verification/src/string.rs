use vstd::prelude::*;
use vstd::string::*;
use vstd::utf8::*;

use crate::style::TermStyle;

verus! {

/// A writer that styled text can be written to.
///
/// Every type is one; the functions that write take writers that are also
/// `std::io::Write`.
pub trait TermWrite {}

impl<W: ?Sized> TermWrite for W {}

/// One piece of a styled string: its style and its characters.
pub type Segment = (TermStyle, Seq<char>);

/// A piece with no style and no text: appending drops such pieces.
pub open spec fn is_blank(seg: Segment) -> bool {
    seg.0 == TermStyle::unstyled() && seg.1.len() == 0
}

/// The un-styled text of a sequence of pieces: their texts, one after the other.
pub open spec fn text_of(segs: Seq<Segment>) -> Seq<char>
    decreases segs.len(),
{
    if segs.len() == 0 {
        Seq::empty()
    } else {
        text_of(segs.drop_last()) + segs.last().1
    }
}

/// The length in bytes of the UTF-8 encoding of the un-styled text.
pub open spec fn byte_len(segs: Seq<Segment>) -> nat {
    encode_utf8(text_of(segs)).len()
}

/// The characters of one piece, each paired with the style of the piece.
pub open spec fn piece_chars(seg: Segment) -> Seq<(TermStyle, char)> {
    seg.1.map_values(|c: char| (seg.0, c))
}

/// The characters of the un-styled text, each paired with the style it is
/// written in.
pub open spec fn styled_chars(segs: Seq<Segment>) -> Seq<(TermStyle, char)>
    decreases segs.len(),
{
    if segs.len() == 0 {
        Seq::empty()
    } else {
        styled_chars(segs.drop_last()) + piece_chars(segs.last())
    }
}

/// The pieces that are not blank, in their order.
pub open spec fn without_blanks(segs: Seq<Segment>) -> Seq<Segment>
    decreases segs.len(),
{
    if segs.len() == 0 {
        Seq::empty()
    } else {
        let rest = without_blanks(segs.drop_last());
        if is_blank(segs.last()) {
            rest
        } else {
            rest.push(segs.last())
        }
    }
}

/// How many pieces at the front of `segs` have the style `style`.
pub open spec fn style_run_len(segs: Seq<Segment>, style: TermStyle) -> nat
    decreases segs.len(),
{
    if segs.len() == 0 || segs[0].0 != style {
        0
    } else {
        1 + style_run_len(segs.drop_first(), style)
    }
}

/// `head` followed by `tail`, where the pieces at the front of `tail` that have
/// the style of the last piece of `head` are merged into that piece.
pub open spec fn joined(head: Seq<Segment>, tail: Seq<Segment>) -> Seq<Segment> {
    if head.len() == 0 {
        tail
    } else {
        let last = head.last();
        let k = style_run_len(tail, last.0) as int;
        head.drop_last().push((last.0, last.1 + text_of(tail.take(k)))) + tail.skip(k)
    }
}

/// The pieces of `a` after `b` is appended to it: blank pieces of both are
/// dropped, then `b` is joined onto `a`.
pub open spec fn appended(a: Seq<Segment>, b: Seq<Segment>) -> Seq<Segment> {
    joined(without_blanks(a), without_blanks(b))
}

/// The pieces of `segs` after the text `t` is appended to it in the style of
/// its last piece; with no piece, `t` becomes a piece with no style.
pub open spec fn str_appended(segs: Seq<Segment>, t: Seq<char>) -> Seq<Segment> {
    if segs.len() == 0 {
        if t.len() == 0 {
            Seq::empty()
        } else {
            seq![(TermStyle::unstyled(), t)]
        }
    } else {
        segs.drop_last().push((segs.last().0, segs.last().1 + t))
    }
}

#[derive(Clone, Debug)]
struct TermStringElement {
    style: TermStyle,
    text: String,
}

impl View for TermStringElement {
    type V = Segment;

    closed spec fn view(&self) -> Segment {
        (self.style, self.text@)
    }
}

spec fn elements_view(elements: Seq<TermStringElement>) -> Seq<Segment> {
    elements.map_values(|e: TermStringElement| e@)
}

impl TermStringElement {
    fn new(style: TermStyle, text: &str) -> (e: Self)
        ensures
            e@ == (style, text@),
    {
        TermStringElement { style, text: text.to_owned() }
    }

    fn is_blank(&self) -> (b: bool)
        ensures
            b == is_blank(self@),
    {
        self.style == TermStyle::default() && self.text.as_str().is_empty()
    }
}

/// A string with terminal styling attached to it.
///
/// It holds several strings, each with a [`TermStyle`] of its own.
#[derive(Clone, Debug)]
pub struct TermString {
    elements: Vec<TermStringElement>,
}

impl View for TermString {
    type V = Seq<Segment>;

    closed spec fn view(&self) -> Seq<Segment> {
        elements_view(self.elements@)
    }
}

// ---------------------------------------------------------------------------
// Lemmas on text and encodings

/// The UTF-8 encoding of two texts one after the other is their encodings one after the other.
pub proof fn lemma_encode_utf8_concat(a: Seq<char>, b: Seq<char>)
    ensures
        encode_utf8(a + b) == encode_utf8(a) + encode_utf8(b),
    decreases a.len(),
{
    if a.len() == 0 {
        assert(a + b =~= b);
        assert(encode_utf8(a) =~= Seq::<u8>::empty());
        assert(encode_utf8(a) + encode_utf8(b) =~= encode_utf8(b));
    } else {
        assert((a + b).drop_first() =~= a.drop_first() + b);
        assert((a + b)[0] == a[0]);
        lemma_encode_utf8_concat(a.drop_first(), b);
        assert(encode_utf8(a + b) =~= encode_utf8(a) + encode_utf8(b));
    }
}

/// Every character takes at least one byte, so only the empty text encodes to no bytes.
pub proof fn lemma_encode_utf8_len(a: Seq<char>)
    ensures
        encode_utf8(a).len() >= a.len(),
        encode_utf8(a).len() == 0 <==> a.len() == 0,
    decreases a.len(),
{
    if a.len() > 0 {
        lemma_encode_utf8_len(a.drop_first());
    }
}

proof fn lemma_text_push(segs: Seq<Segment>, s: Segment)
    ensures
        text_of(segs.push(s)) == text_of(segs) + s.1,
{
    assert(segs.push(s).drop_last() =~= segs);
}

proof fn lemma_text_take(segs: Seq<Segment>, i: int)
    requires
        0 <= i < segs.len(),
    ensures
        text_of(segs.take(i + 1)) == text_of(segs.take(i)) + segs[i].1,
{
    assert(segs.take(i + 1).drop_last() =~= segs.take(i));
}

/// The text of two sequences of pieces, one after the other, is their texts one after the other.
pub proof fn lemma_text_concat(a: Seq<Segment>, b: Seq<Segment>)
    ensures
        text_of(a + b) == text_of(a) + text_of(b),
    decreases b.len(),
{
    if b.len() == 0 {
        assert(a + b =~= a);
        assert(text_of(a) + text_of(b) =~= text_of(a));
    } else {
        assert((a + b).drop_last() =~= a + b.drop_last());
        lemma_text_concat(a, b.drop_last());
        assert(text_of(a + b) =~= text_of(a) + text_of(b));
    }
}

proof fn lemma_text_split(segs: Seq<Segment>, i: int)
    requires
        0 <= i <= segs.len(),
    ensures
        text_of(segs) == text_of(segs.take(i)) + text_of(segs.skip(i)),
{
    assert(segs =~= segs.take(i) + segs.skip(i));
    lemma_text_concat(segs.take(i), segs.skip(i));
}

proof fn lemma_byte_len_prefix(segs: Seq<Segment>, i: int)
    requires
        0 <= i <= segs.len(),
    ensures
        byte_len(segs.take(i)) <= byte_len(segs),
{
    lemma_text_split(segs, i);
    lemma_encode_utf8_concat(text_of(segs.take(i)), text_of(segs.skip(i)));
}

/// Dropping blank pieces keeps the text.
pub proof fn lemma_without_blanks_text(segs: Seq<Segment>)
    ensures
        text_of(without_blanks(segs)) == text_of(segs),
    decreases segs.len(),
{
    if segs.len() > 0 {
        lemma_without_blanks_text(segs.drop_last());
        let rest = without_blanks(segs.drop_last());
        if is_blank(segs.last()) {
            assert(text_of(segs) =~= text_of(segs.drop_last()));
        } else {
            lemma_text_push(rest, segs.last());
        }
    }
}

/// No piece that is left after blank pieces are dropped is blank.
pub proof fn lemma_without_blanks_no_blank(segs: Seq<Segment>)
    ensures
        forall|i: int| 0 <= i < without_blanks(segs).len() ==> !is_blank(#[trigger] without_blanks(segs)[i]),
    decreases segs.len(),
{
    if segs.len() > 0 {
        lemma_without_blanks_no_blank(segs.drop_last());
        let rest = without_blanks(segs.drop_last());
        assert forall|i: int| 0 <= i < without_blanks(segs).len() implies !is_blank(
            #[trigger] without_blanks(segs)[i],
        ) by {
            if i < rest.len() {
                assert(without_blanks(segs)[i] == rest[i]);
            }
        }
    }
}

/// The run of pieces of style `style` at the front of `segs` ends where the first piece of another style stands.
pub proof fn lemma_style_run(segs: Seq<Segment>, style: TermStyle)
    ensures
        style_run_len(segs, style) <= segs.len(),
        forall|j: int| 0 <= j < style_run_len(segs, style) ==> (#[trigger] segs[j]).0 == style,
        style_run_len(segs, style) < segs.len() ==> segs[style_run_len(segs, style) as int].0 != style,
    decreases segs.len(),
{
    if segs.len() > 0 && segs[0].0 == style {
        lemma_style_run(segs.drop_first(), style);
        assert forall|j: int| 0 <= j < style_run_len(segs, style) implies (#[trigger] segs[j]).0 == style by {
            if j > 0 {
                assert(segs[j] == segs.drop_first()[j - 1]);
            }
        }
    }
}

// ---------------------------------------------------------------------------
// Construction and measuring

impl TermString {
    /// A styled string of one piece: `text` in the style `style`.
    pub fn new(style: TermStyle, text: &str) -> (ts: TermString)
        ensures
            ts@ == seq![(style, text@)],
    {
        let mut elements: Vec<TermStringElement> = Vec::new();
        elements.push(TermStringElement::new(style, text));
        let ts = TermString { elements };
        assert(ts@ =~= seq![(style, text@)]);
        ts
    }

    /// The length in bytes of the un-styled text.
    pub fn len(&self) -> (n: usize)
        requires
            byte_len(self@) <= usize::MAX,
        ensures
            n == byte_len(self@),
    {
        let mut total: usize = 0;
        let count = self.elements.len();
        for i in 0..count
            invariant
                count == self.elements@.len(),
                byte_len(self@) <= usize::MAX,
                total == byte_len(self@.take(i as int)),
        {
            let piece = self.elements[i].text.as_str().len();
            proof {
                lemma_text_take(self@, i as int);
                lemma_encode_utf8_concat(text_of(self@.take(i as int)), self@[i as int].1);
                lemma_byte_len_prefix(self@, i + 1);
            }
            total = total + piece;
        }
        assert(self@.take(count as int) =~= self@);
        total
    }

    /// Whether the un-styled text is empty.
    ///
    /// The string may hold pieces while its text is empty.
    pub fn is_empty(&self) -> (b: bool)
        ensures
            b == (text_of(self@).len() == 0),
            b == (byte_len(self@) == 0),
    {
        let count = self.elements.len();
        let mut i: usize = 0;
        while i < count
            invariant
                count == self.elements@.len(),
                i <= count,
                text_of(self@.take(i as int)).len() == 0,
            decreases count - i,
        {
            proof {
                lemma_text_take(self@, i as int);
            }
            if !self.elements[i].text.as_str().is_empty() {
                proof {
                    lemma_text_split(self@, i + 1);
                    lemma_encode_utf8_len(text_of(self@));
                }
                return false;
            }
            i = i + 1;
        }
        assert(self@.take(count as int) =~= self@);
        proof {
            lemma_encode_utf8_len(text_of(self@));
        }
        true
    }

    /// The un-styled text.
    pub fn as_string(&self) -> (s: String)
        ensures
            s@ == text_of(self@),
    {
        let mut s = String::new();
        let count = self.elements.len();
        for i in 0..count
            invariant
                count == self.elements@.len(),
                s@ == text_of(self@.take(i as int)),
        {
            proof {
                lemma_text_take(self@, i as int);
            }
            s.append(self.elements[i].text.as_str());
        }
        assert(self@.take(count as int) =~= self@);
        s
    }
}

// ---------------------------------------------------------------------------
// Appending

/// The pieces of `elements` that are not blank, in their order.
fn without_blank_elements(elements: Vec<TermStringElement>) -> (kept: Vec<TermStringElement>)
    ensures
        elements_view(kept@) == without_blanks(elements_view(elements@)),
{
    let ghost all = elements_view(elements@);
    let mut kept: Vec<TermStringElement> = Vec::new();
    for e in it: elements.into_iter()
        invariant
            all == elements_view(it.seq()),
            elements_view(kept@) == without_blanks(all.take(it.index() as int)),
    {
        let ghost i = it.index() as int;
        proof {
            assert(all.take(i + 1).drop_last() =~= all.take(i));
        }
        if !e.is_blank() {
            kept.push(e);
            assert(elements_view(kept@) =~= without_blanks(all.take(i + 1)));
        }
    }
    assert(all.take(all.len() as int) =~= all);
    kept
}

/// Appends `text` to the text of the last piece.
fn extend_last(elements: &mut Vec<TermStringElement>, text: &str)
    requires
        old(elements)@.len() > 0,
    ensures
        elements_view(final(elements)@) == elements_view(old(elements)@).drop_last().push(
            (elements_view(old(elements)@).last().0, elements_view(old(elements)@).last().1 + text@),
        ),
{
    let last = elements.pop();
    match last {
        Some(mut last) => {
            last.text.append(text);
            elements.push(last);
        },
        None => {},
    }
    assert(elements_view(elements@) =~= elements_view(old(elements)@).drop_last().push(
        (elements_view(old(elements)@).last().0, elements_view(old(elements)@).last().1 + text@),
    ));
}

impl TermString {
    /// Appends `text`, in the style of the last piece.
    ///
    /// A string with no piece gets `text` as a piece with no style (which,
    /// when `text` is empty, is blank and dropped).
    pub fn append_str(&mut self, text: &str)
        ensures
            final(self)@ == str_appended(old(self)@, text@),
            text_of(final(self)@) == text_of(old(self)@) + text@,
    {
        if self.elements.len() == 0 {
            self.append_term_str(TermString::new(TermStyle::default(), text));
            proof {
                assert(without_blanks(old(self)@) =~= Seq::empty());
                let one = seq![(TermStyle::unstyled(), text@)];
                assert(one.drop_last() =~= Seq::<Segment>::empty());
                assert(without_blanks(Seq::<Segment>::empty()) =~= Seq::<Segment>::empty());
                assert(Seq::<Segment>::empty().push(one.last()) =~= one);
                assert(without_blanks(one) =~= str_appended(old(self)@, text@));
                assert(text_of(one) =~= text@) by {
                    lemma_text_push(Seq::empty(), (TermStyle::unstyled(), text@));
                }
                assert(text_of(old(self)@) =~= Seq::empty());
            }
        } else {
            extend_last(&mut self.elements, text);
            proof {
                lemma_text_push(old(self)@.drop_last(), old(self)@.last());
                assert(old(self)@.drop_last().push(old(self)@.last()) =~= old(self)@);
                lemma_text_push(old(self)@.drop_last(), (old(self)@.last().0, old(self)@.last().1 + text@));
            }
        }
    }

    /// Appends `other`: blank pieces of both strings are dropped, the pieces at
    /// the front of `other` that have the style of the last piece are merged
    /// into it, and the rest of `other` follows.
    pub fn append_term_str(&mut self, other: TermString)
        ensures
            final(self)@ == appended(old(self)@, other@),
            text_of(final(self)@) == text_of(old(self)@) + text_of(other@),
            styled_chars(final(self)@) == styled_chars(old(self)@) + styled_chars(other@),
            forall|i: int| 0 <= i < final(self)@.len() ==> !is_blank(#[trigger] final(self)@[i]),
    {
        proof {
            law_append_keeps_styles(old(self)@, other@);
            law_append_keeps_text(old(self)@, other@);
            law_append_leaves_no_blank(old(self)@, other@);
        }
        let mut own: Vec<TermStringElement> = Vec::new();
        std::mem::swap(&mut own, &mut self.elements);
        let mut own = without_blank_elements(own);
        let theirs = without_blank_elements(other.elements);
        if own.len() == 0 {
            self.elements = theirs;
            return;
        }
        let ghost head = elements_view(own@);
        let ghost tail = elements_view(theirs@);
        let style = own[own.len() - 1].style;
        let ghost k = style_run_len(tail, style) as int;
        proof {
            lemma_style_run(tail, style);
        }
        let mut merging = true;
        for next in it: theirs.into_iter()
            invariant
                tail == elements_view(it.seq()),
                head.len() > 0,
                style == head.last().0,
                k == style_run_len(tail, style),
                k <= tail.len(),
                forall|j: int| 0 <= j < k ==> (#[trigger] tail[j]).0 == style,
                k < tail.len() ==> tail[k].0 != style,
                merging ==> it.index() <= k,
                merging ==> elements_view(own@) == head.drop_last().push(
                    (style, head.last().1 + text_of(tail.take(it.index() as int))),
                ),
                !merging ==> k < it.index(),
                !merging ==> elements_view(own@) == head.drop_last().push(
                    (style, head.last().1 + text_of(tail.take(k)))) + tail.subrange(k, it.index() as int),
        {
            let ghost i = it.index() as int;
            assert(next@ == tail[i]);
            let ghost before = elements_view(own@);
            if merging && next.style == style {
                extend_last(&mut own, next.text.as_str());
                proof {
                    let merged = (style, head.last().1 + text_of(tail.take(i)));
                    assert(before.drop_last() =~= head.drop_last());
                    assert(before.last() == merged);
                    lemma_text_take(tail, i);
                    assert(head.last().1 + text_of(tail.take(i)) + tail[i].1 =~= head.last().1
                        + text_of(tail.take(i + 1)));
                    assert(elements_view(own@) =~= head.drop_last().push(
                        (style, head.last().1 + text_of(tail.take(i + 1)))));
                }
            } else {
                proof {
                    if merging {
                        assert(k == i);
                    }
                }
                merging = false;
                own.push(next);
                proof {
                    assert(elements_view(own@) =~= before.push(tail[i]));
                    assert(tail.subrange(k, k) =~= Seq::<Segment>::empty());
                    assert(elements_view(own@) =~= head.drop_last().push(
                        (style, head.last().1 + text_of(tail.take(k)))) + tail.subrange(k, i + 1));
                }
            }
        }
        proof {
            assert(tail.skip(k) =~= tail.subrange(k, tail.len() as int));
            if merging {
                assert(tail.skip(k) =~= Seq::<Segment>::empty());
            }
        }
        self.elements = own;
        assert(self@ =~= appended(old(self)@, other@));
    }
}

// ---------------------------------------------------------------------------
// Laws of appending

/// Joining keeps the text: the text of `head` joined with `tail` is the text
/// of `head` followed by the text of `tail`.
proof fn lemma_joined_text(head: Seq<Segment>, tail: Seq<Segment>)
    ensures
        text_of(joined(head, tail)) == text_of(head) + text_of(tail),
{
    if head.len() > 0 {
        let last = head.last();
        let k = style_run_len(tail, last.0) as int;
        lemma_style_run(tail, last.0);
        let merged = (last.0, last.1 + text_of(tail.take(k)));
        lemma_text_concat(head.drop_last().push(merged), tail.skip(k));
        lemma_text_push(head.drop_last(), merged);
        lemma_text_push(head.drop_last(), last);
        assert(head.drop_last().push(last) =~= head);
        lemma_text_split(tail, k);
        assert(text_of(joined(head, tail)) =~= text_of(head) + text_of(tail));
    } else {
        assert(text_of(head) + text_of(tail) =~= text_of(tail));
    }
}

/// Appending a styled string keeps the text: the text afterwards is the text
/// before, followed by the text of what was appended.
pub proof fn law_append_keeps_text(a: Seq<Segment>, b: Seq<Segment>)
    ensures
        text_of(appended(a, b)) == text_of(a) + text_of(b),
{
    lemma_joined_text(without_blanks(a), without_blanks(b));
    lemma_without_blanks_text(a);
    lemma_without_blanks_text(b);
}

/// Lengths add up: the length of `a` with `b` appended is the length of `a`
/// plus the length of `b`.
pub proof fn law_append_adds_lengths(a: Seq<Segment>, b: Seq<Segment>)
    ensures
        byte_len(appended(a, b)) == byte_len(a) + byte_len(b),
{
    law_append_keeps_text(a, b);
    lemma_encode_utf8_concat(text_of(a), text_of(b));
}

/// After a styled string is appended, no piece is blank.
pub proof fn law_append_leaves_no_blank(a: Seq<Segment>, b: Seq<Segment>)
    ensures
        forall|i: int| 0 <= i < appended(a, b).len() ==> !is_blank(#[trigger] appended(a, b)[i]),
{
    let head = without_blanks(a);
    let tail = without_blanks(b);
    lemma_without_blanks_no_blank(a);
    lemma_without_blanks_no_blank(b);
    if head.len() > 0 {
        let last = head.last();
        let k = style_run_len(tail, last.0) as int;
        let merged = (last.0, last.1 + text_of(tail.take(k)));
        lemma_style_run(tail, last.0);
        assert(!is_blank(head[head.len() - 1]));
        assert(merged.1.len() >= last.1.len());
        let r = appended(a, b);
        assert(r == head.drop_last().push(merged) + tail.skip(k));
        assert forall|i: int| 0 <= i < r.len() implies !is_blank(#[trigger] r[i]) by {
            if i < head.len() - 1 {
                assert(r[i] == head[i]);
            } else if i == head.len() - 1 {
                assert(r[i] == merged);
            } else {
                assert(r[i] == tail.skip(k)[i - head.len()]);
                assert(r[i] == tail[k + i - head.len()]);
            }
        }
    }
}

/// Appending text keeps the text: the text afterwards is the text before,
/// followed by the appended text.
pub proof fn law_append_str_keeps_text(a: Seq<Segment>, t: Seq<char>)
    ensures
        text_of(str_appended(a, t)) == text_of(a) + t,
{
    if a.len() == 0 {
        assert(text_of(a) + t =~= t);
        if t.len() > 0 {
            lemma_text_push(Seq::empty(), (TermStyle::unstyled(), t));
            assert(Seq::<Segment>::empty().push((TermStyle::unstyled(), t)) =~= str_appended(a, t));
        }
    } else {
        lemma_text_push(a.drop_last(), a.last());
        assert(a.drop_last().push(a.last()) =~= a);
        lemma_text_push(a.drop_last(), (a.last().0, a.last().1 + t));
    }
}

/// Appending text to a string that has pieces inherits the previous style:
/// the pieces and their styles stay, and only the last text grows.
pub proof fn law_append_str_inherits_style(a: Seq<Segment>, t: Seq<char>)
    requires
        a.len() > 0,
    ensures
        str_appended(a, t).len() == a.len(),
        forall|i: int| 0 <= i < a.len() ==> (#[trigger] str_appended(a, t)[i]).0 == a[i].0,
        forall|i: int| 0 <= i < a.len() - 1 ==> (#[trigger] str_appended(a, t)[i]).1 == a[i].1,
        str_appended(a, t).last().1 == a.last().1 + t,
{
}

proof fn lemma_piece_chars_concat(style: TermStyle, x: Seq<char>, y: Seq<char>)
    ensures
        piece_chars((style, x + y)) == piece_chars((style, x)) + piece_chars((style, y)),
{
    assert(piece_chars((style, x + y)) =~= piece_chars((style, x)) + piece_chars((style, y)));
}

proof fn lemma_styled_push(segs: Seq<Segment>, s: Segment)
    ensures
        styled_chars(segs.push(s)) == styled_chars(segs) + piece_chars(s),
{
    assert(segs.push(s).drop_last() =~= segs);
}

proof fn lemma_styled_concat(a: Seq<Segment>, b: Seq<Segment>)
    ensures
        styled_chars(a + b) == styled_chars(a) + styled_chars(b),
    decreases b.len(),
{
    if b.len() == 0 {
        assert(a + b =~= a);
        assert(styled_chars(a) + styled_chars(b) =~= styled_chars(a));
    } else {
        assert((a + b).drop_last() =~= a + b.drop_last());
        lemma_styled_concat(a, b.drop_last());
        assert(styled_chars(a + b) =~= styled_chars(a) + styled_chars(b));
    }
}

proof fn lemma_styled_without_blanks(segs: Seq<Segment>)
    ensures
        styled_chars(without_blanks(segs)) == styled_chars(segs),
    decreases segs.len(),
{
    if segs.len() > 0 {
        lemma_styled_without_blanks(segs.drop_last());
        let rest = without_blanks(segs.drop_last());
        if is_blank(segs.last()) {
            assert(piece_chars(segs.last()) =~= Seq::empty());
            assert(styled_chars(segs) =~= styled_chars(segs.drop_last()));
        } else {
            lemma_styled_push(rest, segs.last());
        }
    }
}

/// A run of `k` pieces that all have the style `style` is written like one
/// piece of that style holding their texts.
proof fn lemma_styled_run(segs: Seq<Segment>, style: TermStyle, k: int)
    requires
        0 <= k <= segs.len(),
        forall|j: int| 0 <= j < k ==> (#[trigger] segs[j]).0 == style,
    ensures
        styled_chars(segs.take(k)) == piece_chars((style, text_of(segs.take(k)))),
    decreases k,
{
    if k == 0 {
        assert(segs.take(0) =~= Seq::<Segment>::empty());
        assert(piece_chars((style, text_of(segs.take(0)))) =~= Seq::empty());
    } else {
        lemma_styled_run(segs, style, k - 1);
        assert(segs.take(k).drop_last() =~= segs.take(k - 1));
        lemma_text_take(segs, k - 1);
        lemma_piece_chars_concat(style, text_of(segs.take(k - 1)), segs[k - 1].1);
    }
}

/// Appending a styled string keeps the style of every character: each
/// character of the result is written in the style it had in `a` or in `b`.
pub proof fn law_append_keeps_styles(a: Seq<Segment>, b: Seq<Segment>)
    ensures
        styled_chars(appended(a, b)) == styled_chars(a) + styled_chars(b),
{
    let head = without_blanks(a);
    let tail = without_blanks(b);
    lemma_styled_without_blanks(a);
    lemma_styled_without_blanks(b);
    if head.len() == 0 {
        assert(styled_chars(head) =~= Seq::empty());
        assert(styled_chars(head) + styled_chars(tail) =~= styled_chars(tail));
    } else {
        let last = head.last();
        let k = style_run_len(tail, last.0) as int;
        lemma_style_run(tail, last.0);
        let merged = (last.0, last.1 + text_of(tail.take(k)));
        lemma_styled_concat(head.drop_last().push(merged), tail.skip(k));
        lemma_styled_push(head.drop_last(), merged);
        lemma_styled_push(head.drop_last(), last);
        assert(head.drop_last().push(last) =~= head);
        lemma_piece_chars_concat(last.0, last.1, text_of(tail.take(k)));
        lemma_styled_run(tail, last.0, k);
        assert(tail =~= tail.take(k) + tail.skip(k));
        lemma_styled_concat(tail.take(k), tail.skip(k));
        assert(styled_chars(appended(a, b)) =~= styled_chars(head) + styled_chars(tail));
    }
}

/// Appending text keeps the style of every character, and the appended
/// characters take the style of the last piece (no style when there is none).
pub proof fn law_append_str_keeps_styles(a: Seq<Segment>, t: Seq<char>)
    ensures
        styled_chars(str_appended(a, t)) == styled_chars(a) + piece_chars(
            (if a.len() == 0 { TermStyle::unstyled() } else { a.last().0 }, t),
        ),
{
    if a.len() == 0 {
        assert(styled_chars(a) =~= Seq::empty());
        if t.len() == 0 {
            assert(piece_chars((TermStyle::unstyled(), t)) =~= Seq::empty());
        } else {
            lemma_styled_push(Seq::empty(), (TermStyle::unstyled(), t));
            assert(Seq::<Segment>::empty().push((TermStyle::unstyled(), t)) =~= str_appended(a, t));
        }
        assert(styled_chars(str_appended(a, t)) =~= styled_chars(a) + piece_chars(
            (TermStyle::unstyled(), t),
        ));
    } else {
        lemma_styled_push(a.drop_last(), a.last());
        assert(a.drop_last().push(a.last()) =~= a);
        lemma_styled_push(a.drop_last(), (a.last().0, a.last().1 + t));
        lemma_piece_chars_concat(a.last().0, a.last().1, t);
    }
}

/// A piece is blank exactly when its style sets no slot and its text is empty.
pub proof fn law_blank_is_unstyled_and_empty(seg: Segment)
    ensures
        is_blank(seg) <==> (!seg.0.bold && !seg.0.dim && seg.0.italic is None
            && seg.0.underline is None && !seg.0.blink && seg.0.standout is None && !seg.0.reverse
            && !seg.0.secure && seg.0.fg is None && seg.0.bg is None && seg.1.len() == 0),
{
}

proof fn lemma_without_blanks_keeps_texts(segs: Seq<Segment>)
    requires
        forall|i: int| 0 <= i < segs.len() ==> (#[trigger] segs[i]).1.len() > 0,
    ensures
        without_blanks(segs) == segs,
    decreases segs.len(),
{
    if segs.len() > 0 {
        let init = segs.drop_last();
        assert forall|i: int| 0 <= i < init.len() implies (#[trigger] init[i]).1.len() > 0 by {
            assert(init[i] == segs[i]);
        }
        lemma_without_blanks_keeps_texts(init);
        assert(segs[segs.len() - 1].1.len() > 0);
        assert(init.push(segs.last()) =~= segs);
    }
}

/// Appending a piece with empty text whose style sets some slot keeps that
/// piece: it is merged into the last piece when the styles are equal, and
/// otherwise follows it; only pieces with no style and no text are dropped.
pub proof fn law_append_keeps_styled_empty_piece(a: Seq<Segment>, style: TermStyle)
    requires
        a.len() > 0,
        forall|i: int| 0 <= i < a.len() ==> (#[trigger] a[i]).1.len() > 0,
        style.bold || style.dim || style.italic is Some || style.underline is Some || style.blink
            || style.standout is Some || style.reverse || style.secure || style.fg is Some
            || style.bg is Some,
    ensures
        appended(a, seq![(style, Seq::<char>::empty())]) == (if style == a.last().0 {
            a
        } else {
            a.push((style, Seq::<char>::empty()))
        }),
{
    let piece = (style, Seq::<char>::empty());
    let b = seq![piece];
    lemma_without_blanks_keeps_texts(a);
    assert(b.drop_last() =~= Seq::<Segment>::empty());
    assert(without_blanks(Seq::<Segment>::empty()) =~= Seq::<Segment>::empty());
    assert(!is_blank(piece));
    assert(Seq::<Segment>::empty().push(piece) =~= b);
    assert(without_blanks(b) == b);
    let last = a.last();
    let k = style_run_len(b, last.0) as int;
    assert(b.drop_first() =~= Seq::<Segment>::empty());
    assert(style_run_len(b.drop_first(), last.0) == 0);
    if style == last.0 {
        assert(k == 1);
        assert(b.take(1) =~= b);
        lemma_text_push(Seq::empty(), piece);
        assert(Seq::<Segment>::empty().push(piece) =~= b);
        assert(text_of(b) =~= Seq::<char>::empty());
        assert(last.1 + text_of(b.take(k)) =~= last.1);
        assert(b.skip(1) =~= Seq::<Segment>::empty());
        assert(a.drop_last().push(last) =~= a);
        assert(appended(a, b) =~= a);
    } else {
        assert(k == 0);
        assert(b.take(0) =~= Seq::<Segment>::empty());
        assert(last.1 + text_of(b.take(k)) =~= last.1);
        assert(b.skip(0) =~= b);
        assert(a.drop_last().push(last) =~= a);
        assert(appended(a, b) =~= a.push(piece));
    }
}

/// Appending `b` to `a`, when neither has a blank piece and `a` has pieces:
/// some number `k` of pieces at the front of `b`, all in the style of the last
/// piece of `a` and followed by none of that style, are merged into that last
/// piece; the remaining pieces of `b` follow unchanged.
pub proof fn law_append_merges_leading_run(a: Seq<Segment>, b: Seq<Segment>)
    requires
        a.len() > 0,
        forall|i: int| 0 <= i < a.len() ==> (#[trigger] a[i]).1.len() > 0,
        forall|i: int| 0 <= i < b.len() ==> (#[trigger] b[i]).1.len() > 0,
    ensures
        exists|k: int|
            0 <= k <= b.len() && (forall|j: int| 0 <= j < k ==> (#[trigger] b[j]).0 == a.last().0) && (k
                < b.len() ==> b[k].0 != a.last().0) && appended(a, b) == a.drop_last().push(
                (a.last().0, a.last().1 + text_of(b.take(k))),
            ) + b.skip(k),
{
    lemma_without_blanks_keeps_texts(a);
    lemma_without_blanks_keeps_texts(b);
    lemma_style_run(b, a.last().0);
    let k = style_run_len(b, a.last().0) as int;
    assert(0 <= k <= b.len() && (forall|j: int| 0 <= j < k ==> (#[trigger] b[j]).0 == a.last().0) && (k
        < b.len() ==> b[k].0 != a.last().0));
}

// ---------------------------------------------------------------------------
// Styling

/// How the style of every piece is changed.
enum Restyle {
    To(TermStyle),
    Reset,
    Or(TermStyle),
    Add(TermStyle),
}

/// The style that `how` makes of `style`.
spec fn restyled_style(how: Restyle, style: TermStyle) -> TermStyle {
    match how {
        Restyle::To(s) => s,
        Restyle::Reset => TermStyle::unstyled(),
        Restyle::Or(s) => style.or_with(s),
        Restyle::Add(s) => style.add_with(s),
    }
}

impl Restyle {
    fn apply(&self, style: &mut TermStyle)
        ensures
            *final(style) == restyled_style(*self, *old(style)),
    {
        match self {
            Restyle::To(s) => {
                *style = *s;
            },
            Restyle::Reset => {
                style.reset();
            },
            Restyle::Or(s) => {
                style.or_style(*s);
            },
            Restyle::Add(s) => {
                style.add_style(*s);
            },
        }
    }
}

impl TermString {
    /// Changes the style of every piece as `how` says; the texts stay.
    fn restyle(&mut self, how: Restyle)
        ensures
            final(self)@.len() == old(self)@.len(),
            forall|i: int|
                0 <= i < old(self)@.len() ==> #[trigger] final(self)@[i] == (
                restyled_style(how, old(self)@[i].0),
                old(self)@[i].1,
            ),
    {
        let mut elements: Vec<TermStringElement> = Vec::new();
        std::mem::swap(&mut elements, &mut self.elements);
        let ghost all = elements_view(elements@);
        let mut done: Vec<TermStringElement> = Vec::new();
        for e in it: elements.into_iter()
            invariant
                all == elements_view(it.seq()),
                done@.len() == it.index(),
                forall|j: int|
                    0 <= j < it.index() ==> #[trigger] elements_view(done@)[j] == (
                    restyled_style(how, all[j].0),
                    all[j].1,
                ),
        {
            let ghost i = it.index() as int;
            assert(e@ == all[i]);
            let mut e = e;
            how.apply(&mut e.style);
            let ghost prev = elements_view(done@);
            done.push(e);
            assert forall|j: int| 0 <= j < i + 1 implies #[trigger] elements_view(done@)[j] == (
                restyled_style(how, all[j].0),
                all[j].1,
            ) by {
                if j == i {
                    assert(done@[j] == e);
                } else {
                    assert(elements_view(done@)[j] == prev[j]);
                }
            }
        }
        self.elements = done;
    }

    /// Sets the style of every piece to `style`.
    pub fn set_style(&mut self, style: TermStyle)
        ensures
            final(self)@.len() == old(self)@.len(),
            forall|i: int|
                0 <= i < old(self)@.len() ==> #[trigger] final(self)@[i] == (style, old(self)@[i].1),
    {
        self.restyle(Restyle::To(style));
    }

    /// Resets the style of every piece to no style.
    pub fn reset_style(&mut self)
        ensures
            final(self)@.len() == old(self)@.len(),
            forall|i: int|
                0 <= i < old(self)@.len() ==> #[trigger] final(self)@[i] == (
                TermStyle::unstyled(),
                old(self)@[i].1,
            ),
    {
        self.restyle(Restyle::Reset);
    }

    /// Fills, in the style of every piece, the slots it leaves unset from `style`
    /// (see [`TermStyle::or_style`]).
    pub fn or_style(&mut self, style: TermStyle)
        ensures
            final(self)@.len() == old(self)@.len(),
            forall|i: int|
                0 <= i < old(self)@.len() ==> #[trigger] final(self)@[i] == (
                old(self)@[i].0.or_with(style),
                old(self)@[i].1,
            ),
    {
        self.restyle(Restyle::Or(style));
    }

    /// Overrides, in the style of every piece, the slots that `style` sets
    /// (see [`TermStyle::add_style`]).
    pub fn add_style(&mut self, style: TermStyle)
        ensures
            final(self)@.len() == old(self)@.len(),
            forall|i: int|
                0 <= i < old(self)@.len() ==> #[trigger] final(self)@[i] == (
                old(self)@[i].0.add_with(style),
                old(self)@[i].1,
            ),
    {
        self.restyle(Restyle::Add(style));
    }
}

// ---------------------------------------------------------------------------
// Aliases, chaining forms and the pieces themselves

impl TermString {
    /// The same as [`TermString::append_term_str`].
    pub fn append(&mut self, other: TermString)
        ensures
            final(self)@ == appended(old(self)@, other@),
            text_of(final(self)@) == text_of(old(self)@) + text_of(other@),
            forall|i: int| 0 <= i < final(self)@.len() ==> !is_blank(#[trigger] final(self)@[i]),
    {
        self.append_term_str(other);
    }

    /// [`TermString::append_str`], as a chaining call.
    pub fn with_appended_str(self, text: &str) -> (ts: TermString)
        ensures
            ts@ == str_appended(self@, text@),
    {
        let mut ts = self;
        ts.append_str(text);
        ts
    }

    /// [`TermString::append_term_str`], as a chaining call.
    pub fn with_appended_term_str(self, other: TermString) -> (ts: TermString)
        ensures
            ts@ == appended(self@, other@),
    {
        let mut ts = self;
        ts.append_term_str(other);
        ts
    }

    /// [`TermString::append`], as a chaining call.
    pub fn with_appended(self, other: TermString) -> (ts: TermString)
        ensures
            ts@ == appended(self@, other@),
    {
        let mut ts = self;
        ts.append(other);
        ts
    }

    /// [`TermString::set_style`], as a chaining call.
    pub fn with_set_style(self, style: TermStyle) -> (ts: TermString)
        ensures
            ts@.len() == self@.len(),
            forall|i: int| 0 <= i < self@.len() ==> #[trigger] ts@[i] == (style, self@[i].1),
    {
        let mut ts = self;
        ts.set_style(style);
        ts
    }

    /// [`TermString::reset_style`], as a chaining call.
    pub fn with_reset_style(self) -> (ts: TermString)
        ensures
            ts@.len() == self@.len(),
            forall|i: int|
                0 <= i < self@.len() ==> #[trigger] ts@[i] == (TermStyle::unstyled(), self@[i].1),
    {
        let mut ts = self;
        ts.reset_style();
        ts
    }

    /// [`TermString::or_style`], as a chaining call.
    pub fn with_ored_style(self, style: TermStyle) -> (ts: TermString)
        ensures
            ts@.len() == self@.len(),
            forall|i: int|
                0 <= i < self@.len() ==> #[trigger] ts@[i] == (self@[i].0.or_with(style), self@[i].1),
    {
        let mut ts = self;
        ts.or_style(style);
        ts
    }

    /// [`TermString::add_style`], as a chaining call.
    pub fn with_style(self, style: TermStyle) -> (ts: TermString)
        ensures
            ts@.len() == self@.len(),
            forall|i: int|
                0 <= i < self@.len() ==> #[trigger] ts@[i] == (self@[i].0.add_with(style), self@[i].1),
    {
        let mut ts = self;
        ts.add_style(style);
        ts
    }

    /// The pieces, each as its style and its text, in order: what a writer
    /// writes, one piece after the other.
    pub fn segments(&self) -> (pieces: Vec<(TermStyle, String)>)
        ensures
            pieces@.len() == self@.len(),
            forall|i: int|
                0 <= i < self@.len() ==> (#[trigger] pieces@[i]).0 == self@[i].0 && pieces@[i].1@
                    == self@[i].1,
    {
        let mut pieces: Vec<(TermStyle, String)> = Vec::new();
        let count = self.elements.len();
        for i in 0..count
            invariant
                count == self.elements@.len(),
                pieces@.len() == i,
                forall|j: int|
                    0 <= j < i ==> (#[trigger] pieces@[j]).0 == self@[j].0 && pieces@[j].1@
                        == self@[j].1,
        {
            let e = &self.elements[i];
            pieces.push((e.style, e.text.clone()));
        }
        pieces
    }
}

impl Default for TermString {
    /// The styled string with no piece.
    fn default() -> (ts: TermString)
        ensures
            ts@ == Seq::<Segment>::empty(),
    {
        let ts = TermString { elements: Vec::new() };
        assert(ts@ =~= Seq::<Segment>::empty());
        ts
    }
}

// ---------------------------------------------------------------------------
// Conversions and operators

impl<'a> From<&'a str> for TermString {
    /// A styled string of one piece: `text` with no style.
    fn from(text: &'a str) -> (ts: TermString)
        ensures
            ts@ == seq![(TermStyle::unstyled(), text@)],
    {
        TermString::new(TermStyle::default(), text)
    }
}

impl<'a> vstd::std_specs::convert::FromSpecImpl<&'a str> for TermString {
    /// Two styled strings with the same pieces need not be equal values, so
    /// what `from` returns is stated through its view, in its own `ensures`.
    open spec fn obeys_from_spec() -> bool {
        false
    }

    open spec fn from_spec(text: &'a str) -> TermString {
        choose|ts: TermString| ts@ == seq![(TermStyle::unstyled(), text@)]
    }
}

impl From<String> for TermString {
    /// A styled string of one piece: `text` with no style.
    fn from(text: String) -> (ts: TermString)
        ensures
            ts@ == seq![(TermStyle::unstyled(), text@)],
    {
        TermString::new(TermStyle::default(), text.as_str())
    }
}

impl vstd::std_specs::convert::FromSpecImpl<String> for TermString {
    /// Two styled strings with the same pieces need not be equal values, so
    /// what `from` returns is stated through its view, in its own `ensures`.
    open spec fn obeys_from_spec() -> bool {
        false
    }

    open spec fn from_spec(text: String) -> TermString {
        choose|ts: TermString| ts@ == seq![(TermStyle::unstyled(), text@)]
    }
}

impl<'a> core::ops::AddAssign<&'a str> for TermString {
    /// The same as [`TermString::append_str`].
    fn add_assign(&mut self, text: &'a str)
        ensures
            final(self)@ == str_appended(old(self)@, text@),
    {
        self.append_str(text);
    }
}

impl core::ops::AddAssign<TermString> for TermString {
    /// The same as [`TermString::append_term_str`].
    fn add_assign(&mut self, other: TermString)
        ensures
            final(self)@ == appended(old(self)@, other@),
    {
        self.append_term_str(other);
    }
}

impl<'a> core::ops::Add<&'a str> for TermString {
    type Output = TermString;

    /// The same as [`TermString::with_appended_str`].
    fn add(self, text: &'a str) -> (ts: TermString)
        ensures
            ts@ == str_appended(self@, text@),
    {
        self.with_appended_str(text)
    }
}

impl<'a> vstd::std_specs::ops::AddSpecImpl<&'a str> for TermString {
    /// Two styled strings with the same pieces need not be equal values, so
    /// what `add` returns is stated through its view, in its own `ensures`.
    open spec fn obeys_add_spec() -> bool {
        false
    }

    open spec fn add_req(self, text: &'a str) -> bool {
        true
    }

    open spec fn add_spec(self, text: &'a str) -> TermString {
        choose|ts: TermString| ts@ == str_appended(self@, text@)
    }
}

impl core::ops::Add<TermString> for TermString {
    type Output = TermString;

    /// The same as [`TermString::with_appended_term_str`].
    fn add(self, other: TermString) -> (ts: TermString)
        ensures
            ts@ == appended(self@, other@),
    {
        self.with_appended_term_str(other)
    }
}

impl vstd::std_specs::ops::AddSpecImpl<TermString> for TermString {
    /// Two styled strings with the same pieces need not be equal values, so
    /// what `add` returns is stated through its view, in its own `ensures`.
    open spec fn obeys_add_spec() -> bool {
        false
    }

    open spec fn add_req(self, other: TermString) -> bool {
        true
    }

    open spec fn add_spec(self, other: TermString) -> TermString {
        choose|ts: TermString| ts@ == appended(self@, other@)
    }
}

} // verus!
