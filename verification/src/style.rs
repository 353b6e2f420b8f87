use vstd::prelude::*;

verus! {

/// A terminal color number, as terminals number them (0 is black, 1 is red, ...).
pub type Color = u32;

/// One terminal attribute, such as bold text or a foreground color.
#[derive(Clone, Copy, Debug, PartialEq, Eq, Structural)]
pub enum Attr {
    Bold,
    Dim,
    Italic(bool),
    Underline(bool),
    Blink,
    Standout(bool),
    Reverse,
    Secure,
    ForegroundColor(Color),
    BackgroundColor(Color),
}

/// A terminal style: for each kind of attribute, whether (and how) it is set.
///
/// Every kind of attribute has a slot of its own; a slot that is `false` or
/// `None` leaves that attribute alone.
#[derive(Clone, Copy, Debug, PartialEq, Eq, Structural)]
pub struct TermStyle {
    pub bold: bool,
    pub dim: bool,
    pub italic: Option<bool>,
    pub underline: Option<bool>,
    pub blink: bool,
    pub standout: Option<bool>,
    pub reverse: bool,
    pub secure: bool,
    pub fg: Option<Color>,
    pub bg: Option<Color>,
}

/// The slot value kept when `first` is preferred and `second` fills a gap.
pub open spec fn prefer<T>(first: Option<T>, second: Option<T>) -> Option<T> {
    if first is Some {
        first
    } else {
        second
    }
}

/// An optional attribute, as a sequence of zero or one attributes.
pub open spec fn opt_seq(slot: Option<Attr>) -> Seq<Attr> {
    match slot {
        Some(a) => seq![a],
        None => Seq::empty(),
    }
}

/// Appends the attribute, if there is one.
fn push_attr(v: &mut Vec<Attr>, slot: Option<Attr>)
    ensures
        final(v)@ == old(v)@ + opt_seq(slot),
{
    match slot {
        Some(a) => {
            v.push(a);
            assert(final(v)@ =~= old(v)@ + opt_seq(slot));
        },
        None => {
            assert(v@ =~= old(v)@ + opt_seq(slot));
        },
    }
}

/// The attributes that a sequence of slots holds, in order.
pub open spec fn slot_attrs(slots: Seq<Option<Attr>>) -> Seq<Attr>
    decreases slots.len(),
{
    if slots.len() == 0 {
        Seq::empty()
    } else {
        slot_attrs(slots.drop_last()) + opt_seq(slots.last())
    }
}

impl TermStyle {
    /// The style that sets no attribute at all.
    pub open spec fn unstyled() -> TermStyle {
        TermStyle {
            bold: false,
            dim: false,
            italic: None,
            underline: None,
            blink: false,
            standout: None,
            reverse: false,
            secure: false,
            fg: None,
            bg: None,
        }
    }

    /// `self`, with the slots it leaves unset taken from `other`.
    pub open spec fn or_with(self, other: TermStyle) -> TermStyle {
        TermStyle {
            bold: self.bold || other.bold,
            dim: self.dim || other.dim,
            italic: prefer(self.italic, other.italic),
            underline: prefer(self.underline, other.underline),
            blink: self.blink || other.blink,
            standout: prefer(self.standout, other.standout),
            reverse: self.reverse || other.reverse,
            secure: self.secure || other.secure,
            fg: prefer(self.fg, other.fg),
            bg: prefer(self.bg, other.bg),
        }
    }

    /// `self`, with every slot that `other` sets taken from `other`.
    pub open spec fn add_with(self, other: TermStyle) -> TermStyle {
        TermStyle {
            bold: self.bold || other.bold,
            dim: self.dim || other.dim,
            italic: prefer(other.italic, self.italic),
            underline: prefer(other.underline, self.underline),
            blink: self.blink || other.blink,
            standout: prefer(other.standout, self.standout),
            reverse: self.reverse || other.reverse,
            secure: self.secure || other.secure,
            fg: prefer(other.fg, self.fg),
            bg: prefer(other.bg, self.bg),
        }
    }

    /// The attribute held in each slot, in slot order.
    pub open spec fn slots(self) -> Seq<Option<Attr>> {
        seq![
            if self.bold { Some(Attr::Bold) } else { None },
            if self.dim { Some(Attr::Dim) } else { None },
            match self.italic { Some(b) => Some(Attr::Italic(b)), None => None },
            match self.underline { Some(b) => Some(Attr::Underline(b)), None => None },
            if self.blink { Some(Attr::Blink) } else { None },
            match self.standout { Some(b) => Some(Attr::Standout(b)), None => None },
            if self.reverse { Some(Attr::Reverse) } else { None },
            if self.secure { Some(Attr::Secure) } else { None },
            match self.fg { Some(c) => Some(Attr::ForegroundColor(c)), None => None },
            match self.bg { Some(c) => Some(Attr::BackgroundColor(c)), None => None },
        ]
    }

    /// The attributes that the style sets, in slot order.
    pub open spec fn attr_seq(self) -> Seq<Attr> {
        slot_attrs(self.slots())
    }

    /// The bold style.
    pub fn bold() -> (s: TermStyle)
        ensures
            s == (TermStyle { bold: true, ..TermStyle::unstyled() }),
    {
        TermStyle { bold: true, ..TermStyle::default() }
    }

    /// The dim (faint) style.
    pub fn dim() -> (s: TermStyle)
        ensures
            s == (TermStyle { dim: true, ..TermStyle::unstyled() }),
    {
        TermStyle { dim: true, ..TermStyle::default() }
    }

    /// The style that turns italics on or off.
    pub fn italic(on: bool) -> (s: TermStyle)
        ensures
            s == (TermStyle { italic: Some(on), ..TermStyle::unstyled() }),
    {
        TermStyle { italic: Some(on), ..TermStyle::default() }
    }

    /// The style that turns underlining on or off.
    pub fn underline(on: bool) -> (s: TermStyle)
        ensures
            s == (TermStyle { underline: Some(on), ..TermStyle::unstyled() }),
    {
        TermStyle { underline: Some(on), ..TermStyle::default() }
    }

    /// The blinking style.
    pub fn blink() -> (s: TermStyle)
        ensures
            s == (TermStyle { blink: true, ..TermStyle::unstyled() }),
    {
        TermStyle { blink: true, ..TermStyle::default() }
    }

    /// The style that turns standout mode on or off.
    pub fn standout(on: bool) -> (s: TermStyle)
        ensures
            s == (TermStyle { standout: Some(on), ..TermStyle::unstyled() }),
    {
        TermStyle { standout: Some(on), ..TermStyle::default() }
    }

    /// The reverse-video style.
    pub fn reverse() -> (s: TermStyle)
        ensures
            s == (TermStyle { reverse: true, ..TermStyle::unstyled() }),
    {
        TermStyle { reverse: true, ..TermStyle::default() }
    }

    /// The secure (hidden text) style.
    pub fn secure() -> (s: TermStyle)
        ensures
            s == (TermStyle { secure: true, ..TermStyle::unstyled() }),
    {
        TermStyle { secure: true, ..TermStyle::default() }
    }

    /// The style with the given foreground color.
    pub fn fg(color: Color) -> (s: TermStyle)
        ensures
            s == (TermStyle { fg: Some(color), ..TermStyle::unstyled() }),
    {
        TermStyle { fg: Some(color), ..TermStyle::default() }
    }

    /// The style with the given background color.
    pub fn bg(color: Color) -> (s: TermStyle)
        ensures
            s == (TermStyle { bg: Some(color), ..TermStyle::unstyled() }),
    {
        TermStyle { bg: Some(color), ..TermStyle::default() }
    }

    /// Unsets every slot.
    pub fn reset(&mut self)
        ensures
            *final(self) == TermStyle::unstyled(),
    {
        *self = TermStyle::default();
    }

    /// Fills the slots that `self` leaves unset from `other`.
    pub fn or_style(&mut self, other: TermStyle)
        ensures
            *final(self) == old(self).or_with(other),
    {
        self.bold = self.bold || other.bold;
        self.dim = self.dim || other.dim;
        if self.italic.is_none() {
            self.italic = other.italic;
        }
        if self.underline.is_none() {
            self.underline = other.underline;
        }
        self.blink = self.blink || other.blink;
        if self.standout.is_none() {
            self.standout = other.standout;
        }
        self.reverse = self.reverse || other.reverse;
        self.secure = self.secure || other.secure;
        if self.fg.is_none() {
            self.fg = other.fg;
        }
        if self.bg.is_none() {
            self.bg = other.bg;
        }
    }

    /// Overrides the slots of `self` with every slot that `other` sets.
    pub fn add_style(&mut self, other: TermStyle)
        ensures
            *final(self) == old(self).add_with(other),
    {
        self.bold = self.bold || other.bold;
        self.dim = self.dim || other.dim;
        if other.italic.is_some() {
            self.italic = other.italic;
        }
        if other.underline.is_some() {
            self.underline = other.underline;
        }
        self.blink = self.blink || other.blink;
        if other.standout.is_some() {
            self.standout = other.standout;
        }
        self.reverse = self.reverse || other.reverse;
        self.secure = self.secure || other.secure;
        if other.fg.is_some() {
            self.fg = other.fg;
        }
        if other.bg.is_some() {
            self.bg = other.bg;
        }
    }

    /// The attribute held in slot `i`.
    fn slot(&self, i: usize) -> (a: Option<Attr>)
        requires
            i < 10,
        ensures
            a == self.slots()[i as int],
    {
        match i {
            0 => if self.bold { Some(Attr::Bold) } else { None },
            1 => if self.dim { Some(Attr::Dim) } else { None },
            2 => match self.italic { Some(b) => Some(Attr::Italic(b)), None => None },
            3 => match self.underline { Some(b) => Some(Attr::Underline(b)), None => None },
            4 => if self.blink { Some(Attr::Blink) } else { None },
            5 => match self.standout { Some(b) => Some(Attr::Standout(b)), None => None },
            6 => if self.reverse { Some(Attr::Reverse) } else { None },
            7 => if self.secure { Some(Attr::Secure) } else { None },
            8 => match self.fg { Some(c) => Some(Attr::ForegroundColor(c)), None => None },
            _ => match self.bg { Some(c) => Some(Attr::BackgroundColor(c)), None => None },
        }
    }

    /// The attributes that the style sets, in slot order.
    pub fn attrs(&self) -> (v: Vec<Attr>)
        ensures
            v@ == self.attr_seq(),
            v@.contains(Attr::Bold) == self.bold,
            v@.contains(Attr::Dim) == self.dim,
            v@.contains(Attr::Blink) == self.blink,
            v@.contains(Attr::Reverse) == self.reverse,
            v@.contains(Attr::Secure) == self.secure,
            forall|b: bool| #[trigger] v@.contains(Attr::Italic(b)) == (self.italic == Some(b)),
            forall|b: bool| #[trigger] v@.contains(Attr::Underline(b)) == (self.underline == Some(b)),
            forall|b: bool| #[trigger] v@.contains(Attr::Standout(b)) == (self.standout == Some(b)),
            forall|c: Color| #[trigger] v@.contains(Attr::ForegroundColor(c)) == (self.fg == Some(c)),
            forall|c: Color| #[trigger] v@.contains(Attr::BackgroundColor(c)) == (self.bg == Some(c)),
    {
        proof {
            law_attrs_match_slots(*self);
        }
        let ghost slots = self.slots();
        let mut v: Vec<Attr> = Vec::new();
        for i in 0..10usize
            invariant
                slots == self.slots(),
                slots.len() == 10,
                v@ == slot_attrs(slots.take(i as int)),
        {
            let a = self.slot(i);
            push_attr(&mut v, a);
            assert(slots.take(i + 1).drop_last() =~= slots.take(i as int));
        }
        assert(slots.take(10) =~= slots);
        v
    }
}

impl Default for TermStyle {
    /// The style that sets no attribute.
    fn default() -> (s: TermStyle)
        ensures
            s == TermStyle::unstyled(),
    {
        TermStyle {
            bold: false,
            dim: false,
            italic: None,
            underline: None,
            blink: false,
            standout: None,
            reverse: false,
            secure: false,
            fg: None,
            bg: None,
        }
    }
}

impl core::ops::Add<TermStyle> for TermStyle {
    type Output = TermStyle;

    /// `self` with `other` added (see [`TermStyle::add_style`]).
    fn add(self, other: TermStyle) -> (s: TermStyle)
        ensures
            s == self.add_with(other),
    {
        let mut s = self;
        s.add_style(other);
        s
    }
}

impl vstd::std_specs::ops::AddSpecImpl<TermStyle> for TermStyle {
    open spec fn obeys_add_spec() -> bool {
        true
    }

    open spec fn add_req(self, other: TermStyle) -> bool {
        true
    }

    open spec fn add_spec(self, other: TermStyle) -> TermStyle {
        self.add_with(other)
    }
}

/// The style with no attribute changes nothing when added or or-ed, on
/// either side.
pub proof fn law_unstyled_is_neutral(s: TermStyle)
    ensures
        s.add_with(TermStyle::unstyled()) == s,
        TermStyle::unstyled().add_with(s) == s,
        s.or_with(TermStyle::unstyled()) == s,
        TermStyle::unstyled().or_with(s) == s,
{
}

/// Or-ing `b` into `a` is adding `a` to `b`: the slots of `a` win.
pub proof fn law_or_is_flipped_add(a: TermStyle, b: TermStyle)
    ensures
        a.or_with(b) == b.add_with(a),
{
}

/// Adding styles one after the other is adding them all at once: the later
/// style wins in every slot it sets.
pub proof fn law_add_associative(a: TermStyle, b: TermStyle, c: TermStyle)
    ensures
        a.add_with(b).add_with(c) == a.add_with(b.add_with(c)),
{
}

/// Adding a style that was already added changes nothing.
pub proof fn law_add_idempotent(a: TermStyle, b: TermStyle)
    ensures
        a.add_with(b).add_with(b) == a.add_with(b),
        a.or_with(b).or_with(b) == a.or_with(b),
{
}

/// Adding `t` to `s`: every slot that `t` sets takes `t`'s value, every slot
/// that `t` leaves unset keeps `s`'s value, and a flag is on when either style
/// turns it on.
pub proof fn law_add_style_slots(s: TermStyle, t: TermStyle)
    ensures
        s.add_with(t).bold == (s.bold || t.bold),
        s.add_with(t).dim == (s.dim || t.dim),
        s.add_with(t).blink == (s.blink || t.blink),
        s.add_with(t).reverse == (s.reverse || t.reverse),
        s.add_with(t).secure == (s.secure || t.secure),
        forall|b: bool| t.italic == Some(b) ==> s.add_with(t).italic == Some(b),
        t.italic is None ==> s.add_with(t).italic == s.italic,
        forall|b: bool| t.underline == Some(b) ==> s.add_with(t).underline == Some(b),
        t.underline is None ==> s.add_with(t).underline == s.underline,
        forall|b: bool| t.standout == Some(b) ==> s.add_with(t).standout == Some(b),
        t.standout is None ==> s.add_with(t).standout == s.standout,
        forall|c: Color| t.fg == Some(c) ==> s.add_with(t).fg == Some(c),
        t.fg is None ==> s.add_with(t).fg == s.fg,
        forall|c: Color| t.bg == Some(c) ==> s.add_with(t).bg == Some(c),
        t.bg is None ==> s.add_with(t).bg == s.bg,
{
}

/// Or-ing `t` into `s`: every slot that `s` sets keeps `s`'s value, every
/// slot that `s` leaves unset takes `t`'s value, and a flag is on when either
/// style turns it on.
pub proof fn law_or_style_slots(s: TermStyle, t: TermStyle)
    ensures
        s.or_with(t).bold == (s.bold || t.bold),
        s.or_with(t).dim == (s.dim || t.dim),
        s.or_with(t).blink == (s.blink || t.blink),
        s.or_with(t).reverse == (s.reverse || t.reverse),
        s.or_with(t).secure == (s.secure || t.secure),
        forall|b: bool| s.italic == Some(b) ==> s.or_with(t).italic == Some(b),
        s.italic is None ==> s.or_with(t).italic == t.italic,
        forall|b: bool| s.underline == Some(b) ==> s.or_with(t).underline == Some(b),
        s.underline is None ==> s.or_with(t).underline == t.underline,
        forall|b: bool| s.standout == Some(b) ==> s.or_with(t).standout == Some(b),
        s.standout is None ==> s.or_with(t).standout == t.standout,
        forall|c: Color| s.fg == Some(c) ==> s.or_with(t).fg == Some(c),
        s.fg is None ==> s.or_with(t).fg == t.fg,
        forall|c: Color| s.bg == Some(c) ==> s.or_with(t).bg == Some(c),
        s.bg is None ==> s.or_with(t).bg == t.bg,
{
}

proof fn lemma_slot_attrs_contains(slots: Seq<Option<Attr>>, a: Attr)
    ensures
        slot_attrs(slots).contains(a) <==> exists|i: int| 0 <= i < slots.len() && slots[i] == Some(a),
    decreases slots.len(),
{
    if slots.len() > 0 {
        let init = slots.drop_last();
        lemma_slot_attrs_contains(init, a);
        let left = slot_attrs(init);
        let right = opt_seq(slots.last());
        if slot_attrs(slots).contains(a) {
            let k = choose|k: int| 0 <= k < slot_attrs(slots).len() && slot_attrs(slots)[k] == a;
            if k < left.len() {
                assert(left[k] == a);
                let i = choose|i: int| 0 <= i < init.len() && init[i] == Some(a);
                assert(slots[i] == init[i]);
            } else {
                assert(right[k - left.len()] == a);
                assert(slots[slots.len() - 1] == Some(a));
            }
        }
        if exists|i: int| 0 <= i < slots.len() && slots[i] == Some(a) {
            let i = choose|i: int| 0 <= i < slots.len() && slots[i] == Some(a);
            if i < slots.len() - 1 {
                assert(init[i] == Some(a));
                assert(left.contains(a));
                let k = choose|k: int| 0 <= k < left.len() && left[k] == a;
                assert(slot_attrs(slots)[k] == a);
            } else {
                assert(slot_attrs(slots)[left.len() as int] == a);
            }
        }
    }
}

/// The attributes a style writes are exactly those its slots hold, each
/// carrying the slot's own value.
pub proof fn law_attrs_match_slots(s: TermStyle)
    ensures
        s.attr_seq().contains(Attr::Bold) == s.bold,
        s.attr_seq().contains(Attr::Dim) == s.dim,
        s.attr_seq().contains(Attr::Blink) == s.blink,
        s.attr_seq().contains(Attr::Reverse) == s.reverse,
        s.attr_seq().contains(Attr::Secure) == s.secure,
        forall|b: bool| #[trigger] s.attr_seq().contains(Attr::Italic(b)) == (s.italic == Some(b)),
        forall|b: bool|
            #[trigger] s.attr_seq().contains(Attr::Underline(b)) == (s.underline == Some(b)),
        forall|b: bool|
            #[trigger] s.attr_seq().contains(Attr::Standout(b)) == (s.standout == Some(b)),
        forall|c: Color|
            #[trigger] s.attr_seq().contains(Attr::ForegroundColor(c)) == (s.fg == Some(c)),
        forall|c: Color|
            #[trigger] s.attr_seq().contains(Attr::BackgroundColor(c)) == (s.bg == Some(c)),
{
    let sl = s.slots();
    assert forall|a: Attr| #[trigger] s.attr_seq().contains(a) == (exists|i: int|
        0 <= i < sl.len() && sl[i] == Some(a)) by {
        lemma_slot_attrs_contains(sl, a);
    }
    assert(sl[0] == (if s.bold { Some(Attr::Bold) } else { None }));
    assert(sl[1] == (if s.dim { Some(Attr::Dim) } else { None }));
    assert(sl[4] == (if s.blink { Some(Attr::Blink) } else { None }));
    assert(sl[6] == (if s.reverse { Some(Attr::Reverse) } else { None }));
    assert(sl[7] == (if s.secure { Some(Attr::Secure) } else { None }));
    assert(s.italic is Some ==> sl[2] == Some(Attr::Italic(s.italic->0)));
    assert(s.underline is Some ==> sl[3] == Some(Attr::Underline(s.underline->0)));
    assert(s.standout is Some ==> sl[5] == Some(Attr::Standout(s.standout->0)));
    assert(s.fg is Some ==> sl[8] == Some(Attr::ForegroundColor(s.fg->0)));
    assert(s.bg is Some ==> sl[9] == Some(Attr::BackgroundColor(s.bg->0)));
}

/// The default style sets no slot.
pub proof fn law_unstyled_sets_nothing()
    ensures
        !TermStyle::unstyled().bold && !TermStyle::unstyled().dim && TermStyle::unstyled().italic is None
            && TermStyle::unstyled().underline is None && !TermStyle::unstyled().blink
            && TermStyle::unstyled().standout is None && !TermStyle::unstyled().reverse
            && !TermStyle::unstyled().secure && TermStyle::unstyled().fg is None
            && TermStyle::unstyled().bg is None,
{
}

} // verus!
